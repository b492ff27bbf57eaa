//! What the header preprocessing does to a text that holds complete version
//! elements: it removes exactly those elements, reports the first version
//! IRI, and a second run changes nothing.
//!
//! The text is given as its pieces; the pieces that are complete
//! `owl:versionIRI` or `owl:versionInfo` elements are the version elements,
//! the others are any text. The one thing asked of the other text is that
//! taking the version elements out leaves no version element opening in it:
//! where it does, a malformed element is left, or a removal joins two
//! fragments into a new opening, and the preprocessing cannot remove it.

use vstd::prelude::*;

use crate::anchor::{
    close_tag, element_end, open_tag, preprocessed_text, preprocessed_version, rdf_resource,
    self_closing_at, strip_paired, strip_version_iris, version_iri_element_end, VERSION_INFO_TAG,
    VERSION_IRI_CLOSE, VERSION_IRI_OPEN,
};
use crate::markup::{next_quote, tag_close};
use crate::text::{cut, find_from, lemma_find_from, lemma_find_from_some, occurs_at, occurs_from};

verus! {

/// Text with no `<`.
pub open spec fn no_open_bracket(t: Seq<char>) -> bool {
    forall|i: int| 0 <= i < t.len() ==> #[trigger] t[i] != '<'
}

/// The quote state after scanning `t` from quote state `q` (see
/// `next_quote`).
pub open spec fn quotes_after(t: Seq<char>, q: int) -> int
    decreases t.len(),
{
    if t.len() == 0 {
        q
    } else {
        quotes_after(t.drop_first(), next_quote(q, t[0]))
    }
}

/// Scanning `t` from quote state `q` meets no `>` outside quotes.
pub open spec fn no_bare_close(t: Seq<char>, q: int) -> bool
    decreases t.len(),
{
    t.len() == 0 || (!(q == 0 && t[0] == '>') && no_bare_close(t.drop_first(), next_quote(q, t[0])))
}

/// The attributes of a start tag: no `<`, no `>` outside quotes, and every
/// quote closed.
pub open spec fn attributes_ok(a: Seq<char>) -> bool {
    &&& no_open_bracket(a)
    &&& no_bare_close(a, 0)
    &&& quotes_after(a, 0) == 0
}

/// `e` is the element named `name` with attributes `a` and, when paired,
/// text `c`: `<name a/>`, or `<name a>c</name>` where `a` does not end
/// with `/` and `c` holds no `<`.
pub open spec fn element_form(e: Seq<char>, name: Seq<char>, a: Seq<char>, c: Seq<char>) -> bool {
    &&& attributes_ok(a)
    &&& {
        ||| e == open_tag(name) + a + seq!['/', '>']
        ||| no_open_bracket(c) && !(a.len() > 0 && a.last() == '/') && e == open_tag(name) + a
            + seq!['>'] + c + close_tag(name)
    }
}

/// `e` is a complete element named `name`.
pub open spec fn is_element(e: Seq<char>, name: Seq<char>) -> bool {
    exists|a: Seq<char>, c: Seq<char>| #[trigger] element_form(e, name, a, c)
}

/// The name of the `owl:versionIRI` element.
pub open spec fn version_iri_name() -> Seq<char> {
    VERSION_IRI_OPEN@.drop_first()
}

/// The pieces, one after the other.
pub open spec fn joined(ps: Seq<Seq<char>>) -> Seq<char>
    decreases ps.len(),
{
    if ps.len() == 0 {
        Seq::empty()
    } else {
        ps[0] + joined(ps.drop_first())
    }
}

/// The pieces without the elements named `name`.
pub open spec fn without(ps: Seq<Seq<char>>, name: Seq<char>) -> Seq<Seq<char>>
    decreases ps.len(),
{
    if ps.len() == 0 {
        ps
    } else if is_element(ps[0], name) {
        without(ps.drop_first(), name)
    } else {
        seq![ps[0]] + without(ps.drop_first(), name)
    }
}

/// The `rdf:resource` of the first `owl:versionIRI` element among the
/// pieces that has one.
pub open spec fn first_version(ps: Seq<Seq<char>>) -> Option<Seq<char>>
    decreases ps.len(),
{
    if ps.len() == 0 {
        None
    } else if is_element(ps[0], version_iri_name()) && rdf_resource(ps[0]) is Some {
        rdf_resource(ps[0])
    } else {
        first_version(ps.drop_first())
    }
}

/// The pieces that are neither kind of version element.
pub open spec fn plain_pieces(ps: Seq<Seq<char>>) -> Seq<Seq<char>> {
    without(without(ps, version_iri_name()), VERSION_INFO_TAG@)
}

/// Characters that a tag scan passes in quote state 0 without change: no
/// `>` and no quote.
spec fn quiet(t: Seq<char>) -> bool {
    forall|i: int| 0 <= i < t.len() ==> #[trigger] t[i] != '>' && t[i] != '"' && t[i] != '\''
}

/// A name that holds no `<`, `>`, `/` or quote.
spec fn name_ok(name: Seq<char>) -> bool {
    &&& name.len() >= 1
    &&& quiet(name)
    &&& forall|i: int| 0 <= i < name.len() ==> #[trigger] name[i] != '<' && name[i] != '/'
}

/// A pattern whose only `<` is its first character.
spec fn opening_pattern(pat: Seq<char>) -> bool {
    &&& pat.len() >= 1
    &&& pat[0] == '<'
    &&& forall|i: int| 1 <= i < pat.len() ==> #[trigger] pat[i] != '<'
}

proof fn lemma_literals()
    ensures
        VERSION_IRI_OPEN@ == open_tag(version_iri_name()),
        VERSION_IRI_CLOSE@ == close_tag(version_iri_name()),
        name_ok(version_iri_name()),
        name_ok(VERSION_INFO_TAG@),
        opening_pattern(VERSION_IRI_OPEN@),
        opening_pattern(open_tag(VERSION_INFO_TAG@)),
{
    reveal_strlit("<owl:versionIRI");
    reveal_strlit("</owl:versionIRI>");
    reveal_strlit("owl:versionInfo");
    assert(VERSION_IRI_OPEN@ =~= open_tag(version_iri_name()));
    assert(VERSION_IRI_CLOSE@ =~= close_tag(version_iri_name()));
}

/// `find_from` at a first occurrence.
proof fn lemma_find_is(s: Seq<char>, pat: Seq<char>, from: int, k: int)
    requires
        0 <= from <= k,
        occurs_at(s, pat, k),
        forall|j: int| from <= j < k ==> !occurs_at(s, pat, j),
    ensures
        find_from(s, pat, from) == Some(k),
{
    lemma_find_from(s, pat, from);
}

/// In `pre + e + r`, where `e` starts with `<`, a pattern whose only `<`
/// is its first character occurs before `e` only inside `pre`, so only
/// where it occurs in `pre + t` too.
proof fn lemma_no_occurrence_before(
    pre: Seq<char>,
    e: Seq<char>,
    r: Seq<char>,
    t: Seq<char>,
    pat: Seq<char>,
)
    requires
        !occurs_from(pre + t, pat, 0),
        e.len() >= 1,
        e[0] == '<',
        opening_pattern(pat),
    ensures
        forall|k: int| 0 <= k < pre.len() ==> !occurs_at(pre + e + r, pat, k),
{
    let s = pre + e + r;
    assert forall|k: int| 0 <= k < pre.len() implies !occurs_at(s, pat, k) by {
        if occurs_at(s, pat, k) {
            if k + pat.len() <= pre.len() {
                assert((pre + t).subrange(k, k + pat.len()) =~= s.subrange(k, k + pat.len()));
                assert(occurs_at(pre + t, pat, k));
            } else {
                assert(s.subrange(k, k + pat.len())[pre.len() - k] == pat[pre.len() - k]);
                assert(s[pre.len() as int] == e[0]);
            }
        }
    }
}

/// A tag scan over a stretch `x` of the text that holds no `>` outside
/// quotes goes on after it in the quote state that `x` leaves.
proof fn lemma_tag_close_over(s: Seq<char>, i: int, q: int, x: Seq<char>)
    requires
        0 <= i,
        i + x.len() <= s.len(),
        forall|t: int| 0 <= t < x.len() ==> #[trigger] s[i + t] == x[t],
        no_bare_close(x, q),
    ensures
        tag_close(s, i, q) == tag_close(s, i + x.len(), quotes_after(x, q)),
    decreases x.len(),
{
    if x.len() > 0 {
        assert(s[i + 0] == x[0]);
        let y = x.drop_first();
        assert forall|t: int| 0 <= t < y.len() implies #[trigger] s[i + 1 + t] == y[t] by {
            assert(s[i + (t + 1)] == x[t + 1]);
        }
        lemma_tag_close_over(s, i + 1, next_quote(q, x[0]), y);
    }
}

/// A tag scan passes quiet characters in quote state 0.
proof fn lemma_quiet(x: Seq<char>)
    requires
        quiet(x),
    ensures
        no_bare_close(x, 0),
        quotes_after(x, 0) == 0,
    decreases x.len(),
{
    if x.len() > 0 {
        let y = x.drop_first();
        assert forall|i: int| 0 <= i < y.len() implies #[trigger] y[i] != '>' && y[i] != '"' && y[i]
            != '\'' by {
            assert(y[i] == x[i + 1]);
        }
        lemma_quiet(y);
    }
}

/// A complete element that starts at `pre.len()` in `pre + e + r` ends at
/// its own end.
proof fn lemma_element_end_at(pre: Seq<char>, e: Seq<char>, r: Seq<char>, name: Seq<char>)
    requires
        is_element(e, name),
        name_ok(name),
    ensures
        e.len() >= 2,
        e[0] == '<',
        element_end(pre + e + r, pre.len() as int, close_tag(name)) == Some(pre.len() + e.len() as int),
        forall|i: int| 0 <= i < name.len() + 1 ==> #[trigger] e[i] == open_tag(name)[i],
{
    let s = pre + e + r;
    let st = pre.len() as int;
    let (a, c) = choose|a: Seq<char>, c: Seq<char>| #[trigger] element_form(e, name, a, c);
    let o = open_tag(name);
    let cl = close_tag(name);
    assert(e[0] == '<');
    assert forall|i: int| 0 <= i < e.len() implies #[trigger] s[st + i] == e[i] by {}
    lemma_quiet(name);
    lemma_tag_close_over(s, st + 1, 0, name);
    assert forall|t: int| 0 <= t < a.len() implies #[trigger] s[st + 1 + name.len() + t] == a[t] by {
        assert(s[st + (1 + name.len() + t)] == e[1 + name.len() + t]);
    }
    lemma_tag_close_over(s, st + 1 + name.len(), 0, a);
    let g = st + 1 + name.len() + a.len();
    if e == o + a + seq!['/', '>'] {
        assert(s[g] == e[g - st]);
        assert(s[g + 1] == e[g + 1 - st]);
        assert(tag_close(s, g, 0) == tag_close(s, g + 1, 0));
        assert(tag_close(s, st + 1, 0) == Some(g + 1));
        assert(self_closing_at(s, st));
    } else {
        assert(s[g] == e[g - st]);
        assert(tag_close(s, st + 1, 0) == Some(g));
        assert(s[g - 1] == e[g - 1 - st]);
        if a.len() > 0 {
            assert(a[a.len() - 1] == e[g - 1 - st]);
        } else {
            assert(name[name.len() - 1] == e[g - 1 - st]);
        }
        assert(!self_closing_at(s, st));
        let ce = st + e.len() - cl.len();
        assert(s.subrange(ce, ce + cl.len()) =~= cl);
        assert forall|j: int| st <= j < ce implies !occurs_at(s, cl, j) by {
            if occurs_at(s, cl, j) {
                assert(s.subrange(j, j + cl.len())[0] == '<');
                assert(s.subrange(j, j + cl.len())[1] == '/');
                assert(s[st + (j - st)] == e[j - st]);
                assert(s[st + (j + 1 - st)] == e[j + 1 - st]);
                if j == st {
                    assert(name[0] == e[1]);
                } else if j - st < o.len() {
                    assert(name[j - st - 1] == e[j - st]);
                } else if j - st < o.len() + a.len() {
                    assert(a[j - st - o.len()] == e[j - st]);
                } else if j - st > o.len() + a.len() {
                    assert(c[j - st - o.len() - a.len() - 1] == e[j - st]);
                }
            }
        }
        lemma_find_is(s, cl, st, ce);
    }
}

/// `joined` of a piece put in front.
proof fn lemma_joined_cons(p: Seq<char>, ps: Seq<Seq<char>>)
    ensures
        joined(seq![p] + ps) == p + joined(ps),
{
    assert((seq![p] + ps).drop_first() =~= ps);
}

/// Removing the `owl:versionIRI` elements from `pre` followed by the
/// pieces keeps `pre` and the other pieces, and finds the first version.
proof fn lemma_strip_iris_pieces(pre: Seq<char>, ps: Seq<Seq<char>>, found: Option<Seq<char>>)
    requires
        !occurs_from(pre + joined(without(ps, version_iri_name())), VERSION_IRI_OPEN@, 0),
    ensures
        strip_version_iris(pre + joined(ps), 0, found).0 == pre + joined(without(ps, version_iri_name())),
        strip_version_iris(pre + joined(ps), 0, found).1 == if found is Some {
            found
        } else {
            first_version(ps)
        },
    decreases ps.len(),
{
    lemma_literals();
    let name = version_iri_name();
    if ps.len() == 0 {
        assert(pre + joined(ps) =~= pre);
        assert(pre + joined(without(ps, name)) =~= pre);
        lemma_find_from(pre, VERSION_IRI_OPEN@, 0);
        lemma_find_from_some(pre, VERSION_IRI_OPEN@, 0);
    } else {
        let p = ps[0];
        let rest = ps.drop_first();
        let s = pre + joined(ps);
        assert(s =~= pre + p + joined(rest));
        if is_element(p, name) {
            lemma_element_end_at(pre, p, joined(rest), name);
            lemma_no_occurrence_before(pre, p, joined(rest), joined(without(rest, name)), VERSION_IRI_OPEN@);
            assert(s.subrange(pre.len() as int, pre.len() + VERSION_IRI_OPEN@.len() as int) =~= VERSION_IRI_OPEN@);
            lemma_find_is(s, VERSION_IRI_OPEN@, 0, pre.len() as int);
            let end = pre.len() + p.len() as int;
            assert(version_iri_element_end(s, pre.len() as int) == Some(end));
            assert(cut(s, pre.len() as int, end) =~= pre + joined(rest));
            assert(s.subrange(pre.len() as int, end) =~= p);
            let found2 = if found is None {
                rdf_resource(s.subrange(pre.len() as int, end))
            } else {
                found
            };
            lemma_strip_iris_pieces(pre, rest, found2);
        } else {
            lemma_joined_cons(p, without(rest, name));
            assert((pre + p) + joined(without(rest, name)) =~= pre + (p + joined(without(rest, name))));
            assert(s =~= (pre + p) + joined(rest));
            lemma_strip_iris_pieces(pre + p, rest, found);
        }
    }
}

/// Removing the `owl:versionInfo` elements from `pre` followed by the
/// pieces keeps `pre` and the other pieces.
proof fn lemma_strip_infos_pieces(pre: Seq<char>, ps: Seq<Seq<char>>)
    requires
        !occurs_from(pre + joined(without(ps, VERSION_INFO_TAG@)), open_tag(VERSION_INFO_TAG@), 0),
    ensures
        strip_paired(pre + joined(ps), VERSION_INFO_TAG@) == pre + joined(without(ps, VERSION_INFO_TAG@)),
    decreases ps.len(),
{
    lemma_literals();
    let name = VERSION_INFO_TAG@;
    let open = open_tag(name);
    if ps.len() == 0 {
        assert(pre + joined(ps) =~= pre);
        assert(pre + joined(without(ps, name)) =~= pre);
        lemma_find_from(pre, open, 0);
        lemma_find_from_some(pre, open, 0);
    } else {
        let p = ps[0];
        let rest = ps.drop_first();
        let s = pre + joined(ps);
        assert(s =~= pre + p + joined(rest));
        if is_element(p, name) {
            lemma_element_end_at(pre, p, joined(rest), name);
            lemma_no_occurrence_before(pre, p, joined(rest), joined(without(rest, name)), open);
            assert(s.subrange(pre.len() as int, pre.len() + open.len() as int) =~= open);
            lemma_find_is(s, open, 0, pre.len() as int);
            let end = pre.len() + p.len() as int;
            assert(cut(s, pre.len() as int, end) =~= pre + joined(rest));
            lemma_strip_infos_pieces(pre, rest);
        } else {
            lemma_joined_cons(p, without(rest, name));
            assert((pre + p) + joined(without(rest, name)) =~= pre + (p + joined(without(rest, name))));
            assert(s =~= (pre + p) + joined(rest));
            lemma_strip_infos_pieces(pre + p, rest);
        }
    }
}

/// Text with no version element opening passes the preprocessing unchanged
/// and reports no version.
pub proof fn lemma_preprocess_unchanged(y: Seq<char>)
    requires
        !occurs_from(y, VERSION_IRI_OPEN@, 0),
        !occurs_from(y, open_tag(VERSION_INFO_TAG@), 0),
    ensures
        preprocessed_text(y) == y,
        preprocessed_version(y) is None,
{
    lemma_find_from_some(y, VERSION_IRI_OPEN@, 0);
    lemma_find_from_some(y, open_tag(VERSION_INFO_TAG@), 0);
}

/// On a text given as pieces, of which the complete `owl:versionIRI` and
/// `owl:versionInfo` elements (see `element_form`) are the version
/// elements: whenever taking the version elements out leaves no version
/// element opening (once the `owl:versionIRI` ones are out, and once both
/// kinds are), the preprocessing removes exactly the version elements,
/// leaving the other pieces, and reports the resource of the first
/// `owl:versionIRI` element that has one. Preprocessing that again changes
/// nothing and reports no version.
pub proof fn law_version_elements_removed(pieces: Seq<Seq<char>>)
    requires
        !occurs_from(joined(without(pieces, version_iri_name())), VERSION_IRI_OPEN@, 0),
        !occurs_from(joined(plain_pieces(pieces)), VERSION_IRI_OPEN@, 0),
        !occurs_from(joined(plain_pieces(pieces)), open_tag(VERSION_INFO_TAG@), 0),
    ensures
        preprocessed_text(joined(pieces)) == joined(plain_pieces(pieces)),
        preprocessed_version(joined(pieces)) == first_version(pieces),
        !occurs_from(preprocessed_text(joined(pieces)), VERSION_IRI_OPEN@, 0),
        !occurs_from(preprocessed_text(joined(pieces)), open_tag(VERSION_INFO_TAG@), 0),
        preprocessed_text(preprocessed_text(joined(pieces))) == preprocessed_text(joined(pieces)),
        preprocessed_version(preprocessed_text(joined(pieces))) is None,
{
    let empty = Seq::<char>::empty();
    let x = joined(pieces);
    let mid = without(pieces, version_iri_name());
    assert(empty + x =~= x);
    assert(empty + joined(mid) =~= joined(mid));
    lemma_strip_iris_pieces(empty, pieces, None);
    let out = joined(plain_pieces(pieces));
    assert(empty + out =~= out);
    lemma_strip_infos_pieces(empty, mid);
    lemma_preprocess_unchanged(out);
}

} // verus!
