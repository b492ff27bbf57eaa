//! Lexical scoring support: label normalisation and the token sets of
//! normalised labels. The scores themselves are floating point and are
//! computed outside this crate's verified part.

use vstd::prelude::*;

use crate::hierarchy::{contains_string, views};
use crate::text::{chars_of, string_of};

verus! {

broadcast use vstd::seq_lib::group_seq_properties;

/// Unicode lower-casing of a string, as `str::to_lowercase` performs it
/// (per character, with the final-sigma rule).
pub uninterp spec fn unicode_lowercase(s: Seq<char>) -> Seq<char>;

/// The Unicode `Alphabetic` or `Numeric` property, as `char::is_alphanumeric` reads it.
pub uninterp spec fn unicode_alphanumeric(c: char) -> bool;

/// The Unicode `White_Space` property, which `char::is_whitespace` reads:
/// the tab to carriage-return controls, the space, next line, no-break
/// space, Ogham space mark, the en quad to hair space, the line and
/// paragraph separators, the narrow no-break space, the medium mathematical
/// space and the ideographic space.
pub open spec fn unicode_whitespace(c: char) -> bool {
    let n = c as u32;
    ||| 0x9 <= n <= 0xD
    ||| n == 0x20
    ||| n == 0x85
    ||| n == 0xA0
    ||| n == 0x1680
    ||| 0x2000 <= n <= 0x200A
    ||| n == 0x2028
    ||| n == 0x2029
    ||| n == 0x202F
    ||| n == 0x205F
    ||| n == 0x3000
}

/// `str::to_lowercase`. Trusted: the result is `unicode_lowercase` of the
/// text, a function of the text alone.
#[verifier::external_body]
fn str_to_lowercase(s: &str) -> (res: String)
    ensures
        res@ == unicode_lowercase(s@),
{
    s.to_lowercase()
}

/// `char::is_alphanumeric`. Trusted: the result is `unicode_alphanumeric` of `c`.
#[verifier::external_body]
fn char_is_alphanumeric(c: char) -> (res: bool)
    ensures
        res == unicode_alphanumeric(c),
{
    c.is_alphanumeric()
}

/// Whether `c` has the Unicode `White_Space` property.
fn char_is_whitespace(c: char) -> (res: bool)
    ensures
        res == unicode_whitespace(c),
{
    let n = c as u32;
    (0x9 <= n && n <= 0xD) || n == 0x20 || n == 0x85 || n == 0xA0 || n == 0x1680 || (0x2000 <= n
        && n <= 0x200A) || n == 0x2028 || n == 0x2029 || n == 0x202F || n == 0x205F || n == 0x3000
}

/// The character that normalisation keeps in place of `c`: itself when it
/// is alphanumeric or a space, a space otherwise.
pub open spec fn keep_char(c: char) -> char {
    if unicode_alphanumeric(c) || c == ' ' {
        c
    } else {
        ' '
    }
}

/// Where the word that starts at `i` ends: the first whitespace at or after
/// `i`, or the end of `s`.
pub open spec fn word_end(s: Seq<char>, i: int) -> int
    decreases s.len() - i,
{
    if i < 0 || i >= s.len() || unicode_whitespace(s[i]) {
        i
    } else {
        word_end(s, i + 1)
    }
}

pub proof fn lemma_word_end_bounds(s: Seq<char>, i: int)
    requires
        0 <= i <= s.len(),
    ensures
        i <= word_end(s, i) <= s.len(),
        forall|j: int| i <= j < word_end(s, i) ==> !unicode_whitespace(#[trigger] s[j]),
        word_end(s, i) < s.len() ==> unicode_whitespace(s[word_end(s, i)]),
    decreases s.len() - i,
{
    if i < s.len() && !unicode_whitespace(s[i]) {
        lemma_word_end_bounds(s, i + 1);
    }
}

/// The words of `s`: its maximal runs of non-whitespace characters, in order
/// (what `str::split_whitespace` yields).
pub open spec fn words(s: Seq<char>) -> Seq<Seq<char>>
    decreases s.len(),
{
    if s.len() == 0 {
        seq![]
    } else if unicode_whitespace(s[0]) {
        words(s.drop_first())
    } else {
        proof {
            lemma_word_end_bounds(s, 0);
        }
        seq![s.take(word_end(s, 0))] + words(s.skip(word_end(s, 0)))
    }
}

/// The words joined by single spaces.
pub open spec fn join_words(ws: Seq<Seq<char>>) -> Seq<char>
    decreases ws.len(),
{
    if ws.len() == 0 {
        seq![]
    } else if ws.len() == 1 {
        ws[0]
    } else {
        ws[0] + seq![' '] + join_words(ws.drop_first())
    }
}

/// What `normalize` returns: the label lower-cased, every character that is
/// neither alphanumeric nor a space turned into a space, and the words joined
/// by single spaces.
pub open spec fn normalized(s: Seq<char>) -> Seq<char> {
    join_words(words(unicode_lowercase(s).map_values(|c: char| keep_char(c))))
}

/// `w` is a non-empty run of non-whitespace characters that satisfy `p`.
pub open spec fn word_ok(w: Seq<char>, p: spec_fn(char) -> bool) -> bool {
    &&& w.len() > 0
    &&& forall|j: int| 0 <= j < w.len() ==> !unicode_whitespace(#[trigger] w[j]) && p(w[j])
}

/// The words of a text whose characters all satisfy `p` are non-empty runs
/// of non-whitespace characters that satisfy `p`.
pub proof fn lemma_words_shape(s: Seq<char>, p: spec_fn(char) -> bool)
    requires
        forall|i: int| 0 <= i < s.len() ==> p(#[trigger] s[i]),
    ensures
        forall|k: int| 0 <= k < words(s).len() ==> word_ok(#[trigger] words(s)[k], p),
    decreases s.len(),
{
    if s.len() == 0 {
        assert(words(s).len() == 0);
    } else if unicode_whitespace(s[0]) {
        assert forall|i: int| 0 <= i < s.drop_first().len() implies p(#[trigger] s.drop_first()[i]) by {
            assert(s.drop_first()[i] == s[i + 1]);
        }
        lemma_words_shape(s.drop_first(), p);
        assert(words(s) == words(s.drop_first()));
    } else {
        lemma_word_end_bounds(s, 0);
        let e = word_end(s, 0);
        assert forall|i: int| 0 <= i < s.skip(e).len() implies p(#[trigger] s.skip(e)[i]) by {
            assert(s.skip(e)[i] == s[i + e]);
        }
        lemma_words_shape(s.skip(e), p);
        let ws = words(s);
        assert(ws == seq![s.take(e)] + words(s.skip(e)));
        assert forall|k: int| 0 <= k < ws.len() implies word_ok(#[trigger] ws[k], p) by {
            if k == 0 {
                assert(ws[0] =~= s.take(e));
                assert forall|j: int| 0 <= j < ws[0].len() implies !unicode_whitespace(
                    #[trigger] ws[0][j],
                ) && p(ws[0][j]) by {
                    assert(ws[0][j] == s[j]);
                }
            } else {
                assert(ws[k] == words(s.skip(e))[k - 1]);
            }
        }
    }
}

/// `word_end` read on a suffix is `word_end` on the whole, shifted.
proof fn lemma_word_end_skip(s: Seq<char>, i: int, t: int)
    requires
        0 <= i <= s.len(),
        0 <= t <= s.len() - i,
    ensures
        word_end(s.skip(i), t) == word_end(s, i + t) - i,
    decreases s.len() - i - t,
{
    if t < s.len() - i && !unicode_whitespace(s[i + t]) {
        assert(s.skip(i)[t] == s[i + t]);
        lemma_word_end_skip(s, i, t + 1);
    } else if t < s.len() - i {
        assert(s.skip(i)[t] == s[i + t]);
    }
}

/// Joining one more word appends a space and the word.
proof fn lemma_join_push(ws: Seq<Seq<char>>, w: Seq<char>)
    ensures
        join_words(ws.push(w)) == if ws.len() == 0 {
            w
        } else {
            join_words(ws) + seq![' '] + w
        },
    decreases ws.len(),
{
    if ws.len() > 1 {
        lemma_join_push(ws.drop_first(), w);
        assert(ws.push(w).drop_first() =~= ws.drop_first().push(w));
        assert(join_words(ws.push(w)) == ws[0] + seq![' '] + join_words(ws.drop_first().push(w)));
        assert(join_words(ws) == ws[0] + seq![' '] + join_words(ws.drop_first()));
        assert(join_words(ws.push(w)) =~= join_words(ws) + seq![' '] + w);
    } else if ws.len() == 1 {
        assert(ws.push(w).drop_first() =~= seq![w]);
        assert(join_words(seq![w]) == w);
        assert(join_words(ws) == ws[0]);
        assert(join_words(ws.push(w)) == ws[0] + seq![' '] + join_words(seq![w]));
        assert(join_words(ws.push(w)) =~= join_words(ws) + seq![' '] + w);
    }
}

/// Past a whitespace character, the words of the rest are those after it.
proof fn lemma_words_step_space(s: Seq<char>, i: int)
    requires
        0 <= i < s.len(),
        unicode_whitespace(s[i]),
    ensures
        words(s.skip(i)) == words(s.skip(i + 1)),
{
    let rest = s.skip(i);
    assert(rest[0] == s[i]);
    assert(rest.drop_first() =~= s.skip(i + 1));
}

/// A word that runs from `i` to `j` is the first word of the rest.
proof fn lemma_words_step_word(s: Seq<char>, i: int, j: int)
    requires
        0 <= i < j <= s.len(),
        !unicode_whitespace(s[i]),
        word_end(s, i) == j,
    ensures
        words(s.skip(i)) == seq![s.subrange(i, j)] + words(s.skip(j)),
{
    let rest = s.skip(i);
    assert(rest[0] == s[i]);
    lemma_word_end_skip(s, i, 0);
    assert(word_end(rest, 0) == j - i);
    assert(rest.take(j - i) =~= s.subrange(i, j));
    assert(rest.skip(j - i) =~= s.skip(j));
}

pub open spec fn chars_views(v: Seq<Vec<char>>) -> Seq<Seq<char>> {
    v.map_values(|w: Vec<char>| w@)
}

/// The words of `s`: its maximal runs of non-whitespace characters.
pub fn split_words(s: &Vec<char>) -> (res: Vec<Vec<char>>)
    ensures
        chars_views(res@) == words(s@),
{
    let mut out: Vec<Vec<char>> = Vec::new();
    let mut i: usize = 0;
    assert(s@.skip(0) =~= s@);
    while i < s.len()
        invariant
            i <= s.len(),
            words(s@) == chars_views(out@) + words(s@.skip(i as int)),
        decreases s.len() - i,
    {
        if char_is_whitespace(s[i]) {
            proof {
                lemma_words_step_space(s@, i as int);
            }
            i = i + 1;
        } else {
            let mut j = i;
            while j < s.len() && !char_is_whitespace(s[j])
                invariant
                    i <= j <= s.len(),
                    word_end(s@, i as int) == word_end(s@, j as int),
                decreases s.len() - j,
            {
                j = j + 1;
            }
            proof {
                assert(word_end(s@, j as int) == j);
                lemma_words_step_word(s@, i as int, j as int);
            }
            let word = crate::text::slice_chars(s, i, j);
            let ghost before = out@;
            out.push(word);
            assert(chars_views(out@) =~= chars_views(before).push(word@));
            i = j;
        }
    }
    assert(s@.skip(s.len() as int) =~= Seq::<char>::empty());
    out
}

/// The words joined by single spaces.
fn join_with_spaces(ws: &Vec<Vec<char>>) -> (res: Vec<char>)
    ensures
        res@ == join_words(chars_views(ws@)),
{
    let mut out: Vec<char> = Vec::new();
    let mut k: usize = 0;
    assert(chars_views(ws@).take(0) =~= Seq::<Seq<char>>::empty());
    while k < ws.len()
        invariant
            k <= ws.len(),
            out@ == join_words(chars_views(ws@).take(k as int)),
        decreases ws.len() - k,
    {
        proof {
            lemma_join_push(chars_views(ws@).take(k as int), ws@[k as int]@);
            assert(chars_views(ws@).take(k + 1) =~= chars_views(ws@).take(k as int).push(
                ws@[k as int]@,
            ));
        }
        if k > 0 {
            out.push(' ');
        }
        let ghost before = out@;
        let w = &ws[k];
        let mut t: usize = 0;
        while t < w.len()
            invariant
                t <= w.len(),
                out@ == before + w@.take(t as int),
            decreases w.len() - t,
        {
            out.push(w[t]);
            t = t + 1;
            assert(out@ =~= before + w@.take(t as int));
        }
        assert(w@.take(w.len() as int) =~= w@);
        k = k + 1;
    }
    assert(chars_views(ws@).take(ws.len() as int) =~= chars_views(ws@));
    out
}

/// Single spaces separate the text: none at either end, none doubled.
pub open spec fn single_spaced(x: Seq<char>) -> bool {
    &&& x.len() > 0 ==> x[0] != ' ' && x[x.len() - 1] != ' '
    &&& forall|i: int| 0 <= i < x.len() - 1 && #[trigger] x[i] == ' ' ==> x[i + 1] != ' '
}

/// Words of non-whitespace characters joined by single spaces are single
/// spaced, and each character is a space or a character of a word.
proof fn lemma_join_shape(ws: Seq<Seq<char>>, p: spec_fn(char) -> bool)
    requires
        unicode_whitespace(' '),
        forall|k: int| 0 <= k < ws.len() ==> word_ok(#[trigger] ws[k], p),
    ensures
        single_spaced(join_words(ws)),
        forall|i: int|
            0 <= i < join_words(ws).len() ==> #[trigger] join_words(ws)[i] == ' ' || (
            !unicode_whitespace(join_words(ws)[i]) && p(join_words(ws)[i])),
    decreases ws.len(),
{
    if ws.len() == 1 {
        assert(word_ok(ws[0], p));
        assert(join_words(ws) == ws[0]);
        assert forall|i: int| 0 <= i < ws[0].len() implies ws[0][i] != ' ' by {
            assert(!unicode_whitespace(ws[0][i]));
        }
    } else if ws.len() > 1 {
        let rest = ws.drop_first();
        assert forall|k: int| 0 <= k < rest.len() implies word_ok(#[trigger] rest[k], p) by {
            assert(rest[k] == ws[k + 1]);
        }
        lemma_join_shape(rest, p);
        let w = ws[0];
        assert(word_ok(w, p));
        let jr = join_words(rest);
        assert(word_ok(rest[0], p));
        assert(jr.len() > 0) by {
            lemma_join_nonempty(rest);
        }
        let j = join_words(ws);
        assert(j =~= w + seq![' '] + jr);
        assert forall|i: int| 0 <= i < w.len() implies w[i] != ' ' by {
            assert(!unicode_whitespace(w[i]));
        }
        assert forall|i: int| 0 <= i < j.len() implies #[trigger] j[i] == ' ' || (!unicode_whitespace(
            j[i],
        ) && p(j[i])) by {
            if i < w.len() {
                assert(j[i] == w[i]);
            } else if i > w.len() {
                assert(j[i] == jr[i - w.len() - 1]);
            }
        }
        assert forall|i: int| 0 <= i < j.len() - 1 && #[trigger] j[i] == ' ' implies j[i + 1]
            != ' ' by {
            if i < w.len() {
                assert(j[i] == w[i]);
            } else if i == w.len() {
                assert(j[i + 1] == jr[0]);
            } else {
                assert(j[i] == jr[i - w.len() - 1]);
                assert(j[i + 1] == jr[i - w.len()]);
            }
        }
        assert(j[j.len() - 1] == jr[jr.len() - 1]);
    }
}

/// Joining non-empty words gives a non-empty text.
proof fn lemma_join_nonempty(ws: Seq<Seq<char>>)
    requires
        ws.len() > 0,
        ws[0].len() > 0,
    ensures
        join_words(ws).len() > 0,
{
}

/// In a text whose characters from `i` up to `e` are not whitespace and that
/// ends or has whitespace at `e`, the word that starts at `i` ends at `e`.
proof fn lemma_word_end_at(s: Seq<char>, i: int, e: int)
    requires
        0 <= i <= e <= s.len(),
        forall|j: int| i <= j < e ==> !unicode_whitespace(#[trigger] s[j]),
        e < s.len() ==> unicode_whitespace(s[e]),
    ensures
        word_end(s, i) == e,
    decreases e - i,
{
    if i < e {
        lemma_word_end_at(s, i + 1, e);
    }
}

/// Splitting words joined by single spaces gives the words back.
proof fn lemma_words_of_join(ws: Seq<Seq<char>>, p: spec_fn(char) -> bool)
    requires
        unicode_whitespace(' '),
        forall|k: int| 0 <= k < ws.len() ==> word_ok(#[trigger] ws[k], p),
    ensures
        words(join_words(ws)) == ws,
    decreases ws.len(),
{
    if ws.len() == 0 {
        assert(words(join_words(ws)) =~= ws);
    } else {
        let w = ws[0];
        assert(word_ok(w, p));
        let j = join_words(ws);
        if ws.len() == 1 {
            assert(j == w);
            lemma_word_end_at(j, 0, w.len() as int);
            assert(j.take(w.len() as int) =~= w);
            assert(j.skip(w.len() as int) =~= Seq::<char>::empty());
            assert(words(j) == seq![w] + words(Seq::<char>::empty()));
            assert(words(j) =~= ws);
        } else {
            let rest = ws.drop_first();
            assert forall|k: int| 0 <= k < rest.len() implies word_ok(#[trigger] rest[k], p) by {
                assert(rest[k] == ws[k + 1]);
            }
            lemma_words_of_join(rest, p);
            let jr = join_words(rest);
            assert(j =~= w + seq![' '] + jr);
            assert forall|t: int| 0 <= t < w.len() implies !unicode_whitespace(#[trigger] j[t]) by {
                assert(j[t] == w[t]);
            }
            assert(j[w.len() as int] == ' ');
            lemma_word_end_at(j, 0, w.len() as int);
            assert(j.take(w.len() as int) =~= w);
            let tail = j.skip(w.len() as int);
            assert(tail =~= seq![' '] + jr);
            assert(tail.drop_first() =~= jr);
            assert(words(tail) == words(jr));
            assert(words(j) == seq![w] + words(tail));
            assert(words(j) =~= ws);
        }
    }
}

/// Normalize a label for comparison: lowercase, strip punctuation, collapse whitespace.
pub fn normalize(s: &str) -> (res: String)
    ensures
        res@ == normalized(s@),
        single_spaced(res@),
        forall|i: int|
            0 <= i < res@.len() ==> #[trigger] res@[i] == ' ' || (unicode_alphanumeric(res@[i])
                && !unicode_whitespace(res@[i])),
        unicode_lowercase(res@) == res@ ==> normalized(res@) == res@,
{
    let lower = str_to_lowercase(s);
    let lc = chars_of(lower.as_str());
    let mut kept: Vec<char> = Vec::new();
    let mut i: usize = 0;
    while i < lc.len()
        invariant
            i <= lc.len(),
            kept@ == lc@.take(i as int).map_values(|c: char| keep_char(c)),
        decreases lc.len() - i,
    {
        let c = lc[i];
        let k = if char_is_alphanumeric(c) || c == ' ' {
            c
        } else {
            ' '
        };
        kept.push(k);
        i = i + 1;
        assert(kept@ =~= lc@.take(i as int).map_values(|c: char| keep_char(c)));
    }
    assert(lc@.take(lc.len() as int) =~= lc@);
    let ws = split_words(&kept);
    let joined = join_with_spaces(&ws);
    let space_is_whitespace = char_is_whitespace(' ');
    proof {
        let p = |c: char| unicode_alphanumeric(c) || c == ' ';
        assert forall|t: int| 0 <= t < kept@.len() implies p(#[trigger] kept@[t]) by {}
        lemma_words_shape(kept@, p);
        lemma_join_shape(words(kept@), p);
        let out = joined@;
        if unicode_lowercase(out) == out {
            assert(out.map_values(|c: char| keep_char(c)) =~= out);
            lemma_words_of_join(words(kept@), p);
        }
    }
    string_of(&joined)
}

/// Normalisation keeps every word, one for one and in order: the words of
/// the result are the words of the lower-cased label in which every
/// character that is neither alphanumeric nor a space has become a space.
pub proof fn law_normalize_keeps_every_word(s: Seq<char>)
    ensures
        words(normalized(s)) == words(unicode_lowercase(s).map_values(|c: char| keep_char(c))),
        words(normalized(s)).len() == words(
            unicode_lowercase(s).map_values(|c: char| keep_char(c)),
        ).len(),
{
    let kept = unicode_lowercase(s).map_values(|c: char| keep_char(c));
    let p = |c: char| true;
    assert(unicode_whitespace(' '));
    lemma_words_shape(kept, p);
    lemma_words_of_join(words(kept), p);
}

/// The distinct elements of `ws`, in order of first occurrence.
pub open spec fn first_occurrences(ws: Seq<Seq<char>>) -> Seq<Seq<char>>
    decreases ws.len(),
{
    if ws.len() == 0 {
        seq![]
    } else {
        let d = first_occurrences(ws.drop_last());
        if d.contains(ws.last()) {
            d
        } else {
            d.push(ws.last())
        }
    }
}

/// The distinct whitespace-separated tokens of `s`, in order of first occurrence.
pub fn tokens(s: &str) -> (res: Vec<String>)
    ensures
        views(res@) == first_occurrences(words(s@)),
        views(res@).no_duplicates(),
        forall|x: Seq<char>| views(res@).contains(x) <==> words(s@).contains(x),
{
    let ws = split_words(&chars_of(s));
    let mut out: Vec<String> = Vec::new();
    let mut k: usize = 0;
    while k < ws.len()
        invariant
            k <= ws.len(),
            chars_views(ws@) == words(s@),
            views(out@).no_duplicates(),
            views(out@) == first_occurrences(chars_views(ws@).take(k as int)),
            forall|x: Seq<char>|
                views(out@).contains(x) <==> chars_views(ws@).take(k as int).contains(x),
        decreases ws.len() - k,
    {
        let t = string_of(&ws[k]);
        let ghost before = out@;
        assert(chars_views(ws@).take(k + 1) =~= chars_views(ws@).take(k as int).push(t@));
        assert(chars_views(ws@).take(k + 1).drop_last() =~= chars_views(ws@).take(k as int));
        if !contains_string(&out, &t) {
            out.push(t);
            assert(views(out@) =~= views(before).push(t@));
        }
        k = k + 1;
    }
    assert(chars_views(ws@).take(ws.len() as int) =~= chars_views(ws@));
    out
}

/// The set of whitespace-separated tokens of `s`.
pub open spec fn token_set(s: Seq<char>) -> Set<Seq<char>> {
    words(s).to_set()
}

/// A text has no more words than characters.
proof fn lemma_words_len(s: Seq<char>)
    ensures
        words(s).len() <= s.len(),
    decreases s.len(),
{
    if s.len() > 0 {
        if unicode_whitespace(s[0]) {
            lemma_words_len(s.drop_first());
        } else {
            lemma_word_end_bounds(s, 0);
            lemma_words_len(s.skip(word_end(s, 0)));
        }
    }
}

/// The distinct tokens of `s` hold its token set, and there are no more of
/// them than characters.
proof fn lemma_tokens_set(s: Seq<char>, t: Seq<Seq<char>>)
    requires
        t.no_duplicates(),
        forall|x: Seq<char>| t.contains(x) <==> words(s).contains(x),
    ensures
        t.to_set() == token_set(s),
        t.len() == token_set(s).len(),
        t.len() <= s.len(),
{
    assert(t.to_set() =~= token_set(s));
    t.unique_seq_to_set();
    words(s).lemma_cardinality_of_set();
    lemma_words_len(s);
}

/// The sizes of the intersection and of the union of the token sets of `a`
/// and `b`: the numerator and the denominator of their token-overlap Jaccard.
pub fn token_overlap_counts(a: &str, b: &str) -> (res: (usize, usize))
    requires
        a@.len() + b@.len() <= usize::MAX,
    ensures
        res.0 == token_set(a@).intersect(token_set(b@)).len(),
        res.1 == token_set(a@).union(token_set(b@)).len(),
        res.0 <= res.1,
{
    let ta = tokens(a);
    let tb = tokens(b);
    let ghost sa = token_set(a@);
    let ghost sb = token_set(b@);
    proof {
        lemma_tokens_set(a@, views(ta@));
        lemma_tokens_set(b@, views(tb@));
    }
    let mut inter: usize = 0;
    let mut k: usize = 0;
    assert(views(ta@).take(0).to_set() =~= Set::<Seq<char>>::empty());
    assert(views(ta@).take(0).to_set().intersect(sb) =~= Set::<Seq<char>>::empty());
    while k < ta.len()
        invariant
            k <= ta.len(),
            views(ta@).no_duplicates(),
            views(tb@).to_set() == sb,
            sb.finite(),
            inter == views(ta@).take(k as int).to_set().intersect(sb).len(),
            inter <= k,
        decreases ta.len() - k,
    {
        let ghost prefix = views(ta@).take(k as int);
        let ghost x = views(ta@)[k as int];
        assert(views(ta@).take(k + 1) =~= prefix.push(x));
        assert(prefix.push(x).to_set() =~= prefix.to_set().insert(x));
        assert(!prefix.to_set().contains(x)) by {
            if prefix.contains(x) {
                let t = choose|t: int| 0 <= t < prefix.len() && prefix[t] == x;
                assert(views(ta@)[t] == views(ta@)[k as int]);
            }
        }
        proof {
            vstd::seq_lib::seq_to_set_is_finite(prefix);
            vstd::set_lib::lemma_len_subset(prefix.to_set().intersect(sb), prefix.to_set());
        }
        if contains_string(&tb, &ta[k]) {
            assert(prefix.push(x).to_set().intersect(sb) =~= prefix.to_set().intersect(sb).insert(x));
            inter = inter + 1;
        } else {
            assert(prefix.push(x).to_set().intersect(sb) =~= prefix.to_set().intersect(sb));
        }
        k = k + 1;
    }
    assert(views(ta@).take(ta.len() as int) =~= views(ta@));
    proof {
        vstd::seq_lib::seq_to_set_is_finite(views(ta@));
        vstd::set_lib::lemma_set_intersect_union_lens(sa, sb);
        vstd::set_lib::lemma_len_subset(sa.intersect(sb), sb);
        assert(sa + sb == sa.union(sb));
    }
    (inter, ta.len() - inter + tb.len())
}

/// Token overlap is symmetric: swapping the labels changes neither count.
pub proof fn lemma_token_overlap_symmetric(a: Seq<char>, b: Seq<char>)
    ensures
        token_set(a).intersect(token_set(b)) == token_set(b).intersect(token_set(a)),
        token_set(a).union(token_set(b)) == token_set(b).union(token_set(a)),
{
    assert(token_set(a).intersect(token_set(b)) =~= token_set(b).intersect(token_set(a)));
    assert(token_set(a).union(token_set(b)) =~= token_set(b).union(token_set(a)));
}

/// A label overlaps itself completely: both counts are its number of tokens.
pub proof fn lemma_token_overlap_identical(a: Seq<char>)
    ensures
        token_set(a).intersect(token_set(a)).len() == token_set(a).len(),
        token_set(a).union(token_set(a)).len() == token_set(a).len(),
{
    assert(token_set(a).intersect(token_set(a)) =~= token_set(a));
    assert(token_set(a).union(token_set(a)) =~= token_set(a));
}

} // verus!
