//! A scan of the markup of an OWL/XML document, made before the document is
//! handed to horned-owl's reader.
//!
//! The reader gathers the text of a `Literal` element until its XML layer
//! (quick-xml) reports an end tag whose local name is `Literal`; it does not
//! stop at the end of the input, where it would wait for ever. The scan
//! splits the text into markup exactly where quick-xml does (a tag ends at
//! the first `>` outside quotes, a processing instruction at the first
//! `?>`, a comment at the first `-->` past `<!--`, a CDATA section at the
//! first `]]>`, a DOCTYPE declaration at the first `>` that closes as many
//! `<` as it opened) and refuses a document only when an element named
//! `Literal` is followed by no end tag named `Literal`. Where quick-xml
//! reports an error (markup that is not terminated, or an unknown `<!`
//! form) the reader stops there, so the scan accepts the rest.

use vstd::prelude::*;

use crate::text::{chars_of, matches_at};

verus! {

/// The local name of the OWL/XML literal element.
pub const LITERAL_NAME: &'static str = "Literal";

/// A prefixed literal element's name ends with this.
pub const PREFIXED_LITERAL: &'static str = ":Literal";

/// A piece of markup, by what it does to the elements.
pub enum Markup {
    /// A start tag: opens an element.
    Start,
    /// A self-closing tag.
    Empty,
    /// An end tag: closes an element.
    End,
    /// A comment, CDATA section, DOCTYPE declaration or processing
    /// instruction.
    Other,
}

/// XML white space, which ends an element's name.
pub open spec fn is_space(c: char) -> bool {
    c == ' ' || c == '\t' || c == '\r' || c == '\n'
}

/// The quote state after `c` in a tag: 0 outside quotes, 1 inside `'…'`,
/// 2 inside `"…"`.
pub open spec fn next_quote(q: int, c: char) -> int {
    if q == 0 {
        if c == '\'' {
            1
        } else if c == '"' {
            2
        } else {
            0
        }
    } else if (q == 1 && c == '\'') || (q == 2 && c == '"') {
        0
    } else {
        q
    }
}

/// The `>` that ends a tag: the first `>` at or after `i` that lies outside
/// quotes, when the scan at `i` is in quote state `q`.
pub open spec fn tag_close(s: Seq<char>, i: int, q: int) -> Option<int>
    decreases s.len() - i,
{
    if i < 0 || i >= s.len() {
        None
    } else if q == 0 && s[i] == '>' {
        Some(i)
    } else {
        tag_close(s, i + 1, next_quote(q, s[i]))
    }
}

/// The `>` that ends a DOCTYPE declaration: the first `>` at or after `i`
/// met when every `<` seen so far (`open` of them before `i`) has been
/// matched by a `>`.
pub open spec fn doctype_close(s: Seq<char>, i: int, open: int) -> Option<int>
    decreases s.len() - i,
{
    if i < 0 || i >= s.len() {
        None
    } else if s[i] == '>' && open == 0 {
        Some(i)
    } else if s[i] == '>' {
        doctype_close(s, i + 1, open - 1)
    } else if s[i] == '<' {
        doctype_close(s, i + 1, open + 1)
    } else {
        doctype_close(s, i + 1, open)
    }
}

/// The `>` that ends a processing instruction: the first `>` at or after
/// `i` that follows a `?`.
pub open spec fn pi_close(s: Seq<char>, i: int) -> Option<int>
    decreases s.len() - i,
{
    if i < 1 || i >= s.len() {
        None
    } else if s[i] == '>' && s[i - 1] == '?' {
        Some(i)
    } else {
        pi_close(s, i + 1)
    }
}

/// The `>` that ends a comment (`x` is `-`) or a CDATA section (`x` is
/// `]`): the first `>` at or after `i` that follows two `x`.
pub open spec fn bang_close(s: Seq<char>, i: int, x: char) -> Option<int>
    decreases s.len() - i,
{
    if i < 2 || i >= s.len() {
        None
    } else if s[i] == '>' && s[i - 1] == x && s[i - 2] == x {
        Some(i)
    } else {
        bang_close(s, i + 1, x)
    }
}

/// The markup that opens with the `<` at `p`: the position of the `>` that
/// ends it and its kind; `None` where quick-xml reports an error: the markup
/// is not terminated, or it is a `<!` form other than a comment, a CDATA
/// section or a DOCTYPE declaration.
pub open spec fn markup_at(s: Seq<char>, p: int) -> Option<(int, Markup)> {
    if p + 1 >= s.len() {
        None
    } else if s[p + 1] == '/' {
        match tag_close(s, p + 1, 0) {
            Some(q) => Some((q, Markup::End)),
            None => None,
        }
    } else if s[p + 1] == '?' {
        match pi_close(s, p + 2) {
            Some(q) => Some((q, Markup::Other)),
            None => None,
        }
    } else if s[p + 1] == '!' {
        if p + 2 >= s.len() {
            None
        } else if s[p + 2] == '-' {
            match bang_close(s, p + 6, '-') {
                Some(q) => Some((q, Markup::Other)),
                None => None,
            }
        } else if s[p + 2] == '[' {
            match bang_close(s, p + 4, ']') {
                Some(q) => Some((q, Markup::Other)),
                None => None,
            }
        } else if s[p + 2] == 'D' || s[p + 2] == 'd' {
            match doctype_close(s, p + 2, 0) {
                Some(q) => Some((q, Markup::Other)),
                None => None,
            }
        } else {
            None
        }
    } else {
        match tag_close(s, p + 1, 0) {
            Some(q) => Some((q, if s[q - 1] == '/' { Markup::Empty } else { Markup::Start })),
            None => None,
        }
    }
}

/// Where the name of a start tag whose content runs from `a` to `e` ends:
/// at the first white space, or at `e`.
pub open spec fn name_end(s: Seq<char>, a: int, e: int) -> int
    decreases e - a,
{
    if a >= e || a < 0 || a >= s.len() || is_space(s[a]) {
        a
    } else {
        name_end(s, a + 1, e)
    }
}

/// Where the name of an end tag whose content runs from `a` to `e` ends:
/// before the white space that closes it.
pub open spec fn trim_end(s: Seq<char>, a: int, e: int) -> int
    decreases e - a,
{
    if e > a && 0 < e <= s.len() && is_space(s[e - 1]) {
        trim_end(s, a, e - 1)
    } else {
        e
    }
}

/// The local name of `n` (what follows its first `:`) is `Literal`.
pub open spec fn literal_name(n: Seq<char>) -> bool {
    ||| n == LITERAL_NAME@
    ||| n.len() >= 8 && n.subrange(n.len() - 8, n.len() as int) == PREFIXED_LITERAL@ && forall|i: int|
        0 <= i < n.len() - 8 ==> n[i] != ':'
}

/// Whether, after the markup of kind `kind` from `p` to `q`, some element
/// named `Literal` still waits for an end tag of that name.
pub open spec fn next_pending(s: Seq<char>, p: int, q: int, kind: Markup, pending: bool) -> bool {
    match kind {
        Markup::Start => pending || literal_name(s.subrange(p + 1, name_end(s, p + 1, q))),
        Markup::Empty => pending || literal_name(s.subrange(p + 1, name_end(s, p + 1, q - 1))),
        Markup::End => pending && !literal_name(s.subrange(p + 2, trim_end(s, p + 2, q))),
        Markup::Other => pending,
    }
}

/// The scan from position `i`, where `pending` tells that an element named
/// `Literal` seen before `i` has not been followed by an end tag of that
/// name.
pub open spec fn reader_safe_from(s: Seq<char>, i: int, pending: bool) -> bool
    decreases s.len() - i,
{
    if i < 0 || i >= s.len() {
        !pending
    } else if s[i] != '<' {
        reader_safe_from(s, i + 1, pending)
    } else {
        match markup_at(s, i) {
            None => true,
            Some((q, kind)) => {
                proof {
                    lemma_markup_at(s, i);
                }
                reader_safe_from(s, q + 1, next_pending(s, i, q, kind, pending))
            },
        }
    }
}

/// The documents that may be handed to horned-owl's OWL/XML reader: those
/// on which it returns, that is, where every element named `Literal` is
/// followed by an end tag of that name, or quick-xml reports an error first.
pub open spec fn owx_reader_safe(xml: Seq<char>) -> bool {
    reader_safe_from(xml, 0, false)
}

/// A tag ends inside the text, at a `>`, at or after where its scan starts.
pub proof fn lemma_tag_close(s: Seq<char>, i: int, q: int)
    ensures
        tag_close(s, i, q) matches Some(k) ==> i <= k < s.len() && s[k] == '>',
    decreases s.len() - i,
{
    if 0 <= i < s.len() && !(q == 0 && s[i] == '>') {
        lemma_tag_close(s, i + 1, next_quote(q, s[i]));
    }
}

/// A declaration ends inside the text, at a `>`, at or after where its scan
/// starts.
pub proof fn lemma_doctype_close(s: Seq<char>, i: int, open: int)
    ensures
        doctype_close(s, i, open) matches Some(k) ==> i <= k < s.len() && s[k] == '>',
    decreases s.len() - i,
{
    if 0 <= i < s.len() && !(s[i] == '>' && open == 0) {
        if s[i] == '>' {
            lemma_doctype_close(s, i + 1, open - 1);
        } else if s[i] == '<' {
            lemma_doctype_close(s, i + 1, open + 1);
        } else {
            lemma_doctype_close(s, i + 1, open);
        }
    }
}

/// A processing instruction ends inside the text at or after `i`.
pub proof fn lemma_pi_close(s: Seq<char>, i: int)
    ensures
        pi_close(s, i) matches Some(k) ==> i <= k < s.len(),
    decreases s.len() - i,
{
    if 1 <= i < s.len() && !(s[i] == '>' && s[i - 1] == '?') {
        lemma_pi_close(s, i + 1);
    }
}

/// A comment or CDATA section ends inside the text at or after `i`.
pub proof fn lemma_bang_close(s: Seq<char>, i: int, x: char)
    ensures
        bang_close(s, i, x) matches Some(k) ==> i <= k < s.len(),
    decreases s.len() - i,
{
    if 2 <= i < s.len() && !(s[i] == '>' && s[i - 1] == x && s[i - 2] == x) {
        lemma_bang_close(s, i + 1, x);
    }
}

/// A piece of markup ends inside the text, after its `<`.
pub proof fn lemma_markup_at(s: Seq<char>, p: int)
    requires
        0 <= p,
    ensures
        markup_at(s, p) matches Some((q, _)) ==> p < q < s.len(),
{
    lemma_tag_close(s, p + 1, 0);
    lemma_doctype_close(s, p + 2, 0);
    lemma_pi_close(s, p + 2);
    lemma_bang_close(s, p + 6, '-');
    lemma_bang_close(s, p + 4, ']');
}

fn is_space_char(c: char) -> (res: bool)
    ensures
        res == is_space(c),
{
    c == ' ' || c == '\t' || c == '\r' || c == '\n'
}

/// The end of the tag whose scan starts at `i` outside quotes.
pub(crate) fn find_tag_close(s: &Vec<char>, i: usize) -> (res: Option<usize>)
    ensures
        match res {
            Some(k) => tag_close(s@, i as int, 0) == Some(k as int),
            None => tag_close(s@, i as int, 0) is None,
        },
{
    let mut j = i;
    let mut q: u8 = 0;
    while j < s.len()
        invariant
            i <= j,
            q <= 2,
            tag_close(s@, j as int, q as int) == tag_close(s@, i as int, 0),
        decreases s.len() - j,
    {
        let c = s[j];
        if q == 0 && c == '>' {
            return Some(j);
        }
        q = if q == 0 {
            if c == '\'' {
                1
            } else if c == '"' {
                2
            } else {
                0
            }
        } else if (q == 1 && c == '\'') || (q == 2 && c == '"') {
            0
        } else {
            q
        };
        j = j + 1;
    }
    None
}

/// The end of the DOCTYPE declaration whose scan starts at `i`.
fn find_doctype_close(s: &Vec<char>, i: usize) -> (res: Option<usize>)
    ensures
        match res {
            Some(k) => doctype_close(s@, i as int, 0) == Some(k as int),
            None => doctype_close(s@, i as int, 0) is None,
        },
{
    let mut j = i;
    let mut open: usize = 0;
    while j < s.len()
        invariant
            i <= j,
            open <= j - i,
            doctype_close(s@, j as int, open as int) == doctype_close(s@, i as int, 0),
        decreases s.len() - j,
    {
        let c = s[j];
        if c == '>' {
            if open == 0 {
                return Some(j);
            }
            open = open - 1;
        } else if c == '<' {
            open = open + 1;
        }
        j = j + 1;
    }
    None
}

/// The end of the processing instruction whose scan starts at `i`.
fn find_pi_close(s: &Vec<char>, i: usize) -> (res: Option<usize>)
    requires
        i >= 1,
    ensures
        match res {
            Some(k) => pi_close(s@, i as int) == Some(k as int),
            None => pi_close(s@, i as int) is None,
        },
{
    let mut j = i;
    while j < s.len()
        invariant
            1 <= i <= j,
            pi_close(s@, j as int) == pi_close(s@, i as int),
        decreases s.len() - j,
    {
        if s[j] == '>' && s[j - 1] == '?' {
            return Some(j);
        }
        j = j + 1;
    }
    None
}

/// The end of the comment or CDATA section whose scan starts at `i`.
fn find_bang_close(s: &Vec<char>, i: usize, x: char) -> (res: Option<usize>)
    requires
        i >= 2,
    ensures
        match res {
            Some(k) => bang_close(s@, i as int, x) == Some(k as int),
            None => bang_close(s@, i as int, x) is None,
        },
{
    let mut j = i;
    while j < s.len()
        invariant
            2 <= i <= j,
            bang_close(s@, j as int, x) == bang_close(s@, i as int, x),
        decreases s.len() - j,
    {
        if s[j] == '>' && s[j - 1] == x && s[j - 2] == x {
            return Some(j);
        }
        j = j + 1;
    }
    None
}

/// The markup that opens with the `<` at `p`.
fn scan_markup(s: &Vec<char>, p: usize) -> (res: Option<(usize, Markup)>)
    requires
        p < s.len(),
    ensures
        match res {
            Some((q, kind)) => markup_at(s@, p as int) == Some((q as int, kind)),
            None => markup_at(s@, p as int) is None,
        },
{
    if s.len() - p <= 1 {
        return None;
    }
    let c = s[p + 1];
    if c == '/' {
        match find_tag_close(s, p + 1) {
            Some(q) => Some((q, Markup::End)),
            None => None,
        }
    } else if c == '?' {
        match find_pi_close(s, p + 2) {
            Some(q) => Some((q, Markup::Other)),
            None => None,
        }
    } else if c == '!' {
        if s.len() - p <= 2 {
            None
        } else if s[p + 2] == '-' {
            if s.len() - p <= 6 {
                return None;
            }
            match find_bang_close(s, p + 6, '-') {
                Some(q) => Some((q, Markup::Other)),
                None => None,
            }
        } else if s[p + 2] == '[' {
            if s.len() - p <= 4 {
                return None;
            }
            match find_bang_close(s, p + 4, ']') {
                Some(q) => Some((q, Markup::Other)),
                None => None,
            }
        } else if s[p + 2] == 'D' || s[p + 2] == 'd' {
            match find_doctype_close(s, p + 2) {
                Some(q) => Some((q, Markup::Other)),
                None => None,
            }
        } else {
            None
        }
    } else {
        match find_tag_close(s, p + 1) {
            Some(q) => {
                proof {
                    lemma_tag_close(s@, p + 1, 0);
                }
                if s[q - 1] == '/' {
                    Some((q, Markup::Empty))
                } else {
                    Some((q, Markup::Start))
                }
            },
            None => None,
        }
    }
}

/// Whether the characters from `a` to `e` make a name whose local name is
/// `Literal`.
fn is_literal_name(s: &Vec<char>, a: usize, e: usize, lit: &Vec<char>, prefixed: &Vec<char>) -> (res: bool)
    requires
        a <= e <= s.len(),
        lit@ == LITERAL_NAME@,
        prefixed@ == PREFIXED_LITERAL@,
        LITERAL_NAME@.len() == 7,
        PREFIXED_LITERAL@.len() == 8,
    ensures
        res == literal_name(s@.subrange(a as int, e as int)),
{
    let ghost n = s@.subrange(a as int, e as int);
    if e - a == 7 {
        let r = matches_at(s, lit, a);
        assert(r == (n == LITERAL_NAME@)) by {
            if n == LITERAL_NAME@ {
                assert(s@.subrange(a as int, a + 7) =~= n);
            }
            if r {
                assert(s@.subrange(a as int, a + 7) =~= n);
            }
        }
        return r;
    }
    if e - a < 8 {
        assert(n.len() != 7 && n.len() < 8);
        assert(n != LITERAL_NAME@);
        return false;
    }
    assert(n != LITERAL_NAME@);
    let tail = matches_at(s, prefixed, e - 8);
    assert(n.subrange(n.len() - 8, n.len() as int) =~= s@.subrange(e - 8, e as int));
    if !tail {
        assert(n.subrange(n.len() - 8, n.len() as int) != PREFIXED_LITERAL@);
        return false;
    }
    let mut j = a;
    while j < e - 8
        invariant
            a <= j <= e - 8,
            e <= s.len(),
            n == s@.subrange(a as int, e as int),
            n != LITERAL_NAME@,
            n.len() >= 8,
            n.subrange(n.len() - 8, n.len() as int) == PREFIXED_LITERAL@,
            forall|i: int| 0 <= i < j - a ==> n[i] != ':',
        decreases e - 8 - j,
    {
        if s[j] == ':' {
            assert(n[j - a] == ':');
            return false;
        }
        j = j + 1;
    }
    true
}

/// Where the name of a start tag whose content runs from `a` to `e` ends.
fn find_name_end(s: &Vec<char>, a: usize, e: usize) -> (res: usize)
    requires
        a <= e <= s.len(),
    ensures
        res == name_end(s@, a as int, e as int),
        a <= res <= e,
{
    let mut k = a;
    while k < e && !is_space_char(s[k])
        invariant
            a <= k <= e <= s.len(),
            name_end(s@, a as int, e as int) == name_end(s@, k as int, e as int),
        decreases e - k,
    {
        k = k + 1;
    }
    k
}

/// Where the name of an end tag whose content runs from `a` to `e` ends.
fn find_trim_end(s: &Vec<char>, a: usize, e: usize) -> (res: usize)
    requires
        a <= e <= s.len(),
    ensures
        res == trim_end(s@, a as int, e as int),
        a <= res <= e,
{
    let mut k = e;
    while k > a && is_space_char(s[k - 1])
        invariant
            a <= k <= e <= s.len(),
            trim_end(s@, a as int, e as int) == trim_end(s@, a as int, k as int),
        decreases k - a,
    {
        k = k - 1;
    }
    k
}

/// Whether horned-owl's OWL/XML reader may be handed the document `xml`:
/// whether it returns on it.
pub fn reader_safe(xml: &Vec<char>) -> (res: bool)
    ensures
        res == owx_reader_safe(xml@),
{
    let lit = chars_of(LITERAL_NAME);
    let prefixed = chars_of(PREFIXED_LITERAL);
    proof {
        reveal_strlit("Literal");
        reveal_strlit(":Literal");
    }
    let mut i: usize = 0;
    let mut pending = false;
    while i < xml.len()
        invariant
            i <= xml.len(),
            reader_safe_from(xml@, i as int, pending) == owx_reader_safe(xml@),
            lit@ == LITERAL_NAME@,
            prefixed@ == PREFIXED_LITERAL@,
            LITERAL_NAME@.len() == 7,
            PREFIXED_LITERAL@.len() == 8,
        decreases xml.len() - i,
    {
        if xml[i] != '<' {
            i = i + 1;
        } else {
            proof {
                lemma_markup_at(xml@, i as int);
                lemma_tag_close(xml@, i + 1, 0);
            }
            match scan_markup(xml, i) {
                None => {
                    return true;
                },
                Some((q, kind)) => {
                    match kind {
                        Markup::Start => {
                            let ne = find_name_end(xml, i + 1, q);
                            if is_literal_name(xml, i + 1, ne, &lit, &prefixed) {
                                pending = true;
                            }
                        },
                        Markup::Empty => {
                            let ne = find_name_end(xml, i + 1, q - 1);
                            if is_literal_name(xml, i + 1, ne, &lit, &prefixed) {
                                pending = true;
                            }
                        },
                        Markup::End => {
                            let te = find_trim_end(xml, i + 2, q);
                            if is_literal_name(xml, i + 2, te, &lit, &prefixed) {
                                pending = false;
                            }
                        },
                        Markup::Other => {},
                    }
                    i = q + 1;
                },
            }
        }
    }
    !pending
}

} // verus!
