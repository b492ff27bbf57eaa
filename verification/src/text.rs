//! Character-sequence helpers shared by the XML preprocessing, the IRI
//! utilities and the label normalisation.

use vstd::prelude::*;

verus! {

/// `pat` occurs in `s` starting at position `k`.
pub open spec fn occurs_at(s: Seq<char>, pat: Seq<char>, k: int) -> bool {
    0 <= k && k + pat.len() <= s.len() && s.subrange(k, k + pat.len()) == pat
}

/// `pat` occurs somewhere in `s` at or after position `from`.
pub open spec fn occurs_from(s: Seq<char>, pat: Seq<char>, from: int) -> bool {
    exists|k: int| from <= k && #[trigger] occurs_at(s, pat, k)
}

/// The first position at or after `from` where `pat` occurs in `s`.
pub open spec fn find_from(s: Seq<char>, pat: Seq<char>, from: int) -> Option<int>
    decreases s.len() - from,
{
    if from < 0 || from + pat.len() > s.len() {
        None
    } else if occurs_at(s, pat, from) {
        Some(from)
    } else if pat.len() == 0 {
        Some(from)
    } else {
        find_from(s, pat, from + 1)
    }
}

/// `s` with the characters in `[start, end)` removed.
pub open spec fn cut(s: Seq<char>, start: int, end: int) -> Seq<char> {
    s.subrange(0, start) + s.subrange(end, s.len() as int)
}

/// What `find_from` returns, stated without recursion: the least matching
/// position at or after `from`, or `None` when there is none.
pub proof fn lemma_find_from(s: Seq<char>, pat: Seq<char>, from: int)
    requires
        0 <= from,
    ensures
        match find_from(s, pat, from) {
            Some(k) => from <= k && occurs_at(s, pat, k) && forall|j: int|
                from <= j < k ==> !occurs_at(s, pat, j),
            None => forall|j: int| from <= j ==> !occurs_at(s, pat, j),
        },
    decreases s.len() - from,
{
    if from + pat.len() > s.len() {
    } else if occurs_at(s, pat, from) {
    } else if pat.len() == 0 {
        assert(s.subrange(from, from + pat.len()) =~= pat);
    } else {
        lemma_find_from(s, pat, from + 1);
    }
}

/// `find_from` finds something exactly when `pat` occurs at or after `from`.
pub proof fn lemma_find_from_some(s: Seq<char>, pat: Seq<char>, from: int)
    requires
        0 <= from,
    ensures
        find_from(s, pat, from) is Some <==> occurs_from(s, pat, from),
{
    lemma_find_from(s, pat, from);
    if let Some(k) = find_from(s, pat, from) {
        assert(occurs_at(s, pat, k));
    }
}

/// Whether `pat` occurs in `s` at position `i`.
pub fn matches_at(s: &Vec<char>, pat: &Vec<char>, i: usize) -> (res: bool)
    ensures
        res == occurs_at(s@, pat@, i as int),
{
    if i > s.len() || pat.len() > s.len() - i {
        return false;
    }
    let mut j: usize = 0;
    while j < pat.len()
        invariant
            j <= pat.len(),
            i + pat.len() <= s.len(),
            forall|t: int| 0 <= t < j ==> s@[i + t] == pat@[t],
        decreases pat.len() - j,
    {
        if s[i + j] != pat[j] {
            assert(s@.subrange(i as int, i + pat.len())[j as int] != pat@[j as int]);
            return false;
        }
        j = j + 1;
    }
    assert(s@.subrange(i as int, i + pat.len()) =~= pat@);
    true
}

/// The first position at or after `from` where `pat` occurs in `s`.
pub fn find(s: &Vec<char>, pat: &Vec<char>, from: usize) -> (res: Option<usize>)
    ensures
        match res {
            Some(k) => find_from(s@, pat@, from as int) == Some(k as int),
            None => find_from(s@, pat@, from as int) is None,
        },
{
    let mut i = from;
    while i <= s.len() && pat.len() <= s.len() - i
        invariant
            from <= i,
            find_from(s@, pat@, from as int) == find_from(s@, pat@, i as int),
        decreases s.len() + 1 - i,
    {
        if matches_at(s, pat, i) {
            return Some(i);
        }
        if pat.len() == 0 {
            return Some(i);
        }
        i = i + 1;
    }
    None
}

/// `s` with the characters in `[start, end)` removed.
pub fn cut_range(s: &Vec<char>, start: usize, end: usize) -> (res: Vec<char>)
    requires
        start <= end <= s.len(),
    ensures
        res@ == cut(s@, start as int, end as int),
{
    let mut res: Vec<char> = Vec::new();
    let mut i: usize = 0;
    while i < start
        invariant
            i <= start <= end <= s.len(),
            res@ == s@.subrange(0, i as int),
        decreases start - i,
    {
        res.push(s[i]);
        i = i + 1;
        assert(res@ =~= s@.subrange(0, i as int));
    }
    let mut j: usize = end;
    while j < s.len()
        invariant
            start <= end <= j <= s.len(),
            res@ == s@.subrange(0, start as int) + s@.subrange(end as int, j as int),
        decreases s.len() - j,
    {
        res.push(s[j]);
        j = j + 1;
        assert(res@ =~= s@.subrange(0, start as int) + s@.subrange(end as int, j as int));
    }
    res
}

/// The characters of `s` in `[start, end)`.
pub fn slice_chars(s: &Vec<char>, start: usize, end: usize) -> (res: Vec<char>)
    requires
        start <= end <= s.len(),
    ensures
        res@ == s@.subrange(start as int, end as int),
{
    let mut res: Vec<char> = Vec::new();
    let mut i: usize = start;
    while i < end
        invariant
            start <= i <= end <= s.len(),
            res@ == s@.subrange(start as int, i as int),
        decreases end - i,
    {
        res.push(s[i]);
        i = i + 1;
        assert(res@ =~= s@.subrange(start as int, i as int));
    }
    res
}

/// Whether two character sequences are equal.
pub fn chars_eq(a: &Vec<char>, b: &Vec<char>) -> (res: bool)
    ensures
        res == (a@ == b@),
{
    if a.len() != b.len() {
        return false;
    }
    let res = matches_at(a, b, 0);
    assert(a@.subrange(0, a@.len() as int) =~= a@);
    res
}

/// Whether two strings hold the same characters.
pub fn str_eq(a: &str, b: &str) -> (res: bool)
    ensures
        res == (a@ == b@),
{
    chars_eq(&chars_of(a), &chars_of(b))
}

/// Whether `s` begins with `prefix`.
pub fn starts_with(s: &str, prefix: &str) -> (res: bool)
    ensures
        res == prefix@.is_prefix_of(s@),
{
    let sc = chars_of(s);
    let pc = chars_of(prefix);
    matches_at(&sc, &pc, 0)
}

/// `a` comes strictly before `b` in lexicographic order of code points,
/// which is the order of `String`s.
pub open spec fn chars_lt(a: Seq<char>, b: Seq<char>) -> bool
    decreases a.len(),
{
    if b.len() == 0 {
        false
    } else if a.len() == 0 {
        true
    } else if a[0] != b[0] {
        a[0] < b[0]
    } else {
        chars_lt(a.drop_first(), b.drop_first())
    }
}

/// The order is irreflexive.
pub proof fn lemma_chars_lt_irreflexive(a: Seq<char>)
    ensures
        !chars_lt(a, a),
    decreases a.len(),
{
    if a.len() > 0 {
        lemma_chars_lt_irreflexive(a.drop_first());
    }
}

/// The order is transitive.
pub proof fn lemma_chars_lt_transitive(a: Seq<char>, b: Seq<char>, c: Seq<char>)
    requires
        chars_lt(a, b),
        chars_lt(b, c),
    ensures
        chars_lt(a, c),
    decreases a.len(),
{
    if a.len() > 0 && b.len() > 0 && c.len() > 0 && a[0] == b[0] && b[0] == c[0] {
        lemma_chars_lt_transitive(a.drop_first(), b.drop_first(), c.drop_first());
    }
}

/// The order is total.
pub proof fn lemma_chars_lt_total(a: Seq<char>, b: Seq<char>)
    ensures
        a == b || chars_lt(a, b) || chars_lt(b, a),
    decreases a.len(),
{
    if a.len() > 0 && b.len() > 0 {
        if a[0] == b[0] {
            lemma_chars_lt_total(a.drop_first(), b.drop_first());
            if a.drop_first() == b.drop_first() {
                assert(a =~= seq![a[0]] + a.drop_first());
                assert(b =~= seq![b[0]] + b.drop_first());
            }
        }
    } else if a.len() == 0 && b.len() == 0 {
        assert(a =~= b);
    }
}

/// Whether `a` comes strictly before `b` in lexicographic order.
pub fn chars_less(a: &Vec<char>, b: &Vec<char>) -> (res: bool)
    ensures
        res == chars_lt(a@, b@),
{
    let mut i: usize = 0;
    assert(a@.skip(0) =~= a@);
    assert(b@.skip(0) =~= b@);
    while i < a.len() && i < b.len() && a[i] == b[i]
        invariant
            i <= a.len(),
            i <= b.len(),
            chars_lt(a@, b@) == chars_lt(a@.skip(i as int), b@.skip(i as int)),
        decreases a.len() - i,
    {
        assert(a@.skip(i as int).drop_first() =~= a@.skip(i + 1));
        assert(b@.skip(i as int).drop_first() =~= b@.skip(i + 1));
        i = i + 1;
    }
    if i == b.len() {
        false
    } else if i == a.len() {
        true
    } else {
        a[i] < b[i]
    }
}

/// The characters of a string slice, in order.
pub fn chars_of(s: &str) -> (res: Vec<char>)
    ensures
        res@ == s@,
{
    let mut res: Vec<char> = Vec::new();
    for c in it: s.chars()
        invariant
            res@ == it.seq().take(it.index() as int),
            it.seq() == s@,
    {
        res.push(c);
    }
    res
}

/// Builds an owned string holding exactly the given characters
/// (std's `FromIterator<char>` for `String`).
#[verifier::external_body]
pub fn string_of(chars: &Vec<char>) -> (res: String)
    ensures
        res@ == chars@,
{
    chars.iter().collect()
}

} // verus!
