//! The decisions of the alignment pipeline that need no scores: which class
//! pairs are compared at all (the BFO-category prune), and the kinds of
//! mapping.

use vstd::prelude::*;

use crate::anchor::BfoAnchor;

verus! {

/// Classification of a mapping.
#[derive(Debug, Clone, PartialEq, Eq, Structural)]
pub enum MappingKind {
    Equivalent,
    SubClassOf,
}

/// The name under which a kind of mapping is shown.
pub open spec fn kind_name(kind: MappingKind) -> Seq<char> {
    match kind {
        MappingKind::Equivalent => "equivalent"@,
        MappingKind::SubClassOf => "subClassOf"@,
    }
}

impl MappingKind {
    /// The name under which the kind is shown: `equivalent` or `subClassOf`.
    pub fn to_string(&self) -> (res: String)
        ensures
            res@ == kind_name(*self),
    {
        match self {
            MappingKind::Equivalent => "equivalent".to_owned(),
            MappingKind::SubClassOf => "subClassOf".to_owned(),
        }
    }
}

/// `p` comes before `q`: by the index in ontology A, then by the index in B.
pub open spec fn pair_before(p: (usize, usize), q: (usize, usize)) -> bool {
    p.0 < q.0 || (p.0 == q.0 && p.1 < q.1)
}

/// Classes `i` of A and `j` of B share their BFO category.
pub open spec fn same_category(a: Seq<BfoAnchor>, b: Seq<BfoAnchor>, i: int, j: int) -> bool {
    0 <= i < a.len() && 0 <= j < b.len() && a[i].category.0@ == b[j].category.0@
}

/// The BFO-anchor prune: the pairs (index in A, index in B) of classes that
/// share a BFO upper category, ordered by A's index and then by B's. These
/// are the only pairs that get scored; a pair across categories never is.
pub fn candidate_pairs(a_anchors: &[BfoAnchor], b_anchors: &[BfoAnchor]) -> (res: Vec<(usize, usize)>)
    ensures
        forall|k: int, l: int|
            0 <= k < l < res@.len() ==> pair_before(#[trigger] res@[k], #[trigger] res@[l]),
        forall|i: usize, j: usize|
            res@.contains((i, j)) <==> same_category(a_anchors@, b_anchors@, i as int, j as int),
{
    let mut pairs: Vec<(usize, usize)> = Vec::new();
    let mut i: usize = 0;
    while i < a_anchors.len()
        invariant
            i <= a_anchors@.len(),
            forall|k: int, l: int|
                0 <= k < l < pairs@.len() ==> pair_before(#[trigger] pairs@[k], #[trigger] pairs@[l]),
            forall|k: int| 0 <= k < pairs@.len() ==> (#[trigger] pairs@[k]).0 < i,
            forall|x: usize, y: usize|
                pairs@.contains((x, y)) <==> x < i && same_category(
                    a_anchors@,
                    b_anchors@,
                    x as int,
                    y as int,
                ),
        decreases a_anchors.len() - i,
    {
        let mut j: usize = 0;
        while j < b_anchors.len()
            invariant
                i < a_anchors@.len(),
                j <= b_anchors@.len(),
                forall|k: int, l: int|
                    0 <= k < l < pairs@.len() ==> pair_before(#[trigger] pairs@[k], #[trigger] pairs@[l]),
                forall|k: int|
                    0 <= k < pairs@.len() ==> (#[trigger] pairs@[k]).0 < i || (pairs@[k].0 == i
                        && pairs@[k].1 < j),
                forall|x: usize, y: usize|
                    pairs@.contains((x, y)) <==> (x < i || (x == i && y < j)) && same_category(
                        a_anchors@,
                        b_anchors@,
                        x as int,
                        y as int,
                    ),
            decreases b_anchors.len() - j,
        {
            if a_anchors[i].category.0 == b_anchors[j].category.0 {
                let ghost before = pairs@;
                pairs.push((i, j));
                assert forall|x: usize, y: usize|
                    pairs@.contains((x, y)) <==> (x < i || (x == i && y < j + 1)) && same_category(
                        a_anchors@,
                        b_anchors@,
                        x as int,
                        y as int,
                    ) by {
                    if pairs@.contains((x, y)) && (x, y) != (i, j) {
                        let t = choose|t: int| 0 <= t < pairs@.len() && pairs@[t] == (x, y);
                        assert(before[t] == (x, y));
                    }
                    if (x < i || (x == i && y < j)) && same_category(
                        a_anchors@,
                        b_anchors@,
                        x as int,
                        y as int,
                    ) {
                        assert(before.contains((x, y)));
                        let t = choose|t: int| 0 <= t < before.len() && before[t] == (x, y);
                        assert(pairs@[t] == (x, y));
                    }
                    if (x, y) == (i, j) {
                        assert(pairs@[before.len() as int] == (i, j));
                    }
                }
            } else {
                assert forall|x: usize, y: usize|
                    pairs@.contains((x, y)) <==> (x < i || (x == i && y < j + 1)) && same_category(
                        a_anchors@,
                        b_anchors@,
                        x as int,
                        y as int,
                    ) by {
                    if x == i && y == j {
                        if pairs@.contains((x, y)) {
                            let t = choose|t: int| 0 <= t < pairs@.len() && pairs@[t] == (x, y);
                        }
                    }
                }
            }
            j = j + 1;
        }
        i = i + 1;
    }
    pairs
}

} // verus!
