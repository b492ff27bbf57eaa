//! The class hierarchy of an ontology: the direct-parent edges read from
//! `SubClassOf` axioms, the ancestors of a class, and the BFO category that a
//! class falls under.

use vstd::prelude::*;

use crate::anchor::BfoCategory;
use crate::text::{starts_with, str_eq};
use crate::vocab::{
    BFO, BFO_CONTINUANT, BFO_DISPOSITION, BFO_ENTITY, BFO_FUNCTION, BFO_GENERICALLY_DEPENDENT,
    BFO_INDEPENDENT_CONTINUANT, BFO_MATERIAL_ENTITY, BFO_OBJECT, BFO_OBJECT_AGGREGATE,
    BFO_OCCURRENT, BFO_PROCESS, BFO_QUALITY, BFO_ROLE, BFO_SITE, BFO_SPECIFICALLY_DEPENDENT,
};

verus! {

broadcast use vstd::seq_lib::group_seq_properties;

/// The character views of a sequence of strings.
pub open spec fn views(v: Seq<String>) -> Seq<Seq<char>> {
    v.map_values(|s: String| s@)
}

/// The character views of a sequence of (sub, sup) edges.
pub open spec fn edge_views(edges: Seq<(String, String)>) -> Seq<(Seq<char>, Seq<char>)> {
    edges.map_values(|e: (String, String)| (e.0@, e.1@))
}

/// `edges` holds the edge `from -> to`.
pub open spec fn has_edge(edges: Seq<(Seq<char>, Seq<char>)>, from: Seq<char>, to: Seq<char>) -> bool {
    exists|i: int| 0 <= i < edges.len() && #[trigger] edges[i] == (from, to)
}

/// `path` is an upward walk along the edges that stops at BFO: each element
/// but the last is followed by one of its parents and is no BFO IRI.
pub open spec fn is_walk(edges: Seq<(Seq<char>, Seq<char>)>, path: Seq<Seq<char>>) -> bool {
    &&& path.len() >= 1
    &&& forall|i: int|
        0 <= i < path.len() - 1 ==> has_edge(edges, #[trigger] path[i], path[i + 1])
            && !is_bfo_iri(path[i])
}

/// `x` is `start` or one of its ancestors found before the walk hits BFO:
/// a walk along the edges leads from `start` to `x` and passes through no
/// BFO IRI before `x`.
pub open spec fn reachable(edges: Seq<(Seq<char>, Seq<char>)>, start: Seq<char>, x: Seq<char>) -> bool {
    exists|path: Seq<Seq<char>>|
        #[trigger] is_walk(edges, path) && path[0] == start && path.last() == x
}

/// Every edge that leaves a non-BFO member of `set` ends in `set`.
pub open spec fn closed_under(edges: Seq<(Seq<char>, Seq<char>)>, set: Seq<Seq<char>>) -> bool {
    forall|i: int|
        0 <= i < edges.len() && set.contains(#[trigger] edges[i].0) && !is_bfo_iri(edges[i].0)
            ==> set.contains(edges[i].1)
}

/// A set that holds the first element of a walk and is closed under the
/// edges holds every element of the walk.
proof fn lemma_closed_holds_walk(
    edges: Seq<(Seq<char>, Seq<char>)>,
    set: Seq<Seq<char>>,
    path: Seq<Seq<char>>,
    k: int,
)
    requires
        is_walk(edges, path),
        set.contains(path[0]),
        closed_under(edges, set),
        0 <= k < path.len(),
    ensures
        set.contains(path[k]),
    decreases k,
{
    if k > 0 {
        lemma_closed_holds_walk(edges, set, path, k - 1);
        assert(has_edge(edges, path[k - 1], path[k]));
        let i = choose|i: int| 0 <= i < edges.len() && #[trigger] edges[i] == (path[k - 1], path[k]);
        assert(set.contains(edges[i].0));
    }
}

/// A set that holds `start` and is closed under the edges holds everything
/// reachable from `start`.
pub proof fn lemma_closed_holds_reachable(
    edges: Seq<(Seq<char>, Seq<char>)>,
    start: Seq<char>,
    set: Seq<Seq<char>>,
    x: Seq<char>,
)
    requires
        set.contains(start),
        closed_under(edges, set),
        reachable(edges, start, x),
    ensures
        set.contains(x),
{
    let path = choose|path: Seq<Seq<char>>|
        #[trigger] is_walk(edges, path) && path[0] == start && path.last() == x;
    lemma_closed_holds_walk(edges, set, path, path.len() - 1);
}

/// Following one more edge from a reachable class that is not part of BFO
/// reaches a class.
pub proof fn lemma_reachable_step(
    edges: Seq<(Seq<char>, Seq<char>)>,
    start: Seq<char>,
    y: Seq<char>,
    i: int,
)
    requires
        reachable(edges, start, y),
        0 <= i < edges.len(),
        edges[i].0 == y,
        !is_bfo_iri(y),
    ensures
        reachable(edges, start, edges[i].1),
{
    let path = choose|path: Seq<Seq<char>>|
        #[trigger] is_walk(edges, path) && path[0] == start && path.last() == y;
    let x = edges[i].1;
    assert(edges[i] == (y, x));
    let longer = path.push(x);
    assert forall|j: int| 0 <= j < longer.len() - 1 implies has_edge(edges, #[trigger] longer[j], longer[j + 1])
        && !is_bfo_iri(longer[j]) by {
        if j < path.len() - 1 {
            assert(longer[j] == path[j] && longer[j + 1] == path[j + 1]);
        }
    }
    assert(is_walk(edges, longer));
}

/// `start` reaches itself.
pub proof fn lemma_reachable_self(edges: Seq<(Seq<char>, Seq<char>)>, start: Seq<char>)
    ensures
        reachable(edges, start, start),
{
    let path = seq![start];
    assert(is_walk(edges, path));
}

/// Known BFO IRIs ranked from most specific to broadest. The category of a
/// class is the first of them among its ancestors.
pub open spec fn bfo_categories() -> Seq<Seq<char>> {
    seq![
        BFO_OBJECT@,
        BFO_OBJECT_AGGREGATE@,
        BFO_SITE@,
        BFO_MATERIAL_ENTITY@,
        BFO_FUNCTION@,
        BFO_ROLE@,
        BFO_DISPOSITION@,
        BFO_QUALITY@,
        BFO_PROCESS@,
        BFO_INDEPENDENT_CONTINUANT@,
        BFO_SPECIFICALLY_DEPENDENT@,
        BFO_GENERICALLY_DEPENDENT@,
        BFO_CONTINUANT@,
        BFO_OCCURRENT@,
        BFO_ENTITY@,
    ]
}

/// The known BFO category IRIs, in rank order.
fn bfo_category_iris() -> (res: Vec<&'static str>)
    ensures
        res@.len() == bfo_categories().len(),
        forall|i: int| 0 <= i < res@.len() ==> #[trigger] res@[i]@ == bfo_categories()[i],
{
    vec![
        BFO_OBJECT,
        BFO_OBJECT_AGGREGATE,
        BFO_SITE,
        BFO_MATERIAL_ENTITY,
        BFO_FUNCTION,
        BFO_ROLE,
        BFO_DISPOSITION,
        BFO_QUALITY,
        BFO_PROCESS,
        BFO_INDEPENDENT_CONTINUANT,
        BFO_SPECIFICALLY_DEPENDENT,
        BFO_GENERICALLY_DEPENDENT,
        BFO_CONTINUANT,
        BFO_OCCURRENT,
        BFO_ENTITY,
    ]
}

/// An IRI of BFO itself: it has the BFO prefix or is one of the known categories.
pub open spec fn is_bfo_iri(iri: Seq<char>) -> bool {
    BFO@.is_prefix_of(iri) || bfo_categories().contains(iri)
}

/// Whether `iri` belongs to BFO itself.
pub fn is_bfo(iri: &str) -> (res: bool)
    ensures
        res == is_bfo_iri(iri@),
{
    if starts_with(iri, BFO) {
        return true;
    }
    let cats = bfo_category_iris();
    let mut i: usize = 0;
    while i < cats.len()
        invariant
            i <= cats@.len() == bfo_categories().len(),
            forall|j: int| 0 <= j < cats@.len() ==> #[trigger] cats@[j]@ == bfo_categories()[j],
            forall|j: int| 0 <= j < i ==> bfo_categories()[j] != iri@,
        decreases cats.len() - i,
    {
        if str_eq(cats[i], iri) {
            assert(bfo_categories()[i as int] == iri@);
            return true;
        }
        i = i + 1;
    }
    false
}

/// Every known category carries the BFO prefix, so an IRI belongs to BFO
/// exactly when it has that prefix.
pub proof fn lemma_bfo_iri_is_prefixed(iri: Seq<char>)
    ensures
        is_bfo_iri(iri) <==> BFO@.is_prefix_of(iri),
{
    reveal_strlit("http://purl.obolibrary.org/obo/BFO_");
    reveal_strlit("http://purl.obolibrary.org/obo/BFO_0000001");
    reveal_strlit("http://purl.obolibrary.org/obo/BFO_0000002");
    reveal_strlit("http://purl.obolibrary.org/obo/BFO_0000003");
    reveal_strlit("http://purl.obolibrary.org/obo/BFO_0000004");
    reveal_strlit("http://purl.obolibrary.org/obo/BFO_0000020");
    reveal_strlit("http://purl.obolibrary.org/obo/BFO_0000031");
    reveal_strlit("http://purl.obolibrary.org/obo/BFO_0000040");
    reveal_strlit("http://purl.obolibrary.org/obo/BFO_0000015");
    reveal_strlit("http://purl.obolibrary.org/obo/BFO_0000019");
    reveal_strlit("http://purl.obolibrary.org/obo/BFO_0000016");
    reveal_strlit("http://purl.obolibrary.org/obo/BFO_0000023");
    reveal_strlit("http://purl.obolibrary.org/obo/BFO_0000034");
    reveal_strlit("http://purl.obolibrary.org/obo/BFO_0000030");
    reveal_strlit("http://purl.obolibrary.org/obo/BFO_0000027");
    reveal_strlit("http://purl.obolibrary.org/obo/BFO_0000029");
    if bfo_categories().contains(iri) {
        let k = choose|k: int| 0 <= k < bfo_categories().len() && bfo_categories()[k] == iri;
        assert(BFO@ =~= bfo_categories()[k].subrange(0, BFO@.len() as int));
    }
}

/// The first IRI of `list` that satisfies `holds`.
pub open spec fn first_satisfying(list: Seq<Seq<char>>, holds: spec_fn(Seq<char>) -> bool) -> Option<Seq<char>>
    decreases list.len(),
{
    if list.len() == 0 {
        None
    } else if holds(list[0]) {
        Some(list[0])
    } else {
        first_satisfying(list.drop_first(), holds)
    }
}

/// When `k` is in `list` and satisfies `holds`, and no other element of
/// `list` does, `k` is the first that does.
pub proof fn lemma_first_satisfying_only(
    list: Seq<Seq<char>>,
    holds: spec_fn(Seq<char>) -> bool,
    k: Seq<char>,
)
    requires
        list.contains(k),
        holds(k),
        forall|i: int| 0 <= i < list.len() && holds(#[trigger] list[i]) ==> list[i] == k,
    ensures
        first_satisfying(list, holds) == Some(k),
    decreases list.len(),
{
    if !holds(list[0]) {
        let rest = list.drop_first();
        let i = choose|i: int| 0 <= i < list.len() && list[i] == k;
        assert(rest[i - 1] == k);
        assert forall|j: int| 0 <= j < rest.len() && holds(#[trigger] rest[j]) implies rest[j] == k by {
            assert(rest[j] == list[j + 1]);
        }
        lemma_first_satisfying_only(rest, holds, k);
    }
}

/// The deepest (most specific) BFO category in an ancestor set.
pub fn deepest_bfo(anc: &Vec<String>) -> (res: Option<BfoCategory>)
    ensures
        match res {
            Some(c) => first_satisfying(bfo_categories(), |k: Seq<char>| views(anc@).contains(k))
                == Some(c.0@),
            None => first_satisfying(bfo_categories(), |k: Seq<char>| views(anc@).contains(k)) is None,
        },
{
    let ghost holds = |k: Seq<char>| views(anc@).contains(k);
    let cats = bfo_category_iris();
    let mut i: usize = 0;
    assert(bfo_categories().skip(0) =~= bfo_categories());
    while i < cats.len()
        invariant
            i <= cats@.len() == bfo_categories().len(),
            forall|j: int| 0 <= j < cats@.len() ==> #[trigger] cats@[j]@ == bfo_categories()[j],
            holds == (|k: Seq<char>| views(anc@).contains(k)),
            first_satisfying(bfo_categories(), holds) == first_satisfying(
                bfo_categories().skip(i as int),
                holds,
            ),
        decreases cats.len() - i,
    {
        let cat = cats[i].to_owned();
        if contains_string(anc, &cat) {
            return Some(BfoCategory(cat));
        }
        assert(bfo_categories().skip(i as int).drop_first() =~= bfo_categories().skip(i + 1));
        i = i + 1;
    }
    None
}

/// Whether `x` occurs (by characters) in `v`.
pub fn contains_string(v: &Vec<String>, x: &String) -> (res: bool)
    ensures
        res == views(v@).contains(x@),
{
    let mut i: usize = 0;
    while i < v.len()
        invariant
            i <= v.len(),
            forall|j: int| 0 <= j < i ==> v@[j]@ != x@,
        decreases v.len() - i,
    {
        if v[i] == *x {
            assert(views(v@)[i as int] == x@);
            return true;
        }
        i = i + 1;
    }
    assert forall|j: int| 0 <= j < views(v@).len() implies views(v@)[j] != x@ by {
        assert(v@[j]@ != x@);
    }
    false
}

/// The ancestors of `start` (itself included), collected upward until the
/// walk hits a BFO IRI: a BFO IRI is kept but its own parents are not
/// followed. Each is listed once.
pub fn ancestors(start: &String, edges: &Vec<(String, String)>) -> (res: Vec<String>)
    ensures
        views(res@).no_duplicates(),
        forall|x: Seq<char>| views(res@).contains(x) <==> reachable(edge_views(edges@), start@, x),
{
    let ghost e = edge_views(edges@);
    let ghost universe = e.map_values(|p: (Seq<char>, Seq<char>)| p.1).to_set().insert(start@);
    proof {
        vstd::seq_lib::seq_to_set_is_finite(e.map_values(|p: (Seq<char>, Seq<char>)| p.1));
        lemma_reachable_self(e, start@);
    }
    let mut visited: Vec<String> = Vec::new();
    let mut stack: Vec<String> = Vec::new();
    stack.push(start.clone());
    assert(views(stack@) =~= seq![start@]);
    while stack.len() > 0
        invariant
            e == edge_views(edges@),
            universe.finite(),
            universe == e.map_values(|p: (Seq<char>, Seq<char>)| p.1).to_set().insert(start@),
            views(visited@).no_duplicates(),
            visited.len() <= universe.len(),
            forall|x: Seq<char>| views(visited@).contains(x) ==> universe.contains(x),
            forall|x: Seq<char>| views(stack@).contains(x) ==> universe.contains(x),
            forall|x: Seq<char>| views(visited@).contains(x) ==> reachable(e, start@, x),
            forall|x: Seq<char>| views(stack@).contains(x) ==> reachable(e, start@, x),
            views(visited@).contains(start@) || views(stack@).contains(start@),
            forall|i: int|
                0 <= i < e.len() && views(visited@).contains(#[trigger] e[i].0) && !is_bfo_iri(
                    e[i].0,
                ) ==> views(visited@).contains(e[i].1) || views(stack@).contains(e[i].1),
        decreases universe.len() - visited.len(), stack.len(),
    {
        let ghost old_stack = stack@;
        let cur = stack.pop().unwrap();
        assert(views(old_stack) =~= views(stack@).push(cur@));
        if contains_string(&visited, &cur) {
            continue ;
        }
        let ghost old_visited = visited@;
        visited.push(cur.clone());
        assert(views(visited@) =~= views(old_visited).push(cur@));
        proof {
            let vs = views(visited@);
            vs.unique_seq_to_set();
            views(old_visited).unique_seq_to_set();
            vstd::set_lib::lemma_len_subset(vs.to_set(), universe);
        }
        let expand = !is_bfo(cur.as_str());
        let mut j: usize = 0;
        while expand && j < edges.len()
            invariant
                e == edge_views(edges@),
                universe == e.map_values(|p: (Seq<char>, Seq<char>)| p.1).to_set().insert(start@),
                j <= edges.len() == e.len(),
                views(visited@).contains(cur@),
                expand == !is_bfo_iri(cur@),
                forall|x: Seq<char>| views(stack@).contains(x) ==> universe.contains(x),
                forall|x: Seq<char>| views(stack@).contains(x) ==> reachable(e, start@, x),
                reachable(e, start@, cur@),
                views(visited@).contains(start@) || views(stack@).contains(start@),
                forall|i: int|
                    0 <= i < e.len() && views(visited@).contains(#[trigger] e[i].0) && !is_bfo_iri(
                        e[i].0,
                    ) && (e[i].0 != cur@ || i < j) ==> views(visited@).contains(e[i].1) || views(
                        stack@,
                    ).contains(e[i].1),
            decreases edges.len() - j,
        {
            if edges[j].0 == cur {
                if !contains_string(&visited, &edges[j].1) {
                    let ghost before = stack@;
                    stack.push(edges[j].1.clone());
                    assert(views(stack@) =~= views(before).push(edges@[j as int].1@));
                    proof {
                        assert(e[j as int] == (edges@[j as int].0@, edges@[j as int].1@));
                        lemma_reachable_step(e, start@, cur@, j as int);
                        assert(e.map_values(|p: (Seq<char>, Seq<char>)| p.1)[j as int] == e[j as int].1);
                    }
                }
            }
            j = j + 1;
        }
    }
    proof {
        assert forall|x: Seq<char>| reachable(e, start@, x) implies views(visited@).contains(x) by {
            lemma_closed_holds_reachable(e, start@, views(visited@), x);
        }
    }
    visited
}

} // verus!
