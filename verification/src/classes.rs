//! What the anchor step reads from the components of an ontology: the
//! declared classes, the direct parents from `SubClassOf` axioms, and the
//! labels and definitions from annotation assertions.

use vstd::prelude::*;

use crate::hierarchy::{edge_views, is_bfo, is_bfo_iri, views};
use crate::owl::{component_views, opt_view, OwlComponent, OwlComponentView};
use crate::text::{
    chars_less, chars_lt, chars_of, lemma_chars_lt_irreflexive, lemma_chars_lt_total,
    lemma_chars_lt_transitive, str_eq,
};
use crate::vocab::{
    OBO_BROAD_SYNONYM, OBO_DEFINITION, OBO_EXACT_SYNONYM, OBO_NARROW_SYNONYM, OWL_THING, RDFS_LABEL,
};

verus! {

broadcast use vstd::seq_lib::group_seq_properties;

/// The (sub, sup) pairs of the `SubClassOf` axioms between named classes,
/// in component order.
pub open spec fn subclass_edges(cs: Seq<OwlComponentView>) -> Seq<(Seq<char>, Seq<char>)>
    decreases cs.len(),
{
    if cs.len() == 0 {
        seq![]
    } else {
        let prev = subclass_edges(cs.drop_last());
        match cs.last() {
            OwlComponentView::SubClassOf(Some(sub), Some(sup)) => prev.push((sub, sup)),
            _ => prev,
        }
    }
}

/// The direct parents of `c`: the ends of the edges that leave it, in order.
pub open spec fn parents_in(edges: Seq<(Seq<char>, Seq<char>)>, c: Seq<char>) -> Seq<Seq<char>>
    decreases edges.len(),
{
    if edges.len() == 0 {
        seq![]
    } else {
        let prev = parents_in(edges.drop_last(), c);
        if edges.last().0 == c {
            prev.push(edges.last().1)
        } else {
            prev
        }
    }
}

/// The annotation properties whose values are labels.
pub open spec fn is_label_property(p: Seq<char>) -> bool {
    p == RDFS_LABEL@ || p == OBO_EXACT_SYNONYM@ || p == OBO_BROAD_SYNONYM@ || p
        == OBO_NARROW_SYNONYM@
}

/// The labels and synonyms asserted of `c`, in component order.
pub open spec fn labels_in(cs: Seq<OwlComponentView>, c: Seq<char>) -> Seq<Seq<char>>
    decreases cs.len(),
{
    if cs.len() == 0 {
        seq![]
    } else {
        let prev = labels_in(cs.drop_last(), c);
        match cs.last() {
            OwlComponentView::AnnotationAssertion(Some(s), p, Some(v)) => if s == c
                && is_label_property(p) {
                prev.push(v)
            } else {
                prev
            },
            _ => prev,
        }
    }
}

/// The last definition asserted of `c`.
pub open spec fn definition_in(cs: Seq<OwlComponentView>, c: Seq<char>) -> Option<Seq<char>>
    decreases cs.len(),
{
    if cs.len() == 0 {
        None
    } else {
        match cs.last() {
            OwlComponentView::AnnotationAssertion(Some(s), p, Some(v)) if s == c && p
                == OBO_DEFINITION@ => Some(v),
            _ => definition_in(cs.drop_last(), c),
        }
    }
}

/// `x` is declared as a class and is neither part of BFO nor `owl:Thing`.
pub open spec fn is_anchored_class(cs: Seq<OwlComponentView>, x: Seq<char>) -> bool {
    &&& exists|i: int| 0 <= i < cs.len() && #[trigger] cs[i] == OwlComponentView::DeclareClass(x)
    &&& !is_bfo_iri(x)
    &&& x != OWL_THING@
}

/// Each element comes strictly before the next: sorted, without repeats.
pub open spec fn strictly_sorted(s: Seq<Seq<char>>) -> bool {
    forall|i: int, j: int| 0 <= i < j < s.len() ==> chars_lt(#[trigger] s[i], #[trigger] s[j])
}

/// A strictly sorted sequence has no repeats.
pub proof fn lemma_strictly_sorted_no_duplicates(s: Seq<Seq<char>>)
    requires
        strictly_sorted(s),
    ensures
        s.no_duplicates(),
{
    assert forall|i: int, j: int| 0 <= i < s.len() && 0 <= j < s.len() && i != j implies s[i]
        != s[j] by {
        if i < j {
            lemma_chars_lt_irreflexive(s[i]);
        } else {
            lemma_chars_lt_irreflexive(s[j]);
        }
    }
}

/// The definition property is none of the label properties.
proof fn lemma_definition_is_not_label()
    ensures
        !is_label_property(OBO_DEFINITION@),
{
    reveal_strlit("http://purl.obolibrary.org/obo/IAO_0000115");
    reveal_strlit("http://www.w3.org/2000/01/rdf-schema#label");
    reveal_strlit("http://www.geneontology.org/formats/oboInOwl#hasExactSynonym");
    reveal_strlit("http://www.geneontology.org/formats/oboInOwl#hasBroadSynonym");
    reveal_strlit("http://www.geneontology.org/formats/oboInOwl#hasNarrowSynonym");
    assert(OBO_DEFINITION@[7] != RDFS_LABEL@[7]);
    assert(OBO_DEFINITION@[7] != OBO_EXACT_SYNONYM@[7]);
    assert(OBO_DEFINITION@[7] != OBO_BROAD_SYNONYM@[7]);
    assert(OBO_DEFINITION@[7] != OBO_NARROW_SYNONYM@[7]);
}

/// The direct parents of `c` are the ends of all the edges that leave `c`,
/// one for each such edge and in the edges' order: a name is a parent of
/// `c` exactly when some edge leads from `c` to it, and there are as many
/// parents as edges leaving `c`.
pub proof fn law_parents_are_all_edge_ends(edges: Seq<(Seq<char>, Seq<char>)>, c: Seq<char>)
    ensures
        parents_in(edges, c) == edges.filter(|e: (Seq<char>, Seq<char>)| e.0 == c).map_values(
            |e: (Seq<char>, Seq<char>)| e.1,
        ),
        parents_in(edges, c).len() == edges.filter(|e: (Seq<char>, Seq<char>)| e.0 == c).len(),
        forall|x: Seq<char>|
            parents_in(edges, c).contains(x) <==> exists|i: int|
                0 <= i < edges.len() && #[trigger] edges[i] == (c, x),
    decreases edges.len(),
{
    let pred = |e: (Seq<char>, Seq<char>)| e.0 == c;
    let end = |e: (Seq<char>, Seq<char>)| e.1;
    reveal_with_fuel(Seq::<(Seq<char>, Seq<char>)>::filter, 1);
    if edges.len() == 0 {
        assert(edges.filter(pred).map_values(end) =~= Seq::<Seq<char>>::empty());
    } else {
        let init = edges.drop_last();
        law_parents_are_all_edge_ends(init, c);
        let f = edges.filter(pred);
        if pred(edges.last()) {
            assert(f == init.filter(pred).push(edges.last()));
            assert(f.map_values(end) =~= init.filter(pred).map_values(end).push(edges.last().1));
        } else {
            assert(f == init.filter(pred));
        }
        let ps = parents_in(edges, c);
        assert forall|x: Seq<char>| ps.contains(x) <==> exists|i: int|
            0 <= i < edges.len() && #[trigger] edges[i] == (c, x) by {
            if ps.contains(x) {
                if parents_in(init, c).contains(x) {
                    let i = choose|i: int| 0 <= i < init.len() && #[trigger] init[i] == (c, x);
                    assert(edges[i] == init[i]);
                } else {
                    assert(edges[edges.len() - 1] == (c, x));
                }
            }
            if exists|i: int| 0 <= i < edges.len() && #[trigger] edges[i] == (c, x) {
                let i = choose|i: int| 0 <= i < edges.len() && #[trigger] edges[i] == (c, x);
                if i < edges.len() - 1 {
                    assert(init[i] == edges[i]);
                    assert(parents_in(init, c).contains(x));
                } else {
                    assert(ps.last() == x);
                }
            }
        }
    }
}

/// Every label-like annotation counts: the labels of `c` are the values of
/// the annotation assertions on `c` whose property is `rdfs:label`,
/// `oboInOwl:hasExactSynonym`, `hasBroadSynonym` or `hasNarrowSynonym`,
/// each once and in component order.
pub proof fn law_labels_are_label_assertions(cs: Seq<OwlComponentView>, c: Seq<char>)
    ensures
        labels_in(cs, c) == cs.filter(
            |x: OwlComponentView|
                x matches OwlComponentView::AnnotationAssertion(Some(s), p, Some(v)) && s == c && (p
                    == RDFS_LABEL@ || p == OBO_EXACT_SYNONYM@ || p == OBO_BROAD_SYNONYM@ || p
                    == OBO_NARROW_SYNONYM@),
        ).map_values(
            |x: OwlComponentView|
                match x {
                    OwlComponentView::AnnotationAssertion(_, _, Some(v)) => v,
                    _ => Seq::empty(),
                },
        ),
    decreases cs.len(),
{
    let pred = |x: OwlComponentView|
        x matches OwlComponentView::AnnotationAssertion(Some(s), p, Some(v)) && s == c && (p
            == RDFS_LABEL@ || p == OBO_EXACT_SYNONYM@ || p == OBO_BROAD_SYNONYM@ || p
            == OBO_NARROW_SYNONYM@);
    let value = |x: OwlComponentView|
        match x {
            OwlComponentView::AnnotationAssertion(_, _, Some(v)) => v,
            _ => Seq::empty(),
        };
    reveal_with_fuel(Seq::<OwlComponentView>::filter, 1);
    if cs.len() == 0 {
        assert(cs.filter(pred).map_values(value) =~= Seq::<Seq<char>>::empty());
    } else {
        let init = cs.drop_last();
        law_labels_are_label_assertions(init, c);
        let f = cs.filter(pred);
        if pred(cs.last()) {
            assert(f == init.filter(pred).push(cs.last()));
            assert(f.map_values(value) =~= init.filter(pred).map_values(value).push(value(cs.last())));
        } else {
            assert(f == init.filter(pred));
        }
    }
}

/// Build the direct-parent edges (named sub, named sup) from SubClassOf axioms.
pub fn extract_parents(components: &Vec<OwlComponent>) -> (res: Vec<(String, String)>)
    ensures
        edge_views(res@) == subclass_edges(component_views(components@)),
{
    let ghost cv = component_views(components@);
    let mut out: Vec<(String, String)> = Vec::new();
    let mut i: usize = 0;
    assert(cv.take(0) =~= Seq::<OwlComponentView>::empty());
    while i < components.len()
        invariant
            i <= components.len(),
            cv == component_views(components@),
            edge_views(out@) == subclass_edges(cv.take(i as int)),
        decreases components.len() - i,
    {
        assert(cv.take(i + 1).drop_last() =~= cv.take(i as int));
        assert(cv.take(i + 1).last() == components@[i as int]@);
        match &components[i] {
            OwlComponent::SubClassOf { sub: Some(a), sup: Some(b) } => {
                let ghost before = out@;
                out.push((a.clone(), b.clone()));
                assert(edge_views(out@) =~= edge_views(before).push((a@, b@)));
            },
            _ => {},
        }
        i = i + 1;
    }
    assert(cv.take(components.len() as int) =~= cv);
    out
}

/// The direct parents of `class_iri`, in edge order.
pub fn parents_of(edges: &Vec<(String, String)>, class_iri: &String) -> (res: Vec<String>)
    ensures
        views(res@) == parents_in(edge_views(edges@), class_iri@),
{
    let ghost e = edge_views(edges@);
    let mut out: Vec<String> = Vec::new();
    let mut i: usize = 0;
    assert(e.take(0) =~= Seq::<(Seq<char>, Seq<char>)>::empty());
    while i < edges.len()
        invariant
            i <= edges.len() == e.len(),
            e == edge_views(edges@),
            views(out@) == parents_in(e.take(i as int), class_iri@),
        decreases edges.len() - i,
    {
        assert(e.take(i + 1).drop_last() =~= e.take(i as int));
        assert(e.take(i + 1).last() == (edges@[i as int].0@, edges@[i as int].1@));
        if edges[i].0 == *class_iri {
            let ghost before = out@;
            out.push(edges[i].1.clone());
            assert(views(out@) =~= views(before).push(edges@[i as int].1@));
        }
        i = i + 1;
    }
    assert(e.take(edges.len() as int) =~= e);
    out
}

/// Whether `p` is one of the annotation properties whose values are labels.
fn is_label_prop(p: &str) -> (res: bool)
    ensures
        res == is_label_property(p@),
{
    str_eq(p, RDFS_LABEL) || str_eq(p, OBO_EXACT_SYNONYM) || str_eq(p, OBO_BROAD_SYNONYM)
        || str_eq(p, OBO_NARROW_SYNONYM)
}

/// The labels (rdfs:label and OBO synonyms) and the definition asserted of
/// `class_iri`.
pub fn extract_annotations(components: &Vec<OwlComponent>, class_iri: &String) -> (res: (
    Vec<String>,
    Option<String>,
))
    ensures
        views(res.0@) == labels_in(component_views(components@), class_iri@),
        opt_view(res.1) == definition_in(component_views(components@), class_iri@),
{
    let ghost cv = component_views(components@);
    proof {
        lemma_definition_is_not_label();
    }
    let mut labels: Vec<String> = Vec::new();
    let mut definition: Option<String> = None;
    let mut i: usize = 0;
    assert(cv.take(0) =~= Seq::<OwlComponentView>::empty());
    while i < components.len()
        invariant
            i <= components.len(),
            cv == component_views(components@),
            views(labels@) == labels_in(cv.take(i as int), class_iri@),
            opt_view(definition) == definition_in(cv.take(i as int), class_iri@),
            !is_label_property(OBO_DEFINITION@),
        decreases components.len() - i,
    {
        assert(cv.take(i + 1).drop_last() =~= cv.take(i as int));
        assert(cv.take(i + 1).last() == components@[i as int]@);
        match &components[i] {
            OwlComponent::AnnotationAssertion { subject: Some(s), property, value: Some(v) } => {
                if *s == *class_iri {
                    if is_label_prop(property.as_str()) {
                        let ghost before = labels@;
                        labels.push(v.clone());
                        assert(views(labels@) =~= views(before).push(v@));
                    } else if str_eq(property.as_str(), OBO_DEFINITION) {
                        definition = Some(v.clone());
                    }
                }
            },
            _ => {},
        }
        i = i + 1;
    }
    assert(cv.take(components.len() as int) =~= cv);
    (labels, definition)
}

/// Inserts `x` into the strictly sorted `v`, unless it is there already.
fn insert_sorted(v: &mut Vec<String>, x: String)
    requires
        strictly_sorted(views(old(v)@)),
    ensures
        strictly_sorted(views(final(v)@)),
        forall|y: Seq<char>|
            views(final(v)@).contains(y) <==> views(old(v)@).contains(y) || y == x@,
{
    let xc = chars_of(x.as_str());
    let mut p: usize = 0;
    while p < v.len() && chars_less(&chars_of(v[p].as_str()), &xc)
        invariant
            p <= v.len(),
            xc@ == x@,
            forall|i: int| 0 <= i < p ==> chars_lt(#[trigger] views(v@)[i], x@),
        decreases v.len() - p,
    {
        p = p + 1;
    }
    let ghost old_views = views(v@);
    if p < v.len() && v[p] == x {
        assert(old_views[p as int] == x@);
        return;
    }
    proof {
        if p < v.len() {
            lemma_chars_lt_total(old_views[p as int], x@);
            assert forall|j: int| p <= j < old_views.len() implies chars_lt(
                x@,
                #[trigger] old_views[j],
            ) by {
                if j > p {
                    lemma_chars_lt_transitive(x@, old_views[p as int], old_views[j]);
                }
            }
        }
    }
    v.insert(p, x);
    let ghost nv = views(v@);
    assert(nv =~= old_views.insert(p as int, x@));
    assert forall|i: int, j: int| 0 <= i < j < nv.len() implies chars_lt(
        #[trigger] nv[i],
        #[trigger] nv[j],
    ) by {
        if j < p {
        } else if i > p {
            assert(nv[i] == old_views[i - 1] && nv[j] == old_views[j - 1]);
        } else if i == p {
            assert(nv[j] == old_views[j - 1]);
        } else if j == p {
        } else {
            assert(nv[j] == old_views[j - 1]);
        }
    }
    assert forall|y: Seq<char>| nv.contains(y) <==> old_views.contains(y) || y == x@ by {
        if nv.contains(y) {
            let k = choose|k: int| 0 <= k < nv.len() && nv[k] == y;
            if k < p {
                assert(old_views[k] == y);
            } else if k > p {
                assert(old_views[k - 1] == y);
            }
        }
        if old_views.contains(y) {
            let k = choose|k: int| 0 <= k < old_views.len() && old_views[k] == y;
            if k < p {
                assert(nv[k] == y);
            } else {
                assert(nv[k + 1] == y);
            }
        }
        if y == x@ {
            assert(nv[p as int] == y);
        }
    }
}

/// The declared classes that get anchors: neither part of BFO nor
/// `owl:Thing`, sorted, each once.
pub fn declared_classes(components: &Vec<OwlComponent>) -> (res: Vec<String>)
    ensures
        strictly_sorted(views(res@)),
        forall|x: Seq<char>|
            views(res@).contains(x) <==> is_anchored_class(component_views(components@), x),
{
    let ghost cv = component_views(components@);
    let mut out: Vec<String> = Vec::new();
    let mut i: usize = 0;
    while i < components.len()
        invariant
            i <= components.len(),
            cv == component_views(components@),
            strictly_sorted(views(out@)),
            forall|x: Seq<char>|
                views(out@).contains(x) <==> is_anchored_class(cv.take(i as int), x),
        decreases components.len() - i,
    {
        let ghost before = out@;
        assert forall|x: Seq<char>|
            is_anchored_class(cv.take(i + 1), x) <==> is_anchored_class(cv.take(i as int), x) || (
            cv[i as int] == OwlComponentView::DeclareClass(x) && !is_bfo_iri(x) && x
                != OWL_THING@) by {
            if is_anchored_class(cv.take(i + 1), x) {
                let k = choose|k: int|
                    0 <= k < i + 1 && #[trigger] cv.take(i + 1)[k] == OwlComponentView::DeclareClass(x);
                if k < i {
                    assert(cv.take(i as int)[k] == OwlComponentView::DeclareClass(x));
                }
            }
            if is_anchored_class(cv.take(i as int), x) {
                let k = choose|k: int|
                    0 <= k < i && #[trigger] cv.take(i as int)[k] == OwlComponentView::DeclareClass(x);
                assert(cv.take(i + 1)[k] == OwlComponentView::DeclareClass(x));
            }
            if cv[i as int] == OwlComponentView::DeclareClass(x) {
                assert(cv.take(i + 1)[i as int] == OwlComponentView::DeclareClass(x));
            }
        }
        match &components[i] {
            OwlComponent::DeclareClass(iri) => {
                if !is_bfo(iri.as_str()) && !str_eq(iri.as_str(), OWL_THING) {
                    insert_sorted(&mut out, iri.clone());
                }
            },
            _ => {},
        }
        i = i + 1;
    }
    assert(cv.take(components.len() as int) =~= cv);
    out
}

} // verus!
