use lattice_bridge::anchor::{BfoAnchor, BfoCategory};
use lattice_bridge::matcher::{candidate_pairs, MappingKind};
use lattice_bridge::vocab;

fn make_anchor(iri: &str, cat: &str, labels: &[&str]) -> BfoAnchor {
    BfoAnchor {
        class_iri: iri.to_string(),
        category: BfoCategory(cat.to_string()),
        labels: labels.iter().map(|s| s.to_string()).collect(),
        definition: None,
        parents: vec![],
    }
}

#[test]
fn bfo_anchor_prune_blocks_cross_category() {
    // A class under BFO:quality must NOT map to a class under BFO:process
    // even if their labels are identical.
    let a = vec![make_anchor(
        "http://example.org/a#Temperature",
        vocab::BFO_QUALITY,
        &["Temperature"],
    )];
    let b = vec![make_anchor(
        "http://example.org/b#Temperature",
        vocab::BFO_PROCESS,
        &["Temperature"],
    )];
    let pairs = candidate_pairs(&a, &b);
    assert!(
        pairs.is_empty(),
        "cross-BFO-category mapping must be pruned; got {:?}",
        pairs
    );
}

#[test]
fn deterministic_rerun() {
    let a = vec![
        make_anchor("http://ex.org/a#Dog", vocab::BFO_OBJECT, &["Dog"]),
        make_anchor("http://ex.org/a#Cat", vocab::BFO_OBJECT, &["Cat"]),
    ];
    let b = vec![
        make_anchor("http://ex.org/b#Cat", vocab::BFO_OBJECT, &["Cat"]),
        make_anchor("http://ex.org/b#Dog", vocab::BFO_OBJECT, &["Dog"]),
    ];
    let iris = |pairs: Vec<(usize, usize)>| -> Vec<(String, String)> {
        pairs
            .into_iter()
            .map(|(i, j)| (a[i].class_iri.clone(), b[j].class_iri.clone()))
            .collect()
    };
    let iris1 = iris(candidate_pairs(&a, &b));
    let iris2 = iris(candidate_pairs(&a, &b));
    assert_eq!(iris1, iris2, "alignment must be deterministic");
}

#[test]
fn candidate_pairs_are_same_category_in_index_order() {
    let a = vec![
        make_anchor("a0", vocab::BFO_OBJECT, &["x"]),
        make_anchor("a1", vocab::BFO_PROCESS, &["y"]),
        make_anchor("a2", vocab::BFO_OBJECT, &["z"]),
    ];
    let b = vec![
        make_anchor("b0", vocab::BFO_PROCESS, &["y"]),
        make_anchor("b1", vocab::BFO_OBJECT, &["x"]),
        make_anchor("b2", vocab::BFO_OBJECT, &["w"]),
        make_anchor("b3", vocab::BFO_QUALITY, &["q"]),
    ];
    assert_eq!(
        candidate_pairs(&a, &b),
        vec![(0, 1), (0, 2), (1, 0), (2, 1), (2, 2)]
    );
    assert!(candidate_pairs(&a, &[]).is_empty());
    assert!(candidate_pairs(&[], &b).is_empty());
}

#[test]
fn mapping_kind_names() {
    assert_eq!(MappingKind::Equivalent.to_string(), "equivalent");
    assert_eq!(MappingKind::SubClassOf.to_string(), "subClassOf");
}
