use lattice_bridge::hierarchy::{ancestors, deepest_bfo, is_bfo};
use lattice_bridge::lexical::normalize;
use lattice_bridge::vocab;

fn edge(a: &str, b: &str) -> (String, String) {
    (a.to_string(), b.to_string())
}

#[test]
fn ancestors_follow_all_parents_and_stop_on_cycles() {
    let edges = vec![
        edge("A", "B"),
        edge("B", "C"),
        edge("C", "A"),
        edge("B", "D"),
        edge("X", "Y"),
    ];
    let mut anc = ancestors(&"A".to_string(), &edges);
    anc.sort();
    assert_eq!(anc, vec!["A", "B", "C", "D"]);
    assert_eq!(ancestors(&"Z".to_string(), &edges), vec!["Z".to_string()]);
}

#[test]
fn ancestors_stop_at_the_first_bfo_iri() {
    let edges = vec![
        edge("http://e/C", vocab::BFO_QUALITY),
        edge(vocab::BFO_QUALITY, vocab::BFO_SPECIFICALLY_DEPENDENT),
    ];
    let mut anc = ancestors(&"http://e/C".to_string(), &edges);
    anc.sort();
    assert_eq!(anc, vec!["http://e/C".to_string(), vocab::BFO_QUALITY.to_string()]);
    // A BFO start is kept and not climbed from.
    assert_eq!(
        ancestors(&vocab::BFO_QUALITY.to_string(), &edges),
        vec![vocab::BFO_QUALITY.to_string()]
    );
}

#[test]
fn deepest_bfo_prefers_the_most_specific_category() {
    let anc = vec![
        "x".to_string(),
        vocab::BFO_ENTITY.to_string(),
        vocab::BFO_QUALITY.to_string(),
        vocab::BFO_CONTINUANT.to_string(),
    ];
    assert_eq!(deepest_bfo(&anc).unwrap().as_str(), vocab::BFO_QUALITY);
    assert!(deepest_bfo(&vec!["x".to_string()]).is_none());
}

#[test]
fn bfo_iris_are_those_with_the_bfo_prefix() {
    assert!(is_bfo(vocab::BFO_SITE));
    assert!(is_bfo("http://purl.obolibrary.org/obo/BFO_9999999"));
    assert!(!is_bfo("http://purl.obolibrary.org/obo/IAO_0000115"));
    assert!(!is_bfo(vocab::OWL_THING));
}

#[test]
fn normalize_is_idempotent_on_ascii() {
    for s in ["Heart-Disease", "  Foo  Bar ", "a--b__c", "", "X_Y z"] {
        let once = normalize(s);
        assert_eq!(normalize(&once), once);
        assert!(!once.starts_with(' ') && !once.ends_with(' ') && !once.contains("  "));
    }
}
