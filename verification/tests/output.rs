use lattice_bridge::matcher::MappingKind;
use lattice_bridge::output::{bridge_owl_document, truncate, BridgeAxiom};

fn dummy_axiom(accepted: bool, kind: MappingKind, conf: f64) -> BridgeAxiom {
    BridgeAxiom {
        kind,
        accepted,
        confidence: format!("{:.4}", conf),
        bfo_category: "http://purl.obolibrary.org/obo/BFO_0000030".to_string(),
        a_iri: "http://a.org/A".to_string(),
        b_iri: "http://b.org/B".to_string(),
    }
}

#[test]
fn owl_output_parses_back() {
    let m = dummy_axiom(true, MappingKind::Equivalent, 0.95);
    let xml = bridge_owl_document(&vec![m], "http://example.org/bridge");
    assert!(xml.contains("<EquivalentClasses>"));
    assert!(xml.contains("http://a.org/A"));
    assert!(xml.contains("http://b.org/B"));
}

#[test]
fn rejected_mapping_not_in_owl() {
    let m = dummy_axiom(false, MappingKind::SubClassOf, 0.5);
    let xml = bridge_owl_document(&vec![m], "http://example.org/bridge");
    assert!(!xml.contains("<SubClassOf>"), "below-threshold must not appear in bridge.owl");
}

const HEADER: &str = r#"<?xml version="1.0" encoding="UTF-8"?>
<!DOCTYPE Ontology []>
<Ontology
    xmlns="http://www.w3.org/2002/07/owl#"
    xml:base="http://example.org/bridge"
    ontologyIRI="http://example.org/bridge">
  <Prefix name="owl" IRI="http://www.w3.org/2002/07/owl#"/>
  <Prefix name="rdf" IRI="http://www.w3.org/1999/02/22-rdf-syntax-ns#"/>
  <Prefix name="rdfs" IRI="http://www.w3.org/2000/01/rdf-schema#"/>
  <Prefix name="xsd" IRI="http://www.w3.org/2001/XMLSchema#"/>
"#;

#[test]
fn bridge_document_exact_text() {
    let axioms = vec![
        dummy_axiom(true, MappingKind::SubClassOf, 0.9),
        dummy_axiom(false, MappingKind::Equivalent, 0.1),
    ];
    let xml = bridge_owl_document(&axioms, "http://example.org/bridge");
    let expected = format!(
        "{HEADER}  <!-- confidence=0.9000 bfo_category=http://purl.obolibrary.org/obo/BFO_0000030 -->\n  <SubClassOf>\n    <Class IRI=\"http://a.org/A\"/>\n    <Class IRI=\"http://b.org/B\"/>\n  </SubClassOf>\n</Ontology>\n"
    );
    assert_eq!(xml, expected);
}

#[test]
fn rejected_mappings_leave_document_unchanged() {
    let accepted = dummy_axiom(true, MappingKind::Equivalent, 0.99);
    let with_rejected = vec![
        dummy_axiom(false, MappingKind::Equivalent, 0.2),
        dummy_axiom(true, MappingKind::Equivalent, 0.99),
        dummy_axiom(false, MappingKind::SubClassOf, 0.3),
    ];
    assert_eq!(
        bridge_owl_document(&with_rejected, "http://x"),
        bridge_owl_document(&vec![accepted], "http://x")
    );
    assert_eq!(
        bridge_owl_document(&vec![], "http://example.org/bridge"),
        format!("{HEADER}</Ontology>\n")
    );
}

#[test]
fn truncate_cuts_at_byte_limit() {
    assert_eq!(truncate("short", 40), "short");
    assert_eq!(truncate("abcdefghij", 4), "abcd");
    assert_eq!(truncate("héllo", 3), "hé");
    assert_eq!(truncate("", 0), "");
}
