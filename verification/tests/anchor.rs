use lattice_bridge::anchor::{load_anchors, preprocess_owl_xml, BfoCategory};
use lattice_bridge::vocab::{self, local_name};
use lattice_bridge::BridgeError;

fn make_ontology_a() -> &'static str {
    r#"<?xml version="1.0" encoding="UTF-8"?>
<Ontology xmlns="http://www.w3.org/2002/07/owl#"
          xml:base="http://example.org/onto-a"
          ontologyIRI="http://example.org/onto-a">
  <Prefix name="owl" IRI="http://www.w3.org/2002/07/owl#"/>
  <Prefix name="rdf" IRI="http://www.w3.org/1999/02/22-rdf-syntax-ns#"/>
  <Prefix name="rdfs" IRI="http://www.w3.org/2000/01/rdf-schema#"/>
  <Prefix name="xsd" IRI="http://www.w3.org/2001/XMLSchema#"/>
  <Prefix name="obo" IRI="http://purl.obolibrary.org/obo/"/>

  <Declaration><Class IRI="http://example.org/onto-a#Person"/></Declaration>
  <Declaration><Class IRI="http://example.org/onto-a#Animal"/></Declaration>
  <Declaration><Class IRI="http://example.org/onto-a#Fever"/></Declaration>
  <Declaration><Class IRI="http://example.org/onto-a#HeatingProcess"/></Declaration>

  <SubClassOf>
    <Class IRI="http://example.org/onto-a#Person"/>
    <Class IRI="http://purl.obolibrary.org/obo/BFO_0000030"/>
  </SubClassOf>
  <SubClassOf>
    <Class IRI="http://example.org/onto-a#Animal"/>
    <Class IRI="http://purl.obolibrary.org/obo/BFO_0000030"/>
  </SubClassOf>
  <SubClassOf>
    <Class IRI="http://example.org/onto-a#Fever"/>
    <Class IRI="http://purl.obolibrary.org/obo/BFO_0000019"/>
  </SubClassOf>
  <SubClassOf>
    <Class IRI="http://example.org/onto-a#HeatingProcess"/>
    <Class IRI="http://purl.obolibrary.org/obo/BFO_0000015"/>
  </SubClassOf>

  <AnnotationAssertion>
    <AnnotationProperty IRI="http://www.w3.org/2000/01/rdf-schema#label"/>
    <IRI>http://example.org/onto-a#Person</IRI>
    <Literal>Person</Literal>
  </AnnotationAssertion>
  <AnnotationAssertion>
    <AnnotationProperty IRI="http://www.w3.org/2000/01/rdf-schema#label"/>
    <IRI>http://example.org/onto-a#Animal</IRI>
    <Literal>Animal</Literal>
  </AnnotationAssertion>
  <AnnotationAssertion>
    <AnnotationProperty IRI="http://www.w3.org/2000/01/rdf-schema#label"/>
    <IRI>http://example.org/onto-a#Fever</IRI>
    <Literal>Fever</Literal>
  </AnnotationAssertion>
  <AnnotationAssertion>
    <AnnotationProperty IRI="http://www.w3.org/2000/01/rdf-schema#label"/>
    <IRI>http://example.org/onto-a#HeatingProcess</IRI>
    <Literal>Heating Process</Literal>
  </AnnotationAssertion>
</Ontology>"#
}

#[test]
fn ac4_version_iri_fixture_parses_without_error() {
    let xml = r#"<?xml version="1.0" encoding="UTF-8"?>
<Ontology xmlns="http://www.w3.org/2002/07/owl#"
          xml:base="http://example.org/versioned"
          ontologyIRI="http://example.org/versioned">
  <Prefix name="owl" IRI="http://www.w3.org/2002/07/owl#"/>
  <Prefix name="rdf" IRI="http://www.w3.org/1999/02/22-rdf-syntax-ns#"/>
  <Prefix name="rdfs" IRI="http://www.w3.org/2000/01/rdf-schema#"/>
  <Prefix name="obo" IRI="http://purl.obolibrary.org/obo/"/>
  <owl:versionIRI rdf:resource="http://example.org/v1"/>
  <Declaration><Class IRI="http://example.org/versioned#Widget"/></Declaration>
  <SubClassOf>
    <Class IRI="http://example.org/versioned#Widget"/>
    <Class IRI="http://purl.obolibrary.org/obo/BFO_0000030"/>
  </SubClassOf>
  <AnnotationAssertion>
    <AnnotationProperty IRI="http://www.w3.org/2000/01/rdf-schema#label"/>
    <IRI>http://example.org/versioned#Widget</IRI>
    <Literal>Widget</Literal>
  </AnnotationAssertion>
</Ontology>"#;

    let (anchors, meta) = load_anchors(xml).expect("load_anchors must not fail on versionIRI");

    assert_eq!(
        meta.version_iri.as_deref(),
        Some("http://example.org/v1"),
        "versionIRI must be extracted from the OWL header"
    );

    assert_eq!(anchors.len(), 1, "expected 1 class (Widget)");
    assert!(
        anchors[0].class_iri.ends_with("#Widget"),
        "Widget class must be present"
    );
}

#[test]
fn load_anchors_sorts_and_categorises_classes() {
    let (anchors, meta) = load_anchors(make_ontology_a()).unwrap();
    assert!(meta.version_iri.is_none());
    let iris: Vec<&str> = anchors.iter().map(|a| a.class_iri.as_str()).collect();
    assert_eq!(
        iris,
        vec![
            "http://example.org/onto-a#Animal",
            "http://example.org/onto-a#Fever",
            "http://example.org/onto-a#HeatingProcess",
            "http://example.org/onto-a#Person",
        ]
    );
    assert_eq!(anchors[0].category.as_str(), vocab::BFO_OBJECT);
    assert_eq!(anchors[1].category.as_str(), vocab::BFO_QUALITY);
    assert_eq!(anchors[2].category.as_str(), vocab::BFO_PROCESS);
    assert_eq!(anchors[3].category.as_str(), vocab::BFO_OBJECT);
    assert_eq!(anchors[2].labels, vec!["Heating Process".to_string()]);
    assert_eq!(anchors[3].parents, vec![vocab::BFO_OBJECT.to_string()]);
    assert!(anchors[3].definition.is_none());
}

const HIERARCHY: &str = r#"<?xml version="1.0" encoding="UTF-8"?>
<Ontology xmlns="http://www.w3.org/2002/07/owl#"
          xml:base="http://example.org/h"
          ontologyIRI="http://example.org/h">
  <Declaration><Class IRI="http://example.org/h#Heart"/></Declaration>
  <Declaration><Class IRI="http://example.org/h#Organ"/></Declaration>
  <Declaration><Class IRI="http://example.org/h#Loop1"/></Declaration>
  <Declaration><Class IRI="http://example.org/h#Loop2"/></Declaration>
  <Declaration><Class IRI="http://purl.obolibrary.org/obo/BFO_0000040"/></Declaration>
  <Declaration><Class IRI="http://www.w3.org/2002/07/owl#Thing"/></Declaration>
  <SubClassOf>
    <Class IRI="http://example.org/h#Heart"/>
    <Class IRI="http://example.org/h#Organ"/>
  </SubClassOf>
  <SubClassOf>
    <Class IRI="http://example.org/h#Organ"/>
    <Class IRI="http://purl.obolibrary.org/obo/BFO_0000040"/>
  </SubClassOf>
  <SubClassOf>
    <Class IRI="http://purl.obolibrary.org/obo/BFO_0000040"/>
    <Class IRI="http://purl.obolibrary.org/obo/BFO_0000004"/>
  </SubClassOf>
  <SubClassOf>
    <Class IRI="http://example.org/h#Loop1"/>
    <Class IRI="http://example.org/h#Loop2"/>
  </SubClassOf>
  <SubClassOf>
    <Class IRI="http://example.org/h#Loop2"/>
    <Class IRI="http://example.org/h#Loop1"/>
  </SubClassOf>
  <AnnotationAssertion>
    <AnnotationProperty IRI="http://www.geneontology.org/formats/oboInOwl#hasExactSynonym"/>
    <IRI>http://example.org/h#Heart</IRI>
    <Literal>cardiac organ</Literal>
  </AnnotationAssertion>
  <AnnotationAssertion>
    <AnnotationProperty IRI="http://purl.obolibrary.org/obo/IAO_0000115"/>
    <IRI>http://example.org/h#Heart</IRI>
    <Literal>A hollow muscular organ.</Literal>
  </AnnotationAssertion>
  <AnnotationAssertion>
    <AnnotationProperty IRI="http://www.w3.org/2000/01/rdf-schema#comment"/>
    <IRI>http://example.org/h#Heart</IRI>
    <Literal>not a label</Literal>
  </AnnotationAssertion>
</Ontology>"#;

#[test]
fn deepest_category_is_taken_through_the_hierarchy() {
    let (anchors, _) = load_anchors(HIERARCHY).unwrap();
    let iris: Vec<&str> = anchors.iter().map(|a| a.class_iri.as_str()).collect();
    // BFO's own classes and owl:Thing get no anchor.
    assert_eq!(
        iris,
        vec![
            "http://example.org/h#Heart",
            "http://example.org/h#Loop1",
            "http://example.org/h#Loop2",
            "http://example.org/h#Organ",
        ]
    );
    let heart = &anchors[0];
    // Material entity comes before independent continuant in rank order.
    assert_eq!(heart.category.as_str(), vocab::BFO_MATERIAL_ENTITY);
    assert_eq!(heart.category.label(), "BFO_0000040");
    assert_eq!(heart.labels, vec!["cardiac organ".to_string()]);
    assert_eq!(heart.definition.as_deref(), Some("A hollow muscular organ."));
    assert_eq!(heart.parents, vec!["http://example.org/h#Organ".to_string()]);
}

#[test]
fn cyclic_hierarchy_without_bfo_falls_back_to_owl_thing() {
    let (anchors, _) = load_anchors(HIERARCHY).unwrap();
    let loop1 = &anchors[1];
    assert_eq!(loop1.category.as_str(), vocab::OWL_THING);
    // Without annotations the local name is the label.
    assert_eq!(loop1.labels, vec!["Loop1".to_string()]);
    assert_eq!(loop1.parents, vec!["http://example.org/h#Loop2".to_string()]);
}

#[test]
fn unparseable_ontology_is_an_owl_parse_error() {
    let res = load_anchors("<Ontology xmlns=\"http://www.w3.org/2002/07/owl#\">");
    assert!(matches!(res, Err(BridgeError::OwlParse(_))));
    let res = load_anchors("this is not xml at all");
    assert!(matches!(res, Err(BridgeError::OwlParse(_))));
}

#[test]
fn preprocess_strips_self_closing_version_iri() {
    let (cleaned, meta) =
        preprocess_owl_xml("<a><owl:versionIRI rdf:resource=\"http://ex.org/v2\"/><b/></a>");
    assert_eq!(cleaned, "<a><b/></a>");
    assert_eq!(meta.version_iri.as_deref(), Some("http://ex.org/v2"));
}

#[test]
fn preprocess_strips_paired_version_iri_with_single_quotes() {
    let (cleaned, meta) = preprocess_owl_xml(
        "<a><owl:versionIRI rdf:resource='http://ex.org/v3'></owl:versionIRI>x</a>",
    );
    assert_eq!(cleaned, "<a>x</a>");
    assert_eq!(meta.version_iri.as_deref(), Some("http://ex.org/v3"));
}

#[test]
fn preprocess_strips_paired_version_iri_up_to_its_closing_tag() {
    let (cleaned, meta) = preprocess_owl_xml(
        r#"<O><owl:versionIRI rdf:resource="http://x/v2"></owl:versionIRI><C/></O>"#,
    );
    assert_eq!(cleaned, "<O><C/></O>");
    assert_eq!(meta.version_iri.as_deref(), Some("http://x/v2"));
}

#[test]
fn preprocess_strips_elements_whose_attributes_hold_gt() {
    let (cleaned, meta) = preprocess_owl_xml(
        r#"<O><owl:versionIRI a=">" rdf:resource="http://x/v3"/><owl:versionInfo b='>'/><C/></O>"#,
    );
    assert_eq!(cleaned, "<O><C/></O>");
    assert_eq!(meta.version_iri.as_deref(), Some("http://x/v3"));
}

#[test]
fn preprocess_keeps_first_version_iri_and_strips_all() {
    let (cleaned, meta) = preprocess_owl_xml(
        "<owl:versionIRI rdf:resource=\"first\"/>-<owl:versionIRI rdf:resource=\"second\"/>",
    );
    assert_eq!(cleaned, "-");
    assert_eq!(meta.version_iri.as_deref(), Some("first"));
}

#[test]
fn preprocess_version_iri_without_resource() {
    let (cleaned, meta) = preprocess_owl_xml("<x><owl:versionIRI/></x>");
    assert_eq!(cleaned, "<x></x>");
    assert!(meta.version_iri.is_none());
    let (_, meta) = preprocess_owl_xml("<owl:versionIRI rdf:resource=http://unquoted/>");
    assert!(meta.version_iri.is_none());
}

#[test]
fn preprocess_strips_version_info() {
    let (cleaned, meta) = preprocess_owl_xml(
        "<O><owl:versionInfo>2026-03-30</owl:versionInfo><owl:versionInfo x=\"1\"/><C/></O>",
    );
    assert_eq!(cleaned, "<O><C/></O>");
    assert!(meta.version_iri.is_none());
}

#[test]
fn preprocess_leaves_malformed_elements() {
    let (cleaned, meta) = preprocess_owl_xml("<O><owl:versionIRI rdf:resource=\"v\"");
    assert_eq!(cleaned, "<O><owl:versionIRI rdf:resource=\"v\"");
    assert!(meta.version_iri.is_none());
    let (cleaned, _) = preprocess_owl_xml("<O><owl:versionInfo>open");
    assert_eq!(cleaned, "<O><owl:versionInfo>open");
}

#[test]
fn preprocess_without_version_elements_is_identity() {
    let xml = make_ontology_a();
    let (cleaned, meta) = preprocess_owl_xml(xml);
    assert_eq!(cleaned, xml);
    assert!(meta.version_iri.is_none());
}

#[test]
fn preprocess_removes_every_version_element_and_is_then_unchanged() {
    let xml = "<Ontology>\n  <owl:versionIRI rdf:resource=\"http://x/v1\"/>\n  <owl:versionInfo>2026-03-30</owl:versionInfo>\n  <owl:versionIRI rdf:resource=\"http://x/v2\"></owl:versionIRI>\n  <owl:versionInfo xml:lang=\"en\"/>\n  <Declaration/>\n</Ontology>\n";
    let (cleaned, meta) = preprocess_owl_xml(xml);
    assert_eq!(cleaned, "<Ontology>\n  \n  \n  \n  \n  <Declaration/>\n</Ontology>\n");
    assert_eq!(meta.version_iri.as_deref(), Some("http://x/v1"));
    assert!(!cleaned.contains("<owl:versionIRI") && !cleaned.contains("<owl:versionInfo"));
    let (again, meta2) = preprocess_owl_xml(&cleaned);
    assert_eq!(again, cleaned);
    assert!(meta2.version_iri.is_none());
}

#[test]
fn preprocess_never_lengthens() {
    for xml in [
        "<owl:versionIRI rdf:resource=\"a\"/>",
        "<owl:versionInfo>1</owl:versionInfo>",
        "plain",
        "",
    ] {
        let (cleaned, _) = preprocess_owl_xml(xml);
        assert!(cleaned.chars().count() <= xml.chars().count());
    }
}

#[test]
fn local_name_takes_last_segment() {
    assert_eq!(local_name("http://example.org/onto-a#Person"), "Person");
    assert_eq!(local_name("http://purl.obolibrary.org/obo/BFO_0000030"), "BFO_0000030");
    assert_eq!(local_name("no-separator"), "no-separator");
    assert_eq!(local_name("ends/"), "");
    assert_eq!(local_name(""), "");
}

#[test]
fn bfo_category_accessors() {
    let c = BfoCategory(vocab::BFO_PROCESS.to_string());
    assert_eq!(c.as_str(), "http://purl.obolibrary.org/obo/BFO_0000015");
    assert_eq!(c.label(), "BFO_0000015");
}
