use lattice_bridge::anchor::load_anchors;
use lattice_bridge::markup::reader_safe;
use lattice_bridge::owl::{parse_owx_components, REFUSED_MARKUP};
use lattice_bridge::BridgeError;

fn chars(s: &str) -> Vec<char> {
    s.chars().collect()
}

fn ontology(body: &str) -> String {
    format!(
        "<Ontology xmlns=\"http://www.w3.org/2002/07/owl#\" ontologyIRI=\"http://x/o\">\n{body}\n</Ontology>"
    )
}

fn nested_complements(n: usize) -> String {
    let mut ce = "<Class IRI=\"http://x/B\"/>".to_string();
    for _ in 0..n {
        ce = format!("<ObjectComplementOf>{ce}</ObjectComplementOf>");
    }
    ontology(&format!("<SubClassOf><Class IRI=\"http://x/A\"/>{ce}</SubClassOf>"))
}

const LABEL_OPEN: &str = "<AnnotationAssertion><AnnotationProperty IRI=\"http://www.w3.org/2000/01/rdf-schema#label\"/><IRI>http://x/A</IRI>";

#[test]
fn closed_literals_comments_and_declarations_are_read() {
    let xml = format!(
        "<?xml version=\"1.0\"?>\n<!DOCTYPE Ontology [ <!ENTITY x \"http://x/\" > ]>\n<!-- a comment -->\n{}",
        ontology(&format!(
            "<Declaration><Class IRI=\"http://x/A\"/></Declaration>{LABEL_OPEN}<Literal xml:lang=\"en\">A &amp; \"quoted\" > text</Literal></AnnotationAssertion>"
        ))
    );
    assert!(reader_safe(&chars(&xml)));
    let (anchors, _) = load_anchors(&xml).unwrap();
    assert_eq!(anchors.len(), 1);
    assert_eq!(anchors[0].labels, vec!["A & \"quoted\" > text".to_string()]);
}

#[test]
fn an_unclosed_literal_is_refused_before_parsing() {
    let xml = ontology(&format!("{LABEL_OPEN}<Literal>never closed"));
    let xml = xml.trim_end_matches("\n</Ontology>").to_string();
    assert!(!reader_safe(&chars(&xml)));
    assert_eq!(parse_owx_components(&xml).err(), Some(REFUSED_MARKUP.to_string()));
    assert!(matches!(load_anchors(&xml), Err(BridgeError::OwlParse(_))));
}

#[test]
fn a_literal_closed_after_nested_markup_is_read() {
    let xml = ontology(&format!("{LABEL_OPEN}<Literal>x<!-- note > here --><![CDATA[ a > b ]]></Literal></AnnotationAssertion>"));
    assert!(reader_safe(&chars(&xml)));
}

#[test]
fn an_end_tag_inside_a_comment_does_not_close_a_literal() {
    let xml = ontology(&format!("{LABEL_OPEN}<Literal>x<!-- </Literal> -->"));
    let xml = xml.trim_end_matches("\n</Ontology>").to_string();
    assert!(!reader_safe(&chars(&xml)));
    assert_eq!(parse_owx_components(&xml).err(), Some(REFUSED_MARKUP.to_string()));
}

#[test]
fn a_prefixed_literal_end_tag_closes_a_literal() {
    assert!(reader_safe(&chars("<o:Literal>x</o:Literal >")));
    assert!(!reader_safe(&chars("<o:Literal>x</o:Literals>")));
    // The local name follows the first colon: `a:b:Literal` is no literal.
    assert!(reader_safe(&chars("<a:b:Literal>x")));
    assert!(!reader_safe(&chars("<Literal>x</a:b:Literal>")));
}

#[test]
fn an_empty_literal_is_refused_without_a_later_end_tag() {
    let xml = ontology(&format!("{LABEL_OPEN}<Literal/></AnnotationAssertion>"));
    assert!(!reader_safe(&chars(&xml)));
    assert_eq!(parse_owx_components(&xml).err(), Some(REFUSED_MARKUP.to_string()));
}

#[test]
fn a_literal_datatype_iri_is_no_literal_element() {
    let xml = ontology(
        "<DatatypeDefinition><Datatype IRI=\"http://x/d\"/><Datatype abbreviatedIRI=\"rdfs:Literal\"/></DatatypeDefinition>",
    );
    assert!(reader_safe(&chars(&xml)));
}

#[test]
fn deep_nesting_is_read() {
    let xml = nested_complements(40);
    assert!(reader_safe(&chars(&xml)));
    assert!(parse_owx_components(&xml).is_ok());
}

#[test]
fn markup_the_xml_layer_rejects_ends_the_read() {
    // quick-xml reports an error on each of these, so the reader returns.
    assert!(reader_safe(&chars("<Literal>x<a attr=\"x>")));
    assert!(reader_safe(&chars("<Literal>x<!-- open")));
    assert!(reader_safe(&chars("<Literal>x<?pi")));
    assert!(reader_safe(&chars("<Literal>x<!x>")));
    assert!(reader_safe(&chars("<Literal>x<")));
    assert!(reader_safe(&chars("plain text")));
    assert!(reader_safe(&chars("")));
    assert!(!reader_safe(&chars("<Literal>x")));
}

#[test]
fn quoted_markup_characters_stay_inside_their_tag() {
    assert!(reader_safe(&chars("<a x='>' y=\"'\"><b/></a>")));
    assert!(!reader_safe(&chars("<Literal a='</Literal>'>")));
}

#[test]
fn comments_and_instructions_holding_gt_are_read() {
    let xml = format!(
        "<?pi a > b ?><!-- a -> b > c -->{}",
        ontology("<Declaration><Class IRI=\"http://x/A\"/></Declaration>")
    );
    assert!(reader_safe(&chars(&xml)));
    let (anchors, _) = load_anchors(&xml).unwrap();
    assert_eq!(anchors.len(), 1);
}
