//! The OWL/XML parser's view of an ontology, reduced to what the anchor
//! step reads: class declarations, named `SubClassOf` pairs and annotation
//! assertions. The parsing itself is done by horned-owl.

use vstd::multiset::Multiset;
use vstd::prelude::*;

use horned_owl::error::HornedError;
use horned_owl::io::ParserConfiguration;
use horned_owl::model::{
    AnnotationSubject, AnnotationValue, ClassExpression, Component,
};
use horned_owl::ontology::set::SetOntology;

use crate::markup::{owx_reader_safe, reader_safe};
use crate::text::chars_of;

verus! {

/// One component of a parsed ontology, as plain values.
pub enum OwlComponent {
    /// `Declaration(Class(iri))`.
    DeclareClass(String),
    /// `SubClassOf(sub, sup)`; each side is `Some` when it is a named class.
    SubClassOf { sub: Option<String>, sup: Option<String> },
    /// `AnnotationAssertion(property, subject, value)`; the subject is `Some`
    /// when it is an IRI, the value when it is a literal or an IRI.
    AnnotationAssertion { subject: Option<String>, property: String, value: Option<String> },
    /// Any other component.
    Other,
}

/// The character view of an `OwlComponent`.
pub enum OwlComponentView {
    DeclareClass(Seq<char>),
    SubClassOf(Option<Seq<char>>, Option<Seq<char>>),
    AnnotationAssertion(Option<Seq<char>>, Seq<char>, Option<Seq<char>>),
    Other,
}

pub open spec fn opt_view(o: Option<String>) -> Option<Seq<char>> {
    match o {
        Some(s) => Some(s@),
        None => None,
    }
}

impl View for OwlComponent {
    type V = OwlComponentView;

    open spec fn view(&self) -> OwlComponentView {
        match self {
            OwlComponent::DeclareClass(iri) => OwlComponentView::DeclareClass(iri@),
            OwlComponent::SubClassOf { sub, sup } => OwlComponentView::SubClassOf(
                opt_view(*sub),
                opt_view(*sup),
            ),
            OwlComponent::AnnotationAssertion { subject, property, value } => {
                OwlComponentView::AnnotationAssertion(opt_view(*subject), property@, opt_view(*value))
            },
            OwlComponent::Other => OwlComponentView::Other,
        }
    }
}

/// The views of a sequence of components.
pub open spec fn component_views(cs: Seq<OwlComponent>) -> Seq<OwlComponentView> {
    cs.map_values(|c: OwlComponent| c@)
}

/// An ontology read by horned-owl, held as its `SetOntology`: a hash set of
/// the annotated components, with `String` IRIs. Its contents are reached
/// only through `ontology_contents` and `ontology_components`.
#[verifier::external_body]
pub struct ParsedOntology {
    ont: SetOntology<String>,
}

/// The components of a parsed ontology, as plain values. A multiset: the
/// set hands them out in no fixed order.
pub uninterp spec fn ontology_contents(ont: ParsedOntology) -> Multiset<OwlComponentView>;

/// The components that horned-owl's OWL/XML reader builds from `xml`.
pub uninterp spec fn owx_components(xml: Seq<char>) -> Multiset<OwlComponentView>;

#[verifier::external_type_specification]
#[verifier::external_body]
#[verifier::reject_recursive_types(A)]
pub struct ExComponent<A>(Component<A>);

#[verifier::external_type_specification]
#[verifier::external_body]
#[verifier::reject_recursive_types(A)]
pub struct ExClassExpression<A>(ClassExpression<A>);

#[verifier::external_type_specification]
#[verifier::external_body]
#[verifier::reject_recursive_types(A)]
pub struct ExAnnotationSubject<A>(AnnotationSubject<A>);

#[verifier::external_type_specification]
#[verifier::external_body]
#[verifier::reject_recursive_types(A)]
pub struct ExAnnotationValue<A>(AnnotationValue<A>);

/// Whether horned-owl's OWL/XML reader accepts the document `xml`.
pub uninterp spec fn owx_parses(xml: Seq<char>) -> bool;

/// The message (the `Display` of the `HornedError`) with which horned-owl's
/// OWL/XML reader refuses the document `xml`.
pub uninterp spec fn owx_error(xml: Seq<char>) -> Seq<char>;

/// Reads an OWL/XML document with horned-owl's `io::owx::reader::read` into
/// a `SetOntology`, or gives the message of its error. Trusted: the reader
/// succeeds exactly on the documents that `owx_parses` names, the
/// components it builds are those that `owx_components` names, and its
/// error message is the one that `owx_error` names; all depend on the text
/// alone. The document must pass the markup scan (`owx_reader_safe`): the
/// reader gathers a `Literal` element's text until an end tag named
/// `Literal` and never returns when none comes. The reader descends one
/// call per level of element nesting; like every recursive call, that
/// rests on the stack being large enough, which no contract here states.
#[verifier::external_body]
fn read_owx(xml: &str) -> (res: Result<ParsedOntology, String>)
    requires
        owx_reader_safe(xml@),
    ensures
        res is Ok <==> owx_parses(xml@),
        res matches Ok(ont) ==> ontology_contents(ont) == owx_components(xml@),
        res matches Err(msg) ==> msg@ == owx_error(xml@),
{
    let mut reader = std::io::BufReader::new(xml.as_bytes());
    let read: Result<(SetOntology<String>, _), HornedError> =
        horned_owl::io::owx::reader::read(&mut reader, ParserConfiguration::default());
    match read {
        Ok((ont, _prefixes)) => Ok(ParsedOntology { ont }),
        Err(e) => Err(e.to_string()),
    }
}

/// The components of the ontology, through `SetOntology::iter`, each in
/// its plain form. Trusted: they are the ontology's contents, each once as
/// often as it is held. The set is walked in hash order, which differs from
/// run to run: nothing is said of the order.
#[verifier::external_body]
fn ontology_components(ont: &ParsedOntology) -> (res: Vec<OwlComponent>)
    ensures
        component_views(res@).to_multiset() == ontology_contents(*ont),
{
    ont.ont.iter().map(|ac| component_view(&ac.component)).collect()
}

/// The named class of a class expression (the IRI of `ClassExpression::Class`),
/// `None` for any other expression. Nothing is said of the result.
#[verifier::external_body]
fn named_class_iri(ce: &ClassExpression<String>) -> Option<String> {
    match ce {
        ClassExpression::Class(c) => Some(String::from(&c.0)),
        _ => None,
    }
}

/// The IRI of an annotation subject, `None` for an anonymous individual.
/// Nothing is said of the result.
#[verifier::external_body]
fn annotation_subject_iri(subject: &AnnotationSubject<String>) -> Option<String> {
    match subject {
        AnnotationSubject::IRI(iri) => Some(iri.to_string()),
        _ => None,
    }
}

/// The text of an annotation value: a literal's lexical form or an IRI,
/// `None` for an anonymous individual. Nothing is said of the result.
#[verifier::external_body]
fn annotation_value_text(value: &AnnotationValue<String>) -> Option<String> {
    match value {
        AnnotationValue::Literal(lit) => Some(lit.literal().to_string()),
        AnnotationValue::IRI(iri) => Some(iri.to_string()),
        AnnotationValue::AnonymousIndividual(_) => None,
    }
}

/// The plain form of a horned-owl component, one variant for each variant
/// that the anchor step reads. Nothing is said of the result.
#[verifier::external_body]
fn component_view(c: &Component<String>) -> OwlComponent {
    match c {
        Component::DeclareClass(dc) => OwlComponent::DeclareClass(String::from(&dc.0.0)),
        Component::SubClassOf(sc) => OwlComponent::SubClassOf {
            sub: named_class_iri(&sc.sub),
            sup: named_class_iri(&sc.sup),
        },
        Component::AnnotationAssertion(aa) => OwlComponent::AnnotationAssertion {
            subject: annotation_subject_iri(&aa.subject),
            property: String::from(&aa.ann.ap.0),
            value: annotation_value_text(&aa.ann.av),
        },
        _ => OwlComponent::Other,
    }
}

/// The message given for a document on which the reader would not return.
pub const REFUSED_MARKUP: &'static str = "OWL/XML not read: a Literal element is never followed by an end tag named Literal";

/// Parses an OWL/XML document into its components, in the order in which
/// horned-owl's `SetOntology` hands them out. A document on which the reader
/// would never return (see `markup`) is not parsed and gives
/// `REFUSED_MARKUP`; otherwise `Err` carries the parser's message.
pub fn parse_owx_components(xml: &str) -> (res: Result<Vec<OwlComponent>, String>)
    ensures
        res is Ok <==> owx_reader_safe(xml@) && owx_parses(xml@),
        res matches Ok(cs) ==> component_views(cs@).to_multiset() == owx_components(xml@),
        res matches Err(msg) ==> msg@ == if owx_reader_safe(xml@) {
            owx_error(xml@)
        } else {
            REFUSED_MARKUP@
        },
{
    let chars = chars_of(xml);
    if !reader_safe(&chars) {
        return Err(REFUSED_MARKUP.to_owned());
    }
    let ont = match read_owx(xml) {
        Ok(o) => o,
        Err(msg) => return Err(msg),
    };
    Ok(ontology_components(&ont))
}

} // verus!
