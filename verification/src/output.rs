//! Output text: the OWL/XML bridge document of the accepted mappings, and
//! the column helper of the proposals listing. Writing to files, JSON and the
//! formatting of scores happen outside the verified part.

use vstd::prelude::*;
use vstd::string::StringSliceAdditionalSpecFns;
use vstd::utf8::is_char_boundary;

use crate::matcher::MappingKind;

verus! {

/// What the bridge document states of one mapping.
pub struct BridgeAxiom {
    pub kind: MappingKind,
    /// Whether the mapping cleared the confidence threshold.
    pub accepted: bool,
    /// The confidence, already written with four decimals.
    pub confidence: String,
    pub bfo_category: String,
    pub a_iri: String,
    pub b_iri: String,
}

pub const HEADER_START: &'static str = "<?xml version=\"1.0\" encoding=\"UTF-8\"?>\n<!DOCTYPE Ontology []>\n<Ontology\n    xmlns=\"http://www.w3.org/2002/07/owl#\"\n    xml:base=\"";

pub const HEADER_MIDDLE: &'static str = "\"\n    ontologyIRI=\"";

pub const HEADER_END: &'static str = "\">\n  <Prefix name=\"owl\" IRI=\"http://www.w3.org/2002/07/owl#\"/>\n  <Prefix name=\"rdf\" IRI=\"http://www.w3.org/1999/02/22-rdf-syntax-ns#\"/>\n  <Prefix name=\"rdfs\" IRI=\"http://www.w3.org/2000/01/rdf-schema#\"/>\n  <Prefix name=\"xsd\" IRI=\"http://www.w3.org/2001/XMLSchema#\"/>\n";

pub const COMMENT_START: &'static str = "  <!-- confidence=";

pub const COMMENT_CATEGORY: &'static str = " bfo_category=";

pub const COMMENT_END: &'static str = " -->\n";

pub const EQUIVALENT_OPEN: &'static str = "  <EquivalentClasses>\n";

pub const EQUIVALENT_CLOSE: &'static str = "  </EquivalentClasses>\n";

pub const SUBCLASS_OPEN: &'static str = "  <SubClassOf>\n";

pub const SUBCLASS_CLOSE: &'static str = "  </SubClassOf>\n";

pub const CLASS_START: &'static str = "    <Class IRI=\"";

pub const CLASS_END: &'static str = "\"/>\n";

pub const FOOTER: &'static str = "</Ontology>\n";

/// The document header, for the bridge ontology IRI `onto`.
pub open spec fn owl_header(onto: Seq<char>) -> Seq<char> {
    HEADER_START@ + onto + HEADER_MIDDLE@ + onto + HEADER_END@
}

/// The axiom that states one mapping, after a comment with its confidence
/// and category: `EquivalentClasses(a, b)` or `SubClassOf(a, b)`.
pub open spec fn axiom_text(ax: BridgeAxiom) -> Seq<char> {
    let (open, close) = match ax.kind {
        MappingKind::Equivalent => (EQUIVALENT_OPEN@, EQUIVALENT_CLOSE@),
        MappingKind::SubClassOf => (SUBCLASS_OPEN@, SUBCLASS_CLOSE@),
    };
    COMMENT_START@ + ax.confidence@ + COMMENT_CATEGORY@ + ax.bfo_category@ + COMMENT_END@ + open
        + CLASS_START@ + ax.a_iri@ + CLASS_END@ + CLASS_START@ + ax.b_iri@ + CLASS_END@ + close
}

/// The axioms of the accepted mappings, in order.
pub open spec fn accepted_axioms_text(axs: Seq<BridgeAxiom>) -> Seq<char>
    decreases axs.len(),
{
    if axs.len() == 0 {
        seq![]
    } else if axs.last().accepted {
        accepted_axioms_text(axs.drop_last()) + axiom_text(axs.last())
    } else {
        accepted_axioms_text(axs.drop_last())
    }
}

/// The bridge document: header, the accepted axioms, footer.
pub open spec fn bridge_document(axs: Seq<BridgeAxiom>, onto: Seq<char>) -> Seq<char> {
    owl_header(onto) + accepted_axioms_text(axs) + FOOTER@
}

fn push_axiom(out: &mut String, ax: &BridgeAxiom)
    ensures
        final(out)@ == old(out)@ + axiom_text(*ax),
{
    let (open, close) = match ax.kind {
        MappingKind::Equivalent => (EQUIVALENT_OPEN, EQUIVALENT_CLOSE),
        MappingKind::SubClassOf => (SUBCLASS_OPEN, SUBCLASS_CLOSE),
    };
    out.append(COMMENT_START);
    out.append(ax.confidence.as_str());
    out.append(COMMENT_CATEGORY);
    out.append(ax.bfo_category.as_str());
    out.append(COMMENT_END);
    out.append(open);
    out.append(CLASS_START);
    out.append(ax.a_iri.as_str());
    out.append(CLASS_END);
    out.append(CLASS_START);
    out.append(ax.b_iri.as_str());
    out.append(CLASS_END);
    out.append(close);
    assert(out@ =~= old(out)@ + axiom_text(*ax));
}

/// The OWL/XML bridge document of the mappings: `EquivalentClasses` axioms
/// for equivalences and `SubClassOf` axioms for subclass mappings. Only
/// accepted mappings are included.
pub fn bridge_owl_document(axioms: &Vec<BridgeAxiom>, onto_iri: &str) -> (res: String)
    ensures
        res@ == bridge_document(axioms@, onto_iri@),
{
    let mut out = String::new();
    out.append(HEADER_START);
    out.append(onto_iri);
    out.append(HEADER_MIDDLE);
    out.append(onto_iri);
    out.append(HEADER_END);
    let ghost header = out@;
    assert(header =~= owl_header(onto_iri@));
    let mut i: usize = 0;
    assert(axioms@.take(0) =~= Seq::<BridgeAxiom>::empty());
    while i < axioms.len()
        invariant
            i <= axioms.len(),
            out@ == header + accepted_axioms_text(axioms@.take(i as int)),
        decreases axioms.len() - i,
    {
        assert(axioms@.take(i + 1).drop_last() =~= axioms@.take(i as int));
        assert(axioms@.take(i + 1).last() == axioms@[i as int]);
        if axioms[i].accepted {
            push_axiom(&mut out, &axioms[i]);
            assert(out@ =~= header + accepted_axioms_text(axioms@.take(i + 1)));
        }
        i = i + 1;
    }
    assert(axioms@.take(axioms.len() as int) =~= axioms@);
    out.append(FOOTER);
    assert(out@ =~= bridge_document(axioms@, onto_iri@));
    out
}

/// The bridge document holds one axiom for every accepted mapping, in
/// order: without mappings it is the header and the footer; appending an
/// accepted mapping puts its axiom just before the footer and keeps all that
/// came before; appending a rejected mapping changes nothing.
pub proof fn law_bridge_document_appends(axs: Seq<BridgeAxiom>, m: BridgeAxiom, onto: Seq<char>)
    ensures
        bridge_document(Seq::empty(), onto) == owl_header(onto) + FOOTER@,
        m.accepted ==> bridge_document(axs.push(m), onto) == bridge_document(axs, onto).subrange(
            0,
            bridge_document(axs, onto).len() - FOOTER@.len(),
        ) + axiom_text(m) + FOOTER@,
        !m.accepted ==> bridge_document(axs.push(m), onto) == bridge_document(axs, onto),
{
    let e = Seq::<BridgeAxiom>::empty();
    assert(accepted_axioms_text(e) == Seq::<char>::empty());
    assert(owl_header(onto) + accepted_axioms_text(e) + FOOTER@ =~= owl_header(onto) + FOOTER@);
    assert(axs.push(m).drop_last() =~= axs);
    assert(axs.push(m).last() == m);
    let d = bridge_document(axs, onto);
    let prefix = owl_header(onto) + accepted_axioms_text(axs);
    assert(d.subrange(0, d.len() - FOOTER@.len()) =~= prefix);
    if m.accepted {
        assert(bridge_document(axs.push(m), onto) =~= prefix + axiom_text(m) + FOOTER@);
    }
}

/// Rejected mappings leave no trace in the bridge document: it is the
/// document of the accepted mappings alone.
pub proof fn lemma_rejected_mappings_omitted(axs: Seq<BridgeAxiom>, onto: Seq<char>)
    ensures
        bridge_document(axs, onto) == bridge_document(
            axs.filter(|ax: BridgeAxiom| ax.accepted),
            onto,
        ),
    decreases axs.len(),
{
    lemma_accepted_text_filter(axs);
}

proof fn lemma_accepted_text_filter(axs: Seq<BridgeAxiom>)
    ensures
        accepted_axioms_text(axs) == accepted_axioms_text(axs.filter(|ax: BridgeAxiom| ax.accepted)),
    decreases axs.len(),
{
    let pred = |ax: BridgeAxiom| ax.accepted;
    reveal_with_fuel(Seq::<BridgeAxiom>::filter, 1);
    if axs.len() > 0 {
        lemma_accepted_text_filter(axs.drop_last());
        let f = axs.filter(pred);
        assert(f == if pred(axs.last()) {
            axs.drop_last().filter(pred).push(axs.last())
        } else {
            axs.drop_last().filter(pred)
        });
        if axs.last().accepted {
            assert(f.drop_last() =~= axs.drop_last().filter(pred));
            assert(f.last() == axs.last());
        }
    }
}

/// Cut `s` to at most `max` bytes.
pub fn truncate(s: &str, max: usize) -> (res: &str)
    requires
        s.spec_bytes().len() <= max || is_char_boundary(s.spec_bytes(), max as int),
    ensures
        s.spec_bytes().len() <= max ==> res@ == s@,
        s.spec_bytes().len() > max ==> res.spec_bytes() == s.spec_bytes().subrange(0, max as int),
{
    if s.as_bytes().len() <= max {
        s
    } else {
        s.split_at(max).0
    }
}

} // verus!
