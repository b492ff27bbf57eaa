//! IRI constants for BFO, OWL, RDF and the annotation properties read for
//! labels, and the local-name helper.

use vstd::prelude::*;

use crate::text::chars_of;

verus! {

pub const BFO: &'static str = "http://purl.obolibrary.org/obo/BFO_";
pub const OWL_THING: &'static str = "http://www.w3.org/2002/07/owl#Thing";
pub const RDF_TYPE: &'static str = "http://www.w3.org/1999/02/22-rdf-syntax-ns#type";
pub const RDFS_SUBCLASS: &'static str = "http://www.w3.org/2000/01/rdf-schema#subClassOf";
pub const OWL_EQUIV: &'static str = "http://www.w3.org/2002/07/owl#equivalentClass";

/// Annotation properties used to extract labels for lexical matching.
pub const RDFS_LABEL: &'static str = "http://www.w3.org/2000/01/rdf-schema#label";
pub const OBO_EXACT_SYNONYM: &'static str = "http://www.geneontology.org/formats/oboInOwl#hasExactSynonym";
pub const OBO_BROAD_SYNONYM: &'static str = "http://www.geneontology.org/formats/oboInOwl#hasBroadSynonym";
pub const OBO_NARROW_SYNONYM: &'static str = "http://www.geneontology.org/formats/oboInOwl#hasNarrowSynonym";
pub const OBO_DEFINITION: &'static str = "http://purl.obolibrary.org/obo/IAO_0000115";

/// Well-known BFO 2.0 upper-category IRIs (the seven primary universals we anchor to).
pub const BFO_ENTITY: &'static str = "http://purl.obolibrary.org/obo/BFO_0000001";
pub const BFO_CONTINUANT: &'static str = "http://purl.obolibrary.org/obo/BFO_0000002";
pub const BFO_OCCURRENT: &'static str = "http://purl.obolibrary.org/obo/BFO_0000003";
pub const BFO_INDEPENDENT_CONTINUANT: &'static str = "http://purl.obolibrary.org/obo/BFO_0000004";
pub const BFO_SPECIFICALLY_DEPENDENT: &'static str = "http://purl.obolibrary.org/obo/BFO_0000020";
pub const BFO_GENERICALLY_DEPENDENT: &'static str = "http://purl.obolibrary.org/obo/BFO_0000031";
pub const BFO_MATERIAL_ENTITY: &'static str = "http://purl.obolibrary.org/obo/BFO_0000040";
pub const BFO_PROCESS: &'static str = "http://purl.obolibrary.org/obo/BFO_0000015";
pub const BFO_QUALITY: &'static str = "http://purl.obolibrary.org/obo/BFO_0000019";
pub const BFO_DISPOSITION: &'static str = "http://purl.obolibrary.org/obo/BFO_0000016";
pub const BFO_ROLE: &'static str = "http://purl.obolibrary.org/obo/BFO_0000023";
pub const BFO_FUNCTION: &'static str = "http://purl.obolibrary.org/obo/BFO_0000034";
pub const BFO_OBJECT: &'static str = "http://purl.obolibrary.org/obo/BFO_0000030";
pub const BFO_OBJECT_AGGREGATE: &'static str = "http://purl.obolibrary.org/obo/BFO_0000027";
pub const BFO_SITE: &'static str = "http://purl.obolibrary.org/obo/BFO_0000029";

/// `c` separates the local name of an IRI from the rest.
pub open spec fn is_iri_separator(c: char) -> bool {
    c == '/' || c == '#'
}

/// The position of the last separator among the first `n` characters of
/// `s`, or -1 when there is none.
pub open spec fn last_separator(s: Seq<char>, n: int) -> int
    decreases n,
{
    if n <= 0 {
        -1
    } else if is_iri_separator(s[n - 1]) {
        n - 1
    } else {
        last_separator(s, n - 1)
    }
}

/// The local name of an IRI: what follows its last `/` or `#`, or the whole
/// IRI when it holds neither.
pub open spec fn local_name_of(iri: Seq<char>) -> Seq<char> {
    iri.subrange(last_separator(iri, iri.len() as int) + 1, iri.len() as int)
}

/// The last separator lies before `n` and nothing after it up to `n` is one.
proof fn lemma_last_separator(s: Seq<char>, n: int)
    requires
        0 <= n <= s.len(),
    ensures
        -1 <= last_separator(s, n) < n,
        forall|j: int| last_separator(s, n) < j < n ==> !is_iri_separator(#[trigger] s[j]),
    decreases n,
{
    if n > 0 && !is_iri_separator(s[n - 1]) {
        lemma_last_separator(s, n - 1);
    }
}

/// Return the local fragment of an IRI (after the last `/` or `#`).
pub fn local_name(iri: &str) -> (res: &str)
    ensures
        res@ == local_name_of(iri@),
        res@.is_suffix_of(iri@),
        forall|j: int| 0 <= j < res@.len() ==> !is_iri_separator(#[trigger] res@[j]),
{
    proof {
        lemma_last_separator(iri@, iri@.len() as int);
        let r = local_name_of(iri@);
        let start = last_separator(iri@, iri@.len() as int) + 1;
        assert(r =~= iri@.subrange(iri@.len() - r.len(), iri@.len() as int));
        assert forall|j: int| 0 <= j < r.len() implies !is_iri_separator(#[trigger] r[j]) by {
            assert(r[j] == iri@[start + j]);
        }
    }
    let cs = chars_of(iri);
    let n = cs.len();
    let mut i = n;
    while i > 0 && cs[i - 1] != '/' && cs[i - 1] != '#'
        invariant
            i <= n == cs@.len(),
            cs@ == iri@,
            last_separator(cs@, n as int) == last_separator(cs@, i as int),
        decreases i,
    {
        i = i - 1;
    }
    iri.substring_char(i, n)
}

} // verus!
