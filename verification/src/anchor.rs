//! BFO-anchor step: for each class in an ontology, resolve its BFO upper
//! category. Only classes that share a category are mapping candidates.
//!
//! This file holds the types of the step and the OWL/XML header
//! preprocessing that runs before the parser sees the document.

use vstd::prelude::*;

use crate::text::{
    chars_of, cut, lemma_find_from_some, occurs_at, occurs_from, cut_range, find, find_from, lemma_find_from, slice_chars, string_of,
};
use crate::classes::{
    declared_classes, definition_in, extract_annotations, extract_parents, is_anchored_class,
    labels_in, lemma_strictly_sorted_no_duplicates, parents_in, parents_of, strictly_sorted,
    subclass_edges,
};
use crate::error::BridgeError;
use crate::hierarchy::{
    ancestors, bfo_categories, deepest_bfo, edge_views, first_satisfying, is_bfo_iri,
    lemma_first_satisfying_only, reachable, views,
};
use crate::markup::{find_tag_close, lemma_tag_close, owx_reader_safe, tag_close};
use crate::owl::{
    component_views, opt_view, owx_components, owx_error, owx_parses, parse_owx_components,
    REFUSED_MARKUP,
};
use crate::owl::{OwlComponent, OwlComponentView};
use crate::vocab::{
    local_name, local_name_of, BFO_CONTINUANT, BFO_DISPOSITION, BFO_ENTITY, BFO_FUNCTION,
    BFO_GENERICALLY_DEPENDENT, BFO_INDEPENDENT_CONTINUANT, BFO_MATERIAL_ENTITY, BFO_OBJECT,
    BFO_OBJECT_AGGREGATE, BFO_OCCURRENT, BFO_PROCESS, BFO_QUALITY, BFO_ROLE, BFO_SITE,
    BFO_SPECIFICALLY_DEPENDENT, OWL_THING,
};

verus! {

/// Opening of the `owl:versionIRI` header element.
pub const VERSION_IRI_OPEN: &'static str = "<owl:versionIRI";

/// Closing tag of a paired `owl:versionIRI` element.
pub const VERSION_IRI_CLOSE: &'static str = "</owl:versionIRI>";

/// The attribute that carries the version IRI.
pub const RDF_RESOURCE_KEY: &'static str = "rdf:resource=";

/// The qualified name of the `owl:versionInfo` header element.
pub const VERSION_INFO_TAG: &'static str = "owl:versionInfo";

/// The resolved BFO upper category for a class.
#[derive(Debug, Clone, PartialEq, Eq, Hash, PartialOrd, Ord)]
pub struct BfoCategory(pub String);

impl BfoCategory {
    pub fn as_str(&self) -> (res: &str)
        ensures
            res@ == self.0@,
    {
        self.0.as_str()
    }

    pub fn label(&self) -> (res: &str)
        ensures
            res@ == local_name_of(self.0@),
    {
        local_name(self.0.as_str())
    }
}

/// Per-class BFO anchor information.
#[derive(Debug, Clone)]
pub struct BfoAnchor {
    /// The class IRI.
    pub class_iri: String,
    /// The BFO upper category IRI this class falls under (or `owl:Thing` if unknown).
    pub category: BfoCategory,
    /// Labels extracted from annotation assertions (rdfs:label, synonyms).
    pub labels: Vec<String>,
    /// Definition text if present.
    pub definition: Option<String>,
    /// Direct superclass IRIs (named classes only, within this ontology).
    pub parents: Vec<String>,
}

/// The character view of a `BfoAnchor`.
pub struct BfoAnchorView {
    pub class_iri: Seq<char>,
    pub category: Seq<char>,
    pub labels: Seq<Seq<char>>,
    pub definition: Option<Seq<char>>,
    pub parents: Seq<Seq<char>>,
}

impl View for BfoAnchor {
    type V = BfoAnchorView;

    open spec fn view(&self) -> BfoAnchorView {
        BfoAnchorView {
            class_iri: self.class_iri@,
            category: self.category.0@,
            labels: views(self.labels@),
            definition: opt_view(self.definition),
            parents: views(self.parents@),
        }
    }
}

pub open spec fn anchor_views(anchors: Seq<BfoAnchor>) -> Seq<BfoAnchorView> {
    anchors.map_values(|a: BfoAnchor| a@)
}

/// The category of `c`: the most specific BFO category among its ancestors,
/// or `owl:Thing` when it has none.
pub open spec fn category_of(edges: Seq<(Seq<char>, Seq<char>)>, c: Seq<char>) -> Seq<char> {
    match first_satisfying(bfo_categories(), |k: Seq<char>| reachable(edges, c, k)) {
        Some(k) => k,
        None => OWL_THING@,
    }
}

/// Each of the fifteen named BFO categories is a ranked category: a class
/// whose upward walk reaches one of them and no other BFO IRI falls under
/// that category, never under `owl:Thing`.
pub proof fn law_named_categories_are_ranked(
    edges: Seq<(Seq<char>, Seq<char>)>,
    c: Seq<char>,
    k: Seq<char>,
)
    requires
        k == BFO_OBJECT@ || k == BFO_OBJECT_AGGREGATE@ || k == BFO_SITE@ || k == BFO_MATERIAL_ENTITY@
            || k == BFO_FUNCTION@ || k == BFO_ROLE@ || k == BFO_DISPOSITION@ || k == BFO_QUALITY@
            || k == BFO_PROCESS@ || k == BFO_INDEPENDENT_CONTINUANT@ || k
            == BFO_SPECIFICALLY_DEPENDENT@ || k == BFO_GENERICALLY_DEPENDENT@ || k
            == BFO_CONTINUANT@ || k == BFO_OCCURRENT@ || k == BFO_ENTITY@,
        reachable(edges, c, k),
        forall|k2: Seq<char>| is_bfo_iri(k2) && reachable(edges, c, k2) ==> k2 == k,
    ensures
        category_of(edges, c) == k,
{
    let list = bfo_categories();
    let holds = |q: Seq<char>| reachable(edges, c, q);
    assert(list[0] == BFO_OBJECT@);
    assert(list[1] == BFO_OBJECT_AGGREGATE@);
    assert(list[2] == BFO_SITE@);
    assert(list[3] == BFO_MATERIAL_ENTITY@);
    assert(list[4] == BFO_FUNCTION@);
    assert(list[5] == BFO_ROLE@);
    assert(list[6] == BFO_DISPOSITION@);
    assert(list[7] == BFO_QUALITY@);
    assert(list[8] == BFO_PROCESS@);
    assert(list[9] == BFO_INDEPENDENT_CONTINUANT@);
    assert(list[10] == BFO_SPECIFICALLY_DEPENDENT@);
    assert(list[11] == BFO_GENERICALLY_DEPENDENT@);
    assert(list[12] == BFO_CONTINUANT@);
    assert(list[13] == BFO_OCCURRENT@);
    assert(list[14] == BFO_ENTITY@);
    assert(list.contains(k));
    assert forall|i: int| 0 <= i < list.len() && holds(#[trigger] list[i]) implies list[i] == k by {
        assert(is_bfo_iri(list[i]));
    }
    lemma_first_satisfying_only(list, holds, k);
}

/// The anchor of class `c` in an ontology with components `cs`. A class
/// without labels is labelled by its local name.
pub open spec fn anchor_of(cs: Seq<OwlComponentView>, c: Seq<char>) -> BfoAnchorView {
    BfoAnchorView {
        class_iri: c,
        category: category_of(subclass_edges(cs), c),
        labels: if labels_in(cs, c).len() == 0 {
            seq![local_name_of(c)]
        } else {
            labels_in(cs, c)
        },
        definition: definition_in(cs, c),
        parents: parents_in(subclass_edges(cs), c),
    }
}

/// `anchors` are the anchors of the ontology with components `cs`: one for
/// each anchored class, ordered by IRI.
pub open spec fn anchors_of(cs: Seq<OwlComponentView>, anchors: Seq<BfoAnchorView>) -> bool {
    &&& strictly_sorted(anchors.map_values(|a: BfoAnchorView| a.class_iri))
    &&& forall|x: Seq<char>|
        anchors.map_values(|a: BfoAnchorView| a.class_iri).contains(x) <==> is_anchored_class(cs, x)
    &&& forall|i: int|
        0 <= i < anchors.len() ==> #[trigger] anchors[i] == anchor_of(cs, anchors[i].class_iri)
}

/// Metadata extracted from the OWL ontology header.
#[derive(Debug, Clone)]
pub struct OntologyMeta {
    /// The `owl:versionIRI` value from the OWL/XML `<owl:Ontology>` header, if present.
    pub version_iri: Option<String>,
}

impl View for OntologyMeta {
    type V = Option<Seq<char>>;

    open spec fn view(&self) -> Option<Seq<char>> {
        match self.version_iri {
            Some(v) => Some(v@),
            None => None,
        }
    }
}

impl Default for OntologyMeta {
    fn default() -> (res: Self)
        ensures
            res@ is None,
    {
        OntologyMeta { version_iri: None }
    }
}

/// The value of the `rdf:resource` attribute in a tag: the text between the
/// quote that follows the first `rdf:resource=` and the next equal quote.
pub open spec fn rdf_resource(tag: Seq<char>) -> Option<Seq<char>> {
    match find_from(tag, RDF_RESOURCE_KEY@, 0) {
        None => None,
        Some(pos) => {
            let rest = tag.subrange(pos + RDF_RESOURCE_KEY@.len(), tag.len() as int);
            if rest.len() == 0 || (rest[0] != '"' && rest[0] != '\'') {
                None
            } else {
                let inner = rest.drop_first();
                match find_from(inner, seq![rest[0]], 0) {
                    None => None,
                    Some(end) => Some(inner.take(end)),
                }
            }
        }
    }
}

/// Where the element that opens at `start` ends, when `close` is its
/// closing tag: a self-closing element just after its start tag, a paired
/// one after the first closing tag that follows; `None` when a paired
/// element is never closed (a malformed element).
pub open spec fn element_end(s: Seq<char>, start: int, close: Seq<char>) -> Option<int> {
    if self_closing_at(s, start) {
        Some(tag_close(s, start + 1, 0)->0 + 1)
    } else {
        match find_from(s, close, start) {
            Some(c) => Some(c + close.len()),
            None => None,
        }
    }
}

/// Where the `owl:versionIRI` element that opens at `start` ends.
pub open spec fn version_iri_element_end(s: Seq<char>, start: int) -> Option<int> {
    element_end(s, start, VERSION_IRI_CLOSE@)
}

/// Removes `owl:versionIRI` elements from `s`, searching from `from`, and
/// records in `found` the `rdf:resource` of the first removed element that
/// has one. A malformed element is left in place and the search goes on
/// after its opening.
pub open spec fn strip_version_iris(s: Seq<char>, from: int, found: Option<Seq<char>>) -> (
    Seq<char>,
    Option<Seq<char>>,
)
    decreases s.len(), s.len() - from,
{
    if from < 0 || from > s.len() {
        (s, found)
    } else {
        match find_from(s, VERSION_IRI_OPEN@, from) {
            None => (s, found),
            Some(start) => {
                proof {
                    lemma_find_from(s, VERSION_IRI_OPEN@, from);
                    reveal_strlit("</owl:versionIRI>");
                    lemma_element_end(s, start, VERSION_IRI_CLOSE@);
                    reveal_strlit("<owl:versionIRI");
                }
                match version_iri_element_end(s, start) {
                    Some(end) => {
                        let found2 = if found is None {
                            rdf_resource(s.subrange(start, end))
                        } else {
                            found
                        };
                        strip_version_iris(cut(s, start, end), from, found2)
                    },
                    None => strip_version_iris(s, start + VERSION_IRI_OPEN@.len(), found),
                }
            },
        }
    }
}

/// An element end lies after its start and within the text.
pub proof fn lemma_element_end(s: Seq<char>, start: int, close: Seq<char>)
    requires
        0 <= start,
        close.len() >= 1,
    ensures
        element_end(s, start, close) matches Some(end) ==> start < end <= s.len(),
{
    lemma_tag_close(s, start + 1, 0);
    lemma_find_from(s, close, start);
}

/// The opening of the element named `tag`.
pub open spec fn open_tag(tag: Seq<char>) -> Seq<char> {
    seq!['<'] + tag
}

/// The closing tag of the element named `tag`.
pub open spec fn close_tag(tag: Seq<char>) -> Seq<char> {
    seq!['<', '/'] + tag + seq!['>']
}

/// The element opening at `start` is self-closing: its start tag, which
/// ends at the first `>` outside quotes, ends with `/>`.
pub open spec fn self_closing_at(s: Seq<char>, start: int) -> bool {
    match tag_close(s, start + 1, 0) {
        Some(g) => s[g - 1] == '/',
        None => false,
    }
}

/// Removes the elements named `tag` from `s`, first to last, self-closing
/// ones up to the end of their start tag and paired ones up to the closing
/// tag. Stops at the first element that is neither (a malformed one), which
/// stays.
pub open spec fn strip_paired(s: Seq<char>, tag: Seq<char>) -> Seq<char>
    decreases s.len(),
{
    match find_from(s, open_tag(tag), 0) {
        None => s,
        Some(start) => {
            proof {
                lemma_find_from(s, open_tag(tag), 0);
                lemma_element_end(s, start, close_tag(tag));
            }
            match element_end(s, start, close_tag(tag)) {
                Some(end) => strip_paired(cut(s, start, end), tag),
                None => s,
            }
        },
    }
}

/// Stripping version IRIs never makes the text longer.
proof fn lemma_strip_version_iris_len(s: Seq<char>, from: int, found: Option<Seq<char>>)
    ensures
        strip_version_iris(s, from, found).0.len() <= s.len(),
    decreases s.len(), s.len() - from,
{
    if from < 0 || from > s.len() {
    } else {
        match find_from(s, VERSION_IRI_OPEN@, from) {
            None => {},
            Some(start) => {
                lemma_find_from(s, VERSION_IRI_OPEN@, from);
                reveal_strlit("</owl:versionIRI>");
                lemma_element_end(s, start, VERSION_IRI_CLOSE@);
                reveal_strlit("<owl:versionIRI");
                match version_iri_element_end(s, start) {
                    Some(end) => {
                        let found2 = if found is None {
                            rdf_resource(s.subrange(start, end))
                        } else {
                            found
                        };
                        lemma_strip_version_iris_len(cut(s, start, end), from, found2);
                    },
                    None => {
                        lemma_strip_version_iris_len(s, start + VERSION_IRI_OPEN@.len(), found);
                    },
                }
            },
        }
    }
}

/// Stripping paired elements never makes the text longer.
proof fn lemma_strip_paired_len(s: Seq<char>, tag: Seq<char>)
    ensures
        strip_paired(s, tag).len() <= s.len(),
    decreases s.len(),
{
    match find_from(s, open_tag(tag), 0) {
        None => {},
        Some(start) => {
            lemma_find_from(s, open_tag(tag), 0);
            lemma_element_end(s, start, close_tag(tag));
            match element_end(s, start, close_tag(tag)) {
                Some(end) => lemma_strip_paired_len(cut(s, start, end), tag),
                None => {},
            }
        },
    }
}

/// After stripping, no opening of a `tag` element is followed by its
/// closing tag: every paired element has been removed.
proof fn lemma_strip_paired_leaves_no_closing(s: Seq<char>, tag: Seq<char>)
    ensures
        forall|k: int|
            occurs_at(strip_paired(s, tag), open_tag(tag), k) ==> !occurs_from(
                strip_paired(s, tag),
                close_tag(tag),
                k,
            ),
    decreases s.len(),
{
    lemma_find_from(s, open_tag(tag), 0);
    match find_from(s, open_tag(tag), 0) {
        None => {
            assert(strip_paired(s, tag) == s);
        },
        Some(start) => {
            lemma_element_end(s, start, close_tag(tag));
            lemma_find_from(s, close_tag(tag), start);
            match element_end(s, start, close_tag(tag)) {
                Some(end) => {
                    lemma_strip_paired_leaves_no_closing(cut(s, start, end), tag);
                    assert(strip_paired(s, tag) == strip_paired(cut(s, start, end), tag));
                },
                None => {
                    assert forall|k: int|
                        occurs_at(s, open_tag(tag), k) implies !occurs_from(
                        s,
                        close_tag(tag),
                        k,
                    ) by {
                        assert(start <= k);
                        assert forall|j: int| k <= j implies !occurs_at(s, close_tag(tag), j) by {
                            assert(start <= j);
                        }
                    }
                    assert(strip_paired(s, tag) == s);
                },
            }
        },
    }
}

/// The text that `preprocess_owl_xml` hands on to the parser.
pub open spec fn preprocessed_text(xml: Seq<char>) -> Seq<char> {
    strip_paired(strip_version_iris(xml, 0, None).0, VERSION_INFO_TAG@)
}

/// The version IRI that `preprocess_owl_xml` reports.
pub open spec fn preprocessed_version(xml: Seq<char>) -> Option<Seq<char>> {
    strip_version_iris(xml, 0, None).1
}

pub open spec fn chars_view(o: Option<Vec<char>>) -> Option<Seq<char>> {
    match o {
        Some(v) => Some(v@),
        None => None,
    }
}

/// Extract the value of the `rdf:resource` attribute from a tag.
fn extract_rdf_resource(tag: &Vec<char>) -> (res: Option<Vec<char>>)
    ensures
        chars_view(res) == rdf_resource(tag@),
{
    let key = chars_of(RDF_RESOURCE_KEY);
    let pos = match find(tag, &key, 0) {
        Some(p) => p,
        None => return None,
    };
    proof {
        lemma_find_from(tag@, key@, 0);
    }
    let tag_len = tag.len();  // bounds the positions below by usize::MAX
    let start = pos + key.len();
    let ghost rest = tag@.subrange(start as int, tag@.len() as int);
    if start >= tag.len() {
        return None;
    }
    let quote = tag[start];
    assert(rest[0] == quote);
    if quote != '"' && quote != '\'' {
        return None;
    }
    let inner = slice_chars(tag, start + 1, tag.len());
    assert(inner@ =~= rest.drop_first());
    let quote_chars = vec![quote];
    assert(quote_chars@ =~= seq![rest[0]]);
    match find(&inner, &quote_chars, 0) {
        None => None,
        Some(end) => {
            proof {
                lemma_find_from(inner@, quote_chars@, 0);
            }
            let value = slice_chars(&inner, 0, end);
            assert(value@ =~= inner@.take(end as int));
            Some(value)
        },
    }
}

/// Where the element that opens at `start` ends, when `close` is its
/// closing tag.
fn find_element_end(s: &Vec<char>, start: usize, close: &Vec<char>) -> (res: Option<usize>)
    requires
        start < s.len(),
    ensures
        match res {
            Some(e) => element_end(s@, start as int, close@) == Some(e as int),
            None => element_end(s@, start as int, close@) is None,
        },
{
    if let Some(g) = find_tag_close(s, start + 1) {
        proof {
            lemma_tag_close(s@, start + 1, 0);
        }
        if s[g - 1] == '/' {
            return Some(g + 1);
        }
    }
    match find(s, close, start) {
        Some(c) => {
            proof {
                lemma_find_from(s@, close@, start as int);
            }
            Some(c + close.len())
        },
        None => None,
    }
}

/// Remove all occurrences of `<tag>…</tag>` from `xml`, including self-closing `<tag … />`.
fn strip_paired_tag(xml: &mut Vec<char>, tag: &Vec<char>)
    ensures
        final(xml)@ == strip_paired(old(xml)@, tag@),
{
    let mut open = vec!['<'];
    let mut tag_chars = slice_chars(tag, 0, tag.len());
    open.append(&mut tag_chars);
    let mut close = vec!['<', '/'];
    let mut tag_chars2 = slice_chars(tag, 0, tag.len());
    close.append(&mut tag_chars2);
    close.push('>');
    assert(tag@.subrange(0, tag@.len() as int) =~= tag@);
    assert(open@ =~= open_tag(tag@));
    assert(close@ =~= close_tag(tag@));
    loop
        invariant
            strip_paired(xml@, tag@) == strip_paired(old(xml)@, tag@),
            open@ == open_tag(tag@),
            close@ == close_tag(tag@),
        ensures
            xml@ == strip_paired(old(xml)@, tag@),
        decreases xml@.len(),
    {
        let start = match find(xml, &open, 0) {
            Some(p) => p,
            None => {
                return;
            },
        };
        proof {
            lemma_find_from(xml@, open@, 0);
            lemma_element_end(xml@, start as int, close@);
        }
        match find_element_end(xml, start, &close) {
            Some(end) => {
                *xml = cut_range(xml, start, end);
            },
            None => {
                return;
            },
        }
    }
}

/// Preprocess OWL/XML: extract the `owl:versionIRI` IRI and strip version-related elements.
///
/// The parser rejects several OWL 2 header elements that appear inside
/// `<owl:Ontology>` in real-world ontologies (especially OBO Foundry files):
///
/// - `<owl:versionIRI rdf:resource="…"/>`, standard in OWL 2 §3.1;
/// - `<owl:versionInfo>text</owl:versionInfo>` as a bare element inside `<Ontology>`.
///
/// This function strips both before the text is parsed. The versionIRI is
/// captured in `OntologyMeta` for callers that need it.
pub fn preprocess_owl_xml(xml: &str) -> (res: (String, OntologyMeta))
    ensures
        res.0@ == preprocessed_text(xml@),
        res.1@ == preprocessed_version(xml@),
        res.0@.len() <= xml@.len(),
        forall|k: int|
            occurs_at(res.0@, open_tag(VERSION_INFO_TAG@), k) ==> !occurs_from(
                res.0@,
                close_tag(VERSION_INFO_TAG@),
                k,
            ),
        !occurs_from(xml@, VERSION_IRI_OPEN@, 0) && !occurs_from(
            xml@,
            open_tag(VERSION_INFO_TAG@),
            0,
        ) ==> res.0@ == xml@ && res.1@ is None,
{
    proof {
        lemma_strip_version_iris_len(xml@, 0, None);
        let stripped = strip_version_iris(xml@, 0, None).0;
        lemma_strip_paired_len(stripped, VERSION_INFO_TAG@);
        lemma_strip_paired_leaves_no_closing(stripped, VERSION_INFO_TAG@);
        lemma_find_from_some(xml@, VERSION_IRI_OPEN@, 0);
        lemma_find_from_some(xml@, open_tag(VERSION_INFO_TAG@), 0);
    }
    let mut version_iri: Option<Vec<char>> = None;
    let mut result = chars_of(xml);
    let tag_open = chars_of(VERSION_IRI_OPEN);
    let close_tag = chars_of(VERSION_IRI_CLOSE);
    proof {
        reveal_strlit("<owl:versionIRI");
        reveal_strlit("</owl:versionIRI>");
    }
    let mut search_from: usize = 0;
    loop
        invariant
            search_from <= result@.len(),
            strip_version_iris(result@, search_from as int, chars_view(version_iri))
                == strip_version_iris(xml@, 0, None),
            tag_open@ == VERSION_IRI_OPEN@,
            close_tag@ == VERSION_IRI_CLOSE@,
            VERSION_IRI_OPEN@.len() == 15,
            VERSION_IRI_CLOSE@.len() == 17,
        ensures
            (result@, chars_view(version_iri)) == strip_version_iris(xml@, 0, None),
        decreases result@.len(), result@.len() - search_from,
    {
        let abs_start = match find(&result, &tag_open, search_from) {
            Some(p) => p,
            None => {
                break;
            },
        };
        proof {
            lemma_find_from(result@, tag_open@, search_from as int);
            lemma_find_from(result@, close_tag@, abs_start as int);
            lemma_element_end(result@, abs_start as int, close_tag@);
        }
        let result_len = result.len();  // bounds the positions below by usize::MAX
        let end_opt = find_element_end(&result, abs_start, &close_tag);
        match end_opt {
            Some(abs_end) => {
                let tag_content = slice_chars(&result, abs_start, abs_end);
                if version_iri.is_none() {
                    version_iri = extract_rdf_resource(&tag_content);
                }
                result = cut_range(&result, abs_start, abs_end);
            },
            None => {
                search_from = abs_start + tag_open.len();
            },
        }
    }
    let info_tag = chars_of(VERSION_INFO_TAG);
    strip_paired_tag(&mut result, &info_tag);
    let cleaned = string_of(&result);
    let version = match version_iri {
        Some(v) => Some(string_of(&v)),
        None => None,
    };
    (cleaned, OntologyMeta { version_iri: version })
}

/// Compute the BFO anchors of the classes declared in an ontology with the
/// given components: one per declared class that is neither part of BFO
/// nor `owl:Thing`, ordered by IRI.
pub fn anchors_from_components(components: &Vec<OwlComponent>) -> (res: Vec<BfoAnchor>)
    ensures
        anchors_of(component_views(components@), anchor_views(res@)),
        anchor_views(res@).map_values(|a: BfoAnchorView| a.class_iri).no_duplicates(),
        forall|i: int| 0 <= i < res@.len() ==> #[trigger] res@[i].labels@.len() >= 1,
{
    let ghost cv = component_views(components@);
    let edges = extract_parents(components);
    let declared = declared_classes(components);
    let mut anchors: Vec<BfoAnchor> = Vec::new();
    let mut k: usize = 0;
    while k < declared.len()
        invariant
            k <= declared.len(),
            cv == component_views(components@),
            edge_views(edges@) == subclass_edges(cv),
            anchors@.len() == k,
            forall|j: int| 0 <= j < k ==> #[trigger] anchors@[j]@ == anchor_of(cv, declared@[j]@),
            forall|j: int| 0 <= j < k ==> #[trigger] anchors@[j].labels@.len() >= 1,
        decreases declared.len() - k,
    {
        let class_iri = declared[k].clone();
        let anc = ancestors(&class_iri, &edges);
        let category = match deepest_bfo(&anc) {
            Some(c) => c,
            None => BfoCategory(OWL_THING.to_owned()),
        };
        proof {
            let by_anc = |q: Seq<char>| views(anc@).contains(q);
            let by_reach = |q: Seq<char>| reachable(subclass_edges(cv), class_iri@, q);
            assert(by_anc =~= by_reach);
        }
        let (found_labels, definition) = extract_annotations(components, &class_iri);
        let labels = if found_labels.len() == 0 {
            let mut fallback: Vec<String> = Vec::new();
            fallback.push(local_name(class_iri.as_str()).to_owned());
            assert(views(fallback@) =~= seq![local_name_of(class_iri@)]);
            fallback
        } else {
            found_labels
        };
        let par_list = parents_of(&edges, &class_iri);
        let anchor = BfoAnchor { class_iri, category, labels, definition, parents: par_list };
        assert(anchor@ == anchor_of(cv, declared@[k as int]@));
        anchors.push(anchor);
        k = k + 1;
    }
    proof {
        let av = anchor_views(anchors@);
        assert(av.map_values(|a: BfoAnchorView| a.class_iri) =~= views(declared@));
        lemma_strictly_sorted_no_duplicates(views(declared@));
        assert forall|i: int| 0 <= i < av.len() implies #[trigger] av[i] == anchor_of(
            cv,
            av[i].class_iri,
        ) by {
            assert(anchors@[i]@ == anchor_of(cv, declared@[i]@));
        }
    }
    anchors
}

/// Load an ontology from OWL/XML text and compute BFO anchors for all classes.
///
/// Returns one `BfoAnchor` per declared class plus `OntologyMeta` holding
/// the `owl:versionIRI` of the header, if present. The text is preprocessed
/// to strip `<owl:versionIRI …/>` and `<owl:versionInfo>` before it is
/// parsed, since the parser rejects those elements even though OWL 2 §3.1
/// requires parsers to tolerate them. A text whose markup the scan before
/// parsing refuses (see `markup`) is an `OwlParse` error too.
pub fn load_anchors(xml: &str) -> (res: Result<(Vec<BfoAnchor>, OntologyMeta), BridgeError>)
    ensures
        match res {
            Ok((anchors, meta)) => {
                &&& meta@ == preprocessed_version(xml@)
                &&& owx_reader_safe(preprocessed_text(xml@))
                &&& owx_parses(preprocessed_text(xml@))
                &&& exists|cs: Seq<OwlComponentView>|
                    cs.to_multiset() == owx_components(preprocessed_text(xml@)) && anchors_of(
                        cs,
                        anchor_views(anchors@),
                    )
            },
            Err(e) => {
                &&& !(owx_reader_safe(preprocessed_text(xml@)) && owx_parses(preprocessed_text(xml@)))
                &&& e matches BridgeError::OwlParse(msg) && msg@ == if owx_reader_safe(
                    preprocessed_text(xml@),
                ) {
                    owx_error(preprocessed_text(xml@))
                } else {
                    REFUSED_MARKUP@
                }
            },
        },
{
    let (cleaned_xml, meta) = preprocess_owl_xml(xml);
    let components = match parse_owx_components(cleaned_xml.as_str()) {
        Ok(cs) => cs,
        Err(msg) => return Err(BridgeError::OwlParse(msg)),
    };
    let anchors = anchors_from_components(&components);
    assert(component_views(components@).to_multiset() == owx_components(preprocessed_text(xml@)));
    Ok((anchors, meta))
}

} // verus!
