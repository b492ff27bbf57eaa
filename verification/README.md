# lattice-bridge

Given two OWL ontologies that both anchor to BFO, lattice-bridge proposes class
mappings between them. Classes are grouped by their BFO upper category and only
classes of the same category are ever compared.

## Layout

- `src/` is the verified library (Verus):
  - `anchor.rs`: the header preprocessing of OWL/XML text, the anchor types, and
    the computation of each class's anchor (category, labels, definition, parents);
  - `classes.rs`: what is read from the components of an ontology;
  - `header.rs`: what the header preprocessing does to a text that holds
    complete version elements;
  - `hierarchy.rs`: ancestors along `SubClassOf` edges (up to the first BFO
    class) and the BFO category ranking;
  - `markup.rs`: the scan of OWL/XML markup, split as quick-xml splits it,
    that keeps from the parser the documents on which it would never return
    (a `Literal` element that no end tag named `Literal` follows);
  - `owl.rs`: the parser (horned-owl) behind trusted wrappers, and the plain
    component type;
  - `lexical.rs`: label normalisation, token sets and token-overlap counts;
  - `matcher.rs`: the BFO-category prune and the kinds of mapping;
  - `output.rs`: the OWL/XML bridge document and the listing helper;
  - `text.rs`, `vocab.rs`, `error.rs`: character helpers, IRIs, errors.
- `app/` is the command-line program: file I/O, the floating-point scores
  (strsim edit similarity, token-overlap ratio, confidence and threshold), the
  sort by confidence, JSONL with serde, and clap.
- `tests/` exercises the library.
