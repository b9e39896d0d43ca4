# raise_core

The core of a model-based systems engineering workbench: a JSON document
store's schemas and collections, a JSON-LD vocabulary, Arcadia/Capella models
and their importers, traceability and compliance checks, a rule engine, and the
search spaces of a genetic optimiser. The library is written in Verus: each
public function states what it returns in its `ensures`, and Verus proves it.

## Layout

- `src/` — the verified library.
  - `json`, `json_eq`, `json_text`, `text`, `assoc`, `pattern`: JSON values and
    their views, text operations, key/value vectors, regular expressions.
  - `schema`, `collections`, `references`, `system_index`, `kernel`: schema
    validation, document preparation, smart links, system indexes and the
    bootstrap decisions.
  - `vocabulary`, `model`, `arcadia`, `capella`, `xml`, `transform`, `loading`,
    `services`: the ontology registry, project models, Capella/AIRD/EUR-Lex
    import from XML bytes, and model transformations.
  - `validators`, `traceability`: model validation, the link graph, impact
    analysis and compliance checks.
  - `rules`, `evaluator`: the rule language, its meaning (`rules::eval`) and
    the evaluator proved against it.
  - `genetics`: genomes, the allocation adapter and genetics node parameters.
- `tests/` — tests run against the compiled library.
- `app/` — the parts around the library: files, serde_json conversion, the
  process-wide registry and the floating-point genetic engine.

Calls into outside crates (chrono, regex, sha2, hex, rand, quick-xml) go through
small trusted wrappers whose contracts say what those crates document; each
such wrapper says in its doc comment what is claimed.
