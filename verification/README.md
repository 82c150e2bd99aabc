# genesis_core

A headless information engine of six primitives: Node, ID, Property, Relationship, Record and Index.
Definitions describe Property and Relationship keys; the Record Store is canonical, and the Index is
derived from it.

- `src/` is the verified library. It holds both stores as values: every operation says in its
  contract which revision and which content it leads to, and which error it gives on which input.
  - `table`, `text`: ordered tables and texts, with their models.
  - `id`, `node`, `value`, `api`, `error`: the types of the interface.
  - `json`: the members of JSON objects.
  - `cursor`, `paging`: keyset traversal.
  - `record_store`: mutations, definitions, queries, the change journal, patches and the frames
    that recovery applies, stable snapshots, which databases are accepted, and what every operation
    keeps.
  - `index`: building and following, property queries, backlinks, the graph, search, content.
  - `recovery`: baselines, segments, plans, and keeping them up with the live store.
  - `security`: the boundary of a protected root.
  - `codec`: how values and changes stand in database columns.
  - `state`: the core as one value.
  - `laws`: what holds of a core over several calls.
- `app/` is ordinary Rust around it: SQLite, files, locks and serialization. Every write is decided
  by the library and saved in one transaction.
- `tests/` runs the library.

What the library takes from outside crates (`uuid`, `serde`, `serde_json`, `chrono`, `sha2`) stands
in small functions whose doc comments say what is relied on.
