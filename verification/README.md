# pg_graphwright

A knowledge-graph index for Postgres, where each user sees only the part of the
graph derived from rows they are allowed to read. What the extension decides and
computes is a Verus library whose functions carry proved contracts; the
extension around it talks to Postgres.

## Layout

- `src/text.rs`, `src/names.rs`: characters, runs, the order of names, and name
  normalization.
- `src/extraction.rs`: the built-in tokenizer, and what the pluggable SQL
  functions are asked and how their replies are taken.
- `src/storage.rs`, `src/access.rs`: the records in the index relation's pages;
  scanning, extending and pruning pages.
- `src/decisions.rs`, `src/sets.rs`, `src/maps.rs`, `src/resolution.rs`: human
  decisions, and the resolution of names to entities.
- `src/graph.rs`: the mentions and edges that one row contributes.
- `src/visibility.rs`: what a caller sees of the graph, and the laws about it.
- `src/maintenance.rs`: extraction passes, the change queue, garbage collection,
  the worker's loop.
- `src/sql.rs`: the statements sent to Postgres.
- `app/`: the extension itself, on `pgrx`: settings, catalog, access method,
  page I/O, SPI calls and the background worker.
- `tests/`: tests of the library on concrete values.

The library takes the merges that phonetic and fuzzy lanes propose as arguments.
The extension itself comes without such lanes: a build that links them in calls
`lanes::install`, and none propose anything otherwise.
