# project_knowledge_graph

Provenance-first engineering knowledge graphs. Assertions (nodes, edges and
aliases) live in reviewable JSONL files and cite source spans by anchors; an
evidence lock records the accepted spans; a SQLite index is generated from
reviewed assertions and can always be rebuilt.

## Layout

- `src/` is the library, written in Verus and verified:
  - `text`, `hash`, `keyed`: strings, SHA-256 in hex, maps kept in key order;
  - `model`, `error`: the records and the error type;
  - `evidence`: selectors, the evidence key, resolving a selector to a span;
  - `paths`: project-relative paths and the blocked-path policy;
  - `validate`: the rules assertions must follow;
  - `lock`: locking, auditing and verifying evidence, Git context;
  - `index`: the index schema, its build fingerprint and its rows;
  - `graph`, `query`, `gold`, `export`: neighborhoods, shortest paths,
    search terms, node resolution, gold questions, Mermaid export;
  - `records`: JSONL framing and the sources that records cite.
- `tests/` exercises the library.
- `app/` is the `project-graph` command line: file system, Git, SQLite and
  JSON around the library.
