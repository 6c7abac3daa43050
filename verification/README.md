# wackdb

A small relational storage engine whose core is written in Verus: slotted heap pages, a
buffer pool with least-recently-used eviction and write-ahead flushing, a B+Tree index, a
write-ahead log, a catalog, a small SQL front end and Volcano-style query operators. The
library's functions carry `requires` / `ensures` contracts that Verus proves.

## Layout

- `src/` — the verified library, one module per component:
  - `types`, `storage`, `value`, `schema`, `tuple`, `page`: identifiers, values, the tuple
    encoding and slotted pages;
  - `buffer`: the buffer pool and the disk and log manager traits it drives;
  - `btree_node`, `btree`: index pages and the B+Tree over them;
  - `wal`: log record framing and the buffer of records not yet durable;
  - `catalog`, `config`: table metadata and engine settings;
  - `text`, `sql`, `predicate`, `cli`: text handling, statement parsing, WHERE evaluation,
    and the building of operator pipelines;
  - `query`, `scan`, `sort`: the operators;
  - `commands`, `console`, `dtos`: what the commands do to the database, the console's
    backslash commands, and the views served to the web visualizer.
- `tests/` — tests of the library on concrete values.
- `app/` — the program around the library: argument handling, files on disk, the log
  file, the interactive loop and the web server.

Contracts about page contents and the log are stated for disk and log managers that model
their storage (`models_storage`, `models_log`); the in-memory disk and log managers do,
so the proofs about what a read gives back of a write, and about the log reaching disk
before the pages it covers, apply to them.
