# ubiquisync

A verified library for the core of a local-first sync engine: the list and
register CRDTs, the naming and reading rules of the filesystem log store, and
the SQL layer (dialects, values, rows, table DDL, the clock register, the
ingestion cursors and the replica's placement decisions).

- `src/crdts` — the Fugue list (`fugue`), element ids, and last-writer-wins
  registers and maps (`lww`). The list's laws (`fugue::laws`) state what a
  local insert or delete does to the document, what the prepare view's
  steps undo, that deletes commute, and that two runs of new elements under
  elements of the document leave the same document in either order; the
  register laws state last-writer-wins with a byte tie-break.
- `src/fs` — batch, segment and pack file names, directory-listing parsing,
  peer directories, timestamps, and the writer's and reader's decisions.
- `src/sql` — SQL dialects, values and rows, `CREATE TABLE` rendering,
  statement batches, insert/update/select/delete statements as plain data
  rendered by sea-query, the clock register, status codes,
  the processor's cursors and the replica's decisions.
- `src/tables.rs` — protocol column types and their Postgres spelling.
- `app/` — the I/O around the library: directory listings, renames, and the
  asynchronous SQL backend interface.
