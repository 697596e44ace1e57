# AethelDB

The storage side of a serverless PostgreSQL: a page server that rebuilds any 8 KiB
page at any log position, with branches that share their parent's history, and the
tools around it.

* `src/` is the library, written in Verus. Every function in it carries a contract
  that is proved, and the properties that span functions stand beside them as
  public proof functions.
  * `common`: identifiers, log positions, page addresses, and the page and WAL
    protocols.
  * `pageserver`: page versions, layers, the repository, timelines, tenants, the
    catalog, the WAL decoder, redo, and what the endpoints answer. What a read
    gives back after writes, freezes, compactions and branches is stated in
    `reads`, `batches`, `branches` and `topology`; what a control reply tells, in
    `replies`.
  * `aethelctl`: the control-plane client, deployment arguments, the database
    registry and the console.
  * `bytes`, `text`, `json`: numbers in bytes, texts, and documents.
* `tests/` runs the library on concrete values.
* `app/` is ordinary Rust around the library: sockets, files, processes, object
  stores, and the command line.

What is taken on trust is short: appending to a `String`, sharing an `Arc`, reading
bytes that are no UTF-8, `serde_json`'s reading and writing of documents, and
`sha2`'s SHA-256. Each stands behind one item that says what it claims.
