# zeromem

External memory for conversations: the turns of a project's sessions are taken in once, kept with
a local embedding, and searched by meaning, words, entities and time. Only turns that matter for a
query are shown, and never those of the session that asks.

- `src/` is the library. It is written and proved with Verus: which turns of a batch are new, how a
  text is cut into tokens and entities, the graph of entities, the windows of a session, the counts
  behind the lexical score, the routing of a query, the ranking of its candidates, the loading of
  stored turns, and the requests and arguments of the process.
- `app/` is the process around it: SQLite, the embedding model, JSON lines on standard input and
  output, and floating-point arithmetic. The library takes and gives numbers in single precision
  by their bits.
- `tests/` runs the library against a database in memory.

The program takes `--db` and `--cache`. `OPENCODE_ZEROMEM_EMBEDDER=hash` selects an embedder
without a model, for tests; `OPENCODE_ZEROMEM_MAX_CPUS` limits the processors, four by default.
The commands are `ingest`, `ingest_batch`, `query`, `stats`, `delete_session` and `shutdown`.

What holds over time is stated in `src/persistence.rs` and `src/table.rs`: a turn is stored once
under its identity, what is stored is searched, also after a restart, and what is deleted is not.
