# llm_wiki_server

A wiki server for LLM-assisted knowledge bases: Markdown pages are split into
token-bounded chunks, embedded and stored with content-hash deduplication; an
index and a link graph of the pages answer keyword search, graph insights and
breadth-first "deep research"; an HTTP API serves it all.

The library in `src/` is written in Verus: each public function carries a
contract over mathematical models (sequences, maps, views of the types), and the
laws that tie functions together are proof functions checked by the verifier.

## Layout

- `src/text.rs`, `src/lex.rs`, `src/pieces.rs`, `src/markdown.rs`,
  `src/ingest_engine.rs`, `src/chunking.rs`: text handling, Markdown sections,
  the recursive splitter with overlap, and file blocks.
- `src/tokenizer.rs`, `src/token_cache.rs`: token counting through the BPE
  tokenizer and the per-chunk token cache.
- `src/hash_index.rs`, `src/ref_counter.rs`, `src/deduplication.rs`,
  `src/project_registry.rs`, `src/storage_types.rs`, `src/keyed.rs`: the
  deduplicating vector store's bookkeeping and the project registry.
- `src/index.rs`, `src/page_text.rs`, `src/graph.rs`, `src/graph_algorithms.rs`
  (with `graph_algorithms/betweenness.rs`), `src/wiki_queries.rs`, `src/cypher.rs`:
  the wiki index, links, the page graph and its algorithms.
- `src/config.rs`, `src/embedding.rs`, `src/ingest.rs`, `src/ingest_steps.rs`,
  `src/llm.rs`, `src/api_types.rs`, `src/vector_store.rs`, `src/migration.rs`,
  `src/filesystem.rs`, `src/clock.rs`: configuration, request and response
  types, and the decisions of the services.
- `app/`: the HTTP server (routes, file and network I/O, the embedding and LLM
  clients, floating-point scoring) built on the library.
- `tests/`: tests of the library.
