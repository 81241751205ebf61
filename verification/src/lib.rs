use vstd::prelude::*;

pub mod text;
pub mod graph_algorithms;
pub mod ingest_engine;
pub mod pieces;
pub mod markdown;
pub mod tokenizer;
pub mod chunking;
pub mod storage_types;
pub mod keyed;
pub mod clock;
pub mod hash_index;
pub mod ref_counter;
pub mod deduplication;
pub mod lex;
pub mod project_registry;
pub mod token_cache;
pub mod api_types;
pub mod embedding;
pub mod ingest;
pub mod config;
pub mod filesystem;
pub mod page_text;
pub mod index;
pub mod graph;
pub mod vector_store;
pub mod migration;
pub mod cypher;
pub mod wiki_queries;
pub mod ingest_steps;
pub mod llm;

verus! {
} // verus!
