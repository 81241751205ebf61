use vstd::prelude::*;

use crate::chunking::ChunkingConfig;
use crate::text::owned;

verus! {

/// Configuration of the ingestion pipeline.
pub struct IngestConfig {
    pub chunking: ChunkingConfig,
    pub embedding_model: String,
    pub tokenizer_model: String,
}

impl Default for IngestConfig {
    fn default() -> (r: Self)
        ensures
            r.chunking == (ChunkingConfig { target_chars: 1000, max_chars: 1500, min_chars: 200, overlap_chars: 200 }),
            r.embedding_model@ == "text-embedding-ada-002"@,
            r.tokenizer_model@ == "gpt-4"@,
    {
        IngestConfig {
            chunking: ChunkingConfig::default(),
            embedding_model: owned("text-embedding-ada-002"),
            tokenizer_model: owned("gpt-4"),
        }
    }
}

/// What an ingestion did.
pub struct IngestResult {
    pub pages_processed: usize,
    pub chunks_created: usize,
    pub warnings: Vec<String>,
}

} // verus!
