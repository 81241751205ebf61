use llm_wiki_server::chunking::{is_chunkable, ChunkingConfig, ChunkingService};
use llm_wiki_server::embedding::EmbeddingConfig;
use llm_wiki_server::ingest::IngestConfig;
use llm_wiki_server::ingest_engine::{is_safe_ingest_path, parse_file_blocks};
use llm_wiki_server::ingest_steps::{check_page_embeddings, check_page_path, page_result, IngestProgress};
use llm_wiki_server::markdown::strip_frontmatter;
use llm_wiki_server::token_cache::{QueryOptimizer, TokenCacheService, TokenizedChunk};

#[test]
fn test_embedding_config_default() {
    let config = EmbeddingConfig::default();
    assert_eq!(config.dimension, 1536);
    assert_eq!(config.model, "text-embedding-ada-002");
    assert!(config.base_url.contains("openai.com"));
}

#[test]
fn test_ingest_config_default() {
    let config = IngestConfig::default();
    assert_eq!(config.embedding_model, "text-embedding-ada-002");
    assert_eq!(config.tokenizer_model, "gpt-4");
    assert_eq!(config.chunking.target_chars, 1000);
}

#[test]
fn test_is_safe_ingest_path() {
    assert!(is_safe_ingest_path(".wiki/concepts/foo.md"));
    assert!(is_safe_ingest_path(".wiki/entities/bar.md"));

    assert!(!is_safe_ingest_path(""));
    assert!(!is_safe_ingest_path("   "));
    assert!(!is_safe_ingest_path("/etc/passwd"));
    assert!(!is_safe_ingest_path("C:/Windows/system32"));
    assert!(!is_safe_ingest_path(".wiki/../../../etc/passwd"));
    assert!(!is_safe_ingest_path("wiki/concepts/foo.md"));
    assert!(!is_safe_ingest_path("concepts/foo.md"));
}

#[test]
fn test_parse_file_blocks_basic() {
    let text = "---FILE: .wiki/concepts/test.md---\n# Test Concept\nThis is a test.\n---END FILE---";
    let result = parse_file_blocks(text);
    assert_eq!(result.blocks.len(), 1);
    assert_eq!(result.blocks[0].path, ".wiki/concepts/test.md");
    assert!(result.blocks[0].content.contains("# Test Concept"));
    assert_eq!(result.warnings.len(), 0);
}

#[test]
fn test_parse_file_blocks_crlf() {
    let text = "---FILE: .wiki/test.md---\r\nContent\r\n---END FILE---\r\n";
    let result = parse_file_blocks(text);
    assert_eq!(result.blocks.len(), 1);
    assert_eq!(result.blocks[0].path, ".wiki/test.md");
}

#[test]
fn test_parse_file_blocks_unclosed() {
    let text = "---FILE: .wiki/test.md---\nContent without closing";
    let result = parse_file_blocks(text);
    assert_eq!(result.blocks.len(), 0);
    assert_eq!(result.warnings.len(), 1);
    assert!(result.warnings[0].contains("not closed"));
}

#[test]
fn test_parse_file_blocks_empty_path() {
    let text = "---FILE: ---\nContent\n---END FILE---";
    let result = parse_file_blocks(text);
    assert_eq!(result.blocks.len(), 0);
    assert_eq!(result.warnings.len(), 1);
    assert!(result.warnings[0].contains("empty path"));
}

#[test]
fn test_parse_file_blocks_unsafe_path() {
    let text = "---FILE: ../../../etc/passwd---\nContent\n---END FILE---";
    let result = parse_file_blocks(text);
    assert_eq!(result.blocks.len(), 0);
    assert_eq!(result.warnings.len(), 1);
    assert!(result.warnings[0].contains("unsafe path"));
}

#[test]
fn test_parse_file_blocks_with_fence() {
    let text = "---FILE: .wiki/test.md---\n# Test\n```rust\nfn main() {\n    println!(\"---END FILE---\");\n}\n```\n---END FILE---";
    let result = parse_file_blocks(text);
    assert_eq!(result.blocks.len(), 1);
    assert!(result.blocks[0].content.contains("---END FILE---"));
}

#[test]
fn test_strip_frontmatter() {
    let content = "---\ntitle: Test\n---\n# Content";
    let (body, offset) = strip_frontmatter(content);
    assert_eq!(body, "# Content");
    assert!(offset > 0);
}

#[test]
fn strip_frontmatter_without_block_keeps_text() {
    let (body, offset) = strip_frontmatter("# Only\ntext");
    assert_eq!(body, "# Only\ntext");
    assert_eq!(offset, 0);
}

#[test]
fn test_chunk_small_document() {
    let service = ChunkingService::new();
    let content = "# Small Doc\nThis is a small document.";
    let chunks = service.chunk_markdown(content).unwrap();
    assert_eq!(chunks.len(), 1);
    assert_eq!(chunks[0].heading_path, "# Small Doc");
}

#[test]
fn test_chunk_with_code_block() {
    let service = ChunkingService::new();
    let content = "# Code Example\n```rust\nfn main() {\n    println!(\"Hello\");\n}\n```\nSome text after.";
    let chunks = service.chunk_markdown(content).unwrap();
    assert!(!chunks.is_empty());
    assert!(chunks[0].text.contains("```rust"));
}

#[test]
fn test_chunk_with_table() {
    let service = ChunkingService::new();
    let content = "# Table Example\n| Col1 | Col2 |\n|------|------|\n| A    | B    |\n| C    | D    |";
    let chunks = service.chunk_markdown(content).unwrap();
    assert!(!chunks.is_empty());
    assert!(chunks[0].text.contains("| Col1 | Col2 |"));
}

#[test]
fn chunk_indices_follow_emission_order() {
    let service = ChunkingService::new();
    let content = "# A\nfirst section\n## B\nsecond section";
    let chunks = service.chunk_markdown(content).unwrap();
    for (i, c) in chunks.iter().enumerate() {
        assert_eq!(c.index, i);
        assert!(c.char_start <= c.char_end);
    }
}

#[test]
fn test_tokenize_chunk() {
    let mut service = TokenCacheService::new("gpt-4").unwrap();
    let chunk_id = "test-page#0";
    let text = "Hello, world! This is a test.";
    let token_ids = service.tokenize_chunk(chunk_id, text).unwrap();
    assert!(!token_ids.is_empty());
    let cached_ids = service.tokenize_chunk(chunk_id, text).unwrap();
    assert_eq!(token_ids, cached_ids);
}

#[test]
fn test_batch_tokenization() {
    let mut service = TokenCacheService::new("gpt-4").unwrap();
    let chunks = vec![
        ("page1#0".to_string(), "page1".to_string(), "First chunk".to_string(), 0),
        ("page1#1".to_string(), "page1".to_string(), "Second chunk".to_string(), 1),
    ];
    let results = service.tokenize_chunks_batch(chunks).unwrap();
    assert_eq!(results.len(), 2);
    assert!(results[0].token_count > 0);
    assert!(results[1].token_count > 0);
}

fn sample_chunks() -> Vec<TokenizedChunk> {
    vec![
        TokenizedChunk {
            chunk_id: "page1#0".to_string(),
            page_id: "page1".to_string(),
            chunk_index: 0,
            chunk_text: "First chunk with some content".to_string(),
            token_ids: vec![1, 2, 3, 4, 5],
            token_count: 5,
        },
        TokenizedChunk {
            chunk_id: "page1#1".to_string(),
            page_id: "page1".to_string(),
            chunk_index: 1,
            chunk_text: "Second chunk with more content".to_string(),
            token_ids: vec![6, 7, 8, 9, 10],
            token_count: 5,
        },
    ]
}

#[test]
fn test_query_optimizer() {
    let optimizer = QueryOptimizer::new("gpt-4").unwrap();
    let selected = optimizer.optimize_context(sample_chunks(), 5);
    assert_eq!(selected.len(), 1);
    let selected = optimizer.optimize_context(sample_chunks(), 10);
    assert_eq!(selected.len(), 2);
}

#[test]
fn optimized_context_stays_within_budget() {
    let optimizer = QueryOptimizer::new("gpt-4").unwrap();
    for budget in 0..12 {
        let selected = optimizer.optimize_context(sample_chunks(), budget);
        let total: usize = selected.iter().map(|c| c.token_count).sum();
        assert!(total <= budget);
    }
}

#[test]
fn test_cache_stats() {
    let mut service = TokenCacheService::new("gpt-4").unwrap();
    service.tokenize_chunk("test#0", "Hello").unwrap();
    service.tokenize_chunk("test#1", "World").unwrap();
    let stats = service.cache_stats();
    assert_eq!(stats.cached_chunks, 2);
    assert!(stats.memory_usage_bytes > 0);
}

#[test]
fn unknown_tokenizer_model_is_refused() {
    let r = TokenCacheService::new("no-such-model");
    assert!(r.is_err());
}

#[test]
fn ingest_progress_records_each_warning() {
    let (blocks, mut progress) = IngestProgress::start(
        "---FILE: .wiki/a.md---\nA\n---END FILE---\n---FILE: .wiki/b.md---\nB\n---END FILE---",
    );
    assert_eq!(blocks.len(), 2);
    assert_eq!(progress.pages_processed, 2);
    assert!(!progress.admit_block("/etc/passwd"));
    assert!(progress.admit_block(".wiki/a.md"));
    assert!(!progress.check_chunks(".wiki/b.md", 0));
    assert!(!progress.check_embeddings(".wiki/a.md", 3, 2));
    assert!(progress.check_embeddings(".wiki/a.md", 2, 2));
    progress.record_stored(2);
    let result = progress.finish();
    assert_eq!(result.pages_processed, 2);
    assert_eq!(result.chunks_created, 2);
    assert_eq!(
        result.warnings,
        vec![
            "Skipping unsafe path: /etc/passwd".to_string(),
            "No chunks generated for page: .wiki/b.md".to_string(),
            "Embedding count mismatch for page .wiki/a.md: expected 3, got 2".to_string(),
        ]
    );
}

#[test]
fn single_page_checks() {
    assert!(check_page_path(".wiki/x.md").is_ok());
    assert_eq!(check_page_path("../x").unwrap_err(), "Unsafe page path: ../x");
    assert_eq!(check_page_embeddings(4, 1).unwrap_err(), "Embedding count mismatch: expected 4, got 1");
    let r = page_result(0);
    assert_eq!(r.pages_processed, 1);
    assert_eq!(r.warnings, vec!["No chunks generated".to_string()]);
    assert_eq!(page_result(3).chunks_created, 3);
}

#[test]
fn chunkability_is_checked_before_chunking() {
    let small = ChunkingConfig { target_chars: 5, max_chars: 10, min_chars: 1, overlap_chars: 1 };
    assert!(is_chunkable("# H\nplain words here\nand more", small));
    assert!(!is_chunkable("# H\n| lone row\nmore text here", small));
    assert!(is_chunkable("", ChunkingConfig::default()));
}

#[test]
fn overlap_keeps_chunks_within_max_chars() {
    let config = ChunkingConfig { target_chars: 100, max_chars: 100, min_chars: 0, overlap_chars: 30 };
    let service = ChunkingService::with_config(config);
    let mut content = String::from("# Title\n");
    for i in 0..12 {
        content.push_str(&format!("Paragraph {} has some words in it, enough to fill a line or so.\n\n", i));
    }
    assert!(is_chunkable(&content, config));
    let chunks = service.chunk_markdown(&content).unwrap();
    assert!(chunks.len() > 2);
    for c in &chunks {
        assert!(c.text.chars().count() <= 100, "chunk of {} chars", c.text.chars().count());
        assert!(!c.oversized);
    }
}

#[test]
fn heading_after_a_code_fence_stays_in_the_section() {
    let service = ChunkingService::new();
    let content = "# A\n```\nx\n```\n# B\ny";
    let cs = service.chunk_markdown(content).unwrap();
    assert_eq!(cs.len(), 1);
    assert_eq!(cs[0].heading_path, "# A");
    assert_eq!(cs[0].text, content);
    assert_eq!(cs[0].char_start, 0);
}

#[test]
fn heading_before_a_code_fence_starts_a_section() {
    let service = ChunkingService::new();
    let content = "# A\nx\n# B\n~~~\n# not a heading\n~~~";
    let cs = service.chunk_markdown(content).unwrap();
    assert_eq!(cs.len(), 2);
    assert_eq!(cs[0].text, "# A\nx");
    assert_eq!(cs[1].heading_path, "# B");
    assert_eq!(cs[1].text, "# B\n~~~\n# not a heading\n~~~");
}
