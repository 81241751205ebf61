use llm_wiki_server::deduplication::VectorDeduplicator;
use llm_wiki_server::hash_index::{compute_content_hash, HashIndex};
use llm_wiki_server::migration::{generate_project_id, skips_directory, MigrationStats};
use llm_wiki_server::project_registry::{ProjectIdentifier, ProjectRegistry};
use llm_wiki_server::ref_counter::RefCounter;
use llm_wiki_server::vector_store::{batch_problem, chunk_id, page_filter, LanceDbStorage, StorageError};

fn new_dedup() -> VectorDeduplicator {
    VectorDeduplicator::new(HashIndex::new("/tmp/.hash_index.db".to_string()), RefCounter::new())
}

#[test]
fn test_deduplication() {
    let mut dedup = new_dedup();
    let content = "This is a test document";

    let result1 = dedup.check_or_create(content, "proj1", "chunk1").unwrap();
    assert!(!result1.is_reused());
    let vector_id1 = result1.vector_id().to_string();

    let result2 = dedup.check_or_create(content, "proj2", "chunk2").unwrap();
    assert!(result2.is_reused());
    assert_eq!(result2.vector_id(), vector_id1);

    let stats = dedup.get_counts();
    assert_eq!(stats.total_chunks, 2);
    assert_eq!(stats.unique_vectors, 1);
    assert_eq!(stats.reused_vectors, 1);
}

#[test]
fn test_removal() {
    let mut dedup = new_dedup();
    let content = "Test content";

    dedup.check_or_create(content, "proj1", "chunk1").unwrap();
    let result = dedup.check_or_create(content, "proj2", "chunk2").unwrap();
    let content_hash = result.content_hash().to_string();

    let should_delete = dedup.remove_chunk(&content_hash, "proj1", "chunk1").unwrap();
    assert!(!should_delete);
    assert_eq!(dedup.get_ref_count(&content_hash).unwrap(), 1);

    let should_delete = dedup.remove_chunk(&content_hash, "proj2", "chunk2").unwrap();
    assert!(should_delete);
    assert_eq!(dedup.get_ref_count(&content_hash).unwrap(), 0);
}

#[test]
fn test_project_removal() {
    let mut dedup = new_dedup();
    dedup.check_or_create("content1", "proj1", "chunk1").unwrap();
    dedup.check_or_create("content2", "proj1", "chunk2").unwrap();
    dedup.check_or_create("content3", "proj2", "chunk3").unwrap();

    let deleted = dedup.remove_project("proj1").unwrap();
    assert_eq!(deleted.len(), 2);

    let stats = dedup.get_counts();
    assert_eq!(stats.total_chunks, 1);
    assert_eq!(stats.unique_vectors, 1);
}

#[test]
fn dedup_integrity_holds_after_use() {
    let mut dedup = new_dedup();
    dedup.check_or_create("a", "p", "c1").unwrap();
    dedup.check_or_create("a", "q", "c2").unwrap();
    let report = dedup.verify_integrity();
    assert!(!report.has_mismatch);
    assert_eq!(report.hash_index_count, report.ref_counter_count);
}

#[test]
fn test_hash_index_basic() {
    let mut index = HashIndex::new("/tmp/.hash_index.db".to_string());
    let hash = "abc123";
    let vector_id = "vec_001";
    index.insert(hash.to_string(), vector_id.to_string());
    let entry = index.get(hash).unwrap();
    assert_eq!(entry.vector_id, vector_id);
    assert_eq!(entry.ref_count, 1);
}

#[test]
fn test_ref_counting() {
    let mut index = HashIndex::new("/tmp/.hash_index.db".to_string());
    let hash = "abc123";
    index.insert(hash.to_string(), "vec_001".to_string());

    index.increment_ref(hash);
    assert_eq!(index.get_ref_count(hash), 2);

    let result = index.decrement_ref(hash);
    assert!(result.is_none());
    assert_eq!(index.get_ref_count(hash), 1);

    let result = index.decrement_ref(hash);
    assert_eq!(result, Some("vec_001".to_string()));
    assert_eq!(index.get_ref_count(hash), 0);
}

#[test]
fn test_content_hash() {
    let hash1 = compute_content_hash("Hello, World!");
    let hash2 = compute_content_hash("Hello, World!");
    let hash3 = compute_content_hash("Different content");
    assert_eq!(hash1, hash2);
    assert_ne!(hash1, hash3);
    assert_eq!(hash1.len(), 64);
}

#[test]
fn content_hash_is_sha256_hex() {
    assert_eq!(
        compute_content_hash("abc"),
        "ba7816bf8f01cfea414140de5dae2223b00361a396177a9cb410ff61f20015ad"
    );
}

#[test]
fn test_ref_counter() {
    let mut counter = RefCounter::new();

    counter.add_ref("hash1", "proj1", "chunk1", "vec1").unwrap();
    assert_eq!(counter.get_ref_count("hash1"), 1);
    assert_eq!(counter.get_vector_id("hash1"), Some("vec1".to_string()));

    counter.add_ref("hash1", "proj2", "chunk2", "vec1").unwrap();
    assert_eq!(counter.get_ref_count("hash1"), 2);

    let should_delete = counter.remove_ref("hash1", "proj1", "chunk1").unwrap();
    assert!(!should_delete);
    assert_eq!(counter.get_ref_count("hash1"), 1);

    let should_delete = counter.remove_ref("hash1", "proj2", "chunk2").unwrap();
    assert!(should_delete);
    assert_eq!(counter.get_ref_count("hash1"), 0);
}

#[test]
fn test_project_refs() {
    let mut counter = RefCounter::new();
    counter.add_ref("hash1", "proj1", "chunk1", "vec1").unwrap();
    counter.add_ref("hash2", "proj1", "chunk2", "vec2").unwrap();
    counter.add_ref("hash3", "proj2", "chunk3", "vec3").unwrap();

    let proj1_refs = counter.get_project_refs("proj1");
    assert_eq!(proj1_refs.len(), 2);

    let to_delete = counter.remove_project_refs("proj1").unwrap();
    assert_eq!(to_delete.len(), 2);
    assert!(to_delete.contains(&"hash1".to_string()));
    assert!(to_delete.contains(&"hash2".to_string()));
}

#[test]
fn ref_counter_stats_count_refs_and_projects() {
    let mut counter = RefCounter::new();
    counter.add_ref("h1", "p1", "c1", "v1").unwrap();
    counter.add_ref("h1", "p2", "c2", "v1").unwrap();
    counter.add_ref("h2", "p1", "c3", "v2").unwrap();
    let stats = counter.get_stats();
    assert_eq!(stats.total_refs, 3);
    assert_eq!(stats.unique_vectors, 2);
    assert_eq!(stats.project_count, 2);
    assert_eq!(counter.rows_above(1), 1);
}

#[test]
fn test_project_registry() {
    let mut registry = ProjectRegistry::new("/tmp/global");
    let identifier = ProjectIdentifier { id: "test-project".to_string(), name: "Test Project".to_string() };
    let info = registry.register_project(&identifier, "/path/to/project");
    assert_eq!(info.name, "Test Project");
    assert_eq!(info.path, "/path/to/project");
    let retrieved = registry.get_project("test-project").unwrap().unwrap();
    assert_eq!(retrieved.name, info.name);
}

#[test]
fn registry_unregister_forgets_project() {
    let mut registry = ProjectRegistry::new("/tmp/global");
    let identifier = ProjectIdentifier { id: "p".to_string(), name: "P".to_string() };
    registry.register_project(&identifier, "/x");
    registry.unregister_project("p");
    assert!(registry.get_project("p").unwrap().is_none());
}

#[test]
fn test_generate_project_id() {
    let id1 = generate_project_id("/path/to/project");
    let id2 = generate_project_id("/path/to/project");
    let id3 = generate_project_id("/different/path");
    assert_eq!(id1, id2);
    assert_ne!(id1, id3);
    assert_eq!(id1.len(), 16);
}

#[test]
fn migration_totals_add_up() {
    let mut total = MigrationStats::start_total(3);
    total.accumulate(&MigrationStats::single_project(true));
    total.accumulate(&MigrationStats::single_project(false));
    assert_eq!(total.projects_found, 3);
    assert_eq!(total.projects_migrated, 1);
    assert_eq!(total.total_chunks, 0);
}

#[test]
fn lancedb_paths_and_page_ids() {
    let store = LanceDbStorage::new("/proj".to_string());
    assert_eq!(store.db_path(), "/proj/.llm-wiki/lancedb");
    assert_eq!(store.embedding_dim(), 1536);
    assert!(store.validate_page_id("my-page_1.md").is_ok());
    assert_eq!(store.validate_page_id("").unwrap_err(), "Invalid page_id: empty or too long");
    assert_eq!(store.validate_page_id(&"a".repeat(257)).unwrap_err(), "Invalid page_id: empty or too long");
    assert!(store.validate_page_id(&"a".repeat(256)).is_ok());
    assert_eq!(
        store.validate_page_id("a'b").unwrap_err(),
        "Invalid page_id: contains disallowed characters: a'b"
    );
    assert!(store.validate_page_id("页面").is_ok());
}

#[test]
fn storage_error_text() {
    let e = StorageError::new("boom".to_string());
    assert_eq!(e.describe(), "Storage error: boom");
}

#[test]
fn chunk_ids_filters_and_batches() {
    assert_eq!(chunk_id("page-a", 12), "page-a#12");
    assert_eq!(page_filter("page-a"), "page_id = 'page-a'");
    assert_eq!(batch_problem(&vec![(0, 4), (1, 4)], 4), None);
    assert_eq!(batch_problem(&vec![(0, 0)], 0), Some("Chunk #0 has empty embedding".to_string()));
    assert_eq!(
        batch_problem(&vec![(0, 4), (7, 3), (8, 2)], 4),
        Some("Chunk #7 has embedding dim 3 but batch dim is 4".to_string())
    );
    assert_eq!(batch_problem(&vec![], 0), None);
}

#[test]
fn project_removal_keeps_index_and_counter_in_step() {
    let mut dedup = new_dedup();
    dedup.check_or_create("shared", "p1", "c1").unwrap();
    dedup.check_or_create("shared", "p2", "c2").unwrap();
    dedup.check_or_create("only-p1", "p1", "c3").unwrap();
    let deleted = dedup.remove_project("p1").unwrap();
    assert_eq!(deleted.len(), 1);
    let report = dedup.verify_integrity();
    assert!(!report.has_mismatch);
    assert_eq!(report.hash_index_count, 1);
    assert_eq!(report.ref_counter_count, 1);
}

#[test]
fn scan_passes_over_hidden_and_build_directories() {
    assert!(skips_directory(".git"));
    assert!(skips_directory(".llm-wiki"));
    assert!(skips_directory("node_modules"));
    assert!(skips_directory("target"));
    assert!(!skips_directory("project1"));
    assert!(!skips_directory("targets"));
    assert!(!skips_directory(""));
}

#[test]
fn hash_index_keeps_its_format_version() {
    let mut index = HashIndex::new("/tmp/.hash_index.db".to_string());
    assert_eq!(index.version(), "1.0");
    index.insert("h1".to_string(), "v1".to_string());
    assert_eq!(index.version(), "1.0");
    let loaded = HashIndex::from_entries("/tmp/x.db".to_string(), "2.0".to_string(), Vec::new());
    assert_eq!(loaded.version(), "2.0");
}

#[test]
fn registered_project_is_found_by_path_and_counted() {
    let mut reg = ProjectRegistry::new("/tmp/global");
    let ident = ProjectIdentifier { id: "p1".to_string(), name: "one".to_string() };
    reg.register_project(&ident, "/work/one");
    let found = reg.get_project_by_path("/work/one").unwrap();
    assert_eq!(found.name, "one");
    let stats = reg.global_stats_checked().unwrap();
    assert_eq!(stats.total_projects, 1);
    assert_eq!(stats.total_pages, 0);
    reg.unregister_project("p1");
    assert!(reg.get_project_by_path("/work/one").is_none());
}

#[test]
fn ref_count_is_zero_exactly_when_absent() {
    let mut index = HashIndex::new("/tmp/.hash_index.db".to_string());
    assert_eq!(index.get_ref_count("h"), 0);
    index.insert("h".to_string(), "v".to_string());
    assert_eq!(index.get_ref_count("h"), 1);
    index.increment_ref("h");
    assert_eq!(index.decrement_ref("h"), None);
    assert_eq!(index.get_ref_count("h"), 1);
    assert_eq!(index.decrement_ref("h"), Some("v".to_string()));
    assert_eq!(index.get_ref_count("h"), 0);
    assert!(index.get("h").is_none());
    assert_eq!(index.total_entries(), 0);
}

#[test]
fn removing_a_reference_just_added_restores_the_counter() {
    let mut counter = RefCounter::new();
    counter.add_ref("hash1", "p", "c1", "v1").unwrap();
    counter.add_ref("hash1", "p", "c2", "v1").unwrap();
    assert_eq!(counter.remove_ref("hash1", "p", "c2").unwrap(), false);
    assert_eq!(counter.get_ref_count("hash1"), 1);
    assert_eq!(counter.remove_ref("hash1", "p", "c1").unwrap(), true);
    assert_eq!(counter.get_ref_count("hash1"), 0);
    assert_eq!(counter.remove_ref("hash1", "p", "c1").unwrap(), false);
    assert_eq!(counter.get_ref_count("hash1"), 0);
}
