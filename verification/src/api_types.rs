use vstd::prelude::*;

use crate::text::owned;

verus! {

/// Overrides for one LLM provider.
pub struct ProviderOverride {
    pub options: Option<ProviderOptions>,
}

/// The options of a provider.
pub struct ProviderOptions {
    pub api_key: Option<String>,
    pub model: Option<String>,
    pub base_url: Option<String>,
    pub api_mode: Option<String>,
    pub max_context_size: Option<u32>,
}

/// The configuration file: models, providers, chunking and storage.
pub struct LlmConfigFile {
    pub context_model: Option<String>,
    pub embedding_model: Option<String>,
    pub embedding_dimension: Option<usize>,
    /// Provider name and overrides, as the file lists them.
    pub providers: Option<Vec<(String, ProviderOverride)>>,
    pub chunking: Option<ChunkingOptions>,
    pub storage: Option<StorageOptions>,
}

impl Default for LlmConfigFile {
    fn default() -> (r: Self)
        ensures
            r.context_model is None,
            r.embedding_model is None,
            r.embedding_dimension is None,
            r.providers is None,
            r.chunking is None,
            r.storage is None,
    {
        LlmConfigFile {
            context_model: None,
            embedding_model: None,
            embedding_dimension: None,
            providers: None,
            chunking: None,
            storage: None,
        }
    }
}

/// Chunking options of the configuration file.
pub struct ChunkingOptions {
    pub target_chars: Option<usize>,
    pub overlap_chars: Option<usize>,
    pub max_chars: Option<usize>,
}

/// Storage options of the configuration file.
pub struct StorageOptions {
    pub storage_type: Option<String>,
    pub path: Option<String>,
}

/// A chat message.
pub struct ChatMessage {
    pub role: String,
    pub content: String,
}

/// One event of a streamed chat.
pub struct StreamChatResponse {
    pub token: Option<String>,
    pub done: bool,
    pub error: Option<String>,
}

/// A request to ingest a file or directory.
pub struct IngestRequest {
    pub path: String,
    /// File extensions to include, e.g. `md`.
    pub extensions: Option<Vec<String>>,
    /// Whether to scan directories recursively.
    pub recursive: bool,
}

/// Whether directories are scanned recursively when a request does not say.
pub fn default_recursive() -> (r: bool)
    ensures
        r == true,
{
    true
}

pub struct IngestResponse {
    pub success: bool,
    pub pages_processed: usize,
    pub chunks_created: usize,
    pub error: Option<String>,
}

pub struct ConfigRequest {
    pub project_path: String,
}

pub struct ConfigResponse {
    pub config: Option<LlmConfigFile>,
    pub error: Option<String>,
}

pub struct SaveConfigRequest {
    pub project_path: String,
    pub config: LlmConfigFile,
}

pub struct SaveConfigResponse {
    pub success: bool,
    pub error: Option<String>,
}

pub struct HealthResponse {
    pub status: String,
    pub version: String,
}

pub struct ErrorResponse {
    pub error: String,
}

pub struct InitConfigRequest {
    /// A project path; the user configuration directory when absent.
    pub project_path: Option<String>,
}

pub struct InitConfigResponse {
    pub success: bool,
    pub config_path: String,
    pub error: Option<String>,
}

/// A request to list the wiki pages.
pub struct ListPagesRequest {
    pub scope: Option<String>,
    pub project: Option<String>,
}

pub struct ListPagesResponse {
    pub pages: Vec<WikiPageInfo>,
    pub total: usize,
}

/// A wiki page in a listing.
pub struct WikiPageInfo {
    pub path: String,
    pub title: String,
    pub size: Option<u64>,
    pub modified: Option<String>,
}

/// A request to read one page, by its path under `.wiki/`.
pub struct ReadPageRequest {
    pub path: String,
    pub scope: Option<String>,
    pub project: Option<String>,
}

/// A keyword search request.
pub struct KeywordSearchRequest {
    pub query: String,
    pub scope: Option<String>,
    pub project: Option<String>,
}

/// The number of results of a semantic search when a request does not say.
pub fn default_top_k() -> (r: usize)
    ensures
        r == 10,
{
    10
}

pub struct GetGraphRequest {
    pub scope: Option<String>,
    pub project: Option<String>,
}

pub struct GetGraphResponse {
    pub nodes: Vec<GraphNode>,
    pub edges: Vec<GraphEdge>,
}

/// A node of the knowledge graph as the API shows it.
pub struct GraphNode {
    pub id: String,
    pub label: String,
    pub page_path: Option<String>,
}

/// An edge of the knowledge graph as the API shows it.
pub struct GraphEdge {
    pub source: String,
    pub target: String,
    pub relation: String,
}

/// A request for graph insights: `isolated`, `surprising`, `bridges`, `stats` or `all`.
pub struct GraphInsightsRequest {
    pub analysis_type: String,
    pub scope: Option<String>,
    pub project: Option<String>,
}

/// The analysis of graph insights when a request does not say.
pub fn default_analysis_type() -> (r: String)
    ensures
        r@ == "all"@,
{
    owned("all")
}

/// A deep research request.
pub struct DeepResearchRequest {
    pub query: String,
    pub max_depth: usize,
    pub max_results: usize,
    pub scope: Option<String>,
    pub project: Option<String>,
}

/// The traversal depth of deep research when a request does not say.
pub fn default_max_depth() -> (r: usize)
    ensures
        r == 3,
{
    3
}

/// The number of pages of deep research when a request does not say.
pub fn default_max_results() -> (r: usize)
    ensures
        r == 10,
{
    10
}

pub struct DeepResearchResponse {
    pub summary: String,
    pub pages: Vec<String>,
    pub connections: Vec<(String, String)>,
}

pub struct GetIndexRequest {
    pub scope: Option<String>,
    pub project: Option<String>,
}

pub struct GetIndexResponse {
    pub content: String,
}

pub struct GetOverviewRequest {
    pub scope: Option<String>,
    pub project: Option<String>,
}

pub struct GetOverviewResponse {
    pub content: String,
}

pub struct GetPurposeRequest {
    pub scope: Option<String>,
    pub project: Option<String>,
}

pub struct GetPurposeResponse {
    pub content: String,
}

} // verus!
