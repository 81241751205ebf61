use vstd::prelude::*;

use std::collections::HashMap;

use crate::text::{append_chars, chars_of, owned, string_of};

verus! {

/// The global registry of projects, as stored: project id to project information.
pub struct ProjectRegistry {
    pub projects: HashMap<String, ProjectInfo>,
    pub version: String,
}

/// A registered project.
pub struct ProjectInfo {
    pub name: String,
    pub path: String,
    /// Creation time (RFC 3339).
    pub created_at: String,
    /// Last access time (RFC 3339).
    pub last_accessed: String,
    pub stats: ProjectStats,
}

/// Statistics of a project.
#[derive(Clone, Copy)]
pub struct ProjectStats {
    pub page_count: usize,
    pub chunk_count: usize,
    /// Unique vectors after deduplication.
    pub unique_vector_count: usize,
    /// Disk usage in bytes.
    pub disk_usage: u64,
}

impl Default for ProjectStats {
    fn default() -> (r: Self)
        ensures
            r.page_count == 0,
            r.chunk_count == 0,
            r.unique_vector_count == 0,
            r.disk_usage == 0,
    {
        ProjectStats { page_count: 0, chunk_count: 0, unique_vector_count: 0, disk_usage: 0 }
    }
}

/// An entry of the content-hash index.
pub struct HashIndexEntry {
    /// SHA-256 of the content, in hex.
    pub content_hash: String,
    pub vector_id: String,
    pub ref_count: usize,
    pub created_at: String,
}

/// Chunk id to content hash.
pub struct ChunkMapping {
    pub mappings: HashMap<String, String>,
    pub version: String,
}

/// The paths of the global storage, all under one root.
pub struct GlobalStoragePaths {
    pub root: String,
    pub vectors: String,
    pub hash_index: String,
    pub graph: String,
    pub projects: String,
    pub registry: String,
    pub cache: String,
    pub locks: String,
    pub logs: String,
}

fn joined(a: &str, b: &str) -> (r: String)
    ensures
        r@ == a@ + b@,
{
    let mut v = chars_of(a);
    append_chars(&mut v, &chars_of(b));
    string_of(&v)
}

impl GlobalStoragePaths {
    /// The paths under `root`.
    pub fn new(root: String) -> (r: Self)
        ensures
            r.root@ == root@,
            r.vectors@ == root@ + "/.vectors/.store"@,
            r.hash_index@ == root@ + "/.vectors/.hash_index.db"@,
            r.graph@ == root@ + "/.graph/.store"@,
            r.projects@ == root@ + "/.projects"@,
            r.registry@ == root@ + "/.projects/.registry.json"@,
            r.cache@ == root@ + "/.cache"@,
            r.locks@ == root@ + "/.locks"@,
            r.logs@ == root@ + "/.logs"@,
    {
        GlobalStoragePaths {
            vectors: joined(root.as_str(), "/.vectors/.store"),
            hash_index: joined(root.as_str(), "/.vectors/.hash_index.db"),
            graph: joined(root.as_str(), "/.graph/.store"),
            projects: joined(root.as_str(), "/.projects"),
            registry: joined(root.as_str(), "/.projects/.registry.json"),
            cache: joined(root.as_str(), "/.cache"),
            locks: joined(root.as_str(), "/.locks"),
            logs: joined(root.as_str(), "/.logs"),
            root,
        }
    }

    /// The directory of a project: `<projects>/.<id>`.
    pub fn project_dir(&self, project_id: &str) -> (r: String)
        ensures
            r@ == self.projects@ + "/."@ + project_id@,
    {
        joined(joined(self.projects.as_str(), "/.").as_str(), project_id)
    }

    /// The wiki directory of a project.
    pub fn project_wiki(&self, project_id: &str) -> (r: String)
        ensures
            r@ == self.projects@ + "/."@ + project_id@ + "/.wiki"@,
    {
        joined(self.project_dir(project_id).as_str(), "/.wiki")
    }

    /// The metadata directory of a project.
    pub fn project_meta(&self, project_id: &str) -> (r: String)
        ensures
            r@ == self.projects@ + "/."@ + project_id@ + "/.meta"@,
    {
        joined(self.project_dir(project_id).as_str(), "/.meta")
    }

    /// The information file of a project.
    pub fn project_info(&self, project_id: &str) -> (r: String)
        ensures
            r@ == self.projects@ + "/."@ + project_id@ + "/.info.json"@,
    {
        joined(self.project_dir(project_id).as_str(), "/.info.json")
    }

    /// The chunk mapping file of a project.
    pub fn project_chunks(&self, project_id: &str) -> (r: String)
        ensures
            r@ == self.projects@ + "/."@ + project_id@ + "/.meta"@ + "/.chunks.json"@,
    {
        joined(self.project_meta(project_id).as_str(), "/.chunks.json")
    }

    /// The reference database of a project.
    pub fn project_refs(&self, project_id: &str) -> (r: String)
        ensures
            r@ == self.projects@ + "/."@ + project_id@ + "/.refs.db"@,
    {
        joined(self.project_dir(project_id).as_str(), "/.refs.db")
    }
}

/// The marker file of a project: its id and the format version.
pub struct ProjectMarker {
    pub id: String,
    pub v: String,
}

impl ProjectMarker {
    pub fn new(id: String) -> (r: Self)
        ensures
            r.id@ == id@,
            r.v@ == "1.0"@,
    {
        ProjectMarker { id, v: owned("1.0") }
    }
}

/// The outcome of storing a chunk's vector: an existing vector reused, or a new one.
pub enum DeduplicationResult {
    Reused { vector_id: String, content_hash: String },
    Created { vector_id: String, content_hash: String },
}

impl DeduplicationResult {
    pub open spec fn vector_id_spec(&self) -> Seq<char> {
        match self {
            DeduplicationResult::Reused { vector_id, .. } => vector_id@,
            DeduplicationResult::Created { vector_id, .. } => vector_id@,
        }
    }

    pub open spec fn content_hash_spec(&self) -> Seq<char> {
        match self {
            DeduplicationResult::Reused { content_hash, .. } => content_hash@,
            DeduplicationResult::Created { content_hash, .. } => content_hash@,
        }
    }

    /// The vector id.
    pub fn vector_id(&self) -> (r: &str)
        ensures
            r@ == self.vector_id_spec(),
    {
        match self {
            DeduplicationResult::Reused { vector_id, .. } => vector_id.as_str(),
            DeduplicationResult::Created { vector_id, .. } => vector_id.as_str(),
        }
    }

    /// The content hash.
    pub fn content_hash(&self) -> (r: &str)
        ensures
            r@ == self.content_hash_spec(),
    {
        match self {
            DeduplicationResult::Reused { content_hash, .. } => content_hash.as_str(),
            DeduplicationResult::Created { content_hash, .. } => content_hash.as_str(),
        }
    }

    /// Whether an existing vector was reused.
    pub fn is_reused(&self) -> (r: bool)
        ensures
            r == (self is Reused),
    {
        match self {
            DeduplicationResult::Reused { .. } => true,
            DeduplicationResult::Created { .. } => false,
        }
    }
}

} // verus!
