use vstd::prelude::*;

use crate::hash_index::{compute_content_hash, sha256_hex};
use crate::text::{chars_of, owned, same_text, slice_range, string_of};

verus! {

/// What a migration of old project stores found and did.
#[derive(Debug, Clone)]
pub struct MigrationStats {
    pub projects_found: usize,
    pub projects_migrated: usize,
    pub total_chunks: usize,
    pub unique_vectors: usize,
    pub reused_vectors: usize,
    pub bytes_saved: u64,
}

impl MigrationStats {
    /// The totals of a migration of `projects_found` projects before any has been migrated.
    pub fn start_total(projects_found: usize) -> (r: Self)
        ensures
            r.projects_found == projects_found,
            r.projects_migrated == 0,
            r.total_chunks == 0,
            r.unique_vectors == 0,
            r.reused_vectors == 0,
            r.bytes_saved == 0,
    {
        MigrationStats {
            projects_found,
            projects_migrated: 0,
            total_chunks: 0,
            unique_vectors: 0,
            reused_vectors: 0,
            bytes_saved: 0,
        }
    }

    /// The stats of one project: found, and migrated unless it was a dry run. No vector
    /// data moves yet.
    pub fn single_project(migrated: bool) -> (r: Self)
        ensures
            r.projects_found == 1,
            r.projects_migrated == (if migrated { 1usize } else { 0usize }),
            r.total_chunks == 0,
            r.unique_vectors == 0,
            r.reused_vectors == 0,
            r.bytes_saved == 0,
    {
        MigrationStats {
            projects_found: 1,
            projects_migrated: if migrated { 1 } else { 0 },
            total_chunks: 0,
            unique_vectors: 0,
            reused_vectors: 0,
            bytes_saved: 0,
        }
    }

    /// Adds a project's stats to the totals; the number of projects found stays.
    pub fn accumulate(&mut self, stats: &MigrationStats)
        requires
            old(self).projects_migrated + stats.projects_migrated <= usize::MAX,
            old(self).total_chunks + stats.total_chunks <= usize::MAX,
            old(self).unique_vectors + stats.unique_vectors <= usize::MAX,
            old(self).reused_vectors + stats.reused_vectors <= usize::MAX,
            old(self).bytes_saved + stats.bytes_saved <= u64::MAX,
        ensures
            final(self).projects_found == old(self).projects_found,
            final(self).projects_migrated == old(self).projects_migrated + stats.projects_migrated,
            final(self).total_chunks == old(self).total_chunks + stats.total_chunks,
            final(self).unique_vectors == old(self).unique_vectors + stats.unique_vectors,
            final(self).reused_vectors == old(self).reused_vectors + stats.reused_vectors,
            final(self).bytes_saved == old(self).bytes_saved + stats.bytes_saved,
    {
        self.projects_migrated = self.projects_migrated + stats.projects_migrated;
        self.total_chunks = self.total_chunks + stats.total_chunks;
        self.unique_vectors = self.unique_vectors + stats.unique_vectors;
        self.reused_vectors = self.reused_vectors + stats.reused_vectors;
        self.bytes_saved = self.bytes_saved + stats.bytes_saved;
    }
}

/// The id of a project: the first sixteen hex digits of the SHA-256 of its
/// canonical path.
pub fn generate_project_id(canonical_path: &str) -> (r: String)
    ensures
        r@ == sha256_hex(canonical_path@).take(16),
        r@.len() == 16,
{
    let h = compute_content_hash(canonical_path);
    let cs = chars_of(h.as_str());
    let id = slice_range(&cs, 0, 16);
    proof {
        assert(id@ =~= sha256_hex(canonical_path@).take(16));
    }
    string_of(&id)
}

/// A directory that a scan for old project stores passes over: a hidden one (its name
/// begins with a dot), `node_modules` or `target`.
pub open spec fn skipped_dir_name(name: Seq<char>) -> bool {
    ||| (name.len() > 0 && name[0] == '.')
    ||| name == "node_modules"@
    ||| name == "target"@
}

/// Whether a scan for old project stores passes over the directory named `name`.
pub fn skips_directory(name: &str) -> (r: bool)
    ensures
        r == skipped_dir_name(name@),
{
    let cs = chars_of(name);
    if cs.len() > 0 && cs[0] == '.' {
        return true;
    }
    let n = owned(name);
    same_text(&n, &owned("node_modules")) || same_text(&n, &owned("target"))
}

} // verus!
