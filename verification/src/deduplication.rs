use vstd::prelude::*;

use std::collections::HashMap;

use crate::hash_index::{compute_content_hash, index_decrement, index_insert, sha256_hex, HashEntryView, HashIndex};
use crate::ref_counter::{
    add_ref_spec, counter_ok, lemma_remove_ref_keeps, project_refs, remove_all_spec, remove_ref_spec, CountView, RefCounter,
    RefView,
};
use crate::storage_types::DeduplicationResult;
use crate::text::owned;

verus! {

/// Calls `uuid::Uuid::new_v4` and formats it: a fresh random vector id. It is random, so
/// only its hyphenated length of 36 characters is claimed.
#[verifier::external_body]
fn new_vector_id() -> (r: String)
    ensures
        r@.len() == 36,
{
    uuid::Uuid::new_v4().to_string()
}

/// The index and the counter agree: the same content hashes, the same vector ids, and
/// one index reference per hash.
pub open spec fn dedup_ok(index: Map<Seq<char>, HashEntryView>, counts: Map<Seq<char>, CountView>) -> bool {
    &&& index.dom() == counts.dom()
    &&& forall|h: Seq<char>| #[trigger] index.dom().contains(h) ==> index[h].1 == 1 && index[h].0 == counts[h].1
}

/// Storing content with hash `h`: an indexed hash is reused with its vector, a new one
/// is indexed with the fresh vector id `fresh` made at time `t`. The index after, the
/// vector id, and whether it was reused.
pub open spec fn store_spec(m: Map<Seq<char>, HashEntryView>, h: Seq<char>, fresh: Seq<char>, t: Seq<char>) -> (Map<Seq<char>, HashEntryView>, Seq<char>, bool) {
    if m.dom().contains(h) {
        (m, m[h].0, true)
    } else {
        (index_insert(m, h, fresh, t), fresh, false)
    }
}

/// Counts for the deduplication statistics.
pub struct DeduplicationCounts {
    pub total_chunks: usize,
    pub unique_vectors: usize,
    /// Vectors with more than one reference.
    pub reused_vectors: usize,
    pub hash_index_size: usize,
    pub ref_distribution: HashMap<u32, usize>,
}

/// A consistency report of the deduplication store.
pub struct IntegrityReport {
    pub orphaned_refs: Vec<String>,
    pub hash_index_count: usize,
    pub ref_counter_count: usize,
    pub has_mismatch: bool,
}

/// Stores each distinct content once: chunks with the same content share one vector.
pub struct VectorDeduplicator {
    hash_index: HashIndex,
    ref_counter: RefCounter,
}

impl VectorDeduplicator {
    pub closed spec fn index(self) -> Map<Seq<char>, HashEntryView> {
        self.hash_index@
    }

    pub closed spec fn refs(self) -> Seq<RefView> {
        self.ref_counter.refs()
    }

    pub closed spec fn counts(self) -> Map<Seq<char>, CountView> {
        self.ref_counter.counts()
    }

    /// The count rows of the counter.
    pub closed spec fn count_entries(self) -> Seq<(Seq<char>, CountView)> {
        self.ref_counter.count_entries()
    }

    /// A deduplicator over the given index and counter.
    pub fn new(hash_index: HashIndex, ref_counter: RefCounter) -> (r: Self)
        ensures
            r.index() == hash_index@,
            r.refs() == ref_counter.refs(),
            r.counts() == ref_counter.counts(),
    {
        VectorDeduplicator { hash_index, ref_counter }
    }

    /// The content hash of a text: its SHA-256 in hex.
    pub fn compute_content_hash(content: &str) -> (r: String)
        ensures
            r@ == sha256_hex(content@),
    {
        compute_content_hash(content)
    }

    /// Stores a chunk's content: reuses the vector of content stored before, or makes a
    /// new one; records the chunk's reference either way. Fails, changing nothing, when
    /// the vector's reference count cannot grow.
    pub fn check_or_create(&mut self, content: &str, project_id: &str, chunk_id: &str) -> (r: Result<DeduplicationResult, String>)
        ensures
            r is Err <==> (old(self).counts().dom().contains(sha256_hex(content@)) && old(self).counts()[sha256_hex(content@)].0 == usize::MAX),
            r is Err ==> final(self).refs() == old(self).refs() && final(self).counts() == old(self).counts(),
            r is Err && old(self).index().dom().contains(sha256_hex(content@)) ==> final(self).index() == old(self).index(),
            r matches Ok(d) ==> {
                let h = sha256_hex(content@);
                &&& d.content_hash_spec() == h
                &&& exists|t: Seq<char>| (final(self).index(), d.vector_id_spec(), d is Reused) == store_spec(old(self).index(), h, d.vector_id_spec(), t)
                &&& (final(self).refs(), final(self).counts()) == add_ref_spec(old(self).refs(), old(self).counts(), (h, project_id@, chunk_id@), d.vector_id_spec())
            },
            dedup_ok(old(self).index(), old(self).counts()) && r is Ok ==> dedup_ok(final(self).index(), final(self).counts()),
    {
        let content_hash = compute_content_hash(content);
        let found = match self.hash_index.get(content_hash.as_str()) {
            Some(entry) => Some(entry.vector_id.clone()),
            None => None,
        };
        match found {
            Some(vector_id) => {
                let added = self.ref_counter.add_ref(content_hash.as_str(), project_id, chunk_id, vector_id.as_str());
                match added {
                    Ok(()) => {
                        proof {
                            let t = self.index()[content_hash@].2;
                            assert(store_spec(old(self).index(), content_hash@, vector_id@, t) == (self.index(), vector_id@, true));
                            if dedup_ok(old(self).index(), old(self).counts()) {
                                assert(self.index().dom() =~= self.counts().dom());
                            }
                        }
                        Ok(DeduplicationResult::Reused { vector_id, content_hash })
                    },
                    Err(e) => Err(e),
                }
            },
            None => {
                let vector_id = new_vector_id();
                self.hash_index.insert(content_hash.clone(), vector_id.clone());
                let ghost t = choose|t: Seq<char>| self.hash_index@ == index_insert(old(self).index(), content_hash@, vector_id@, t);
                let added = self.ref_counter.add_ref(content_hash.as_str(), project_id, chunk_id, vector_id.as_str());
                match added {
                    Ok(()) => {
                        proof {
                            assert(store_spec(old(self).index(), content_hash@, vector_id@, t) == (self.index(), vector_id@, false));
                            if dedup_ok(old(self).index(), old(self).counts()) {
                                assert(!old(self).counts().dom().contains(content_hash@));
                                assert(self.index().dom() =~= self.counts().dom());
                            }
                        }
                        Ok(DeduplicationResult::Created { vector_id, content_hash })
                    },
                    Err(e) => Err(e),
                }
            },
        }
    }
}

/// Removing references in turn keeps the index and the counter in agreement, when
/// the counter starts consistent.
pub proof fn lemma_remove_all_keeps_dedup(
    refs: Seq<RefView>,
    counts: Map<Seq<char>, CountView>,
    index: Map<Seq<char>, HashEntryView>,
    p: Seq<char>,
    rs: Seq<(Seq<char>, Seq<char>)>,
)
    requires
        counter_ok(refs, counts),
        dedup_ok(index, counts),
    ensures
        dedup_ok(index_decrement_all(index, remove_all_spec(refs, counts, p, rs).2), remove_all_spec(refs, counts, p, rs).1),
        counter_ok(remove_all_spec(refs, counts, p, rs).0, remove_all_spec(refs, counts, p, rs).1),
    decreases rs.len(),
{
    if rs.len() > 0 {
        lemma_remove_all_keeps_dedup(refs, counts, index, p, rs.drop_last());
        let (r1, c1, out1) = remove_all_spec(refs, counts, p, rs.drop_last());
        let idx1 = index_decrement_all(index, out1);
        let h = rs.last().0;
        let t = (h, p, rs.last().1);
        lemma_remove_ref_keeps(r1, c1, t);
        let (r2, c2, del) = remove_ref_spec(r1, c1, t);
        if r1.contains(t) {
            let k = choose|k: int| 0 <= k < r1.len() && r1[k] == t;
            assert(c1.dom().contains(r1[k].0));
            assert(c1.dom().contains(h));
            assert(idx1.dom().contains(h));
        }
        if del {
            let out2 = out1.push(h);
            assert(out2.drop_last() =~= out1);
            let idx2 = index_decrement_all(index, out2);
            assert(idx2 == index_decrement(idx1, h).0);
            assert(idx2.dom() =~= c2.dom());
        } else {
            assert(idx1.dom() =~= c2.dom());
        }
    }
}

/// The index after each hash of `hs` in turn loses a reference.
pub open spec fn index_decrement_all(m: Map<Seq<char>, HashEntryView>, hs: Seq<Seq<char>>) -> Map<Seq<char>, HashEntryView>
    decreases hs.len(),
{
    if hs.len() == 0 {
        m
    } else {
        index_decrement(index_decrement_all(m, hs.drop_last()), hs.last()).0
    }
}

impl VectorDeduplicator {
    /// Removes a chunk's reference; when its vector lost its last reference, the vector
    /// leaves the index too, and the result is true.
    pub fn remove_chunk(&mut self, content_hash: &str, project_id: &str, chunk_id: &str) -> (r: Result<bool, String>)
        ensures
            r is Ok,
            r matches Ok(b) ==> {
                &&& (final(self).refs(), final(self).counts(), b) == remove_ref_spec(old(self).refs(), old(self).counts(), (content_hash@, project_id@, chunk_id@))
                &&& final(self).index() == if b { index_decrement(old(self).index(), content_hash@).0 } else { old(self).index() }
            },
            dedup_ok(old(self).index(), old(self).counts()) ==> dedup_ok(final(self).index(), final(self).counts()),
    {
        let should_delete = match self.ref_counter.remove_ref(content_hash, project_id, chunk_id) {
            Ok(b) => b,
            Err(e) => {
                return Err(e);
            },
        };
        if should_delete {
            let _ = self.hash_index.decrement_ref(content_hash);
        }
        proof {
            if dedup_ok(old(self).index(), old(self).counts()) {
                assert(self.index().dom() =~= self.counts().dom());
            }
        }
        Ok(should_delete)
    }

    /// Removes every reference of a project; vectors that lost their last reference leave
    /// the index. The hashes of those vectors.
    pub fn remove_project(&mut self, project_id: &str) -> (r: Result<Vec<String>, String>)
        ensures
            r is Ok,
            r matches Ok(v) ==> {
                &&& (final(self).refs(), final(self).counts(), v@.map_values(|s: String| s@)) == remove_all_spec(
                    old(self).refs(),
                    old(self).counts(),
                    project_id@,
                    project_refs(old(self).refs(), project_id@),
                )
                &&& final(self).index() == index_decrement_all(old(self).index(), v@.map_values(|s: String| s@))
            },
            dedup_ok(old(self).index(), old(self).counts()) ==> dedup_ok(final(self).index(), final(self).counts()),
    {
        let ghost i0 = self.index();
        let ghost refs0 = self.refs();
        let ghost counts0 = self.counts();
        let to_delete = match self.ref_counter.remove_project_refs(project_id) {
            Ok(v) => v,
            Err(e) => {
                return Err(e);
            },
        };
        let ghost hs = to_delete@.map_values(|s: String| s@);
        let ghost m0 = self.index();
        let ghost r1 = self.refs();
        let ghost c1 = self.counts();
        let mut i: usize = 0;
        proof {
            assert(hs.take(0) =~= Seq::<Seq<char>>::empty());
        }
        while i < to_delete.len()
            invariant
                i <= to_delete.len(),
                hs == to_delete@.map_values(|s: String| s@),
                self.index() == index_decrement_all(m0, hs.take(i as int)),
                self.refs() == r1,
                self.counts() == c1,
            decreases to_delete.len() - i,
        {
            proof {
                assert(hs.take(i + 1).drop_last() =~= hs.take(i as int));
                assert(hs.take(i + 1).last() == hs[i as int]);
            }
            let _ = self.hash_index.decrement_ref(to_delete[i].as_str());
            i = i + 1;
        }
        proof {
            assert(hs.take(to_delete.len() as int) =~= hs);
            if dedup_ok(i0, counts0) {
                lemma_remove_all_keeps_dedup(refs0, counts0, i0, project_id@, project_refs(refs0, project_id@));
            }
        }
        Ok(to_delete)
    }

    /// The number of references to a content hash, cut to 32 bits.
    pub fn get_ref_count(&self, content_hash: &str) -> (r: Result<u32, String>)
        ensures
            r == Ok::<u32, String>(if self.counts().dom().contains(content_hash@) { self.counts()[content_hash@].0 as u32 } else { 0 }),
    {
        Ok(self.ref_counter.get_ref_count(content_hash))
    }

    /// The vector id of a content hash.
    pub fn get_vector_id(&self, content_hash: &str) -> (r: Result<Option<String>, String>)
        ensures
            r matches Ok(o) && match o {
                Some(v) => self.counts().dom().contains(content_hash@) && v@ == self.counts()[content_hash@].1,
                None => !self.counts().dom().contains(content_hash@),
            },
    {
        Ok(self.ref_counter.get_vector_id(content_hash))
    }

    /// The counts behind the deduplication statistics.
    pub fn get_counts(&self) -> (r: DeduplicationCounts)
        ensures
            r.total_chunks == self.refs().len(),
            r.unique_vectors == self.counts().dom().len(),
            r.reused_vectors == crate::ref_counter::count_above(self.count_entries(), 1),
            r.hash_index_size == self.index().dom().len(),
    {
        let stats = self.ref_counter.get_stats();
        let distribution = self.ref_counter.get_ref_distribution();
        let reused = self.ref_counter.rows_above(1);
        DeduplicationCounts {
            total_chunks: stats.total_refs,
            unique_vectors: stats.unique_vectors,
            reused_vectors: reused,
            hash_index_size: self.hash_index.total_entries(),
            ref_distribution: distribution,
        }
    }

    /// Checks the store: references without a count row, and whether the index and the
    /// counter hold different numbers of vectors.
    pub fn verify_integrity(&self) -> (r: IntegrityReport)
        ensures
            r.orphaned_refs@.len() == 0,
            r.hash_index_count == self.index().dom().len(),
            r.ref_counter_count == self.counts().dom().len(),
            r.has_mismatch == (self.index().dom().len() != self.counts().dom().len()),
    {
        let orphaned_refs = self.ref_counter.verify_integrity();
        let hash_count = self.hash_index.total_entries();
        let ref_count_entries = self.ref_counter.get_stats().unique_vectors;
        IntegrityReport {
            orphaned_refs,
            hash_index_count: hash_count,
            ref_counter_count: ref_count_entries,
            has_mismatch: hash_count != ref_count_entries,
        }
    }
}

/// Law: content stored a second time reuses the vector of the first time, and leaves
/// the index as the first time left it.
pub proof fn lemma_second_store_reuses(m: Map<Seq<char>, HashEntryView>, h: Seq<char>, f1: Seq<char>, t1: Seq<char>, f2: Seq<char>, t2: Seq<char>)
    ensures
        store_spec(store_spec(m, h, f1, t1).0, h, f2, t2).2,
        store_spec(store_spec(m, h, f1, t1).0, h, f2, t2).1 == store_spec(m, h, f1, t1).1,
        store_spec(store_spec(m, h, f1, t1).0, h, f2, t2).0 == store_spec(m, h, f1, t1).0,
{
}

/// Law: while the index and the counter agree, the integrity check finds no mismatch.
pub proof fn lemma_agreement_no_mismatch(index: Map<Seq<char>, HashEntryView>, counts: Map<Seq<char>, CountView>)
    requires
        dedup_ok(index, counts),
    ensures
        index.dom().len() == counts.dom().len(),
{
}

} // verus!
