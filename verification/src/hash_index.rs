use vstd::prelude::*;

use sha2::{Digest, Sha256};

use crate::keyed::{kmap, lemma_kmap_at, lemma_kmap_dom, lemma_kmap_len, lemma_kmap_push, lemma_kmap_remove, lemma_kmap_update, unique_keys};
use crate::storage_types::HashIndexEntry;
use crate::text::{owned, same_text};

verus! {

/// The SHA-256 digest of the UTF-8 bytes of a text, as 64 lower-case hex digits.
pub uninterp spec fn sha256_hex(text: Seq<char>) -> Seq<char>;

pub open spec fn is_lower_hex(c: char) -> bool {
    ('0' <= c && c <= '9') || ('a' <= c && c <= 'f')
}

/// Calls `sha2::Sha256` on the UTF-8 bytes of `content` and formats the digest with
/// `{:x}`; claims the result is `sha256_hex` of the content, 64 lower-case hex digits
/// (the 32 bytes of the digest, two digits each).
#[verifier::external_body]
fn sha256_hex_of(content: &str) -> (r: String)
    ensures
        r@ == sha256_hex(content@),
        r@.len() == 64,
        forall|i: int| 0 <= i < r@.len() ==> is_lower_hex(#[trigger] r@[i]),
{
    let mut hasher = Sha256::new();
    hasher.update(content.as_bytes());
    format!("{:x}", hasher.finalize())
}

/// The content hash of a text: its SHA-256 in hex.
pub fn compute_content_hash(content: &str) -> (r: String)
    ensures
        r@ == sha256_hex(content@),
        r@.len() == 64,
        forall|i: int| 0 <= i < r@.len() ==> is_lower_hex(#[trigger] r@[i]),
{
    sha256_hex_of(content)
}

/// What the index holds for a content hash: vector id, reference count, creation time.
pub type HashEntryView = (Seq<char>, nat, Seq<char>);

pub open spec fn entry_key_view(e: HashIndexEntry) -> (Seq<char>, HashEntryView) {
    (e.content_hash@, (e.vector_id@, e.ref_count as nat, e.created_at@))
}

pub open spec fn entries_view(v: Seq<HashIndexEntry>) -> Seq<(Seq<char>, HashEntryView)> {
    v.map_values(|e: HashIndexEntry| entry_key_view(e))
}

/// The index from content hash to vector: which vector holds a content, and how many
/// chunks refer to it.
pub struct HashIndex {
    entries: Vec<HashIndexEntry>,
    version: String,
    db_path: String,
}

/// The index after a new content hash is stored with its vector: one reference.
pub open spec fn index_insert(m: Map<Seq<char>, HashEntryView>, h: Seq<char>, v: Seq<char>, t: Seq<char>) -> Map<Seq<char>, HashEntryView> {
    m.insert(h, (v, 1, t))
}

/// The index after one more reference to `h`; unchanged when `h` is absent.
pub open spec fn index_increment(m: Map<Seq<char>, HashEntryView>, h: Seq<char>) -> Map<Seq<char>, HashEntryView> {
    if m.dom().contains(h) {
        m.insert(h, (m[h].0, m[h].1 + 1, m[h].2))
    } else {
        m
    }
}

/// The index after one reference fewer to `h`, and the vector id when that was the last
/// reference (the entry is then gone); unchanged when `h` is absent.
pub open spec fn index_decrement(m: Map<Seq<char>, HashEntryView>, h: Seq<char>) -> (Map<Seq<char>, HashEntryView>, Option<Seq<char>>) {
    if !m.dom().contains(h) {
        (m, None)
    } else if m[h].1 <= 1 {
        (m.remove(h), Some(m[h].0))
    } else {
        (m.insert(h, (m[h].0, (m[h].1 - 1) as nat, m[h].2)), None)
    }
}

/// Every count in the index is at least 1.
pub open spec fn counts_positive(m: Map<Seq<char>, HashEntryView>) -> bool {
    forall|h: Seq<char>| #[trigger] m.dom().contains(h) ==> m[h].1 >= 1
}

/// Law: storing a hash, adding a reference and taking one away each keep every count at
/// least 1; an index made by `new` starts empty, so along any sequence of these calls
/// the count of a hash (as `get_ref_count` gives it) is 0 exactly when the hash is absent.
pub proof fn lemma_counts_stay_positive(m: Map<Seq<char>, HashEntryView>, h: Seq<char>, v: Seq<char>, t: Seq<char>)
    requires
        counts_positive(m),
    ensures
        counts_positive(index_insert(m, h, v, t)),
        counts_positive(index_increment(m, h)),
        counts_positive(index_decrement(m, h).0),
        ((if m.dom().contains(h) { m[h].1 } else { 0 }) == 0) <==> !m.dom().contains(h),
{
}


impl View for HashIndex {
    type V = Map<Seq<char>, HashEntryView>;

    closed spec fn view(&self) -> Map<Seq<char>, HashEntryView> {
        kmap(entries_view(self.entries@))
    }
}

impl HashIndex {
    #[verifier::type_invariant]
    spec fn wf(self) -> bool {
        unique_keys(entries_view(self.entries@))
    }

    pub closed spec fn db_path_spec(self) -> Seq<char> {
        self.db_path@
    }

    /// The version of the stored format.
    pub closed spec fn version_spec(self) -> Seq<char> {
        self.version@
    }

    /// An empty index that is saved at `db_path`.
    pub fn new(db_path: String) -> (r: Self)
        ensures
            r@ == Map::<Seq<char>, HashEntryView>::empty(),
            r.db_path_spec() == db_path@,
            r.version_spec() == "1.0"@,
    {
        let r = HashIndex { entries: Vec::new(), version: owned("1.0"), db_path };
        proof {
            assert(entries_view(r.entries@) =~= Seq::<(Seq<char>, HashEntryView)>::empty());
        }
        r
    }

    /// The index that holds `entries`, a later entry for the same hash replacing an
    /// earlier one, as a map read from storage gives them.
    pub fn from_entries(db_path: String, version: String, entries: Vec<HashIndexEntry>) -> (r: Self)
        ensures
            r@ == kmap(entries_view(entries@)),
            r.db_path_spec() == db_path@,
            r.version_spec() == version@,
    {
        let ghost v = version@;
        let mut r = HashIndex { entries: Vec::new(), version, db_path };
        proof {
            assert(entries_view(r.entries@) =~= Seq::<(Seq<char>, HashEntryView)>::empty());
        }
        let mut es = entries;
        let ghost ev = entries_view(es@);
        let mut i: usize = 0;
        while i < es.len()
            invariant
                i <= es.len(),
                ev == entries_view(es@),
                r@ == kmap(ev.take(i as int)),
                r.db_path_spec() == db_path@,
                r.version_spec() == v,
            decreases es.len() - i,
        {
            let e = &es[i];
            proof {
                assert(ev.take(i + 1).drop_last() =~= ev.take(i as int));
                assert(ev[i as int] == entry_key_view(*e));
            }
            r.insert_entry(HashIndexEntry {
                content_hash: e.content_hash.clone(),
                vector_id: e.vector_id.clone(),
                ref_count: e.ref_count,
                created_at: e.created_at.clone(),
            });
            i = i + 1;
        }
        proof {
            assert(ev.take(es.len() as int) =~= ev);
        }
        r
    }

    fn find(&self, content_hash: &str) -> (r: Option<usize>)
        ensures
            match r {
                Some(i) => i < self.entries.len() && self.entries@[i as int].content_hash@ == content_hash@,
                None => !self@.dom().contains(content_hash@),
            },
    {
        let key = owned(content_hash);
        let mut i: usize = 0;
        while i < self.entries.len()
            invariant
                i <= self.entries.len(),
                key@ == content_hash@,
                forall|j: int| 0 <= j < i ==> #[trigger] self.entries@[j].content_hash@ != content_hash@,
            decreases self.entries.len() - i,
        {
            if same_text(&self.entries[i].content_hash, &key) {
                return Some(i);
            }
            i = i + 1;
        }
        proof {
            lemma_kmap_dom(entries_view(self.entries@), content_hash@);
            assert forall|j: int| 0 <= j < self.entries.len() implies #[trigger] entries_view(self.entries@)[j].0 != content_hash@ by {
                assert(entries_view(self.entries@)[j] == entry_key_view(self.entries@[j]));
            }
        }
        None
    }

    proof fn lemma_at(&self, i: int)
        requires
            self.wf(),
            0 <= i < self.entries.len(),
        ensures
            self@.dom().contains(self.entries@[i].content_hash@),
            self@[self.entries@[i].content_hash@] == entry_key_view(self.entries@[i]).1,
    {
        assert(entries_view(self.entries@)[i] == entry_key_view(self.entries@[i]));
        lemma_kmap_at(entries_view(self.entries@), i);
    }

    fn insert_entry(&mut self, e: HashIndexEntry)
        ensures
            final(self)@ == old(self)@.insert(e.content_hash@, entry_key_view(e).1),
            final(self).db_path_spec() == old(self).db_path_spec(),
            final(self).version_spec() == old(self).version_spec(),
    {
        proof {
            use_type_invariant(&*self);
        }
        let ghost ev = entries_view(self.entries@);
        let found = self.find(e.content_hash.as_str());
        let mut es: Vec<HashIndexEntry> = Vec::new();
        proof {
            assert(entries_view(es@) =~= Seq::<(Seq<char>, HashEntryView)>::empty());
        }
        std::mem::swap(&mut es, &mut self.entries);
        match found {
            Some(i) => {
                proof {
                    assert(ev[i as int] == entry_key_view(es@[i as int]));
                    lemma_kmap_update(ev, i as int, entry_key_view(e).1);
                }
                es.set(i, e);
                proof {
                    assert(entries_view(es@) =~= ev.update(i as int, (ev[i as int].0, entry_key_view(e).1)));
                }
            },
            None => {
                proof {
                    lemma_kmap_push(ev, e.content_hash@, entry_key_view(e).1);
                }
                es.push(e);
                proof {
                    assert(entries_view(es@) =~= ev.push(entry_key_view(e)));
                }
            },
        }
        self.entries = es;
    }

    /// The entry of a content hash.
    pub fn get(&self, content_hash: &str) -> (r: Option<&HashIndexEntry>)
        ensures
            match r {
                Some(e) => self@.dom().contains(content_hash@) && e.content_hash@ == content_hash@
                    && self@[content_hash@] == entry_key_view(*e).1,
                None => !self@.dom().contains(content_hash@),
            },
    {
        match self.find(content_hash) {
            Some(i) => {
                proof {
                    use_type_invariant(self);
                    self.lemma_at(i as int);
                }
                Some(&self.entries[i])
            },
            None => None,
        }
    }

    /// Stores a new content hash with its vector and one reference, created now.
    pub fn insert(&mut self, content_hash: String, vector_id: String)
        ensures
            exists|t: Seq<char>| final(self)@ == index_insert(old(self)@, content_hash@, vector_id@, t),
            final(self).db_path_spec() == old(self).db_path_spec(),
            final(self).version_spec() == old(self).version_spec(),
    {
        let created_at = crate::clock::now_rfc3339();
        let ghost t = created_at@;
        self.insert_entry(HashIndexEntry { content_hash, vector_id, ref_count: 1, created_at });
        proof {
            assert(self@ == index_insert(old(self)@, content_hash@, vector_id@, t));
        }
    }

    /// One more reference to a content hash; nothing when it is absent.
    pub fn increment_ref(&mut self, content_hash: &str)
        requires
            old(self)@.dom().contains(content_hash@) ==> old(self)@[content_hash@].1 < usize::MAX,
        ensures
            final(self)@ == index_increment(old(self)@, content_hash@),
            final(self).db_path_spec() == old(self).db_path_spec(),
            final(self).version_spec() == old(self).version_spec(),
    {
        proof {
            use_type_invariant(&*self);
        }
        match self.find(content_hash) {
            Some(i) => {
                proof {
                    self.lemma_at(i as int);
                }
                let e = &self.entries[i];
                let ne = HashIndexEntry {
                    content_hash: e.content_hash.clone(),
                    vector_id: e.vector_id.clone(),
                    ref_count: e.ref_count + 1,
                    created_at: e.created_at.clone(),
                };
                self.insert_entry(ne);
            },
            None => {},
        }
    }

    /// One reference fewer to a content hash; at none left the entry goes and its vector
    /// id is returned. Nothing happens when the hash is absent.
    pub fn decrement_ref(&mut self, content_hash: &str) -> (r: Option<String>)
        ensures
            (final(self)@, match r {
                Some(v) => Some(v@),
                None => None,
            }) == index_decrement(old(self)@, content_hash@),
            final(self).db_path_spec() == old(self).db_path_spec(),
            final(self).version_spec() == old(self).version_spec(),
    {
        proof {
            use_type_invariant(&*self);
        }
        match self.find(content_hash) {
            Some(i) => {
                proof {
                    self.lemma_at(i as int);
                }
                let e = &self.entries[i];
                let count = if e.ref_count > 0 { e.ref_count - 1 } else { 0 };
                if count == 0 {
                    let ghost ev = entries_view(self.entries@);
                    let mut es: Vec<HashIndexEntry> = Vec::new();
                    proof {
                        assert(entries_view(es@) =~= Seq::<(Seq<char>, HashEntryView)>::empty());
                    }
                    std::mem::swap(&mut es, &mut self.entries);
                    proof {
                        assert(ev[i as int] == entry_key_view(es@[i as int]));
                        lemma_kmap_remove(ev, i as int);
                    }
                    let removed = es.remove(i);
                    proof {
                        assert(entries_view(es@) =~= ev.remove(i as int));
                    }
                    self.entries = es;
                    Some(removed.vector_id)
                } else {
                    let ne = HashIndexEntry {
                        content_hash: e.content_hash.clone(),
                        vector_id: e.vector_id.clone(),
                        ref_count: count,
                        created_at: e.created_at.clone(),
                    };
                    self.insert_entry(ne);
                    None
                }
            },
            None => None,
        }
    }

    /// The number of references to a content hash; 0 when absent.
    pub fn get_ref_count(&self, content_hash: &str) -> (r: usize)
        ensures
            r == (if self@.dom().contains(content_hash@) { self@[content_hash@].1 } else { 0 }),
    {
        match self.get(content_hash) {
            Some(e) => e.ref_count,
            None => 0,
        }
    }

    /// The index holds finitely many content hashes.
    pub proof fn lemma_finite(&self)
        ensures
            self@.dom().finite(),
    {
        lemma_kmap_dom(entries_view(self.entries@), Seq::empty());
    }

    /// The number of content hashes held.
    pub fn total_entries(&self) -> (r: usize)
        ensures
            r == self@.dom().len(),
    {
        proof {
            use_type_invariant(self);
            lemma_kmap_len(entries_view(self.entries@));
        }
        self.entries.len()
    }

    /// The entries, to be saved.
    pub fn entries(&self) -> (r: &Vec<HashIndexEntry>)
        ensures
            kmap(entries_view(r@)) == self@,
    {
        &self.entries
    }

    /// The version of the stored format.
    pub fn version(&self) -> (r: &String)
        ensures
            r@ == self.version_spec(),
    {
        &self.version
    }

    /// Where the index is saved.
    pub fn db_path(&self) -> (r: &String)
        ensures
            r@ == self.db_path_spec(),
    {
        &self.db_path
    }
}

/// Law: one more reference and then one fewer leaves the index as it was, when the hash
/// is present.
pub proof fn lemma_increment_then_decrement(m: Map<Seq<char>, HashEntryView>, h: Seq<char>)
    requires
        m.dom().contains(h),
        m[h].1 >= 1,
    ensures
        index_decrement(index_increment(m, h), h) == (m, None::<Seq<char>>),
{
    let m1 = index_increment(m, h);
    assert(m1[h].1 == m[h].1 + 1);
    assert(index_decrement(m1, h).0 =~= m);
}

/// Law: a content hash stored with its vector is found with that vector and one
/// reference, and its last reference returns that vector and removes it.
pub proof fn lemma_insert_then_release(m: Map<Seq<char>, HashEntryView>, h: Seq<char>, v: Seq<char>, t: Seq<char>)
    ensures
        index_insert(m, h, v, t)[h] == (v, 1nat, t),
        index_decrement(index_insert(m, h, v, t), h) == (index_insert(m, h, v, t).remove(h), Some(v)),
        forall|k: Seq<char>| k != h ==> (#[trigger] index_insert(m, h, v, t).dom().contains(k)) == m.dom().contains(k),
{
}

} // verus!
