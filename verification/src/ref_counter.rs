use vstd::prelude::*;

use std::collections::HashMap;

use crate::keyed::{kmap, lemma_kmap_at, lemma_kmap_dom, lemma_kmap_len, lemma_kmap_push, lemma_kmap_remove, lemma_kmap_update, unique_keys};
use crate::text::{owned, same_text};

verus! {

/// A reference from a project's chunk to a content hash: (hash, project, chunk).
pub type RefView = (Seq<char>, Seq<char>, Seq<char>);

/// What the counter holds for a content hash: the reference count and the vector id.
pub type CountView = (nat, Seq<char>);

/// The number of references to hash `h`.
pub open spec fn refs_with(refs: Seq<RefView>, h: Seq<char>) -> nat
    decreases refs.len(),
{
    if refs.len() == 0 {
        0
    } else {
        refs_with(refs.drop_last(), h) + if refs.last().0 == h { 1nat } else { 0nat }
    }
}

/// The references of project `p`, as (hash, chunk), in the order they were added.
pub open spec fn project_refs(refs: Seq<RefView>, p: Seq<char>) -> Seq<(Seq<char>, Seq<char>)>
    decreases refs.len(),
{
    if refs.len() == 0 {
        Seq::empty()
    } else {
        project_refs(refs.drop_last(), p) + if refs.last().1 == p {
            seq![(refs.last().0, refs.last().2)]
        } else {
            Seq::empty()
        }
    }
}

/// The number of projects that hold at least one reference among the first `n`.
pub open spec fn distinct_projects(refs: Seq<RefView>, n: int) -> nat
    decreases n,
{
    if n <= 0 {
        0
    } else {
        distinct_projects(refs, n - 1) + if (forall|j: int| 0 <= j < n - 1 ==> #[trigger] refs[j].1 != refs[n - 1].1) {
            1nat
        } else {
            0nat
        }
    }
}

/// The counter after adding a reference: the reference is kept once; the count goes up
/// by one each time (a new hash starts at one with the given vector id).
pub open spec fn add_ref_spec(refs: Seq<RefView>, counts: Map<Seq<char>, CountView>, t: RefView, vid: Seq<char>) -> (Seq<RefView>, Map<Seq<char>, CountView>) {
    let refs2 = if refs.contains(t) { refs } else { refs.push(t) };
    let counts2 = if counts.dom().contains(t.0) {
        counts.insert(t.0, (counts[t.0].0 + 1, counts[t.0].1))
    } else {
        counts.insert(t.0, (1, vid))
    };
    (refs2, counts2)
}

/// The references without `t`.
pub open spec fn drop_ref(refs: Seq<RefView>, t: RefView) -> Seq<RefView>
    decreases refs.len(),
{
    if refs.len() == 0 {
        refs
    } else if refs.last() == t {
        drop_ref(refs.drop_last(), t)
    } else {
        drop_ref(refs.drop_last(), t).push(refs.last())
    }
}

/// The counter after removing a reference, and whether its vector lost its last
/// reference (its count row is then gone). Nothing changes for an absent reference.
pub open spec fn remove_ref_spec(refs: Seq<RefView>, counts: Map<Seq<char>, CountView>, t: RefView) -> (Seq<RefView>, Map<Seq<char>, CountView>, bool) {
    if !refs.contains(t) {
        (refs, counts, false)
    } else {
        let c = counts[t.0].0 - 1;
        if c <= 0 {
            (drop_ref(refs, t), counts.remove(t.0), true)
        } else {
            (drop_ref(refs, t), counts.insert(t.0, (c as nat, counts[t.0].1)), false)
        }
    }
}

/// Removing the references `rs` of project `p` in turn: the counter after, and the hashes
/// whose vectors lost their last reference, in that order.
pub open spec fn remove_all_spec(
    refs: Seq<RefView>,
    counts: Map<Seq<char>, CountView>,
    p: Seq<char>,
    rs: Seq<(Seq<char>, Seq<char>)>,
) -> (Seq<RefView>, Map<Seq<char>, CountView>, Seq<Seq<char>>)
    decreases rs.len(),
{
    if rs.len() == 0 {
        (refs, counts, Seq::empty())
    } else {
        let (r1, c1, out) = remove_all_spec(refs, counts, p, rs.drop_last());
        let h = rs.last().0;
        let (r2, c2, del) = remove_ref_spec(r1, c1, (h, p, rs.last().1));
        (r2, c2, if del { out.push(h) } else { out })
    }
}

/// The counter's invariant: references are distinct, each has a count row, and each
/// count is positive and at least the number of references to its hash.
pub open spec fn counter_ok(refs: Seq<RefView>, counts: Map<Seq<char>, CountView>) -> bool {
    &&& forall|i: int, j: int| 0 <= i < refs.len() && 0 <= j < refs.len() && i != j ==> #[trigger] refs[i] != #[trigger] refs[j]
    &&& forall|i: int| 0 <= i < refs.len() ==> counts.dom().contains(#[trigger] refs[i].0)
    &&& forall|h: Seq<char>| #[trigger] counts.dom().contains(h) ==> counts[h].0 >= 1 && counts[h].0 >= refs_with(refs, h)
}

pub proof fn lemma_refs_with_push(refs: Seq<RefView>, t: RefView, h: Seq<char>)
    ensures
        refs_with(refs.push(t), h) == refs_with(refs, h) + if t.0 == h { 1nat } else { 0nat },
{
    assert(refs.push(t).drop_last() =~= refs);
}

pub proof fn lemma_drop_ref(refs: Seq<RefView>, t: RefView, h: Seq<char>)
    requires
        forall|i: int, j: int| 0 <= i < refs.len() && 0 <= j < refs.len() && i != j ==> #[trigger] refs[i] != #[trigger] refs[j],
    ensures
        refs.contains(t) ==> refs_with(drop_ref(refs, t), h) + (if t.0 == h { 1nat } else { 0nat }) == refs_with(refs, h),
        !refs.contains(t) ==> drop_ref(refs, t) == refs,
        forall|x: RefView| #[trigger] drop_ref(refs, t).contains(x) <==> (refs.contains(x) && x != t),
        forall|i: int, j: int| 0 <= i < drop_ref(refs, t).len() && 0 <= j < drop_ref(refs, t).len() && i != j ==> #[trigger] drop_ref(refs, t)[i] != #[trigger] drop_ref(refs, t)[j],
    decreases refs.len(),
{
    if refs.len() > 0 {
        let p = refs.drop_last();
        assert forall|i: int, j: int| 0 <= i < p.len() && 0 <= j < p.len() && i != j implies #[trigger] p[i] != #[trigger] p[j] by {
            assert(p[i] == refs[i]);
            assert(p[j] == refs[j]);
        }
        lemma_drop_ref(p, t, h);
        let d = drop_ref(p, t);
        assert forall|x: RefView| p.contains(x) <==> (refs.contains(x) && (x != refs.last() || exists|i: int| 0 <= i < p.len() && p[i] == x)) by {
            if refs.contains(x) && x != refs.last() {
                let i = choose|i: int| 0 <= i < refs.len() && refs[i] == x;
                assert(p[i] == x);
            }
        }
        if refs.last() == t {
            assert(!p.contains(t)) by {
                if p.contains(t) {
                    let i = choose|i: int| 0 <= i < p.len() && p[i] == t;
                    assert(refs[i] == refs[refs.len() - 1]);
                }
            }
            assert forall|x: RefView| #[trigger] d.contains(x) <==> (refs.contains(x) && x != t) by {
                if refs.contains(x) && x != t {
                    let i = choose|i: int| 0 <= i < refs.len() && refs[i] == x;
                    assert(p[i] == x);
                }
            }
        } else {
            let u = d.push(refs.last());
            assert forall|x: RefView| #[trigger] u.contains(x) <==> (refs.contains(x) && x != t) by {
                if u.contains(x) {
                    let i = choose|i: int| 0 <= i < u.len() && u[i] == x;
                    if i == d.len() {
                        assert(refs[refs.len() - 1] == x);
                    } else {
                        assert(d[i] == x);
                        assert(d.contains(x));
                        let k = choose|k: int| 0 <= k < p.len() && p[k] == x;
                        assert(refs[k] == x);
                    }
                }
                if refs.contains(x) && x != t {
                    let i = choose|i: int| 0 <= i < refs.len() && refs[i] == x;
                    if i == refs.len() - 1 {
                        assert(u[d.len() as int] == x);
                    } else {
                        assert(p[i] == x);
                        assert(d.contains(x));
                        let k = choose|k: int| 0 <= k < d.len() && d[k] == x;
                        assert(u[k] == x);
                    }
                }
            }
            assert(!d.contains(refs.last())) by {
                if d.contains(refs.last()) {
                    assert(p.contains(refs.last()));
                    let i = choose|i: int| 0 <= i < p.len() && p[i] == refs.last();
                    assert(refs[i] == refs[refs.len() - 1]);
                }
            }
            assert forall|i: int, j: int| 0 <= i < u.len() && 0 <= j < u.len() && i != j implies #[trigger] u[i] != #[trigger] u[j] by {
                if i == d.len() {
                    assert(d.contains(u[j]));
                } else if j == d.len() {
                    assert(d.contains(u[i]));
                }
            }
            lemma_refs_with_push(d, refs.last(), h);
            if refs.contains(t) {
                assert(p.contains(t)) by {
                    let i = choose|i: int| 0 <= i < refs.len() && refs[i] == t;
                    assert(p[i] == t);
                }
            } else {
                assert(!p.contains(t)) by {
                    if p.contains(t) {
                        let i = choose|i: int| 0 <= i < p.len() && p[i] == t;
                        assert(refs[i] == t);
                    }
                }
                assert(u =~= refs);
            }
        }
    }
}

pub proof fn lemma_refs_with_pos(refs: Seq<RefView>, i: int)
    requires
        0 <= i < refs.len(),
    ensures
        refs_with(refs, refs[i].0) >= 1,
    decreases refs.len(),
{
    if i < refs.len() - 1 {
        lemma_refs_with_pos(refs.drop_last(), i);
    }
}

/// Law: every operation keeps the counter's invariant.
pub proof fn lemma_add_ref_keeps(refs: Seq<RefView>, counts: Map<Seq<char>, CountView>, t: RefView, vid: Seq<char>)
    requires
        counter_ok(refs, counts),
    ensures
        counter_ok(add_ref_spec(refs, counts, t, vid).0, add_ref_spec(refs, counts, t, vid).1),
{
    let (r2, c2) = add_ref_spec(refs, counts, t, vid);
    if !refs.contains(t) {
        assert forall|i: int, j: int| 0 <= i < r2.len() && 0 <= j < r2.len() && i != j implies #[trigger] r2[i] != #[trigger] r2[j] by {
            if i == refs.len() {
                assert(refs[j] == r2[j]);
            } else if j == refs.len() {
                assert(refs[i] == r2[i]);
            }
        }
        assert forall|h: Seq<char>| #[trigger] c2.dom().contains(h) implies c2[h].0 >= 1 && c2[h].0 >= refs_with(r2, h) by {
            lemma_refs_with_push(refs, t, h);
            if h == t.0 && !counts.dom().contains(h) {
                assert(refs_with(refs, h) == 0) by {
                    if refs_with(refs, h) > 0 {
                        lemma_refs_with_exists(refs, h);
                    }
                }
            }
        }
    } else {
        assert forall|h: Seq<char>| #[trigger] c2.dom().contains(h) implies c2[h].0 >= 1 && c2[h].0 >= refs_with(r2, h) by {
            if h == t.0 && !counts.dom().contains(h) {
                let i = choose|i: int| 0 <= i < refs.len() && refs[i] == t;
                assert(counts.dom().contains(refs[i].0));
            }
        }
    }
    assert forall|i: int| 0 <= i < r2.len() implies c2.dom().contains(#[trigger] r2[i].0) by {
        if i < refs.len() {
            assert(r2[i] == refs[i]);
        }
    }
}

pub proof fn lemma_refs_with_exists(refs: Seq<RefView>, h: Seq<char>)
    requires
        refs_with(refs, h) > 0,
    ensures
        exists|i: int| 0 <= i < refs.len() && #[trigger] refs[i].0 == h,
    decreases refs.len(),
{
    if refs.last().0 != h {
        lemma_refs_with_exists(refs.drop_last(), h);
        let i = choose|i: int| 0 <= i < refs.drop_last().len() && #[trigger] refs.drop_last()[i].0 == h;
        assert(refs[i].0 == h);
    } else {
        assert(refs[refs.len() - 1].0 == h);
    }
}

pub proof fn lemma_remove_ref_keeps(refs: Seq<RefView>, counts: Map<Seq<char>, CountView>, t: RefView)
    requires
        counter_ok(refs, counts),
    ensures
        counter_ok(remove_ref_spec(refs, counts, t).0, remove_ref_spec(refs, counts, t).1),
{
    if refs.contains(t) {
        let (r2, c2, _d) = remove_ref_spec(refs, counts, t);
        let i0 = choose|i: int| 0 <= i < refs.len() && refs[i] == t;
        assert(counts.dom().contains(refs[i0].0));
        lemma_drop_ref(refs, t, t.0);
        assert forall|h: Seq<char>| #[trigger] c2.dom().contains(h) implies c2[h].0 >= 1 && c2[h].0 >= refs_with(r2, h) by {
            lemma_drop_ref(refs, t, h);
        }
        assert forall|i: int| 0 <= i < r2.len() implies c2.dom().contains(#[trigger] r2[i].0) by {
            assert(r2.contains(r2[i]));
            assert(refs.contains(r2[i]));
            let k = choose|k: int| 0 <= k < refs.len() && refs[k] == r2[i];
            assert(counts.dom().contains(refs[k].0));
            if r2[i].0 == t.0 {
                lemma_drop_ref(refs, t, t.0);
                lemma_refs_with_pos(r2, i);
            }
        }
    }
}

pub open spec fn ref_view(r: (String, String, String)) -> RefView {
    (r.0@, r.1@, r.2@)
}

pub open spec fn refs_view(v: Seq<(String, String, String)>) -> Seq<RefView> {
    v.map_values(|r: (String, String, String)| ref_view(r))
}

pub open spec fn count_entry(e: (String, usize, String)) -> (Seq<char>, CountView) {
    (e.0@, (e.1 as nat, e.2@))
}

pub open spec fn counts_list(v: Seq<(String, usize, String)>) -> Seq<(Seq<char>, CountView)> {
    v.map_values(|e: (String, usize, String)| count_entry(e))
}

/// Statistics of the reference counter.
pub struct RefCounterStats {
    pub total_refs: usize,
    pub unique_vectors: usize,
    pub project_count: usize,
}

/// Counts, for each stored vector, the project chunks that refer to it.
pub struct RefCounter {
    refs: Vec<(String, String, String)>,
    counts: Vec<(String, usize, String)>,
}

fn copy_str(s: &String) -> (r: String)
    ensures
        r@ == s@,
{
    s.clone()
}

fn find_ref(refs: &Vec<(String, String, String)>, t: &(String, String, String)) -> (r: Option<usize>)
    ensures
        match r {
            Some(i) => i < refs.len() && ref_view(refs@[i as int]) == ref_view(*t),
            None => !refs_view(refs@).contains(ref_view(*t)),
        },
{
    let mut i: usize = 0;
    while i < refs.len()
        invariant
            i <= refs.len(),
            forall|j: int| 0 <= j < i ==> ref_view(#[trigger] refs@[j]) != ref_view(*t),
        decreases refs.len() - i,
    {
        let r = &refs[i];
        if same_text(&r.0, &t.0) && same_text(&r.1, &t.1) && same_text(&r.2, &t.2) {
            return Some(i);
        }
        i = i + 1;
    }
    proof {
        if refs_view(refs@).contains(ref_view(*t)) {
            let j = choose|j: int| 0 <= j < refs_view(refs@).len() && refs_view(refs@)[j] == ref_view(*t);
            assert(refs_view(refs@)[j] == ref_view(refs@[j]));
        }
    }
    None
}

fn find_count(counts: &Vec<(String, usize, String)>, h: &String) -> (r: Option<usize>)
    ensures
        match r {
            Some(i) => i < counts.len() && counts@[i as int].0@ == h@,
            None => !kmap(counts_list(counts@)).dom().contains(h@),
        },
{
    let mut i: usize = 0;
    while i < counts.len()
        invariant
            i <= counts.len(),
            forall|j: int| 0 <= j < i ==> #[trigger] counts@[j].0@ != h@,
        decreases counts.len() - i,
    {
        if same_text(&counts[i].0, h) {
            return Some(i);
        }
        i = i + 1;
    }
    proof {
        lemma_kmap_dom(counts_list(counts@), h@);
        assert forall|j: int| 0 <= j < counts.len() implies #[trigger] counts_list(counts@)[j].0 != h@ by {
            assert(counts_list(counts@)[j] == count_entry(counts@[j]));
        }
    }
    None
}

impl RefCounter {
    #[verifier::type_invariant]
    spec fn ok(self) -> bool {
        &&& unique_keys(counts_list(self.counts@))
        &&& counter_ok(refs_view(self.refs@), kmap(counts_list(self.counts@)))
    }

    /// The references, in the order they were added.
    pub closed spec fn refs(self) -> Seq<RefView> {
        refs_view(self.refs@)
    }

    /// The count and vector id of each content hash.
    pub closed spec fn counts(self) -> Map<Seq<char>, CountView> {
        kmap(counts_list(self.counts@))
    }

    /// The count rows, one per content hash.
    pub closed spec fn count_entries(self) -> Seq<(Seq<char>, CountView)> {
        counts_list(self.counts@)
    }

    /// The count of each hash is the one of its row.
    pub proof fn lemma_count_entries(&self)
        ensures
            self.counts() == kmap(self.count_entries()),
    {
    }

    /// An empty counter.
    pub fn new() -> (r: Self)
        ensures
            r.refs() == Seq::<RefView>::empty(),
            r.counts() == Map::<Seq<char>, CountView>::empty(),
    {
        let r = RefCounter { refs: Vec::new(), counts: Vec::new() };
        proof {
            assert(refs_view(r.refs@) =~= Seq::<RefView>::empty());
            assert(counts_list(r.counts@) =~= Seq::<(Seq<char>, CountView)>::empty());
        }
        r
    }

    /// Adds a reference from a project chunk to a vector (see `add_ref_spec`); fails,
    /// changing nothing, when the vector's count is already the largest there is.
    pub fn add_ref(&mut self, content_hash: &str, project_id: &str, chunk_id: &str, vector_id: &str) -> (r: Result<(), String>)
        ensures
            r is Err <==> (old(self).counts().dom().contains(content_hash@) && old(self).counts()[content_hash@].0 == usize::MAX),
            r is Ok ==> (final(self).refs(), final(self).counts()) == add_ref_spec(
                old(self).refs(),
                old(self).counts(),
                (content_hash@, project_id@, chunk_id@),
                vector_id@,
            ),
            r is Err ==> final(self).refs() == old(self).refs() && final(self).counts() == old(self).counts(),
    {
        proof {
            use_type_invariant(&*self);
        }
        if let Some(k) = find_count(&self.counts, &owned(content_hash)) {
            proof {
                assert(counts_list(self.counts@)[k as int] == count_entry(self.counts@[k as int]));
                lemma_kmap_at(counts_list(self.counts@), k as int);
            }
            if self.counts[k].1 == usize::MAX {
                return Err(owned("reference count overflow"));
            }
        }
        self.add_ref_unchecked(content_hash, project_id, chunk_id, vector_id);
        Ok(())
    }

    fn add_ref_unchecked(&mut self, content_hash: &str, project_id: &str, chunk_id: &str, vector_id: &str)
        requires
            old(self).counts().dom().contains(content_hash@) ==> old(self).counts()[content_hash@].0 < usize::MAX,
        ensures
            (final(self).refs(), final(self).counts()) == add_ref_spec(
                old(self).refs(),
                old(self).counts(),
                (content_hash@, project_id@, chunk_id@),
                vector_id@,
            ),
    {
        proof {
            use_type_invariant(&*self);
        }
        let ghost rv = self.refs();
        let ghost cv = self.counts();
        let ghost cl = counts_list(self.counts@);
        let t = (owned(content_hash), owned(project_id), owned(chunk_id));
        let mut refs: Vec<(String, String, String)> = Vec::new();
        let mut counts: Vec<(String, usize, String)> = Vec::new();
        std::mem::swap(&mut refs, &mut self.refs);
        std::mem::swap(&mut counts, &mut self.counts);
        match find_ref(&refs, &t) {
            Some(i) => {
                proof {
                    assert(rv[i as int] == ref_view(refs@[i as int]));
                    assert(rv.contains(ref_view(t)));
                }
            },
            None => {
                let nt = (copy_str(&t.0), copy_str(&t.1), copy_str(&t.2));
                refs.push(nt);
                proof {
                    assert(refs_view(refs@) =~= rv.push(ref_view(t)));
                }
            },
        }
        match find_count(&counts, &t.0) {
            Some(i) => {
                proof {
                    assert(cl[i as int] == count_entry(counts@[i as int]));
                    lemma_kmap_at(cl, i as int);
                    lemma_kmap_update(cl, i as int, (cl[i as int].1.0 + 1, cl[i as int].1.1));
                }
                let e = &counts[i];
                let ne = (copy_str(&e.0), e.1 + 1, copy_str(&e.2));
                counts.set(i, ne);
                proof {
                    assert(counts_list(counts@) =~= cl.update(i as int, (cl[i as int].0, (cl[i as int].1.0 + 1, cl[i as int].1.1))));
                }
            },
            None => {
                proof {
                    lemma_kmap_push(cl, t.0@, (1, vector_id@));
                }
                counts.push((copy_str(&t.0), 1, owned(vector_id)));
                proof {
                    assert(counts_list(counts@) =~= cl.push((t.0@, (1nat, vector_id@))));
                }
            },
        }
        proof {
            lemma_add_ref_keeps(rv, cv, ref_view(t), vector_id@);
        }
        *self = RefCounter { refs, counts };
    }

    /// Removes a reference from a project chunk (see `remove_ref_spec`); true when its
    /// vector lost its last reference.
    pub fn remove_ref(&mut self, content_hash: &str, project_id: &str, chunk_id: &str) -> (r: Result<bool, String>)
        ensures
            r is Ok,
            counter_ok(old(self).refs(), old(self).counts()),
            counter_ok(final(self).refs(), final(self).counts()),
            r matches Ok(b) ==> (final(self).refs(), final(self).counts(), b) == remove_ref_spec(
                old(self).refs(),
                old(self).counts(),
                (content_hash@, project_id@, chunk_id@),
            ),
    {
        proof {
            use_type_invariant(&*self);
        }
        let ghost rv = self.refs();
        let ghost cv = self.counts();
        let ghost cl = counts_list(self.counts@);
        let t = (owned(content_hash), owned(project_id), owned(chunk_id));
        let pos = find_ref(&self.refs, &t);
        if pos.is_none() {
            proof {
                use_type_invariant(&*self);
            }
            return Ok(false);
        }
        let i = pos.unwrap();
        let mut refs: Vec<(String, String, String)> = Vec::new();
        let mut counts: Vec<(String, usize, String)> = Vec::new();
        std::mem::swap(&mut refs, &mut self.refs);
        std::mem::swap(&mut counts, &mut self.counts);
        proof {
            assert(rv[i as int] == ref_view(refs@[i as int]));
            assert(rv.contains(ref_view(t)));
            assert(cv.dom().contains(rv[i as int].0));
            lemma_drop_ref(rv, ref_view(t), t.0@);
            lemma_drop_at(rv, i as int);
        }
        refs.remove(i);
        proof {
            assert(refs_view(refs@) =~= rv.remove(i as int));
        }
        let k = find_count(&counts, &t.0).unwrap();
        proof {
            assert(cl[k as int] == count_entry(counts@[k as int]));
            lemma_kmap_at(cl, k as int);
        }
        let c = counts[k].1 - 1;
        let deleted = c == 0;
        if deleted {
            proof {
                lemma_kmap_remove(cl, k as int);
            }
            counts.remove(k);
            proof {
                assert(counts_list(counts@) =~= cl.remove(k as int));
            }
        } else {
            proof {
                lemma_kmap_update(cl, k as int, (c as nat, cl[k as int].1.1));
            }
            let e = &counts[k];
            let ne = (copy_str(&e.0), c, copy_str(&e.2));
            counts.set(k, ne);
            proof {
                assert(counts_list(counts@) =~= cl.update(k as int, (cl[k as int].0, (c as nat, cl[k as int].1.1))));
            }
        }
        proof {
            lemma_remove_ref_keeps(rv, cv, ref_view(t));
        }
        *self = RefCounter { refs, counts };
        Ok(deleted)
    }

    /// The number of references to a content hash, cut to 32 bits; 0 when absent.
    pub fn get_ref_count(&self, content_hash: &str) -> (r: u32)
        ensures
            r == (if self.counts().dom().contains(content_hash@) { self.counts()[content_hash@].0 as u32 } else { 0 }),
    {
        proof {
            use_type_invariant(self);
        }
        match find_count(&self.counts, &owned(content_hash)) {
            Some(k) => {
                proof {
                    assert(counts_list(self.counts@)[k as int] == count_entry(self.counts@[k as int]));
                    lemma_kmap_at(counts_list(self.counts@), k as int);
                }
                self.counts[k].1 as u32
            },
            None => 0,
        }
    }

    /// The vector id of a content hash.
    pub fn get_vector_id(&self, content_hash: &str) -> (r: Option<String>)
        ensures
            match r {
                Some(v) => self.counts().dom().contains(content_hash@) && v@ == self.counts()[content_hash@].1,
                None => !self.counts().dom().contains(content_hash@),
            },
    {
        proof {
            use_type_invariant(self);
        }
        match find_count(&self.counts, &owned(content_hash)) {
            Some(k) => {
                proof {
                    assert(counts_list(self.counts@)[k as int] == count_entry(self.counts@[k as int]));
                    lemma_kmap_at(counts_list(self.counts@), k as int);
                }
                Some(copy_str(&self.counts[k].2))
            },
            None => None,
        }
    }

    /// The references of a project, as (hash, chunk), in the order they were added.
    pub fn get_project_refs(&self, project_id: &str) -> (r: Vec<(String, String)>)
        ensures
            r@.map_values(|x: (String, String)| (x.0@, x.1@)) == project_refs(self.refs(), project_id@),
    {
        let p = owned(project_id);
        let ghost rv = self.refs();
        let mut out: Vec<(String, String)> = Vec::new();
        let mut i: usize = 0;
        proof {
            assert(rv.take(0) =~= Seq::<RefView>::empty());
            assert(out@.map_values(|x: (String, String)| (x.0@, x.1@)) =~= Seq::<(Seq<char>, Seq<char>)>::empty());
        }
        while i < self.refs.len()
            invariant
                i <= self.refs.len(),
                rv == self.refs(),
                rv == refs_view(self.refs@),
                p@ == project_id@,
                out@.map_values(|x: (String, String)| (x.0@, x.1@)) == project_refs(rv.take(i as int), project_id@),
            decreases self.refs.len() - i,
        {
            let r = &self.refs[i];
            proof {
                assert(rv.take(i + 1).drop_last() =~= rv.take(i as int));
                assert(rv.take(i + 1).last() == rv[i as int]);
                assert(rv[i as int] == ref_view(*r));
            }
            let ghost before = out@.map_values(|x: (String, String)| (x.0@, x.1@));
            if same_text(&r.1, &p) {
                out.push((copy_str(&r.0), copy_str(&r.2)));
                proof {
                    assert(out@.map_values(|x: (String, String)| (x.0@, x.1@)) =~= before + seq![(r.0@, r.2@)]);
                }
            } else {
                proof {
                    assert(before + Seq::<(Seq<char>, Seq<char>)>::empty() =~= before);
                }
            }
            i = i + 1;
        }
        proof {
            assert(rv.take(self.refs.len() as int) =~= rv);
        }
        out
    }

    /// Removes every reference of a project (see `remove_all_spec`); the hashes whose
    /// vectors lost their last reference.
    pub fn remove_project_refs(&mut self, project_id: &str) -> (r: Result<Vec<String>, String>)
        ensures
            r is Ok,
            counter_ok(old(self).refs(), old(self).counts()),
            r matches Ok(v) ==> (final(self).refs(), final(self).counts(), v@.map_values(|s: String| s@)) == remove_all_spec(
                old(self).refs(),
                old(self).counts(),
                project_id@,
                project_refs(old(self).refs(), project_id@),
            ),
    {
        proof {
            use_type_invariant(&*self);
        }
        let refs = self.get_project_refs(project_id);
        let ghost rs = refs@.map_values(|x: (String, String)| (x.0@, x.1@));
        let ghost r0 = self.refs();
        let ghost c0 = self.counts();
        let mut to_delete: Vec<String> = Vec::new();
        let mut i: usize = 0;
        proof {
            assert(rs.take(0) =~= Seq::<(Seq<char>, Seq<char>)>::empty());
            assert(to_delete@.map_values(|s: String| s@) =~= Seq::<Seq<char>>::empty());
        }
        while i < refs.len()
            invariant
                i <= refs.len(),
                rs == refs@.map_values(|x: (String, String)| (x.0@, x.1@)),
                (self.refs(), self.counts(), to_delete@.map_values(|s: String| s@)) == remove_all_spec(r0, c0, project_id@, rs.take(i as int)),
            decreases refs.len() - i,
        {
            let (h, c) = (&refs[i].0, &refs[i].1);
            proof {
                assert(rs.take(i + 1).drop_last() =~= rs.take(i as int));
                assert(rs.take(i + 1).last() == rs[i as int]);
                assert(rs[i as int] == (h@, c@));
            }
            let ghost before = to_delete@.map_values(|s: String| s@);
            let gone = self.remove_ref(h.as_str(), project_id, c.as_str());
            match gone {
                Ok(true) => {
                    to_delete.push(copy_str(h));
                    proof {
                        assert(to_delete@.map_values(|s: String| s@) =~= before.push(h@));
                    }
                },
                _ => {},
            }
            i = i + 1;
        }
        proof {
            assert(rs.take(refs.len() as int) =~= rs);
        }
        Ok(to_delete)
    }

    /// The number of references, of vectors and of projects with references.
    pub fn get_stats(&self) -> (r: RefCounterStats)
        ensures
            r.total_refs == self.refs().len(),
            r.unique_vectors == self.counts().dom().len(),
            r.project_count == distinct_projects(self.refs(), self.refs().len() as int),
    {
        proof {
            use_type_invariant(self);
            lemma_kmap_len(counts_list(self.counts@));
        }
        let ghost rv = self.refs();
        let mut projects: usize = 0;
        let mut i: usize = 0;
        while i < self.refs.len()
            invariant
                i <= self.refs.len(),
                rv == refs_view(self.refs@),
                projects == distinct_projects(rv, i as int),
                projects <= i,
            decreases self.refs.len() - i,
        {
            let mut seen = false;
            let mut j: usize = 0;
            while j < i
                invariant
                    j <= i < self.refs.len(),
                    rv == refs_view(self.refs@),
                    seen == exists|q: int| 0 <= q < j && #[trigger] rv[q].1 == rv[i as int].1,
                decreases i - j,
            {
                proof {
                    assert(rv[j as int] == ref_view(self.refs@[j as int]));
                    assert(rv[i as int] == ref_view(self.refs@[i as int]));
                    assert(rv[j as int].1 == self.refs@[j as int].1@);
                    assert(rv[i as int].1 == self.refs@[i as int].1@);
                }
                if same_text(&self.refs[j].1, &self.refs[i].1) {
                    seen = true;
                }
                j = j + 1;
            }
            proof {
                assert(seen == !(forall|q: int| 0 <= q < i ==> #[trigger] rv[q].1 != rv[i as int].1));
                assert((i + 1) - 1 == i);
                assert(distinct_projects(rv, i + 1) == distinct_projects(rv, i as int) + if (forall|q: int| 0 <= q < i ==> #[trigger] rv[q].1 != rv[i as int].1) {
                    1nat
                } else {
                    0nat
                });
            }
            if !seen {
                projects = projects + 1;
            }
            i = i + 1;
        }
        RefCounterStats { total_refs: self.refs.len(), unique_vectors: self.counts.len(), project_count: projects }
    }

    /// How many vectors have each reference count (counts cut to 32 bits).
    pub fn get_ref_distribution(&self) -> (r: HashMap<u32, usize>)
        ensures
            forall|c: u32| #[trigger] r@.dom().contains(c) ==> r@[c] == count_with(self.count_entries(), c) && r@[c] > 0,
            forall|c: u32| !r@.dom().contains(c) ==> count_with(self.count_entries(), c) == 0,
    {
        broadcast use vstd::std_specs::hash::group_hash_axioms;
        let ghost cl = counts_list(self.counts@);
        let mut m: HashMap<u32, usize> = HashMap::new();
        let mut i: usize = 0;
        while i < self.counts.len()
            invariant
                i <= self.counts.len(),
                cl == counts_list(self.counts@),
                forall|c: u32| #[trigger] m@.dom().contains(c) ==> m@[c] == count_with(cl.take(i as int), c) && m@[c] > 0,
                forall|c: u32| !m@.dom().contains(c) ==> count_with(cl.take(i as int), c) == 0,
                forall|c: u32| count_with(cl.take(i as int), c) <= i,
            decreases self.counts.len() - i,
        {
            let c = self.counts[i].1 as u32;
            proof {
                assert(cl.take(i + 1).drop_last() =~= cl.take(i as int));
                assert(cl.take(i + 1).last() == cl[i as int]);
                assert(cl[i as int] == count_entry(self.counts@[i as int]));
            }
            let n = match m.get(&c) {
                Some(v) => *v,
                None => 0,
            };
            proof {
                assert(n == count_with(cl.take(i as int), c));
                assert(cl[i as int].1.0 as u32 == c);
                assert forall|c2: u32| count_with(cl.take(i + 1), c2) == count_with(cl.take(i as int), c2) + if c2 == c { 1nat } else { 0nat } by {
                    let t1 = cl.take(i + 1);
                    assert(t1.drop_last() == cl.take(i as int));
                    assert(t1.last() == cl[i as int]);
                    assert(count_with(t1, c2) == count_with(t1.drop_last(), c2) + if t1.last().1.0 as u32 == c2 { 1nat } else { 0nat });
                }
                assert forall|c2: u32| #[trigger] count_with(cl.take(i + 1), c2) <= i + 1 by {
                    assert(count_with(cl.take(i as int), c2) <= i);
                }
            }
            m.insert(c, n + 1);
            i = i + 1;
        }
        proof {
            assert(cl.take(self.counts.len() as int) =~= cl);
        }
        m
    }

    /// The number of vectors whose count, cut to 32 bits, is above `k`.
    pub fn rows_above(&self, k: u32) -> (r: usize)
        ensures
            r == count_above(self.count_entries(), k),
    {
        let ghost cl = counts_list(self.counts@);
        let mut n: usize = 0;
        let mut i: usize = 0;
        while i < self.counts.len()
            invariant
                i <= self.counts.len(),
                cl == counts_list(self.counts@),
                n == count_above(cl.take(i as int), k),
                n <= i,
            decreases self.counts.len() - i,
        {
            proof {
                assert(cl.take(i + 1).drop_last() =~= cl.take(i as int));
                assert(cl.take(i + 1).last() == cl[i as int]);
                assert(cl[i as int] == count_entry(self.counts@[i as int]));
            }
            if self.counts[i].1 as u32 > k {
                n = n + 1;
            }
            i = i + 1;
        }
        proof {
            assert(cl.take(self.counts.len() as int) =~= cl);
        }
        n
    }

    /// The hashes of references without a count row; none, by the counter's invariant.
    pub fn verify_integrity(&self) -> (r: Vec<String>)
        ensures
            r@.len() == 0,
    {
        proof {
            use_type_invariant(self);
        }
        let mut out: Vec<String> = Vec::new();
        let mut i: usize = 0;
        while i < self.refs.len()
            invariant
                i <= self.refs.len(),
                out@.len() == 0,
                counter_ok(refs_view(self.refs@), kmap(counts_list(self.counts@))),
            decreases self.refs.len() - i,
        {
            let h = &self.refs[i].0;
            proof {
                assert(refs_view(self.refs@)[i as int] == ref_view(self.refs@[i as int]));
                assert(kmap(counts_list(self.counts@)).dom().contains(refs_view(self.refs@)[i as int].0));
            }
            if find_count(&self.counts, h).is_none() {
                out.push(copy_str(h));
            }
            i = i + 1;
        }
        out
    }
}

/// The number of vectors whose count, cut to 32 bits, is above `k`.
pub open spec fn count_above(cl: Seq<(Seq<char>, CountView)>, k: u32) -> nat
    decreases cl.len(),
{
    if cl.len() == 0 {
        0
    } else {
        count_above(cl.drop_last(), k) + if cl.last().1.0 as u32 > k { 1nat } else { 0nat }
    }
}

/// The number of vectors whose count, cut to 32 bits, is `c`.
pub open spec fn count_with(cl: Seq<(Seq<char>, CountView)>, c: u32) -> nat
    decreases cl.len(),
{
    if cl.len() == 0 {
        0
    } else {
        count_with(cl.drop_last(), c) + if cl.last().1.0 as u32 == c { 1nat } else { 0nat }
    }
}

pub proof fn lemma_drop_at(refs: Seq<RefView>, i: int)
    requires
        0 <= i < refs.len(),
        forall|a: int, b: int| 0 <= a < refs.len() && 0 <= b < refs.len() && a != b ==> #[trigger] refs[a] != #[trigger] refs[b],
    ensures
        drop_ref(refs, refs[i]) == refs.remove(i),
    decreases refs.len(),
{
    if i == refs.len() - 1 {
        let p = refs.drop_last();
        lemma_drop_ref(p, refs[i], refs[i].0);
        assert(!p.contains(refs[i])) by {
            if p.contains(refs[i]) {
                let k = choose|k: int| 0 <= k < p.len() && p[k] == refs[i];
                assert(refs[k] == refs[i]);
            }
        }
        assert(refs.remove(i) =~= p);
    } else {
        let p = refs.drop_last();
        assert forall|a: int, b: int| 0 <= a < p.len() && 0 <= b < p.len() && a != b implies #[trigger] p[a] != #[trigger] p[b] by {
            assert(p[a] == refs[a]);
            assert(p[b] == refs[b]);
        }
        assert(p[i] == refs[i]);
        lemma_drop_at(p, i);
        assert(refs.last() != refs[i]);
        assert(refs.remove(i) =~= p.remove(i).push(refs.last()));
    }
}

pub proof fn lemma_project_refs_complete(refs: Seq<RefView>, p: Seq<char>, x: RefView)
    requires
        refs.contains(x),
        x.1 == p,
    ensures
        project_refs(refs, p).contains((x.0, x.2)),
    decreases refs.len(),
{
    let pre = refs.drop_last();
    if refs.last() == x {
        let a = project_refs(pre, p);
        let b = seq![(x.0, x.2)];
        assert((a + b)[a.len() as int] == (x.0, x.2));
    } else {
        let i = choose|i: int| 0 <= i < refs.len() && refs[i] == x;
        assert(pre[i] == x);
        lemma_project_refs_complete(pre, p, x);
        let a = project_refs(pre, p);
        let k = choose|k: int| 0 <= k < a.len() && a[k] == (x.0, x.2);
        let full = project_refs(refs, p);
        assert(full[k] == (x.0, x.2));
    }
}

/// Removing the references `rs` of project `p` keeps the counter's invariant and leaves
/// exactly the references that are not among them.
pub proof fn lemma_remove_all_members(refs: Seq<RefView>, counts: Map<Seq<char>, CountView>, p: Seq<char>, rs: Seq<(Seq<char>, Seq<char>)>)
    requires
        counter_ok(refs, counts),
    ensures
        counter_ok(remove_all_spec(refs, counts, p, rs).0, remove_all_spec(refs, counts, p, rs).1),
        forall|x: RefView| #[trigger] remove_all_spec(refs, counts, p, rs).0.contains(x) <==> (refs.contains(x) && !(x.1 == p && rs.contains((x.0, x.2)))),
    decreases rs.len(),
{
    if rs.len() > 0 {
        let pre = rs.drop_last();
        lemma_remove_all_members(refs, counts, p, pre);
        let (r1, c1, _out) = remove_all_spec(refs, counts, p, pre);
        let t = (rs.last().0, p, rs.last().1);
        lemma_remove_ref_keeps(r1, c1, t);
        lemma_drop_ref(r1, t, t.0);
        let r2 = remove_ref_spec(r1, c1, t).0;
        assert forall|x: RefView| #[trigger] r2.contains(x) <==> (refs.contains(x) && !(x.1 == p && rs.contains((x.0, x.2)))) by {
            assert(rs.contains((x.0, x.2)) <==> (pre.contains((x.0, x.2)) || rs.last() == (x.0, x.2))) by {
                if rs.contains((x.0, x.2)) {
                    let k = choose|k: int| 0 <= k < rs.len() && rs[k] == (x.0, x.2);
                    if k < pre.len() {
                        assert(pre[k] == rs[k]);
                    }
                }
                if pre.contains((x.0, x.2)) {
                    let k = choose|k: int| 0 <= k < pre.len() && pre[k] == (x.0, x.2);
                    assert(rs[k] == pre[k]);
                }
                if rs.last() == (x.0, x.2) {
                    assert(rs[rs.len() - 1] == (x.0, x.2));
                }
            }
        }
    }
}

/// Law: removing a reference just added gives the counter back as it was, and reports
/// that the vector lost its last reference exactly when its hash had no count before;
/// removing the same reference once more reports nothing and changes nothing.
pub proof fn lemma_add_then_remove(refs: Seq<RefView>, counts: Map<Seq<char>, CountView>, t: RefView, vid: Seq<char>)
    requires
        counter_ok(refs, counts),
        !refs.contains(t),
    ensures
        ({
            let (r1, c1) = add_ref_spec(refs, counts, t, vid);
            let (r2, c2, b) = remove_ref_spec(r1, c1, t);
            &&& r2 == refs
            &&& c2 == counts
            &&& b == !counts.dom().contains(t.0)
            &&& remove_ref_spec(r2, c2, t) == (r2, c2, false)
        }),
{
    let (r1, c1) = add_ref_spec(refs, counts, t, vid);
    assert(r1 == refs.push(t));
    assert(r1[r1.len() - 1] == t);
    assert(r1.contains(t));
    assert(drop_ref(r1, t) == drop_ref(refs, t)) by {
        assert(r1.drop_last() =~= refs);
    }
    lemma_drop_ref(refs, t, t.0);
    if counts.dom().contains(t.0) {
        assert(counts[t.0].0 >= 1);
        assert(c1.insert(t.0, ((c1[t.0].0 - 1) as nat, c1[t.0].1)) =~= counts);
    } else {
        assert(c1.remove(t.0) =~= counts);
    }
}

/// Law: after a project's references are removed, the counter keeps its invariant and
/// holds no reference of that project; every other reference stays.
pub proof fn lemma_remove_project_refs_clears(refs: Seq<RefView>, counts: Map<Seq<char>, CountView>, p: Seq<char>)
    requires
        counter_ok(refs, counts),
    ensures
        counter_ok(
            remove_all_spec(refs, counts, p, project_refs(refs, p)).0,
            remove_all_spec(refs, counts, p, project_refs(refs, p)).1,
        ),
        forall|x: RefView| #[trigger] remove_all_spec(refs, counts, p, project_refs(refs, p)).0.contains(x) <==> (refs.contains(x) && x.1 != p),
{
    lemma_remove_all_members(refs, counts, p, project_refs(refs, p));
    assert forall|x: RefView| refs.contains(x) && x.1 == p implies #[trigger] project_refs(refs, p).contains((x.0, x.2)) by {
        lemma_project_refs_complete(refs, p, x);
    }
}

} // verus!
