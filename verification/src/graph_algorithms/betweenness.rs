use vstd::prelude::*;

use super::{
    count_true, exact_level, lemma_count_true_le, lemma_count_true_update, lemma_count_true_zero,
    lemma_exact_unique, lemma_reach_mono, links_into, occurrences, GraphAlgorithms, GraphModel,
};

verus! {

/// Page `v` can be reached from page `s` by following links.
pub open spec fn reached(m: GraphModel, s: int, v: int) -> bool {
    exists|k: nat| m.reach_le(s, v, k)
}

/// Over the pages `u` below `upto` that are exactly `k` links from `s`: the sum of the
/// number of links from `u` to `v` times `counts[u]`.
pub open spec fn pred_sum(m: GraphModel, s: int, k: nat, counts: Seq<nat>, v: int, upto: int) -> nat
    decreases upto,
{
    if upto <= 0 {
        0
    } else {
        pred_sum(m, s, k, counts, v, upto - 1) + if exact_level(m, s, upto - 1, k) {
            occurrences(m.adj[upto - 1], v) * counts[upto - 1]
        } else {
            0nat
        }
    }
}

/// For each page exactly `k` links from `s`, the number of shortest paths from `s` to
/// it (a repeated link counts each time); 0 for the other pages.
pub open spec fn path_counts(m: GraphModel, s: int, k: nat) -> Seq<nat>
    decreases k,
{
    if k == 0 {
        Seq::new(m.n() as nat, |v: int| if v == s { 1nat } else { 0nat })
    } else {
        let prev = path_counts(m, s, (k - 1) as nat);
        Seq::new(
            m.n() as nat,
            |v: int|
                if exact_level(m, s, v, k) {
                    pred_sum(m, s, (k - 1) as nat, prev, v, m.n())
                } else {
                    0nat
                },
        )
    }
}

/// Every count of shortest paths from `s` fits in a `u64`.
pub open spec fn counts_fit(m: GraphModel, s: int) -> bool {
    forall|v: int, k: nat| 0 <= v < m.n() && exact_level(m, s, v, k) ==> #[trigger] path_counts(m, s, k)[v] <= u64::MAX
}

/// Some page below `upto` that is exactly `k` links from `s` links to `v`.
pub open spec fn hit(m: GraphModel, s: int, k: nat, v: int, upto: int) -> bool {
    exists|x: int| 0 <= x < upto && #[trigger] exact_level(m, s, x, k) && m.edge(x, v)
}

/// The shortest-path facts that a search from `s` found: `dist[v]` is the number of
/// links to `v` (`n` where `v` cannot be reached) and `cnt[v]` the number of shortest
/// paths to it.
pub open spec fn search_result(m: GraphModel, s: int, dist: Seq<usize>, cnt: Seq<u64>) -> bool {
    &&& dist.len() == m.n()
    &&& cnt.len() == m.n()
    &&& forall|v: int| 0 <= v < m.n() ==> (#[trigger] dist[v] < m.n() <==> reached(m, s, v))
    &&& forall|v: int|
        0 <= v < m.n() && #[trigger] dist[v] < m.n() ==> exact_level(m, s, v, dist[v] as nat) && cnt[v]
            == path_counts(m, s, dist[v] as nat)[v]
}

/// The number of links on a shortest path from `s` to `v`, where `v` can be reached.
pub open spec fn level(m: GraphModel, s: int, v: int) -> nat {
    choose|k: nat| exact_level(m, s, v, k)
}

/// The number of shortest paths from `s` to `v`.
pub open spec fn sigma(m: GraphModel, s: int, v: int) -> nat {
    path_counts(m, s, level(m, s, v))[v]
}

/// The number of shortest paths from `s` to `t` that pass through `v` on the way: 0
/// unless the three pages are distinct, each reaches the next, and going through `v`
/// is no longer than the shortest way; then the paths to `v` times the paths on from it.
pub open spec fn via_count(m: GraphModel, s: int, v: int, t: int) -> nat {
    if s != v && t != v && s != t && reached(m, s, v) && reached(m, v, t) && reached(m, s, t) && level(m, s, v)
        + level(m, v, t) == level(m, s, t) {
        sigma(m, s, v) * sigma(m, v, t)
    } else {
        0
    }
}

/// For the pairs from `s` to the pages below `upto` that have shortest paths through
/// `v`: the number of those paths, and the number of all shortest paths of the pair.
pub open spec fn share_row(m: GraphModel, v: int, s: int, upto: int) -> Seq<(nat, nat)>
    decreases upto,
{
    if upto <= 0 {
        Seq::empty()
    } else if via_count(m, s, v, upto - 1) > 0 {
        share_row(m, v, s, upto - 1).push((via_count(m, s, v, upto - 1), sigma(m, s, upto - 1)))
    } else {
        share_row(m, v, s, upto - 1)
    }
}

/// `share_row` for the sources below `upto`, one after another.
pub open spec fn share_rows(m: GraphModel, v: int, upto: int) -> Seq<(nat, nat)>
    decreases upto,
{
    if upto <= 0 {
        Seq::empty()
    } else {
        share_rows(m, v, upto - 1) + share_row(m, v, upto - 1, m.n())
    }
}

/// The betweenness shares of page `v`: for each ordered pair of other pages `(s, t)` with
/// a shortest path through `v`, in order of `s` then `t`, the number of shortest paths
/// from `s` to `t` through `v` and the number of all shortest paths from `s` to `t`. The
/// share of the pair is the first over the second; the betweenness centrality of `v` is
/// the sum of its shares over the number of ordered pairs of other pages.
pub open spec fn betweenness_shares(m: GraphModel, v: int) -> Seq<(nat, nat)> {
    share_rows(m, v, m.n())
}

/// Every count of shortest paths, also through a page, fits in a `u64`.
pub open spec fn shares_fit(m: GraphModel) -> bool {
    &&& forall|s: int| 0 <= s < m.n() ==> #[trigger] counts_fit(m, s)
    &&& forall|s: int, v: int, t: int|
        0 <= s < m.n() && 0 <= v < m.n() && 0 <= t < m.n() ==> #[trigger] via_count(m, s, v, t) <= u64::MAX
}

/// The shares as numbers.
pub open spec fn shares_view(v: Seq<(u64, u64)>) -> Seq<(nat, nat)> {
    v.map_values(|e: (u64, u64)| (e.0 as nat, e.1 as nat))
}

proof fn lemma_level(m: GraphModel, s: int, v: int, d: nat)
    requires
        exact_level(m, s, v, d),
    ensures
        level(m, s, v) == d,
        sigma(m, s, v) == path_counts(m, s, d)[v],
{
    let k = level(m, s, v);
    assert(exact_level(m, s, v, k));
    lemma_exact_unique(m, s, v, k, d);
}


/// A page that another page reaches has a link out of the first one.
proof fn lemma_reach_leaves(m: GraphModel, v: int, t: int, k: nat)
    requires
        m.reach_le(v, t, k),
        t != v,
    ensures
        0 <= v < m.adj.len() && m.adj[v].len() > 0,
    decreases k,
{
    if k > 0 {
        if m.reach_le(v, t, (k - 1) as nat) {
            lemma_reach_leaves(m, v, t, (k - 1) as nat);
        } else {
            let u = choose|u: int| #![trigger m.edge(u, t)] m.reach_le(v, u, (k - 1) as nat) && m.edge(u, t);
            if u != v {
                lemma_reach_leaves(m, v, u, (k - 1) as nat);
            }
        }
    }
}

/// A page reached from another page has a link into it from some page.
proof fn lemma_reach_enters(m: GraphModel, s: int, v: int, k: nat)
    requires
        m.reach_le(s, v, k),
        s != v,
    ensures
        exists|u: int| #[trigger] m.edge(u, v),
    decreases k,
{
    if k > 0 {
        if m.reach_le(s, v, (k - 1) as nat) {
            lemma_reach_enters(m, s, v, (k - 1) as nat);
        }
    }
}

proof fn lemma_occurrences_pos(row: Seq<usize>, v: int)
    requires
        row.contains(v as usize),
        0 <= v <= usize::MAX,
    ensures
        occurrences(row, v) > 0,
    decreases row.len(),
{
    if row.last() != v as usize {
        let i = choose|i: int| 0 <= i < row.len() && #[trigger] row[i] == v as usize;
        assert(row.drop_last()[i] == v as usize);
        lemma_occurrences_pos(row.drop_last(), v);
    }
}

proof fn lemma_links_into_pos(adj: Seq<Seq<usize>>, v: int, u: int, upto: int)
    requires
        0 <= u < upto,
        occurrences(adj[u], v) > 0,
    ensures
        links_into(adj, v, upto) > 0,
    decreases upto,
{
    if u < upto - 1 {
        lemma_links_into_pos(adj, v, u, upto - 1);
    }
}

proof fn lemma_rows_empty(m: GraphModel, v: int, upto_s: int)
    requires
        forall|s: int, t: int| via_count(m, s, v, t) == 0,
    ensures
        share_rows(m, v, upto_s) == Seq::<(nat, nat)>::empty(),
    decreases upto_s,
{
    if upto_s > 0 {
        lemma_rows_empty(m, v, upto_s - 1);
        lemma_row_empty(m, v, upto_s - 1, m.n());
        assert(share_rows(m, v, upto_s) =~= Seq::<(nat, nat)>::empty());
    }
}

proof fn lemma_row_empty(m: GraphModel, v: int, s: int, upto: int)
    requires
        forall|s: int, t: int| via_count(m, s, v, t) == 0,
    ensures
        share_row(m, v, s, upto) == Seq::<(nat, nat)>::empty(),
    decreases upto,
{
    if upto > 0 {
        lemma_row_empty(m, v, s, upto - 1);
        assert(via_count(m, s, v, upto - 1) == 0);
    }
}

/// Law: a page that has no link out, or no link in, lies on no shortest path between
/// two other pages: it has no betweenness shares, so its centrality is 0.
pub proof fn lemma_betweenness_of_an_end(m: GraphModel, v: int)
    requires
        m.wf(),
        m.n() <= usize::MAX,
        0 <= v < m.n(),
        m.adj[v].len() == 0 || links_into(m.adj, v, m.n()) == 0,
    ensures
        betweenness_shares(m, v) == Seq::<(nat, nat)>::empty(),
{
    assert forall|s: int, t: int| via_count(m, s, v, t) == 0 by {
        if s != v && t != v && reached(m, s, v) && reached(m, v, t) {
            let k1 = choose|k: nat| m.reach_le(v, t, k);
            lemma_reach_leaves(m, v, t, k1);
            let k2 = choose|k: nat| m.reach_le(s, v, k);
            lemma_reach_enters(m, s, v, k2);
            let u = choose|u: int| #[trigger] m.edge(u, v);
            lemma_occurrences_pos(m.adj[u], v);
            lemma_links_into_pos(m.adj, v, u, m.n());
        }
    }
    lemma_rows_empty(m, v, m.n());
}

proof fn lemma_pred_sum_mono(m: GraphModel, s: int, k: nat, counts: Seq<nat>, v: int, a: int, b: int)
    requires
        a <= b,
    ensures
        pred_sum(m, s, k, counts, v, a) <= pred_sum(m, s, k, counts, v, b),
    decreases b - a,
{
    if a < b {
        lemma_pred_sum_mono(m, s, k, counts, v, a, b - 1);
    }
}

proof fn lemma_occurrences_take(row: Seq<usize>, v: int, j: int)
    requires
        0 <= j < row.len(),
    ensures
        occurrences(row.take(j + 1), v) == occurrences(row.take(j), v) + if row[j] == v { 1nat } else { 0nat },
{
    assert(row.take(j + 1).drop_last() =~= row.take(j));
}

proof fn lemma_occurrences_le(row: Seq<usize>, v: int, j: int)
    requires
        0 <= j <= row.len(),
    ensures
        occurrences(row.take(j), v) <= occurrences(row, v),
    decreases row.len() - j,
{
    if j < row.len() {
        lemma_occurrences_take(row, v, j);
        lemma_occurrences_le(row, v, j + 1);
    } else {
        assert(row.take(j) =~= row);
    }
}

proof fn lemma_occurrences_zero(row: Seq<usize>, v: int)
    requires
        !row.contains(v as usize),
        0 <= v,
    ensures
        occurrences(row, v) == 0,
    decreases row.len(),
{
    if row.len() > 0 {
        assert(!row.drop_last().contains(v as usize)) by {
            if row.drop_last().contains(v as usize) {
                let i = choose|i: int| 0 <= i < row.drop_last().len() && #[trigger] row.drop_last()[i] == v as usize;
                assert(row[i] == v as usize);
            }
        }
        lemma_occurrences_zero(row.drop_last(), v);
        assert(row.last() != v as usize) by {
            if row.last() == v as usize {
                assert(row[row.len() - 1] == v as usize);
            }
        }
    }
}

/// When one more link reaches no page of the graph that fewer did not, no longer bound
/// reaches a page that the shorter one did not.
proof fn lemma_reach_settled(m: GraphModel, s: int, k: nat, j: nat, v: int)
    requires
        m.wf(),
        forall|x: int| 0 <= x < m.n() && #[trigger] m.reach_le(s, x, k + 1) ==> m.reach_le(s, x, k),
        m.reach_le(s, v, j),
        0 <= v < m.n(),
    ensures
        m.reach_le(s, v, k),
    decreases j,
{
    if j > k {
        if m.reach_le(s, v, (j - 1) as nat) {
            lemma_reach_settled(m, s, k, (j - 1) as nat, v);
        } else {
            let u = choose|u: int| #![trigger m.edge(u, v)] m.reach_le(s, u, (j - 1) as nat) && m.edge(u, v);
            lemma_reach_settled(m, s, k, (j - 1) as nat, u);
            assert(m.reach_le(s, v, k + 1));
        }
    } else {
        lemma_reach_mono(m, s, v, j, k);
    }
}

proof fn lemma_count_true_full(s: Seq<bool>)
    requires
        count_true(s) == s.len(),
    ensures
        forall|i: int| 0 <= i < s.len() ==> s[i],
    decreases s.len(),
{
    if s.len() > 0 {
        lemma_count_true_le(s.drop_last());
        lemma_count_true_full(s.drop_last());
        assert forall|i: int| 0 <= i < s.len() implies s[i] by {
            if i < s.len() - 1 {
                assert(s.drop_last()[i] == s[i]);
            }
        }
    }
}

impl GraphAlgorithms {
    /// Breadth-first search from page `s`, level by level: the number of links to each
    /// page and the number of shortest paths to it, or `None` where such a number does
    /// not fit in a `u64`.
    #[verifier::rlimit(100)]
    #[verifier::spinoff_prover]
    fn shortest_path_counts(&self, s: usize) -> (r: Option<(Vec<usize>, Vec<u64>)>)
        requires
            self@.wf(),
            s < self@.n(),
        ensures
            match r {
                Some((dist, cnt)) => counts_fit(self@, s as int) && search_result(self@, s as int, dist@, cnt@),
                None => !counts_fit(self@, s as int),
            },
    {
        let ghost m = self@;
        let n = self.adj.len();
        proof {
            assert(m.n() == n);
        }
        let mut dist: Vec<usize> = Vec::new();
        let mut cnt: Vec<u64> = Vec::new();
        let mut visited: Vec<bool> = Vec::new();
        let mut z: usize = 0;
        while z < n
            invariant
                z <= n,
                dist.len() == z,
                cnt.len() == z,
                visited.len() == z,
                forall|v: int| 0 <= v < z ==> dist@[v] == n && cnt@[v] == 0 && !visited@[v],
            decreases n - z,
        {
            dist.push(n);
            cnt.push(0);
            visited.push(false);
            z = z + 1;
        }
        proof {
            lemma_count_true_zero(visited@);
            lemma_count_true_update(visited@, s as int);
        }
        dist.set(s, 0);
        cnt.set(s, 1);
        visited.set(s, true);
        let mut seen: usize = 1;
        let mut k: usize = 0;
        proof {
            assert forall|v: int| 0 <= v < n implies ((#[trigger] dist@[v] <= k) <==> m.reach_le(s as int, v, k as nat)) by {}
            assert forall|v: int| 0 <= v < n && #[trigger] dist@[v] <= k implies exact_level(m, s as int, v, dist@[v] as nat)
                && cnt@[v] == path_counts(m, s as int, dist@[v] as nat)[v] by {}
        }
        loop
            invariant_except_break
                n == self.adj.len(),
                m == self@,
                m.wf(),
                m.n() == n,
                s < n,
                dist.len() == n,
                cnt.len() == n,
                visited.len() == n,
                seen == count_true(visited@),
                seen <= n,
                k + 1 <= seen,
                forall|v: int| 0 <= v < n ==> (#[trigger] visited@[v] <==> dist@[v] != n),
                forall|v: int| 0 <= v < n ==> (#[trigger] dist@[v] == n || dist@[v] <= k),
                forall|v: int| 0 <= v < n ==> ((#[trigger] dist@[v] <= k) <==> m.reach_le(s as int, v, k as nat)),
                forall|v: int|
                    0 <= v < n && #[trigger] dist@[v] <= k ==> exact_level(m, s as int, v, dist@[v] as nat) && cnt@[v]
                        == path_counts(m, s as int, dist@[v] as nat)[v],
                forall|v: int, d: nat|
                    0 <= v < n && d <= k && exact_level(m, s as int, v, d) ==> #[trigger] path_counts(m, s as int, d)[v]
                        <= u64::MAX,
            ensures
                counts_fit(m, s as int),
                search_result(m, s as int, dist@, cnt@),
            decreases n - seen,
        {
            if seen == n {
                proof {
                    lemma_count_true_full(visited@);
                    assert forall|v: int| 0 <= v < n implies (#[trigger] dist@[v] < n <==> reached(m, s as int, v)) by {
                        assert(visited@[v]);
                        assert(m.reach_le(s as int, v, k as nat));
                    }
                    assert forall|v: int, d: nat| 0 <= v < n && exact_level(m, s as int, v, d) implies #[trigger] path_counts(
                        m,
                        s as int,
                        d,
                    )[v] <= u64::MAX by {
                        assert(visited@[v]);
                        if d > k {
                            lemma_reach_mono(m, s as int, v, k as nat, (d - 1) as nat);
                        }
                    }
                }
                break;
            }
            let ghost seen0 = seen;
            let ghost pc = path_counts(m, s as int, k as nat);
            let mut changed = false;
            let mut u: usize = 0;
            while u < n
                invariant
                    n == self.adj.len(),
                    m == self@,
                    m.wf(),
                    m.n() == n,
                    s < n,
                    u <= n,
                    dist.len() == n,
                    cnt.len() == n,
                    visited.len() == n,
                    pc == path_counts(m, s as int, k as nat),
                    seen == count_true(visited@),
                    seen <= n,
                    k + 1 <= seen0 <= seen,
                    seen0 < n,
                    changed ==> seen > seen0,
                    !changed ==> forall|v: int| 0 <= v < n ==> #[trigger] dist@[v] != k + 1,
                    forall|v: int| 0 <= v < n ==> (#[trigger] visited@[v] <==> dist@[v] != n),
                    forall|v: int| 0 <= v < n ==> (#[trigger] dist@[v] == n || dist@[v] <= k + 1),
                    forall|v: int| 0 <= v < n ==> ((#[trigger] dist@[v] <= k) <==> m.reach_le(s as int, v, k as nat)),
                    forall|v: int|
                        0 <= v < n && #[trigger] dist@[v] <= k ==> exact_level(m, s as int, v, dist@[v] as nat) && cnt@[v]
                            == path_counts(m, s as int, dist@[v] as nat)[v],
                    forall|v: int|
                        0 <= v < n ==> ((#[trigger] dist@[v] == k + 1) <==> (!m.reach_le(s as int, v, k as nat) && hit(
                            m,
                            s as int,
                            k as nat,
                            v,
                            u as int,
                        ))),
                    forall|v: int|
                        0 <= v < n && #[trigger] dist@[v] == k + 1 ==> cnt@[v] == pred_sum(m, s as int, k as nat, pc, v, u as int),
                    forall|v: int|
                        0 <= v < n && #[trigger] dist@[v] == n ==> pred_sum(m, s as int, k as nat, pc, v, u as int) == 0,
                    forall|v: int, d: nat|
                        0 <= v < n && d <= k && exact_level(m, s as int, v, d) ==> #[trigger] path_counts(m, s as int, d)[v]
                            <= u64::MAX,
                decreases n - u,
            {
                if dist[u] == k {
                    let row = &self.adj[u];
                    let cu = cnt[u];
                    proof {
                        assert(m.adj[u as int] == row@);
                        assert(exact_level(m, s as int, u as int, k as nat));
                        assert(cu == pc[u as int]);
                    }
                    let mut j: usize = 0;
                    while j < row.len()
                        invariant
                            n == self.adj.len(),
                            m == self@,
                            m.wf(),
                            m.n() == n,
                            s < n,
                            u < n,
                            j <= row.len(),
                            row@ == m.adj[u as int],
                            exact_level(m, s as int, u as int, k as nat),
                            cu == pc[u as int],
                            dist.len() == n,
                            cnt.len() == n,
                            visited.len() == n,
                            pc == path_counts(m, s as int, k as nat),
                            seen == count_true(visited@),
                            seen <= n,
                            k + 1 <= seen0 <= seen,
                            seen0 < n,
                    seen0 < n,
                            changed ==> seen > seen0,
                            !changed ==> forall|v: int| 0 <= v < n ==> #[trigger] dist@[v] != k + 1,
                            forall|v: int| 0 <= v < n ==> (#[trigger] visited@[v] <==> dist@[v] != n),
                            forall|v: int| 0 <= v < n ==> (#[trigger] dist@[v] == n || dist@[v] <= k + 1),
                            forall|v: int| 0 <= v < n ==> ((#[trigger] dist@[v] <= k) <==> m.reach_le(s as int, v, k as nat)),
                            forall|v: int|
                                0 <= v < n && #[trigger] dist@[v] <= k ==> exact_level(m, s as int, v, dist@[v] as nat)
                                    && cnt@[v] == path_counts(m, s as int, dist@[v] as nat)[v],
                            forall|v: int|
                                0 <= v < n ==> ((#[trigger] dist@[v] == k + 1) <==> (!m.reach_le(s as int, v, k as nat) && (hit(
                                    m,
                                    s as int,
                                    k as nat,
                                    v,
                                    u as int,
                                ) || row@.take(j as int).contains(v as usize)))),
                            forall|v: int|
                                0 <= v < n && #[trigger] dist@[v] == k + 1 ==> cnt@[v] == pred_sum(
                                    m,
                                    s as int,
                                    k as nat,
                                    pc,
                                    v,
                                    u as int,
                                ) + occurrences(row@.take(j as int), v) * cu,
                            forall|v: int|
                                0 <= v < n && #[trigger] dist@[v] == n ==> pred_sum(m, s as int, k as nat, pc, v, u as int) == 0
                                    && occurrences(row@.take(j as int), v) == 0,
                            forall|v: int, d: nat|
                                0 <= v < n && d <= k && exact_level(m, s as int, v, d) ==> #[trigger] path_counts(
                                    m,
                                    s as int,
                                    d,
                                )[v] <= u64::MAX,
                        decreases row.len() - j,
                    {
                        let w = row[j];
                        proof {
                            assert(m.adj[u as int][j as int] == w);
                            assert(w < n);
                            assert(m.edge(u as int, w as int));
                            assert forall|v: int| 0 <= v < n implies occurrences(row@.take(j + 1), v) == occurrences(
                                row@.take(j as int),
                                v,
                            ) + if v == w as int { 1nat } else { 0nat } by {
                                lemma_occurrences_take(row@, v, j as int);
                            }
                            assert forall|x: usize| #[trigger] row@.take(j + 1).contains(x) == (row@.take(j as int).contains(x)
                                || x == w) by {
                                if row@.take(j + 1).contains(x) {
                                    let i = choose|i: int| 0 <= i < j + 1 && #[trigger] row@.take(j + 1)[i] == x;
                                    if i < j {
                                        assert(row@.take(j as int)[i] == x);
                                    }
                                }
                                if row@.take(j as int).contains(x) {
                                    let i = choose|i: int| 0 <= i < j && #[trigger] row@.take(j as int)[i] == x;
                                    assert(row@.take(j + 1)[i] == x);
                                }
                                if x == w {
                                    assert(row@.take(j + 1)[j as int] == x);
                                }
                            }
                        }
                        if dist[w] == n {
                            proof {
                                assert(!visited@[w as int]);
                                lemma_count_true_update(visited@, w as int);
                                lemma_count_true_le(visited@.update(w as int, true));
                                assert(!m.reach_le(s as int, w as int, k as nat));
                                assert(cu * 1 == cu);
                            }
                            dist.set(w, k + 1);
                            cnt.set(w, cu);
                            visited.set(w, true);
                            seen = seen + 1;
                            changed = true;
                        } else if dist[w] == k + 1 {
                            let c = cnt[w];
                            proof {
                                assert((occurrences(row@.take(j as int), w as int) + 1) * cu == occurrences(
                                    row@.take(j as int),
                                    w as int,
                                ) * cu + cu) by (nonlinear_arith);
                            }
                            match c.checked_add(cu) {
                                Some(x) => {
                                    cnt.set(w, x);
                                },
                                None => {
                                    proof {
                                        let v = w as int;
                                        assert(exact_level(m, s as int, v, (k + 1) as nat));
                                        let total = path_counts(m, s as int, (k + 1) as nat)[v];
                                        assert(total == pred_sum(m, s as int, k as nat, pc, v, n as int));
                                        lemma_occurrences_le(row@, v, j + 1);
                                        assert(row@.take(row.len() as int) =~= row@);
                                        let a = occurrences(row@.take(j + 1), v);
                                        let b = occurrences(row@, v);
                                        assert(a * cu <= b * cu) by (nonlinear_arith)
                                            requires
                                                a <= b,
                                        ;
                                        lemma_pred_sum_mono(m, s as int, k as nat, pc, v, u + 1, n as int);
                                        assert(pred_sum(m, s as int, k as nat, pc, v, u + 1) == pred_sum(
                                            m,
                                            s as int,
                                            k as nat,
                                            pc,
                                            v,
                                            u as int,
                                        ) + b * pc[u as int]);
                                        assert(total > u64::MAX);
                                        assert(path_counts(m, s as int, (k + 1) as nat)[v] > u64::MAX);
                                    }
                                    return None;
                                },
                            }
                        }
                        j = j + 1;
                    }
                    proof {
                        assert(row@.take(row.len() as int) =~= row@);
                        assert forall|v: int| 0 <= v < n implies (hit(m, s as int, k as nat, v, u + 1) <==> (hit(
                            m,
                            s as int,
                            k as nat,
                            v,
                            u as int,
                        ) || row@.contains(v as usize))) by {
                            if hit(m, s as int, k as nat, v, u + 1) && !hit(m, s as int, k as nat, v, u as int) {
                                let x = choose|x: int| 0 <= x < u + 1 && #[trigger] exact_level(m, s as int, x, k as nat) && m.edge(x, v);
                                assert(x == u);
                            }
                            if row@.contains(v as usize) {
                                assert(exact_level(m, s as int, u as int, k as nat) && m.edge(u as int, v));
                            }
                        }
                        assert forall|v: int| 0 <= v < n && #[trigger] dist@[v] == n implies pred_sum(
                            m,
                            s as int,
                            k as nat,
                            pc,
                            v,
                            u + 1,
                        ) == 0 by {
                            assert(occurrences(row@, v) == 0);
                        }
                    }
                } else {
                    proof {
                        assert(!exact_level(m, s as int, u as int, k as nat)) by {
                            if exact_level(m, s as int, u as int, k as nat) {
                                if dist@[u as int] <= k {
                                    lemma_exact_unique(m, s as int, u as int, k as nat, dist@[u as int] as nat);
                                }
                            }
                        }
                        assert forall|v: int| 0 <= v < n implies (hit(m, s as int, k as nat, v, u + 1) <==> hit(
                            m,
                            s as int,
                            k as nat,
                            v,
                            u as int,
                        )) by {
                            if hit(m, s as int, k as nat, v, u + 1) {
                                let x = choose|x: int| 0 <= x < u + 1 && #[trigger] exact_level(m, s as int, x, k as nat) && m.edge(x, v);
                                assert(x != u);
                            }
                        }
                    }
                }
                u = u + 1;
            }
            proof {
                assert forall|v: int| 0 <= v < n implies ((#[trigger] dist@[v] == k + 1) <==> exact_level(
                    m,
                    s as int,
                    v,
                    (k + 1) as nat,
                )) by {
                    if exact_level(m, s as int, v, (k + 1) as nat) {
                        let x = choose|x: int| #![trigger m.edge(x, v)] m.reach_le(s as int, x, k as nat) && m.edge(x, v);
                        assert(0 <= x < n);
                        if k > 0 && m.reach_le(s as int, x, (k - 1) as nat) {
                            assert(m.reach_le(s as int, v, k as nat));
                        }
                        assert(exact_level(m, s as int, x, k as nat));
                        assert(hit(m, s as int, k as nat, v, n as int));
                    }
                    if dist@[v] == k + 1 {
                        let x = choose|x: int| 0 <= x < n && #[trigger] exact_level(m, s as int, x, k as nat) && m.edge(x, v);
                        assert(m.reach_le(s as int, v, (k + 1) as nat));
                    }
                }
                assert forall|v: int| 0 <= v < n && #[trigger] dist@[v] == k + 1 implies cnt@[v] == path_counts(
                    m,
                    s as int,
                    (k + 1) as nat,
                )[v] by {
                    assert(exact_level(m, s as int, v, (k + 1) as nat));
                }
            }
            if !changed {
                proof {
                    assert forall|x: int| 0 <= x < n && #[trigger] m.reach_le(s as int, x, (k + 1) as nat) implies m.reach_le(
                        s as int,
                        x,
                        k as nat,
                    ) by {
                        if !m.reach_le(s as int, x, k as nat) {
                            assert(exact_level(m, s as int, x, (k + 1) as nat));
                            assert(dist@[x] == k + 1);
                        }
                    }
                    assert forall|v: int| 0 <= v < n implies (#[trigger] dist@[v] < n <==> reached(m, s as int, v)) by {
                        if reached(m, s as int, v) {
                            let j = choose|j: nat| m.reach_le(s as int, v, j);
                            lemma_reach_settled(m, s as int, k as nat, j, v);
                        }
                        if dist@[v] < n {
                            assert(dist@[v] <= k);
                            assert(m.reach_le(s as int, v, k as nat));
                        }
                    }
                    assert forall|v: int, d: nat| 0 <= v < n && exact_level(m, s as int, v, d) implies #[trigger] path_counts(
                        m,
                        s as int,
                        d,
                    )[v] <= u64::MAX by {
                        if d > k {
                            lemma_reach_settled(m, s as int, k as nat, d, v);
                            lemma_reach_mono(m, s as int, v, k as nat, (d - 1) as nat);
                        }
                    }
                }
                break;
            }
            proof {
                assert forall|v: int| 0 <= v < n implies ((#[trigger] dist@[v] <= k + 1) <==> m.reach_le(
                    s as int,
                    v,
                    (k + 1) as nat,
                )) by {
                    if m.reach_le(s as int, v, (k + 1) as nat) && !m.reach_le(s as int, v, k as nat) {
                        assert(exact_level(m, s as int, v, (k + 1) as nat));
                    }
                }
                assert forall|v: int, d: nat|
                    0 <= v < n && d <= k + 1 && exact_level(m, s as int, v, d) implies #[trigger] path_counts(
                    m,
                    s as int,
                    d,
                )[v] <= u64::MAX by {
                    if d == k + 1 {
                        assert(dist@[v] == k + 1);
                    }
                }
            }
            k = k + 1;
        }
        Some((dist, cnt))
    }

    /// The betweenness shares of every page, in page order (see `betweenness_shares`):
    /// for each pair of other pages with a shortest path through the page, the number of
    /// such paths and the number of all shortest paths of the pair. `None` where a count
    /// of paths does not fit in a `u64`.
    #[verifier::rlimit(60)]
    #[verifier::spinoff_prover]
    pub fn betweenness_shares(&self) -> (r: Option<Vec<Vec<(u64, u64)>>>)
        requires
            self@.wf(),
        ensures
            match r {
                Some(c) => shares_fit(self@) && c.len() == self@.n() && forall|v: int|
                    0 <= v < c.len() ==> shares_view(#[trigger] c@[v]@) == betweenness_shares(self@, v),
                None => !shares_fit(self@),
            },
    {
        let ghost m = self@;
        let n = self.adj.len();
        proof {
            assert(m.n() == n);
        }
        let mut dists: Vec<Vec<usize>> = Vec::new();
        let mut cnts: Vec<Vec<u64>> = Vec::new();
        let mut s: usize = 0;
        while s < n
            invariant
                n == self.adj.len(),
                m == self@,
                m.wf(),
                m.n() == n,
                s <= n,
                dists.len() == s,
                cnts.len() == s,
                forall|x: int| 0 <= x < s ==> #[trigger] counts_fit(m, x) && search_result(m, x, dists@[x]@, cnts@[x]@),
            decreases n - s,
        {
            let ghost old_dists = dists@;
            let ghost old_cnts = cnts@;
            match self.shortest_path_counts(s) {
                Some((d, c)) => {
                    let ghost dv = d@;
                    let ghost cv = c@;
                    dists.push(d);
                    cnts.push(c);
                    proof {
                        assert(dists@[s as int]@ == dv);
                        assert(cnts@[s as int]@ == cv);
                        assert(counts_fit(m, s as int) && search_result(m, s as int, dists@[s as int]@, cnts@[s as int]@));
                        assert forall|x: int| 0 <= x < s + 1 implies #[trigger] counts_fit(m, x) && search_result(
                            m,
                            x,
                            dists@[x]@,
                            cnts@[x]@,
                        ) by {
                            if x < s {
                                assert(dists@[x] == old_dists[x]);
                                assert(cnts@[x] == old_cnts[x]);
                            }
                        }
                    }
                },
                None => {
                    return None;
                },
            }
            s = s + 1;
        }
        let mut out: Vec<Vec<(u64, u64)>> = Vec::new();
        let mut v: usize = 0;
        while v < n
            invariant
                n == self.adj.len(),
                m == self@,
                m.wf(),
                m.n() == n,
                v <= n,
                dists.len() == n,
                cnts.len() == n,
                forall|x: int| 0 <= x < n ==> #[trigger] counts_fit(m, x) && search_result(m, x, dists@[x]@, cnts@[x]@),
                out.len() == v,
                forall|y: int| 0 <= y < v ==> shares_view(#[trigger] out@[y]@) == betweenness_shares(m, y),
                forall|x: int, y: int, z: int|
                    0 <= x < n && 0 <= y < v && 0 <= z < n ==> #[trigger] via_count(m, x, y, z) <= u64::MAX,
            decreases n - v,
        {
            let mut row: Vec<(u64, u64)> = Vec::new();
            let mut a: usize = 0;
            proof {
                assert(shares_view(row@) =~= share_rows(m, v as int, 0));
            }
            while a < n
                invariant
                    n == self.adj.len(),
                    m == self@,
                    m.wf(),
                    m.n() == n,
                    v < n,
                    a <= n,
                    dists.len() == n,
                    cnts.len() == n,
                    forall|x: int| 0 <= x < n ==> #[trigger] counts_fit(m, x) && search_result(m, x, dists@[x]@, cnts@[x]@),
                    shares_view(row@) == share_rows(m, v as int, a as int),
                    forall|x: int, y: int, z: int|
                        0 <= x < n && 0 <= y < v && 0 <= z < n ==> #[trigger] via_count(m, x, y, z) <= u64::MAX,
                    forall|x: int, z: int| 0 <= x < a && 0 <= z < n ==> #[trigger] via_count(m, x, v as int, z) <= u64::MAX,
                decreases n - a,
            {
                let mut t: usize = 0;
                let ghost row0 = shares_view(row@);
                proof {
                    assert(counts_fit(m, a as int));
                    assert(counts_fit(m, v as int));
                    assert(row0 + share_row(m, v as int, a as int, 0) =~= row0);
                }
                while t < n
                    invariant
                        n == self.adj.len(),
                        m == self@,
                        m.wf(),
                        m.n() == n,
                        v < n,
                        a < n,
                        t <= n,
                        dists.len() == n,
                        cnts.len() == n,
                        search_result(m, a as int, dists@[a as int]@, cnts@[a as int]@),
                        search_result(m, v as int, dists@[v as int]@, cnts@[v as int]@),
                        row0 == share_rows(m, v as int, a as int),
                        shares_view(row@) == row0 + share_row(m, v as int, a as int, t as int),
                        forall|x: int, y: int, z: int|
                            0 <= x < n && 0 <= y < v && 0 <= z < n ==> #[trigger] via_count(m, x, y, z) <= u64::MAX,
                        forall|x: int, z: int| 0 <= x < a && 0 <= z < n ==> #[trigger] via_count(m, x, v as int, z) <= u64::MAX,
                        forall|z: int| 0 <= z < t ==> #[trigger] via_count(m, a as int, v as int, z) <= u64::MAX,
                    decreases n - t,
                {
                    let dsv = dists[a][v];
                    let dvt = dists[v][t];
                    let dst = dists[a][t];
                    let on_path = a != v && t != v && a != t && dsv < n && dvt < n && dst < n && dsv <= dst && dst - dsv
                        == dvt;
                    proof {
                        let si = a as int;
                        let vi = v as int;
                        let ti = t as int;
                        if dsv < n {
                            lemma_level(m, si, vi, dsv as nat);
                        }
                        if dvt < n {
                            lemma_level(m, vi, ti, dvt as nat);
                        }
                        if dst < n {
                            lemma_level(m, si, ti, dst as nat);
                        }
                        assert(on_path == (si != vi && ti != vi && si != ti && reached(m, si, vi) && reached(m, vi, ti)
                            && reached(m, si, ti) && level(m, si, vi) + level(m, vi, ti) == level(m, si, ti)));
                    }
                    let ghost before = shares_view(row@);
                    if on_path {
                        let x = cnts[a][v];
                        let y = cnts[v][t];
                        let total = cnts[a][t];
                        proof {
                            assert(x == sigma(m, a as int, v as int));
                            assert(y == sigma(m, v as int, t as int));
                            assert(total == sigma(m, a as int, t as int));
                            assert(via_count(m, a as int, v as int, t as int) == x * y);
                        }
                        let p = match x.checked_mul(y) {
                            Some(p) => p,
                            None => {
                                proof {
                                    assert(via_count(m, a as int, v as int, t as int) > u64::MAX);
                                }
                                return None;
                            },
                        };
                        if p > 0 {
                            row.push((p, total));
                            proof {
                                assert(shares_view(row@) =~= before.push((p as nat, total as nat)));
                                assert(share_row(m, v as int, a as int, t + 1) == share_row(m, v as int, a as int, t as int).push(
                                    (via_count(m, a as int, v as int, t as int), sigma(m, a as int, t as int)),
                                ));
                                assert(shares_view(row@) =~= row0 + share_row(m, v as int, a as int, t + 1));
                            }
                        }
                    }
                    t = t + 1;
                }
                proof {
                    assert(share_rows(m, v as int, a + 1) == row0 + share_row(m, v as int, a as int, n as int));
                }
                a = a + 1;
            }
            proof {
                assert(betweenness_shares(m, v as int) == share_rows(m, v as int, n as int));
            }
            out.push(row);
            proof {
                assert forall|y: int| 0 <= y < v + 1 implies shares_view(#[trigger] out@[y]@) == betweenness_shares(m, y) by {
                    if y == v {
                        assert(out@[y] == row);
                    }
                }
            }
            v = v + 1;
        }
        Some(out)
    }
}

} // verus!
