use vstd::prelude::*;

use crate::text::{owned, same_text};

pub mod betweenness;

verus! {

/// A path between two pages: the pages in order and the number of hops.
pub struct PathResult {
    pub path: Vec<String>,
    pub length: usize,
}

/// The mathematical model of a directed page graph: the distinct page
/// names, in order of first appearance, and for each page the indices of the
/// pages it links to, in the order the links were added.
pub struct GraphModel {
    pub names: Seq<Seq<char>>,
    pub adj: Seq<Seq<usize>>,
}

impl GraphModel {
    pub open spec fn n(self) -> int {
        self.names.len() as int
    }

    pub open spec fn wf(self) -> bool {
        &&& self.adj.len() == self.names.len()
        &&& forall|i: int, j: int|
            0 <= i < self.names.len() && 0 <= j < self.names.len() && i != j
                ==> self.names[i] != self.names[j]
        &&& forall|u: int, k: int|
            0 <= u < self.adj.len() && 0 <= k < self.adj[u].len() ==> self.adj[u][k] < self.names.len()
    }

    /// There is a link from page `u` to page `v`.
    pub open spec fn edge(self, u: int, v: int) -> bool {
        0 <= u < self.adj.len() && self.adj[u].contains(v as usize)
    }

    /// `w` is a sequence of pages in which each page links to the next.
    pub open spec fn is_walk(self, w: Seq<int>) -> bool {
        &&& w.len() >= 1
        &&& forall|i: int| 0 <= i < w.len() ==> 0 <= #[trigger] w[i] < self.n()
        &&& forall|i: int| 0 <= i < w.len() - 1 ==> self.edge(#[trigger] w[i], w[i + 1])
    }

    /// `w` is a walk that starts at the page named `a` and ends at the page named `b`.
    pub open spec fn walk_between(self, w: Seq<int>, a: Seq<char>, b: Seq<char>) -> bool {
        &&& self.is_walk(w)
        &&& self.names[w[0]] == a
        &&& self.names[w[w.len() - 1]] == b
    }

    /// The names of the pages along `w`.
    pub open spec fn names_along(self, w: Seq<int>) -> Seq<Seq<char>> {
        w.map_values(|i: int| self.names[i])
    }

    pub open spec fn has_name(self, name: Seq<char>) -> bool {
        exists|i: int| 0 <= i < self.names.len() && self.names[i] == name
    }

    pub open spec fn index_of(self, name: Seq<char>) -> int {
        choose|i: int| 0 <= i < self.names.len() && self.names[i] == name
    }

    /// The model after making sure a page of the given name exists, and the index of that page.
    pub open spec fn intern(self, name: Seq<char>) -> (GraphModel, int) {
        if self.has_name(name) {
            (self, self.index_of(name))
        } else {
            (GraphModel { names: self.names.push(name), adj: self.adj.push(Seq::empty()) }, self.n())
        }
    }

    /// The model after adding a link from the page named `from` to the page named `to`,
    /// creating either page first if it is new.
    pub open spec fn add_edge(self, from: Seq<char>, to: Seq<char>) -> GraphModel {
        let (m1, f) = self.intern(from);
        let (m2, t) = m1.intern(to);
        GraphModel { names: m2.names, adj: m2.adj.update(f, m2.adj[f].push(t as usize)) }
    }

    /// Page `v` can be reached from page `s` with at most `k` links.
    pub open spec fn reach_le(self, s: int, v: int, k: nat) -> bool
        decreases k,
    {
        if k == 0 {
            v == s
        } else {
            self.reach_le(s, v, (k - 1) as nat) || exists|u: int|
                #![trigger self.edge(u, v)]
                self.reach_le(s, u, (k - 1) as nat) && self.edge(u, v)
        }
    }
}

pub open spec fn names_of(v: Seq<String>) -> Seq<Seq<char>> {
    v.map_values(|s: String| s@)
}

/// Directed page graph on which the graph algorithms run.
pub struct GraphAlgorithms {
    names: Vec<String>,
    adj: Vec<Vec<usize>>,
}

impl View for GraphAlgorithms {
    type V = GraphModel;

    closed spec fn view(&self) -> GraphModel {
        GraphModel { names: names_of(self.names@), adj: self.adj@.map_values(|r: Vec<usize>| r@) }
    }
}

impl GraphAlgorithms {
    /// An empty graph.
    pub fn new() -> (g: Self)
        ensures
            g@.wf(),
            g@.names == Seq::<Seq<char>>::empty(),
            g@.adj == Seq::<Seq<usize>>::empty(),
    {
        let g = GraphAlgorithms { names: Vec::new(), adj: Vec::new() };
        assert(g@.names =~= Seq::<Seq<char>>::empty());
        assert(g@.adj =~= Seq::<Seq<usize>>::empty());
        g
    }

    /// The number of pages.
    pub fn node_count(&self) -> (r: usize)
        ensures
            r == self@.n(),
    {
        self.names.len()
    }

    /// The name of page `i`.
    pub fn node_name(&self, i: usize) -> (r: String)
        requires
            i < self@.n(),
        ensures
            r@ == self@.names[i as int],
    {
        self.names[i].clone()
    }

    /// The pages that page `i` links to, in order.
    pub fn neighbors(&self, i: usize) -> (r: Vec<usize>)
        requires
            self@.wf(),
            i < self@.n(),
        ensures
            r@ == self@.adj[i as int],
    {
        self.adj[i].clone()
    }

    /// The index of the page with the given name, if any.
    pub fn find_node(&self, name: &String) -> (r: Option<usize>)
        requires
            self@.wf(),
        ensures
            match r {
                Some(i) => i < self@.n() && self@.names[i as int] == name@ && i == self@.index_of(name@),
                None => !self@.has_name(name@),
            },
    {
        let mut i: usize = 0;
        while i < self.names.len()
            invariant
                i <= self.names.len(),
                self@.wf(),
                self@.names.len() == self.names.len(),
                forall|j: int| 0 <= j < i ==> self@.names[j] != name@,
            decreases self.names.len() - i,
        {
            if same_text(&self.names[i], name) {
                proof {
                    let k = self@.index_of(name@);
                    assert(self@.names[i as int] == name@);
                    assert(self@.has_name(name@));
                }
                return Some(i);
            }
            i = i + 1;
        }
        None
    }

    fn intern(&mut self, name: &String) -> (r: usize)
        requires
            old(self)@.wf(),
        ensures
            final(self)@.wf(),
            r < final(self)@.n(),
            (final(self)@, r as int) == old(self)@.intern(name@),
    {
        match self.find_node(name) {
            Some(i) => i,
            None => {
                let ghost m = self@;
                let i = self.names.len();
                self.names.push(name.clone());
                self.adj.push(Vec::new());
                proof {
                    assert(self@.names =~= m.names.push(name@));
                    assert(self@.adj =~= m.adj.push(Seq::empty()));
                }
                i
            },
        }
    }

    /// Adds a page without links, unless a page of that name exists.
    pub fn add_node(&mut self, name: &str)
        requires
            old(self)@.wf(),
        ensures
            final(self)@.wf(),
            final(self)@ == old(self)@.intern(name@).0,
    {
        let s = owned(name);
        let _ = self.intern(&s);
    }

    /// Adds a link from `from` to `to`, creating either page if it is new.
    pub fn add_edge(&mut self, from: &str, to: &str)
        requires
            old(self)@.wf(),
        ensures
            final(self)@.wf(),
            final(self)@ == old(self)@.add_edge(from@, to@),
    {
        let from_s = owned(from);
        let to_s = owned(to);
        let f = self.intern(&from_s);
        let t = self.intern(&to_s);
        let ghost m2 = self@;
        self.adj[f].push(t);
        proof {
            assert(self@.adj =~= m2.adj.update(f as int, m2.adj[f as int].push(t)));
            assert(self@.names =~= m2.names);
        }
    }

    /// The shortest chain of links from `start` to `end`, found breadth-first.
    /// A page reaches itself with no links, whether or not it is in the graph.
    #[verifier::rlimit(80)]
    pub fn shortest_path(&self, start: &str, end: &str) -> (r: Option<PathResult>)
        requires
            self@.wf(),
        ensures
            match r {
                Some(p) => {
                    &&& p.path.len() >= 1
                    &&& p.length == p.path.len() - 1
                    &&& if start@ == end@ {
                        names_of(p.path@) == seq![start@]
                    } else {
                        exists|w: Seq<int>|
                            {
                                &&& self@.walk_between(w, start@, end@)
                                &&& names_of(p.path@) == self@.names_along(w)
                                &&& forall|w2: Seq<int>|
                                    self@.walk_between(w2, start@, end@) ==> w2.len() >= w.len()
                            }
                    }
                },
                None => start@ != end@ && !exists|w: Seq<int>| self@.walk_between(w, start@, end@),
            },
    {
        let start_s = owned(start);
        let end_s = owned(end);
        if same_text(&start_s, &end_s) {
            let mut path: Vec<String> = Vec::new();
            path.push(start_s);
            proof {
                assert(names_of(path@) =~= seq![start@]);
            }
            return Some(PathResult { path, length: 0 });
        }
        let s = match self.find_node(&start_s) {
            Some(s) => s,
            None => {
                proof {
                    assert forall|w: Seq<int>| !self@.walk_between(w, start@, end@) by {
                        if self@.walk_between(w, start@, end@) {
                            assert(0 <= w[0] < self@.n());
                        }
                    }
                }
                return None;
            },
        };
        let e = match self.find_node(&end_s) {
            Some(e) => e,
            None => {
                proof {
                    assert forall|w: Seq<int>| !self@.walk_between(w, start@, end@) by {
                        if self@.walk_between(w, start@, end@) {
                            assert(0 <= w[w.len() - 1] < self@.n());
                        }
                    }
                }
                return None;
            },
        };
        let ghost m = self@;
        let n = self.names.len();
        let mut visited: Vec<bool> = vec![false; n];
        let mut parent: Vec<usize> = vec![0; n];
        let ghost mut lev: Seq<nat> = Seq::new(n as nat, |i: int| 0nat);
        proof {
            lemma_count_true_update(visited@, s as int);
            assert(count_true(visited@) == 0) by {
                lemma_count_true_zero(visited@);
            }
        }
        visited.set(s, true);
        let mut seen: usize = 1;
        let mut layer: Vec<usize> = Vec::new();
        layer.push(s);
        let ghost mut k: nat = 0;
        proof {
            assert forall|v: int| 0 <= v < n implies (visited@[v] <==> m.reach_le(s as int, v, k)) by {}
            assert forall|v: int| 0 <= v < n implies (layer@.contains(v as usize) <==> exact_level(m, s as int, v, k)) by {
                if v == s {
                    assert(layer@[0] == v as usize);
                }
            }
        }
        loop
            invariant
                m == self@,
                m.wf(),
                n == m.n(),
                s < n,
                e < n,
                s != e,
                m.names[s as int] == start@,
                m.names[e as int] == end@,
                visited.len() == n,
                parent.len() == n,
                lev.len() == n,
                seen == count_true(visited@),
                forall|x: int| 0 <= x < layer.len() ==> layer@[x] < n,
                forall|v: int| 0 <= v < n ==> (#[trigger] visited@[v] <==> m.reach_le(s as int, v, k)),
                forall|v: usize| v < n ==> (#[trigger] layer@.contains(v) <==> exact_level(m, s as int, v as int, k)),
                k > 0 ==> !m.reach_le(s as int, e as int, (k - 1) as nat),
                lev[s as int] == 0,
                forall|v: int|
                    0 <= v < n && #[trigger] visited@[v] ==> {
                        &&& lev[v] <= k
                        &&& exact_level(m, s as int, v, lev[v])
                        &&& (lev[v] == 0 ==> v == s)
                        &&& (lev[v] > 0 ==> {
                            &&& parent@[v] < n
                            &&& visited@[parent@[v] as int]
                            &&& lev[parent@[v] as int] == lev[v] - 1
                            &&& m.edge(parent@[v] as int, v)
                        })
                    },
            decreases 2 * (n - seen) + if layer.len() > 0 { 1int } else { 0int },
        {
            proof {
                lemma_count_true_le(visited@);
            }
            if layer.len() == 0 {
                proof {
                    assert forall|x: int| m.reach_le(s as int, x, k + 1) implies m.reach_le(s as int, x, k) by {
                        if !m.reach_le(s as int, x, k) {
                            let u = choose|u: int| #![trigger m.edge(u, x)] m.reach_le(s as int, u, k) && m.edge(u, x);
                            assert(0 <= u < n);
                            if k == 0 || !m.reach_le(s as int, u, (k - 1) as nat) {
                                assert(exact_level(m, s as int, u, k));
                                assert(layer@.contains(u as usize));
                                assert(false);
                            }
                        }
                    }
                    if k > 0 {
                        assert(!m.reach_le(s as int, e as int, k)) by {
                            if m.reach_le(s as int, e as int, k) {
                                assert(layer@.contains(e));
                            }
                        }
                    }
                    assert forall|w: Seq<int>| !m.walk_between(w, start@, end@) by {
                        if m.walk_between(w, start@, end@) {
                            assert(w[0] == s as int);
                            assert(w[w.len() - 1] == e as int);
                            lemma_walk_reach(m, w);
                            lemma_reach_fixpoint(m, s as int, k, (w.len() - 1) as nat, e as int);
                        }
                    }
                }
                return None;
            }
            let mut next: Vec<usize> = Vec::new();
            let ghost seen0 = seen;
            let mut i: usize = 0;
            while i < layer.len()
                invariant
                    m == self@,
                    m.wf(),
                    n == m.n(),
                    s < n,
                    e < n,
                    s != e,
                    m.names[s as int] == start@,
                    m.names[e as int] == end@,
                    i <= layer.len(),
                    visited.len() == n,
                    parent.len() == n,
                    lev.len() == n,
                    seen == count_true(visited@),
                    seen <= n,
                    seen == seen0 + next.len(),
                    layer.len() > 0,
                    forall|x: int| 0 <= x < layer.len() ==> layer@[x] < n,
                    forall|x: int| 0 <= x < next.len() ==> next@[x] < n,
                    forall|x: int| 0 <= x < i ==> layer@[x] != e,
                    forall|v: usize| v < n ==> (#[trigger] layer@.contains(v) <==> exact_level(m, s as int, v as int, k)),
                    forall|v: int|
                        0 <= v < n ==> (#[trigger] visited@[v] <==> (m.reach_le(s as int, v, k) || next@.contains(v as usize))),
                    forall|v: usize| v < n && #[trigger] next@.contains(v) ==> visited@[v as int],
                    forall|v: usize|
                        v < n && #[trigger] next@.contains(v) ==> exact_level(m, s as int, v as int, k + 1),
                    forall|x: int, v: usize|
                        0 <= x < i && v < n && #[trigger] m.edge(layer@[x] as int, v as int) && !m.reach_le(s as int, v as int, k)
                            ==> next@.contains(v),
                    k > 0 ==> !m.reach_le(s as int, e as int, (k - 1) as nat),
                    lev[s as int] == 0,
                    forall|v: int|
                        0 <= v < n && #[trigger] visited@[v] ==> {
                            &&& lev[v] <= k + 1
                            &&& exact_level(m, s as int, v, lev[v])
                            &&& (lev[v] == 0 ==> v == s)
                            &&& (lev[v] > 0 ==> {
                                &&& parent@[v] < n
                                &&& visited@[parent@[v] as int]
                                &&& lev[parent@[v] as int] == lev[v] - 1
                                &&& m.edge(parent@[v] as int, v)
                            })
                        },
                decreases layer.len() - i,
            {
                let u = layer[i];
                proof {
                    assert(layer@.contains(u));
                    assert(exact_level(m, s as int, u as int, k));
                    assert(visited@[u as int]);
                    lemma_exact_unique(m, s as int, u as int, k, lev[u as int]);
                }
                if u == e {
                    proof {
                        assert(layer@.contains(e));
                        assert(exact_level(m, s as int, e as int, k));
                        assert(visited@[e as int]);
                        if lev[e as int] < k {
                            lemma_reach_mono(m, s as int, e as int, lev[e as int], (k - 1) as nat);
                        }
                        if lev[e as int] > k {
                            lemma_reach_mono(m, s as int, e as int, k, (lev[e as int] - 1) as nat);
                        }
                    }
                    return Some(self.trace_path(&parent, s, e, Ghost(lev), Ghost(k), Ghost(visited@)));
                }
                let mut jj: usize = 0;
                let row_len = self.adj[u].len();
                while jj < row_len
                    invariant
                        m == self@,
                        m.wf(),
                        n == m.n(),
                        s < n,
                        u < n,
                        exact_level(m, s as int, u as int, k),
                        visited@[u as int],
                        lev[u as int] == k,
                        row_len == m.adj[u as int].len(),
                        jj <= row_len,
                        visited.len() == n,
                        parent.len() == n,
                        lev.len() == n,
                        seen == count_true(visited@),
                        seen <= n,
                        seen == seen0 + next.len(),
                        forall|x: int| 0 <= x < next.len() ==> next@[x] < n,
                        forall|v: int|
                            0 <= v < n ==> (#[trigger] visited@[v] <==> (m.reach_le(s as int, v, k) || next@.contains(v as usize))),
                    forall|v: usize| v < n && #[trigger] next@.contains(v) ==> visited@[v as int],
                        forall|v: usize|
                            v < n && #[trigger] next@.contains(v) ==> exact_level(m, s as int, v as int, k + 1),
                        forall|x: int, v: usize|
                            0 <= x < i && v < n && #[trigger] m.edge(layer@[x] as int, v as int) && !m.reach_le(s as int, v as int, k)
                                ==> next@.contains(v),
                        forall|y: int|
                            0 <= y < jj && !m.reach_le(s as int, m.adj[u as int][y] as int, k)
                                ==> next@.contains(#[trigger] m.adj[u as int][y]),
                        lev[s as int] == 0,
                        forall|v: int|
                            0 <= v < n && #[trigger] visited@[v] ==> {
                                &&& lev[v] <= k + 1
                                &&& exact_level(m, s as int, v, lev[v])
                                &&& (lev[v] == 0 ==> v == s)
                                &&& (lev[v] > 0 ==> {
                                    &&& parent@[v] < n
                                    &&& visited@[parent@[v] as int]
                                    &&& lev[parent@[v] as int] == lev[v] - 1
                                    &&& m.edge(parent@[v] as int, v)
                                })
                            },
                    decreases row_len - jj,
                {
                    let v = self.adj[u][jj];
                    proof {
                        assert(m.adj[u as int][jj as int] == v);
                        assert(m.edge(u as int, v as int));
                        assert(m.adj[u as int].take(jj + 1).drop_last() =~= m.adj[u as int].take(jj as int));
                        assert(m.adj[u as int].take(jj + 1).last() == v);
                    }
                    if !visited[v] {
                        proof {
                            lemma_count_true_update(visited@, v as int);
                            lemma_count_true_le(visited@.update(v as int, true));
                            assert(m.reach_le(s as int, v as int, k + 1));
                            assert(!m.reach_le(s as int, v as int, k));
                            lemma_reach_mono(m, s as int, s as int, 0, k);
                            assert(v != s);
                        }
                        let ghost old_next = next@;
                        visited.set(v, true);
                        parent.set(v, u);
                        proof {
                            lev = lev.update(v as int, k + 1);
                        }
                        next.push(v);
                        seen = seen + 1;
                        proof {
                            assert forall|w: usize| #[trigger] old_next.contains(w) implies next@.contains(w) by {
                                let q = choose|q: int| 0 <= q < old_next.len() && old_next[q] == w;
                                assert(next@[q] == w);
                            }
                            assert(next@[next@.len() - 1] == v);
                            assert forall|w: usize| #[trigger] next@.contains(w) implies (w == v || old_next.contains(w)) by {
                                let q = choose|q: int| 0 <= q < next@.len() && next@[q] == w;
                                if q < old_next.len() {
                                    assert(old_next[q] == w);
                                }
                            }
                        }
                    }
                    proof {
                        assert(!m.reach_le(s as int, v as int, k) ==> next@.contains(v));
                    }
                    jj = jj + 1;
                }
                proof {
                    assert forall|v: usize|
                        v < n && #[trigger] m.edge(layer@[i as int] as int, v as int) && !m.reach_le(s as int, v as int, k)
                            implies next@.contains(v) by {
                        let y = choose|y: int| 0 <= y < m.adj[u as int].len() && m.adj[u as int][y] == v;
                        assert(m.adj[u as int][y] == v);
                    }
                }
                i = i + 1;
            }
            proof {
                assert(!m.reach_le(s as int, e as int, k)) by {
                    if m.reach_le(s as int, e as int, k) {
                        if k == 0 {
                            assert(layer@.contains(e));
                        } else {
                            assert(layer@.contains(e));
                        }
                        let x = choose|x: int| 0 <= x < layer.len() && layer@[x] == e;
                    }
                }
                assert forall|v: usize| v < n implies (#[trigger] next@.contains(v) <==> exact_level(m, s as int, v as int, k + 1)) by {
                    if exact_level(m, s as int, v as int, k + 1) {
                        let u = choose|u: int| #![trigger m.edge(u, v as int)] m.reach_le(s as int, u, k) && m.edge(u, v as int);
                        assert(0 <= u < n);
                        if k == 0 || !m.reach_le(s as int, u, (k - 1) as nat) {
                            assert(exact_level(m, s as int, u, k));
                            assert(layer@.contains(u as usize));
                            let x = choose|x: int| 0 <= x < layer.len() && layer@[x] == u as usize;
                            assert(m.edge(layer@[x] as int, v as int));
                        } else {
                            assert(m.reach_le(s as int, v as int, k));
                        }
                    }
                }
                assert forall|v: int| 0 <= v < n implies (visited@[v] <==> m.reach_le(s as int, v, k + 1)) by {}
            }
            layer = next;
            proof {
                k = k + 1;
            }
        }
    }

    /// The pages reachable from `start` with at most `max_depth` links, breadth-first:
    /// `start` first, each page once, closer pages before farther ones. A start that
    /// is not in the graph reaches only itself.
    #[verifier::rlimit(80)]
    pub fn reachable_within(&self, start: &str, max_depth: usize) -> (r: Vec<String>)
        requires
            self@.wf(),
        ensures
            !self@.has_name(start@) ==> names_of(r@) == seq![start@],
            self@.has_name(start@) ==> exists|w: Seq<int>|
                bfs_order(self@, self@.index_of(start@), max_depth as nat, w) && names_of(r@) == self@.names_along(w),
            self@.has_name(start@) ==> names_of(r@) == self@.names_along(
                fifo_order(self@, self@.index_of(start@), max_depth as nat).map_values(|x: usize| x as int),
            ),
    {
        let start_s = owned(start);
        let s = match self.find_node(&start_s) {
            Some(s) => s,
            None => {
                let mut r: Vec<String> = Vec::new();
                r.push(start_s);
                proof {
                    assert(names_of(r@) =~= seq![start@]);
                }
                return r;
            },
        };
        let ghost m = self@;
        let n = self.names.len();
        let mut visited: Vec<bool> = vec![false; n];
        visited.set(s, true);
        let mut out: Vec<usize> = Vec::new();
        out.push(s);
        proof {
            assert(visited@ =~= Seq::new(n as nat, |v: int| v == s as int));
            assert(out@ =~= seq![s]);
        }
        let ghost mut lv: Seq<nat> = seq![0nat];
        let mut layer: Vec<usize> = Vec::new();
        layer.push(s);
        let mut k: usize = 0;
        proof {
            assert(layer@ =~= seq![s]);
            assert(m.n() == n);
            assert(visited@ =~= only_marked(m.n() as nat, s as int));
            assert(seq![(s as int) as usize] =~= seq![s]);
            assert(fifo_order(m, s as int, max_depth as nat) == fifo_run(m.adj, layer@, visited@, out@, 0, max_depth as nat));
            assert forall|v: int| 0 <= v < n implies (visited@[v] <==> m.reach_le(s as int, v, 0)) by {}
            assert forall|v: usize| v < n implies (#[trigger] layer@.contains(v) <==> exact_level(m, s as int, v as int, 0)) by {
                if v == s {
                    assert(layer@[0] == v);
                }
            }
            assert forall|v: usize| v < n implies (#[trigger] out@.contains(v) <==> visited@[v as int]) by {
                if v == s {
                    assert(out@[0] == v);
                }
            }
        }
        while k < max_depth && layer.len() > 0
            invariant
                m == self@,
                m.wf(),
                n == m.n(),
                s < n,
                k <= max_depth,
                visited.len() == n,
                forall|x: int| 0 <= x < layer.len() ==> layer@[x] < n,
                forall|v: int| 0 <= v < n ==> (#[trigger] visited@[v] <==> m.reach_le(s as int, v, k as nat)),
                forall|v: usize| v < n ==> (#[trigger] layer@.contains(v) <==> exact_level(m, s as int, v as int, k as nat)),
                out.len() == lv.len(),
                out.len() >= 1,
                out@[0] == s,
                forall|i: int| 0 <= i < out.len() ==> out@[i] < n,
                forall|v: usize| v < n ==> (#[trigger] out@.contains(v) <==> visited@[v as int]),
                forall|i: int, j: int| 0 <= i < j < out.len() ==> out@[i] != out@[j],
                forall|i: int| 0 <= i < out.len() ==> exact_level(m, s as int, #[trigger] out@[i] as int, lv[i]),
                forall|i: int, j: int| 0 <= i < j < out.len() ==> lv[i] <= lv[j],
                forall|i: int| 0 <= i < out.len() ==> #[trigger] lv[i] <= k,
                fifo_order(m, s as int, max_depth as nat) == fifo_run(m.adj, layer@, visited@, out@, k as nat, max_depth as nat),
            decreases max_depth - k,
        {
            let mut next: Vec<usize> = Vec::new();
            let ghost out0 = out@;
            let ghost vis0 = visited@;
            let ghost lv0 = lv;
            proof {
                assert(layer@.take(0) =~= Seq::<usize>::empty());
            }
            let mut i: usize = 0;
            while i < layer.len()
                invariant
                    m == self@,
                    m.wf(),
                    n == m.n(),
                    s < n,
                    k < max_depth,
                    i <= layer.len(),
                    visited.len() == n,
                    forall|x: int| 0 <= x < layer.len() ==> layer@[x] < n,
                    forall|x: int| 0 <= x < next.len() ==> next@[x] < n,
                    forall|v: usize| v < n ==> (#[trigger] layer@.contains(v) <==> exact_level(m, s as int, v as int, k as nat)),
                    forall|v: int|
                        0 <= v < n ==> (#[trigger] visited@[v] <==> (m.reach_le(s as int, v, k as nat) || next@.contains(v as usize))),
                    forall|v: usize| v < n && #[trigger] next@.contains(v) ==> exact_level(m, s as int, v as int, (k + 1) as nat),
                    forall|x: int, v: usize|
                        0 <= x < i && v < n && #[trigger] m.edge(layer@[x] as int, v as int) && !m.reach_le(s as int, v as int, k as nat)
                            ==> next@.contains(v),
                    out@ == out0 + next@,
                    lv == lv0 + Seq::new(next.len() as nat, |q: int| (k + 1) as nat),
                    out0.len() == lv0.len(),
                    forall|v: usize| v < n ==> (#[trigger] out0.contains(v) <==> m.reach_le(s as int, v as int, k as nat)),
                    forall|i2: int, j2: int| 0 <= i2 < j2 < out.len() ==> out@[i2] != out@[j2],
                    forall|i2: int| 0 <= i2 < out.len() ==> out@[i2] < n,
                    forall|i2: int| 0 <= i2 < out0.len() ==> exact_level(m, s as int, #[trigger] out0[i2] as int, lv0[i2]),
                    forall|i2: int, j2: int| 0 <= i2 < j2 < out0.len() ==> lv0[i2] <= lv0[j2],
                    forall|i2: int| 0 <= i2 < out0.len() ==> #[trigger] lv0[i2] <= k,
                    fifo_order(m, s as int, max_depth as nat) == fifo_run(m.adj, layer@, vis0, out0, k as nat, max_depth as nat),
                    scan_layer(m.adj, layer@.take(i as int), vis0, Seq::empty()) == (visited@, next@),
                decreases layer.len() - i,
            {
                let u = layer[i];
                let ghost vis_i = visited@;
                let ghost next_i = next@;
                proof {
                    assert(m.adj[u as int].take(0) =~= Seq::<usize>::empty());
                }
                proof {
                    assert(layer@.contains(u));
                }
                let mut jj: usize = 0;
                let row_len = self.adj[u].len();
                while jj < row_len
                    invariant
                        m == self@,
                        m.wf(),
                        n == m.n(),
                        s < n,
                        u < n,
                        exact_level(m, s as int, u as int, k as nat),
                        row_len == m.adj[u as int].len(),
                        jj <= row_len,
                        visited.len() == n,
                        forall|x: int| 0 <= x < next.len() ==> next@[x] < n,
                        forall|v: int|
                            0 <= v < n ==> (#[trigger] visited@[v] <==> (m.reach_le(s as int, v, k as nat) || next@.contains(v as usize))),
                        forall|v: usize| v < n && #[trigger] next@.contains(v) ==> exact_level(m, s as int, v as int, (k + 1) as nat),
                        forall|x: int, v: usize|
                            0 <= x < i && v < n && #[trigger] m.edge(layer@[x] as int, v as int) && !m.reach_le(s as int, v as int, k as nat)
                                ==> next@.contains(v),
                        forall|y: int|
                            0 <= y < jj && !m.reach_le(s as int, m.adj[u as int][y] as int, k as nat)
                                ==> next@.contains(#[trigger] m.adj[u as int][y]),
                        out@ == out0 + next@,
                        lv == lv0 + Seq::new(next.len() as nat, |q: int| (k + 1) as nat),
                        forall|v: usize| v < n ==> (#[trigger] out0.contains(v) <==> m.reach_le(s as int, v as int, k as nat)),
                        forall|i2: int, j2: int| 0 <= i2 < j2 < out.len() ==> out@[i2] != out@[j2],
                        forall|i2: int| 0 <= i2 < out.len() ==> out@[i2] < n,
                        scan_row(m.adj[u as int].take(jj as int), vis_i, next_i) == (visited@, next@),
                    decreases row_len - jj,
                {
                    let v = self.adj[u][jj];
                    proof {
                        assert(m.adj[u as int][jj as int] == v);
                        assert(m.edge(u as int, v as int));
                        assert(m.adj[u as int].take(jj + 1).drop_last() =~= m.adj[u as int].take(jj as int));
                        assert(m.adj[u as int].take(jj + 1).last() == v);
                    }
                    if !visited[v] {
                        proof {
                            assert(m.reach_le(s as int, v as int, (k + 1) as nat));
                            assert(!m.reach_le(s as int, v as int, k as nat));
                            assert(!out0.contains(v));
                            assert(!next@.contains(v));
                        }
                        let ghost old_next = next@;
                        let ghost old_out = out@;
                        visited.set(v, true);
                        next.push(v);
                        out.push(v);
                        proof {
                            lv = lv.push((k + 1) as nat);
                            assert(out@ =~= out0 + next@);
                            assert(lv =~= lv0 + Seq::new(next.len() as nat, |q: int| (k + 1) as nat));
                            assert forall|w: usize| #[trigger] old_next.contains(w) implies next@.contains(w) by {
                                let q = choose|q: int| 0 <= q < old_next.len() && old_next[q] == w;
                                assert(next@[q] == w);
                            }
                            assert(next@[next@.len() - 1] == v);
                            assert forall|w: usize| #[trigger] next@.contains(w) implies (w == v || old_next.contains(w)) by {
                                let q = choose|q: int| 0 <= q < next@.len() && next@[q] == w;
                                if q < old_next.len() {
                                    assert(old_next[q] == w);
                                }
                            }
                            assert forall|i2: int, j2: int| 0 <= i2 < j2 < out.len() implies out@[i2] != out@[j2] by {
                                if j2 == out.len() - 1 {
                                    assert(out@[j2] == v);
                                    if i2 < out0.len() {
                                        assert(out0[i2] == out@[i2]);
                                        assert(out0.contains(out@[i2]));
                                    } else {
                                        assert(out@[i2] == old_next[i2 - out0.len()]);
                                        assert(old_next.contains(out@[i2]));
                                    }
                                } else {
                                    assert(out@[i2] == old_out[i2] && out@[j2] == old_out[j2]);
                                }
                            }
                        }
                    }
                    proof {
                        assert(!m.reach_le(s as int, v as int, k as nat) ==> next@.contains(v));
                    }
                    jj = jj + 1;
                }
                proof {
                    assert(m.adj[u as int].take(row_len as int) =~= m.adj[u as int]);
                    assert(layer@.take(i + 1).drop_last() =~= layer@.take(i as int));
                    assert(layer@.take(i + 1).last() == u);
                    assert forall|v: usize|
                        v < n && #[trigger] m.edge(layer@[i as int] as int, v as int) && !m.reach_le(s as int, v as int, k as nat)
                            implies next@.contains(v) by {
                        let y = choose|y: int| 0 <= y < m.adj[u as int].len() && m.adj[u as int][y] == v;
                        assert(m.adj[u as int][y] == v);
                    }
                }
                i = i + 1;
            }
            proof {
                assert forall|v: usize| v < n implies (#[trigger] next@.contains(v) <==> exact_level(m, s as int, v as int, (k + 1) as nat)) by {
                    if exact_level(m, s as int, v as int, (k + 1) as nat) {
                        let u = choose|u: int| #![trigger m.edge(u, v as int)] m.reach_le(s as int, u, k as nat) && m.edge(u, v as int);
                        assert(0 <= u < n);
                        if k == 0 || !m.reach_le(s as int, u, (k - 1) as nat) {
                            assert(exact_level(m, s as int, u, k as nat));
                            assert(layer@.contains(u as usize));
                            let x = choose|x: int| 0 <= x < layer.len() && layer@[x] == u as usize;
                            assert(m.edge(layer@[x] as int, v as int));
                        } else {
                            assert(m.reach_le(s as int, v as int, k as nat));
                        }
                    }
                }
                assert forall|v: int| 0 <= v < n implies (visited@[v] <==> m.reach_le(s as int, v, (k + 1) as nat)) by {
                    if m.reach_le(s as int, v, (k + 1) as nat) && !m.reach_le(s as int, v, k as nat) {
                        assert(exact_level(m, s as int, v, (k + 1) as nat));
                        assert(next@.contains(v as usize));
                    }
                    if visited@[v] && !m.reach_le(s as int, v, k as nat) {
                        assert(next@.contains(v as usize));
                    }
                    if m.reach_le(s as int, v, k as nat) {
                        lemma_reach_mono(m, s as int, v, k as nat, (k + 1) as nat);
                    }
                }
                assert forall|v: usize| v < n implies (#[trigger] out@.contains(v) <==> visited@[v as int]) by {
                    if out@.contains(v) {
                        let q = choose|q: int| 0 <= q < out@.len() && out@[q] == v;
                        if q < out0.len() {
                            assert(out0.contains(v));
                            lemma_reach_mono(m, s as int, v as int, k as nat, (k + 1) as nat);
                        } else {
                            assert(next@[q - out0.len()] == v);
                            assert(next@.contains(v));
                        }
                    }
                    if visited@[v as int] {
                        if m.reach_le(s as int, v as int, k as nat) {
                            assert(out0.contains(v));
                            let q = choose|q: int| 0 <= q < out0.len() && out0[q] == v;
                            assert(out@[q] == v);
                        } else {
                            assert(next@.contains(v));
                            let q = choose|q: int| 0 <= q < next@.len() && next@[q] == v;
                            assert(out@[out0.len() + q] == v);
                        }
                    }
                }
                assert forall|i2: int| 0 <= i2 < out.len() implies exact_level(m, s as int, #[trigger] out@[i2] as int, lv[i2]) by {
                    if i2 < out0.len() {
                        assert(out@[i2] == out0[i2]);
                    } else {
                        assert(out@[i2] == next@[i2 - out0.len()]);
                        assert(next@.contains(out@[i2]));
                    }
                }
            }
            proof {
                assert(layer@.take(layer.len() as int) =~= layer@);
            }
            layer = next;
            k = k + 1;
        }
        proof {
            if k < max_depth {
                assert forall|x: int| m.reach_le(s as int, x, (k + 1) as nat) implies m.reach_le(s as int, x, k as nat) by {
                    if !m.reach_le(s as int, x, k as nat) {
                        let u = choose|u: int| #![trigger m.edge(u, x)] m.reach_le(s as int, u, k as nat) && m.edge(u, x);
                        assert(0 <= u < n);
                        if k == 0 || !m.reach_le(s as int, u, (k - 1) as nat) {
                            assert(exact_level(m, s as int, u, k as nat));
                            assert(layer@.contains(u as usize));
                            assert(false);
                        }
                    }
                }
            }
            assert forall|v: int| 0 <= v < n implies (out@.contains(v as usize) <==> m.reach_le(s as int, v, max_depth as nat)) by {
                if m.reach_le(s as int, v, max_depth as nat) && k < max_depth {
                    lemma_reach_fixpoint(m, s as int, k as nat, max_depth as nat, v);
                }
                if m.reach_le(s as int, v, k as nat) {
                    lemma_reach_mono(m, s as int, v, k as nat, max_depth as nat);
                }
                assert(out@.contains(v as usize) <==> visited@[v]);
            }
        }
        let ghost w: Seq<int> = out@.map_values(|x: usize| x as int);
        let mut r: Vec<String> = Vec::new();
        let mut q: usize = 0;
        while q < out.len()
            invariant
                q <= out.len(),
                m == self@,
                n == m.n(),
                forall|i: int| 0 <= i < out.len() ==> out@[i] < n,
                w == out@.map_values(|x: usize| x as int),
                names_of(r@) == m.names_along(w.take(q as int)),
            decreases out.len() - q,
        {
            let name = self.names[out[q]].clone();
            let ghost before = r@;
            r.push(name);
            proof {
                assert(names_of(r@) =~= names_of(before).push(name@));
                assert(w[q as int] == out@[q as int] as int);
                assert(m.names[out@[q as int] as int] == self.names@[out@[q as int] as int]@);
                assert(w.take(q + 1) =~= w.take(q as int).push(w[q as int]));
                assert(m.names_along(w.take(q + 1)) =~= m.names_along(w.take(q as int)).push(m.names[w[q as int]]));
            }
            q = q + 1;
        }
        proof {
            assert(w.take(out.len() as int) =~= w);
            assert(m.index_of(start@) == s as int);
            assert(fifo_order(m, s as int, max_depth as nat) == out@);
            assert(w[0] == s as int);
            assert forall|v: int| 0 <= v < m.n() implies (w.contains(v) <==> m.reach_le(s as int, v, max_depth as nat)) by {
                if w.contains(v) {
                    let q2 = choose|q2: int| 0 <= q2 < w.len() && w[q2] == v;
                    assert(out@[q2] == v as usize);
                    assert(out@.contains(v as usize));
                }
                if out@.contains(v as usize) {
                    let q2 = choose|q2: int| 0 <= q2 < out@.len() && out@[q2] == v as usize;
                    assert(w[q2] == v);
                }
            }
            assert(w.no_duplicates());
            assert forall|i: int, j: int, a: nat, b: nat|
                #![trigger exact_level(m, s as int, w[i], a), exact_level(m, s as int, w[j], b)]
                0 <= i < j < w.len() && exact_level(m, s as int, w[i], a) && exact_level(m, s as int, w[j], b) implies a <= b by {
                assert(exact_level(m, s as int, out@[i] as int, lv[i]));
                assert(exact_level(m, s as int, out@[j] as int, lv[j]));
                lemma_exact_unique(m, s as int, w[i], a, lv[i]);
                lemma_exact_unique(m, s as int, w[j], b, lv[j]);
            }
            assert(bfs_order(m, s as int, max_depth as nat, w));
        }
        r
    }

    #[verifier::rlimit(60)]
    fn trace_path(
        &self,
        parent: &Vec<usize>,
        s: usize,
        e: usize,
        Ghost(lev): Ghost<Seq<nat>>,
        Ghost(k): Ghost<nat>,
        Ghost(visited): Ghost<Seq<bool>>,
    ) -> (p: PathResult)
        requires
            self@.wf(),
            s < self@.n(),
            e < self@.n(),
            s != e,
            parent.len() == self@.n(),
            lev.len() == self@.n(),
            visited.len() == self@.n(),
            visited[e as int],
            lev[e as int] == k,
            lev[s as int] == 0,
            k > 0,
            !self@.reach_le(s as int, e as int, (k - 1) as nat),
            forall|v: int|
                0 <= v < self@.n() && #[trigger] visited[v] ==> {
                    &&& (lev[v] == 0 ==> v == s)
                    &&& (lev[v] > 0 ==> {
                        &&& parent@[v] < self@.n()
                        &&& visited[parent@[v] as int]
                        &&& lev[parent@[v] as int] == lev[v] - 1
                        &&& self@.edge(parent@[v] as int, v)
                    })
                },
        ensures
            p.path.len() >= 1,
            p.length == p.path.len() - 1,
            exists|w: Seq<int>|
                {
                    &&& self@.walk_between(w, self@.names[s as int], self@.names[e as int])
                    &&& names_of(p.path@) == self@.names_along(w)
                    &&& forall|w2: Seq<int>|
                        self@.walk_between(w2, self@.names[s as int], self@.names[e as int]) ==> w2.len() >= w.len()
                },
    {
        let ghost m = self@;
        let n = self.names.len();
        let mut rev: Vec<usize> = Vec::new();
        let mut cur = e;
        while cur != s
            invariant
                m == self@,
                m.wf(),
                n == m.n(),
                s < n,
                cur < n,
                parent.len() == n,
                lev.len() == n,
                visited.len() == n,
                visited[cur as int],
                lev[cur as int] + rev.len() == k,
                rev.len() > 0 ==> rev@[0] == e,
                rev.len() == 0 ==> cur == e,
                forall|t: int| 0 <= t < rev.len() ==> #[trigger] rev@[t] < n,
                forall|t: int| 0 <= t < rev.len() ==> m.edge(#[trigger] rev@.push(cur)[t + 1] as int, rev@.push(cur)[t] as int),
                forall|v: int|
                    0 <= v < n && #[trigger] visited[v] ==> {
                        &&& (lev[v] == 0 ==> v == s)
                        &&& (lev[v] > 0 ==> {
                            &&& parent@[v] < n
                            &&& visited[parent@[v] as int]
                            &&& lev[parent@[v] as int] == lev[v] - 1
                            &&& m.edge(parent@[v] as int, v)
                        })
                    },
            decreases lev[cur as int],
        {
            let ghost old_rev = rev@;
            let ghost old_cur = cur;
            rev.push(cur);
            cur = parent[cur];
            proof {
                assert forall|t: int| 0 <= t < rev.len() implies m.edge(#[trigger] rev@.push(cur)[t + 1] as int, rev@.push(cur)[t] as int) by {
                    if t < rev.len() - 1 {
                        assert(rev@.push(cur)[t + 1] == old_rev.push(old_cur)[t + 1]);
                        assert(rev@.push(cur)[t] == old_rev.push(old_cur)[t]);
                    } else {
                        assert(rev@.push(cur)[t] == old_cur);
                        assert(rev@.push(cur)[t + 1] == cur);
                    }
                }
            }
        }
        rev.push(s);
        let ghost x = rev@;
        let len = rev.len();
        let ghost w: Seq<int> = Seq::new(len as nat, |t: int| x[len - 1 - t] as int);
        let mut path: Vec<String> = Vec::new();
        let mut t: usize = 0;
        while t < len
            invariant
                m == self@,
                len == rev.len(),
                x == rev@,
                len == k + 1,
                forall|q: int| 0 <= q < len ==> #[trigger] x[q] < m.n(),
                m.names.len() == m.n(),
                w.len() == len,
                w == Seq::new(len as nat, |q: int| x[len - 1 - q] as int),
                t <= len,
                names_of(path@) == m.names_along(w.take(t as int)),
            decreases len - t,
        {
            let idx = rev[len - 1 - t];
            let name = self.names[idx].clone();
            let ghost before = path@;
            path.push(name);
            proof {
                assert(names_of(path@) =~= names_of(before).push(m.names[idx as int]));
                assert(w.take(t + 1) =~= w.take(t as int).push(w[t as int]));
                assert(m.names_along(w.take(t + 1)) =~= m.names_along(w.take(t as int)).push(m.names[w[t as int]]));
            }
            t = t + 1;
        }
        proof {
            assert(w.take(len as int) =~= w);
            lemma_reversed_walk(m, x, w, s as int, e as int, k);
        }
        PathResult { path, length: len - 1 }
    }

    /// Community detection by local moving: every page starts in a community of its own,
    /// then pages are visited in order and each moves to the neighbouring community with
    /// the greatest gain in links kept inside, until a sweep moves nothing or ten sweeps
    /// are done. Communities are listed by label, pages by index, each with its cohesion.
    pub fn louvain_communities(&self) -> (r: Vec<CommunityResult>)
        requires
            self@.wf(),
            total_links(self@.adj) <= usize::MAX,
        ensures
            communities_match(r@, self@.names, self@.adj, louvain_assignment(self@.adj), self@.n()),
    {
        let n = self.adj.len();
        let mut order: Vec<usize> = Vec::new();
        let mut comm: Vec<usize> = Vec::new();
        let mut i: usize = 0;
        while i < n
            invariant
                i <= n,
                n == self.adj.len(),
                order@ == Seq::new(i as nat, |q: int| q as usize),
                comm@ == Seq::new(i as nat, |q: int| q as usize),
            decreases n - i,
        {
            order.push(i);
            comm.push(i);
            proof {
                assert(order@ =~= Seq::new((i + 1) as nat, |q: int| q as usize));
                assert(comm@ =~= Seq::new((i + 1) as nat, |q: int| q as usize));
            }
            i = i + 1;
        }
        proof {
            assert(self@.adj == self.adj@.map_values(|r: Vec<usize>| r@));
            assert(self@.adj.len() == n);
            assert forall|u: int, k: int| 0 <= u < self.adj.len() && 0 <= k < self.adj@[u].len() implies #[trigger] self.adj@[u]@[k] < self.adj.len() by {
                assert(self@.adj[u] == self.adj@[u]@);
            }
        }
        let comm = sweeps_exec(&self.adj, &order, comm);
        group_communities(&self.names, &self.adj, &comm)
    }

    /// The degrees of the pages, in page order: for each page the number of links it
    /// has out and the number it has in (a repeated link counts each time).
    pub fn degree_counts(&self) -> (r: Vec<(usize, usize)>)
        requires
            self@.wf(),
            total_links(self@.adj) <= usize::MAX,
        ensures
            r.len() == self@.n(),
            forall|v: int|
                0 <= v < r.len() ==> (#[trigger] r@[v]).0 == self@.adj[v].len() && r@[v].1 == links_into(self@.adj, v, self@.n()),
    {
        let ghost a = self@.adj;
        let n = self.adj.len();
        proof {
            assert(self@.adj.len() == n);
            lemma_links_prefix_total(a);
        }
        let mut inc: Vec<usize> = Vec::new();
        let mut z: usize = 0;
        while z < n
            invariant
                z <= n,
                inc.len() == z,
                forall|v: int| 0 <= v < z ==> inc@[v] == 0,
            decreases n - z,
        {
            inc.push(0);
            z = z + 1;
        }
        let mut u: usize = 0;
        while u < n
            invariant
                u <= n,
                n == self.adj.len(),
                a == self@.adj,
                self@.wf(),
                inc.len() == n,
                links_prefix(a, n as int) <= usize::MAX,
                forall|v: int| 0 <= v < n ==> #[trigger] inc@[v] == links_into(a, v, u as int),
                forall|v: int| 0 <= v < n ==> #[trigger] inc@[v] <= links_prefix(a, u as int),
            decreases n - u,
        {
            let row = &self.adj[u];
            proof {
                assert(a[u as int] == row@);
                lemma_links_prefix_mono(a, (u + 1) as int, n as int);
            }
            let mut k: usize = 0;
            while k < row.len()
                invariant
                    k <= row.len(),
                    u < n,
                    n == self.adj.len(),
                    a == self@.adj,
                    self@.wf(),
                    row@ == a[u as int],
                    inc.len() == n,
                    links_prefix(a, u as int) + row.len() <= usize::MAX,
                    forall|v: int| 0 <= v < n ==> #[trigger] inc@[v] == links_into(a, v, u as int) + occurrences(row@.take(k as int), v),
                    forall|v: int| 0 <= v < n ==> #[trigger] inc@[v] <= links_prefix(a, u as int) + k,
                decreases row.len() - k,
            {
                let t = row[k];
                proof {
                    assert(a[u as int][k as int] == t);
                    assert(t < n);
                    assert(row@.take(k + 1).drop_last() =~= row@.take(k as int));
                }
                let c = inc[t];
                inc.set(t, c + 1);
                k = k + 1;
            }
            proof {
                assert(row@.take(row.len() as int) =~= row@);
            }
            u = u + 1;
        }
        let mut r: Vec<(usize, usize)> = Vec::new();
        let mut i: usize = 0;
        while i < n
            invariant
                i <= n,
                n == self.adj.len(),
                a == self@.adj,
                inc.len() == n,
                r.len() == i,
                forall|v: int| 0 <= v < n ==> #[trigger] inc@[v] == links_into(a, v, n as int),
                forall|v: int| 0 <= v < i ==> (#[trigger] r@[v]).0 == a[v].len() && r@[v].1 == links_into(a, v, n as int),
            decreases n - i,
        {
            proof {
                assert(a[i as int] == self.adj@[i as int]@);
            }
            r.push((self.adj[i].len(), inc[i]));
            i = i + 1;
        }
        r
    }

    /// The gain in links kept inside communities when page `node` moves from community
    /// `from_community` to `to_community`, under `communities` (the community of each page,
    /// by page index): its links into the new community minus its links into the old one.
    /// A page that is not in the graph gains nothing.
    pub fn modularity_gain(&self, node: &str, from_community: usize, to_community: usize, communities: &Vec<usize>) -> (r: i128)
        requires
            self@.wf(),
            communities.len() == self@.n(),
        ensures
            self@.has_name(node@) ==> r == modularity_gain(
                self@.adj[self@.index_of(node@)],
                communities@,
                from_community,
                to_community,
            ),
            !self@.has_name(node@) ==> r == 0,
    {
        match self.find_node(&owned(node)) {
            Some(i) => {
                let row = &self.adj[i];
                proof {
                    assert(self@.adj[i as int] == row@);
                    assert forall|k: int| 0 <= k < row.len() implies row@[k] < communities.len() by {
                        assert(self@.adj[i as int][k] < self@.n());
                    }
                    lemma_count_in_bounds(row@, communities@, to_community);
                    lemma_count_in_bounds(row@, communities@, from_community);
                }
                let into_new = count_in_exec(row, communities, to_community);
                let into_old = count_in_exec(row, communities, from_community);
                into_new as i128 - into_old as i128
            },
            None => 0,
        }
    }

    /// Adds every link of `edges`, in order.
    pub fn build_from_edges(&mut self, edges: Vec<(String, String)>)
        requires
            old(self)@.wf(),
        ensures
            final(self)@.wf(),
            final(self)@ == edges_added(old(self)@, edges@),
    {
        let mut i: usize = 0;
        while i < edges.len()
            invariant
                i <= edges.len(),
                self@.wf(),
                self@ == edges_added(old(self)@, edges@.take(i as int)),
            decreases edges.len() - i,
        {
            let (from, to) = (&edges[i].0, &edges[i].1);
            self.add_edge(from.as_str(), to.as_str());
            proof {
                assert(edges@.take(i + 1).drop_last() =~= edges@.take(i as int));
            }
            i = i + 1;
        }
        proof {
            assert(edges@.take(edges.len() as int) =~= edges@);
        }
    }
}


/// How many entries of `row` are page `v`.
pub open spec fn occurrences(row: Seq<usize>, v: int) -> nat
    decreases row.len(),
{
    if row.len() == 0 {
        0
    } else {
        occurrences(row.drop_last(), v) + if row.last() == v { 1nat } else { 0nat }
    }
}

/// The number of links into page `v` from the pages `0..upto`.
pub open spec fn links_into(adj: Seq<Seq<usize>>, v: int, upto: int) -> nat
    decreases upto,
{
    if upto <= 0 {
        0
    } else {
        links_into(adj, v, upto - 1) + occurrences(adj[upto - 1], v)
    }
}

/// The number of links leaving the pages `0..upto`.
pub open spec fn links_prefix(adj: Seq<Seq<usize>>, upto: int) -> int
    decreases upto,
{
    if upto <= 0 {
        0
    } else {
        links_prefix(adj, upto - 1) + adj[upto - 1].len()
    }
}

proof fn lemma_links_from_prefix(adj: Seq<Seq<usize>>, u: int)
    requires
        0 <= u,
    ensures
        links_from(adj, Seq::new(u as nat, |i: int| i)) == links_prefix(adj, u),
    decreases u,
{
    if u > 0 {
        assert(Seq::new(u as nat, |i: int| i).drop_last() =~= Seq::new((u - 1) as nat, |i: int| i));
        lemma_links_from_prefix(adj, u - 1);
    }
}

proof fn lemma_links_prefix_total(adj: Seq<Seq<usize>>)
    ensures
        links_prefix(adj, adj.len() as int) == total_links(adj),
{
    lemma_links_from_prefix(adj, adj.len() as int);
}

proof fn lemma_links_prefix_mono(adj: Seq<Seq<usize>>, u: int, w: int)
    requires
        0 <= u <= w,
    ensures
        links_prefix(adj, u) <= links_prefix(adj, w),
    decreases w - u,
{
    if u < w {
        lemma_links_prefix_mono(adj, u, w - 1);
    }
}

/// Following the links of one page in order: each target not yet seen is marked seen and
/// joins the next layer.
pub open spec fn scan_row(row: Seq<usize>, vis: Seq<bool>, next: Seq<usize>) -> (Seq<bool>, Seq<usize>)
    decreases row.len(),
{
    if row.len() == 0 {
        (vis, next)
    } else {
        let (v1, n1) = scan_row(row.drop_last(), vis, next);
        let t = row.last();
        if v1[t as int] {
            (v1, n1)
        } else {
            (v1.update(t as int, true), n1.push(t))
        }
    }
}

/// Following the links of the pages of a layer, page by page in order.
pub open spec fn scan_layer(adj: Seq<Seq<usize>>, layer: Seq<usize>, vis: Seq<bool>, next: Seq<usize>) -> (Seq<bool>, Seq<usize>)
    decreases layer.len(),
{
    if layer.len() == 0 {
        (vis, next)
    } else {
        let (v1, n1) = scan_layer(adj, layer.drop_last(), vis, next);
        scan_row(adj[layer.last() as int], v1, n1)
    }
}

/// A first-in first-out search from layer `layer` at depth `k`, up to depth `d`: the pages
/// met so far, `out`, followed by those of each further layer in the order they are met.
pub open spec fn fifo_run(adj: Seq<Seq<usize>>, layer: Seq<usize>, vis: Seq<bool>, out: Seq<usize>, k: nat, d: nat) -> Seq<usize>
    decreases d - k,
{
    if k < d && layer.len() > 0 {
        let (v2, nx) = scan_layer(adj, layer, vis, Seq::empty());
        fifo_run(adj, nx, v2, out + nx, k + 1, d)
    } else {
        out
    }
}

/// The pages a first-in first-out search from page `s` meets within `d` links, in the
/// order met: `s`, then the pages that each page links to, in link order, skipping pages
/// already met.
pub open spec fn fifo_order(m: GraphModel, s: int, d: nat) -> Seq<usize> {
    fifo_run(m.adj, seq![s as usize], only_marked(m.n() as nat, s), seq![s as usize], 0, d)
}

/// `n` marks, only the one of page `s` set.
pub open spec fn only_marked(n: nat, s: int) -> Seq<bool> {
    Seq::new(n, |v: int| v == s)
}

pub open spec fn count_true(s: Seq<bool>) -> nat
    decreases s.len(),
{
    if s.len() == 0 {
        0
    } else {
        count_true(s.drop_last()) + if s.last() { 1nat } else { 0nat }
    }
}

proof fn lemma_count_true_update(s: Seq<bool>, i: int)
    requires
        0 <= i < s.len(),
        !s[i],
    ensures
        count_true(s.update(i, true)) == count_true(s) + 1,
    decreases s.len(),
{
    let t = s.update(i, true);
    if i == s.len() - 1 {
        assert(t.drop_last() =~= s.drop_last());
    } else {
        assert(t.drop_last() =~= s.drop_last().update(i, true));
        lemma_count_true_update(s.drop_last(), i);
    }
}

proof fn lemma_count_true_zero(s: Seq<bool>)
    requires
        forall|i: int| 0 <= i < s.len() ==> !s[i],
    ensures
        count_true(s) == 0,
    decreases s.len(),
{
    if s.len() > 0 {
        lemma_count_true_zero(s.drop_last());
    }
}

proof fn lemma_count_true_le(s: Seq<bool>)
    ensures
        count_true(s) <= s.len(),
    decreases s.len(),
{
    if s.len() > 0 {
        lemma_count_true_le(s.drop_last());
    }
}

/// Along a walk from `w[0]`, the last page is reachable with `w.len() - 1` links.
pub proof fn lemma_walk_reach(m: GraphModel, w: Seq<int>)
    requires
        m.is_walk(w),
    ensures
        m.reach_le(w[0], w[w.len() - 1], (w.len() - 1) as nat),
    decreases w.len(),
{
    if w.len() > 1 {
        let w1 = w.drop_last();
        assert forall|i: int| 0 <= i < w1.len() - 1 implies m.edge(#[trigger] w1[i], w1[i + 1]) by {
            assert(w1[i] == w[i] && w1[i + 1] == w[i + 1]);
        }
        assert forall|i: int| 0 <= i < w1.len() implies 0 <= #[trigger] w1[i] < m.n() by {
            assert(w1[i] == w[i]);
        }
        lemma_walk_reach(m, w1);
        let u = w[w.len() - 2];
        assert(m.edge(w[w.len() - 2], w[w.len() - 2 + 1]));
        assert(m.reach_le(w[0], u, (w.len() - 2) as nat) && m.edge(u, w[w.len() - 1]));
    }
}

/// Reachability within `k` links implies reachability within any larger bound.
pub proof fn lemma_reach_mono(m: GraphModel, s: int, v: int, k: nat, j: nat)
    requires
        m.reach_le(s, v, k),
        k <= j,
    ensures
        m.reach_le(s, v, j),
    decreases j,
{
    if j > k {
        lemma_reach_mono(m, s, v, k, (j - 1) as nat);
    }
}

/// Once one more link reaches nothing new, no longer bound reaches anything new.
proof fn lemma_reach_fixpoint(m: GraphModel, s: int, k: nat, j: nat, v: int)
    requires
        forall|x: int| m.reach_le(s, x, k + 1) ==> m.reach_le(s, x, k),
        m.reach_le(s, v, j),
    ensures
        m.reach_le(s, v, k),
    decreases j,
{
    if j > k {
        if m.reach_le(s, v, (j - 1) as nat) {
            lemma_reach_fixpoint(m, s, k, (j - 1) as nat, v);
        } else {
            let u = choose|u: int| #![trigger m.edge(u, v)] m.reach_le(s, u, (j - 1) as nat) && m.edge(u, v);
            lemma_reach_fixpoint(m, s, k, (j - 1) as nat, u);
            assert(m.reach_le(s, v, k + 1));
        }
    } else {
        lemma_reach_mono(m, s, v, j, k);
    }
}

proof fn lemma_exact_unique(m: GraphModel, s: int, v: int, a: nat, b: nat)
    requires
        exact_level(m, s, v, a),
        exact_level(m, s, v, b),
    ensures
        a == b,
{
    if a < b {
        lemma_reach_mono(m, s, v, a, (b - 1) as nat);
    }
    if b < a {
        lemma_reach_mono(m, s, v, b, (a - 1) as nat);
    }
}

/// Following the links backwards from `e` to `s` through `x` gives, read forwards,
/// a shortest walk from `s` to `e` when `e` is not reachable with fewer than `k` links.
proof fn lemma_reversed_walk(m: GraphModel, x: Seq<usize>, w: Seq<int>, s: int, e: int, k: nat)
    requires
        m.wf(),
        0 <= s < m.n(),
        0 <= e < m.n(),
        k > 0,
        x.len() == k + 1,
        x[0] == e,
        x[x.len() - 1] == s,
        forall|q: int| 0 <= q < x.len() ==> #[trigger] x[q] < m.n(),
        forall|t: int| 0 <= t < x.len() - 1 ==> m.edge(#[trigger] x[t + 1] as int, x[t] as int),
        w == Seq::new(x.len(), |q: int| x[x.len() - 1 - q] as int),
        !m.reach_le(s, e, (k - 1) as nat),
    ensures
        m.walk_between(w, m.names[s], m.names[e]),
        forall|w2: Seq<int>| m.walk_between(w2, m.names[s], m.names[e]) ==> w2.len() >= w.len(),
{
    let len = x.len() as int;
    assert forall|q: int| 0 <= q < w.len() - 1 implies m.edge(#[trigger] w[q], w[q + 1]) by {
        let tt = len - 2 - q;
        assert(m.edge(x[tt + 1] as int, x[tt] as int));
    }
    assert forall|q: int| 0 <= q < w.len() implies 0 <= #[trigger] w[q] < m.n() by {
        assert(x[len - 1 - q] < m.n());
    }
    assert(m.walk_between(w, m.names[s], m.names[e]));
    assert forall|w2: Seq<int>| m.walk_between(w2, m.names[s], m.names[e]) implies w2.len() >= w.len() by {
        assert(w2[0] == s);
        assert(w2[w2.len() - 1] == e);
        lemma_walk_reach(m, w2);
        if w2.len() - 1 <= k - 1 {
            lemma_reach_mono(m, s, e, (w2.len() - 1) as nat, (k - 1) as nat);
        }
    }
}


/// `w` lists, breadth-first from page `s`, the pages reachable with at most `d` links:
/// `s` first, each page once, and a page never after a farther one.
pub open spec fn bfs_order(m: GraphModel, s: int, d: nat, w: Seq<int>) -> bool {
    &&& w.len() >= 1
    &&& w[0] == s
    &&& w.no_duplicates()
    &&& forall|i: int| 0 <= i < w.len() ==> 0 <= #[trigger] w[i] < m.n()
    &&& forall|v: int| 0 <= v < m.n() ==> (w.contains(v) <==> m.reach_le(s, v, d))
    &&& forall|i: int, j: int, a: nat, b: nat|
        #![trigger exact_level(m, s, w[i], a), exact_level(m, s, w[j], b)]
        0 <= i < j < w.len() && exact_level(m, s, w[i], a) && exact_level(m, s, w[j], b) ==> a <= b
}

/// Page `v` is exactly `k` links away from page `s`.
pub open spec fn exact_level(m: GraphModel, s: int, v: int, k: nat) -> bool {
    m.reach_le(s, v, k) && (k == 0 || !m.reach_le(s, v, (k - 1) as nat))
}

/// The number of links in `row` whose target is in community `c` under `comm`.
pub open spec fn count_in(row: Seq<usize>, comm: Seq<usize>, c: usize) -> int
    decreases row.len(),
{
    if row.len() == 0 {
        0
    } else {
        count_in(row.drop_last(), comm, c) + if comm[row.last() as int] == c { 1int } else { 0int }
    }
}

/// The change in the number of a page's links that stay inside its community when the
/// page moves from community `from` to community `to`.
pub open spec fn modularity_gain(row: Seq<usize>, comm: Seq<usize>, from: usize, to: usize) -> int {
    count_in(row, comm, to) - count_in(row, comm, from)
}

/// The community a page with links `row`, now in community `cur`, moves to, with its
/// gain: the first neighbouring community, in link order, of strictly greatest positive
/// gain, or `cur` with gain 0 when none has a positive gain. Only the first `j` links
/// are considered.
pub open spec fn best_move(row: Seq<usize>, comm: Seq<usize>, cur: usize, j: int) -> (usize, int)
    decreases j,
{
    if j <= 0 {
        (cur, 0)
    } else {
        let (b, g) = best_move(row, comm, cur, j - 1);
        let nc = comm[row[j - 1] as int];
        if nc != cur && modularity_gain(row, comm, cur, nc) > g {
            (nc, modularity_gain(row, comm, cur, nc))
        } else {
            (b, g)
        }
    }
}

/// One sweep over the pages `order[0..i]` in turn, each moving to its best community
/// given the moves before it; also whether any page moved.
pub open spec fn sweep(adj: Seq<Seq<usize>>, order: Seq<usize>, comm: Seq<usize>, i: int) -> (Seq<usize>, bool)
    decreases i,
{
    if i <= 0 {
        (comm, false)
    } else {
        let (c, moved) = sweep(adj, order, comm, i - 1);
        let node = order[i - 1] as int;
        let cur = c[node];
        let (b, _g) = best_move(adj[node], c, cur, adj[node].len() as int);
        if b != cur {
            (c.update(node, b), true)
        } else {
            (c, moved)
        }
    }
}

/// Sweeps are repeated while a sweep moved a page, at most ten times in all.
pub open spec fn sweeps(adj: Seq<Seq<usize>>, order: Seq<usize>, comm: Seq<usize>, improved: bool, iteration: nat) -> Seq<usize>
    decreases 10 - iteration,
{
    if improved && iteration < 10 {
        let (c, moved) = sweep(adj, order, comm, order.len() as int);
        sweeps(adj, order, c, moved, iteration + 1)
    } else {
        comm
    }
}

/// The community of each page after local moving, starting from one community per page
/// and visiting the pages in index order.
pub open spec fn louvain_assignment(adj: Seq<Seq<usize>>) -> Seq<usize> {
    sweeps(adj, Seq::new(adj.len(), |i: int| i as usize), Seq::new(adj.len(), |i: int| i as usize), true, 0)
}

/// The pages among `0..n` that `comm` puts in community `c`, in increasing order.
pub open spec fn members(comm: Seq<usize>, c: usize, n: int) -> Seq<int>
    decreases n,
{
    if n <= 0 {
        Seq::empty()
    } else if comm[n - 1] == c {
        members(comm, c, n - 1).push(n - 1)
    } else {
        members(comm, c, n - 1)
    }
}

/// The number of links leaving the pages `idx`.
pub open spec fn links_from(adj: Seq<Seq<usize>>, idx: Seq<int>) -> int
    decreases idx.len(),
{
    if idx.len() == 0 {
        0
    } else {
        links_from(adj, idx.drop_last()) + adj[idx.last()].len()
    }
}

/// The number of links leaving the pages `idx` that end in community `c`.
pub open spec fn links_within(adj: Seq<Seq<usize>>, idx: Seq<int>, comm: Seq<usize>, c: usize) -> int
    decreases idx.len(),
{
    if idx.len() == 0 {
        0
    } else {
        links_within(adj, idx.drop_last(), comm, c) + count_in(adj[idx.last()], comm, c)
    }
}

/// The number of links in the whole graph.
pub open spec fn total_links(adj: Seq<Seq<usize>>) -> int {
    links_from(adj, Seq::new(adj.len(), |i: int| i))
}

/// The cohesion of the pages `idx` of community `c`: the share of their links that stay
/// inside the community, as a fraction; 1 for a single page and 0 for pages without links.
pub open spec fn cohesion_of(adj: Seq<Seq<usize>>, idx: Seq<int>, comm: Seq<usize>, c: usize) -> (int, int) {
    if idx.len() <= 1 {
        (1, 1)
    } else if links_from(adj, idx) == 0 {
        (0, 1)
    } else {
        (links_within(adj, idx, comm, c), links_from(adj, idx))
    }
}

/// The community labels, in increasing order, that `comm` gives to at least one page.
pub open spec fn used_labels(comm: Seq<usize>, n: int, upto: int) -> Seq<usize>
    decreases upto,
{
    if upto <= 0 {
        Seq::empty()
    } else if members(comm, (upto - 1) as usize, n).len() > 0 {
        used_labels(comm, n, upto - 1).push((upto - 1) as usize)
    } else {
        used_labels(comm, n, upto - 1)
    }
}

pub proof fn lemma_count_in_bounds(row: Seq<usize>, comm: Seq<usize>, c: usize)
    ensures
        0 <= count_in(row, comm, c) <= row.len(),
    decreases row.len(),
{
    if row.len() > 0 {
        lemma_count_in_bounds(row.drop_last(), comm, c);
    }
}

pub(crate) fn count_in_exec(row: &Vec<usize>, comm: &Vec<usize>, c: usize) -> (r: usize)
    requires
        forall|k: int| 0 <= k < row.len() ==> row@[k] < comm.len(),
    ensures
        r == count_in(row@, comm@, c),
{
    let mut r: usize = 0;
    let mut j: usize = 0;
    while j < row.len()
        invariant
            j <= row.len(),
            forall|k: int| 0 <= k < row.len() ==> row@[k] < comm.len(),
            r == count_in(row@.take(j as int), comm@, c),
            r <= j,
        decreases row.len() - j,
    {
        proof {
            assert(row@.take(j + 1).drop_last() =~= row@.take(j as int));
        }
        if comm[row[j]] == c {
            r = r + 1;
        }
        j = j + 1;
    }
    proof {
        assert(row@.take(row.len() as int) =~= row@);
    }
    r
}

pub(crate) fn best_move_exec(row: &Vec<usize>, comm: &Vec<usize>, cur: usize) -> (r: usize)
    requires
        forall|k: int| 0 <= k < row.len() ==> row@[k] < comm.len(),
        forall|k: int| 0 <= k < comm.len() ==> #[trigger] comm@[k] < comm.len(),
        cur < comm.len(),
    ensures
        r == best_move(row@, comm@, cur, row.len() as int).0,
        r < comm.len(),
{
    let from = count_in_exec(row, comm, cur);
    proof {
        lemma_count_in_bounds(row@, comm@, cur);
    }
    let mut best = cur;
    let mut gain: usize = 0;
    let mut j: usize = 0;
    while j < row.len()
        invariant
            j <= row.len(),
            forall|k: int| 0 <= k < row.len() ==> row@[k] < comm.len(),
            from == count_in(row@, comm@, cur),
            best_move(row@, comm@, cur, j as int) == (best, gain as int),
            gain <= row.len(),
            forall|k: int| 0 <= k < comm.len() ==> #[trigger] comm@[k] < comm.len(),
            best < comm.len(),
        decreases row.len() - j,
    {
        let nc = comm[row[j]];
        if nc != cur {
            let to = count_in_exec(row, comm, nc);
            proof {
                lemma_count_in_bounds(row@, comm@, nc);
            }
            if to > from && to - from > gain {
                best = nc;
                gain = to - from;
            }
        }
        j = j + 1;
    }
    best
}

pub(crate) fn sweep_exec(adj: &Vec<Vec<usize>>, order: &Vec<usize>, comm: &mut Vec<usize>) -> (moved: bool)
    requires
        old(comm).len() == adj.len(),
        forall|u: int, k: int| 0 <= u < adj.len() && 0 <= k < adj@[u].len() ==> #[trigger] adj@[u]@[k] < adj.len(),
        forall|k: int| 0 <= k < order.len() ==> order@[k] < adj.len(),
        forall|k: int| 0 <= k < old(comm).len() ==> #[trigger] old(comm)@[k] < adj.len(),
    ensures
        (final(comm)@, moved) == sweep(adj@.map_values(|r: Vec<usize>| r@), order@, old(comm)@, order.len() as int),
        final(comm).len() == adj.len(),
        forall|k: int| 0 <= k < final(comm).len() ==> #[trigger] final(comm)@[k] < adj.len(),
{
    let ghost a = adj@.map_values(|r: Vec<usize>| r@);
    let mut moved = false;
    let mut i: usize = 0;
    while i < order.len()
        invariant
            i <= order.len(),
            a == adj@.map_values(|r: Vec<usize>| r@),
            comm.len() == adj.len(),
            forall|u: int, k: int| 0 <= u < adj.len() && 0 <= k < adj@[u].len() ==> #[trigger] adj@[u]@[k] < adj.len(),
            forall|k: int| 0 <= k < order.len() ==> order@[k] < adj.len(),
            (comm@, moved) == sweep(a, order@, old(comm)@, i as int),
            forall|k: int| 0 <= k < comm.len() ==> #[trigger] comm@[k] < adj.len(),
        decreases order.len() - i,
    {
        let node = order[i];
        let cur = comm[node];
        proof {
            assert(a[node as int] == adj@[node as int]@);
        }
        let b = best_move_exec(&adj[node], comm, cur);
        if b != cur {
            comm.set(node, b);
            moved = true;
        }
        i = i + 1;
    }
    moved
}

pub(crate) fn sweeps_exec(adj: &Vec<Vec<usize>>, order: &Vec<usize>, comm: Vec<usize>) -> (r: Vec<usize>)
    requires
        comm.len() == adj.len(),
        forall|u: int, k: int| 0 <= u < adj.len() && 0 <= k < adj@[u].len() ==> #[trigger] adj@[u]@[k] < adj.len(),
        forall|k: int| 0 <= k < order.len() ==> order@[k] < adj.len(),
        forall|k: int| 0 <= k < comm.len() ==> #[trigger] comm@[k] < adj.len(),
    ensures
        r@ == sweeps(adj@.map_values(|r: Vec<usize>| r@), order@, comm@, true, 0),
        r.len() == adj.len(),
        forall|k: int| 0 <= k < r.len() ==> #[trigger] r@[k] < adj.len(),
{
    let ghost a = adj@.map_values(|r: Vec<usize>| r@);
    let ghost init = comm@;
    let mut comm = comm;
    let mut improved = true;
    let mut iteration: usize = 0;
    while improved && iteration < 10
        invariant
            iteration <= 10,
            a == adj@.map_values(|r: Vec<usize>| r@),
            comm.len() == adj.len(),
            forall|u: int, k: int| 0 <= u < adj.len() && 0 <= k < adj@[u].len() ==> #[trigger] adj@[u]@[k] < adj.len(),
            forall|k: int| 0 <= k < order.len() ==> order@[k] < adj.len(),
            sweeps(a, order@, comm@, improved, iteration as nat) == sweeps(a, order@, init, true, 0),
            forall|k: int| 0 <= k < comm.len() ==> #[trigger] comm@[k] < adj.len(),
        decreases 10 - iteration,
    {
        improved = sweep_exec(adj, order, &mut comm);
        iteration = iteration + 1;
    }
    comm
}

/// `r` is the community `c` of the partition `comm`, with the names of its pages in
/// increasing page order and its cohesion.
pub open spec fn community_entry(r: CommunityResult, names: Seq<Seq<char>>, adj: Seq<Seq<usize>>, comm: Seq<usize>, c: usize) -> bool {
    let mem = members(comm, c, adj.len() as int);
    &&& r.community_id == c
    &&& names_of(r.nodes@) == mem.map_values(|i: int| names[i])
    &&& (r.cohesion.num as int, r.cohesion.den as int) == cohesion_of(adj, mem, comm, c)
}

/// `rs` lists, one per used label below `upto` and in increasing label order, the
/// communities of the partition `comm`.
pub open spec fn communities_match(rs: Seq<CommunityResult>, names: Seq<Seq<char>>, adj: Seq<Seq<usize>>, comm: Seq<usize>, upto: int) -> bool {
    let labels = used_labels(comm, adj.len() as int, upto);
    &&& rs.len() == labels.len()
    &&& forall|q: int| 0 <= q < rs.len() ==> community_entry(#[trigger] rs[q], names, adj, comm, labels[q])
}

proof fn lemma_links_take_mono(adj: Seq<Seq<usize>>, idx: Seq<int>, comm: Seq<usize>, c: usize, t: int)
    requires
        0 <= t <= idx.len(),
    ensures
        0 <= links_within(adj, idx.take(t), comm, c) <= links_within(adj, idx, comm, c),
        links_from(adj, idx.take(t)) <= links_from(adj, idx),
        links_within(adj, idx.take(t), comm, c) <= links_from(adj, idx.take(t)),
    decreases idx.len(),
{
    if t < idx.len() {
        assert(idx.drop_last().take(t) =~= idx.take(t));
        lemma_links_take_mono(adj, idx.drop_last(), comm, c, t);
        lemma_count_in_bounds(adj[idx.last()], comm, c);
    } else {
        assert(idx.take(t) =~= idx);
        lemma_within_le_from(adj, idx, comm, c);
    }
}

proof fn lemma_within_le_from(adj: Seq<Seq<usize>>, idx: Seq<int>, comm: Seq<usize>, c: usize)
    ensures
        0 <= links_within(adj, idx, comm, c) <= links_from(adj, idx),
    decreases idx.len(),
{
    if idx.len() > 0 {
        lemma_within_le_from(adj, idx.drop_last(), comm, c);
        lemma_count_in_bounds(adj[idx.last()], comm, c);
    }
}

proof fn lemma_count_in_all(row: Seq<usize>, comm: Seq<usize>, c: usize, inside: bool)
    requires
        forall|k: int| 0 <= k < row.len() ==> (comm[#[trigger] row[k] as int] == c) == inside,
    ensures
        count_in(row, comm, c) == if inside { row.len() as int } else { 0int },
    decreases row.len(),
{
    if row.len() > 0 {
        assert forall|k: int| 0 <= k < row.drop_last().len() implies (comm[#[trigger] row.drop_last()[k] as int] == c) == inside by {
            assert(row.drop_last()[k] == row[k]);
        }
        lemma_count_in_all(row.drop_last(), comm, c, inside);
        assert(comm[row.last() as int] == c <==> inside) by {
            assert(row.last() == row[row.len() - 1]);
        }
    }
}

proof fn lemma_within_all(adj: Seq<Seq<usize>>, idx: Seq<int>, comm: Seq<usize>, c: usize, inside: bool)
    requires
        forall|q: int, k: int| 0 <= q < idx.len() && 0 <= k < adj[idx[q]].len() ==> (comm[#[trigger] adj[idx[q]][k] as int] == c) == inside,
    ensures
        links_within(adj, idx, comm, c) == if inside { links_from(adj, idx) } else { 0int },
    decreases idx.len(),
{
    if idx.len() > 0 {
        let pre = idx.drop_last();
        assert forall|q: int, k: int| 0 <= q < pre.len() && 0 <= k < adj[pre[q]].len() implies (comm[#[trigger] adj[pre[q]][k] as int] == c) == inside by {
            assert(pre[q] == idx[q]);
        }
        lemma_within_all(adj, pre, comm, c, inside);
        let row = adj[idx.last()];
        assert forall|k: int| 0 <= k < row.len() implies (comm[#[trigger] row[k] as int] == c) == inside by {
            assert(idx.last() == idx[idx.len() - 1]);
            assert(adj[idx[idx.len() - 1]][k] == row[k]);
        }
        lemma_count_in_all(row, comm, c, inside);
    }
}

/// Law: a community of one page has cohesion 1. The cohesion of any community is a
/// fraction between 0 and 1 with a positive denominator; it is 1 whenever every link of its
/// pages ends inside it (and there is at least one), and 0 for a community of two or more
/// pages none of whose links ends inside it.
pub proof fn lemma_community_cohesion(r: CommunityResult, names: Seq<Seq<char>>, adj: Seq<Seq<usize>>, comm: Seq<usize>, c: usize)
    requires
        community_entry(r, names, adj, comm, c),
        comm.len() == adj.len(),
    ensures
        r.nodes.len() == 1 ==> r.cohesion.num == r.cohesion.den,
        r.cohesion.den >= 1,
        r.cohesion.num <= r.cohesion.den,
        (forall|i: int, k: int| 0 <= i < adj.len() && comm[i] == c && 0 <= k < adj[i].len() ==> comm[#[trigger] adj[i][k] as int] == c)
            && links_from(adj, members(comm, c, adj.len() as int)) > 0 ==> r.cohesion.num == r.cohesion.den,
        (forall|i: int, k: int| 0 <= i < adj.len() && comm[i] == c && 0 <= k < adj[i].len() ==> comm[#[trigger] adj[i][k] as int] != c)
            && r.nodes.len() >= 2 ==> r.cohesion.num == 0,
{
    let n = adj.len() as int;
    let mem = members(comm, c, n);
    assert(names_of(r.nodes@).len() == r.nodes.len());
    assert(r.nodes.len() == mem.len());
    lemma_within_le_from(adj, mem, comm, c);
    assert forall|q: int| 0 <= q < mem.len() implies 0 <= #[trigger] mem[q] < n && comm[mem[q]] == c by {
        assert(mem.contains(mem[q]));
        lemma_members(comm, c, n, mem[q]);
    }
    if forall|i: int, k: int| 0 <= i < adj.len() && comm[i] == c && 0 <= k < adj[i].len() ==> comm[#[trigger] adj[i][k] as int] == c {
        assert forall|q: int, k: int| 0 <= q < mem.len() && 0 <= k < adj[mem[q]].len() implies (comm[#[trigger] adj[mem[q]][k] as int] == c) == true by {
            assert(0 <= mem[q] < n && comm[mem[q]] == c);
        }
        lemma_within_all(adj, mem, comm, c, true);
    }
    if forall|i: int, k: int| 0 <= i < adj.len() && comm[i] == c && 0 <= k < adj[i].len() ==> comm[#[trigger] adj[i][k] as int] != c {
        assert forall|q: int, k: int| 0 <= q < mem.len() && 0 <= k < adj[mem[q]].len() implies (comm[#[trigger] adj[mem[q]][k] as int] == c) == false by {
            assert(0 <= mem[q] < n && comm[mem[q]] == c);
        }
        lemma_within_all(adj, mem, comm, c, false);
    }
}

proof fn lemma_links_prefix(adj: Seq<Seq<usize>>, comm: Seq<usize>, c: usize, k: int)
    requires
        0 <= k <= adj.len(),
        comm.len() == adj.len(),
    ensures
        0 <= links_within(adj, members(comm, c, k), comm, c) <= links_from(adj, members(comm, c, k)),
        links_from(adj, members(comm, c, k)) <= links_from(adj, Seq::new(k as nat, |i: int| i)),
    decreases k,
{
    if k > 0 {
        lemma_links_prefix(adj, comm, c, k - 1);
        assert(Seq::new(k as nat, |i: int| i).drop_last() =~= Seq::new((k - 1) as nat, |i: int| i));
        lemma_count_in_bounds(adj[k - 1], comm, c);
        if comm[k - 1] == c {
            assert(members(comm, c, k).drop_last() =~= members(comm, c, k - 1));
        }
    }
}

/// A community found by community detection: its label, its pages, and its cohesion.
pub struct CommunityResult {
    pub community_id: usize,
    pub nodes: Vec<String>,
    pub cohesion: Ratio,
}

/// A fraction `num / den`.
pub struct Ratio {
    pub num: usize,
    pub den: usize,
}

pub(crate) fn group_communities(names: &Vec<String>, adj: &Vec<Vec<usize>>, comm: &Vec<usize>) -> (r: Vec<CommunityResult>)
    requires
        names.len() == adj.len(),
        comm.len() == adj.len(),
        forall|k: int| 0 <= k < comm.len() ==> #[trigger] comm@[k] < adj.len(),
        forall|u: int, k: int| 0 <= u < adj.len() && 0 <= k < adj@[u].len() ==> #[trigger] adj@[u]@[k] < adj.len(),
        total_links(adj@.map_values(|r: Vec<usize>| r@)) <= usize::MAX,
    ensures
        communities_match(r@, names_of(names@), adj@.map_values(|r: Vec<usize>| r@), comm@, adj.len() as int),
{
    let ghost a = adj@.map_values(|r: Vec<usize>| r@);
    let n = adj.len();
    let mut buckets: Vec<Vec<usize>> = Vec::new();
    let mut c: usize = 0;
    while c < n
        invariant
            c <= n,
            buckets.len() == c,
            forall|x: int| 0 <= x < c ==> #[trigger] buckets@[x]@ == Seq::<usize>::empty(),
        decreases n - c,
    {
        buckets.push(Vec::new());
        c = c + 1;
    }
    let mut v: usize = 0;
    while v < n
        invariant
            v <= n,
            n == adj.len(),
            comm.len() == n,
            buckets.len() == n,
            forall|k: int| 0 <= k < comm.len() ==> #[trigger] comm@[k] < n,
            forall|x: int| 0 <= x < n ==> (#[trigger] buckets@[x]@).map_values(|y: usize| y as int) == members(comm@, x as usize, v as int),
            forall|x: int, t: int| 0 <= x < n && 0 <= t < buckets@[x]@.len() ==> #[trigger] buckets@[x]@[t] < v,
        decreases n - v,
    {
        let lab = comm[v];
        let ghost old_b = buckets@;
        buckets[lab].push(v);
        proof {
            assert forall|x: int| 0 <= x < n implies (#[trigger] buckets@[x]@).map_values(|y: usize| y as int) == members(comm@, x as usize, v + 1) by {
                if x == lab as int {
                    assert(buckets@[x]@ == old_b[x]@.push(v));
                    assert(buckets@[x]@.map_values(|y: usize| y as int) =~= old_b[x]@.map_values(|y: usize| y as int).push(v as int));
                } else {
                    assert(buckets@[x] == old_b[x]);
                }
            }
        }
        v = v + 1;
    }
    let mut out: Vec<CommunityResult> = Vec::new();
    let mut cid: usize = 0;
    while cid < n
        invariant
            cid <= n,
            n == adj.len(),
            names.len() == n,
            comm.len() == n,
            buckets.len() == n,
            a == adj@.map_values(|r: Vec<usize>| r@),
            total_links(a) <= usize::MAX,
            forall|k: int| 0 <= k < comm.len() ==> #[trigger] comm@[k] < n,
            forall|u: int, k: int| 0 <= u < adj.len() && 0 <= k < adj@[u].len() ==> #[trigger] adj@[u]@[k] < adj.len(),
            forall|x: int| 0 <= x < n ==> (#[trigger] buckets@[x]@).map_values(|y: usize| y as int) == members(comm@, x as usize, n as int),
            forall|x: int, t: int| 0 <= x < n && 0 <= t < buckets@[x]@.len() ==> #[trigger] buckets@[x]@[t] < n,
            communities_match(out@, names_of(names@), a, comm@, cid as int),
        decreases n - cid,
    {
        let bucket = &buckets[cid];
        if bucket.len() > 0 {
            let ghost mem = members(comm@, cid, n as int);
            proof {
                lemma_links_prefix(a, comm@, cid, n as int);
                assert(Seq::new(n as nat, |i: int| i) =~= Seq::new(a.len(), |i: int| i));
            }
            let mut nodes: Vec<String> = Vec::new();
            let mut total: usize = 0;
            let mut internal: usize = 0;
            let mut t: usize = 0;
            while t < bucket.len()
                invariant
                    t <= bucket.len(),
                    n == adj.len(),
                    names.len() == n,
                    comm.len() == n,
                    a == adj@.map_values(|r: Vec<usize>| r@),
                    bucket@.map_values(|y: usize| y as int) == mem,
                    forall|q: int| 0 <= q < bucket.len() ==> #[trigger] bucket@[q] < n,
                    forall|u: int, k: int| 0 <= u < adj.len() && 0 <= k < adj@[u].len() ==> #[trigger] adj@[u]@[k] < adj.len(),
                    links_from(a, mem) <= usize::MAX,
                    0 <= links_within(a, mem, comm@, cid) <= links_from(a, mem),
                    names_of(nodes@) == mem.take(t as int).map_values(|i: int| names_of(names@)[i]),
                    total == links_from(a, mem.take(t as int)),
                    internal == links_within(a, mem.take(t as int), comm@, cid),
                decreases bucket.len() - t,
            {
                let u = bucket[t];
                proof {
                    assert(mem[t as int] == u as int);
                    assert(mem.take(t + 1).drop_last() =~= mem.take(t as int));
                    lemma_links_take_mono(a, mem, comm@, cid, t as int + 1);
                    assert(a[u as int] == adj@[u as int]@);
                }
                let ghost before = nodes@;
                nodes.push(names[u].clone());
                proof {
                    assert(names_of(nodes@) =~= names_of(before).push(names@[u as int]@));
                    assert(mem.take(t + 1).map_values(|i: int| names_of(names@)[i]) =~= mem.take(t as int).map_values(|i: int| names_of(names@)[i]).push(names_of(names@)[u as int]));
                }
                total = total + adj[u].len();
                let inside = count_in_exec(&adj[u], comm, cid);
                internal = internal + inside;
                t = t + 1;
            }
            proof {
                assert(mem.take(bucket.len() as int) =~= mem);
            }
            let cohesion = if bucket.len() <= 1 {
                Ratio { num: 1, den: 1 }
            } else if total == 0 {
                Ratio { num: 0, den: 1 }
            } else {
                Ratio { num: internal, den: total }
            };
            let ghost before_out = out@;
            out.push(CommunityResult { community_id: cid, nodes, cohesion });
            proof {
                assert(mem.len() > 0);
                assert(used_labels(comm@, n as int, cid + 1) == used_labels(comm@, n as int, cid as int).push(cid));
                assert forall|q: int| 0 <= q < out@.len() implies community_entry(#[trigger] out@[q], names_of(names@), a, comm@, used_labels(comm@, n as int, cid + 1)[q]) by {
                    if q < before_out.len() {
                        assert(out@[q] == before_out[q]);
                    }
                }
            }
        } else {
            proof {
                assert(bucket@.map_values(|y: usize| y as int).len() == 0);
            }
        }
        cid = cid + 1;
    }
    out
}

/// The model after adding the links of `edges` in order.
pub open spec fn edges_added(m: GraphModel, edges: Seq<(String, String)>) -> GraphModel
    decreases edges.len(),
{
    if edges.len() == 0 {
        m
    } else {
        let last = edges[edges.len() - 1];
        edges_added(m, edges.drop_last()).add_edge(last.0@, last.1@)
    }
}


/// Every page's label is one of the `n` page indices.
pub open spec fn labels_in_range(comm: Seq<usize>, n: int) -> bool {
    comm.len() == n && forall|v: int| 0 <= v < n ==> (#[trigger] comm[v] as int) < n
}

proof fn lemma_best_move_in_range(row: Seq<usize>, comm: Seq<usize>, cur: usize, j: int, n: int)
    requires
        labels_in_range(comm, n),
        (cur as int) < n,
        0 <= j <= row.len(),
        forall|k: int| 0 <= k < row.len() ==> (#[trigger] row[k] as int) < n,
    ensures
        (best_move(row, comm, cur, j).0 as int) < n,
    decreases j,
{
    if j > 0 {
        lemma_best_move_in_range(row, comm, cur, j - 1, n);
        assert((row[j - 1] as int) < n);
        assert((comm[row[j - 1] as int] as int) < n);
    }
}

proof fn lemma_sweep_in_range(adj: Seq<Seq<usize>>, order: Seq<usize>, comm: Seq<usize>, i: int)
    requires
        labels_in_range(comm, adj.len() as int),
        0 <= i <= order.len(),
        forall|k: int| 0 <= k < order.len() ==> (#[trigger] order[k] as int) < adj.len(),
        forall|u: int, k: int| 0 <= u < adj.len() && 0 <= k < adj[u].len() ==> (adj[u][k] as int) < adj.len(),
    ensures
        labels_in_range(sweep(adj, order, comm, i).0, adj.len() as int),
    decreases i,
{
    if i > 0 {
        lemma_sweep_in_range(adj, order, comm, i - 1);
        let (c, moved) = sweep(adj, order, comm, i - 1);
        let node = order[i - 1] as int;
        assert(0 <= node < adj.len());
        assert forall|k: int| 0 <= k < adj[node].len() implies (#[trigger] adj[node][k] as int) < adj.len() by {}
        lemma_best_move_in_range(adj[node], c, c[node], adj[node].len() as int, adj.len() as int);
    }
}

proof fn lemma_sweeps_in_range(adj: Seq<Seq<usize>>, order: Seq<usize>, comm: Seq<usize>, improved: bool, iteration: nat)
    requires
        labels_in_range(comm, adj.len() as int),
        forall|k: int| 0 <= k < order.len() ==> (#[trigger] order[k] as int) < adj.len(),
        forall|u: int, k: int| 0 <= u < adj.len() && 0 <= k < adj[u].len() ==> (adj[u][k] as int) < adj.len(),
    ensures
        labels_in_range(sweeps(adj, order, comm, improved, iteration), adj.len() as int),
    decreases 10 - iteration,
{
    if improved && iteration < 10 {
        lemma_sweep_in_range(adj, order, comm, order.len() as int);
        let (c, moved) = sweep(adj, order, comm, order.len() as int);
        lemma_sweeps_in_range(adj, order, c, moved, iteration + 1);
    }
}

proof fn lemma_members(comm: Seq<usize>, c: usize, n: int, i: int)
    requires
        0 <= n <= comm.len(),
    ensures
        members(comm, c, n).contains(i) <==> (0 <= i < n && comm[i] == c),
    decreases n,
{
    if n > 0 {
        lemma_members(comm, c, n - 1, i);
        let m0 = members(comm, c, n - 1);
        let last = n - 1;
        let mp = m0.push(last);
        if comm[last] == c {
            if mp.contains(i) && i != last {
                let k = choose|k: int| 0 <= k < mp.len() && mp[k] == i;
                assert(m0[k] == i);
            }
            if m0.contains(i) {
                let k = choose|k: int| 0 <= k < m0.len() && m0[k] == i;
                assert(mp[k] == i);
            }
            if i == last {
                assert(mp[m0.len() as int] == i);
            }
        }
    }
}

proof fn lemma_used_labels(comm: Seq<usize>, n: int, upto: int)
    requires
        0 <= n <= comm.len(),
        upto <= usize::MAX + 1,
    ensures
        forall|c: usize| #[trigger] used_labels(comm, n, upto).contains(c) <==> ((c as int) < upto && members(comm, c, n).len() > 0),
        forall|a: int, b: int|
            0 <= a < b < used_labels(comm, n, upto).len() ==> used_labels(comm, n, upto)[a] < used_labels(comm, n, upto)[b],
        forall|a: int| 0 <= a < used_labels(comm, n, upto).len() ==> (used_labels(comm, n, upto)[a] as int) < upto,
    decreases upto,
{
    if upto > 0 {
        lemma_used_labels(comm, n, upto - 1);
        let l0 = used_labels(comm, n, upto - 1);
        let top = (upto - 1) as usize;
        if members(comm, top, n).len() > 0 {
            assert forall|a: int, b: int| 0 <= a < b < l0.push(top).len() implies l0.push(top)[a] < l0.push(top)[b] by {
                if b == l0.len() {
                    assert(l0[a] < top);
                } else {
                    assert(l0[a] < l0[b]);
                }
            }
            assert forall|c: usize| #[trigger] l0.push(top).contains(c) <==> ((c as int) < upto && members(comm, c, n).len() > 0) by {
                if l0.push(top).contains(c) && c != top {
                    let k = choose|k: int| 0 <= k < l0.push(top).len() && l0.push(top)[k] == c;
                    assert(l0[k] == c);
                    assert(l0.contains(c));
                }
                if l0.contains(c) {
                    let k = choose|k: int| 0 <= k < l0.len() && l0[k] == c;
                    assert(l0.push(top)[k] == c);
                }
                if c == top {
                    assert(l0.push(top)[l0.len() as int] == c);
                }
                if (c as int) < upto - 1 && members(comm, c, n).len() > 0 {
                    assert(l0.contains(c));
                }
            }
        } else {
            assert forall|c: usize| #[trigger] l0.contains(c) <==> ((c as int) < upto && members(comm, c, n).len() > 0) by {
                if (c as int) == upto - 1 {
                    if l0.contains(c) {
                        let k = choose|k: int| 0 <= k < l0.len() && l0[k] == c;
                    }
                }
            }
        }
    }
}

/// Some community of `rs` lists the page `name`.
pub open spec fn listed_in(rs: Seq<CommunityResult>, name: Seq<char>) -> bool {
    exists|q: int| 0 <= q < rs.len() && (#[trigger] names_of(rs[q].nodes@)).contains(name)
}

proof fn lemma_page_listed(m: GraphModel, rs: Seq<CommunityResult>, v: int)
    requires
        m.wf(),
        m.n() <= usize::MAX,
        communities_match(rs, m.names, m.adj, louvain_assignment(m.adj), m.n()),
        0 <= v < m.n(),
    ensures
        listed_in(rs, m.names[v]),
{
    let n = m.n();
    let adj = m.adj;
    let order = Seq::new(adj.len(), |i: int| i as usize);
    let start = Seq::new(adj.len(), |i: int| i as usize);
    let comm = louvain_assignment(adj);
    lemma_sweeps_in_range(adj, order, start, true, 0);
    let labels = used_labels(comm, n, n);
    lemma_used_labels(comm, n, n);
    let c = comm[v];
    lemma_members(comm, c, n, v);
    let mem = members(comm, c, n);
    assert(mem.contains(v));
    assert(mem.len() > 0);
    assert(labels.contains(c));
    let q = choose|q: int| 0 <= q < labels.len() && labels[q] == c;
    assert(community_entry(rs[q], m.names, adj, comm, labels[q]));
    let k = choose|k: int| 0 <= k < mem.len() && mem[k] == v;
    assert(names_of(rs[q].nodes@) == mem.map_values(|i: int| m.names[i]));
    assert(names_of(rs[q].nodes@)[k] == m.names[v]);
    assert(names_of(rs[q].nodes@).contains(m.names[v]));
}

/// Every page of the graph falls in exactly one of the communities that
/// `louvain_communities` lists.
pub proof fn lemma_louvain_partition(m: GraphModel, rs: Seq<CommunityResult>)
    requires
        m.wf(),
        m.n() <= usize::MAX,
        communities_match(rs, m.names, m.adj, louvain_assignment(m.adj), m.n()),
    ensures
        forall|v: int| 0 <= v < m.n() ==> #[trigger] listed_in(rs, m.names[v]),
        forall|v: int, q1: int, q2: int|
            0 <= v < m.n() && 0 <= q1 < rs.len() && 0 <= q2 < rs.len() && #[trigger] names_of(rs[q1].nodes@).contains(m.names[v])
                && #[trigger] names_of(rs[q2].nodes@).contains(m.names[v]) ==> q1 == q2,
{
    let n = m.n();
    let adj = m.adj;
    let order = Seq::new(adj.len(), |i: int| i as usize);
    let start = Seq::new(adj.len(), |i: int| i as usize);
    let comm = louvain_assignment(adj);
    assert(labels_in_range(start, n));
    lemma_sweeps_in_range(adj, order, start, true, 0);
    assert(labels_in_range(comm, n));
    let labels = used_labels(comm, n, n);
    lemma_used_labels(comm, n, n);
    assert forall|v: int| 0 <= v < m.n() implies #[trigger] listed_in(rs, m.names[v]) by {
        lemma_page_listed(m, rs, v);
    }
    assert forall|v: int, q1: int, q2: int|
        0 <= v < n && 0 <= q1 < rs.len() && 0 <= q2 < rs.len() && #[trigger] names_of(rs[q1].nodes@).contains(m.names[v])
            && #[trigger] names_of(rs[q2].nodes@).contains(m.names[v]) implies q1 == q2 by {
        assert(community_entry(rs[q1], m.names, adj, comm, labels[q1]));
        assert(community_entry(rs[q2], m.names, adj, comm, labels[q2]));
        let mem1 = members(comm, labels[q1], n);
        let mem2 = members(comm, labels[q2], n);
        let k1 = choose|k: int| 0 <= k < names_of(rs[q1].nodes@).len() && names_of(rs[q1].nodes@)[k] == m.names[v];
        let k2 = choose|k: int| 0 <= k < names_of(rs[q2].nodes@).len() && names_of(rs[q2].nodes@)[k] == m.names[v];
        let i1 = mem1[k1];
        let i2 = mem2[k2];
        assert(mem1.contains(i1));
        assert(mem2.contains(i2));
        lemma_members(comm, labels[q1], n, i1);
        lemma_members(comm, labels[q2], n, i2);
        assert(m.names[i1] == m.names[v]);
        assert(m.names[i2] == m.names[v]);
        assert(i1 == v);
        assert(i2 == v);
        if q1 < q2 {
            assert(labels[q1] < labels[q2]);
        }
        if q2 < q1 {
            assert(labels[q2] < labels[q1]);
        }
    }
}

} // verus!
