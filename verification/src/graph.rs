//! Core graph representation: an adjacency list whose entries carry a weight of
//! any copyable type, with the walk and reachability model used by every
//! algorithm of the library.
use vstd::prelude::*;

verus! {

/// A weighted edge.
#[derive(Debug, Clone, Copy, PartialEq)]
pub struct Edge<W> {
    pub from: usize,
    pub to: usize,
    pub weight: W,
}

/// Graph representation with adjacency list.
#[derive(Debug, Clone)]
pub struct Graph<W> {
    /// Number of vertices.
    pub n: usize,
    /// Adjacency list: adj[u] = vec of (v, weight).
    pub adj: Vec<Vec<(usize, W)>>,
    /// Whether the graph is directed.
    pub directed: bool,
}

/// The rows of an adjacency list after adding the edge (u, v) with weight `w`:
/// the entry (v, w) is appended to row u and, for an undirected graph, the entry
/// (u, w) is appended to row v as well.
pub open spec fn add_edge_rows<W>(
    rows: Seq<Seq<(usize, W)>>,
    u: usize,
    v: usize,
    w: W,
    directed: bool,
) -> Seq<Seq<(usize, W)>> {
    let r1 = rows.update(u as int, rows[u as int].push((v, w)));
    if directed {
        r1
    } else {
        r1.update(v as int, r1[v as int].push((u, w)))
    }
}

/// `n` empty adjacency rows.
pub open spec fn empty_rows<W>(n: nat) -> Seq<Seq<(usize, W)>> {
    Seq::new(n, |i: int| Seq::<(usize, W)>::empty())
}

/// The rows obtained by adding the given edges, in order, to `n` empty rows.
pub open spec fn rows_from_edges<W>(
    n: nat,
    edges: Seq<(usize, usize, W)>,
    directed: bool,
) -> Seq<Seq<(usize, W)>>
    decreases edges.len(),
{
    if edges.len() == 0 {
        empty_rows(n)
    } else {
        let e = edges.last();
        add_edge_rows(rows_from_edges(n, edges.drop_last(), directed), e.0, e.1, e.2, directed)
    }
}

/// Sum of the lengths of a sequence of adjacency rows.
pub open spec fn sum_lens<W>(rows: Seq<Vec<(usize, W)>>) -> nat
    decreases rows.len(),
{
    if rows.len() == 0 {
        0
    } else {
        sum_lens(rows.drop_last()) + rows.last()@.len()
    }
}

/// The weight of the last entry of `row` whose target is `j`, if there is one.
pub open spec fn last_weight<W>(row: Seq<(usize, W)>, j: usize) -> Option<W>
    decreases row.len(),
{
    if row.len() == 0 {
        None
    } else if row.last().0 == j {
        Some(row.last().1)
    } else {
        last_weight(row.drop_last(), j)
    }
}

/// `last_weight` finds the last entry of `row` whose target is `j`: its weight,
/// with no later entry to `j`; `None` exactly when no entry leads to `j`.
pub proof fn law_last_weight<W>(row: Seq<(usize, W)>, j: usize)
    ensures
        match last_weight(row, j) {
            Some(w) => exists|k: int|
                0 <= k < row.len() && #[trigger] row[k] == (j, w) && forall|k2: int| k < k2 < row.len() ==> (#[trigger] row[k2]).0 != j,
            None => forall|k: int| 0 <= k < row.len() ==> (#[trigger] row[k]).0 != j,
        },
    decreases row.len(),
{
    if row.len() > 0 {
        let r0 = row.drop_last();
        law_last_weight(r0, j);
        let l = row.len() - 1;
        if row.last().0 == j {
            assert(row[l] == (j, row.last().1));
        } else {
            match last_weight(r0, j) {
                Some(w) => {
                    let k = choose|k: int|
                        0 <= k < r0.len() && #[trigger] r0[k] == (j, w) && forall|k2: int| k < k2 < r0.len() ==> (#[trigger] r0[k2]).0 != j;
                    assert(row[k] == r0[k]);
                    assert forall|k2: int| k < k2 < row.len() implies (#[trigger] row[k2]).0 != j by {
                        if k2 < l {
                            assert(row[k2] == r0[k2]);
                        }
                    }
                },
                None => {
                    assert forall|k: int| 0 <= k < row.len() implies (#[trigger] row[k]).0 != j by {
                        if k < l {
                            assert(row[k] == r0[k]);
                        }
                    }
                },
            }
        }
    }
}

impl<W> Graph<W> {
    /// Well-formed: one adjacency row per vertex, and every entry names a vertex.
    pub open spec fn wf(&self) -> bool {
        &&& self.adj@.len() == self.n
        &&& forall|u: int, k: int|
            0 <= u < self.n && 0 <= k < self.adj@[u]@.len() ==> (#[trigger] self.adj@[u]@[k]).0
                < self.n
    }

    /// The adjacency rows as sequences.
    pub open spec fn rows(&self) -> Seq<Seq<(usize, W)>> {
        self.adj@.map_values(|r: Vec<(usize, W)>| r@)
    }

    /// Number of adjacency entries over all rows.
    pub open spec fn num_entries(&self) -> nat {
        sum_lens(self.adj@)
    }

    /// Number of edges: adjacency entries, each undirected edge counted once.
    pub open spec fn edge_total(&self) -> nat {
        if self.directed {
            self.num_entries()
        } else {
            self.num_entries() / 2
        }
    }

    /// Some entry of row `u` leads to `v`.
    pub open spec fn has_edge(&self, u: int, v: int) -> bool {
        &&& 0 <= u < self.adj@.len()
        &&& exists|k: int| 0 <= k < self.adj@[u]@.len() && (#[trigger] self.adj@[u]@[k]).0 == v
    }

    /// Every edge has its reverse edge.
    pub open spec fn symmetric(&self) -> bool {
        forall|u: int, v: int| #[trigger] self.has_edge(u, v) ==> self.has_edge(v, u)
    }

    /// Every entry has a reverse entry of the same weight, as in a graph whose
    /// edges were all added undirected.
    pub open spec fn weight_symmetric(&self) -> bool {
        forall|a: int, k: int| 0 <= a < self.n && 0 <= k < self.adj@[a]@.len() ==> #[trigger] self.has_reverse(a, k)
    }

    /// Entry `k` of row `a` has a reverse entry of the same weight.
    pub open spec fn has_reverse(&self, a: int, k: int) -> bool {
        let b = self.adj@[a]@[k].0 as int;
        exists|k2: int| 0 <= k2 < self.adj@[b]@.len() && #[trigger] self.adj@[b]@[k2] == (a as usize, self.adj@[a]@[k].1)
    }

    /// Step `i` of `p` follows an edge.
    pub open spec fn step(&self, p: Seq<usize>, i: int) -> bool {
        self.has_edge(p[i] as int, p[i + 1] as int)
    }

    /// `p` is a non-empty walk: its vertices exist and consecutive ones are joined by edges.
    pub open spec fn is_walk(&self, p: Seq<usize>) -> bool {
        &&& p.len() >= 1
        &&& forall|i: int| 0 <= i < p.len() ==> #[trigger] p[i] < self.n
        &&& forall|i: int| 0 <= i < p.len() - 1 ==> #[trigger] self.step(p, i)
    }

    /// `p` is a walk from `s` to `t`.
    pub open spec fn walk_between(&self, p: Seq<usize>, s: int, t: int) -> bool {
        &&& self.is_walk(p)
        &&& p[0] == s
        &&& p.last() == t
    }

    /// `t` can be reached from `s` by following edges.
    pub open spec fn reachable(&self, s: int, t: int) -> bool {
        exists|p: Seq<usize>| #[trigger] self.walk_between(p, s, t)
    }

    /// Create a new undirected graph with `n` vertices.
    pub fn new(n: usize) -> (g: Self)
        ensures
            g.n == n,
            !g.directed,
            g.wf(),
            g.rows() == empty_rows::<W>(n as nat),
            forall|a: int, b: int| !#[trigger] g.has_edge(a, b),
            g.weight_symmetric(),
    {
        Graph { n, adj: empty_adj(n), directed: false }
    }

    /// Create a new directed graph with `n` vertices.
    pub fn new_directed(n: usize) -> (g: Self)
        ensures
            g.n == n,
            g.directed,
            g.wf(),
            g.rows() == empty_rows::<W>(n as nat),
            forall|a: int, b: int| !#[trigger] g.has_edge(a, b),
            g.weight_symmetric(),
    {
        Graph { n, adj: empty_adj(n), directed: true }
    }

    /// Get the degree of vertex v.
    pub fn degree(&self, v: usize) -> (d: usize)
        requires
            v < self.adj@.len(),
        ensures
            d == self.adj@[v as int]@.len(),
    {
        self.adj[v].len()
    }

    /// Get neighbors of vertex v.
    pub fn neighbors(&self, v: usize) -> (r: &[(usize, W)])
        requires
            v < self.adj@.len(),
        ensures
            r@ == self.adj@[v as int]@,
    {
        self.adj[v].as_slice()
    }

    /// Number of edges (counting undirected edges once).
    pub fn edge_count(&self) -> (m: usize)
        requires
            self.num_entries() <= usize::MAX,
        ensures
            m == self.edge_total(),
    {
        let mut total: usize = 0;
        let mut i: usize = 0;
        while i < self.adj.len()
            invariant
                i <= self.adj@.len(),
                total == sum_lens(self.adj@.take(i as int)),
                self.num_entries() <= usize::MAX,
            decreases self.adj@.len() - i,
        {
            proof {
                assert(self.adj@.take(i + 1).drop_last() =~= self.adj@.take(i as int));
                lemma_sum_lens_prefix(self.adj@, i as int + 1);
            }
            total = total + self.adj[i].len();
            i = i + 1;
        }
        proof {
            assert(self.adj@.take(i as int) =~= self.adj@);
        }
        if self.directed {
            total
        } else {
            total / 2
        }
    }
}

/// A prefix of the rows has no more entries than all of them.
pub proof fn lemma_sum_lens_prefix<W>(rows: Seq<Vec<(usize, W)>>, i: int)
    requires
        0 <= i <= rows.len(),
    ensures
        sum_lens(rows.take(i)) <= sum_lens(rows),
    decreases rows.len() - i,
{
    if i < rows.len() {
        lemma_sum_lens_prefix(rows, i + 1);
        assert(rows.take(i + 1).drop_last() =~= rows.take(i));
    } else {
        assert(rows.take(i) =~= rows);
    }
}

/// Replacing one row changes the number of entries by the difference of the row lengths.
pub proof fn lemma_sum_lens_update<W>(rows: Seq<Vec<(usize, W)>>, i: int, r: Vec<(usize, W)>)
    requires
        0 <= i < rows.len(),
    ensures
        sum_lens(rows.update(i, r)) + rows[i]@.len() == sum_lens(rows) + r@.len(),
    decreases rows.len(),
{
    if i < rows.len() - 1 {
        assert(rows.update(i, r).drop_last() =~= rows.drop_last().update(i, r));
        lemma_sum_lens_update(rows.drop_last(), i, r);
    } else {
        assert(rows.update(i, r).drop_last() =~= rows.drop_last());
    }
}

/// `n` empty rows.
fn empty_adj<W>(n: usize) -> (adj: Vec<Vec<(usize, W)>>)
    ensures
        adj@.len() == n,
        forall|j: int| 0 <= j < n ==> (#[trigger] adj@[j])@.len() == 0,
        adj@.map_values(|r: Vec<(usize, W)>| r@) == empty_rows::<W>(n as nat),
{
    let mut adj: Vec<Vec<(usize, W)>> = Vec::new();
    let mut i: usize = 0;
    while i < n
        invariant
            i <= n,
            adj@.len() == i,
            forall|j: int| 0 <= j < i ==> (#[trigger] adj@[j])@.len() == 0,
        decreases n - i,
    {
        adj.push(Vec::new());
        i = i + 1;
    }
    assert forall|j: int| 0 <= j < n implies adj@.map_values(|r: Vec<(usize, W)>| r@)[j]
        =~= empty_rows::<W>(n as nat)[j] by {
        assert(adj@[j]@.len() == 0);
    }
    assert(adj@.map_values(|r: Vec<(usize, W)>| r@) =~= empty_rows::<W>(n as nat));
    adj
}

impl<W: Copy> Graph<W> {
    /// Add an edge (u, v) with given weight.
    pub fn add_edge(&mut self, u: usize, v: usize, weight: W)
        requires
            u < old(self).adj@.len(),
            !old(self).directed ==> v < old(self).adj@.len(),
        ensures
            final(self).n == old(self).n,
            final(self).directed == old(self).directed,
            final(self).adj@.len() == old(self).adj@.len(),
            final(self).rows() == add_edge_rows(old(self).rows(), u, v, weight, old(self).directed),
            old(self).wf() && v < old(self).n ==> final(self).wf(),
            forall|a: int, b: int|
                #[trigger] final(self).has_edge(a, b) <==> (old(self).has_edge(a, b) || (a == u
                    && b == v) || (!old(self).directed && a == v && b == u)),
            !old(self).directed && old(self).symmetric() ==> final(self).symmetric(),
            old(self).wf() && !old(self).directed && old(self).weight_symmetric() ==> final(self).weight_symmetric(),
            final(self).num_entries() == old(self).num_entries() + if old(self).directed {
                1nat
            } else {
                2nat
            },
            final(self).edge_total() == old(self).edge_total() + 1,
    {
        let ghost g0 = *self;
        self.adj[u].push((v, weight));
        if !self.directed {
            self.adj[v].push((u, weight));
        }
        assert(self.rows() =~= add_edge_rows(g0.rows(), u, v, weight, self.directed));
        proof {
            let a1 = g0.adj@.update(u as int, self.adj@[u as int]);
            lemma_sum_lens_update(g0.adj@, u as int, self.adj@[u as int]);
            if self.directed || u == v {
                assert(self.adj@ =~= a1);
            } else {
                assert(self.adj@ =~= a1.update(v as int, self.adj@[v as int]));
                lemma_sum_lens_update(a1, v as int, self.adj@[v as int]);
            }
        }
        assert forall|a: int, b: int| #[trigger] self.has_edge(a, b) <==> (g0.has_edge(a, b) || (a
            == u && b == v) || (!g0.directed && a == v && b == u)) by {
            if self.has_edge(a, b) {
                let k = choose|k: int| 0 <= k < self.adj@[a]@.len() && (#[trigger] self.adj@[a]@[k]).0 == b;
                if k < g0.adj@[a]@.len() {
                    assert(g0.adj@[a]@[k] == self.adj@[a]@[k]);
                }
            }
            if g0.has_edge(a, b) {
                let k = choose|k: int| 0 <= k < g0.adj@[a]@.len() && (#[trigger] g0.adj@[a]@[k]).0 == b;
                assert(g0.adj@[a]@[k] == self.adj@[a]@[k]);
            }
            if a == u && b == v {
                if g0.directed || u != v {
                    assert(self.adj@[a]@[g0.adj@[a]@.len() as int].0 == b);
                } else {
                    assert(self.adj@[a]@[g0.adj@[a]@.len() as int].0 == b);
                }
            }
            if !g0.directed && a == v && b == u {
                assert(self.adj@[a]@[self.adj@[a]@.len() - 1].0 == b);
            }
        }
        proof {
            if g0.wf() && !g0.directed && g0.weight_symmetric() {
                assert forall|a: int, k: int| 0 <= a < self.n && 0 <= k < self.adj@[a]@.len() implies #[trigger] self.has_reverse(a, k) by {
                    let b = self.adj@[a]@[k].0 as int;
                    if k < g0.adj@[a]@.len() {
                        assert(g0.adj@[a]@[k] == self.adj@[a]@[k]);
                        assert(g0.has_reverse(a, k));
                        let k2 = choose|k2: int|
                            0 <= k2 < g0.adj@[b]@.len() && #[trigger] g0.adj@[b]@[k2] == (a as usize, g0.adj@[a]@[k].1);
                        assert(self.adj@[b]@[k2] == g0.adj@[b]@[k2]);
                    } else if a == u as int {
                        if u == v {
                            assert(self.adj@[b]@[k] == (a as usize, self.adj@[a]@[k].1));
                        } else {
                            assert(self.adj@[a]@[k] == (v, weight));
                            assert(self.adj@[b]@[g0.adj@[b]@.len() as int] == (u, weight));
                        }
                    } else {
                        assert(a == v as int);
                        assert(self.adj@[a]@[k] == (u, weight));
                        assert(self.adj@[b]@[g0.adj@[b]@.len() as int] == (v, weight));
                    }
                }
                assert(self.weight_symmetric());
            }
        }
    }

    /// Build a graph from an edge list.
    pub fn from_edge_list(n: usize, edges: &[(usize, usize, W)], directed: bool) -> (g: Self)
        requires
            forall|i: int|
                0 <= i < edges@.len() ==> (#[trigger] edges@[i]).0 < n && (!directed
                    ==> edges@[i].1 < n),
        ensures
            g.n == n,
            g.directed == directed,
            g.rows() == rows_from_edges(n as nat, edges@, directed),
            (forall|i: int| 0 <= i < edges@.len() ==> (#[trigger] edges@[i]).1 < n) ==> g.wf(),
            !directed ==> g.symmetric(),
            !directed ==> g.weight_symmetric(),
    {
        let mut g = if directed {
            Self::new_directed(n)
        } else {
            Self::new(n)
        };
        let mut i: usize = 0;
        while i < edges.len()
            invariant
                i <= edges@.len(),
                g.n == n,
                g.directed == directed,
                g.adj@.len() == n,
                g.rows() == rows_from_edges(n as nat, edges@.take(i as int), directed),
                forall|j: int|
                    0 <= j < edges@.len() ==> (#[trigger] edges@[j]).0 < n && (!directed
                        ==> edges@[j].1 < n),
                (forall|j: int| 0 <= j < edges@.len() ==> (#[trigger] edges@[j]).1 < n) ==> g.wf(),
                !directed ==> g.symmetric(),
                !directed ==> g.wf() && g.weight_symmetric(),
            decreases edges@.len() - i,
        {
            let (u, v, w) = edges[i];
            proof {
                assert(edges@.take(i + 1).drop_last() =~= edges@.take(i as int));
                assert(edges@.take(i + 1).last() == edges@[i as int]);
            }
            g.add_edge(u, v, w);
            i = i + 1;
        }
        proof {
            assert(edges@.take(i as int) =~= edges@);
        }
        g
    }

    /// Convert to an adjacency matrix (n x n): entry (u, v) holds the weight of the
    /// last edge from u to v; a missing edge holds `absent`, except on the
    /// diagonal, which holds `diagonal`.
    pub fn adjacency_matrix(&self, absent: W, diagonal: W) -> (mat: Vec<Vec<W>>)
        requires
            self.wf(),
        ensures
            mat@.len() == self.n,
            forall|i: int| 0 <= i < self.n ==> (#[trigger] mat@[i])@.len() == self.n,
            forall|i: int, j: int|
                0 <= i < self.n && 0 <= j < self.n ==> (#[trigger] mat@[i]@[j]) == match last_weight(
                    self.adj@[i]@,
                    j as usize,
                ) {
                    Some(w) => w,
                    None => if i == j {
                        diagonal
                    } else {
                        absent
                    },
                },
    {
        let n = self.n;
        let mut mat: Vec<Vec<W>> = Vec::new();
        let mut i: usize = 0;
        while i < n
            invariant
                self.wf(),
                n == self.n,
                i <= n,
                mat@.len() == i,
                forall|a: int| 0 <= a < i ==> (#[trigger] mat@[a])@.len() == n,
                forall|a: int, j: int|
                    0 <= a < i && 0 <= j < n ==> (#[trigger] mat@[a]@[j]) == match last_weight(
                        self.adj@[a]@,
                        j as usize,
                    ) {
                        Some(w) => w,
                        None => if a == j {
                            diagonal
                        } else {
                            absent
                        },
                    },
            decreases n - i,
        {
            let mut row: Vec<W> = Vec::new();
            let mut j: usize = 0;
            while j < n
                invariant
                    j <= n,
                    row@.len() == j,
                    forall|b: int| 0 <= b < j ==> (#[trigger] row@[b]) == if b == i {
                        diagonal
                    } else {
                        absent
                    },
                decreases n - j,
            {
                if j == i {
                    row.push(diagonal);
                } else {
                    row.push(absent);
                }
                j = j + 1;
            }
            let ghost entries = self.adj@[i as int]@;
            let mut k: usize = 0;
            while k < self.adj[i].len()
                invariant
                    self.wf(),
                    n == self.n,
                    i < n,
                    entries == self.adj@[i as int]@,
                    k <= entries.len(),
                    row@.len() == n,
                    forall|b: int|
                        0 <= b < n ==> (#[trigger] row@[b]) == match last_weight(
                            entries.take(k as int),
                            b as usize,
                        ) {
                            Some(w) => w,
                            None => if b == i {
                                diagonal
                            } else {
                                absent
                            },
                        },
                decreases entries.len() - k,
            {
                let (v, w) = self.adj[i][k];
                proof {
                    assert(entries.take(k + 1).drop_last() =~= entries.take(k as int));
                    assert(entries.take(k + 1).last() == entries[k as int]);
                    assert(v < n);
                }
                row.set(v, w);
                k = k + 1;
            }
            proof {
                assert(entries.take(k as int) =~= entries);
            }
            mat.push(row);
            i = i + 1;
        }
        mat
    }
}

impl Graph<u64> {
    /// Add an unweighted edge (weight = 1).
    pub fn add_edge_unit(&mut self, u: usize, v: usize)
        requires
            u < old(self).adj@.len(),
            !old(self).directed ==> v < old(self).adj@.len(),
        ensures
            final(self).n == old(self).n,
            final(self).directed == old(self).directed,
            final(self).adj@.len() == old(self).adj@.len(),
            final(self).rows() == add_edge_rows(old(self).rows(), u, v, 1u64, old(self).directed),
            old(self).wf() && v < old(self).n ==> final(self).wf(),
            forall|a: int, b: int|
                #[trigger] final(self).has_edge(a, b) <==> (old(self).has_edge(a, b) || (a == u
                    && b == v) || (!old(self).directed && a == v && b == u)),
            !old(self).directed && old(self).symmetric() ==> final(self).symmetric(),
            final(self).edge_total() == old(self).edge_total() + 1,
    {
        self.add_edge(u, v, 1)
    }
}

/// The entries of row `u` as (u, target, weight) triples.
pub open spec fn row_entries(u: int, row: Seq<(usize, u64)>) -> Seq<(usize, usize, u64)> {
    Seq::new(row.len(), |k: int| (u as usize, row[k].0, row[k].1))
}

/// The entries of the rows below `u`, row by row, as (source, target, weight) triples.
pub open spec fn entries_upto(adj: Seq<Vec<(usize, u64)>>, u: int) -> Seq<(usize, usize, u64)>
    decreases u,
{
    if u <= 0 {
        Seq::empty()
    } else {
        entries_upto(adj, u - 1) + row_entries(u - 1, adj[u - 1]@)
    }
}

/// The key by which edge-list entries are told apart: for an undirected graph the
/// endpoints are taken in increasing order.
pub open spec fn entry_key(e: (usize, usize, u64), directed: bool) -> (usize, usize, u64) {
    if directed || e.0 < e.1 {
        e
    } else {
        (e.1, e.0, e.2)
    }
}

/// The entries whose key does not occur earlier, as edges, in order.
pub open spec fn dedup_entries(es: Seq<(usize, usize, u64)>, directed: bool) -> Seq<Edge<u64>>
    decreases es.len(),
{
    if es.len() == 0 {
        Seq::empty()
    } else {
        let d = dedup_entries(es.drop_last(), directed);
        let e = es.last();
        if exists|j: int|
            0 <= j < es.len() - 1 && entry_key(#[trigger] es[j], directed) == entry_key(e, directed) {
            d
        } else {
            d.push(Edge { from: e.0, to: e.1, weight: e.2 })
        }
    }
}

/// The key of an edge.
pub open spec fn edge_key(e: Edge<u64>, directed: bool) -> (usize, usize, u64) {
    entry_key((e.from, e.to, e.weight), directed)
}

/// A key occurs among the kept edges exactly when it occurs among the entries.
pub proof fn lemma_dedup_keys(es: Seq<(usize, usize, u64)>, directed: bool, key: (usize, usize, u64))
    ensures
        (exists|i: int| 0 <= i < dedup_entries(es, directed).len() && edge_key(
            #[trigger] dedup_entries(es, directed)[i],
            directed,
        ) == key) <==> (exists|j: int| 0 <= j < es.len() && entry_key(#[trigger] es[j], directed) == key),
    decreases es.len(),
{
    if es.len() > 0 {
        let d = dedup_entries(es.drop_last(), directed);
        lemma_dedup_keys(es.drop_last(), directed, key);
        let e = es.last();
        if exists|i: int| 0 <= i < dedup_entries(es, directed).len() && edge_key(
            #[trigger] dedup_entries(es, directed)[i],
            directed,
        ) == key {
            let i = choose|i: int| 0 <= i < dedup_entries(es, directed).len() && edge_key(
                #[trigger] dedup_entries(es, directed)[i],
                directed,
            ) == key;
            if i < d.len() {
                assert(dedup_entries(es, directed)[i] == d[i]);
                let j = choose|j: int| 0 <= j < es.drop_last().len() && entry_key(#[trigger] es.drop_last()[j], directed) == key;
                assert(es[j] == es.drop_last()[j]);
            } else {
                assert(entry_key(es[es.len() - 1], directed) == key);
            }
        }
        if exists|j: int| 0 <= j < es.len() && entry_key(#[trigger] es[j], directed) == key {
            let j = choose|j: int| 0 <= j < es.len() && entry_key(#[trigger] es[j], directed) == key;
            if j < es.len() - 1 {
                assert(es.drop_last()[j] == es[j]);
                let i = choose|i: int| 0 <= i < d.len() && edge_key(#[trigger] d[i], directed) == key;
                assert(dedup_entries(es, directed)[i] == d[i]);
            } else if exists|j2: int|
                0 <= j2 < es.len() - 1 && entry_key(#[trigger] es[j2], directed) == entry_key(e, directed) {
                let j2 = choose|j2: int|
                    0 <= j2 < es.len() - 1 && entry_key(#[trigger] es[j2], directed) == entry_key(e, directed);
                assert(es.drop_last()[j2] == es[j2]);
                let i = choose|i: int| 0 <= i < d.len() && edge_key(#[trigger] d[i], directed) == key;
                assert(dedup_entries(es, directed)[i] == d[i]);
            } else {
                assert(dedup_entries(es, directed)[d.len() as int] == Edge { from: e.0, to: e.1, weight: e.2 });
            }
        }
    }
}

/// Position of `key` in `keys`, if it occurs.
fn find_key(keys: &Vec<(usize, usize, u64)>, key: (usize, usize, u64)) -> (found: bool)
    ensures
        found == keys@.contains(key),
{
    let mut i: usize = 0;
    while i < keys.len()
        invariant
            i <= keys@.len(),
            forall|j: int| 0 <= j < i ==> keys@[j] != key,
        decreases keys@.len() - i,
    {
        let k = keys[i];
        if k.0 == key.0 && k.1 == key.1 && k.2 == key.2 {
            return true;
        }
        i = i + 1;
    }
    false
}

impl Graph<u64> {
    /// Get the edge list: every adjacency entry as an edge, in row order, keeping
    /// only the first entry of each key (for an undirected graph the key takes the
    /// endpoints in increasing order, so each undirected edge appears once).
    pub fn edge_list(&self) -> (edges: Vec<Edge<u64>>)
        requires
            self.adj@.len() >= self.n,
        ensures
            edges@ == dedup_entries(entries_upto(self.adj@, self.n as int), self.directed),
    {
        let mut edges: Vec<Edge<u64>> = Vec::new();
        let mut seen: Vec<(usize, usize, u64)> = Vec::new();
        let mut u: usize = 0;
        while u < self.n
            invariant
                u <= self.n,
                self.adj@.len() >= self.n,
                edges@ == dedup_entries(entries_upto(self.adj@, u as int), self.directed),
                seen@.len() == edges@.len(),
                forall|i: int| 0 <= i < seen@.len() ==> #[trigger] seen@[i] == edge_key(edges@[i], self.directed),
            decreases self.n - u,
        {
            let ghost before = entries_upto(self.adj@, u as int);
            let mut k: usize = 0;
            while k < self.adj[u].len()
                invariant
                    u < self.n,
                    self.adj@.len() >= self.n,
                    before == entries_upto(self.adj@, u as int),
                    k <= self.adj@[u as int]@.len(),
                    edges@ == dedup_entries(before + row_entries(u as int, self.adj@[u as int]@).take(k as int), self.directed),
                    seen@.len() == edges@.len(),
                    forall|i: int| 0 <= i < seen@.len() ==> #[trigger] seen@[i] == edge_key(edges@[i], self.directed),
                decreases self.adj@[u as int]@.len() - k,
            {
                let (v, w) = self.adj[u][k];
                let key = if !self.directed {
                    if u < v {
                        (u, v, w)
                    } else {
                        (v, u, w)
                    }
                } else {
                    (u, v, w)
                };
                let ghost es = before + row_entries(u as int, self.adj@[u as int]@).take(k as int);
                let ghost es1 = before + row_entries(u as int, self.adj@[u as int]@).take(k + 1);
                proof {
                    assert(es1.drop_last() =~= es);
                    assert(es1.last() == (u, v, w));
                    assert(key == entry_key((u, v, w), self.directed));
                    lemma_dedup_keys(es, self.directed, key);
                    if seen@.contains(key) {
                        let i = choose|i: int| 0 <= i < seen@.len() && seen@[i] == key;
                        assert(edge_key(dedup_entries(es, self.directed)[i], self.directed) == key);
                        let j = choose|j: int| 0 <= j < es.len() && entry_key(#[trigger] es[j], self.directed) == key;
                        assert(es1[j] == es[j]);
                    } else {
                        if exists|j: int|
                            0 <= j < es1.len() - 1 && entry_key(#[trigger] es1[j], self.directed)
                                == entry_key(es1.last(), self.directed) {
                            let j = choose|j: int|
                                0 <= j < es1.len() - 1 && entry_key(#[trigger] es1[j], self.directed)
                                    == entry_key(es1.last(), self.directed);
                            assert(es[j] == es1[j]);
                            let i = choose|i: int| 0 <= i < dedup_entries(es, self.directed).len() && edge_key(
                                #[trigger] dedup_entries(es, self.directed)[i],
                                self.directed,
                            ) == key;
                            assert(seen@[i] == key);
                        }
                    }
                }
                if !find_key(&seen, key) {
                    edges.push(Edge { from: u, to: v, weight: w });
                    seen.push(key);
                }
                k = k + 1;
            }
            proof {
                assert(row_entries(u as int, self.adj@[u as int]@).take(k as int) =~= row_entries(u as int, self.adj@[u as int]@));
            }
            u = u + 1;
        }
        edges
    }
}

/// A vertex reaches itself.
pub proof fn lemma_reach_refl<W>(g: &Graph<W>, s: int)
    requires
        0 <= s < g.n,
    ensures
        g.reachable(s, s),
{
    let p = seq![s as usize];
    assert(g.walk_between(p, s, s));
}

/// Reachability extends along an edge.
pub proof fn lemma_reach_step<W>(g: &Graph<W>, s: int, u: int, v: int)
    requires
        g.reachable(s, u),
        g.has_edge(u, v),
        0 <= v < g.n,
    ensures
        g.reachable(s, v),
{
    let p = choose|p: Seq<usize>| #[trigger] g.walk_between(p, s, u);
    let q = p.push(v as usize);
    assert forall|i: int| 0 <= i < q.len() - 1 implies #[trigger] g.step(q, i) by {
        if i < p.len() - 1 {
            assert(g.step(p, i));
        } else {
            assert(q[i] == u);
        }
    }
    assert forall|i: int| 0 <= i < q.len() implies #[trigger] q[i] < g.n by {
        if i < p.len() {
            assert(q[i] == p[i]);
        }
    }
    assert(g.walk_between(q, s, v));
}

/// Reachability is transitive.
pub proof fn lemma_reach_trans<W>(g: &Graph<W>, s: int, u: int, t: int)
    requires
        g.reachable(s, u),
        g.reachable(u, t),
    ensures
        g.reachable(s, t),
{
    let p = choose|p: Seq<usize>| #[trigger] g.walk_between(p, s, u);
    let q = choose|q: Seq<usize>| #[trigger] g.walk_between(q, u, t);
    let r = p + q.drop_first();
    assert forall|i: int| 0 <= i < r.len() implies #[trigger] r[i] < g.n by {
        if i < p.len() {
            assert(r[i] == p[i]);
        } else {
            assert(r[i] == q[i - p.len() + 1]);
        }
    }
    assert forall|i: int| 0 <= i < r.len() - 1 implies #[trigger] g.step(r, i) by {
        if i < p.len() - 1 {
            assert(g.step(p, i));
        } else if i == p.len() - 1 {
            assert(g.step(q, 0));
            assert(r[i] == q[0]);
            assert(r[i + 1] == q[1]);
        } else {
            let j = i - p.len() + 1;
            assert(g.step(q, j));
            assert(r[i] == q[j]);
            assert(r[i + 1] == q[j + 1]);
        }
    }
    if q.len() == 1 {
        assert(r =~= p);
    }
    assert(g.walk_between(r, s, t));
}

/// In a graph whose edges all have reverses, reachability is symmetric.
pub proof fn lemma_reach_sym<W>(g: &Graph<W>, s: int, t: int)
    requires
        g.symmetric(),
        g.reachable(s, t),
    ensures
        g.reachable(t, s),
{
    let p = choose|p: Seq<usize>| #[trigger] g.walk_between(p, s, t);
    let q = p.reverse();
    let l = p.len() as int;
    assert forall|i: int| 0 <= i < q.len() implies #[trigger] q[i] < g.n by {
        assert(q[i] == p[l - 1 - i]);
    }
    assert forall|i: int| 0 <= i < q.len() - 1 implies #[trigger] g.step(q, i) by {
        assert(g.step(p, l - 2 - i));
        assert(q[i] == p[l - 1 - i]);
        assert(q[i + 1] == p[l - 2 - i]);
    }
    assert(g.walk_between(q, t, s));
}

/// Every vertex on a walk lies in any vertex set that holds the walk's first
/// vertex and is closed under edges.
pub proof fn lemma_walk_in_closed<W>(g: &Graph<W>, p: Seq<usize>, set: Set<int>, i: int)
    requires
        g.is_walk(p),
        set.contains(p[0] as int),
        forall|x: int, y: int| set.contains(x) && #[trigger] g.has_edge(x, y) ==> set.contains(y),
        0 <= i < p.len(),
    ensures
        set.contains(p[i] as int),
    decreases i,
{
    if i > 0 {
        lemma_walk_in_closed(g, p, set, i - 1);
        assert(g.step(p, i - 1));
    }
}

/// A vertex set that holds `s` and is closed under edges holds everything `s` reaches.
pub proof fn lemma_closed_holds_reachable<W>(g: &Graph<W>, s: int, t: int, set: Set<int>)
    requires
        set.contains(s),
        forall|x: int, y: int| set.contains(x) && #[trigger] g.has_edge(x, y) ==> set.contains(y),
        g.reachable(s, t),
    ensures
        set.contains(t),
{
    let p = choose|p: Seq<usize>| #[trigger] g.walk_between(p, s, t);
    lemma_walk_in_closed(g, p, set, p.len() - 1);
}

} // verus!
