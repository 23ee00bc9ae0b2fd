//! Shortest walks from one source, layer by layer: distances, the number of
//! shortest walks to each vertex and their last steps, as a breadth-first
//! search finds them. Betweenness centrality is built on these.
use crate::agent_network::pair_lt;
use crate::connectivity::filled_usize;
use crate::graph::{Graph, lemma_reach_step};
use crate::seq_facts::lemma_distinct_bounded;
use crate::traversal::{bfs, bfs_order, bfs_parents, cnt_row, lemma_cnt_row_pos, lemma_cnt_row_prefix, lemma_cnt_row_step, lists_reachable};
use vstd::prelude::*;

verus! {

/// `d` is the distance from `s` to `x`: some walk takes `d` steps, none fewer.
pub open spec fn is_distance<W>(g: &Graph<W>, s: int, x: int, d: int) -> bool {
    &&& exists|p: Seq<usize>| #[trigger] g.walk_between(p, s, x) && p.len() == d + 1
    &&& forall|p: Seq<usize>| #[trigger] g.walk_between(p, s, x) ==> p.len() >= d + 1
}

/// The layer of the vertex listed at `i`: one more than that of the vertex it
/// was reached from.
pub open spec fn layer_of(par: Seq<int>, i: int) -> nat
    decreases i,
{
    if 0 < i && 0 <= par[i] < i {
        layer_of(par, par[i]) + 1
    } else {
        0
    }
}

proof fn lemma_layer_mono(par: Seq<int>, len: int, i: int, j: int)
    requires
        forall|a: int| 1 <= a < len ==> 0 <= #[trigger] par[a] < a,
        forall|a: int, b: int| 1 <= a < b < len ==> #[trigger] par[a] <= #[trigger] par[b],
        0 <= i <= j < len,
    ensures
        layer_of(par, i) <= layer_of(par, j),
    decreases j,
{
    if i < j && i > 0 {
        assert(par[i] <= par[j]);
        lemma_layer_mono(par, len, par[i], par[j]);
    }
}

proof fn lemma_layer_bound(par: Seq<int>, len: int, i: int)
    requires
        forall|a: int| 1 <= a < len ==> 0 <= #[trigger] par[a] < a,
        0 <= i < len,
    ensures
        layer_of(par, i) <= i,
    decreases i,
{
    if i > 0 {
        lemma_layer_bound(par, len, par[i]);
    }
}

/// The vertex listed at `i` is reached from the source in `layer_of(par, i)` steps.
proof fn lemma_layer_walk<W>(g: &Graph<W>, order: Seq<usize>, par: Seq<int>, i: int)
    requires
        g.wf(),
        lists_reachable(g, order[0], order),
        bfs_parents(g, order, par),
        0 <= i < order.len(),
    ensures
        exists|p: Seq<usize>| #[trigger] g.walk_between(p, order[0] as int, order[i] as int) && p.len() == layer_of(par, i) + 1,
    decreases i,
{
    assert(order.contains(order[i]));
    if i == 0 {
        let p = seq![order[0]];
        assert(g.walk_between(p, order[0] as int, order[0] as int));
    } else {
        let a = par[i];
        lemma_layer_walk(g, order, par, a);
        let p = choose|p: Seq<usize>| #[trigger] g.walk_between(p, order[0] as int, order[a] as int) && p.len() == layer_of(par, a) + 1;
        let q = p.push(order[i]);
        assert(g.has_edge(order[a] as int, order[i] as int));
        assert forall|t: int| 0 <= t < q.len() implies #[trigger] q[t] < g.n by {
            if t < p.len() {
                assert(q[t] == p[t]);
            }
        }
        assert forall|t: int| 0 <= t < q.len() - 1 implies #[trigger] g.step(q, t) by {
            if t < p.len() - 1 {
                assert(g.step(p, t));
                assert(q[t] == p[t] && q[t + 1] == p[t + 1]);
            } else {
                assert(q[t] == p.last());
            }
        }
        assert(g.walk_between(q, order[0] as int, order[i] as int));
    }
}

/// An edge leads at most one layer further.
proof fn lemma_layer_edge<W>(g: &Graph<W>, order: Seq<usize>, par: Seq<int>, a: int, b: int)
    requires
        bfs_parents(g, order, par),
        0 <= a < order.len(),
        0 <= b < order.len(),
        g.has_edge(order[a] as int, order[b] as int),
    ensures
        layer_of(par, b) <= layer_of(par, a) + 1,
{
    if b > 0 {
        if a < par[b] {
            assert(!g.has_edge(order[a] as int, order[b] as int));
        }
        lemma_layer_mono(par, order.len() as int, par[b], a);
    }
}

/// No walk from the source reaches a vertex in fewer steps than its layer.
proof fn lemma_layer_shortest<W>(g: &Graph<W>, order: Seq<usize>, par: Seq<int>, p: Seq<usize>, t: int)
    requires
        g.wf(),
        lists_reachable(g, order[0], order),
        bfs_parents(g, order, par),
        g.walk_between(p, order[0] as int, p.last() as int),
        0 <= t < p.len(),
    ensures
        exists|a: int| 0 <= a < order.len() && order[a] == p[t] && #[trigger] layer_of(par, a) <= t,
    decreases t,
{
    let s = order[0] as int;
    if t == 0 {
        assert(order[0] == p[0]);
        assert(layer_of(par, 0) <= 0);
    } else {
        lemma_layer_shortest(g, order, par, p, t - 1);
        let a = choose|a: int| 0 <= a < order.len() && order[a] == p[t - 1] && #[trigger] layer_of(par, a) <= t - 1;
        assert(g.step(p, t - 1));
        assert(p[t] < g.n);
        assert(order.contains(order[a]));
        assert(g.reachable(s, p[t - 1] as int));
        lemma_reach_step(g, s, p[t - 1] as int, p[t] as int);
        assert(order.contains(p[t]));
        let b = choose|b: int| 0 <= b < order.len() && order[b] == p[t];
        lemma_layer_edge(g, order, par, a, b);
        assert(layer_of(par, b) <= t);
    }
}

/// The layer of each listed vertex, `usize::MAX` for the others.
fn layers<W>(g: &Graph<W>, order: &Vec<usize>, Ghost(par): Ghost<Seq<int>>) -> (dist: Vec<usize>)
    requires
        g.wf(),
        order@.len() >= 1,
        lists_reachable(g, order@[0], order@),
        bfs_parents(g, order@, par),
    ensures
        dist@.len() == g.n,
        forall|i: int| 0 <= i < order@.len() ==> #[trigger] dist@[order@[i] as int] == layer_of(par, i),
        forall|x: int| 0 <= x < g.n && !order@.contains(x as usize) ==> #[trigger] dist@[x] == usize::MAX,
{
    let n = g.n;
    let len = order.len();
    let ghost o = order@;
    proof {
        assert forall|i: int| 0 <= i < len implies #[trigger] o[i] < n by {
            assert(o.contains(o[i]));
        }
        assert forall|a: int| 1 <= a < len implies 0 <= #[trigger] par[a] < a by {}
        assert(len <= n) by {
            lemma_distinct_bounded(o, n);
        }
    }
    let mut dist = filled_usize(n, usize::MAX);
    dist.set(order[0], 0);
    let mut j: usize = 0;
    while j < len
        invariant
            g.wf(),
            n == g.n,
            len == o.len(),
            o == order@,
            len <= n,
            lists_reachable(g, o[0], o),
            bfs_parents(g, o, par),
            forall|i: int| 0 <= i < len ==> #[trigger] o[i] < n,
            dist@.len() == n,
            j <= len,
            forall|i: int| 0 <= i < len && (i == 0 || par[i] < j) ==> #[trigger] dist@[o[i] as int] == layer_of(par, i),
            forall|i: int| 0 <= i < len && i != 0 && par[i] >= j ==> #[trigger] dist@[o[i] as int] == usize::MAX,
            forall|x: int| 0 <= x < n && !o.contains(x as usize) ==> #[trigger] dist@[x] == usize::MAX,
        decreases len - j,
    {
        let v = order[j];
        let mut k: usize = 0;
        while k < g.adj[v].len()
            invariant
                g.wf(),
                n == g.n,
                len == o.len(),
                o == order@,
                len <= n,
                lists_reachable(g, o[0], o),
                bfs_parents(g, o, par),
                forall|i: int| 0 <= i < len ==> #[trigger] o[i] < n,
                dist@.len() == n,
                j < len,
                v == o[j as int],
                k <= g.adj@[v as int]@.len(),
                forall|i: int| 0 <= i < len && (i == 0 || par[i] < j) ==> #[trigger] dist@[o[i] as int] == layer_of(par, i),
                forall|i: int| 0 <= i < len && i != 0 && par[i] > j ==> #[trigger] dist@[o[i] as int] == usize::MAX,
                forall|i: int| 0 <= i < len && i != 0 && par[i] == j ==> #[trigger] dist@[o[i] as int] == (if exists|kk: int|
                    0 <= kk < k && (#[trigger] g.adj@[v as int]@[kk]).0 == o[i] { layer_of(par, i) as usize } else { usize::MAX }),
                forall|x: int| 0 <= x < n && !o.contains(x as usize) ==> #[trigger] dist@[x] == usize::MAX,
            decreases g.adj@[v as int]@.len() - k,
        {
            let w = g.adj[v][k].0;
            proof {
                assert(w < n);
                assert(g.has_edge(v as int, w as int));
                assert(o.contains(v));
                assert(g.reachable(o[0] as int, v as int));
                lemma_reach_step(g, o[0] as int, v as int, w as int);
                assert(o.contains(w));
                lemma_layer_bound(par, len as int, j as int);
            }
            let ghost b = choose|b: int| 0 <= b < len && o[b] == w;
            proof {
                lemma_layer_bound(par, len as int, b);
                if b != 0 && par[b] > j {
                    assert(!g.has_edge(o[j as int] as int, o[b] as int));
                }
            }
            if dist[w] == usize::MAX {
                proof {
                    assert(b != 0 && par[b] == j);
                    assert(dist@[v as int] == layer_of(par, j as int));
                }
                let d = dist[v] + 1;
                dist.set(w, d);
            }
            proof {
                assert forall|i: int| 0 <= i < len && i != 0 && par[i] == j implies #[trigger] dist@[o[i] as int] == (if exists|kk: int|
                    0 <= kk < k + 1 && (#[trigger] g.adj@[v as int]@[kk]).0 == o[i] { layer_of(par, i) as usize } else { usize::MAX }) by {
                    if i == b {
                        assert(g.adj@[v as int]@[k as int].0 == o[i]);
                        lemma_layer_bound(par, len as int, i);
                    } else {
                        assert(o[i] != w);
                        if exists|kk: int| 0 <= kk < k + 1 && (#[trigger] g.adj@[v as int]@[kk]).0 == o[i] {
                            let kk = choose|kk: int| 0 <= kk < k + 1 && (#[trigger] g.adj@[v as int]@[kk]).0 == o[i];
                            assert(kk < k);
                        }
                    }
                }
                assert forall|i: int| 0 <= i < len && (i == 0 || par[i] < j) implies #[trigger] dist@[o[i] as int] == layer_of(par, i) by {
                    if o[i] == w {
                        assert(i == b);
                    }
                }
                assert forall|i: int| 0 <= i < len && i != 0 && par[i] > j implies #[trigger] dist@[o[i] as int] == usize::MAX by {
                    if o[i] == w {
                        assert(i == b);
                    }
                }
            }
            k = k + 1;
        }
        proof {
            assert forall|i: int| 0 <= i < len && (i == 0 || par[i] < j + 1) implies #[trigger] dist@[o[i] as int] == layer_of(par, i) by {
                if i != 0 && par[i] == j {
                    assert(g.has_edge(o[par[i]] as int, o[i] as int));
                    let kk = choose|kk: int| 0 <= kk < g.adj@[v as int]@.len() && (#[trigger] g.adj@[v as int]@[kk]).0 == o[i];
                    lemma_layer_bound(par, len as int, i);
                }
            }
        }
        j = j + 1;
    }
    dist
}

/// Number of walks of exactly `d` steps from `s` to `x`, each adjacency entry
/// being a step of its own: parallel entries give different walks.
pub open spec fn nwalks<W>(g: &Graph<W>, s: int, x: int, d: nat) -> nat
    decreases d, 0int, 0int,
{
    if d == 0 {
        if x == s {
            1
        } else {
            0
        }
    } else {
        in_walks(g, s, x, (d - 1) as nat, g.n as int)
    }
}

/// Walks of `d + 1` steps from `s` to `x` whose last step leaves a vertex below `u`.
pub open spec fn in_walks<W>(g: &Graph<W>, s: int, x: int, d: nat, u: int) -> nat
    decreases d, 1int, u,
{
    if u <= 0 {
        0
    } else {
        in_walks(g, s, x, d, u - 1) + cnt_row(g.adj@[u - 1]@, x) * nwalks(g, s, u - 1, d)
    }
}

/// Sum of `f` over `0..n`.
pub open spec fn range_sum(f: spec_fn(int) -> nat, n: int) -> nat
    decreases n,
{
    if n <= 0 {
        0
    } else {
        range_sum(f, n - 1) + f(n - 1)
    }
}

/// Sum of `f` over the entries of `o`.
pub open spec fn seq_sum(f: spec_fn(int) -> nat, o: Seq<usize>) -> nat
    decreases o.len(),
{
    if o.len() == 0 {
        0
    } else {
        seq_sum(f, o.drop_last()) + f(o.last() as int)
    }
}

proof fn lemma_range_sum_ext(f1: spec_fn(int) -> nat, f2: spec_fn(int) -> nat, n: int)
    requires
        forall|v: int| 0 <= v < n ==> #[trigger] f1(v) == f2(v),
    ensures
        range_sum(f1, n) == range_sum(f2, n),
    decreases n,
{
    if n > 0 {
        lemma_range_sum_ext(f1, f2, n - 1);
    }
}

/// Adding one value at `a` to `f` adds it to the sum over a range that holds `a`.
proof fn lemma_range_sum_bump(f: spec_fn(int) -> nat, a: int, c: nat, n: int)
    requires
        0 <= a < n,
    ensures
        range_sum(|v: int| if v == a { f(v) + c } else { f(v) }, n) == range_sum(f, n) + c,
    decreases n,
{
    let h = |v: int| if v == a { f(v) + c } else { f(v) };
    if n - 1 == a {
        lemma_range_sum_ext(h, f, n - 1);
    } else {
        lemma_range_sum_bump(f, a, c, n - 1);
    }
}

/// Summing over a list of distinct vertices is summing over all vertices, when
/// the function is zero off the list.
proof fn lemma_seq_sum_range(f: spec_fn(int) -> nat, o: Seq<usize>, n: int)
    requires
        o.no_duplicates(),
        forall|i: int| 0 <= i < o.len() ==> #[trigger] o[i] < n,
        n <= usize::MAX + 1,
    ensures
        seq_sum(f, o) == range_sum(|v: int| if o.contains(v as usize) && 0 <= v { f(v) } else { 0 }, n),
    decreases o.len(),
{
    let h = |v: int| if o.contains(v as usize) && 0 <= v { f(v) } else { 0 };
    if o.len() == 0 {
        lemma_range_sum_zero(n);
        lemma_range_sum_ext(h, |v: int| 0nat, n);
    } else {
        let o1 = o.drop_last();
        let a = o.last() as int;
        assert forall|i: int, j: int| 0 <= i < j < o1.len() implies o1[i] != o1[j] by {
            assert(o[i] != o[j]);
        }
        assert forall|i: int| 0 <= i < o1.len() implies #[trigger] o1[i] < n by {
            assert(o1[i] == o[i]);
        }
        lemma_seq_sum_range(f, o1, n);
        let h1 = |v: int| if o1.contains(v as usize) && 0 <= v { f(v) } else { 0 };
        assert(!o1.contains(a as usize)) by {
            if o1.contains(a as usize) {
                let i = choose|i: int| 0 <= i < o1.len() && o1[i] == a as usize;
                assert(o[i] == o[o.len() - 1]);
            }
        }
        assert(o[o.len() - 1] < n);
        lemma_range_sum_bump(h1, a, f(a), n);
        let h2 = |v: int| if v == a { h1(v) + f(a) } else { h1(v) };
        assert forall|v: int| 0 <= v < n implies #[trigger] h2(v) == h(v) by {
            if v == a {
                assert(o[o.len() - 1] == a as usize);
            } else {
                if o.contains(v as usize) {
                    let i = choose|i: int| 0 <= i < o.len() && o[i] == v as usize;
                    assert(i != o.len() - 1);
                    assert(o1[i] == v as usize);
                }
                if o1.contains(v as usize) {
                    let i = choose|i: int| 0 <= i < o1.len() && o1[i] == v as usize;
                    assert(o[i] == v as usize);
                }
            }
        }
        lemma_range_sum_ext(h2, h, n);
    }
}

proof fn lemma_range_sum_zero(n: int)
    ensures
        range_sum(|v: int| 0nat, n) == 0,
    decreases n,
{
    if n > 0 {
        lemma_range_sum_zero(n - 1);
    }
}

/// `in_walks` is a sum over all vertices.
proof fn lemma_in_walks_sum<W>(g: &Graph<W>, s: int, x: int, d: nat, u: int)
    ensures
        in_walks(g, s, x, d, u) == range_sum(|v: int| cnt_row(g.adj@[v]@, x) * nwalks(g, s, v, d), u),
    decreases u,
{
    if u > 0 {
        lemma_in_walks_sum(g, s, x, d, u - 1);
    }
}

/// A walk counted by `nwalks` exists.
proof fn lemma_nwalks_pos<W>(g: &Graph<W>, s: int, x: int, d: nat)
    requires
        g.wf(),
        0 <= s < g.n,
        nwalks(g, s, x, d) > 0,
    ensures
        exists|p: Seq<usize>| #[trigger] g.walk_between(p, s, x) && p.len() == d + 1,
    decreases d,
{
    if d == 0 {
        let p = seq![s as usize];
        assert(g.walk_between(p, s, x));
    } else {
        let u = lemma_in_walks_pos(g, s, x, (d - 1) as nat, g.n as int);
        lemma_nwalks_pos(g, s, u, (d - 1) as nat);
        let p = choose|p: Seq<usize>| #[trigger] g.walk_between(p, s, u) && p.len() == d;
        lemma_cnt_row_pos(g.adj@[u]@, x);
        let k = choose|k: int| 0 <= k < g.adj@[u]@.len() && (#[trigger] g.adj@[u]@[k]).0 == x;
        assert(g.has_edge(u, x));
        assert(g.adj@[u]@[k].0 < g.n);
        let q = p.push(x as usize);
        assert forall|t: int| 0 <= t < q.len() implies #[trigger] q[t] < g.n by {
            if t < p.len() {
                assert(q[t] == p[t]);
            }
        }
        assert forall|t: int| 0 <= t < q.len() - 1 implies #[trigger] g.step(q, t) by {
            if t < p.len() - 1 {
                assert(g.step(p, t));
                assert(q[t] == p[t] && q[t + 1] == p[t + 1]);
            } else {
                assert(q[t] == p.last());
            }
        }
        assert(g.walk_between(q, s, x));
    }
}

proof fn lemma_in_walks_pos<W>(g: &Graph<W>, s: int, x: int, d: nat, u: int) -> (v: int)
    requires
        in_walks(g, s, x, d, u) > 0,
        u <= g.n,
    ensures
        0 <= v < u,
        cnt_row(g.adj@[v]@, x) > 0,
        nwalks(g, s, v, d) > 0,
    decreases u,
{
    if in_walks(g, s, x, d, u - 1) > 0 {
        lemma_in_walks_pos(g, s, x, d, u - 1)
    } else {
        let c = cnt_row(g.adj@[u - 1]@, x);
        let w = nwalks(g, s, u - 1, d);
        assert(c * w > 0);
        assert(c > 0 && w > 0) by (nonlinear_arith)
            requires
                c * w > 0,
        ;
        u - 1
    }
}

/// What vertex `v` passes on to the count of `x`: its own count once for each
/// of its entries to `x`, when it lies one layer before `x`.
pub open spec fn passed<W>(g: &Graph<W>, s: int, dist: Seq<usize>, x: int, v: int) -> nat {
    if dist[v] + 1 == dist[x] {
        cnt_row(g.adj@[v]@, x) * nwalks(g, s, v, dist[v] as nat)
    } else {
        0
    }
}

proof fn lemma_seq_sum_zero(f: spec_fn(int) -> nat, o: Seq<usize>)
    requires
        forall|i: int| 0 <= i < o.len() ==> #[trigger] f(o[i] as int) == 0,
    ensures
        seq_sum(f, o) == 0,
    decreases o.len(),
{
    if o.len() > 0 {
        assert forall|i: int| 0 <= i < o.drop_last().len() implies #[trigger] f(o.drop_last()[i] as int) == 0 by {
            assert(o.drop_last()[i] == o[i]);
        }
        lemma_seq_sum_zero(f, o.drop_last());
        assert(f(o[o.len() - 1] as int) == 0);
    }
}

/// The shortest walks to a vertex split by their last step: the count of each
/// listed vertex is what the vertices one layer before pass on to it, summed
/// in the order they are listed (plus one walk for the source itself).
proof fn lemma_count_split<W>(g: &Graph<W>, o: Seq<usize>, par: Seq<int>, dist: Seq<usize>, i: int)
    requires
        g.wf(),
        lists_reachable(g, o[0], o),
        bfs_parents(g, o, par),
        dist.len() == g.n,
        forall|j: int| 0 <= j < o.len() ==> #[trigger] dist[o[j] as int] == layer_of(par, j),
        0 <= i < o.len(),
    ensures
        nwalks(g, o[0] as int, o[i] as int, dist[o[i] as int] as nat) == (if i == 0 { 1nat } else { 0nat })
            + seq_sum(|v: int| passed(g, o[0] as int, dist, o[i] as int, v), o),
{
    let s = o[0] as int;
    let x = o[i] as int;
    let len = o.len() as int;
    let n = g.n as int;
    let term = |v: int| passed(g, s, dist, x, v);
    assert forall|j: int| 0 <= j < len implies #[trigger] o[j] < n by {
        assert(o.contains(o[j]));
    }
    assert forall|a: int| 1 <= a < len implies 0 <= #[trigger] par[a] < a by {}
    if i == 0 {
        assert(dist[x] == 0);
        assert forall|j: int| 0 <= j < len implies #[trigger] term(o[j] as int) == 0 by {}
        lemma_seq_sum_zero(term, o);
    } else {
        let big_l = dist[x] as int;
        assert(big_l == layer_of(par, i));
        assert(big_l >= 1);
        let d = (big_l - 1) as nat;
        lemma_in_walks_sum(g, s, x, d, n);
        let f = |v: int| cnt_row(g.adj@[v]@, x) * nwalks(g, s, v, d);
        lemma_seq_sum_range(term, o, n);
        let h = |v: int| if o.contains(v as usize) && 0 <= v { term(v) } else { 0 };
        assert forall|v: int| 0 <= v < n implies #[trigger] f(v) == h(v) by {
            let c = cnt_row(g.adj@[v]@, x);
            let w = nwalks(g, s, v, d);
            if o.contains(v as usize) {
                let a = choose|a: int| 0 <= a < len && o[a] == v as usize;
                assert(dist[v] == layer_of(par, a));
                if layer_of(par, a) + 1 == big_l {
                } else if layer_of(par, a) + 1 > big_l {
                    if w > 0 {
                        lemma_nwalks_pos(g, s, v, d);
                        let p = choose|p: Seq<usize>| #[trigger] g.walk_between(p, s, v) && p.len() == d + 1;
                        lemma_layer_shortest(g, o, par, p, p.len() - 1);
                        let a2 = choose|a2: int| 0 <= a2 < len && o[a2] == p[p.len() - 1] && #[trigger] layer_of(par, a2) <= p.len() - 1;
                        assert(a2 == a);
                    }
                    assert(c * w == 0) by (nonlinear_arith)
                        requires
                            w == 0,
                    ;
                } else {
                    if c > 0 {
                        lemma_cnt_row_pos(g.adj@[v]@, x);
                        let k = choose|k: int| 0 <= k < g.adj@[v]@.len() && (#[trigger] g.adj@[v]@[k]).0 == x;
                        assert(g.has_edge(o[a] as int, o[i] as int));
                        lemma_layer_edge(g, o, par, a, i);
                    }
                    assert(c * w == 0) by (nonlinear_arith)
                        requires
                            c == 0,
                    ;
                }
            } else {
                if w > 0 {
                    lemma_nwalks_pos(g, s, v, d);
                    let p = choose|p: Seq<usize>| #[trigger] g.walk_between(p, s, v) && p.len() == d + 1;
                    assert(g.reachable(s, v));
                    assert(o.contains(v as usize));
                }
                assert(c * w == 0) by (nonlinear_arith)
                    requires
                        w == 0,
                ;
            }
        }
        lemma_range_sum_ext(f, h, n);
    }
}

/// Copies of `v`, one for each entry of `row` that leads to `x`.
pub open spec fn copies<W>(row: Seq<(usize, W)>, x: int, v: usize) -> Seq<usize>
    decreases row.len(),
{
    if row.len() == 0 {
        Seq::empty()
    } else {
        let c = copies(row.drop_last(), x, v);
        if row.last().0 == x {
            c.push(v)
        } else {
            c
        }
    }
}

/// The last steps of the shortest walks to `x` that leave one of the first `j`
/// listed vertices: each listed vertex one layer before `x`, once for each of its
/// entries to `x`, in the order they are listed.
pub open spec fn preds_upto<W>(g: &Graph<W>, o: Seq<usize>, dist: Seq<usize>, x: int, j: int) -> Seq<usize>
    decreases j,
{
    if j <= 0 {
        Seq::empty()
    } else {
        preds_upto(g, o, dist, x, j - 1) + if dist[o[j - 1] as int] + 1 == dist[x] {
            copies(g.adj@[o[j - 1] as int]@, x, o[j - 1])
        } else {
            Seq::empty()
        }
    }
}

/// Entry `k` of the vertex listed at `i` leads to `x` from one layer closer
/// to the source.
pub open spec fn pred_entry<W>(g: &Graph<W>, o: Seq<usize>, dist: Seq<usize>, x: int, i: int, k: int) -> bool {
    &&& 0 <= i < o.len()
    &&& 0 <= k < g.adj@[o[i] as int]@.len()
    &&& g.adj@[o[i] as int]@[k].0 == x
    &&& dist[o[i] as int] + 1 == dist[x]
}

/// `pred` holds, for each entry `src[m]` (listed position, row position) that
/// leads to `x` from one layer closer, the vertex of that entry; `src` lists in
/// increasing order exactly those entries before `bound`.
pub open spec fn lists_preds<W>(
    g: &Graph<W>,
    o: Seq<usize>,
    dist: Seq<usize>,
    x: int,
    pred: Seq<usize>,
    src: Seq<(int, int)>,
    bound: (int, int),
) -> bool {
    &&& src.len() == pred.len()
    &&& forall|m: int|
        0 <= m < src.len() ==> pred_entry(g, o, dist, x, (#[trigger] src[m]).0, src[m].1) && pair_lt(src[m], bound)
            && pred[m] == o[src[m].0]
    &&& forall|a: int, b: int| 0 <= a < b < src.len() ==> pair_lt(#[trigger] src[a], #[trigger] src[b])
    &&& forall|i: int, k: int| #[trigger] pred_entry(g, o, dist, x, i, k) && pair_lt((i, k), bound) ==> src.contains((i, k))
}

proof fn lemma_preds_row<W>(
    g: &Graph<W>,
    o: Seq<usize>,
    dist: Seq<usize>,
    x: int,
    p0: Seq<usize>,
    src0: Seq<(int, int)>,
    i: int,
    k: int,
) -> (src: Seq<(int, int)>)
    requires
        0 <= i < o.len(),
        dist[o[i] as int] + 1 == dist[x],
        0 <= k <= g.adj@[o[i] as int]@.len(),
        lists_preds(g, o, dist, x, p0, src0, (i, 0)),
    ensures
        lists_preds(g, o, dist, x, p0 + copies(g.adj@[o[i] as int]@.take(k), x, o[i]), src, (i, k)),
    decreases k,
{
    let row = g.adj@[o[i] as int]@;
    if k == 0 {
        assert(row.take(0) =~= Seq::<(usize, W)>::empty());
        assert(p0 + copies(row.take(0), x, o[i]) =~= p0);
        assert forall|a: int, b: int| #[trigger] pred_entry(g, o, dist, x, a, b) && pair_lt((a, b), (i, k)) implies src0.contains((a, b)) by {
            assert(pair_lt((a, b), (i, 0)));
        }
        src0
    } else {
        let s1 = lemma_preds_row(g, o, dist, x, p0, src0, i, k - 1);
        let p1 = p0 + copies(row.take(k - 1), x, o[i]);
        assert(row.take(k).drop_last() =~= row.take(k - 1));
        assert(row.take(k).last() == row[k - 1]);
        if row[k - 1].0 == x {
            let src = s1.push((i, k - 1));
            let p = p1.push(o[i]);
            assert(p0 + copies(row.take(k), x, o[i]) =~= p);
            assert(pred_entry(g, o, dist, x, i, k - 1));
            assert forall|m: int|
                0 <= m < src.len() implies pred_entry(g, o, dist, x, (#[trigger] src[m]).0, src[m].1) && pair_lt(src[m], (i, k))
                    && p[m] == o[src[m].0] by {
                if m < s1.len() {
                    assert(src[m] == s1[m] && p[m] == p1[m]);
                }
            }
            assert forall|a: int, b: int| 0 <= a < b < src.len() implies pair_lt(#[trigger] src[a], #[trigger] src[b]) by {
                assert(src[a] == s1[a]);
                if b < s1.len() {
                    assert(src[b] == s1[b]);
                }
            }
            assert forall|a: int, b: int| #[trigger] pred_entry(g, o, dist, x, a, b) && pair_lt((a, b), (i, k)) implies src.contains((a, b)) by {
                if a == i && b == k - 1 {
                    assert(src[s1.len() as int] == (a, b));
                } else {
                    assert(s1.contains((a, b)));
                    let m = choose|m: int| 0 <= m < s1.len() && s1[m] == (a, b);
                    assert(src[m] == (a, b));
                }
            }
            src
        } else {
            assert(p0 + copies(row.take(k), x, o[i]) =~= p1);
            assert forall|a: int, b: int| #[trigger] pred_entry(g, o, dist, x, a, b) && pair_lt((a, b), (i, k)) implies s1.contains((a, b)) by {
                if a == i && b == k - 1 {
                } else {
                    assert(pair_lt((a, b), (i, k - 1)));
                }
            }
            s1
        }
    }
}

proof fn lemma_preds_upto<W>(g: &Graph<W>, o: Seq<usize>, dist: Seq<usize>, x: int, j: int) -> (src: Seq<(int, int)>)
    requires
        0 <= j <= o.len(),
    ensures
        lists_preds(g, o, dist, x, preds_upto(g, o, dist, x, j), src, (j, 0)),
    decreases j,
{
    if j == 0 {
        let src = Seq::<(int, int)>::empty();
        assert forall|a: int, b: int| #[trigger] pred_entry(g, o, dist, x, a, b) && pair_lt((a, b), (j, 0)) implies src.contains((a, b)) by {
        }
        src
    } else {
        let s1 = lemma_preds_upto(g, o, dist, x, j - 1);
        let p1 = preds_upto(g, o, dist, x, j - 1);
        let len = g.adj@[o[j - 1] as int]@.len() as int;
        if dist[o[j - 1] as int] + 1 == dist[x] {
            let s2 = lemma_preds_row(g, o, dist, x, p1, s1, j - 1, len);
            assert(g.adj@[o[j - 1] as int]@.take(len) =~= g.adj@[o[j - 1] as int]@);
            assert forall|m: int| 0 <= m < s2.len() implies pair_lt(#[trigger] s2[m], (j, 0)) by {
                assert(pair_lt(s2[m], (j - 1, len)));
            }
            assert forall|a: int, b: int| #[trigger] pred_entry(g, o, dist, x, a, b) && pair_lt((a, b), (j, 0)) implies s2.contains((a, b)) by {
                assert(pair_lt((a, b), (j - 1, len)));
            }
            s2
        } else {
            assert(preds_upto(g, o, dist, x, j) =~= p1);
            assert forall|m: int| 0 <= m < s1.len() implies pair_lt(#[trigger] s1[m], (j, 0)) by {
                assert(pair_lt(s1[m], (j - 1, 0)));
            }
            assert forall|a: int, b: int| #[trigger] pred_entry(g, o, dist, x, a, b) && pair_lt((a, b), (j, 0)) implies s1.contains((a, b)) by {
                assert(a != j - 1);
                assert(pair_lt((a, b), (j - 1, 0)));
            }
            s1
        }
    }
}

/// The last steps recorded for `x` are exactly the entries into `x` from vertices
/// one layer closer to the source: one per such entry, by listed position and
/// row position; in particular each recorded vertex has an edge to `x` and lies
/// exactly one step closer to the source than `x`.
pub proof fn law_preds_one_layer_closer<W>(g: &Graph<W>, o: Seq<usize>, dist: Seq<usize>, x: int, pred: Seq<usize>)
    requires
        g.wf(),
        forall|i: int| 0 <= i < o.len() ==> #[trigger] o[i] < g.n,
        pred == preds_upto(g, o, dist, x, o.len() as int),
    ensures
        exists|src: Seq<(int, int)>| #[trigger] lists_preds(g, o, dist, x, pred, src, (o.len() as int, 0)),
        forall|m: int| 0 <= m < pred.len() ==> dist[#[trigger] pred[m] as int] + 1 == dist[x] && g.has_edge(pred[m] as int, x),
{
    let src = lemma_preds_upto(g, o, dist, x, o.len() as int);
    assert(lists_preds(g, o, dist, x, pred, src, (o.len() as int, 0)));
    assert forall|m: int| 0 <= m < pred.len() implies dist[#[trigger] pred[m] as int] + 1 == dist[x] && g.has_edge(pred[m] as int, x) by {
        assert(pred_entry(g, o, dist, x, src[m].0, src[m].1));
        let k = src[m].1;
        assert(g.adj@[o[src[m].0] as int]@[k].0 == x);
    }
}

/// The shortest walks from one source, as a breadth-first search finds them.
pub struct PathCounts {
    /// The vertices reached, in the order they are reached.
    pub order: Vec<usize>,
    /// The distance of each vertex from the source; `usize::MAX` when it is not reached.
    pub dist: Vec<usize>,
    /// The number of shortest walks from the source to each vertex.
    pub sigma: Vec<usize>,
    /// For each vertex, the last steps of its shortest walks: the vertex each
    /// leaves from, once per entry.
    pub pred: Vec<Vec<usize>>,
}

/// Summing over a list changes nothing past a point after which every term is zero.
proof fn lemma_seq_sum_take(f: spec_fn(int) -> nat, o: Seq<usize>, j: int)
    requires
        0 <= j <= o.len(),
        forall|i: int| j <= i < o.len() ==> #[trigger] f(o[i] as int) == 0,
    ensures
        seq_sum(f, o) == seq_sum(f, o.take(j)),
    decreases o.len() - j,
{
    if j < o.len() {
        let o1 = o.drop_last();
        assert forall|i: int| j <= i < o1.len() implies #[trigger] f(o1[i] as int) == 0 by {
            assert(o1[i] == o[i]);
        }
        lemma_seq_sum_take(f, o1, j);
        assert(o1.take(j) =~= o.take(j));
        assert(f(o[o.len() - 1] as int) == 0);
    } else {
        assert(o.take(j) =~= o);
    }
}

/// Sums over longer prefixes are larger.
proof fn lemma_seq_sum_mono(f: spec_fn(int) -> nat, o: Seq<usize>, j: int)
    requires
        0 <= j <= o.len(),
    ensures
        seq_sum(f, o.take(j)) <= seq_sum(f, o),
    decreases o.len() - j,
{
    if j < o.len() {
        lemma_seq_sum_mono(f, o.drop_last(), j);
        assert(o.drop_last().take(j) =~= o.take(j));
    } else {
        assert(o.take(j) =~= o);
    }
}

/// Each listed vertex lies at its layer's distance from the source.
proof fn lemma_layer_distance<W>(g: &Graph<W>, o: Seq<usize>, par: Seq<int>, i: int)
    requires
        g.wf(),
        lists_reachable(g, o[0], o),
        bfs_parents(g, o, par),
        0 <= i < o.len(),
    ensures
        is_distance(g, o[0] as int, o[i] as int, layer_of(par, i) as int),
{
    lemma_layer_walk(g, o, par, i);
    assert forall|p: Seq<usize>| #[trigger] g.walk_between(p, o[0] as int, o[i] as int) implies p.len() >= layer_of(par, i) + 1 by {
        lemma_layer_shortest(g, o, par, p, p.len() - 1);
        let a = choose|a: int| 0 <= a < o.len() && o[a] == p[p.len() - 1] && #[trigger] layer_of(par, a) <= p.len() - 1;
        assert(a == i);
    }
}

/// Distances, numbers of shortest walks and their last steps from `s`, found by
/// a breadth-first search. `None` when some number of shortest walks does not
/// fit in a `usize`.
#[verifier::rlimit(60)]
#[verifier::spinoff_prover]
pub fn path_counts<W>(g: &Graph<W>, s: usize) -> (r: Option<PathCounts>)
    requires
        g.wf(),
        s < g.n,
    ensures
        match r {
            Some(pc) => {
                &&& lists_reachable(g, s, pc.order@)
                &&& bfs_order(g, pc.order@)
                &&& forall|i: int, j: int| 0 <= i < j < pc.order@.len()
                    ==> pc.dist@[#[trigger] pc.order@[i] as int] <= pc.dist@[#[trigger] pc.order@[j] as int]
                &&& pc.dist@.len() == g.n
                &&& pc.sigma@.len() == g.n
                &&& pc.pred@.len() == g.n
                &&& forall|x: int| 0 <= x < g.n && #[trigger] g.reachable(s as int, x) ==> {
                    &&& is_distance(g, s as int, x, pc.dist@[x] as int)
                    &&& pc.sigma@[x] == nwalks(g, s as int, x, pc.dist@[x] as nat)
                    &&& pc.pred@[x]@ == preds_upto(g, pc.order@, pc.dist@, x, pc.order@.len() as int)
                    &&& exists|src: Seq<(int, int)>| #[trigger] lists_preds(g, pc.order@, pc.dist@, x, pc.pred@[x]@, src, (pc.order@.len() as int, 0))
                }
                &&& forall|x: int| 0 <= x < g.n && !#[trigger] g.reachable(s as int, x) ==> {
                    &&& pc.dist@[x] == usize::MAX
                    &&& pc.sigma@[x] == 0
                    &&& pc.pred@[x]@.len() == 0
                }
            },
            None => exists|x: int, d: int|
                0 <= x < g.n && #[trigger] is_distance(g, s as int, x, d) && nwalks(g, s as int, x, d as nat) > usize::MAX,
        },
{
    let n = g.n;
    let order = bfs(g, s);
    let ghost o = order@;
    let ghost par = choose|par: Seq<int>| #[trigger] bfs_parents(g, o, par);
    let dist = layers(g, &order, Ghost(par));
    let ghost dd = dist@;
    let len = order.len();
    proof {
        assert forall|i: int| 0 <= i < len implies #[trigger] o[i] < n by {
            assert(o.contains(o[i]));
        }
        assert forall|a: int| 1 <= a < len implies 0 <= #[trigger] par[a] < a by {}
        assert(len <= n) by {
            lemma_distinct_bounded(o, n);
        }
    }
    let mut sigma = filled_usize(n, 0);
    let mut pred: Vec<Vec<usize>> = Vec::new();
    let mut x: usize = 0;
    while x < n
        invariant
            x <= n,
            pred@.len() == x,
            forall|y: int| 0 <= y < x ==> (#[trigger] pred@[y])@.len() == 0,
        decreases n - x,
    {
        pred.push(Vec::new());
        x = x + 1;
    }
    sigma.set(s, 1);
    let mut j: usize = 0;
    while j < len
        invariant
            g.wf(),
            n == g.n,
            len == o.len(),
            o == order@,
            dd == dist@,
            len <= n,
            s < n,
            o[0] == s,
            lists_reachable(g, s, o),
            bfs_parents(g, o, par),
            forall|a: int| 1 <= a < len ==> 0 <= #[trigger] par[a] < a,
            forall|i: int| 0 <= i < len ==> #[trigger] o[i] < n,
            dd.len() == n,
            forall|i: int| 0 <= i < len ==> #[trigger] dd[o[i] as int] == layer_of(par, i),
            forall|y: int| 0 <= y < n && !o.contains(y as usize) ==> #[trigger] dd[y] == usize::MAX,
            sigma@.len() == n,
            pred@.len() == n,
            j <= len,
            forall|i: int| 0 <= i < len ==> #[trigger] sigma@[o[i] as int] == (if i == 0 { 1nat } else { 0nat })
                + seq_sum(|v: int| passed(g, s as int, dd, o[i] as int, v), o.take(j as int)),
            forall|i: int| 0 <= i < len ==> (#[trigger] pred@[o[i] as int])@ == preds_upto(g, o, dd, o[i] as int, j as int),
            forall|y: int| 0 <= y < n && !o.contains(y as usize) ==> #[trigger] sigma@[y] == 0,
                forall|y: int| 0 <= y < n && !o.contains(y as usize) ==> (#[trigger] pred@[y])@.len() == 0,
        decreases len - j,
    {
        let v = order[j];
        proof {
            lemma_layer_bound(par, len as int, j as int);
            lemma_count_split(g, o, par, dd, j as int);
            let fj = |w: int| passed(g, s as int, dd, o[j as int] as int, w);
            assert forall|i: int| j <= i < o.len() implies #[trigger] fj(o[i] as int) == 0 by {
                lemma_layer_mono(par, len as int, j as int, i);
            }
            lemma_seq_sum_take(fj, o, j as int);
            assert(sigma@[v as int] == nwalks(g, s as int, v as int, dd[v as int] as nat));
        }
        let ghost sv: nat = sigma@[v as int] as nat;
        proof {
            let row = g.adj@[v as int]@;
            assert(row.take(0) =~= Seq::<(usize, W)>::empty());
            assert forall|i: int| 0 <= i < len implies #[trigger] cnt_row(row.take(0), o[i] as int) * sv == 0 && copies(row.take(0), o[i] as int, v) =~= Seq::<usize>::empty() by {
                let c = cnt_row(row.take(0), o[i] as int);
                assert(c == 0);
                assert(c * sv == 0) by (nonlinear_arith)
                    requires
                        c == 0,
                ;
            }
            assert(sv == (if j == 0 { 1nat } else { 0nat }) + seq_sum(|w: int| passed(g, s as int, dd, o[j as int] as int, w), o.take(j as int)));
        }
        let mut k: usize = 0;
        while k < g.adj[v].len()
            invariant
                g.wf(),
                n == g.n,
                len == o.len(),
                o == order@,
                dd == dist@,
                len <= n,
                s < n,
                o[0] == s,
                lists_reachable(g, s, o),
                bfs_parents(g, o, par),
                forall|a: int| 1 <= a < len ==> 0 <= #[trigger] par[a] < a,
                forall|i: int| 0 <= i < len ==> #[trigger] o[i] < n,
                dd.len() == n,
                forall|i: int| 0 <= i < len ==> #[trigger] dd[o[i] as int] == layer_of(par, i),
                forall|y: int| 0 <= y < n && !o.contains(y as usize) ==> #[trigger] dd[y] == usize::MAX,
                sigma@.len() == n,
                pred@.len() == n,
                j < len,
                v == o[j as int],
                sv == nwalks(g, s as int, v as int, dd[v as int] as nat),
                sv == (if j == 0 { 1nat } else { 0nat }) + seq_sum(|w: int| passed(g, s as int, dd, o[j as int] as int, w), o.take(j as int)),
                dd[v as int] <= j,
                k <= g.adj@[v as int]@.len(),
                forall|i: int| 0 <= i < len ==> #[trigger] sigma@[o[i] as int] == (if i == 0 { 1nat } else { 0nat })
                    + seq_sum(|w: int| passed(g, s as int, dd, o[i] as int, w), o.take(j as int))
                    + (if dd[v as int] + 1 == dd[o[i] as int] { cnt_row(g.adj@[v as int]@.take(k as int), o[i] as int) * sv } else { 0nat }),
                forall|i: int| 0 <= i < len ==> (#[trigger] pred@[o[i] as int])@ == preds_upto(g, o, dd, o[i] as int, j as int)
                    + (if dd[v as int] + 1 == dd[o[i] as int] { copies(g.adj@[v as int]@.take(k as int), o[i] as int, v) } else { Seq::empty() }),
                forall|y: int| 0 <= y < n && !o.contains(y as usize) ==> #[trigger] sigma@[y] == 0,
                forall|y: int| 0 <= y < n && !o.contains(y as usize) ==> (#[trigger] pred@[y])@.len() == 0,
            decreases g.adj@[v as int]@.len() - k,
        {
            let w = g.adj[v][k].0;
            proof {
                assert(w < n);
                assert(g.has_edge(v as int, w as int));
                assert(o.contains(v));
                lemma_reach_step(g, s as int, v as int, w as int);
                assert(o.contains(w));
                let row = g.adj@[v as int]@;
                lemma_cnt_row_step(row, k as int, w as int);
                assert(row.take(k + 1).drop_last() =~= row.take(k as int));
            }
            let ghost b = choose|b: int| 0 <= b < len && o[b] == w;
            let ghost s0 = sigma@;
            let ghost p0 = pred@;
            proof {
                assert forall|i: int| 0 <= i < len && i != b implies #[trigger] g.adj@[v as int]@[k as int].0 != o[i] by {
                    assert(o[i] != o[b]);
                }
            }
            if dist[w] == dist[v] + 1 {
                let sw = sigma[w];
                let sigv = sigma[v];
                proof {
                    let row = g.adj@[v as int]@;
                    let c = cnt_row(row.take(k as int), w as int);
                    let full = |x: int| passed(g, s as int, dd, w as int, x);
                    lemma_count_split(g, o, par, dd, b);
                    lemma_seq_sum_mono(full, o, j + 1);
                    assert(o.take(j + 1).drop_last() =~= o.take(j as int));
                    assert(o.take(j + 1).last() == v);
                    lemma_cnt_row_prefix(row, k + 1, w as int);
                    let cf = cnt_row(row, w as int);
                    assert((c + 1) * sv <= cf * sv) by (nonlinear_arith)
                        requires
                            c + 1 <= cf,
                    ;
                    assert((c + 1) * sv == c * sv + sv) by (nonlinear_arith);
                    assert(o[j as int] == v);
                    assert(sigma@[o[j as int] as int] == sv);
                    assert(sigv == sv);
                    assert(sw + sv <= nwalks(g, s as int, w as int, dd[w as int] as nat));
                    lemma_layer_distance(g, o, par, b);
                }
                match sw.checked_add(sigv) {
                    Some(t) => {
                        sigma.set(w, t);
                    },
                    None => {
                        proof {
                            assert(is_distance(g, s as int, w as int, dd[w as int] as int));
                        }
                        return None;
                    },
                }
                pred[w].push(v);
                proof {
                    let c = cnt_row(g.adj@[v as int]@.take(k as int), w as int);
                    assert((c + 1) * sv == c * sv + sv) by (nonlinear_arith);
                    assert(pred@[w as int]@ == p0[w as int]@.push(v));
                    assert forall|i: int| 0 <= i < len implies #[trigger] sigma@[o[i] as int] == (if i == 0 { 1nat } else { 0nat })
                        + seq_sum(|x: int| passed(g, s as int, dd, o[i] as int, x), o.take(j as int))
                        + (if dd[v as int] + 1 == dd[o[i] as int] { cnt_row(g.adj@[v as int]@.take(k + 1), o[i] as int) * sv } else { 0nat }) by {
                        lemma_cnt_row_step(g.adj@[v as int]@, k as int, o[i] as int);
                        if i != b {
                            assert(o[i] != w);
                        }
                    }
                    assert forall|i: int| 0 <= i < len implies (#[trigger] pred@[o[i] as int])@ == preds_upto(g, o, dd, o[i] as int, j as int)
                        + (if dd[v as int] + 1 == dd[o[i] as int] { copies(g.adj@[v as int]@.take(k + 1), o[i] as int, v) } else { Seq::empty() }) by {
                        let row = g.adj@[v as int]@;
                        assert(row.take(k + 1).drop_last() =~= row.take(k as int));
                        if i != b {
                            assert(o[i] != w);
                            assert(pred@[o[i] as int] == p0[o[i] as int]);
                        } else {
                            assert(preds_upto(g, o, dd, o[i] as int, j as int) + copies(row.take(k + 1), o[i] as int, v)
                                =~= (preds_upto(g, o, dd, o[i] as int, j as int) + copies(row.take(k as int), o[i] as int, v)).push(v));
                        }
                    }
                    assert forall|y: int| 0 <= y < n && !o.contains(y as usize) implies #[trigger] sigma@[y] == 0 && (#[trigger] pred@[y])@.len() == 0 by {
                        assert(y != w);
                        assert(s0[y] == 0);
                        assert(p0[y]@.len() == 0);
                        assert(sigma@[y] == s0[y]);
                        assert(pred@[y] == p0[y]);
                    }
                }
            } else {
                proof {
                    assert forall|y: int| 0 <= y < n && !o.contains(y as usize) implies #[trigger] sigma@[y] == 0 && (#[trigger] pred@[y])@.len() == 0 by {
                        assert(sigma@[y] == s0[y] && pred@[y] == p0[y]);
                    }
                    assert forall|i: int| 0 <= i < len implies #[trigger] sigma@[o[i] as int] == (if i == 0 { 1nat } else { 0nat })
                        + seq_sum(|x: int| passed(g, s as int, dd, o[i] as int, x), o.take(j as int))
                        + (if dd[v as int] + 1 == dd[o[i] as int] { cnt_row(g.adj@[v as int]@.take(k + 1), o[i] as int) * sv } else { 0nat }) by {
                        lemma_cnt_row_step(g.adj@[v as int]@, k as int, o[i] as int);
                    }
                    assert forall|i: int| 0 <= i < len implies (#[trigger] pred@[o[i] as int])@ == preds_upto(g, o, dd, o[i] as int, j as int)
                        + (if dd[v as int] + 1 == dd[o[i] as int] { copies(g.adj@[v as int]@.take(k + 1), o[i] as int, v) } else { Seq::empty() }) by {
                        let row = g.adj@[v as int]@;
                        assert(row.take(k + 1).drop_last() =~= row.take(k as int));
                    }
                }
            }
            k = k + 1;
        }
        proof {
            let row = g.adj@[v as int]@;
            assert(row.take(row.len() as int) =~= row);
            assert(o.take(j + 1).drop_last() =~= o.take(j as int));
            assert(o.take(j + 1).last() == v);
            assert forall|i: int| 0 <= i < len implies #[trigger] sigma@[o[i] as int] == (if i == 0 { 1nat } else { 0nat })
                + seq_sum(|x: int| passed(g, s as int, dd, o[i] as int, x), o.take(j + 1)) by {
            }
            assert forall|i: int| 0 <= i < len implies (#[trigger] pred@[o[i] as int])@ == preds_upto(g, o, dd, o[i] as int, j + 1) by {
            }
        }
        j = j + 1;
    }
    proof {
        assert(o.take(len as int) =~= o);
        assert forall|i: int, j2: int| 0 <= i < j2 < len implies dist@[#[trigger] o[i] as int] <= dist@[#[trigger] o[j2] as int] by {
            lemma_layer_mono(par, len as int, i, j2);
        }
        assert forall|x: int| 0 <= x < n && #[trigger] g.reachable(s as int, x) implies {
            &&& is_distance(g, s as int, x, dist@[x] as int)
            &&& sigma@[x] == nwalks(g, s as int, x, dist@[x] as nat)
            &&& pred@[x]@ == preds_upto(g, o, dist@, x, len as int)
            &&& exists|src: Seq<(int, int)>| #[trigger] lists_preds(g, o, dist@, x, pred@[x]@, src, (len as int, 0))
        } by {
            assert(o.contains(x as usize));
            let i = choose|i: int| 0 <= i < len && o[i] == x as usize;
            lemma_layer_distance(g, o, par, i);
            lemma_count_split(g, o, par, dd, i);
            law_preds_one_layer_closer(g, o, dist@, x, pred@[x]@);
        }
        assert forall|x: int| 0 <= x < n && !#[trigger] g.reachable(s as int, x) implies {
            &&& dist@[x] == usize::MAX
            &&& sigma@[x] == 0
            &&& pred@[x]@.len() == 0
        } by {
            if o.contains(x as usize) {
                let i = choose|i: int| 0 <= i < len && o[i] == x as usize;
                assert(g.reachable(s as int, x));
            }
            assert(!o.contains(x as usize));
            assert(sigma@[x] == 0);
        }
    }
    Some(PathCounts { order, dist, sigma, pred })
}

} // verus!
