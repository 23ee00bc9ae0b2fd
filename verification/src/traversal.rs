//! Graph traversal: BFS, DFS, topological sort.
use crate::graph::{Graph, sum_lens, lemma_sum_lens_prefix, lemma_reach_refl, lemma_reach_step, lemma_reach_trans, lemma_closed_holds_reachable};
use crate::seq_facts::lemma_distinct_bounded_missing;
use vstd::prelude::*;

verus! {

/// `n` copies of `false`.
pub fn falses(n: usize) -> (v: Vec<bool>)
    ensures
        v@.len() == n,
        forall|i: int| 0 <= i < n ==> !#[trigger] v@[i],
{
    let mut v: Vec<bool> = Vec::new();
    let mut i: usize = 0;
    while i < n
        invariant
            i <= n,
            v@.len() == i,
            forall|j: int| 0 <= j < i ==> !#[trigger] v@[j],
        decreases n - i,
    {
        v.push(false);
        i = i + 1;
    }
    v
}

/// `order` lists, without repeats and starting with `s`, exactly the vertices reachable from `s`.
pub open spec fn lists_reachable<W>(g: &Graph<W>, s: usize, order: Seq<usize>) -> bool {
    &&& order.len() >= 1
    &&& order[0] == s
    &&& order.no_duplicates()
    &&& forall|t: usize| #[trigger] order.contains(t) <==> (t < g.n && g.reachable(s as int, t as int))
}

/// In the list of `x`, an entry leading to `a` comes before every entry leading to `b`.
pub open spec fn entry_before<W>(g: &Graph<W>, x: int, a: usize, b: usize) -> bool {
    exists|k: int|
        0 <= k < g.adj@[x]@.len() && (#[trigger] g.adj@[x]@[k]).0 == a
            && forall|k2: int| 0 <= k2 <= k ==> (#[trigger] g.adj@[x]@[k2]).0 != b
}

/// `par` gives each listed vertex after the first the position of the vertex it
/// was reached from, which is the earliest listed vertex with an edge to it;
/// these positions never decrease along the list, as a queue hands them out;
/// and vertices reached from the same vertex come in the order of its list.
pub open spec fn bfs_parents<W>(g: &Graph<W>, order: Seq<usize>, par: Seq<int>) -> bool {
    &&& par.len() == order.len()
    &&& forall|i: int|
        1 <= i < order.len() ==> 0 <= #[trigger] par[i] < i && g.has_edge(order[par[i]] as int, order[i] as int)
            && forall|j: int| 0 <= j < par[i] ==> !#[trigger] g.has_edge(order[j] as int, order[i] as int)
    &&& forall|i: int, l: int| 1 <= i < l < order.len() ==> #[trigger] par[i] <= #[trigger] par[l]
    &&& forall|i: int, l: int|
        1 <= i < l < order.len() && par[i] == par[l]
            ==> #[trigger] entry_before(g, order[par[i]] as int, order[i], order[l])
}

/// Every out-neighbour of `x` is among the first `i` listed vertices.
pub open spec fn done_before<W>(g: &Graph<W>, order: Seq<usize>, i: int, x: int) -> bool {
    forall|k: int| 0 <= k < g.adj@[x]@.len() ==> order.take(i).contains((#[trigger] g.adj@[x]@[k]).0)
}

/// Entry `k` of the list of `x` is its first entry that leads to a vertex
/// outside the first `i` listed vertices.
pub open spec fn first_new_entry<W>(g: &Graph<W>, order: Seq<usize>, i: int, x: int, k: int) -> bool {
    &&& 0 <= k < g.adj@[x]@.len()
    &&& !order.take(i).contains(g.adj@[x]@[k].0)
    &&& forall|k2: int| 0 <= k2 < k ==> order.take(i).contains((#[trigger] g.adj@[x]@[k2]).0)
}

/// Listed vertex `i` is where a depth-first search goes next: some vertex
/// listed at `j` has an out-neighbour outside the first `i` listed vertices,
/// none listed after `j` and before `i` has one, and vertex `i` is the first
/// such out-neighbour in the list of the vertex at `j`.
pub open spec fn dfs_next<W>(g: &Graph<W>, order: Seq<usize>, i: int) -> bool {
    exists|j: int, k: int|
        0 <= j < i && #[trigger] first_new_entry(g, order, i, order[j] as int, k)
            && g.adj@[order[j] as int]@[k].0 == order[i]
            && forall|m: int| j < m < i ==> #[trigger] done_before(g, order, i, order[m] as int)
}

/// Whether a vertex is the next one of a depth-first search depends only on
/// the list up to that vertex.
proof fn lemma_dfs_next_extend<W>(g: &Graph<W>, o1: Seq<usize>, o2: Seq<usize>, i: int)
    requires
        0 <= i < o1.len() <= o2.len(),
        o2.take(o1.len() as int) == o1,
        dfs_next(g, o1, i),
    ensures
        dfs_next(g, o2, i),
{
    let (j, k) = choose|j: int, k: int|
        0 <= j < i && #[trigger] first_new_entry(g, o1, i, o1[j] as int, k)
            && g.adj@[o1[j] as int]@[k].0 == o1[i]
            && forall|m: int| j < m < i ==> #[trigger] done_before(g, o1, i, o1[m] as int);
    assert(o2.take(i) =~= o1.take(i));
    assert(o2[j] == o2.take(o1.len() as int)[j]);
    assert(o2[i] == o2.take(o1.len() as int)[i]);
    assert forall|m: int| j < m < i implies #[trigger] done_before(g, o2, i, o2[m] as int) by {
        assert(o2[m] == o2.take(o1.len() as int)[m]);
        assert(done_before(g, o1, i, o1[m] as int));
    }
    assert(first_new_entry(g, o2, i, o2[j] as int, k));
}

/// `order` is listed as a breadth-first search lists it (see `bfs_parents`).
pub open spec fn bfs_order<W>(g: &Graph<W>, order: Seq<usize>) -> bool {
    exists|par: Seq<int>| #[trigger] bfs_parents(g, order, par)
}

/// Every out-neighbour of every vertex listed in `order` is marked in `marks`.
pub open spec fn out_closed<W>(g: &Graph<W>, order: Seq<usize>, marks: Seq<bool>) -> bool {
    forall|i: int, k: int|
        0 <= i < order.len() && 0 <= k < g.adj@[order[i] as int]@.len() ==> marks[(#[trigger] g.adj@[order[i] as int]@[k]).0 as int]
}

/// Breadth-first exploration from `s` through the vertices not yet marked in
/// `visited`; marks and returns them in the order they are reached.
pub fn bfs_from<W>(g: &Graph<W>, s: usize, visited: &mut Vec<bool>) -> (order: Vec<usize>)
    requires
        g.wf(),
        s < g.n,
        old(visited)@.len() == g.n,
        !old(visited)@[s as int],
    ensures
        final(visited)@.len() == g.n,
        order@.len() >= 1,
        order@[0] == s,
        order@.no_duplicates(),
        forall|i: int|
            0 <= i < order@.len() ==> #[trigger] order@[i] < g.n && !old(visited)@[order@[i] as int]
                && g.reachable(s as int, order@[i] as int),
        forall|x: int|
            0 <= x < g.n ==> (#[trigger] final(visited)@[x] <==> (old(visited)@[x] || order@.contains(
                x as usize,
            ))),
        out_closed(g, order@, final(visited)@),
        bfs_order(g, order@),
{
    let ghost v0 = visited@;
    let n = g.n;
    visited.set(s, true);
    let mut order: Vec<usize> = Vec::new();
    order.push(s);
    let ghost mut par: Seq<int> = seq![0];
    let ghost mut pos: Seq<int> = seq![0];
    proof {
        lemma_reach_refl(g, s as int);
        assert forall|x: int| 0 <= x < n implies (#[trigger] visited@[x] <==> (v0[x]
            || order@.contains(x as usize))) by {
            if x == s {
                assert(order@[0] == s);
            }
            if order@.contains(x as usize) {
                let j = choose|j: int| 0 <= j < order@.len() && order@[j] == x as usize;
                assert(j == 0);
            }
        }
    }
    let mut head: usize = 0;
    while head < order.len()
        invariant
            g.wf(),
            n == g.n,
            s < n,
            visited@.len() == n,
            head <= order@.len(),
            order@.len() <= n,
            order@.len() >= 1,
            order@[0] == s,
            order@.no_duplicates(),
            forall|i: int|
                0 <= i < order@.len() ==> #[trigger] order@[i] < n && !v0[order@[i] as int]
                    && g.reachable(s as int, order@[i] as int),
            forall|x: int|
                0 <= x < n ==> (#[trigger] visited@[x] <==> (v0[x] || order@.contains(x as usize))),
            out_closed(g, order@.take(head as int), visited@),
            bfs_parents(g, order@, par),
            forall|i: int| 1 <= i < order@.len() ==> #[trigger] par[i] < head,
            pos.len() == order@.len(),
            forall|i: int|
                1 <= i < order@.len() ==> 0 <= #[trigger] pos[i] < g.adj@[order@[par[i]] as int]@.len()
                    && g.adj@[order@[par[i]] as int]@[pos[i]].0 == order@[i],
        decreases n - head,
    {
        let u = order[head];
        let mut k: usize = 0;
        while k < g.adj[u].len()
            invariant
                g.wf(),
                n == g.n,
                s < n,
                u < n,
                u == order@[head as int],
                visited@.len() == n,
                head < order@.len(),
                order@.len() <= n,
                order@[0] == s,
                order@.no_duplicates(),
                forall|i: int|
                    0 <= i < order@.len() ==> #[trigger] order@[i] < n && !v0[order@[i] as int]
                        && g.reachable(s as int, order@[i] as int),
                forall|x: int|
                    0 <= x < n ==> (#[trigger] visited@[x] <==> (v0[x] || order@.contains(
                        x as usize,
                    ))),
                out_closed(g, order@.take(head as int), visited@),
                k <= g.adj@[u as int]@.len(),
                forall|j: int| 0 <= j < k ==> visited@[(#[trigger] g.adj@[u as int]@[j]).0 as int],
                bfs_parents(g, order@, par),
                forall|i: int| 1 <= i < order@.len() ==> #[trigger] par[i] <= head,
                pos.len() == order@.len(),
                forall|i: int|
                    1 <= i < order@.len() ==> 0 <= #[trigger] pos[i] < g.adj@[order@[par[i]] as int]@.len()
                        && g.adj@[order@[par[i]] as int]@[pos[i]].0 == order@[i],
                forall|i: int| 1 <= i < order@.len() && par[i] == head ==> #[trigger] pos[i] < k,
            decreases g.adj@[u as int]@.len() - k,
        {
            let v = g.adj[u][k].0;
            proof {
                assert(g.adj@[u as int]@[k as int].0 < n);
            }
            if !visited[v] {
                let ghost prev = order@;
                let ghost pp = par;
                let ghost ps = pos;
                let ghost m0 = visited@;
                proof {
                    assert(!order@.contains(v));
                    assert forall|i: int| 0 <= i < order@.len() implies order@[i] < n by {
                        assert(order@[i] < n);
                    }
                    lemma_distinct_bounded_missing(order@, n, v);
                    assert(g.has_edge(u as int, v as int));
                    assert(g.reachable(s as int, u as int));
                    lemma_reach_step(g, s as int, u as int, v as int);
                }
                visited.set(v, true);
                order.push(v);
                proof {
                    par = pp.push(head as int);
                    pos = ps.push(k as int);
                    assert forall|i: int| 1 <= i < order@.len() implies 0 <= #[trigger] pos[i] < g.adj@[order@[par[i]] as int]@.len()
                        && g.adj@[order@[par[i]] as int]@[pos[i]].0 == order@[i] by {
                        if i < prev.len() {
                            assert(order@[i] == prev[i]);
                            assert(order@[pp[i]] == prev[pp[i]]);
                        } else {
                            assert(order@[head as int] == u);
                        }
                    }
                    assert forall|i: int, l: int|
                        1 <= i < l < order@.len() && par[i] == par[l]
                            implies #[trigger] entry_before(g, order@[par[i]] as int, order@[i], order@[l]) by {
                        assert(order@[i] == prev[i]);
                        assert(order@[pp[i]] == prev[pp[i]]);
                        if l < prev.len() {
                            assert(order@[l] == prev[l]);
                            assert(entry_before(g, prev[pp[i]] as int, prev[i], prev[l]));
                        } else {
                            assert(order@[l] == v);
                            assert(order@[head as int] == u);
                            let kk = ps[i];
                            assert(kk < k);
                            assert forall|k2: int| 0 <= k2 <= kk implies (#[trigger] g.adj@[u as int]@[k2]).0 != v by {
                                assert(m0[g.adj@[u as int]@[k2].0 as int]);
                            }
                            assert(g.adj@[u as int]@[kk].0 == order@[i]);
                        }
                    }
                    assert forall|i: int|
                        1 <= i < order@.len() implies 0 <= #[trigger] par[i] < i && g.has_edge(order@[par[i]] as int, order@[i] as int)
                            && forall|j: int| 0 <= j < par[i] ==> !#[trigger] g.has_edge(order@[j] as int, order@[i] as int) by {
                        if i < prev.len() {
                            assert(par[i] == pp[i]);
                            assert(order@[i] == prev[i]);
                            assert forall|j: int| 0 <= j < par[i] implies !#[trigger] g.has_edge(order@[j] as int, order@[i] as int) by {
                                assert(order@[j] == prev[j]);
                                assert(!g.has_edge(prev[j] as int, prev[i] as int));
                            }
                            assert(order@[pp[i]] == prev[pp[i]]);
                        } else {
                            assert(order@[i] == v);
                            assert(order@[head as int] == u);
                            assert forall|j: int| 0 <= j < par[i] implies !#[trigger] g.has_edge(order@[j] as int, order@[i] as int) by {
                                if g.has_edge(order@[j] as int, order@[i] as int) {
                                    assert(order@[j] == prev[j]);
                                    let kk = choose|kk: int| 0 <= kk < g.adj@[prev[j] as int]@.len() && (#[trigger] g.adj@[prev[j] as int]@[kk]).0 == v;
                                    assert(prev.take(head as int)[j] == prev[j]);
                                    assert(m0[g.adj@[prev.take(head as int)[j] as int]@[kk].0 as int]);
                                }
                            }
                        }
                    }
                    assert(order@.take(head as int) =~= prev.take(head as int));
                    assert forall|x: int| 0 <= x < n implies (#[trigger] visited@[x] <==> (v0[x]
                        || order@.contains(x as usize))) by {
                        if x == v {
                            assert(order@[prev.len() as int] == v);
                        } else if order@.contains(x as usize) {
                            let j = choose|j: int| 0 <= j < order@.len() && order@[j] == x as usize;
                            assert(prev[j] == x);
                        } else if prev.contains(x as usize) {
                            let j = choose|j: int| 0 <= j < prev.len() && prev[j] == x as usize;
                            assert(order@[j] == x);
                        }
                    }
                    assert forall|i: int| 0 <= i < order@.len() implies #[trigger] order@[i] < n
                        && !v0[order@[i] as int] && g.reachable(s as int, order@[i] as int) by {
                        if i < prev.len() {
                            assert(order@[i] == prev[i]);
                        }
                    }
                }
            }
            k = k + 1;
        }
        proof {
            assert forall|i: int, j: int|
                0 <= i < order@.take(head + 1).len() && 0 <= j < g.adj@[order@.take(
                    head + 1,
                )[i] as int]@.len() implies visited@[(#[trigger] g.adj@[order@.take(head + 1)[i] as int]@[j]).0 as int] by {
                if i < head {
                    assert(order@.take(head + 1)[i] == order@.take(head as int)[i]);
                }
            }
        }
        head = head + 1;
    }
    proof {
        assert(order@.take(head as int) =~= order@);
    }
    order
}

/// The vertices of a closed marking hold everything reachable from a marked vertex.
proof fn lemma_marks_hold_reachable<W>(g: &Graph<W>, order: Seq<usize>, marks: Seq<bool>, s: int, t: int)
    requires
        g.wf(),
        marks.len() == g.n,
        0 <= s < g.n,
        marks[s],
        forall|x: int| 0 <= x < g.n ==> (#[trigger] marks[x] <==> order.contains(x as usize)),
        out_closed(g, order, marks),
        g.reachable(s, t),
    ensures
        0 <= t < g.n,
        marks[t],
{
    let set = Set::new(|x: int| 0 <= x < g.n && marks[x]);
    assert forall|x: int, y: int| set.contains(x) && #[trigger] g.has_edge(x, y) implies set.contains(
        y,
    ) by {
        let k = choose|k: int| 0 <= k < g.adj@[x]@.len() && (#[trigger] g.adj@[x]@[k]).0 == y;
        assert(order.contains(x as usize));
        let i = choose|i: int| 0 <= i < order.len() && order[i] == x as usize;
        assert(marks[g.adj@[order[i] as int]@[k].0 as int]);
        assert(g.adj@[x]@[k].0 < g.n);
    }
    lemma_closed_holds_reachable(g, s, t, set);
}

/// BFS from source `s`. Returns vertices in BFS order.
pub fn bfs<W>(g: &Graph<W>, s: usize) -> (order: Vec<usize>)
    requires
        g.wf(),
        s < g.n,
    ensures
        lists_reachable(g, s, order@),
        bfs_order(g, order@),
{
    let mut visited = falses(g.n);
    let order = bfs_from(g, s, &mut visited);
    proof {
        assert forall|t: usize| #[trigger] order@.contains(t) <==> (t < g.n && g.reachable(
            s as int,
            t as int,
        )) by {
            if order@.contains(t) {
                let i = choose|i: int| 0 <= i < order@.len() && order@[i] == t;
                assert(order@[i] < g.n);
            }
            if t < g.n && g.reachable(s as int, t as int) {
                assert(order@.contains(s));
                lemma_marks_hold_reachable(g, order@, visited@, s as int, t as int);
            }
        }
    }
    order
}

/// Marks that agree with a list of vertices.
pub open spec fn marks_match(n: nat, order: Seq<usize>, marks: Seq<bool>) -> bool {
    &&& marks.len() == n
    &&& order.no_duplicates()
    &&& forall|i: int| 0 <= i < order.len() ==> #[trigger] order[i] < n
    &&& forall|x: int| 0 <= x < n ==> (#[trigger] marks[x] <==> order.contains(x as usize))
}

/// Depth-first visit of `u` and, recursively, of its unvisited out-neighbours,
/// appending each vertex to `order` when first reached.
fn dfs_rec<W>(g: &Graph<W>, u: usize, visited: &mut Vec<bool>, order: &mut Vec<usize>)
    requires
        g.wf(),
        u < g.n,
        !old(visited)@[u as int],
        marks_match(g.n as nat, old(order)@, old(visited)@),
        old(order)@.len() > 0 ==> dfs_next(g, old(order)@.push(u), old(order)@.len() as int),
    ensures
        forall|i: int| old(order)@.len() <= i < final(order)@.len() && i >= 1 ==> #[trigger] dfs_next(g, final(order)@, i),
        marks_match(g.n as nat, final(order)@, final(visited)@),
        final(order)@.len() > old(order)@.len(),
        final(order)@.take(old(order)@.len() as int) == old(order)@,
        final(order)@[old(order)@.len() as int] == u,
        forall|i: int|
            old(order)@.len() <= i < final(order)@.len()
                ==> !old(visited)@[#[trigger] final(order)@[i] as int]
                && g.reachable(u as int, final(order)@[i] as int),
        out_closed(g, final(order)@.skip(old(order)@.len() as int), final(visited)@),
    decreases g.n - old(order)@.len(),
{
    let ghost v0 = visited@;
    let ghost o0 = order@;
    let ghost base = order@.len() as int;
    let n = g.n;
    proof {
        assert(!o0.contains(u));
        lemma_distinct_bounded_missing(o0, n, u);
        lemma_reach_refl(g, u as int);
    }
    visited.set(u, true);
    order.push(u);
    proof {
        if base >= 1 {
            assert(dfs_next(g, o0.push(u), base));
            assert(order@ == o0.push(u));
        }
        assert forall|x: int| 0 <= x < n implies (#[trigger] visited@[x] <==> order@.contains(
            x as usize,
        )) by {
            if x == u {
                assert(order@[base] == u);
            } else if order@.contains(x as usize) {
                let j = choose|j: int| 0 <= j < order@.len() && order@[j] == x as usize;
                assert(o0[j] == x);
            } else if o0.contains(x as usize) {
                let j = choose|j: int| 0 <= j < o0.len() && o0[j] == x as usize;
                assert(order@[j] == x);
            }
        }
        assert(order@.skip(base + 1) =~= Seq::<usize>::empty());
    }
    let mut k: usize = 0;
    while k < g.adj[u].len()
        invariant
            g.wf(),
            n == g.n,
            u < n,
            marks_match(n as nat, order@, visited@),
            marks_match(n as nat, o0, v0),
            o0 == old(order)@,
            order@.len() > base,
            order@.take(base) == o0,
            order@[base] == u,
            o0.len() == base,
            forall|i: int|
                base <= i < order@.len() ==> !v0[#[trigger] order@[i] as int] && g.reachable(
                    u as int,
                    order@[i] as int,
                ),
            out_closed(g, order@.skip(base + 1), visited@),
            k <= g.adj@[u as int]@.len(),
            forall|j: int| 0 <= j < k ==> visited@[(#[trigger] g.adj@[u as int]@[j]).0 as int],
            forall|i: int| base <= i < order@.len() && i >= 1 ==> #[trigger] dfs_next(g, order@, i),
        decreases g.adj@[u as int]@.len() - k,
    {
        let v = g.adj[u][k].0;
        proof {
            assert(g.adj@[u as int]@[k as int].0 < n);
        }
        if !visited[v] {
            let ghost o1 = order@;
            let ghost m1 = visited@;
            proof {
                let op = o1.push(v);
                let ii = o1.len() as int;
                assert(op.take(ii) =~= o1);
                assert(op[base] == u && op[ii] == v);
                assert forall|k2: int| 0 <= k2 < k implies op.take(ii).contains((#[trigger] g.adj@[u as int]@[k2]).0) by {
                    assert(g.adj@[u as int]@[k2].0 < n);
                    assert(visited@[g.adj@[u as int]@[k2].0 as int]);
                }
                assert(first_new_entry(g, op, ii, op[base] as int, k as int));
                assert forall|m: int| base < m < ii implies #[trigger] done_before(g, op, ii, op[m] as int) by {
                    assert forall|kk: int| 0 <= kk < g.adj@[op[m] as int]@.len() implies op.take(ii).contains((#[trigger] g.adj@[op[m] as int]@[kk]).0) by {
                        assert(o1.skip(base + 1)[m - base - 1] == op[m]);
                        let t = g.adj@[op[m] as int]@[kk].0;
                        assert(visited@[t as int]);
                        assert(t < n);
                    }
                }
                assert(dfs_next(g, op, ii));
                assert(!order@.contains(v));
                lemma_distinct_bounded_missing(order@, n, v);
                assert(order@.len() < n);
                assert(0 <= g.n - order@.len() < g.n - o0.len());
            }
            dfs_rec(g, v, visited, order);
            proof {
                let o2 = order@;
                assert forall|i: int| base <= i < o2.len() && i >= 1 implies #[trigger] dfs_next(g, o2, i) by {
                    if i < o1.len() {
                        lemma_dfs_next_extend(g, o1, o2, i);
                    }
                }
                assert(o2.take(base) =~= o1.take(base));
                assert(o2[base] == o1[base]);
                assert(g.has_edge(u as int, v as int));
                assert forall|i: int| base <= i < o2.len() implies !v0[#[trigger] o2[i] as int]
                    && g.reachable(u as int, o2[i] as int) by {
                    if i < o1.len() {
                        assert(o2.take(o1.len() as int)[i] == o1[i]);
                    } else {
                        assert(g.reachable(v as int, o2[i] as int));
                        lemma_reach_step(g, u as int, u as int, v as int);
                        lemma_reach_trans(g, u as int, v as int, o2[i] as int);
                        assert(o2[i] < n);
                        assert(!m1[o2[i] as int]);
                        if v0[o2[i] as int] {
                            assert(o0.contains(o2[i]));
                            let j = choose|j: int| 0 <= j < o0.len() && o0[j] == o2[i];
                            assert(o1[j] == o0[j]);
                            assert(o1.contains(o2[i]));
                        }
                    }
                }
                assert forall|i: int, j: int|
                    0 <= i < o2.skip(base + 1).len() && 0 <= j < g.adj@[o2.skip(
                        base + 1,
                    )[i] as int]@.len() implies visited@[(#[trigger] g.adj@[o2.skip(
                    base + 1,
                )[i] as int]@[j]).0 as int] by {
                    let x = o2.skip(base + 1)[i];
                    let t = g.adj@[x as int]@[j].0;
                    assert(t < n);
                    if base + 1 + i < o1.len() {
                        assert(o1.skip(base + 1)[i] == x);
                        assert(m1[t as int]);
                        assert(o1.contains(t));
                        let q = choose|q: int| 0 <= q < o1.len() && o1[q] == t;
                        assert(o2[q] == t);
                    } else {
                        let q = base + 1 + i - o1.len();
                        assert(o2.skip(o1.len() as int)[q] == x);
                    }
                }
                assert forall|j: int| 0 <= j < k + 1 implies visited@[(#[trigger] g.adj@[u as int]@[j]).0 as int] by {
                    let t = g.adj@[u as int]@[j].0;
                    assert(t < n);
                    if j < k {
                        assert(m1[t as int]);
                        assert(o1.contains(t));
                        let q = choose|q: int| 0 <= q < o1.len() && o1[q] == t;
                        assert(o2[q] == t);
                    } else {
                        assert(o2[o1.len() as int] == v);
                    }
                }
            }
        }
        k = k + 1;
    }
    proof {
        let o2 = order@;
        assert forall|i: int, j: int|
            0 <= i < o2.skip(base).len() && 0 <= j < g.adj@[o2.skip(base)[i] as int]@.len()
                implies visited@[(#[trigger] g.adj@[o2.skip(base)[i] as int]@[j]).0 as int] by {
            if i > 0 {
                assert(o2.skip(base)[i] == o2.skip(base + 1)[i - 1]);
            }
        }
    }
}

/// DFS from source `s`. Returns vertices in DFS order.
pub fn dfs<W>(g: &Graph<W>, s: usize) -> (order: Vec<usize>)
    requires
        g.wf(),
        s < g.n,
    ensures
        lists_reachable(g, s, order@),
        forall|i: int| 1 <= i < order@.len() ==> #[trigger] dfs_next(g, order@, i),
{
    let mut visited = falses(g.n);
    let mut order: Vec<usize> = Vec::new();
    proof {
        assert forall|x: int| 0 <= x < g.n implies (#[trigger] visited@[x] <==> order@.contains(
            x as usize,
        )) by {
            assert(!order@.contains(x as usize));
        }
    }
    dfs_rec(g, s, &mut visited, &mut order);
    proof {
        assert(order@.skip(0) =~= order@);
        assert forall|t: usize| #[trigger] order@.contains(t) <==> (t < g.n && g.reachable(
            s as int,
            t as int,
        )) by {
            if order@.contains(t) {
                let i = choose|i: int| 0 <= i < order@.len() && order@[i] == t;
                assert(order@[i] < g.n);
            }
            if t < g.n && g.reachable(s as int, t as int) {
                assert(visited@[s as int]);
                lemma_marks_hold_reachable(g, order@, visited@, s as int, t as int);
            }
        }
    }
    order
}

/// Number of entries of `row` that lead to `v`.
pub open spec fn cnt_row<W>(row: Seq<(usize, W)>, v: int) -> nat
    decreases row.len(),
{
    if row.len() == 0 {
        0
    } else {
        cnt_row(row.drop_last(), v) + if row.last().0 == v {
            1nat
        } else {
            0nat
        }
    }
}

/// Number of entries leading to `v` from the rows below `upto` whose vertex is alive.
pub open spec fn in_count<W>(g: &Graph<W>, alive: Seq<bool>, v: int, upto: int) -> nat
    decreases upto,
{
    if upto <= 0 {
        0
    } else {
        in_count(g, alive, v, upto - 1) + if alive[upto - 1] {
            cnt_row(g.adj@[upto - 1]@, v)
        } else {
            0nat
        }
    }
}

/// `order` lists every vertex once, and every edge goes forward in it.
pub open spec fn is_topological_order<W>(g: &Graph<W>, order: Seq<usize>) -> bool {
    &&& order.len() == g.n
    &&& order.no_duplicates()
    &&& forall|i: int| 0 <= i < order.len() ==> #[trigger] order[i] < g.n
    &&& forall|i: int, j: int|
        0 <= i < order.len() && 0 <= j < order.len() && g.has_edge(
            #[trigger] order[i] as int,
            #[trigger] order[j] as int,
        ) ==> i < j
}

/// No edge leads to `v`.
pub open spec fn is_source<W>(g: &Graph<W>, v: int) -> bool {
    forall|x: int| 0 <= x < g.n ==> !#[trigger] g.has_edge(x, v)
}

/// In the list of `x`, the last entry leading to `a` comes before the last
/// entry leading to `b`.
pub open spec fn last_entry_before<W>(g: &Graph<W>, x: int, a: usize, b: usize) -> bool {
    exists|k: int|
        0 <= k < g.adj@[x]@.len() && (#[trigger] g.adj@[x]@[k]).0 == b
            && forall|k2: int| k <= k2 < g.adj@[x]@.len() ==> (#[trigger] g.adj@[x]@[k2]).0 != a
}

/// The order in which a queue releases the vertices: first those without
/// incoming edges, by increasing number; then each other vertex once the last
/// of its in-neighbours (listed at `par[i]`) is taken from the queue, by that
/// position, and vertices released by the same vertex by the last entry that
/// leads to them in its list.
pub open spec fn queue_order<W>(g: &Graph<W>, order: Seq<usize>, par: Seq<int>) -> bool {
    &&& par.len() == order.len()
    &&& forall|i: int, l: int|
        0 <= i < l < order.len() && is_source(g, order[l] as int) ==> is_source(g, order[i] as int)
            && #[trigger] order[i] < #[trigger] order[l]
    &&& forall|i: int|
        0 <= i < order.len() && !is_source(g, order[i] as int) ==> 0 <= #[trigger] par[i] < i
            && g.has_edge(order[par[i]] as int, order[i] as int)
            && forall|j: int| par[i] < j < i ==> !#[trigger] g.has_edge(order[j] as int, order[i] as int)
    &&& forall|i: int, l: int|
        0 <= i < l < order.len() && !is_source(g, order[i] as int) && !is_source(g, order[l] as int)
            ==> #[trigger] par[i] <= #[trigger] par[l]
    &&& forall|i: int, l: int|
        0 <= i < l < order.len() && !is_source(g, order[i] as int) && !is_source(g, order[l] as int)
            && par[i] == par[l] ==> #[trigger] last_entry_before(g, order[par[i]] as int, order[i], order[l])
}

/// Listed vertex `j` was released by the vertex listed at `par[j]`: the latest
/// listed in-neighbour before it, whose list leads to it at `pos[j]` and never after.
spec fn released_at<W>(g: &Graph<W>, order: Seq<usize>, par: Seq<int>, pos: Seq<int>, j: int) -> bool {
    &&& 0 <= par[j] < j
    &&& g.has_edge(order[par[j]] as int, order[j] as int)
    &&& forall|j2: int| par[j] < j2 < j ==> !#[trigger] g.has_edge(order[j2] as int, order[j] as int)
    &&& 0 <= pos[j] < g.adj@[order[par[j]] as int]@.len()
    &&& g.adj@[order[par[j]] as int]@[pos[j]].0 == order[j]
    &&& forall|k2: int|
        pos[j] < k2 < g.adj@[order[par[j]] as int]@.len() ==> (#[trigger] g.adj@[order[par[j]] as int]@[k2]).0
            != order[j]
}

proof fn lemma_released_push<W>(
    g: &Graph<W>,
    order: Seq<usize>,
    par: Seq<int>,
    pos: Seq<int>,
    j: int,
    v: usize,
    h: int,
    k: int,
)
    requires
        0 <= j < order.len(),
        par.len() == order.len(),
        pos.len() == order.len(),
        released_at(g, order, par, pos, j),
    ensures
        released_at(g, order.push(v), par.push(h), pos.push(k), j),
{
    let o = order.push(v);
    assert(o[j] == order[j]);
    assert(o[par[j]] == order[par[j]]);
    assert forall|j2: int| par[j] < j2 < j implies !#[trigger] g.has_edge(o[j2] as int, o[j] as int) by {
        assert(o[j2] == order[j2]);
    }
}

/// Where a row has as many entries for `v` in its first `k + 1` as in all,
/// none after `k` leads to `v`.
proof fn lemma_cnt_row_no_later<W>(row: Seq<(usize, W)>, k: int, v: int)
    requires
        0 <= k < row.len(),
        cnt_row(row, v) <= cnt_row(row.take(k + 1), v),
    ensures
        forall|k2: int| k < k2 < row.len() ==> (#[trigger] row[k2]).0 != v,
{
    assert forall|k2: int| k < k2 < row.len() implies (#[trigger] row[k2]).0 != v by {
        if row[k2].0 == v {
            lemma_cnt_row_prefix(row.take(k2), k + 1, v);
            assert(row.take(k2).take(k + 1) =~= row.take(k + 1));
            lemma_cnt_row_step(row, k2, v);
            lemma_cnt_row_prefix(row, k2 + 1, v);
        }
    }
}

pub proof fn lemma_cnt_row_step<W>(row: Seq<(usize, W)>, k: int, v: int)
    requires
        0 <= k < row.len(),
    ensures
        cnt_row(row.take(k + 1), v) == cnt_row(row.take(k), v) + if row[k].0 == v {
            1nat
        } else {
            0nat
        },
{
    assert(row.take(k + 1).drop_last() =~= row.take(k));
}

pub proof fn lemma_cnt_row_prefix<W>(row: Seq<(usize, W)>, k: int, v: int)
    requires
        0 <= k <= row.len(),
    ensures
        cnt_row(row.take(k), v) <= cnt_row(row, v),
        cnt_row(row, v) <= row.len(),
    decreases row.len() - k,
{
    if k < row.len() {
        lemma_cnt_row_step(row, k, v);
        lemma_cnt_row_prefix(row, k + 1, v);
    } else {
        assert(row.take(k) =~= row);
        lemma_cnt_row_len(row, v);
    }
}

pub proof fn lemma_cnt_row_len<W>(row: Seq<(usize, W)>, v: int)
    ensures
        cnt_row(row, v) <= row.len(),
    decreases row.len(),
{
    if row.len() > 0 {
        lemma_cnt_row_len(row.drop_last(), v);
    }
}

pub proof fn lemma_cnt_row_pos<W>(row: Seq<(usize, W)>, v: int)
    ensures
        cnt_row(row, v) > 0 <==> exists|k: int| 0 <= k < row.len() && (#[trigger] row[k]).0 == v,
    decreases row.len(),
{
    if row.len() > 0 {
        lemma_cnt_row_pos(row.drop_last(), v);
        if cnt_row(row.drop_last(), v) > 0 {
            let k = choose|k: int| 0 <= k < row.drop_last().len() && (#[trigger] row.drop_last()[k]).0 == v;
            assert(row[k].0 == v);
        }
        if exists|k: int| 0 <= k < row.len() && (#[trigger] row[k]).0 == v {
            let k = choose|k: int| 0 <= k < row.len() && (#[trigger] row[k]).0 == v;
            if k < row.len() - 1 {
                assert(row.drop_last()[k].0 == v);
            }
        }
    }
}

proof fn lemma_in_count_pos<W>(g: &Graph<W>, alive: Seq<bool>, v: int, upto: int)
    requires
        0 <= upto <= g.adj@.len(),
    ensures
        in_count(g, alive, v, upto) > 0 <==> exists|x: int|
            0 <= x < upto && alive[x] && #[trigger] g.has_edge(x, v),
    decreases upto,
{
    if upto > 0 {
        lemma_in_count_pos(g, alive, v, upto - 1);
        lemma_cnt_row_pos(g.adj@[upto - 1]@, v);
        if exists|x: int| 0 <= x < upto && alive[x] && #[trigger] g.has_edge(x, v) {
            let x = choose|x: int| 0 <= x < upto && alive[x] && #[trigger] g.has_edge(x, v);
            if x == upto - 1 {
                let k = choose|k: int| 0 <= k < g.adj@[x]@.len() && (#[trigger] g.adj@[x]@[k]).0 == v;
                assert(g.adj@[upto - 1]@[k].0 == v);
            }
        }
        if in_count(g, alive, v, upto) > 0 && in_count(g, alive, v, upto - 1) == 0 {
            let k = choose|k: int| 0 <= k < g.adj@[upto - 1]@.len() && (#[trigger] g.adj@[upto - 1]@[k]).0 == v;
            assert(g.has_edge(upto - 1, v));
        }
    }
}

proof fn lemma_in_count_kill<W>(g: &Graph<W>, alive: Seq<bool>, u: int, v: int, upto: int)
    requires
        0 <= u < alive.len(),
        alive[u],
        0 <= upto <= alive.len(),
    ensures
        in_count(g, alive.update(u, false), v, upto) + if u < upto {
            cnt_row(g.adj@[u]@, v)
        } else {
            0nat
        } == in_count(g, alive, v, upto),
    decreases upto,
{
    if upto > 0 {
        lemma_in_count_kill(g, alive, u, v, upto - 1);
    }
}

proof fn lemma_in_count_bound<W>(g: &Graph<W>, alive: Seq<bool>, v: int, upto: int)
    requires
        0 <= upto <= g.adj@.len(),
    ensures
        in_count(g, alive, v, upto) <= sum_lens(g.adj@.take(upto)),
    decreases upto,
{
    if upto > 0 {
        lemma_in_count_bound(g, alive, v, upto - 1);
        lemma_cnt_row_len(g.adj@[upto - 1]@, v);
        assert(g.adj@.take(upto).drop_last() =~= g.adj@.take(upto - 1));
    }
}

/// Distinct indices below `n` that include every one of them number at least `n`.
proof fn lemma_cover(order: Seq<usize>, n: usize)
    requires
        order.no_duplicates(),
        forall|i: int| 0 <= i < order.len() ==> #[trigger] order[i] < n,
        order.len() < n,
    ensures
        exists|x: usize| x < n && !#[trigger] order.contains(x),
{
    if forall|x: usize| x < n ==> #[trigger] order.contains(x) {
        let r = Set::<usize>::range(0, n);
        vstd::set_lib::range_set_properties::<usize>(0, n);
        order.unique_seq_to_set();
        assert(r.subset_of(order.to_set()));
        vstd::set_lib::lemma_len_subset(r, order.to_set());
    }
}

/// The first position of `ord` whose vertex is missing from `order`.
proof fn lemma_first_missing(ord: Seq<usize>, order: Seq<usize>, i: int) -> (m: int)
    requires
        0 <= i < ord.len(),
        !order.contains(ord[i]),
    ensures
        0 <= m <= i,
        !order.contains(ord[m]),
        forall|j: int| 0 <= j < m ==> order.contains(#[trigger] ord[j]),
    decreases i,
{
    if exists|j: int| 0 <= j < i && !order.contains(#[trigger] ord[j]) {
        let j = choose|j: int| 0 <= j < i && !order.contains(#[trigger] ord[j]);
        lemma_first_missing(ord, order, j)
    } else {
        i
    }
}

/// Topological sort using Kahn's algorithm. Returns `None` if cycle exists.
#[verifier::rlimit(80)]
#[verifier::spinoff_prover]
pub fn topological_sort<W>(g: &Graph<W>) -> (res: Option<Vec<usize>>)
    requires
        g.wf(),
        g.directed,
        g.num_entries() <= usize::MAX,
    ensures
        match res {
            Some(order) => is_topological_order(g, order@) && exists|par: Seq<int>| #[trigger] queue_order(
                g,
                order@,
                par,
            ),
            None => !exists|ord: Seq<usize>| #[trigger] is_topological_order(g, ord),
        },
{
    let n = g.n;
    let ghost all = Seq::new(n as nat, |x: int| true);
    let mut in_deg: Vec<usize> = Vec::new();
    let mut i: usize = 0;
    while i < n
        invariant
            i <= n,
            in_deg@.len() == i,
            forall|x: int| 0 <= x < i ==> #[trigger] in_deg@[x] == 0,
        decreases n - i,
    {
        in_deg.push(0);
        i = i + 1;
    }
    let mut u: usize = 0;
    while u < n
        invariant
            g.wf(),
            n == g.n,
            u <= n,
            g.num_entries() <= usize::MAX,
            all == Seq::new(n as nat, |x: int| true),
            in_deg@.len() == n,
            forall|v: int| 0 <= v < n ==> #[trigger] in_deg@[v] == in_count(g, all, v, u as int),
        decreases n - u,
    {
        let mut k: usize = 0;
        while k < g.adj[u].len()
            invariant
                g.wf(),
                n == g.n,
                u < n,
                g.num_entries() <= usize::MAX,
                all == Seq::new(n as nat, |x: int| true),
                in_deg@.len() == n,
                k <= g.adj@[u as int]@.len(),
                forall|v: int|
                    0 <= v < n ==> #[trigger] in_deg@[v] == in_count(g, all, v, u as int) + cnt_row(
                        g.adj@[u as int]@.take(k as int),
                        v,
                    ),
            decreases g.adj@[u as int]@.len() - k,
        {
            let v = g.adj[u][k].0;
            proof {
                assert(g.adj@[u as int]@[k as int].0 < n);
                lemma_cnt_row_step(g.adj@[u as int]@, k as int, v as int);
                lemma_cnt_row_prefix(g.adj@[u as int]@, k as int + 1, v as int);
                lemma_in_count_bound(g, all, v as int, u as int);
                lemma_sum_lens_prefix(g.adj@, u as int + 1);
                assert(g.adj@.take(u + 1).drop_last() =~= g.adj@.take(u as int));
                assert(g.adj@.take(u + 1).last() == g.adj@[u as int]);
            }
            in_deg.set(v, in_deg[v] + 1);
            proof {
                assert forall|w: int| 0 <= w < n implies #[trigger] in_deg@[w] == in_count(
                    g,
                    all,
                    w,
                    u as int,
                ) + cnt_row(g.adj@[u as int]@.take(k + 1), w) by {
                    lemma_cnt_row_step(g.adj@[u as int]@, k as int, w);
                }
            }
            k = k + 1;
        }
        proof {
            assert(g.adj@[u as int]@.take(k as int) =~= g.adj@[u as int]@);
        }
        u = u + 1;
    }
    // vertices without incoming edges, in increasing order
    let mut order: Vec<usize> = Vec::new();
    let ghost mut par: Seq<int> = Seq::empty();
    let mut i: usize = 0;
    while i < n
        invariant
            g.wf(),
            n == g.n,
            i <= n,
            in_deg@.len() == n,
            order@.len() <= i,
            par.len() == order@.len(),
            forall|j: int| 0 <= j < order@.len() ==> is_source(g, #[trigger] order@[j] as int),
            forall|a: int, b: int| 0 <= a < b < order@.len() ==> #[trigger] order@[a] < #[trigger] order@[b],
            order@.no_duplicates(),
            all == Seq::new(n as nat, |x: int| true),
            forall|v: int| 0 <= v < n ==> #[trigger] in_deg@[v] == in_count(g, all, v, n as int),
            forall|j: int| 0 <= j < order@.len() ==> #[trigger] order@[j] < i,
            forall|x: usize| x < n ==> (#[trigger] order@.contains(x) <==> (x < i
                && in_deg@[x as int] == 0)),
        decreases n - i,
    {
        if in_deg[i] == 0 {
            let ghost prev = order@;
            order.push(i);
            proof {
                par = par.push(0);
                assert(order@ == prev.push(i));
                lemma_in_count_pos(g, all, i as int, n as int);
                assert forall|x: int| 0 <= x < g.n implies !#[trigger] g.has_edge(x, i as int) by {
                    assert(all[x]);
                }
                assert forall|j: int| 0 <= j < order@.len() implies is_source(g, #[trigger] order@[j] as int) by {
                    if j < prev.len() {
                        assert(order@[j] == prev[j]);
                    }
                }
                assert forall|a: int, b: int| 0 <= a < b < order@.len() implies #[trigger] order@[a] < #[trigger] order@[b] by {
                    assert(order@[a] == prev[a]);
                    if b < prev.len() {
                        assert(order@[b] == prev[b]);
                    }
                }
                assert forall|x: usize| x < n implies (#[trigger] order@.contains(x)
                    <==> (x < i + 1 && in_deg@[x as int] == 0)) by {
                    if x == i {
                        assert(order@[prev.len() as int] == i);
                    } else if order@.contains(x) {
                        let j = choose|j: int| 0 <= j < order@.len() && order@[j] == x;
                        assert(j != prev.len());
                        assert(prev[j] == x);
                        assert(prev.contains(x));
                    } else if prev.contains(x) {
                        let j = choose|j: int| 0 <= j < prev.len() && prev[j] == x;
                        assert(order@[j] == x);
                    }
                }
            }
        }
        i = i + 1;
    }
    proof {
        assert forall|v: int| 0 <= v < n implies #[trigger] in_deg@[v] == in_count(
            g,
            Seq::new(n as nat, |x: int| !order@.take(0).contains(x as usize)),
            v,
            n as int,
        ) by {
            assert(Seq::new(n as nat, |x: int| !order@.take(0).contains(x as usize)) =~= all);
        }
        assert forall|j: int, x: int|
            0 <= j < order@.len() && #[trigger] g.has_edge(x, order@[j] as int) implies order@.take(
            j,
        ).contains(x as usize) by {
            assert(order@.contains(order@[j]));
            lemma_in_count_pos(g, all, order@[j] as int, n as int);
        }
    }
    let ghost ns = order@.len() as int;
    let ghost mut pos: Seq<int> = par;
    proof {
        assert forall|j: int| 0 <= j < order@.len() implies (is_source(g, #[trigger] order@[j] as int) <==> j < ns) by {}
    }
    let mut head: usize = 0;
    while head < order.len()
        invariant
            g.wf(),
            n == g.n,
            head <= order@.len(),
            0 <= ns <= order@.len(),
            par.len() == order@.len(),
            pos.len() == order@.len(),
            forall|j: int| 0 <= j < order@.len() ==> (is_source(g, #[trigger] order@[j] as int) <==> j < ns),
            forall|a: int, b: int| 0 <= a < b < ns ==> #[trigger] order@[a] < #[trigger] order@[b],
            forall|j: int| ns <= j < order@.len() ==> #[trigger] released_at(g, order@, par, pos, j),
            forall|j: int| ns <= j < order@.len() ==> #[trigger] par[j] < head,
            forall|a: int, b: int| ns <= a < b < order@.len() ==> #[trigger] par[a] <= #[trigger] par[b],
            forall|a: int, b: int|
                ns <= a < b < order@.len() && par[a] == par[b] ==> #[trigger] last_entry_before(
                    g,
                    order@[par[a]] as int,
                    order@[a],
                    order@[b],
                ),
            order@.len() <= n,
            in_deg@.len() == n,
            order@.no_duplicates(),
            forall|j: int| 0 <= j < order@.len() ==> #[trigger] order@[j] < n,
            forall|x: usize| x < n ==> (#[trigger] order@.contains(x) <==> in_deg@[x as int] == 0),
            forall|v: int|
                0 <= v < n ==> #[trigger] in_deg@[v] == in_count(
                    g,
                    Seq::new(n as nat, |x: int| !order@.take(head as int).contains(x as usize)),
                    v,
                    n as int,
                ),
            forall|j: int, x: int|
                0 <= j < order@.len() && #[trigger] g.has_edge(x, order@[j] as int)
                    ==> order@.take(j).contains(x as usize),
        decreases n - head,
    {
        let u = order[head];
        let ghost alive0 = Seq::new(n as nat, |x: int| !order@.take(head as int).contains(x as usize));
        let ghost alive1 = Seq::new(n as nat, |x: int| !order@.take(head + 1).contains(x as usize));
        proof {
            assert(alive1 =~= alive0.update(u as int, false)) by {
                assert forall|x: int| 0 <= x < n implies alive1[x] == alive0.update(u as int, false)[x] by {
                    if x == u {
                        assert(order@.take(head + 1)[head as int] == u);
                    } else {
                        if order@.take(head + 1).contains(x as usize) {
                            let j = choose|j: int| 0 <= j < head + 1 && #[trigger] order@.take(head + 1)[j] == x as usize;
                            assert(order@.take(head as int)[j] == x);
                        }
                        if order@.take(head as int).contains(x as usize) {
                            let j = choose|j: int| 0 <= j < head && #[trigger] order@.take(head as int)[j] == x as usize;
                            assert(order@.take(head + 1)[j] == x);
                        }
                    }
                }
            }
            assert(alive0[u as int]) by {
                if order@.take(head as int).contains(u) {
                    let j = choose|j: int| 0 <= j < head && #[trigger] order@.take(head as int)[j] == u;
                    assert(order@[j] == order@[head as int]);
                }
            }
            assert forall|v: int| 0 <= v < n implies #[trigger] in_deg@[v] + cnt_row(
                g.adj@[u as int]@.take(0),
                v,
            ) == in_count(g, alive1, v, n as int) + cnt_row(g.adj@[u as int]@, v) by {
                lemma_in_count_kill(g, alive0, u as int, v, n as int);
                assert(g.adj@[u as int]@.take(0) =~= Seq::<(usize, W)>::empty());
            }
            assert forall|j: int| ns <= j < order@.len() && par[j] == head implies #[trigger] pos[j] < 0 by {
                assert(par[j] < head);
            }
        }
        let mut k: usize = 0;
        while k < g.adj[u].len()
            invariant
                g.wf(),
                n == g.n,
                head < order@.len(),
                u == order@[head as int],
                u < n,
                order@.len() <= n,
                in_deg@.len() == n,
                order@.no_duplicates(),
                forall|j: int| 0 <= j < order@.len() ==> #[trigger] order@[j] < n,
                forall|x: usize| x < n ==> (#[trigger] order@.contains(x) <==> in_deg@[x as int] == 0),
                alive1 == Seq::new(n as nat, |x: int| !order@.take(head + 1).contains(x as usize)),
                k <= g.adj@[u as int]@.len(),
                0 <= ns <= order@.len(),
                par.len() == order@.len(),
                pos.len() == order@.len(),
                forall|j: int| 0 <= j < order@.len() ==> (is_source(g, #[trigger] order@[j] as int) <==> j < ns),
                forall|a: int, b: int| 0 <= a < b < ns ==> #[trigger] order@[a] < #[trigger] order@[b],
                forall|j: int| ns <= j < order@.len() ==> #[trigger] released_at(g, order@, par, pos, j),
            forall|j: int| ns <= j < order@.len() ==> #[trigger] par[j] <= head,
                forall|j: int| ns <= j < order@.len() && par[j] == head ==> #[trigger] pos[j] < k,
                forall|a: int, b: int| ns <= a < b < order@.len() ==> #[trigger] par[a] <= #[trigger] par[b],
                forall|a: int, b: int|
                    ns <= a < b < order@.len() && par[a] == par[b] ==> #[trigger] last_entry_before(
                        g,
                        order@[par[a]] as int,
                        order@[a],
                        order@[b],
                    ),
                forall|v: int|
                    0 <= v < n ==> #[trigger] in_deg@[v] + cnt_row(g.adj@[u as int]@.take(k as int), v)
                        == in_count(g, alive1, v, n as int) + cnt_row(g.adj@[u as int]@, v),
                forall|j: int, x: int|
                    0 <= j < order@.len() && #[trigger] g.has_edge(x, order@[j] as int)
                        ==> order@.take(j).contains(x as usize),
            decreases g.adj@[u as int]@.len() - k,
        {
            let v = g.adj[u][k].0;
            let ghost o1 = order@;
            let ghost d1 = in_deg@;
            let ghost par1 = par;
            let ghost pos1 = pos;
            proof {
                assert(g.adj@[u as int]@[k as int].0 < n);
                lemma_cnt_row_step(g.adj@[u as int]@, k as int, v as int);
                lemma_cnt_row_prefix(g.adj@[u as int]@, k as int + 1, v as int);
                assert(d1[v as int] >= 1);
                assert(!o1.contains(v));
            }
            in_deg.set(v, in_deg[v] - 1);
            proof {
                assert(in_deg@ == d1.update(v as int, (d1[v as int] - 1) as usize));
                assert forall|x: usize| x < n implies (#[trigger] o1.contains(x) <==> (in_deg@[x as int] == 0 && x != v)) by {
                    if x != v {
                        assert(o1.contains(x) <==> d1[x as int] == 0);
                    }
                }
            }
            if in_deg[v] == 0 {
                proof {
                    lemma_distinct_bounded_missing(o1, n, v);
                    lemma_cnt_row_prefix(g.adj@[u as int]@, k as int + 1, v as int);
                }
                order.push(v);
                proof {
                    let L = o1.len() as int;
                    par = par1.push(head as int);
                    pos = pos1.push(k as int);
                    assert(order@ == o1.push(v));
                    assert(order@[head as int] == u);
                    assert(order@[L] == v);
                    assert(g.adj@[u as int]@[k as int].0 == v);
                    // v is released now, by u, and u's list leads to it no more
                    assert(cnt_row(g.adj@[u as int]@.take(k + 1), v as int) == cnt_row(g.adj@[u as int]@.take(k as int), v as int) + 1);
                    lemma_cnt_row_no_later(g.adj@[u as int]@, k as int, v as int);
                    assert(g.has_edge(u as int, v as int));
                    assert(!is_source(g, v as int));
                    assert forall|j2: int| head < j2 < L implies !#[trigger] g.has_edge(order@[j2] as int, v as int) by {
                        if g.has_edge(order@[j2] as int, v as int) {
                            assert(order@[j2] == o1[j2]);
                            assert(o1[j2] < n);
                            assert(in_count(g, alive1, v as int, n as int) == 0);
                            lemma_in_count_pos(g, alive1, v as int, n as int);
                            assert(!alive1[o1[j2] as int]);
                            let q = choose|q: int| 0 <= q < head + 1 && #[trigger] o1.take(head + 1)[q] == o1[j2];
                            assert(o1[q] == o1[j2]);
                        }
                    }
                    assert(released_at(g, order@, par, pos, L));
                    assert forall|j: int| ns <= j < order@.len() implies #[trigger] par[j] <= head by {
                        if j < L {
                            assert(par[j] == par1[j]);
                        }
                    }
                    assert forall|j: int| ns <= j < order@.len() implies #[trigger] released_at(g, order@, par, pos, j) by {
                        if j < L {
                            lemma_released_push(g, o1, par1, pos1, j, v, head as int, k as int);
                        }
                    }
                    assert forall|j: int| 0 <= j < order@.len() implies (is_source(g, #[trigger] order@[j] as int) <==> j < ns) by {
                        if j < L {
                            assert(order@[j] == o1[j]);
                        }
                    }
                    assert forall|a: int, b: int| 0 <= a < b < ns implies #[trigger] order@[a] < #[trigger] order@[b] by {
                        assert(order@[a] == o1[a] && order@[b] == o1[b]);
                    }
                    assert forall|a: int, b: int|
                        ns <= a < b < order@.len() && par[a] == par[b] implies #[trigger] last_entry_before(
                            g,
                            order@[par[a]] as int,
                            order@[a],
                            order@[b],
                        ) by {
                        assert(released_at(g, o1, par1, pos1, a));
                        assert(par[a] == par1[a]);
                        assert(order@[a] == o1[a]);
                        assert(order@[par[a]] == o1[par1[a]]);
                        if b < L {
                            assert(order@[b] == o1[b]);
                            assert(last_entry_before(g, o1[par1[a]] as int, o1[a], o1[b]));
                        } else {
                            assert(pos1[a] < k);
                            assert(released_at(g, o1, par1, pos1, a));
                            assert(o1[par1[a]] == u);
                            assert forall|k2: int| k <= k2 < g.adj@[u as int]@.len() implies (#[trigger] g.adj@[u as int]@[k2]).0 != o1[a] by {
                                assert(pos1[a] < k2);
                            }
                        }
                    }
                    assert forall|x: int| 0 <= x < n && #[trigger] g.has_edge(x, v as int) implies order@.take(
                        o1.len() as int,
                    ).contains(x as usize) by {
                        assert(in_count(g, alive1, v as int, n as int) == 0);
                        lemma_in_count_pos(g, alive1, v as int, n as int);
                        assert(!alive1[x]);
                        let j = choose|j: int| 0 <= j < head + 1 && #[trigger] o1.take(head + 1)[j] == x as usize;
                        assert(order@.take(o1.len() as int)[j] == x);
                    }
                    assert forall|j: int, x: int|
                        0 <= j < order@.len() && #[trigger] g.has_edge(x, order@[j] as int)
                            implies order@.take(j).contains(x as usize) by {
                        if j < o1.len() {
                            assert(order@[j] == o1[j]);
                            assert(o1.take(j).contains(x as usize));
                            assert(order@.take(j) =~= o1.take(j));
                        } else {
                            assert(order@[j] == v);
                            assert(0 <= x < g.adj@.len());
                        }
                    }
                    assert(order@.take(head + 1) =~= o1.take(head + 1));
                    assert forall|x: usize| x < n implies (#[trigger] order@.contains(x)
                        <==> in_deg@[x as int] == 0) by {
                        if x == v {
                            assert(order@[o1.len() as int] == v);
                        } else if order@.contains(x) {
                            let j = choose|j: int| 0 <= j < order@.len() && order@[j] == x;
                            assert(j != o1.len());
                            assert(o1[j] == x);
                            assert(o1.contains(x));
                        } else if o1.contains(x) {
                            let j = choose|j: int| 0 <= j < o1.len() && o1[j] == x;
                            assert(order@[j] == x);
                        }
                    }
                }
            }
            proof {
                assert forall|w: int| 0 <= w < n implies #[trigger] in_deg@[w] + cnt_row(
                    g.adj@[u as int]@.take(k + 1),
                    w,
                ) == in_count(g, alive1, w, n as int) + cnt_row(g.adj@[u as int]@, w) by {
                    lemma_cnt_row_step(g.adj@[u as int]@, k as int, w);
                }
            }
            k = k + 1;
        }
        proof {
            assert(g.adj@[u as int]@.take(k as int) =~= g.adj@[u as int]@);
            assert forall|j: int| ns <= j < order@.len() implies #[trigger] par[j] < head + 1 by {
                assert(par[j] <= head);
            }
        }
        head = head + 1;
    }
    if order.len() == n {
        proof {
            assert forall|i: int, j: int|
                0 <= i < order@.len() && 0 <= j < order@.len() && g.has_edge(
                    #[trigger] order@[i] as int,
                    #[trigger] order@[j] as int,
                ) implies i < j by {
                let q = choose|q: int| 0 <= q < j && #[trigger] order@.take(j)[q] == order@[i];
                assert(order@[q] == order@[i]);
            }
            let o = order@;
            assert forall|i: int, l: int|
                0 <= i < l < o.len() && is_source(g, o[l] as int) implies is_source(g, o[i] as int)
                    && #[trigger] o[i] < #[trigger] o[l] by {
                assert(is_source(g, o[l] as int) <==> l < ns);
                assert(is_source(g, o[i] as int) <==> i < ns);
            }
            assert forall|i: int|
                0 <= i < o.len() && !is_source(g, o[i] as int) implies 0 <= #[trigger] par[i] < i
                    && g.has_edge(o[par[i]] as int, o[i] as int)
                    && forall|j: int| par[i] < j < i ==> !#[trigger] g.has_edge(o[j] as int, o[i] as int) by {
                assert(is_source(g, o[i] as int) <==> i < ns);
                assert(released_at(g, o, par, pos, i));
            }
            assert forall|i: int, l: int|
                0 <= i < l < o.len() && !is_source(g, o[i] as int) && !is_source(g, o[l] as int)
                    implies #[trigger] par[i] <= #[trigger] par[l] by {
                assert(is_source(g, o[i] as int) <==> i < ns);
            }
            assert forall|i: int, l: int|
                0 <= i < l < o.len() && !is_source(g, o[i] as int) && !is_source(g, o[l] as int)
                    && par[i] == par[l] implies #[trigger] last_entry_before(g, o[par[i]] as int, o[i], o[l]) by {
                assert(is_source(g, o[i] as int) <==> i < ns);
            }
            assert(queue_order(g, o, par));
        }
        Some(order)
    } else {
        proof {
            assert(order@.take(head as int) =~= order@);
            if exists|ord: Seq<usize>| #[trigger] is_topological_order(g, ord) {
                let ord = choose|ord: Seq<usize>| #[trigger] is_topological_order(g, ord);
                lemma_cover(order@, n);
                let x = choose|x: usize| x < n && !#[trigger] order@.contains(x);
                assert(ord.contains(x)) by {
                    if !ord.contains(x) {
                        lemma_distinct_bounded_missing(ord, n, x);
                    }
                }
                let i = choose|i: int| 0 <= i < ord.len() && ord[i] == x;
                let m = lemma_first_missing(ord, order@, i);
                let v = ord[m];
                assert(v < n);
                assert(!order@.contains(v));
                assert(in_deg@[v as int] != 0);
                let alive = Seq::new(n as nat, |y: int| !order@.take(head as int).contains(y as usize));
                lemma_in_count_pos(g, alive, v as int, n as int);
                let y = choose|y: int| 0 <= y < n && alive[y] && #[trigger] g.has_edge(y, v as int);
                assert(ord.contains(y as usize)) by {
                    if !ord.contains(y as usize) {
                        lemma_distinct_bounded_missing(ord, n, y as usize);
                    }
                }
                let p = choose|p: int| 0 <= p < ord.len() && ord[p] == y as usize;
                assert(p < m);
                assert(order@.contains(ord[p]));
            }
        }
        None
    }
}

} // verus!
