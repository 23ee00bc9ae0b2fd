//! Properties that relate several operations of the library.
use crate::connectivity::{avoid_step, avoid_walk, components_shape, is_bridge};
use crate::cut_vertices::{is_cut_vertex, reach_without, walk_without};
use crate::graph::{Edge, Graph, lemma_reach_refl, lemma_reach_step, lemma_reach_sym};
use crate::mst::{is_entry, is_rep, is_spanning_forest, link_path, link_step, linked, reps, UnionFind};
use crate::mst_weight::{lemma_entries_within, lemma_forest_count};
use crate::traversal::{is_topological_order, lists_reachable};
use vstd::prelude::*;

verus! {

/// Breadth-first and depth-first search from the same vertex reach the same
/// vertices, and list the same number of them.
pub proof fn law_bfs_dfs_same_vertices<W>(g: &Graph<W>, s: usize, by_bfs: Seq<usize>, by_dfs: Seq<usize>)
    requires
        lists_reachable(g, s, by_bfs),
        lists_reachable(g, s, by_dfs),
    ensures
        by_bfs.to_set() == by_dfs.to_set(),
        by_bfs.len() == by_dfs.len(),
{
    assert forall|t: usize| by_bfs.to_set().contains(t) <==> by_dfs.to_set().contains(t) by {
        assert(by_bfs.contains(t) <==> by_dfs.contains(t));
    }
    assert(by_bfs.to_set() =~= by_dfs.to_set());
    by_bfs.unique_seq_to_set();
    by_dfs.unique_seq_to_set();
}

/// A graph with a closed walk has no topological order, so topological sort
/// answers `None` on it.
pub proof fn law_cycle_blocks_topological_order<W>(g: &Graph<W>, cycle: Seq<usize>)
    requires
        g.is_walk(cycle),
        cycle.len() >= 2,
        cycle[0] == cycle.last(),
    ensures
        !exists|ord: Seq<usize>| #[trigger] is_topological_order(g, ord),
{
    if exists|ord: Seq<usize>| #[trigger] is_topological_order(g, ord) {
        let ord = choose|ord: Seq<usize>| #[trigger] is_topological_order(g, ord);
        let pl = lemma_positions_increase(g, ord, cycle, cycle.len() - 1);
        assert(ord[pl] == cycle[0]);
    }
}

/// Where a vertex stands in a topological order.
proof fn lemma_position<W>(g: &Graph<W>, ord: Seq<usize>, x: usize) -> (p: int)
    requires
        is_topological_order(g, ord),
        x < g.n,
    ensures
        0 <= p < ord.len(),
        ord[p] == x,
{
    if !ord.contains(x) {
        crate::seq_facts::lemma_distinct_bounded_missing(ord, g.n, x);
    }
    choose|p: int| 0 <= p < ord.len() && ord[p] == x
}

/// Along a walk, positions in a topological order strictly increase.
proof fn lemma_positions_increase<W>(g: &Graph<W>, ord: Seq<usize>, walk: Seq<usize>, i: int) -> (p: int)
    requires
        is_topological_order(g, ord),
        g.is_walk(walk),
        1 <= i < walk.len(),
    ensures
        0 <= p < ord.len(),
        ord[p] == walk[i],
        forall|q: int| 0 <= q < ord.len() && ord[q] == walk[0] ==> p > q,
    decreases i,
{
    assert(walk[i] < g.n);
    assert(walk[i - 1] < g.n);
    let p = lemma_position(g, ord, walk[i]);
    let q = if i == 1 {
        lemma_position(g, ord, walk[0])
    } else {
        lemma_positions_increase(g, ord, walk, i - 1)
    };
    assert(g.step(walk, i - 1));
    assert(g.has_edge(ord[q] as int, ord[p] as int));
    assert forall|q2: int| 0 <= q2 < ord.len() && ord[q2] == walk[0] implies p > q2 by {
        if i == 1 {
            if q2 != q {
                assert(ord[q2] == ord[q]);
            }
        }
    }
    p
}

/// In a graph whose edges all have reverses, each connected component holds
/// exactly the vertices that a search from its first vertex reaches.
pub proof fn law_components_are_search_sets<W>(
    g: &Graph<W>,
    comps: Seq<Vec<usize>>,
    i: int,
    search: Seq<usize>,
)
    requires
        g.symmetric(),
        components_shape(g, comps),
        forall|j: int, y: usize|
            0 <= j < comps.len() ==> (#[trigger] comps[j]@.contains(y) <==> (y < g.n
                && g.reachable(comps[j]@[0] as int, y as int))),
        0 <= i < comps.len(),
        lists_reachable(g, comps[i]@[0], search),
    ensures
        comps[i]@.to_set() == search.to_set(),
        comps[i]@.len() == search.len(),
{
    assert forall|t: usize| comps[i]@.to_set().contains(t) <==> search.to_set().contains(t) by {
        assert(comps[i]@.contains(t) <==> search.contains(t));
    }
    assert(comps[i]@.to_set() =~= search.to_set());
    comps[i]@.unique_seq_to_set();
    search.unique_seq_to_set();
}

/// Union-find: the representative of a representative is itself, so `find`
/// returns the same answer for every member of a set.
pub proof fn law_find_is_stable(uf: &UnionFind, x: int, y: int)
    requires
        uf.wf(),
        0 <= x < uf.size(),
        0 <= y < uf.size(),
        uf.same(x, y),
    ensures
        uf.root(uf.root(x)) == uf.root(x),
        uf.root(x) == uf.root(y),
        uf.same(x, uf.root(y)),
{
    uf.lemma_root_in_range(x);
    uf.lemma_root_in_range(y);
}


/// In a graph whose edges all have reverses, an end of a bridge that has a
/// neighbour besides the other end is a cut vertex: what `bridges` reports and
/// what `articulation_points` reports agree.
pub proof fn law_bridge_end_is_cut_vertex<W>(g: &Graph<W>, a: int, b: int, c: int)
    requires
        g.wf(),
        g.symmetric(),
        is_bridge(g, a, b),
        g.has_edge(a, c),
        c != a,
        c != b,
    ensures
        is_cut_vertex(g, a),
{
    let ka = choose|k: int| 0 <= k < g.adj@[a]@.len() && (#[trigger] g.adj@[a]@[k]).0 == b;
    assert(0 <= b < g.n);
    if a == b {
        let p0 = seq![a as usize];
        assert(avoid_walk(g, a, b, p0, a, b));
    }
    let kc = choose|k: int| 0 <= k < g.adj@[a]@.len() && (#[trigger] g.adj@[a]@[k]).0 == c;
    assert(0 <= c < g.n);
    // c reaches b through a
    assert(g.has_edge(c, a));
    let w = seq![c as usize, a as usize, b as usize];
    assert(g.step(w, 0) && g.step(w, 1));
    assert(g.walk_between(w, c, b));
    // without a, c cannot reach b: the edge from a to c and such a walk would
    // make a detour around the bridge
    if reach_without(g, a, c, b) {
        let p = choose|p: Seq<usize>| #[trigger] walk_without(g, a, p, c, b);
        let q = seq![a as usize] + p;
        assert forall|i: int| 0 <= i < q.len() implies #[trigger] q[i] < g.n by {
            if i > 0 {
                assert(q[i] == p[i - 1]);
            }
        }
        assert forall|i: int| 0 <= i < q.len() - 1 implies #[trigger] avoid_step(g, a, b, q, i) by {
            if i == 0 {
                assert(q[1] == p[0]);
            } else {
                assert(q[i] == p[i - 1] && q[i + 1] == p[i]);
                assert(g.step(p, i - 1));
                assert(p[i - 1] != a && p[i] != a);
            }
        }
        assert(q.last() == p.last());
        assert(avoid_walk(g, a, b, q, a, b));
    }
    assert(c != a && b != a && g.reachable(c, b) && !reach_without(g, a, c, b));
}

/// Along a path of edges of `m`, all of them edges of a graph whose edges all
/// have reverse edges, the graph reaches every vertex of the path from its start.
proof fn lemma_linked_reachable(g: &Graph<u64>, m: Seq<Edge<u64>>, p: Seq<usize>, a: int, i: int)
    requires
        g.wf(),
        g.symmetric(),
        forall|j: int| 0 <= j < m.len() ==> is_entry(g, #[trigger] m[j]),
        p.len() >= 1,
        p[0] == a,
        0 <= a < g.n,
        forall|t: int| 0 <= t < p.len() - 1 ==> #[trigger] link_step(m, p, t),
        0 <= i < p.len(),
    ensures
        g.reachable(a, p[i] as int),
        p[i] < g.n,
    decreases i,
{
    if i == 0 {
        lemma_reach_refl(g, a);
    } else {
        lemma_linked_reachable(g, m, p, a, i - 1);
        assert(link_step(m, p, i - 1));
        let j = choose|j: int|
            0 <= j < m.len() && ((#[trigger] m[j].from == p[i - 1] && m[j].to == p[i]) || (m[j].to == p[i - 1]
                && m[j].from == p[i]));
        assert(is_entry(g, m[j]));
        let k = choose|k: int| 0 <= k < g.adj@[m[j].from as int]@.len() && #[trigger] g.adj@[m[j].from as int]@[k] == (m[j].to, m[j].weight);
        assert(g.adj@[m[j].from as int]@[k].0 < g.n);
        assert(g.has_edge(m[j].from as int, m[j].to as int));
        if m[j].from != p[i - 1] {
            assert(g.has_edge(p[i - 1] as int, p[i] as int));
        }
        lemma_reach_step(g, a, p[i - 1] as int, p[i] as int);
    }
}

/// Along a walk of a graph that a set of edges spans, the edges join the start
/// to every vertex of the walk.
proof fn lemma_reachable_linked(g: &Graph<u64>, m: Seq<Edge<u64>>, p: Seq<usize>, a: int, i: int)
    requires
        g.is_walk(p),
        p[0] == a,
        forall|x: int, y: int| #[trigger] g.has_edge(x, y) ==> linked(m, x, y),
        0 <= i < p.len(),
    ensures
        linked(m, a, p[i] as int),
    decreases i,
{
    if i == 0 {
        crate::mst::lemma_linked_refl(m, a);
    } else {
        lemma_reachable_linked(g, m, p, a, i - 1);
        assert(g.step(p, i - 1));
        crate::mst::lemma_linked_trans(m, a, p[i - 1] as int, p[i] as int);
    }
}

/// In a graph whose edges all have reverse edges, a spanning forest (as
/// `kruskal` returns) has one edge less than the graph has vertices for each
/// connected component (as `connected_components` lists them).
pub proof fn law_forest_edges_and_components(g: &Graph<u64>, m: Seq<Edge<u64>>, comps: Seq<Vec<usize>>)
    requires
        g.wf(),
        g.symmetric(),
        is_spanning_forest(g, m),
        components_shape(g, comps),
        forall|j: int, y: usize|
            0 <= j < comps.len() ==> (#[trigger] comps[j]@.contains(y) <==> (y < g.n
                && g.reachable(comps[j]@[0] as int, y as int))),
    ensures
        m.len() + comps.len() == g.n,
{
    let n = g.n as int;
    lemma_entries_within(g, m);
    lemma_forest_count(m, n);
    // the edges of m join exactly the vertices that the graph joins
    assert forall|a: int, b: int| 0 <= a < n && 0 <= b < n implies (linked(m, a, b) <==> g.reachable(a, b)) by {
        if linked(m, a, b) {
            let p = choose|p: Seq<usize>| #[trigger] link_path(m, p, a, b);
            lemma_linked_reachable(g, m, p, a, p.len() - 1);
        }
        if g.reachable(a, b) {
            let p = choose|p: Seq<usize>| #[trigger] g.walk_between(p, a, b);
            lemma_reachable_linked(g, m, p, a, p.len() - 1);
        }
    }
    // the least vertices of the classes are the first vertices of the components
    let firsts = Seq::new(comps.len(), |i: int| comps[i]@[0] as int);
    assert forall|x: int| #[trigger] reps(m, n).contains(x) <==> firsts.to_set().contains(x) by {
        if reps(m, n).contains(x) {
            assert(crate::connectivity::covered(comps, comps.len() as int, x as usize));
            let i = choose|i: int| 0 <= i < comps.len() && #[trigger] comps[i]@.contains(x as usize);
            let c = comps[i]@[0] as int;
            assert(comps[i]@.len() >= 1);
            assert(comps[i]@.contains(comps[i]@[0]));
            assert(c < n);
            assert(g.reachable(c, x));
            let a = choose|a: int| 0 <= a < comps[i]@.len() && comps[i]@[a] == x as usize;
            assert(c <= x);
            if c < x {
                assert(linked(m, c, x));
                assert(is_rep(m, x));
            }
            assert(firsts[i] == x);
        }
        if firsts.to_set().contains(x) {
            let i = choose|i: int| 0 <= i < firsts.len() && firsts[i] == x;
            let c = comps[i]@[0];
            assert(comps[i]@.len() >= 1);
            assert(c < n);
            assert forall|y: int| 0 <= y < x implies !#[trigger] linked(m, y, x) by {
                if linked(m, y, x) {
                    assert(g.reachable(y, x));
                    lemma_reach_sym(g, y, x);
                    assert(comps[i]@.contains(y as usize));
                    let a = choose|a: int| 0 <= a < comps[i]@.len() && comps[i]@[a] == y as usize;
                }
            }
        }
    }
    assert(reps(m, n) =~= firsts.to_set());
    assert forall|i: int, j: int| 0 <= i < firsts.len() && 0 <= j < firsts.len() && i != j implies firsts[i] != firsts[j] by {
        if i < j {
            assert(comps[i]@[0] < comps[j]@[0]);
        } else {
            assert(comps[j]@[0] < comps[i]@[0]);
        }
    }
    assert(firsts.no_duplicates());
    firsts.unique_seq_to_set();
}

} // verus!
