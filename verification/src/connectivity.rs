//! Connectivity: connected components, bridges, articulation points, biconnected components.
use crate::graph::{Graph, lemma_closed_holds_reachable, lemma_reach_refl, lemma_reach_step, lemma_reach_sym, lemma_reach_trans};
use crate::traversal::{bfs_from, bfs_order, falses};
use crate::cut_vertices::{
    is_cut_vertex, lemma_linked_not_cut, lemma_path_without, lemma_without_closed,
    lemma_no_reach_negative, lemma_without_refl, lemma_without_sym, lemma_without_trans, nbrs_linked, reach_without,
    walk_without,
};
use vstd::prelude::*;
use vstd::set_lib::*;

verus! {

/// `y` lies in one of the first `upto` components.
pub open spec fn covered(comps: Seq<Vec<usize>>, upto: int, y: usize) -> bool {
    exists|j: int| 0 <= j < upto && #[trigger] comps[j]@.contains(y)
}

/// The shape every component list returned for `g` has: non-empty components
/// without repeats that split the vertices, each listed from its least vertex,
/// in increasing order of that vertex, each reachable from its first vertex, and
/// with no edge leaving the first `i + 1` components.
pub open spec fn components_shape<W>(g: &Graph<W>, comps: Seq<Vec<usize>>) -> bool {
    &&& forall|i: int| 0 <= i < comps.len() ==> (#[trigger] comps[i])@.len() >= 1
    &&& forall|i: int| 0 <= i < comps.len() ==> (#[trigger] comps[i])@.no_duplicates()
    &&& forall|i: int, a: int|
        0 <= i < comps.len() && 0 <= a < comps[i]@.len() ==> #[trigger] comps[i]@[a] < g.n
            && comps[i]@[0] <= comps[i]@[a] && g.reachable(comps[i]@[0] as int, comps[i]@[a] as int)
    &&& forall|i: int, j: int| 0 <= i < j < comps.len() ==> (#[trigger] comps[i])@[0] < (
    #[trigger] comps[j])@[0]
    &&& forall|i: int, j: int, y: usize|
        0 <= i < comps.len() && 0 <= j < comps.len() && i != j && #[trigger] comps[i]@.contains(y)
            ==> !#[trigger] comps[j]@.contains(y)
    &&& forall|y: usize| y < g.n ==> #[trigger] covered(comps, comps.len() as int, y)
    &&& forall|i: int, a: int, y: int|
        0 <= i < comps.len() && 0 <= a < comps[i]@.len() && #[trigger] g.has_edge(
            comps[i]@[a] as int,
            y,
        ) ==> covered(comps, i + 1, y as usize)
}

/// Find connected components (undirected graph). Returns vector of component assignments.
pub fn connected_components<W>(g: &Graph<W>) -> (comps: Vec<Vec<usize>>)
    requires
        g.wf(),
        !g.directed,
    ensures
        components_shape(g, comps@),
        forall|i: int| 0 <= i < comps@.len() ==> #[trigger] bfs_order(g, comps@[i]@),
        g.symmetric() ==> forall|i: int, y: usize|
            0 <= i < comps@.len() ==> (#[trigger] comps@[i]@.contains(y) <==> (y < g.n
                && g.reachable(comps@[i]@[0] as int, y as int))),
{
    let n = g.n;
    let mut visited = falses(n);
    let mut components: Vec<Vec<usize>> = Vec::new();
    let mut s: usize = 0;
    while s < n
        invariant
            g.wf(),
            n == g.n,
            s <= n,
            visited@.len() == n,
            forall|x: usize| x < n ==> (#[trigger] visited@[x as int] <==> covered(
                components@,
                components@.len() as int,
                x,
            )),
            forall|x: int| 0 <= x < s ==> #[trigger] visited@[x],
            forall|i: int| 0 <= i < components@.len() ==> (#[trigger] components@[i])@.len() >= 1,
            forall|i: int| 0 <= i < components@.len() ==> (#[trigger] components@[i])@.no_duplicates(),
            forall|i: int, a: int|
                0 <= i < components@.len() && 0 <= a < components@[i]@.len() ==> #[trigger] components@[i]@[a] < n
                    && components@[i]@[0] <= components@[i]@[a] && g.reachable(
                    components@[i]@[0] as int,
                    components@[i]@[a] as int,
                ),
            forall|i: int| 0 <= i < components@.len() ==> (#[trigger] components@[i])@[0] < s,
            forall|i: int, j: int|
                0 <= i < j < components@.len() ==> (#[trigger] components@[i])@[0] < (
                #[trigger] components@[j])@[0],
            forall|i: int, j: int, y: usize|
                0 <= i < components@.len() && 0 <= j < components@.len() && i != j
                    && #[trigger] components@[i]@.contains(y) ==> !#[trigger] components@[j]@.contains(y),
            forall|i: int, a: int, y: int|
                0 <= i < components@.len() && 0 <= a < components@[i]@.len() && #[trigger] g.has_edge(
                    components@[i]@[a] as int,
                    y,
                ) ==> covered(components@, i + 1, y as usize),
            forall|i: int| 0 <= i < components@.len() ==> #[trigger] bfs_order(g, components@[i]@),
        decreases n - s,
    {
        if !visited[s] {
            let ghost c0 = components@;
            let ghost v0 = visited@;
            let comp = bfs_from(g, s, &mut visited);
            components.push(comp);
            proof {
                let c1 = components@;
                let last = c0.len() as int;
                assert(c1[last] == comp);
                assert forall|i: int| 0 <= i < c1.len() implies #[trigger] bfs_order(g, c1[i]@) by {
                    if i < last {
                        assert(c1[i] == c0[i]);
                    }
                }
                assert forall|j: int| 0 <= j < c0.len() implies #[trigger] c1[j] == c0[j] by {}
                // covered in the new list: old components, or the new one
                assert forall|x: usize| #[trigger] covered(c1, c1.len() as int, x) <==> (covered(
                    c0,
                    c0.len() as int,
                    x,
                ) || comp@.contains(x)) by {
                    if covered(c1, c1.len() as int, x) {
                        let j = choose|j: int| 0 <= j < c1.len() && #[trigger] c1[j]@.contains(x);
                        if j < last {
                            assert(c0[j]@.contains(x));
                        }
                    }
                    if covered(c0, c0.len() as int, x) {
                        let j = choose|j: int| 0 <= j < c0.len() && #[trigger] c0[j]@.contains(x);
                        assert(c1[j]@.contains(x));
                    }
                    if comp@.contains(x) {
                        assert(c1[last]@.contains(x));
                    }
                }
                assert forall|x: usize| x < n implies (#[trigger] visited@[x as int] <==> covered(
                    c1,
                    c1.len() as int,
                    x,
                )) by {
                    assert(covered(c1, c1.len() as int, x) <==> (covered(c0, c0.len() as int, x)
                        || comp@.contains(x)));
                    assert(v0[x as int] <==> covered(c0, c0.len() as int, x));
                }
                assert forall|a: int| 0 <= a < comp@.len() implies s <= #[trigger] comp@[a] by {
                    if comp@[a] < s {
                        assert(v0[comp@[a] as int]);
                    }
                }
                assert forall|i: int, a: int|
                    0 <= i < c1.len() && 0 <= a < c1[i]@.len() implies #[trigger] c1[i]@[a] < n
                        && c1[i]@[0] <= c1[i]@[a] && g.reachable(c1[i]@[0] as int, c1[i]@[a] as int) by {
                    if i < last {
                        assert(c1[i] == c0[i]);
                    }
                }
                assert forall|i: int, j: int, y: usize|
                    0 <= i < c1.len() && 0 <= j < c1.len() && i != j && #[trigger] c1[i]@.contains(
                        y,
                    ) implies !#[trigger] c1[j]@.contains(y) by {
                    if i == last || j == last {
                        let other = if i == last { j } else { i };
                        assert(c1[other] == c0[other]);
                        if c1[i]@.contains(y) && c1[j]@.contains(y) {
                            assert(c0[other]@.contains(y));
                            assert(covered(c0, c0.len() as int, y));
                            let a = choose|a: int| 0 <= a < comp@.len() && comp@[a] == y;
                            assert(!v0[comp@[a] as int]);
                        }
                    } else {
                        assert(c1[i] == c0[i]);
                        assert(c1[j] == c0[j]);
                    }
                }
                assert forall|i: int, a: int, y: int|
                    0 <= i < c1.len() && 0 <= a < c1[i]@.len() && #[trigger] g.has_edge(
                        c1[i]@[a] as int,
                        y,
                    ) implies covered(c1, i + 1, y as usize) by {
                    if i < last {
                        assert(c1[i] == c0[i]);
                        assert(covered(c0, i + 1, y as usize));
                        let j = choose|j: int| 0 <= j < i + 1 && #[trigger] c0[j]@.contains(y as usize);
                        assert(c1[j] == c0[j]);
                    } else {
                        let x = comp@[a];
                        let k = choose|k: int| 0 <= k < g.adj@[x as int]@.len() && (#[trigger] g.adj@[x as int]@[k]).0 == y;
                        assert(visited@[g.adj@[comp@[a] as int]@[k].0 as int]);
                        assert(y < n);
                        assert(covered(c1, c1.len() as int, y as usize));
                    }
                }
                assert forall|i: int, j: int| 0 <= i < j < c1.len() implies (#[trigger] c1[i])@[0] < (
                #[trigger] c1[j])@[0] by {
                    if j < last {
                        assert(c1[i] == c0[i]);
                        assert(c1[j] == c0[j]);
                    } else {
                        assert(c1[i] == c0[i]);
                    }
                }
            }
        }
        s = s + 1;
    }
    proof {
        let c = components@;
        assert forall|y: usize| y < n implies #[trigger] covered(c, c.len() as int, y) by {
            assert(visited@[y as int]);
        }
        if g.symmetric() {
            assert forall|i: int, y: usize| 0 <= i < c.len() implies (#[trigger] c[i]@.contains(y)
                <==> (y < g.n && g.reachable(c[i]@[0] as int, y as int))) by {
                if c[i]@.contains(y) {
                    let a = choose|a: int| 0 <= a < c[i]@.len() && c[i]@[a] == y;
                    assert(c[i]@[a] < n);
                }
                if y < g.n && g.reachable(c[i]@[0] as int, y as int) {
                    lemma_reach_holds(g, c, i, y as int);
                    let j = choose|j: int| 0 <= j < i + 1 && #[trigger] c[j]@.contains(y);
                    if j < i {
                        // the first vertex of component i would lie in component j
                        let a = choose|a: int| 0 <= a < c[j]@.len() && c[j]@[a] == y;
                        assert(g.reachable(c[j]@[0] as int, y as int));
                        lemma_reach_sym(g, c[i]@[0] as int, y as int);
                        lemma_reach_trans(g, c[j]@[0] as int, y as int, c[i]@[0] as int);
                        lemma_reach_holds(g, c, j, c[i]@[0] as int);
                        let q = choose|q: int| 0 <= q < j + 1 && #[trigger] c[q]@.contains(c[i]@[0]);
                        assert(c[i]@.contains(c[i]@[0]));
                    }
                }
            }
        }
    }
    components
}

/// What the first vertex of component `i` reaches lies in one of the first `i + 1` components.
proof fn lemma_reach_holds<W>(g: &Graph<W>, c: Seq<Vec<usize>>, i: int, y: int)
    requires
        0 <= i < c.len(),
        c[i]@.len() >= 1,
        forall|i2: int, a: int|
            0 <= i2 < c.len() && 0 <= a < c[i2]@.len() ==> #[trigger] c[i2]@[a] < g.n,
        forall|i2: int, a: int, y2: int|
            0 <= i2 < c.len() && 0 <= a < c[i2]@.len() && #[trigger] g.has_edge(c[i2]@[a] as int, y2)
                ==> covered(c, i2 + 1, y2 as usize),
        g.reachable(c[i]@[0] as int, y),
        g.wf(),
    ensures
        0 <= y < g.n,
        covered(c, i + 1, y as usize),
{
    let set = Set::new(|x: int| 0 <= x < g.n && covered(c, i + 1, x as usize));
    assert(c[i]@.contains(c[i]@[0]));
    assert(set.contains(c[i]@[0] as int));
    assert forall|x: int, z: int| set.contains(x) && #[trigger] g.has_edge(x, z) implies set.contains(z) by {
        let j = choose|j: int| 0 <= j < i + 1 && #[trigger] c[j]@.contains(x as usize);
        let a = choose|a: int| 0 <= a < c[j]@.len() && c[j]@[a] == x as usize;
        assert(g.has_edge(c[j]@[a] as int, z));
        let q = choose|q: int| 0 <= q < j + 1 && #[trigger] c[q]@.contains(z as usize);
        let k = choose|k: int| 0 <= k < g.adj@[x]@.len() && (#[trigger] g.adj@[x]@[k]).0 == z;
        assert(z < g.n);
        assert(c[q]@.contains(z as usize));
    }
    lemma_closed_holds_reachable(g, c[i]@[0] as int, y, set);
}

/// The marked vertices.
pub open spec fn vis_set(visited: Seq<bool>) -> Set<int> {
    Set::new(|x: int| 0 <= x < visited.len() && visited[x])
}

proof fn lemma_vis_set(visited: Seq<bool>)
    ensures
        vis_set(visited).finite(),
        vis_set(visited).len() <= visited.len(),
{
    let r = set_int_range(0, visited.len() as int);
    lemma_int_range(0, visited.len() as int);
    assert(vis_set(visited).subset_of(r));
    lemma_len_subset(vis_set(visited), r);
}

/// Marking an unmarked vertex adds one to the count; before it, the count is below the size.
proof fn lemma_vis_mark(visited: Seq<bool>, u: int)
    requires
        0 <= u < visited.len(),
        !visited[u],
    ensures
        vis_set(visited).len() < visited.len(),
        vis_set(visited.update(u, true)) == vis_set(visited).insert(u),
        vis_set(visited.update(u, true)).len() == vis_set(visited).len() + 1,
{
    let r = set_int_range(0, visited.len() as int);
    lemma_int_range(0, visited.len() as int);
    lemma_vis_set(visited);
    assert(vis_set(visited).subset_of(r.remove(u)));
    lemma_len_subset(vis_set(visited), r.remove(u));
    assert(vis_set(visited.update(u, true)) =~= vis_set(visited).insert(u));
}

/// `(a, b)` is an edge of `g` taken in either direction, with `a <= b`.
pub open spec fn ordered_edge<W>(g: &Graph<W>, e: (usize, usize)) -> bool {
    &&& e.0 <= e.1
    &&& g.has_edge(e.0 as int, e.1 as int) || g.has_edge(e.1 as int, e.0 as int)
}

/// Pairs in lexicographic order.
pub open spec fn pair_le(a: (usize, usize), b: (usize, usize)) -> bool {
    a.0 < b.0 || (a.0 == b.0 && a.1 <= b.1)
}

/// The state shared by the depth-first searches of Tarjan's algorithms: arrays of
/// the graph's size, and a timer that counts the visited vertices.
pub open spec fn dfs_state_ok<W>(g: &Graph<W>, disc: Seq<usize>, low: Seq<usize>, timer: usize, visited: Seq<bool>) -> bool {
    &&& disc.len() == g.n
    &&& low.len() == g.n
    &&& visited.len() == g.n
    &&& timer == vis_set(visited).len()
}

/// Sort pairs in increasing lexicographic order.
pub fn sort_pairs(v: &Vec<(usize, usize)>) -> (sorted: Vec<(usize, usize)>)
    ensures
        sorted@.len() == v@.len(),
        sorted@.to_multiset() == v@.to_multiset(),
        forall|x: (usize, usize)| #[trigger] sorted@.contains(x) <==> v@.contains(x),
        forall|i: int, j: int| 0 <= i < j < sorted@.len() ==> pair_le(#[trigger] sorted@[i], #[trigger] sorted@[j]),
{
    let mut sorted: Vec<(usize, usize)> = Vec::new();
    let mut t: usize = 0;
    proof {
        assert(v@.take(0) =~= sorted@);
    }
    while t < v.len()
        invariant
            t <= v@.len(),
            sorted@.len() == t,
            sorted@.to_multiset() == v@.take(t as int).to_multiset(),
            forall|x: (usize, usize)| #[trigger] sorted@.contains(x) <==> v@.take(t as int).contains(x),
            forall|i: int, j: int| 0 <= i < j < sorted@.len() ==> pair_le(#[trigger] sorted@[i], #[trigger] sorted@[j]),
        decreases v@.len() - t,
    {
        let e = v[t];
        let mut p: usize = 0;
        while p < sorted.len() && (sorted[p].0 < e.0 || (sorted[p].0 == e.0 && sorted[p].1 <= e.1))
            invariant
                p <= sorted@.len(),
                forall|i: int| 0 <= i < p ==> pair_le(#[trigger] sorted@[i], e),
            decreases sorted@.len() - p,
        {
            p = p + 1;
        }
        let ghost s0 = sorted@;
        sorted.insert(p, e);
        proof {
            assert(v@.take(t + 1) =~= v@.take(t as int).push(e));
            vstd::seq_lib::to_multiset_insert(s0, p as int, e);
            vstd::seq_lib::to_multiset_build(v@.take(t as int), e);
            assert forall|x: (usize, usize)| #[trigger] sorted@.contains(x) <==> v@.take(t + 1).contains(x) by {
                if sorted@.contains(x) {
                    let i = choose|i: int| 0 <= i < sorted@.len() && sorted@[i] == x;
                    if i < p {
                        assert(s0[i] == x);
                        assert(s0.contains(x));
                    } else if i > p {
                        assert(s0[i - 1] == x);
                        assert(s0.contains(x));
                    }
                    assert(v@.take(t + 1)[t as int] == e);
                    if x != e {
                        let q = choose|q: int| 0 <= q < t && #[trigger] v@.take(t as int)[q] == x;
                        assert(v@.take(t + 1)[q] == x);
                    }
                }
                if v@.take(t + 1).contains(x) {
                    let q = choose|q: int| 0 <= q < t + 1 && #[trigger] v@.take(t + 1)[q] == x;
                    if q < t {
                        assert(v@.take(t as int)[q] == x);
                        assert(s0.contains(x));
                        let i = choose|i: int| 0 <= i < s0.len() && s0[i] == x;
                        if i < p {
                            assert(sorted@[i] == x);
                        } else {
                            assert(sorted@[i + 1] == x);
                        }
                    } else {
                        assert(sorted@[p as int] == x);
                    }
                }
            }
            assert forall|i: int, j: int| 0 <= i < j < sorted@.len() implies pair_le(#[trigger] sorted@[i], #[trigger] sorted@[j]) by {
                if j < p {
                    assert(sorted@[i] == s0[i] && sorted@[j] == s0[j]);
                } else if j == p {
                    assert(sorted@[i] == s0[i]);
                } else if i < p {
                    assert(sorted@[i] == s0[i] && sorted@[j] == s0[j - 1]);
                    assert(!pair_le(s0[p as int], e));
                    if p < j - 1 {
                        assert(pair_le(s0[p as int], s0[j - 1]));
                    }
                } else if i == p {
                    assert(sorted@[j] == s0[j - 1]);
                    assert(!pair_le(s0[p as int], e));
                    if p < j - 1 {
                        assert(pair_le(s0[p as int], s0[j - 1]));
                    }
                } else {
                    assert(sorted@[i] == s0[i - 1] && sorted@[j] == s0[j - 1]);
                }
            }
        }
        t = t + 1;
    }
    proof {
        assert(v@.take(t as int) =~= v@);
    }
    sorted
}

/// Step `i` of `p` follows an edge other than one between `a` and `b`.
pub open spec fn avoid_step<W>(g: &Graph<W>, a: int, b: int, p: Seq<usize>, i: int) -> bool {
    &&& g.step(p, i)
    &&& !((p[i] == a && p[i + 1] == b) || (p[i] == b && p[i + 1] == a))
}

/// `p` is a walk from `x` to `y` that uses no edge between `a` and `b`.
pub open spec fn avoid_walk<W>(g: &Graph<W>, a: int, b: int, p: Seq<usize>, x: int, y: int) -> bool {
    &&& p.len() >= 1
    &&& p[0] == x
    &&& p.last() == y
    &&& forall|i: int| 0 <= i < p.len() ==> #[trigger] p[i] < g.n
    &&& forall|i: int| 0 <= i < p.len() - 1 ==> #[trigger] avoid_step(g, a, b, p, i)
}

/// `y` can be reached from `x` without the edges between `a` and `b`.
pub open spec fn avoid_reach<W>(g: &Graph<W>, a: int, b: int, x: int, y: int) -> bool {
    exists|p: Seq<usize>| #[trigger] avoid_walk(g, a, b, p, x, y)
}

/// The edges between `a` and `b` form a bridge: there is such an edge, and
/// without those edges `b` cannot be reached from `a`.
pub open spec fn is_bridge<W>(g: &Graph<W>, a: int, b: int) -> bool {
    &&& g.has_edge(a, b)
    &&& !avoid_reach(g, a, b, a, b)
}

/// A walk that starts in a set closed under the allowed steps stays in it.
proof fn lemma_avoid_closed<W>(g: &Graph<W>, a: int, b: int, set: Set<int>, x: int, y: int)
    requires
        set.contains(x),
        forall|z: int, w: int|
            set.contains(z) && #[trigger] g.has_edge(z, w) && !((z == a && w == b) || (z == b && w == a))
                ==> set.contains(w),
        avoid_reach(g, a, b, x, y),
    ensures
        set.contains(y),
{
    let p = choose|p: Seq<usize>| #[trigger] avoid_walk(g, a, b, p, x, y);
    lemma_avoid_walk_in(g, a, b, set, p, x, y, p.len() - 1);
}

proof fn lemma_avoid_walk_in<W>(g: &Graph<W>, a: int, b: int, set: Set<int>, p: Seq<usize>, x: int, y: int, i: int)
    requires
        set.contains(x),
        forall|z: int, w: int|
            set.contains(z) && #[trigger] g.has_edge(z, w) && !((z == a && w == b) || (z == b && w == a))
                ==> set.contains(w),
        avoid_walk(g, a, b, p, x, y),
        0 <= i < p.len(),
    ensures
        set.contains(p[i] as int),
    decreases i,
{
    if i > 0 {
        lemma_avoid_walk_in(g, a, b, set, p, x, y, i - 1);
        assert(avoid_step(g, a, b, p, i - 1));
    }
}

/// In a graph whose edges all have reverses, avoiding walks can be reversed.
proof fn lemma_avoid_reverse<W>(g: &Graph<W>, a: int, b: int, x: int, y: int)
    requires
        g.symmetric(),
        avoid_reach(g, a, b, x, y),
    ensures
        avoid_reach(g, a, b, y, x),
{
    let p = choose|p: Seq<usize>| #[trigger] avoid_walk(g, a, b, p, x, y);
    let q = p.reverse();
    let l = p.len() as int;
    assert forall|i: int| 0 <= i < q.len() implies #[trigger] q[i] < g.n by {
        assert(q[i] == p[l - 1 - i]);
    }
    assert forall|i: int| 0 <= i < q.len() - 1 implies #[trigger] avoid_step(g, a, b, q, i) by {
        assert(avoid_step(g, a, b, p, l - 2 - i));
        assert(q[i] == p[l - 1 - i]);
        assert(q[i + 1] == p[l - 2 - i]);
        assert(g.step(p, l - 2 - i));
    }
    assert(avoid_walk(g, a, b, q, y, x));
}

/// Avoiding the edges between `a` and `b` is avoiding those between `b` and `a`.
proof fn lemma_avoid_swap<W>(g: &Graph<W>, a: int, b: int, x: int, y: int)
    requires
        avoid_reach(g, a, b, x, y),
    ensures
        avoid_reach(g, b, a, x, y),
{
    let p = choose|p: Seq<usize>| #[trigger] avoid_walk(g, a, b, p, x, y);
    assert forall|i: int| 0 <= i < p.len() - 1 implies #[trigger] avoid_step(g, b, a, p, i) by {
        assert(avoid_step(g, a, b, p, i));
    }
    assert(avoid_walk(g, b, a, p, x, y));
}

/// Two avoiding walks that meet can be joined.
proof fn lemma_avoid_concat<W>(g: &Graph<W>, a: int, b: int, p: Seq<usize>, q: Seq<usize>, x: int, y: int, z: int)
    requires
        avoid_walk(g, a, b, p, x, y),
        avoid_walk(g, a, b, q, y, z),
    ensures
        avoid_walk(g, a, b, p + q.drop_first(), x, z),
{
    let r = p + q.drop_first();
    let lp = p.len() as int;
    assert forall|i: int| 0 <= i < r.len() implies #[trigger] r[i] < g.n by {
        if i >= lp {
            assert(r[i] == q[i - lp + 1]);
        }
    }
    assert forall|i: int| 0 <= i < r.len() - 1 implies #[trigger] avoid_step(g, a, b, r, i) by {
        if i < lp - 1 {
            assert(avoid_step(g, a, b, p, i));
        } else {
            assert(avoid_step(g, a, b, q, i - lp + 1));
            assert(r[i + 1] == q[i - lp + 2]);
            if i == lp - 1 {
                assert(r[i] == p.last());
            } else {
                assert(r[i] == q[i - lp + 1]);
            }
        }
    }
    if q.len() == 1 {
        assert(r.last() == p.last());
    } else {
        assert(r.last() == q.last());
    }
}

/// A stretch of a path of edges that never runs between `a` and `b` is an avoiding walk.
proof fn lemma_path_avoid<W>(g: &Graph<W>, s: Seq<usize>, i: int, j: int, a: int, b: int)
    requires
        0 <= i <= j < s.len(),
        forall|k: int| 0 <= k < s.len() ==> #[trigger] s[k] < g.n,
        forall|k: int| i <= k < j ==> #[trigger] g.has_edge(s[k] as int, s[k + 1] as int),
        forall|k: int| i <= k < j ==> !((s[k] == a && #[trigger] s[k + 1] == b) || (s[k] == b && s[k + 1] == a)),
    ensures
        avoid_walk(g, a, b, s.subrange(i, j + 1), s[i] as int, s[j] as int),
{
    let p = s.subrange(i, j + 1);
    assert forall|k: int| 0 <= k < p.len() implies #[trigger] p[k] < g.n by {
        assert(p[k] == s[i + k]);
    }
    assert forall|k: int| 0 <= k < p.len() - 1 implies #[trigger] avoid_step(g, a, b, p, k) by {
        assert(p[k] == s[i + k]);
        assert(p[k + 1] == s[i + k + 1]);
        assert(g.has_edge(s[i + k] as int, s[i + k + 1] as int));
    }
}

/// An edge with a detour between its ends that avoids it is no bridge, in
/// either direction.
proof fn lemma_not_bridge<W>(g: &Graph<W>, u: int, v: int)
    requires
        g.symmetric(),
        avoid_reach(g, u, v, v, u),
    ensures
        !is_bridge(g, u, v),
        !is_bridge(g, v, u),
{
    lemma_avoid_reverse(g, u, v, v, u);
    lemma_avoid_swap(g, u, v, v, u);
}

/// A loop at `u` is no bridge.
proof fn lemma_loop_not_bridge<W>(g: &Graph<W>, u: int)
    requires
        0 <= u < g.n,
    ensures
        !is_bridge(g, u, u),
{
    let p = seq![u as usize];
    assert(avoid_walk(g, u, u, p, u, u));
}

/// The edge between `a` and `b` is either a reported bridge or no bridge at all.
pub open spec fn handled<W>(g: &Graph<W>, res: Seq<(usize, usize)>, a: usize, b: usize) -> bool {
    ||| !is_bridge(g, a as int, b as int) && !is_bridge(g, b as int, a as int)
    ||| res.contains(if a <= b { (a, b) } else { (b, a) })
}

/// The witness of a low value: a walk `p` from `u` that stays among the vertices
/// with times in `[from, to]` until its last step, which is no step back to
/// `parent` from `u`, and ends at a vertex with time `lowu` that is `u` itself
/// or one of `anc`.
pub open spec fn low_witness<W>(
    g: &Graph<W>,
    disc: Seq<usize>,
    u: int,
    parent: Option<usize>,
    from: int,
    to: int,
    anc: Seq<usize>,
    lowu: int,
    p: Seq<usize>,
) -> bool {
    &&& p.len() >= 1
    &&& p[0] == u
    &&& disc[p.last() as int] == lowu
    &&& p.last() == u || anc.contains(p.last())
    &&& forall|i: int| 0 <= i < p.len() ==> #[trigger] p[i] < g.n
    &&& forall|i: int| 0 <= i < p.len() - 1 ==> #[trigger] g.step(p, i)
    &&& forall|i: int| 0 <= i < p.len() - 1 ==> from <= #[trigger] disc[p[i] as int] <= to
    &&& p.len() >= 2 && p[p.len() - 2] == u ==> parent != Some(p.last())
}

/// The witness walk of a child `v` of `u` avoids the edges between them.
proof fn lemma_witness_avoids<W>(
    g: &Graph<W>,
    disc: Seq<usize>,
    v: int,
    u: usize,
    from: int,
    to: int,
    anc: Seq<usize>,
    lowv: int,
    p: Seq<usize>,
)
    requires
        low_witness(g, disc, v, Some(u), from, to, anc, lowv, p),
        disc[u as int] < from,
    ensures
        avoid_walk(g, u as int, v, p, v, p.last() as int),
{
    assert forall|i: int| 0 <= i < p.len() - 1 implies #[trigger] avoid_step(g, u as int, v, p, i) by {
        assert(g.step(p, i));
        assert(from <= disc[p[i] as int]);
        if i + 1 < p.len() - 1 {
            assert(from <= disc[p[i + 1] as int]);
        }
    }
}

/// A witness stays one while the times of the vertices it passes stay fixed.
proof fn lemma_witness_frame<W>(
    g: &Graph<W>,
    d1: Seq<usize>,
    d2: Seq<usize>,
    u: int,
    parent: Option<usize>,
    from: int,
    to1: int,
    to2: int,
    anc: Seq<usize>,
    lowu: int,
    p: Seq<usize>,
)
    requires
        low_witness(g, d1, u, parent, from, to1, anc, lowu, p),
        to1 <= to2,
        from >= 1,
        lowu >= 1,
        forall|x: int| 0 <= x < g.n && d1[x] >= 1 ==> #[trigger] d2[x] == d1[x],
    ensures
        low_witness(g, d2, u, parent, from, to2, anc, lowu, p),
{
    assert forall|i: int| 0 <= i < p.len() - 1 implies from <= #[trigger] d2[p[i] as int] <= to2 by {
        assert(from <= d1[p[i] as int]);
        assert(p[i] < g.n);
    }
    assert(p[p.len() - 1] < g.n);
}

/// Extending the witness of a child `v` of `u` by the edge from `u` gives a
/// witness for `u`.
proof fn lemma_child_witness<W>(
    g: &Graph<W>,
    disc: Seq<usize>,
    u: usize,
    parent: Option<usize>,
    v: usize,
    t1: int,
    tc1: int,
    to: int,
    stack: Seq<usize>,
    lowv: int,
    pv: Seq<usize>,
)
    requires
        low_witness(g, disc, v as int, Some(u), tc1, to, stack.push(u), lowv, pv),
        u < g.n,
        disc[u as int] == t1,
        disc[v as int] == tc1,
        t1 < tc1,
        lowv < tc1,
        g.has_edge(u as int, v as int),
    ensures
        low_witness(g, disc, u as int, parent, t1, to, stack, lowv, seq![u] + pv),
{
    let p = seq![u] + pv;
    let w = pv.last();
    let inner = stack.push(u);
    assert(w != v);
    assert(pv.len() >= 2);
    assert(p.last() == w);
    assert(inner.contains(w));
    if w != u {
        let q = choose|q: int| 0 <= q < inner.len() && inner[q] == w;
        assert(q < stack.len());
        assert(stack[q] == w);
    }
    assert forall|i: int| 0 <= i < p.len() implies #[trigger] p[i] < g.n by {
        if i > 0 {
            assert(p[i] == pv[i - 1]);
        }
    }
    assert forall|i: int| 0 <= i < p.len() - 1 implies #[trigger] g.step(p, i) by {
        if i > 0 {
            assert(g.step(pv, i - 1));
            assert(p[i] == pv[i - 1]);
            assert(p[i + 1] == pv[i]);
        } else {
            assert(p[1] == v);
        }
    }
    assert forall|i: int| 0 <= i < p.len() - 1 implies t1 <= #[trigger] disc[p[i] as int] <= to by {
        if i > 0 {
            assert(p[i] == pv[i - 1]);
            assert(tc1 <= disc[pv[i - 1] as int] <= to);
        } else {
            assert(tc1 <= disc[pv[0] as int] <= to);
        }
    }
    assert(p[p.len() - 2] == pv[pv.len() - 2]);
    assert(tc1 <= disc[pv[pv.len() - 2] as int]);
}

/// A tree edge from `u` to its child `v` whose subtree reaches back to `u` or
/// above is no bridge: the witness walk, then the path down the stack to `u`,
/// leads from `v` back to `u` without it.
proof fn lemma_tree_edge_not_bridge<W>(
    g: &Graph<W>,
    disc: Seq<usize>,
    u: usize,
    v: usize,
    from: int,
    to: int,
    inner: Seq<usize>,
    lowv: int,
    pv: Seq<usize>,
)
    requires
        g.symmetric(),
        low_witness(g, disc, v as int, Some(u), from, to, inner, lowv, pv),
        disc[u as int] < from,
        disc[v as int] == from,
        lowv <= disc[u as int],
        inner.len() > 0,
        inner.last() == u,
        !inner.contains(v),
        forall|i: int| 0 <= i < inner.len() ==> #[trigger] inner[i] < g.n,
        forall|i: int| 0 <= i < inner.len() - 1 ==> #[trigger] g.has_edge(inner[i] as int, inner[i + 1] as int),
    ensures
        !is_bridge(g, u as int, v as int),
        !is_bridge(g, v as int, u as int),
{
    let w = pv.last();
    assert(w != v);
    let q = choose|q: int| 0 <= q < inner.len() && inner[q] == w;
    let l = inner.len() - 1;
    assert forall|k: int| q <= k < l implies !((inner[k] == u && #[trigger] inner[k + 1] == v) || (inner[k] == v && inner[k + 1] == u)) by {
        assert(inner.contains(inner[k]));
        assert(inner.contains(inner[k + 1]));
    }
    lemma_path_avoid(g, inner, q, l, u as int, v as int);
    lemma_witness_avoids(g, disc, v as int, u, from, to, inner, lowv, pv);
    let tail = inner.subrange(q, l + 1);
    lemma_avoid_concat(g, u as int, v as int, pv, tail, v as int, w as int, u as int);
    assert(avoid_reach(g, u as int, v as int, v as int, u as int));
    lemma_not_bridge(g, u as int, v as int);
}

/// After the search below a tree edge from `u` to `v`: the edge was reported
/// or is no bridge, every entry of a vertex found since `u` is dealt with, and
/// `u` keeps a witness of its low value.
proof fn lemma_tree_edge_step<W>(
    g: &Graph<W>,
    stack: Seq<usize>,
    parent: Option<usize>,
    u: usize,
    v: usize,
    t1: int,
    tc: int,
    timer: int,
    vc: Seq<bool>,
    visited: Seq<bool>,
    dc: Seq<usize>,
    disc: Seq<usize>,
    rc0: Seq<(usize, usize)>,
    ra: Seq<(usize, usize)>,
    result: Seq<(usize, usize)>,
    luc: int,
    lv: int,
    luf: int,
    pu: Seq<usize>,
)
    requires
        g.wf(),
        g.symmetric(),
        u < g.n,
        v < g.n,
        g.has_edge(u as int, v as int),
        luf == if lv < luc { lv } else { luc },
        vc.len() == g.n,
        visited.len() == g.n,
        dc.len() == g.n,
        disc.len() == g.n,
        !vc[v as int],
        forall|i: int| 0 <= i < stack.push(u).len() ==> #[trigger] stack.push(u)[i] < g.n && vc[stack.push(u)[i] as int],
        forall|i: int| 0 <= i < stack.push(u).len() - 1
            ==> #[trigger] g.has_edge(stack.push(u)[i] as int, stack.push(u)[i + 1] as int),
        disc_ok(g, dc, vc, tc as usize),
        disc_ok(g, disc, visited, timer as usize),
        0 <= tc,
        tc <= timer <= usize::MAX,
        forall|x: int| 0 <= x < g.n && #[trigger] vc[x] ==> visited[x] && disc[x] == dc[x],
        forall|x: int| 0 <= x < g.n && !vc[x] && #[trigger] visited[x] ==> disc[x] > tc,
        dc[u as int] == t1,
        1 <= t1 <= tc,
        disc[v as int] == tc + 1,
        forall|z: int, k2: int|
            0 <= z < g.n && t1 + 1 <= dc[z] <= tc && 0 <= k2 < g.adj@[z]@.len()
                ==> handled(g, rc0, z as usize, (#[trigger] g.adj@[z]@[k2]).0),
        forall|z: int, k: int|
            0 <= z < g.n && tc + 1 <= disc[z] <= timer && 0 <= k < g.adj@[z]@.len()
                && !(z == v && Some(u) == Some(g.adj@[z]@[k].0))
                ==> handled(g, ra, z as usize, (#[trigger] g.adj@[z]@[k]).0),
        exists|p: Seq<usize>| #[trigger] low_witness(g, disc, v as int, Some(u), tc + 1, timer, stack.push(u), lv, p),
        forall|x: (usize, usize)| #[trigger] rc0.contains(x) ==> ra.contains(x),
        forall|x: (usize, usize)| #[trigger] ra.contains(x) ==> result.contains(x),
        lv > t1 ==> result.contains(if u <= v { (u, v) } else { (v, u) }),
        low_witness(g, dc, u as int, parent, t1, tc, stack, luc, pu),
        1 <= luc <= t1,
    ensures
        handled(g, result, u, v),
        forall|z: int, k2: int|
            0 <= z < g.n && t1 + 1 <= disc[z] <= timer && 0 <= k2 < g.adj@[z]@.len()
                ==> handled(g, result, z as usize, (#[trigger] g.adj@[z]@[k2]).0),
        exists|p: Seq<usize>| #[trigger] low_witness(g, disc, u as int, parent, t1, timer, stack, luf, p),
{
    let inner = stack.push(u);
    let pv = choose|p: Seq<usize>| #[trigger] low_witness(g, disc, v as int, Some(u), tc + 1, timer, inner, lv, p);
    assert(!inner.contains(v)) by {
        if inner.contains(v) {
            let q = choose|q: int| 0 <= q < inner.len() && inner[q] == v;
        }
    }
    assert(inner[inner.len() - 1] == u);
    assert(vc[u as int]);
    assert(disc[u as int] == t1);
    if lv <= t1 {
        lemma_tree_edge_not_bridge(g, disc, u, v, tc + 1, timer, inner, lv, pv);
    }
    assert(handled(g, result, u, v));
    assert forall|z: int, k2: int|
        0 <= z < g.n && t1 + 1 <= disc[z] <= timer && 0 <= k2 < g.adj@[z]@.len()
            implies handled(g, result, z as usize, (#[trigger] g.adj@[z]@[k2]).0) by {
        let y = g.adj@[z]@[k2].0;
        assert(visited[z]);
        if disc[z] <= tc {
            assert(vc[z]);
            assert(dc[z] == disc[z]);
            assert(handled(g, rc0, z as usize, y));
        } else {
            assert(handled(g, ra, z as usize, y) || (z == v && y == u));
        }
    }
    assert forall|x: int| 0 <= x < g.n && dc[x] >= 1 implies #[trigger] disc[x] == dc[x] by {
        assert(vc[x]);
    }
    if lv < luc {
        lemma_child_witness(g, disc, u, parent, v, t1, tc + 1, timer, stack, lv, pv);
        assert(low_witness(g, disc, u as int, parent, t1, timer, stack, lv, seq![u] + pv));
    } else {
        lemma_witness_frame(g, dc, disc, u as int, parent, t1, tc, timer, stack, luc, pu);
        assert(low_witness(g, disc, u as int, parent, t1, timer, stack, luc, pu));
    }
}

/// An entry of `u` to an already visited `y` other than its parent is no
/// bridge, or was reported: a `y` found earlier is an ancestor on the stack
/// (a later one would have reached `u` first), and the stack leads back from
/// it to `u`; a `y` found later lies below `u`, where its own entry to `u`
/// was dealt with.
proof fn lemma_back_edge_handled<W>(
    g: &Graph<W>,
    stack: Seq<usize>,
    parent: Option<usize>,
    u: usize,
    y: usize,
    v0: Seq<bool>,
    visited: Seq<bool>,
    disc: Seq<usize>,
    t1: int,
    timer: int,
    result: Seq<(usize, usize)>,
)
    requires
        g.wf(),
        g.symmetric(),
        u < g.n,
        y < g.n,
        v0.len() == g.n,
        visited.len() == g.n,
        g.has_edge(u as int, y as int),
        parent != Some(y),
        visited[y as int],
        1 <= disc[y as int] <= timer,
        disc[u as int] == t1,
        !v0[u as int],
        forall|x: int| 0 <= x < g.n && #[trigger] v0[x] ==> visited[x] && disc[x] < t1,
        forall|x: int| 0 <= x < g.n && !v0[x] && #[trigger] visited[x] ==> disc[x] >= t1,
        forall|x: int| 0 <= x < g.n && !v0[x] && #[trigger] visited[x] && x != u ==> disc[x] > t1,
        forall|i: int| 0 <= i < stack.len() ==> #[trigger] stack[i] < g.n && v0[stack[i] as int],
        forall|i: int| 0 <= i < stack.len() - 1 ==> #[trigger] g.has_edge(stack[i] as int, stack[i + 1] as int),
        stack.len() > 0 ==> parent == Some(stack.last()),
        parent matches Some(p) ==> g.has_edge(p as int, u as int),
        finished_closed(g, v0, stack, -1),
        forall|z: int, k2: int|
            0 <= z < g.n && t1 + 1 <= disc[z] <= timer && 0 <= k2 < g.adj@[z]@.len()
                ==> handled(g, result, z as usize, (#[trigger] g.adj@[z]@[k2]).0),
    ensures
        handled(g, result, u, y),
        disc[y as int] < t1 ==> stack.contains(y),
{
    if disc[y as int] < t1 {
        assert(v0[y as int]);
        if !stack.contains(y) {
            assert(g.has_edge(y as int, u as int));
            let kk = choose|kk: int| 0 <= kk < g.adj@[y as int]@.len() && (#[trigger] g.adj@[y as int]@[kk]).0 == u;
            assert(v0[g.adj@[y as int]@[kk].0 as int]);
        }
        let q = choose|q: int| 0 <= q < stack.len() && stack[q] == y;
        let inner = stack.push(u);
        let l = inner.len() - 1;
        assert forall|i: int| 0 <= i < inner.len() implies #[trigger] inner[i] < g.n by {
            if i < stack.len() {
                assert(inner[i] == stack[i]);
            }
        }
        assert forall|k: int| q <= k < l implies #[trigger] g.has_edge(inner[k] as int, inner[k + 1] as int) by {
            assert(inner[k] == stack[k]);
            if k + 1 < l {
                assert(inner[k + 1] == stack[k + 1]);
            }
        }
        assert forall|k: int| q <= k < l implies !((inner[k] == u && #[trigger] inner[k + 1] == y) || (inner[k] == y && inner[k + 1] == u)) by {
            assert(inner[k] == stack[k]);
            assert(v0[stack[k] as int]);
            if k + 1 < l {
                assert(inner[k + 1] == stack[k + 1]);
                assert(v0[stack[k + 1] as int]);
            }
        }
        lemma_path_avoid(g, inner, q, l, u as int, y as int);
        assert(inner[q] == y);
        assert(avoid_reach(g, u as int, y as int, y as int, u as int));
        lemma_not_bridge(g, u as int, y as int);
    } else if disc[y as int] == t1 {
        assert(y == u) by {
            if y != u {
                if v0[y as int] {
                } else {
                }
            }
        }
        lemma_loop_not_bridge(g, u as int);
    } else {
        assert(g.has_edge(y as int, u as int));
        let kk = choose|kk: int| 0 <= kk < g.adj@[y as int]@.len() && (#[trigger] g.adj@[y as int]@[kk]).0 == u;
        assert(handled(g, result, y, g.adj@[y as int]@[kk].0));
    }
}

/// Discovery times: a vertex is visited exactly when it has a positive time, no
/// time exceeds the timer, and the vertices on `stack` were visited.
pub open spec fn disc_ok<W>(g: &Graph<W>, disc: Seq<usize>, visited: Seq<bool>, timer: usize) -> bool {
    &&& forall|x: int| 0 <= x < g.n ==> (#[trigger] visited[x] <==> disc[x] >= 1)
    &&& forall|x: int| 0 <= x < g.n ==> #[trigger] disc[x] <= timer
}

/// Every visited vertex off the stack (and other than `cur`) has all its
/// out-neighbours visited.
pub open spec fn finished_closed<W>(g: &Graph<W>, visited: Seq<bool>, stack: Seq<usize>, cur: int) -> bool {
    forall|x: int, k: int|
        0 <= x < g.n && visited[x] && !stack.contains(x as usize) && x != cur && 0 <= k < g.adj@[x]@.len()
            ==> visited[(#[trigger] g.adj@[x]@[k]).0 as int]
}

/// Every entry of a vertex whose time lies in `[from, to]` leads to a vertex whose
/// time lies in `[1, to]` and is at least `from` or at least `lowest`, or is the
/// skipped entry of `top` back to `skip`.
pub open spec fn subtree_edges<W>(
    g: &Graph<W>,
    disc: Seq<usize>,
    from: int,
    to: int,
    lowest: int,
    top: int,
    skip: Option<usize>,
) -> bool {
    forall|z: int, k: int|
        0 <= z < g.n && from <= disc[z] <= to && 0 <= k < g.adj@[z]@.len() ==> {
            let y = (#[trigger] g.adj@[z]@[k]).0 as int;
            &&& 1 <= disc[y] <= to
            &&& disc[y] >= from || disc[y] >= lowest || (z == top && skip == Some(y as usize))
        }
}

#[verifier::rlimit(60)]
#[verifier::spinoff_prover]
fn bridge_dfs<W>(
    g: &Graph<W>,
    u: usize,
    parent: Option<usize>,
    disc: &mut Vec<usize>,
    low: &mut Vec<usize>,
    timer: &mut usize,
    visited: &mut Vec<bool>,
    result: &mut Vec<(usize, usize)>,
    Ghost(stack): Ghost<Seq<usize>>,
)
    requires
        g.wf(),
        u < g.n,
        !old(visited)@[u as int],
        dfs_state_ok(g, old(disc)@, old(low)@, *old(timer), old(visited)@),
        disc_ok(g, old(disc)@, old(visited)@, *old(timer)),
        forall|i: int| 0 <= i < stack.len() ==> #[trigger] stack[i] < g.n && old(visited)@[stack[i] as int],
        parent matches Some(p) ==> stack.len() > 0 && stack.last() == p && g.has_edge(p as int, u as int),
        stack.len() > 0 ==> parent == Some(stack.last()),
        forall|i: int| 0 <= i < stack.len() - 1 ==> #[trigger] g.has_edge(stack[i] as int, stack[i + 1] as int),
        finished_closed(g, old(visited)@, stack, -1),
        forall|i: int| 0 <= i < old(result)@.len() ==> ordered_edge(g, #[trigger] old(result)@[i]),
        g.symmetric() ==> forall|i: int| 0 <= i < old(result)@.len() ==> is_bridge(g, (#[trigger] old(result)@[i]).0 as int, old(result)@[i].1 as int),
        forall|i: int| 0 <= i < old(result)@.len() ==> old(visited)@[(#[trigger] old(result)@[i]).0 as int] && old(visited)@[old(result)@[i].1 as int],
        old(result)@.no_duplicates(),
    ensures
        dfs_state_ok(g, final(disc)@, final(low)@, *final(timer), final(visited)@),
        disc_ok(g, final(disc)@, final(visited)@, *final(timer)),
        *final(timer) > *old(timer),
        final(visited)@[u as int],
        final(disc)@[u as int] == *old(timer) + 1,
        forall|x: int| 0 <= x < g.n && #[trigger] old(visited)@[x] ==> final(visited)@[x]
            && final(disc)@[x] == old(disc)@[x] && final(low)@[x] == old(low)@[x],
        forall|x: int| 0 <= x < g.n && !old(visited)@[x] && #[trigger] final(visited)@[x] ==> final(disc)@[x] > *old(timer),
        finished_closed(g, final(visited)@, stack, -1),
        subtree_edges(g, final(disc)@, *old(timer) + 1, *final(timer) as int, final(low)@[u as int] as int, u as int, parent),
        forall|i: int| 0 <= i < final(result)@.len() ==> ordered_edge(g, #[trigger] final(result)@[i]),
        g.symmetric() ==> forall|i: int| 0 <= i < final(result)@.len() ==> is_bridge(g, (#[trigger] final(result)@[i]).0 as int, final(result)@[i].1 as int),
        forall|x: (usize, usize)| #[trigger] old(result)@.contains(x) ==> final(result)@.contains(x),
        forall|i: int| 0 <= i < final(result)@.len() ==> final(visited)@[(#[trigger] final(result)@[i]).0 as int] && final(visited)@[final(result)@[i].1 as int],
        old(result)@.len() <= final(result)@.len(),
        final(result)@.take(old(result)@.len() as int) == old(result)@,
        forall|i: int| old(result)@.len() <= i < final(result)@.len() ==> final(disc)@[(#[trigger] final(result)@[i]).0 as int] > *old(timer) && final(disc)@[final(result)@[i].1 as int] > *old(timer),
        final(result)@.no_duplicates(),
        final(low)@[u as int] >= 1,
        g.symmetric() ==> forall|z: int, k: int|
            0 <= z < g.n && *old(timer) + 1 <= final(disc)@[z] <= *final(timer) && 0 <= k < g.adj@[z]@.len()
                && !(z == u && parent == Some(g.adj@[z]@[k].0))
                ==> handled(g, final(result)@, z as usize, (#[trigger] g.adj@[z]@[k]).0),
        g.symmetric() ==> exists|p: Seq<usize>|
            #[trigger] low_witness(g, final(disc)@, u as int, parent, *old(timer) + 1, *final(timer) as int, stack, final(low)@[u as int] as int, p),
    decreases g.n - *old(timer),
{
    let ghost v0 = visited@;
    let ghost d0 = disc@;
    let ghost l0 = low@;
    let ghost tm0 = *timer;
    let ghost r0 = result@;
    proof {
        lemma_vis_mark(visited@, u as int);
    }
    visited.set(u, true);
    *timer = *timer + 1;
    disc.set(u, *timer);
    low.set(u, *timer);
    let ghost t1 = *timer;
    let ghost inner = stack.push(u);
    proof {
        assert(r0.take(r0.len() as int) =~= r0);
        assert forall|i: int| 0 <= i < result@.len() implies visited@[(#[trigger] result@[i]).0 as int] && visited@[result@[i].1 as int] by {
            assert(v0[result@[i].0 as int] && v0[result@[i].1 as int]);
        }
        assert(low_witness(g, disc@, u as int, parent, t1 as int, *timer as int, stack, low@[u as int] as int, seq![u]));
        assert forall|x: int, k: int|
            0 <= x < g.n && visited@[x] && !stack.contains(x as usize) && x != u && 0 <= k < g.adj@[x]@.len()
                implies visited@[(#[trigger] g.adj@[x]@[k]).0 as int] by {
            assert(g.adj@[x]@[k].0 < g.n);
        }
    }
    let mut k: usize = 0;
    while k < g.adj[u].len()
        invariant
            g.wf(),
            u < g.n,
            t1 == tm0 + 1,
            tm0 == *old(timer),
            v0 == old(visited)@,
            d0 == old(disc)@,
            l0 == old(low)@,
            visited@[u as int],
            disc@[u as int] == t1,
            low@[u as int] <= t1,
            dfs_state_ok(g, disc@, low@, *timer, visited@),
            disc_ok(g, disc@, visited@, *timer),
            *timer >= t1,
            forall|i: int| 0 <= i < stack.len() ==> #[trigger] stack[i] < g.n && v0[stack[i] as int],
            parent matches Some(p) ==> stack.len() > 0 && stack.last() == p,
            inner == stack.push(u),
            disc_ok(g, d0, v0, tm0),
            !v0[u as int],
            forall|x: int| 0 <= x < g.n && #[trigger] v0[x] ==> visited@[x] && disc@[x] == d0[x] && low@[x] == l0[x],
            forall|x: int| 0 <= x < g.n && !v0[x] && #[trigger] visited@[x] ==> disc@[x] > tm0,
            forall|x: int| 0 <= x < g.n && !v0[x] && #[trigger] visited@[x] && x != u ==> disc@[x] > t1,
            forall|x: int, k2: int|
                0 <= x < g.n && visited@[x] && !stack.contains(x as usize) && x != u && 0 <= k2 < g.adj@[x]@.len()
                    ==> visited@[(#[trigger] g.adj@[x]@[k2]).0 as int],
            forall|j: int| 0 <= j < k ==> visited@[(#[trigger] g.adj@[u as int]@[j]).0 as int],
            forall|j: int| 0 <= j < k ==> {
                let y = (#[trigger] g.adj@[u as int]@[j]).0 as int;
                &&& 1 <= disc@[y] <= *timer
                &&& disc@[y] >= t1 || disc@[y] >= low@[u as int] || parent == Some(y as usize)
            },
            subtree_edges(g, disc@, t1 + 1, *timer as int, low@[u as int] as int, -1, None),
            forall|i: int| 0 <= i < result@.len() ==> ordered_edge(g, #[trigger] result@[i]),
            g.symmetric() ==> forall|i: int| 0 <= i < result@.len() ==> is_bridge(g, (#[trigger] result@[i]).0 as int, result@[i].1 as int),
            k <= g.adj@[u as int]@.len(),
            finished_closed(g, v0, stack, -1),
            parent matches Some(p) ==> g.has_edge(p as int, u as int),
            stack.len() > 0 ==> parent == Some(stack.last()),
            forall|i: int| 0 <= i < stack.len() - 1 ==> #[trigger] g.has_edge(stack[i] as int, stack[i + 1] as int),
            low@[u as int] >= 1,
            r0 == old(result)@,
            v0.len() == g.n,
            forall|x: (usize, usize)| #[trigger] r0.contains(x) ==> result@.contains(x),
            forall|i: int| 0 <= i < result@.len() ==> visited@[(#[trigger] result@[i]).0 as int] && visited@[result@[i].1 as int],
            r0.len() <= result@.len(),
            result@.take(r0.len() as int) == r0,
            forall|i: int| r0.len() <= i < result@.len() ==> disc@[(#[trigger] result@[i]).0 as int] > tm0 && disc@[result@[i].1 as int] > tm0,
            result@.no_duplicates(),
            g.symmetric() ==> forall|z: int, k2: int|
                0 <= z < g.n && t1 + 1 <= disc@[z] <= *timer && 0 <= k2 < g.adj@[z]@.len()
                    ==> handled(g, result@, z as usize, (#[trigger] g.adj@[z]@[k2]).0),
            g.symmetric() ==> forall|j: int|
                0 <= j < k && parent != Some((#[trigger] g.adj@[u as int]@[j]).0)
                    ==> handled(g, result@, u, g.adj@[u as int]@[j].0),
            g.symmetric() ==> exists|p: Seq<usize>|
                #[trigger] low_witness(g, disc@, u as int, parent, t1 as int, *timer as int, stack, low@[u as int] as int, p),
        decreases g.adj@[u as int]@.len() - k,
    {
        let v = g.adj[u][k].0;
        proof {
            assert(g.adj@[u as int]@[k as int].0 < g.n);
        }
        let is_parent = match parent {
            Some(p) => p == v,
            None => false,
        };
        if !is_parent {
            if visited[v] {
                proof {
                    if g.symmetric() {
                        assert(g.has_edge(u as int, v as int));
                        assert forall|x: int| 0 <= x < g.n && #[trigger] v0[x] implies visited@[x] && disc@[x] < t1 by {
                            assert(d0[x] <= tm0);
                        }
                        lemma_back_edge_handled(g, stack, parent, u, v, v0, visited@, disc@, t1 as int, *timer as int, result@);
                    }
                }
                if disc[v] < low[u] {
                    low.set(u, disc[v]);
                    proof {
                        if g.symmetric() {
                            assert(low_witness(g, disc@, u as int, parent, t1 as int, *timer as int, stack, low@[u as int] as int, seq![u, v]));
                        }
                    }
                }
            } else {
                proof {
                    lemma_vis_mark(visited@, v as int);
                }
                let ghost tc = *timer;
                let ghost vc = visited@;
                let ghost dc = disc@;
                let ghost lc = low@;
                let ghost luc = low@[u as int];
                proof {
                    assert(subtree_edges(g, dc, t1 + 1, tc as int, luc as int, -1, None));
                    assert forall|i: int| 0 <= i < inner.len() implies #[trigger] inner[i] < g.n && vc[inner[i] as int] by {
                        if i < stack.len() {
                            assert(inner[i] == stack[i]);
                            assert(v0[stack[i] as int]);
                        }
                    }
                    assert forall|x: int, k2: int|
                        0 <= x < g.n && vc[x] && !inner.contains(x as usize) && x != -1 && 0 <= k2 < g.adj@[x]@.len()
                            implies vc[(#[trigger] g.adj@[x]@[k2]).0 as int] by {
                        assert(inner[stack.len() as int] == u);
                        if stack.contains(x as usize) {
                            let q = choose|q: int| 0 <= q < stack.len() && stack[q] == x as usize;
                            assert(inner[q] == x);
                        }
                    }
                }
                let ghost rc0 = result@;
                let ghost pu = choose|p: Seq<usize>| #[trigger] low_witness(g, dc, u as int, parent, t1 as int, tc as int, stack, luc as int, p);
                proof {
                    assert forall|i: int| 0 <= i < inner.len() - 1 implies #[trigger] g.has_edge(inner[i] as int, inner[i + 1] as int) by {
                        assert(inner[i] == stack[i]);
                        if i + 1 < stack.len() {
                            assert(inner[i + 1] == stack[i + 1]);
                        }
                    }
                }
                bridge_dfs(g, v, Some(u), disc, low, timer, visited, result, Ghost(inner));
                let ghost ra = result@;
                let ghost lv = low@[v as int];
                proof {
                    assert(ra.take(r0.len() as int) =~= r0) by {
                        assert forall|i: int| 0 <= i < r0.len() implies ra[i] == r0[i] by {
                            assert(ra.take(rc0.len() as int)[i] == rc0[i]);
                            assert(rc0.take(r0.len() as int)[i] == r0[i]);
                        }
                    }
                    assert forall|i: int| r0.len() <= i < ra.len() implies disc@[(#[trigger] ra[i]).0 as int] > tm0 && disc@[ra[i].1 as int] > tm0 by {
                        if i < rc0.len() {
                            assert(ra.take(rc0.len() as int)[i] == rc0[i]);
                            assert(vc[rc0[i].0 as int] && vc[rc0[i].1 as int]);
                            assert(dc[rc0[i].0 as int] > tm0 && dc[rc0[i].1 as int] > tm0);
                        }
                    }
                    assert forall|x: int| 0 <= x < g.n && #[trigger] v0[x] implies visited@[x] && disc@[x] == d0[x] && low@[x] == l0[x] by {
                        assert(vc[x]);
                    }
                    assert forall|x: int| 0 <= x < g.n && !v0[x] && #[trigger] visited@[x] implies disc@[x] > tm0 by {
                        if vc[x] {
                            assert(dc[x] > tm0);
                        }
                    }
                    assert forall|x: int, k2: int|
                        0 <= x < g.n && visited@[x] && !stack.contains(x as usize) && x != u && 0 <= k2 < g.adj@[x]@.len()
                            implies visited@[(#[trigger] g.adj@[x]@[k2]).0 as int] by {
                        if !inner.contains(x as usize) {
                        } else {
                            let q = choose|q: int| 0 <= q < inner.len() && inner[q] == x as usize;
                            if q < stack.len() {
                                assert(stack[q] == x);
                            }
                        }
                    }
                    assert forall|j: int| 0 <= j < k implies visited@[(#[trigger] g.adj@[u as int]@[j]).0 as int] by {
                        assert(vc[g.adj@[u as int]@[j].0 as int]);
                    }
                    assert(disc@[u as int] == t1);
                    assert forall|x: int| 0 <= x < g.n && !v0[x] && #[trigger] visited@[x] && x != u implies disc@[x] > t1 by {
                        if vc[x] {
                            assert(dc[x] > t1);
                        }
                    }
                }
                if low[v] < low[u] {
                    low.set(u, low[v]);
                }
                proof {
                    assert forall|z: int, k2: int|
                        0 <= z < g.n && t1 + 1 <= disc@[z] <= *timer && 0 <= k2 < g.adj@[z]@.len() implies {
                            let y = (#[trigger] g.adj@[z]@[k2]).0 as int;
                            &&& 1 <= disc@[y] <= *timer
                            &&& disc@[y] >= t1 + 1 || disc@[y] >= low@[u as int] || (z == -1 && None::<usize> == Some(y as usize))
                        } by {
                        let y = g.adj@[z]@[k2].0 as int;
                        assert(y < g.n);
                        if disc@[z] <= tc {
                            assert(visited@[z]);
                            assert(vc[z]) by {
                                if !vc[z] {
                                    assert(disc@[z] > tc);
                                }
                            }
                            assert(dc[z] == disc@[z]);
                            assert(1 <= dc[y] <= tc);
                            assert(vc[y]);
                            assert(disc@[y] == dc[y]);
                        } else {
                            assert(tc + 1 <= disc@[z]);
                        }
                    }
                    assert forall|j: int| 0 <= j < k + 1 implies {
                        let y = (#[trigger] g.adj@[u as int]@[j]).0 as int;
                        &&& 1 <= disc@[y] <= *timer
                        &&& disc@[y] >= t1 || disc@[y] >= low@[u as int] || parent == Some(y as usize)
                    } by {
                        let y = g.adj@[u as int]@[j].0 as int;
                        if j < k {
                            assert(vc[y]);
                            assert(disc@[y] == dc[y]);
                        }
                    }
                }
                if low[v] > disc[u] {
                    let a = if u < v { u } else { v };
                    let b = if u < v { v } else { u };
                    proof {
                        assert(g.has_edge(u as int, v as int));
                        if g.symmetric() {
                            // the vertices found below v are closed under every edge but those to u
                            let set = Set::new(|z: int| 0 <= z < g.n && tc + 1 <= disc@[z] <= *timer);
                            assert forall|z: int, w: int|
                                set.contains(z) && #[trigger] g.has_edge(z, w) && !((z == v && w == u) || (z == u && w == v))
                                    implies set.contains(w) by {
                                let kk = choose|kk: int| 0 <= kk < g.adj@[z]@.len() && (#[trigger] g.adj@[z]@[kk]).0 == w;
                                assert(g.adj@[z]@[kk].0 == w);
                                assert(1 <= disc@[w] <= *timer);
                                if disc@[w] < tc + 1 {
                                    // w was visited before v, after u: it was finished, so z was visited before v
                                    assert(disc@[w] >= lv);
                                    assert(vc[w]) by {
                                        if !vc[w] {
                                            assert(visited@[w]);
                                        }
                                    }
                                    assert(dc[w] == disc@[w]);
                                    assert(!inner.contains(w as usize)) by {
                                        if inner.contains(w as usize) {
                                            let q = choose|q: int| 0 <= q < inner.len() && inner[q] == w as usize;
                                            if q < stack.len() {
                                                assert(inner[q] == stack[q]);
                                                assert(v0[stack[q] as int]);
                                                assert(d0[w] <= tm0);
                                                assert(disc@[w] == d0[w]);
                                            } else {
                                                assert(inner[q] == u);
                                            }
                                        }
                                    }
                                    assert(g.has_edge(w, z));
                                    let kw = choose|kw: int| 0 <= kw < g.adj@[w]@.len() && (#[trigger] g.adj@[w]@[kw]).0 == z;
                                    assert(vc[g.adj@[w]@[kw].0 as int]);
                                    assert(vc[z]);
                                    assert(disc@[z] == dc[z]);
                                }
                            }
                            assert(set.contains(v as int));
                            if avoid_reach(g, u as int, v as int, v as int, u as int) {
                                lemma_avoid_closed(g, u as int, v as int, set, v as int, u as int);
                            }
                            if avoid_reach(g, u as int, v as int, u as int, v as int) {
                                lemma_avoid_reverse(g, u as int, v as int, u as int, v as int);
                                lemma_avoid_closed(g, u as int, v as int, set, v as int, u as int);
                            }
                            assert(g.has_edge(v as int, u as int));
                        }
                    }
                    let ghost rc = result@;
                    proof {
                        assert(!ra.contains((a, b))) by {
                            if ra.contains((a, b)) {
                                let i = choose|i: int| 0 <= i < ra.len() && ra[i] == (a, b);
                                if i < rc0.len() {
                                    assert(ra.take(rc0.len() as int)[i] == rc0[i]);
                                    assert(vc[rc0[i].0 as int] && vc[rc0[i].1 as int]);
                                    assert(!vc[v as int]);
                                } else {
                                    assert(disc@[ra[i].0 as int] > tc && disc@[ra[i].1 as int] > tc);
                                    assert(disc@[u as int] == t1);
                                }
                            }
                        }
                    }
                    result.push((a, b));
                    proof {
                        assert(result@.take(r0.len() as int) =~= r0) by {
                            assert forall|i: int| 0 <= i < r0.len() implies result@[i] == r0[i] by {
                                assert(result@[i] == rc[i]);
                                assert(rc.take(r0.len() as int)[i] == r0[i]);
                            }
                        }
                        assert forall|i: int| 0 <= i < result@.len() implies visited@[(#[trigger] result@[i]).0 as int] && visited@[result@[i].1 as int] by {
                            if i < rc.len() {
                                assert(result@[i] == rc[i]);
                            }
                        }
                        assert forall|i: int| r0.len() <= i < result@.len() implies disc@[(#[trigger] result@[i]).0 as int] > tm0 && disc@[result@[i].1 as int] > tm0 by {
                            if i < rc.len() {
                                assert(result@[i] == rc[i]);
                            }
                        }
                        assert(result@.no_duplicates()) by {
                            assert forall|i: int, j: int| 0 <= i < j < result@.len() implies result@[i] != result@[j] by {
                                assert(result@[i] == rc[i]);
                                if j < rc.len() {
                                    assert(result@[j] == rc[j]);
                                } else {
                                    assert(rc.contains(rc[i]));
                                }
                            }
                        }
                        assert forall|i: int| 0 <= i < result@.len() implies ordered_edge(g, #[trigger] result@[i]) by {
                            if i < result@.len() - 1 {
                                assert(result@[i] == rc[i]);
                            }
                        }
                        if g.symmetric() {
                            assert forall|i: int| 0 <= i < result@.len() implies is_bridge(g, (#[trigger] result@[i]).0 as int, result@[i].1 as int) by {
                                if i < result@.len() - 1 {
                                    assert(result@[i] == rc[i]);
                                } else {
                                    assert(result@[i] == (a, b));
                                    if a != u {
                                        assert(g.has_edge(v as int, u as int));
                                        if avoid_reach(g, v as int, u as int, v as int, u as int) {
                                            assert forall|p: Seq<usize>| #[trigger] avoid_walk(g, v as int, u as int, p, v as int, u as int)
                                                implies avoid_walk(g, u as int, v as int, p, v as int, u as int) by {
                                                assert forall|j: int| 0 <= j < p.len() - 1 implies #[trigger] avoid_step(g, u as int, v as int, p, j) by {
                                                    assert(avoid_step(g, v as int, u as int, p, j));
                                                }
                                            }
                                            let p = choose|p: Seq<usize>| #[trigger] avoid_walk(g, v as int, u as int, p, v as int, u as int);
                                            assert(avoid_walk(g, u as int, v as int, p, v as int, u as int));
                                        }
                                    }
                                }
                            }
                        }
                    }
                }
                proof {
                    assert forall|x: (usize, usize)| #[trigger] ra.contains(x) implies result@.contains(x) by {
                        if ra.contains(x) {
                            let i = choose|i: int| 0 <= i < ra.len() && ra[i] == x;
                            assert(result@[i] == x);
                        }
                    }
                    assert forall|x: (usize, usize)| #[trigger] r0.contains(x) implies result@.contains(x) by {
                        if r0.contains(x) {
                            assert(rc0.contains(x));
                            assert(ra.contains(x));
                        }
                    }
                    if g.symmetric() {
                        if lv > t1 {
                            let pair = if u <= v { (u, v) } else { (v, u) };
                            assert(result@[result@.len() - 1] == pair);
                            assert(result@.contains(pair));
                        }
                        lemma_tree_edge_step(g, stack, parent, u, v, t1 as int, tc as int, *timer as int, vc, visited@, dc, disc@,
                            rc0, ra, result@, luc as int, lv as int, low@[u as int] as int, pu);
                    }
                }
            }
        }
        k = k + 1;
    }
    proof {
        assert forall|z: int, k2: int|
            0 <= z < g.n && t1 <= disc@[z] <= *timer && 0 <= k2 < g.adj@[z]@.len() implies {
                let y = (#[trigger] g.adj@[z]@[k2]).0 as int;
                &&& 1 <= disc@[y] <= *timer
                &&& disc@[y] >= t1 || disc@[y] >= low@[u as int] || (z == u && parent == Some(y as usize))
            } by {
            if z != u {
                assert(visited@[z]);
                if v0[z] {
                    assert(d0[z] <= tm0);
                }
                assert(disc@[z] > t1);
            }
        }
    }
}

/// Find bridges using Tarjan's algorithm. Returns list of (u, v) bridges.
pub fn bridges<W>(g: &Graph<W>) -> (result: Vec<(usize, usize)>)
    requires
        g.wf(),
    ensures
        forall|i: int| 0 <= i < result@.len() ==> ordered_edge(g, #[trigger] result@[i]),
        forall|i: int, j: int| 0 <= i < j < result@.len() ==> pair_le(#[trigger] result@[i], #[trigger] result@[j]),
        result@.no_duplicates(),
        g.symmetric() ==> forall|i: int| 0 <= i < result@.len() ==> is_bridge(g, (#[trigger] result@[i]).0 as int, result@[i].1 as int),
        g.symmetric() ==> forall|a: usize, b: usize| a <= b && #[trigger] is_bridge(g, a as int, b as int) ==> result@.contains((a, b)),
{
    let n = g.n;
    let mut disc = filled_usize(n, 0);
    let mut low = filled_usize(n, 0);
    let mut timer: usize = 0;
    let mut result: Vec<(usize, usize)> = Vec::new();
    let mut visited = falses(n);
    proof {
        assert(vis_set(visited@) =~= Set::<int>::empty());
    }
    let mut i: usize = 0;
    while i < n
        invariant
            g.wf(),
            n == g.n,
            i <= n,
            dfs_state_ok(g, disc@, low@, timer, visited@),
            disc_ok(g, disc@, visited@, timer),
            finished_closed(g, visited@, Seq::<usize>::empty(), -1),
            forall|j: int| 0 <= j < result@.len() ==> ordered_edge(g, #[trigger] result@[j]),
            g.symmetric() ==> forall|j: int| 0 <= j < result@.len() ==> is_bridge(g, (#[trigger] result@[j]).0 as int, result@[j].1 as int),
            forall|j: int| 0 <= j < result@.len() ==> visited@[(#[trigger] result@[j]).0 as int] && visited@[result@[j].1 as int],
            result@.no_duplicates(),
            forall|j: int| 0 <= j < i ==> #[trigger] visited@[j],
            g.symmetric() ==> forall|z: int, k: int|
                0 <= z < g.n && visited@[z] && 0 <= k < g.adj@[z]@.len()
                    ==> handled(g, result@, z as usize, (#[trigger] g.adj@[z]@[k]).0),
        decreases n - i,
    {
        if !visited[i] {
            let ghost v1 = visited@;
            let ghost r1 = result@;
            let ghost t1 = timer;
            bridge_dfs(g, i, None, &mut disc, &mut low, &mut timer, &mut visited, &mut result, Ghost(Seq::<usize>::empty()));
            proof {
                assert forall|j: int| 0 <= j < i implies #[trigger] visited@[j] by {
                    assert(v1[j]);
                }
                if g.symmetric() {
                    assert forall|z: int, k: int|
                        0 <= z < g.n && visited@[z] && 0 <= k < g.adj@[z]@.len()
                            implies handled(g, result@, z as usize, (#[trigger] g.adj@[z]@[k]).0) by {
                        if v1[z] {
                            assert(handled(g, r1, z as usize, g.adj@[z]@[k].0));
                        } else {
                            assert(t1 + 1 <= disc@[z] <= timer);
                        }
                    }
                }
            }
        }
        i = i + 1;
    }
    let sorted = sort_pairs(&result);
    proof {
        result@.unique_seq_to_set();
        assert(sorted@.to_set() =~= result@.to_set()) by {
            assert forall|x: (usize, usize)| sorted@.to_set().contains(x) <==> result@.to_set().contains(x) by {
                assert(sorted@.contains(x) <==> result@.contains(x));
            }
        }
        sorted@.lemma_no_dup_set_cardinality();
        if g.symmetric() {
            assert forall|a: usize, b: usize| a <= b && #[trigger] is_bridge(g, a as int, b as int) implies sorted@.contains((a, b)) by {
                let k = choose|k: int| 0 <= k < g.adj@[a as int]@.len() && (#[trigger] g.adj@[a as int]@[k]).0 == b;
                assert(visited@[a as int]);
                assert(handled(g, result@, a, g.adj@[a as int]@[k].0));
            }
        }
        assert forall|j: int| 0 <= j < sorted@.len() implies ordered_edge(g, #[trigger] sorted@[j]) && (g.symmetric() ==> is_bridge(g, sorted@[j].0 as int, sorted@[j].1 as int)) by {
            assert(sorted@.contains(sorted@[j]));
            assert(result@.contains(sorted@[j]));
        }
    }
    sorted
}

/// `n` copies of `x`.
pub fn filled_usize(n: usize, x: usize) -> (v: Vec<usize>)
    ensures
        v@.len() == n,
        forall|i: int| 0 <= i < n ==> #[trigger] v@[i] == x,
{
    let mut v: Vec<usize> = Vec::new();
    let mut i: usize = 0;
    while i < n
        invariant
            i <= n,
            v@.len() == i,
            forall|j: int| 0 <= j < i ==> #[trigger] v@[j] == x,
        decreases n - i,
    {
        v.push(x);
        i = i + 1;
    }
    v
}

/// `p` is a walk from `a` to `b` among the vertices whose times lie in `[from, to]`.
pub open spec fn sub_walk<W>(g: &Graph<W>, disc: Seq<usize>, p: Seq<usize>, a: int, b: int, from: int, to: int) -> bool {
    &&& g.walk_between(p, a, b)
    &&& forall|i: int| 0 <= i < p.len() ==> from <= #[trigger] disc[p[i] as int] <= to
}

/// A walk among the vertices with times in a range keeps away from a vertex
/// whose time lies outside it.
proof fn lemma_sub_walk_without<W>(g: &Graph<W>, disc: Seq<usize>, p: Seq<usize>, a: int, b: int, from: int, to: int, x: int)
    requires
        sub_walk(g, disc, p, a, b, from, to),
        disc[x] < from || disc[x] > to,
    ensures
        reach_without(g, x, a, b),
{
    assert forall|i: int| 0 <= i < p.len() implies #[trigger] p[i] != x by {
        assert(from <= disc[p[i] as int] <= to);
    }
    assert(walk_without(g, x, p, a, b));
}

/// The witness walk of a child `v` of `u` whose low value lies below the time of
/// `u` keeps away from `u`, and so does the path down the stack from where it
/// ends to the parent of `u`.
proof fn lemma_child_reaches_parent<W>(
    g: &Graph<W>,
    disc: Seq<usize>,
    u: usize,
    v: usize,
    from: int,
    to: int,
    stack: Seq<usize>,
    lowv: int,
    pv: Seq<usize>,
)
    requires
        low_witness(g, disc, v as int, Some(u), from, to, stack.push(u), lowv, pv),
        disc[u as int] < from,
        disc[v as int] >= from,
        lowv < disc[u as int],
        stack.len() > 0,
        !stack.contains(u),
        forall|i: int| 0 <= i < stack.len() ==> #[trigger] stack[i] < g.n,
        forall|i: int| 0 <= i < stack.len() - 1 ==> #[trigger] g.has_edge(stack[i] as int, stack[i + 1] as int),
    ensures
        reach_without(g, u as int, v as int, stack.last() as int),
{
    let w = pv.last();
    assert forall|i: int| 0 <= i < pv.len() implies #[trigger] pv[i] != u by {
        if i < pv.len() - 1 {
            assert(from <= disc[pv[i] as int]);
        }
    }
    assert(walk_without(g, u as int, pv, v as int, w as int));
    let inner = stack.push(u);
    assert(w != u);
    assert(w != v);
    assert(inner[stack.len() as int] == u);
    let q = choose|q: int| 0 <= q < inner.len() && inner[q] == w;
    assert(q < stack.len());
    assert(stack[q] == w);
    lemma_path_without(g, stack, q, stack.len() - 1, u as int);
    lemma_without_trans(g, u as int, v as int, w as int, stack.last() as int);
}

/// In a depth-first search of a graph whose edges all have reverses, an edge
/// out of the vertices found in one call leads back among them or to one of
/// the vertices that were still open when the call began.
proof fn lemma_new_edges<W>(
    g: &Graph<W>,
    disc: Seq<usize>,
    vc: Seq<bool>,
    visited: Seq<bool>,
    inner: Seq<usize>,
    from: int,
    to: int,
)
    requires
        g.wf(),
        g.symmetric(),
        vc.len() == g.n,
        visited.len() == g.n,
        disc.len() == g.n,
        finished_closed(g, vc, inner, -1),
        forall|x: int| 0 <= x < g.n ==> (#[trigger] visited[x] <==> disc[x] >= 1),
        forall|x: int| 0 <= x < g.n && #[trigger] vc[x] ==> visited[x] && disc[x] < from,
        forall|x: int| 0 <= x < g.n && !vc[x] && #[trigger] visited[x] ==> disc[x] >= from,
        forall|z: int, k: int|
            0 <= z < g.n && from <= disc[z] <= to && 0 <= k < g.adj@[z]@.len()
                ==> 1 <= disc[(#[trigger] g.adj@[z]@[k]).0 as int] <= to,
    ensures
        forall|z: int, k: int|
            0 <= z < g.n && from <= disc[z] <= to && 0 <= k < g.adj@[z]@.len()
                ==> from <= disc[(#[trigger] g.adj@[z]@[k]).0 as int] <= to || inner.contains(g.adj@[z]@[k].0),
{
    assert forall|z: int, k: int|
        0 <= z < g.n && from <= disc[z] <= to && 0 <= k < g.adj@[z]@.len()
            implies from <= disc[(#[trigger] g.adj@[z]@[k]).0 as int] <= to || inner.contains(g.adj@[z]@[k].0) by {
        let y = g.adj@[z]@[k].0;
        assert(y < g.n);
        if disc[y as int] < from && !inner.contains(y) {
            assert(visited[y as int]);
            assert(vc[y as int]);
            assert(g.has_edge(z, y as int));
            assert(g.has_edge(y as int, z));
            let kk = choose|kk: int| 0 <= kk < g.adj@[y as int]@.len() && (#[trigger] g.adj@[y as int]@[kk]).0 == z;
            assert(vc[g.adj@[y as int]@[kk].0 as int]);
            assert(vc[z]);
        }
    }
}

/// A vertex found before `u` that `u` has an edge to is still on the stack: a
/// finished vertex has all its neighbours found, and `u` was not.
proof fn lemma_earlier_on_stack<W>(g: &Graph<W>, stack: Seq<usize>, v0: Seq<bool>, u: usize, y: usize)
    requires
        g.wf(),
        g.symmetric(),
        u < g.n,
        y < g.n,
        v0.len() == g.n,
        g.has_edge(u as int, y as int),
        v0[y as int],
        !v0[u as int],
        finished_closed(g, v0, stack, -1),
    ensures
        stack.contains(y),
{
    if !stack.contains(y) {
        assert(g.has_edge(y as int, u as int));
        let kk = choose|kk: int| 0 <= kk < g.adj@[y as int]@.len() && (#[trigger] g.adj@[y as int]@[kk]).0 == u;
        assert(v0[g.adj@[y as int]@[kk].0 as int]);
    }
}

/// The vertices found below a child `v` of `u` that reaches no higher than
/// `u` are closed under the edges that do not lead to `u`, so a walk from `v`
/// without `u` stays among them.
proof fn lemma_child_closed<W>(
    g: &Graph<W>,
    disc: Seq<usize>,
    vc: Seq<bool>,
    visited: Seq<bool>,
    inner: Seq<usize>,
    u: usize,
    v: usize,
    from: int,
    to: int,
    lowv: int,
)
    requires
        g.wf(),
        g.symmetric(),
        u < g.n,
        v < g.n,
        vc.len() == g.n,
        visited.len() == g.n,
        disc.len() == g.n,
        finished_closed(g, vc, inner, -1),
        forall|x: int| 0 <= x < g.n ==> (#[trigger] visited[x] <==> disc[x] >= 1),
        forall|x: int| 0 <= x < g.n && #[trigger] vc[x] ==> visited[x] && disc[x] < from,
        forall|x: int| 0 <= x < g.n && !vc[x] && #[trigger] visited[x] ==> disc[x] >= from,
        subtree_edges(g, disc, from, to, lowv, v as int, Some(u)),
        forall|i: int| 0 <= i < inner.len() && inner[i] != u ==> #[trigger] disc[inner[i] as int] < lowv,
        forall|i: int| 0 <= i < inner.len() ==> #[trigger] inner[i] < g.n,
        disc[v as int] == from,
        from <= to,
        1 <= from,
    ensures
        forall|a: int| #[trigger] reach_without(g, u as int, v as int, a) ==> 0 <= a < g.n && from <= disc[a] <= to,
{
    assert forall|z: int, k: int|
        0 <= z < g.n && from <= disc[z] <= to && 0 <= k < g.adj@[z]@.len()
            implies 1 <= disc[(#[trigger] g.adj@[z]@[k]).0 as int] <= to by {
        assert(subtree_edges(g, disc, from, to, lowv, v as int, Some(u)));
    }
    lemma_new_edges(g, disc, vc, visited, inner, from, to);
    let set = Set::new(|z: int| 0 <= z < g.n && from <= disc[z] <= to);
    assert forall|z: int, w: int| set.contains(z) && #[trigger] g.has_edge(z, w) && w != u implies set.contains(w) by {
        let k = choose|k: int| 0 <= k < g.adj@[z]@.len() && (#[trigger] g.adj@[z]@[k]).0 == w;
        assert(g.adj@[z]@[k].0 < g.n);
        if !(from <= disc[w] <= to) {
            assert(inner.contains(g.adj@[z]@[k].0));
            let i = choose|i: int| 0 <= i < inner.len() && inner[i] == w;
            assert(disc[inner[i] as int] < lowv);
            assert(subtree_edges(g, disc, from, to, lowv, v as int, Some(u)));
        }
    }
    assert(set.contains(v as int));
    assert forall|a: int| #[trigger] reach_without(g, u as int, v as int, a) implies 0 <= a < g.n && from <= disc[a] <= to by {
        lemma_without_closed(g, u as int, set, v as int, a);
    }
}

/// Two edges from `u` join its neighbours `a` and `b`.
proof fn lemma_reach_through<W>(g: &Graph<W>, a: int, u: int, b: int)
    requires
        g.wf(),
        g.has_edge(a, u),
        g.has_edge(u, b),
        0 <= a < g.n,
        0 <= u < g.n,
        0 <= b < g.n,
    ensures
        g.reachable(a, b),
{
    lemma_reach_refl(g, a);
    lemma_reach_step(g, a, a, u);
    lemma_reach_step(g, a, u, b);
}

/// Extending a walk among the times `[tc1, to]` by an edge from `u`, whose time
/// `t1` is below them, gives a walk among the times `[t1, to]`.
proof fn lemma_sub_walk_extend<W>(g: &Graph<W>, disc: Seq<usize>, u: usize, v: usize, p: Seq<usize>, x: int, t1: int, tc1: int, to: int)
    requires
        sub_walk(g, disc, p, v as int, x, tc1, to),
        g.has_edge(u as int, v as int),
        u < g.n,
        disc[u as int] == t1,
        t1 <= tc1,
    ensures
        sub_walk(g, disc, seq![u] + p, u as int, x, t1, to),
{
    let q = seq![u] + p;
    assert forall|i: int| 0 <= i < q.len() implies #[trigger] q[i] < g.n && t1 <= disc[q[i] as int] <= to by {
        if i > 0 {
            assert(q[i] == p[i - 1]);
            assert(tc1 <= disc[p[i - 1] as int] <= to);
        } else {
            assert(tc1 <= disc[p[0] as int] <= to);
        }
    }
    assert forall|i: int| 0 <= i < q.len() - 1 implies #[trigger] g.step(q, i) by {
        if i > 0 {
            assert(g.step(p, i - 1));
            assert(q[i] == p[i - 1]);
            assert(q[i + 1] == p[i]);
        } else {
            assert(q[1] == p[0]);
        }
    }
    assert(q.last() == p.last());
}

/// A walk among a range of times stays one while those times stay fixed.
proof fn lemma_sub_walk_frame<W>(g: &Graph<W>, d1: Seq<usize>, d2: Seq<usize>, p: Seq<usize>, a: int, b: int, from: int, to1: int, to2: int)
    requires
        sub_walk(g, d1, p, a, b, from, to1),
        to1 <= to2,
        from >= 1,
        forall|x: int| 0 <= x < g.n && d1[x] >= 1 ==> #[trigger] d2[x] == d1[x],
    ensures
        sub_walk(g, d2, p, a, b, from, to2),
{
    assert forall|i: int| 0 <= i < p.len() implies from <= #[trigger] d2[p[i] as int] <= to2 by {
        assert(from <= d1[p[i] as int]);
        assert(p[i] < g.n);
    }
}

#[verifier::rlimit(80)]
#[verifier::spinoff_prover]
fn articulation_dfs<W>(
    g: &Graph<W>,
    u: usize,
    parent: Option<usize>,
    disc: &mut Vec<usize>,
    low: &mut Vec<usize>,
    timer: &mut usize,
    visited: &mut Vec<bool>,
    ap: &mut Vec<bool>,
    Ghost(stack): Ghost<Seq<usize>>,
)
    requires
        g.wf(),
        u < g.n,
        !old(visited)@[u as int],
        dfs_state_ok(g, old(disc)@, old(low)@, *old(timer), old(visited)@),
        disc_ok(g, old(disc)@, old(visited)@, *old(timer)),
        old(ap)@.len() == g.n,
        forall|x: int| 0 <= x < g.n && !old(visited)@[x] ==> !#[trigger] old(ap)@[x],
        forall|i: int| 0 <= i < stack.len() ==> #[trigger] stack[i] < g.n && old(visited)@[stack[i] as int],
        parent matches Some(p) ==> stack.len() > 0 && stack.last() == p && g.has_edge(p as int, u as int),
        stack.len() > 0 ==> parent == Some(stack.last()),
        forall|i: int| 0 <= i < stack.len() - 1 ==> #[trigger] g.has_edge(stack[i] as int, stack[i + 1] as int),
        finished_closed(g, old(visited)@, stack, -1),
    ensures
        dfs_state_ok(g, final(disc)@, final(low)@, *final(timer), final(visited)@),
        disc_ok(g, final(disc)@, final(visited)@, *final(timer)),
        final(ap)@.len() == g.n,
        forall|x: int| 0 <= x < g.n && !final(visited)@[x] ==> !#[trigger] final(ap)@[x],
        *final(timer) > *old(timer),
        final(visited)@[u as int],
        final(disc)@[u as int] == *old(timer) + 1,
        final(low)@[u as int] >= 1,
        forall|x: int| 0 <= x < g.n && #[trigger] old(visited)@[x] ==> final(visited)@[x]
            && final(disc)@[x] == old(disc)@[x] && final(low)@[x] == old(low)@[x] && final(ap)@[x] == old(ap)@[x],
        forall|x: int| 0 <= x < g.n && !old(visited)@[x] && #[trigger] final(visited)@[x] ==> final(disc)@[x] > *old(timer),
        finished_closed(g, final(visited)@, stack, -1),
        subtree_edges(g, final(disc)@, *old(timer) + 1, *final(timer) as int, final(low)@[u as int] as int, u as int, parent),
        forall|x: int| 0 <= x < g.n && *old(timer) + 1 <= #[trigger] final(disc)@[x] <= *final(timer) ==>
            exists|p: Seq<usize>| #[trigger] sub_walk(g, final(disc)@, p, u as int, x, *old(timer) + 1, *final(timer) as int),
        g.symmetric() ==> exists|p: Seq<usize>|
            #[trigger] low_witness(g, final(disc)@, u as int, parent, *old(timer) + 1, *final(timer) as int, stack, final(low)@[u as int] as int, p),
        g.symmetric() ==> forall|x: int| 0 <= x < g.n && !old(visited)@[x] && #[trigger] final(visited)@[x] ==>
            (final(ap)@[x] ==> is_cut_vertex(g, x)) && (!final(ap)@[x] ==> nbrs_linked(g, x)),
    decreases g.n - *old(timer),
{
    let ghost v0 = visited@;
    let ghost d0 = disc@;
    let ghost l0 = low@;
    let ghost a0 = ap@;
    let ghost tm0 = *timer;
    proof {
        lemma_vis_mark(visited@, u as int);
    }
    visited.set(u, true);
    *timer = *timer + 1;
    disc.set(u, *timer);
    low.set(u, *timer);
    let ghost t1 = *timer;
    let ghost inner = stack.push(u);
    let ghost mut anchor: int = match parent {
        Some(p) => p as int,
        None => -1,
    };
    let ghost mut fc: int = -1;
    let ghost mut s1: Set<int> = Set::empty();
    proof {
        assert(low_witness(g, disc@, u as int, parent, t1 as int, *timer as int, stack, low@[u as int] as int, seq![u]));
        assert forall|x: int, k: int|
            0 <= x < g.n && visited@[x] && !stack.contains(x as usize) && x != u && 0 <= k < g.adj@[x]@.len()
                implies visited@[(#[trigger] g.adj@[x]@[k]).0 as int] by {
            assert(g.adj@[x]@[k].0 < g.n);
        }
        assert forall|x: int| 0 <= x < g.n && t1 <= #[trigger] disc@[x] <= *timer implies
            exists|p: Seq<usize>| #[trigger] sub_walk(g, disc@, p, u as int, x, t1 as int, *timer as int) by {
            if x != u {
                if v0[x] {
                    assert(d0[x] <= tm0);
                }
            }
            assert(x == u);
            assert(sub_walk(g, disc@, seq![u], u as int, x, t1 as int, *timer as int));
        }
        assert(!stack.contains(u)) by {
            if stack.contains(u) {
                let q = choose|q: int| 0 <= q < stack.len() && stack[q] == u;
                assert(v0[stack[q] as int]);
            }
        }
    }
    let mut children: usize = 0;
    let mut k: usize = 0;
    while k < g.adj[u].len()
        invariant
            g.wf(),
            u < g.n,
            t1 == tm0 + 1,
            tm0 == *old(timer),
            v0 == old(visited)@,
            d0 == old(disc)@,
            l0 == old(low)@,
            a0 == old(ap)@,
            v0.len() == g.n,
            ap@.len() == g.n,
            forall|x: int| 0 <= x < g.n && !visited@[x] ==> !#[trigger] ap@[x],
            visited@[u as int],
            disc@[u as int] == t1,
            low@[u as int] <= t1,
            low@[u as int] >= 1,
            dfs_state_ok(g, disc@, low@, *timer, visited@),
            disc_ok(g, disc@, visited@, *timer),
            *timer >= t1,
            forall|i: int| 0 <= i < stack.len() ==> #[trigger] stack[i] < g.n && v0[stack[i] as int],
            parent matches Some(p) ==> stack.len() > 0 && stack.last() == p && g.has_edge(p as int, u as int),
            stack.len() > 0 ==> parent == Some(stack.last()),
            forall|i: int| 0 <= i < stack.len() - 1 ==> #[trigger] g.has_edge(stack[i] as int, stack[i + 1] as int),
            !stack.contains(u),
            inner == stack.push(u),
            disc_ok(g, d0, v0, tm0),
            !v0[u as int],
            finished_closed(g, v0, stack, -1),
            forall|x: int| 0 <= x < g.n && #[trigger] v0[x] ==> visited@[x] && disc@[x] == d0[x] && low@[x] == l0[x] && ap@[x] == a0[x],
            forall|x: int| 0 <= x < g.n && !v0[x] && #[trigger] visited@[x] ==> disc@[x] > tm0,
            forall|x: int| 0 <= x < g.n && !v0[x] && #[trigger] visited@[x] && x != u ==> disc@[x] > t1,
            forall|x: int, k2: int|
                0 <= x < g.n && visited@[x] && !stack.contains(x as usize) && x != u && 0 <= k2 < g.adj@[x]@.len()
                    ==> visited@[(#[trigger] g.adj@[x]@[k2]).0 as int],
            forall|j: int| 0 <= j < k ==> visited@[(#[trigger] g.adj@[u as int]@[j]).0 as int],
            forall|j: int| 0 <= j < k ==> {
                let y = (#[trigger] g.adj@[u as int]@[j]).0 as int;
                &&& 1 <= disc@[y] <= *timer
                &&& disc@[y] >= t1 || disc@[y] >= low@[u as int] || parent == Some(y as usize)
            },
            subtree_edges(g, disc@, t1 + 1, *timer as int, low@[u as int] as int, -1, None),
            k <= g.adj@[u as int]@.len(),
            children <= k,
            children == 0 ==> *timer == t1,
            forall|x: int| 0 <= x < g.n && t1 <= #[trigger] disc@[x] <= *timer ==>
                exists|p: Seq<usize>| #[trigger] sub_walk(g, disc@, p, u as int, x, t1 as int, *timer as int),
            g.symmetric() ==> exists|p: Seq<usize>|
                #[trigger] low_witness(g, disc@, u as int, parent, t1 as int, *timer as int, stack, low@[u as int] as int, p),
            parent matches Some(p) ==> anchor == p,
            g.symmetric() && parent is None && children >= 1 ==> {
                &&& fc == anchor
                &&& 0 <= fc < g.n
                &&& fc != u
                &&& g.has_edge(u as int, fc)
                &&& forall|a: int| #[trigger] reach_without(g, u as int, fc, a) ==> s1.contains(a)
                &&& forall|x: int| #[trigger] s1.contains(x) ==> 0 <= x < g.n && visited@[x]
            },
            g.symmetric() ==> (ap@[u as int] ==> is_cut_vertex(g, u as int)),
            g.symmetric() ==> forall|x: int| 0 <= x < g.n && !v0[x] && #[trigger] visited@[x] && x != u ==>
                (ap@[x] ==> is_cut_vertex(g, x)) && (!ap@[x] ==> nbrs_linked(g, x)),
            g.symmetric() && !ap@[u as int] ==> forall|z: int| 0 <= z < g.n && t1 + 1 <= #[trigger] disc@[z] <= *timer
                ==> reach_without(g, u as int, z, anchor),
            g.symmetric() && !ap@[u as int] ==> forall|j: int| 0 <= j < k && (#[trigger] g.adj@[u as int]@[j]).0 != u
                ==> reach_without(g, u as int, g.adj@[u as int]@[j].0 as int, anchor),
        decreases g.adj@[u as int]@.len() - k,
    {
        let v = g.adj[u][k].0;
        proof {
            assert(g.adj@[u as int]@[k as int].0 < g.n);
        }
        let is_parent = match parent {
            Some(p) => p == v,
            None => false,
        };
        if is_parent {
            proof {
                if g.symmetric() {
                    assert(stack.contains(v));
                    lemma_without_refl(g, u as int, v as int);
                }
            }
        } else {
            if visited[v] {
                proof {
                    if g.symmetric() && v != u {
                        assert(g.has_edge(u as int, v as int));
                        if disc@[v as int] < t1 {
                            assert(v0[v as int]);
                            lemma_earlier_on_stack(g, stack, v0, u, v);
                            let q = choose|q: int| 0 <= q < stack.len() && stack[q] == v;
                            lemma_path_without(g, stack, q, stack.len() - 1, u as int);
                        } else {
                            assert(disc@[v as int] > t1);
                        }
                    }
                }
                if disc[v] < low[u] {
                    low.set(u, disc[v]);
                    proof {
                        if g.symmetric() {
                            assert(v0[v as int]);
                            lemma_earlier_on_stack(g, stack, v0, u, v);
                            assert(low_witness(g, disc@, u as int, parent, t1 as int, *timer as int, stack, low@[u as int] as int, seq![u, v]));
                        }
                    }
                }
            } else {
                children = children + 1;
                proof {
                    lemma_vis_mark(visited@, v as int);
                }
                let ghost tc = *timer;
                let ghost vc = visited@;
                let ghost dc = disc@;
                let ghost luc = low@[u as int];
                let ghost apc = ap@;
                let ghost pu = choose|p: Seq<usize>| #[trigger] low_witness(g, dc, u as int, parent, t1 as int, tc as int, stack, luc as int, p);
                proof {
                    assert(subtree_edges(g, dc, t1 + 1, tc as int, luc as int, -1, None));
                    assert forall|i: int| 0 <= i < inner.len() implies #[trigger] inner[i] < g.n && vc[inner[i] as int] by {
                        if i < stack.len() {
                            assert(inner[i] == stack[i]);
                            assert(v0[stack[i] as int]);
                        }
                    }
                    assert forall|x: int, k2: int|
                        0 <= x < g.n && vc[x] && !inner.contains(x as usize) && x != -1 && 0 <= k2 < g.adj@[x]@.len()
                            implies vc[(#[trigger] g.adj@[x]@[k2]).0 as int] by {
                        assert(inner[stack.len() as int] == u);
                        if stack.contains(x as usize) {
                            let q = choose|q: int| 0 <= q < stack.len() && stack[q] == x as usize;
                            assert(inner[q] == x);
                        }
                    }
                    assert forall|i: int| 0 <= i < inner.len() - 1 implies #[trigger] g.has_edge(inner[i] as int, inner[i + 1] as int) by {
                        assert(inner[i] == stack[i]);
                        if i + 1 < stack.len() {
                            assert(inner[i + 1] == stack[i + 1]);
                        }
                    }
                }
                articulation_dfs(g, v, Some(u), disc, low, timer, visited, ap, Ghost(inner));
                let ghost lv = low@[v as int];
                proof {
                    assert forall|x: int| 0 <= x < g.n && #[trigger] v0[x] implies visited@[x] && disc@[x] == d0[x] && low@[x] == l0[x] && ap@[x] == a0[x] by {
                        assert(vc[x]);
                    }
                    assert forall|x: int| 0 <= x < g.n && !v0[x] && #[trigger] visited@[x] implies disc@[x] > tm0 by {
                        if vc[x] {
                            assert(dc[x] > tm0);
                        }
                    }
                    assert forall|x: int, k2: int|
                        0 <= x < g.n && visited@[x] && !stack.contains(x as usize) && x != u && 0 <= k2 < g.adj@[x]@.len()
                            implies visited@[(#[trigger] g.adj@[x]@[k2]).0 as int] by {
                        if !inner.contains(x as usize) {
                        } else {
                            let q = choose|q: int| 0 <= q < inner.len() && inner[q] == x as usize;
                            if q < stack.len() {
                                assert(stack[q] == x);
                            }
                        }
                    }
                    assert forall|j: int| 0 <= j < k implies visited@[(#[trigger] g.adj@[u as int]@[j]).0 as int] by {
                        assert(vc[g.adj@[u as int]@[j].0 as int]);
                    }
                    assert(disc@[u as int] == t1);
                    assert forall|x: int| 0 <= x < g.n && !v0[x] && #[trigger] visited@[x] && x != u implies disc@[x] > t1 by {
                        if vc[x] {
                            assert(dc[x] > t1);
                        }
                    }
                }
                if low[v] < low[u] {
                    low.set(u, low[v]);
                }
                if parent.is_none() && children > 1 {
                    ap.set(u, true);
                }
                if parent.is_some() && low[v] >= disc[u] {
                    ap.set(u, true);
                }
                proof {
                    assert forall|z: int, k2: int|
                        0 <= z < g.n && t1 + 1 <= disc@[z] <= *timer && 0 <= k2 < g.adj@[z]@.len() implies {
                            let y = (#[trigger] g.adj@[z]@[k2]).0 as int;
                            &&& 1 <= disc@[y] <= *timer
                            &&& disc@[y] >= t1 + 1 || disc@[y] >= low@[u as int] || (z == -1 && None::<usize> == Some(y as usize))
                        } by {
                        let y = g.adj@[z]@[k2].0 as int;
                        assert(y < g.n);
                        if disc@[z] <= tc {
                            assert(visited@[z]);
                            assert(vc[z]) by {
                                if !vc[z] {
                                    assert(disc@[z] > tc);
                                }
                            }
                            assert(dc[z] == disc@[z]);
                            assert(1 <= dc[y] <= tc);
                            assert(vc[y]);
                            assert(disc@[y] == dc[y]);
                        } else {
                            assert(tc + 1 <= disc@[z]);
                        }
                    }
                    assert forall|j: int| 0 <= j < k + 1 implies {
                        let y = (#[trigger] g.adj@[u as int]@[j]).0 as int;
                        &&& 1 <= disc@[y] <= *timer
                        &&& disc@[y] >= t1 || disc@[y] >= low@[u as int] || parent == Some(y as usize)
                    } by {
                        let y = g.adj@[u as int]@[j].0 as int;
                        if j < k {
                            assert(vc[y]);
                            assert(disc@[y] == dc[y]);
                        }
                    }
                    assert forall|x: int| 0 <= x < g.n && dc[x] >= 1 implies #[trigger] disc@[x] == dc[x] by {
                        assert(vc[x]);
                    }
                    assert forall|x: int| 0 <= x < g.n && t1 <= #[trigger] disc@[x] <= *timer implies
                        exists|p: Seq<usize>| #[trigger] sub_walk(g, disc@, p, u as int, x, t1 as int, *timer as int) by {
                        assert(visited@[x]);
                        if disc@[x] <= tc {
                            assert(vc[x]) by {
                                if !vc[x] {
                                    assert(disc@[x] > tc);
                                }
                            }
                            let p = choose|p: Seq<usize>| #[trigger] sub_walk(g, dc, p, u as int, x, t1 as int, tc as int);
                            lemma_sub_walk_frame(g, dc, disc@, p, u as int, x, t1 as int, tc as int, *timer as int);
                        } else {
                            let p = choose|p: Seq<usize>| #[trigger] sub_walk(g, disc@, p, v as int, x, tc + 1, *timer as int);
                            lemma_sub_walk_extend(g, disc@, u, v, p, x, t1 as int, tc + 1, *timer as int);
                        }
                    }
                    if g.symmetric() {
                        let pv = choose|p: Seq<usize>| #[trigger] low_witness(g, disc@, v as int, Some(u), tc + 1, *timer as int, inner, lv as int, p);
                        if lv < luc {
                            lemma_child_witness(g, disc@, u, parent, v, t1 as int, tc + 1, *timer as int, stack, lv as int, pv);
                        } else {
                            lemma_witness_frame(g, dc, disc@, u as int, parent, t1 as int, tc as int, *timer as int, stack, luc as int, pu);
                        }
                        assert forall|x: int| 0 <= x < g.n && !v0[x] && #[trigger] visited@[x] && x != u implies
                            (ap@[x] ==> is_cut_vertex(g, x)) && (!ap@[x] ==> nbrs_linked(g, x)) by {
                            if vc[x] {
                            } else {
                            }
                        }
                        assert forall|z: int| 0 <= z < g.n && tc + 1 <= #[trigger] disc@[z] <= *timer implies
                            reach_without(g, u as int, v as int, z) by {
                            let p = choose|p: Seq<usize>| #[trigger] sub_walk(g, disc@, p, v as int, z, tc + 1, *timer as int);
                            lemma_sub_walk_without(g, disc@, p, v as int, z, tc + 1, *timer as int, u as int);
                        }
                        assert forall|i: int| 0 <= i < inner.len() && inner[i] != u implies #[trigger] disc@[inner[i] as int] < lv || lv < t1 by {
                            if lv >= t1 {
                                assert(inner[i] == stack[i]);
                                assert(v0[stack[i] as int]);
                            }
                        }
                        if (parent is None && children == 1) || (parent is Some && lv >= t1) {
                            lemma_child_closed(g, disc@, vc, visited@, inner, u, v, tc + 1, *timer as int, lv as int);
                        }
                        if ap@[u as int] && !apc[u as int] {
                            if parent is None {
                                assert(!s1.contains(v as int));
                                assert(g.has_edge(fc, u as int));
                                lemma_reach_through(g, fc, u as int, v as int);
                                assert(!reach_without(g, u as int, fc, v as int));
                            } else {
                                let p = parent.unwrap();
                                assert(g.has_edge(u as int, p as int));
                                assert(g.has_edge(v as int, u as int));
                                assert(stack.contains(p));
                                assert(v0[p as int]);
                                lemma_reach_through(g, v as int, u as int, p as int);
                                assert(!reach_without(g, u as int, v as int, p as int));
                            }
                        }
                        if !ap@[u as int] {
                            if parent is Some {
                                lemma_child_reaches_parent(g, disc@, u, v, tc + 1, *timer as int, stack, lv as int, pv);
                            }
                        }
                    }
                    if g.symmetric() && parent is None && children == 1 {
                        fc = v as int;
                        anchor = v as int;
                        s1 = Set::new(|z: int| 0 <= z < g.n && tc + 1 <= disc@[z] <= *timer);
                    }
                    if g.symmetric() && !ap@[u as int] {
                        if parent is None {
                            lemma_without_refl(g, u as int, v as int);
                        }
                        assert(reach_without(g, u as int, v as int, anchor));
                        assert forall|z: int| 0 <= z < g.n && t1 + 1 <= #[trigger] disc@[z] <= *timer implies
                            reach_without(g, u as int, z, anchor) by {
                            if disc@[z] <= tc {
                                assert(visited@[z]);
                                assert(vc[z]) by {
                                    if !vc[z] {
                                        assert(disc@[z] > tc);
                                    }
                                }
                                assert(dc[z] == disc@[z]);
                            } else {
                                assert(reach_without(g, u as int, v as int, z));
                                lemma_without_sym(g, u as int, v as int, z);
                                lemma_without_trans(g, u as int, z, v as int, anchor);
                            }
                        }
                        assert forall|j: int| 0 <= j < k + 1 && (#[trigger] g.adj@[u as int]@[j]).0 != u
                            implies reach_without(g, u as int, g.adj@[u as int]@[j].0 as int, anchor) by {
                            if j < k && parent is None && children == 1 {
                                lemma_no_reach_negative(g, u as int, g.adj@[u as int]@[j].0 as int);
                            }
                        }
                    }
                }
            }
        }
        k = k + 1;
    }
    proof {
        assert forall|z: int, k2: int|
            0 <= z < g.n && t1 <= disc@[z] <= *timer && 0 <= k2 < g.adj@[z]@.len() implies {
                let y = (#[trigger] g.adj@[z]@[k2]).0 as int;
                &&& 1 <= disc@[y] <= *timer
                &&& disc@[y] >= t1 || disc@[y] >= low@[u as int] || (z == u && parent == Some(y as usize))
            } by {
            if z != u {
                assert(visited@[z]);
                if v0[z] {
                    assert(d0[z] <= tm0);
                }
                assert(disc@[z] > t1);
            }
        }
        if g.symmetric() {
            if !ap@[u as int] {
                assert forall|y1: int, y2: int|
                    #![trigger g.has_edge(u as int, y1), g.has_edge(u as int, y2)]
                    g.has_edge(u as int, y1) && g.has_edge(u as int, y2) && y1 != u && y2 != u
                        implies reach_without(g, u as int, y1, y2) by {
                    let j1 = choose|j: int| 0 <= j < g.adj@[u as int]@.len() && (#[trigger] g.adj@[u as int]@[j]).0 == y1;
                    let j2 = choose|j: int| 0 <= j < g.adj@[u as int]@.len() && (#[trigger] g.adj@[u as int]@[j]).0 == y2;
                    assert(reach_without(g, u as int, g.adj@[u as int]@[j1].0 as int, anchor));
                    assert(reach_without(g, u as int, g.adj@[u as int]@[j2].0 as int, anchor));
                    lemma_without_sym(g, u as int, y2, anchor);
                    lemma_without_trans(g, u as int, y1, anchor, y2);
                }
            }
            assert forall|x: int| 0 <= x < g.n && !v0[x] && #[trigger] visited@[x] implies
                (ap@[x] ==> is_cut_vertex(g, x)) && (!ap@[x] ==> nbrs_linked(g, x)) by {
                if x == u {
                }
            }
        }
    }
}

/// Find articulation points. Returns list of vertex indices.
pub fn articulation_points<W>(g: &Graph<W>) -> (result: Vec<usize>)
    requires
        g.wf(),
    ensures
        forall|i: int| 0 <= i < result@.len() ==> #[trigger] result@[i] < g.n,
        forall|i: int, j: int| 0 <= i < j < result@.len() ==> #[trigger] result@[i] < #[trigger] result@[j],
        g.symmetric() ==> forall|x: usize| #[trigger] result@.contains(x) <==> is_cut_vertex(g, x as int),
{
    let n = g.n;
    let mut disc = filled_usize(n, 0);
    let mut low = filled_usize(n, 0);
    let mut timer: usize = 0;
    let mut ap = falses(n);
    let mut visited = falses(n);
    proof {
        assert(vis_set(visited@) =~= Set::<int>::empty());
    }
    let mut i: usize = 0;
    while i < n
        invariant
            g.wf(),
            n == g.n,
            i <= n,
            dfs_state_ok(g, disc@, low@, timer, visited@),
            disc_ok(g, disc@, visited@, timer),
            finished_closed(g, visited@, Seq::<usize>::empty(), -1),
            ap@.len() == n,
            forall|x: int| 0 <= x < g.n && !visited@[x] ==> !#[trigger] ap@[x],
            forall|j: int| 0 <= j < i ==> #[trigger] visited@[j],
            g.symmetric() ==> forall|x: int| 0 <= x < g.n && #[trigger] visited@[x] ==>
                (ap@[x] ==> is_cut_vertex(g, x)) && (!ap@[x] ==> nbrs_linked(g, x)),
        decreases n - i,
    {
        if !visited[i] {
            let ghost v1 = visited@;
            articulation_dfs(g, i, None, &mut disc, &mut low, &mut timer, &mut visited, &mut ap, Ghost(Seq::<usize>::empty()));
            proof {
                assert forall|j: int| 0 <= j < i implies #[trigger] visited@[j] by {
                    assert(v1[j]);
                }
                if g.symmetric() {
                    assert forall|x: int| 0 <= x < g.n && #[trigger] visited@[x] implies
                        (ap@[x] ==> is_cut_vertex(g, x)) && (!ap@[x] ==> nbrs_linked(g, x)) by {
                        if v1[x] {
                        }
                    }
                }
            }
        }
        i = i + 1;
    }
    let mut result: Vec<usize> = Vec::new();
    let mut i: usize = 0;
    while i < n
        invariant
            n == g.n,
            i <= n,
            ap@.len() == n,
            forall|j: int| 0 <= j < result@.len() ==> #[trigger] result@[j] < i,
            forall|a: int, b: int| 0 <= a < b < result@.len() ==> #[trigger] result@[a] < #[trigger] result@[b],
            forall|x: usize| #[trigger] result@.contains(x) <==> x < i && ap@[x as int],
        decreases n - i,
    {
        let ghost r1 = result@;
        if ap[i] {
            result.push(i);
        }
        proof {
            assert forall|x: usize| #[trigger] result@.contains(x) <==> x < i + 1 && ap@[x as int] by {
                if result@.contains(x) && x != i {
                    let q = choose|q: int| 0 <= q < result@.len() && result@[q] == x;
                    assert(r1[q] == x);
                    assert(r1.contains(x));
                }
                if x < i && ap@[x as int] {
                    assert(r1.contains(x));
                    let q = choose|q: int| 0 <= q < r1.len() && r1[q] == x;
                    assert(result@[q] == x);
                }
                if x == i && ap@[x as int] {
                    assert(result@[result@.len() - 1] == x);
                }
            }
        }
        i = i + 1;
    }
    proof {
        if g.symmetric() {
            assert forall|x: usize| #[trigger] result@.contains(x) <==> is_cut_vertex(g, x as int) by {
                if x < g.n {
                    assert(visited@[x as int]);
                    if !ap@[x as int] {
                        lemma_linked_not_cut(g, x as int);
                    }
                }
            }
        }
    }
    result
}

/// The pair of `a` and `b` with the smaller first.
pub open spec fn ord_pair(a: usize, b: usize) -> (usize, usize) {
    if a <= b { (a, b) } else { (b, a) }
}

/// `e` lies on `stack` or in one of `comps`.
pub open spec fn in_pool(stack: Seq<(usize, usize)>, comps: Seq<Vec<(usize, usize)>>, e: (usize, usize)) -> bool {
    ||| stack.contains(e)
    ||| exists|c: int| 0 <= c < comps.len() && (#[trigger] comps[c])@.contains(e)
}

/// No pair lies in two of `comps`, nor in one of them and on `stack`.
pub open spec fn pool_disjoint(stack: Seq<(usize, usize)>, comps: Seq<Vec<(usize, usize)>>) -> bool {
    &&& forall|c1: int, c2: int, e: (usize, usize)|
        0 <= c1 < comps.len() && 0 <= c2 < comps.len() && c1 != c2 && #[trigger] comps[c1]@.contains(e)
            ==> !#[trigger] comps[c2]@.contains(e)
    &&& forall|c: int, e: (usize, usize)| 0 <= c < comps.len() && #[trigger] comps[c]@.contains(e) ==> !stack.contains(e)
}

/// Both ends of every pair in `comps` are visited, and so are those of every
/// pair on `stack`, but for vertex `u`.
pub open spec fn pool_visited(stack: Seq<(usize, usize)>, comps: Seq<Vec<(usize, usize)>>, visited: Seq<bool>, u: int) -> bool {
    &&& forall|i: int| 0 <= i < stack.len() ==> (visited[(#[trigger] stack[i]).0 as int] || stack[i].0 == u)
        && (visited[stack[i].1 as int] || stack[i].1 == u)
    &&& forall|c: int, i: int| 0 <= c < comps.len() && 0 <= i < comps[c]@.len()
        ==> visited[(#[trigger] comps[c]@[i]).0 as int] && visited[comps[c]@[i].1 as int]
}

/// A pair put on the stack by the search from `u`, begun when the timer stood
/// at `t`: one of its ends was reached after `u`, or it joins `u` to a vertex
/// other than the one `u` was reached from.
pub open spec fn fresh_pair(disc: Seq<usize>, t: int, u: usize, parent: Option<usize>, e: (usize, usize)) -> bool {
    ||| disc[e.0 as int] > t + 1
    ||| disc[e.1 as int] > t + 1
    ||| (e.0 == u && parent != Some(e.1))
    ||| (e.1 == u && parent != Some(e.0))
}

/// The pairs `e` and `f` meet at a vertex `w`, and their other ends are joined
/// by a walk that keeps away from `w`: the two edges lie on a common cycle.
pub open spec fn meet_around<W>(g: &Graph<W>, e: (usize, usize), f: (usize, usize)) -> bool {
    exists|w: usize, x: usize, y: usize|
        e == ord_pair(w, x) && f == ord_pair(w, y) && w != x && w != y && #[trigger] reach_without(
            g,
            w as int,
            x as int,
            y as int,
        )
}

/// An edge of `g` joining two distinct vertices, as an ordered pair.
pub open spec fn proper_edge<W>(g: &Graph<W>, f: (usize, usize)) -> bool {
    ordered_edge(g, f) && f.0 != f.1
}

/// Every edge that meets a pair of `comp` around a common cycle lies in `comp`.
pub open spec fn comp_closed<W>(g: &Graph<W>, comp: Seq<(usize, usize)>) -> bool {
    forall|e: (usize, usize), f: (usize, usize)|
        comp.contains(e) && proper_edge(g, f) && #[trigger] meet_around(g, e, f) ==> #[trigger] comp.contains(f)
}

/// No row of `g` leads to the same vertex twice: `g` has no parallel edges.
pub open spec fn no_parallel<W>(g: &Graph<W>) -> bool {
    forall|a: int, k1: int, k2: int|
        0 <= a < g.n && 0 <= k1 < k2 < g.adj@[a]@.len() ==> (#[trigger] g.adj@[a]@[k1]).0 != (#[trigger] g.adj@[a]@[k2]).0
}

/// `ch` is a chain of pairs of `set`, each meeting the next around a common cycle.
pub open spec fn chain_in<W>(g: &Graph<W>, set: Seq<(usize, usize)>, ch: Seq<(usize, usize)>) -> bool {
    &&& ch.len() >= 1
    &&& forall|i: int| 0 <= i < ch.len() ==> set.contains(#[trigger] ch[i])
    &&& forall|i: int| 0 <= i < ch.len() - 1 ==> #[trigger] meet_around(g, ch[i], ch[i + 1])
}

/// A chain of pairs of `set` leads from `e` to `f`.
pub open spec fn chained<W>(g: &Graph<W>, set: Seq<(usize, usize)>, e: (usize, usize), f: (usize, usize)) -> bool {
    exists|ch: Seq<(usize, usize)>| #[trigger] chain_in(g, set, ch) && ch[0] == e && ch.last() == f
}

/// Every two pairs of `comp` are joined by a chain of pairs of `comp`.
pub open spec fn comp_linked<W>(g: &Graph<W>, comp: Seq<(usize, usize)>) -> bool {
    forall|e: (usize, usize), f: (usize, usize)| comp.contains(e) && comp.contains(f) ==> #[trigger] chained(g, comp, e, f)
}

proof fn lemma_chained_step<W>(g: &Graph<W>, set: Seq<(usize, usize)>, e: (usize, usize), f: (usize, usize))
    requires
        set.contains(e),
        set.contains(f),
        meet_around(g, e, f),
    ensures
        chained(g, set, e, f),
{
    let ch = seq![e, f];
    assert(meet_around(g, ch[0], ch[1]));
    assert(chain_in(g, set, ch));
}

proof fn lemma_chained_refl<W>(g: &Graph<W>, set: Seq<(usize, usize)>, e: (usize, usize))
    requires
        set.contains(e),
    ensures
        chained(g, set, e, e),
{
    assert(chain_in(g, set, seq![e]));
}

proof fn lemma_chained_trans<W>(g: &Graph<W>, set: Seq<(usize, usize)>, e: (usize, usize), f: (usize, usize), h: (usize, usize))
    requires
        chained(g, set, e, f),
        chained(g, set, f, h),
    ensures
        chained(g, set, e, h),
{
    let c1 = choose|ch: Seq<(usize, usize)>| #[trigger] chain_in(g, set, ch) && ch[0] == e && ch.last() == f;
    let c2 = choose|ch: Seq<(usize, usize)>| #[trigger] chain_in(g, set, ch) && ch[0] == f && ch.last() == h;
    let c = c1 + c2.drop_first();
    assert forall|i: int| 0 <= i < c.len() implies set.contains(#[trigger] c[i]) by {
        if i < c1.len() {
            assert(c[i] == c1[i]);
        } else {
            assert(c[i] == c2[i - c1.len() + 1]);
        }
    }
    assert forall|i: int| 0 <= i < c.len() - 1 implies #[trigger] meet_around(g, c[i], c[i + 1]) by {
        if i < c1.len() - 1 {
            assert(c[i] == c1[i] && c[i + 1] == c1[i + 1]);
        } else {
            let j = i - c1.len() + 1;
            assert(c[i] == c2[j]);
            assert(c[i + 1] == c2[j + 1]);
        }
    }
    if c2.len() == 1 {
        assert(c =~= c1);
    }
    assert(chain_in(g, set, c));
}

proof fn lemma_meet_sym<W>(g: &Graph<W>, e: (usize, usize), f: (usize, usize))
    requires
        g.symmetric(),
        meet_around(g, e, f),
    ensures
        meet_around(g, f, e),
{
    let (w, x, y) = choose|w: usize, x: usize, y: usize|
        e == ord_pair(w, x) && f == ord_pair(w, y) && w != x && w != y && #[trigger] reach_without(g, w as int, x as int, y as int);
    lemma_without_sym(g, w as int, x as int, y as int);
    assert(reach_without(g, w as int, y as int, x as int));
}

proof fn lemma_chained_sym<W>(g: &Graph<W>, set: Seq<(usize, usize)>, e: (usize, usize), f: (usize, usize))
    requires
        g.symmetric(),
        chained(g, set, e, f),
    ensures
        chained(g, set, f, e),
{
    let c1 = choose|ch: Seq<(usize, usize)>| #[trigger] chain_in(g, set, ch) && ch[0] == e && ch.last() == f;
    let c = c1.reverse();
    let l = c1.len() as int;
    assert forall|i: int| 0 <= i < c.len() implies set.contains(#[trigger] c[i]) by {
        assert(c[i] == c1[l - 1 - i]);
    }
    assert forall|i: int| 0 <= i < c.len() - 1 implies #[trigger] meet_around(g, c[i], c[i + 1]) by {
        let j = l - 2 - i;
        assert(c[i] == c1[j + 1] && c[i + 1] == c1[j]);
        assert(meet_around(g, c1[j], c1[j + 1]));
        lemma_meet_sym(g, c1[j], c1[j + 1]);
    }
    assert(chain_in(g, set, c));
}

proof fn lemma_chained_mono<W>(g: &Graph<W>, s1: Seq<(usize, usize)>, s2: Seq<(usize, usize)>, e: (usize, usize), f: (usize, usize))
    requires
        chained(g, s1, e, f),
        forall|x: (usize, usize)| s1.contains(x) ==> #[trigger] s2.contains(x),
    ensures
        chained(g, s2, e, f),
{
    let c = choose|ch: Seq<(usize, usize)>| #[trigger] chain_in(g, s1, ch) && ch[0] == e && ch.last() == f;
    assert forall|i: int| 0 <= i < c.len() implies s2.contains(#[trigger] c[i]) by {
        assert(s1.contains(c[i]));
    }
    assert(chain_in(g, s2, c));
}

/// Along the path of ancestors, a walk from any of them to the last keeps away
/// from a vertex not on it.
proof fn lemma_anc_path<W>(g: &Graph<W>, anc: Seq<usize>, x: int, i: int)
    requires
        forall|k: int| 0 <= k < anc.len() ==> #[trigger] anc[k] < g.n,
        forall|k: int| 0 <= k < anc.len() - 1 ==> #[trigger] g.has_edge(anc[k] as int, anc[k + 1] as int),
        !anc.contains(x as usize),
        0 <= x,
        0 <= i < anc.len(),
    ensures
        reach_without(g, x, anc[i] as int, anc.last() as int),
{
    let p = anc.skip(i);
    assert forall|k: int| 0 <= k < p.len() implies #[trigger] p[k] < g.n && p[k] != x by {
        assert(p[k] == anc[i + k]);
    }
    assert forall|k: int| 0 <= k < p.len() - 1 implies #[trigger] g.step(p, k) by {
        assert(p[k] == anc[i + k] && p[k + 1] == anc[i + k + 1]);
    }
    assert(walk_without(g, x, p, anc[i] as int, anc.last() as int));
}

/// Where every pair of `seg` is chained to `m`, every two are chained.
proof fn lemma_seg_linked<W>(g: &Graph<W>, seg: Seq<(usize, usize)>, m: (usize, usize))
    requires
        g.symmetric(),
        forall|x: (usize, usize)| seg.contains(x) ==> #[trigger] chained(g, seg, x, m),
    ensures
        comp_linked(g, seg),
{
    assert forall|e: (usize, usize), f: (usize, usize)| seg.contains(e) && seg.contains(f) implies #[trigger] chained(g, seg, e, f) by {
        assert(chained(g, seg, e, m));
        assert(chained(g, seg, f, m));
        lemma_chained_sym(g, seg, f, m);
        lemma_chained_trans(g, seg, e, m, f);
    }
}

/// Two lists with the same pairs are linked alike.
proof fn lemma_linked_same<W>(g: &Graph<W>, a: Seq<(usize, usize)>, b: Seq<(usize, usize)>)
    requires
        comp_linked(g, a),
        forall|x: (usize, usize)| #[trigger] a.contains(x) <==> b.contains(x),
    ensures
        comp_linked(g, b),
{
    assert forall|e: (usize, usize), f: (usize, usize)| b.contains(e) && b.contains(f) implies #[trigger] chained(g, b, e, f) by {
        assert(a.contains(e) && a.contains(f));
        assert(chained(g, a, e, f));
        lemma_chained_mono(g, a, b, e, f);
    }
}

/// The witness of a low value below the time of `u` gives a walk from `v` to
/// the vertex `u` was reached from that keeps away from `u`.
proof fn lemma_witness_reach<W>(
    g: &Graph<W>,
    disc: Seq<usize>,
    u: usize,
    v: usize,
    anc: Seq<usize>,
    from: int,
    to: int,
    lv: int,
    pv: Seq<usize>,
)
    requires
        low_witness(g, disc, v as int, Some(u), from, to, anc.push(u), lv, pv),
        u < g.n,
        disc[u as int] < from,
        lv < disc[u as int],
        disc[v as int] >= from,
        !anc.contains(u),
        anc.len() >= 1,
        forall|k: int| 0 <= k < anc.len() ==> #[trigger] anc[k] < g.n,
        forall|k: int| 0 <= k < anc.len() - 1 ==> #[trigger] g.has_edge(anc[k] as int, anc[k + 1] as int),
    ensures
        reach_without(g, u as int, v as int, anc.last() as int),
{
    let inner = anc.push(u);
    let y = pv.last();
    assert(y != v);
    assert(inner.contains(y));
    let q = choose|q: int| 0 <= q < inner.len() && inner[q] == y;
    assert(q < anc.len()) by {
        if q == anc.len() {
            assert(inner[q] == u);
        }
    }
    assert(anc[q] == y);
    assert(anc.contains(y));
    assert forall|i: int| 0 <= i < pv.len() implies #[trigger] pv[i] < g.n && pv[i] != u by {
        if i < pv.len() - 1 {
            assert(from <= disc[pv[i] as int]);
        }
    }
    assert(walk_without(g, u as int, pv, v as int, y as int));
    lemma_anc_path(g, anc, u as int, q);
    lemma_without_trans(g, u as int, v as int, y as int, anc.last() as int);
}

/// Where `g` has no parallel edges, no pair repeats on `stack`, nor within
/// any of the components from position `from` on.
#[verifier::opaque]
pub open spec fn pool_nodup<W>(g: &Graph<W>, stack: Seq<(usize, usize)>, comps: Seq<Vec<(usize, usize)>>, from: int) -> bool {
    no_parallel(g) ==> {
        &&& stack.no_duplicates()
        &&& forall|c: int| from <= c < comps.len() ==> (#[trigger] comps[c])@.no_duplicates()
    }
}

/// The only pair on `stack` with `u` as an end is the pair of `u` and the
/// vertex it was reached from.
#[verifier::opaque]
pub open spec fn marker_only(stack: Seq<(usize, usize)>, u: usize, parent: Option<usize>) -> bool {
    forall|i: int| 0 <= i < stack.len() && ((#[trigger] stack[i]).0 == u || stack[i].1 == u)
        ==> (parent matches Some(p) && stack[i] == ord_pair(p, u))
}

/// Pushing the pair of `u` and a vertex `v` not yet reached onto a stack whose
/// pairs join reached vertices keeps it free of repeats, with that pair the only
/// one at `v`.
proof fn lemma_nodup_tree_push<W>(
    g: &Graph<W>,
    s1: Seq<(usize, usize)>,
    cs: Seq<Vec<(usize, usize)>>,
    from: int,
    vis: Seq<bool>,
    u: usize,
    v: usize,
)
    requires
        pool_nodup(g, s1, cs, from),
        forall|i: int| 0 <= i < s1.len() ==> vis[(#[trigger] s1[i]).0 as int] && vis[s1[i].1 as int],
        !vis[v as int],
    ensures
        pool_nodup(g, s1.push(ord_pair(u, v)), cs, cs.len() as int),
        marker_only(s1.push(ord_pair(u, v)), v, Some(u)),
{
    reveal(pool_nodup);
    reveal(marker_only);
    let s2 = s1.push(ord_pair(u, v));
    assert forall|i: int| 0 <= i < s2.len() && ((#[trigger] s2[i]).0 == v || s2[i].1 == v)
        implies (Some(u) matches Some(p) && s2[i] == ord_pair(p, v)) by {
        if i < s1.len() {
            assert(s2[i] == s1[i]);
        }
    }
    if no_parallel(g) {
        assert forall|a: int, b: int| 0 <= a < s2.len() && 0 <= b < s2.len() && a != b implies s2[a] != s2[b] by {
            if a < s1.len() && b < s1.len() {
                assert(s2[a] == s1[a] && s2[b] == s1[b]);
            } else if a < s1.len() {
                assert(s2[a] == s1[a]);
            } else {
                assert(s2[b] == s1[b]);
            }
        }
    }
}

/// After the search below a child, the components found before and during it
/// are free of repeats, and so is the stack.
proof fn lemma_nodup_merge<W>(
    g: &Graph<W>,
    s1: Seq<(usize, usize)>,
    s3: Seq<(usize, usize)>,
    cs1: Seq<Vec<(usize, usize)>>,
    cs3: Seq<Vec<(usize, usize)>>,
    from: int,
)
    requires
        pool_nodup(g, s1, cs1, from),
        pool_nodup(g, s3, cs3, cs1.len() as int),
        0 <= from <= cs1.len() <= cs3.len(),
        forall|c: int| 0 <= c < cs1.len() ==> #[trigger] cs3[c] == cs1[c],
    ensures
        pool_nodup(g, s3, cs3, from),
{
    reveal(pool_nodup);
    if no_parallel(g) {
        assert forall|c: int| from <= c < cs3.len() implies (#[trigger] cs3[c])@.no_duplicates() by {
            if c < cs1.len() {
                assert(cs3[c] == cs1[c]);
            }
        }
    }
}

/// Closing a component from the pairs above position `l` of a stack free of
/// repeats, in reverse order, keeps the stack and the components free of repeats.
proof fn lemma_nodup_pop<W>(
    g: &Graph<W>,
    s3: Seq<(usize, usize)>,
    cs3: Seq<Vec<(usize, usize)>>,
    from: int,
    l: int,
    cm: Vec<(usize, usize)>,
)
    requires
        pool_nodup(g, s3, cs3, from),
        0 <= from,
        0 <= l <= s3.len(),
        cm@.len() == s3.len() - l,
        forall|i: int| 0 <= i < cm@.len() ==> #[trigger] cm@[i] == s3[s3.len() - 1 - i],
    ensures
        pool_nodup(g, s3.take(l), cs3.push(cm), from),
{
    reveal(pool_nodup);
    if no_parallel(g) {
        let cs4 = cs3.push(cm);
        assert forall|c: int| from <= c < cs4.len() implies (#[trigger] cs4[c])@.no_duplicates() by {
            if c < cs3.len() {
                assert(cs4[c] == cs3[c]);
            } else {
                assert(cs4[c] == cm);
                assert forall|a: int, b: int| 0 <= a < cm@.len() && 0 <= b < cm@.len() && a != b implies cm@[a] != cm@[b] by {
                    assert(cm@[a] == s3[s3.len() - 1 - a]);
                    assert(cm@[b] == s3[s3.len() - 1 - b]);
                }
            }
        }
        assert forall|a: int, b: int| 0 <= a < s3.take(l).len() && 0 <= b < s3.take(l).len() && a != b implies s3.take(l)[a] != s3.take(l)[b] by {
            assert(s3.take(l)[a] == s3[a] && s3.take(l)[b] == s3[b]);
        }
    }
}

/// A stack free of repeats closed whole as a component leaves an empty stack
/// and components free of repeats.
proof fn lemma_nodup_close<W>(g: &Graph<W>, st: Seq<(usize, usize)>, cs: Seq<Vec<(usize, usize)>>, from: int, cm: Vec<(usize, usize)>)
    requires
        pool_nodup(g, st, cs, from),
        0 <= from,
        cm@ == st,
    ensures
        pool_nodup(g, Seq::<(usize, usize)>::empty(), cs.push(cm), from),
{
    reveal(pool_nodup);
    if no_parallel(g) {
        let cs4 = cs.push(cm);
        assert forall|c: int| from <= c < cs4.len() implies (#[trigger] cs4[c])@.no_duplicates() by {
            if c < cs.len() {
                assert(cs4[c] == cs[c]);
            }
        }
    }
}

/// Nothing repeats where nothing is.
proof fn lemma_nodup_empty<W>(g: &Graph<W>)
    ensures
        pool_nodup(g, Seq::<(usize, usize)>::empty(), Seq::<Vec<(usize, usize)>>::empty(), 0),
{
    reveal(pool_nodup);
}

/// An empty stack has no pair at `u`.
proof fn lemma_marker_empty(st: Seq<(usize, usize)>, u: usize)
    requires
        st.len() == 0,
    ensures
        marker_only(st, u, None),
{
    reveal(marker_only);
}

/// Components free of repeats, read off the bundled fact.
proof fn lemma_nodup_read<W>(g: &Graph<W>, st: Seq<(usize, usize)>, cs: Seq<Vec<(usize, usize)>>)
    requires
        pool_nodup(g, st, cs, 0),
    ensures
        no_parallel(g) ==> forall|c: int| 0 <= c < cs.len() ==> (#[trigger] cs[c])@.no_duplicates(),
{
    reveal(pool_nodup);
}

/// Without any component, the components are free of repeats.
proof fn lemma_nodup_weaken<W>(g: &Graph<W>, st: Seq<(usize, usize)>, cs: Seq<Vec<(usize, usize)>>, from: int, to: int)
    requires
        pool_nodup(g, st, cs, from),
        from <= to,
    ensures
        pool_nodup(g, st, cs, to),
{
    reveal(pool_nodup);
}

/// The pairs that the search from `u` put on the stack itself, with both ends
/// reached no later than `u`, come from the first `k` entries of its row.
#[verifier::opaque]
pub open spec fn own_pairs<W>(g: &Graph<W>, stack: Seq<(usize, usize)>, from: int, disc: Seq<usize>, t1: int, u: usize, k: int) -> bool {
    forall|i: int| from <= i < stack.len() && disc[(#[trigger] stack[i]).0 as int] <= t1 && disc[stack[i].1 as int] <= t1
        ==> exists|k2: int| 0 <= k2 < k && stack[i] == ord_pair(u, (#[trigger] g.adj@[u as int]@[k2]).0)
}

/// Pushing the pair of `u` and an earlier-reached vertex `v` at entry `k`
/// keeps the stack free of repeats when the graph has no parallel edges.
proof fn lemma_back_push_distinct<W>(
    g: &Graph<W>,
    s0: Seq<(usize, usize)>,
    st: Seq<(usize, usize)>,
    disc: Seq<usize>,
    t1: int,
    u: usize,
    parent: Option<usize>,
    k: int,
    cs: Seq<Vec<(usize, usize)>>,
    from: int,
)
    requires
        g.wf(),
        u < g.n,
        0 <= k < g.adj@[u as int]@.len(),
        disc[g.adj@[u as int]@[k].0 as int] < t1,
        disc[u as int] == t1,
        parent != Some(g.adj@[u as int]@[k].0),
        st.len() >= s0.len(),
        st.take(s0.len() as int) == s0,
        marker_only(s0, u, parent),
        own_pairs(g, st, s0.len() as int, disc, t1, u, k),
        pool_nodup(g, st, cs, from),
    ensures
        own_pairs(g, st.push(ord_pair(u, g.adj@[u as int]@[k].0)), s0.len() as int, disc, t1, u, k + 1),
        pool_nodup(g, st.push(ord_pair(u, g.adj@[u as int]@[k].0)), cs, from),
{
    reveal(own_pairs);
    reveal(pool_nodup);
    reveal(marker_only);
    let v = g.adj@[u as int]@[k].0;
    let e = ord_pair(u, v);
    let st2 = st.push(e);
    assert(u != v);
    assert forall|i: int| s0.len() <= i < st2.len() && disc[(#[trigger] st2[i]).0 as int] <= t1 && disc[st2[i].1 as int] <= t1
        implies exists|k2: int| 0 <= k2 < k + 1 && st2[i] == ord_pair(u, (#[trigger] g.adj@[u as int]@[k2]).0) by {
        if i < st.len() {
            assert(st2[i] == st[i]);
            let k2 = choose|k2: int| 0 <= k2 < k && st[i] == ord_pair(u, (#[trigger] g.adj@[u as int]@[k2]).0);
            assert(st2[i] == ord_pair(u, g.adj@[u as int]@[k2].0));
        } else {
            assert(st2[i] == ord_pair(u, g.adj@[u as int]@[k].0));
        }
    }
    if no_parallel(g) {
        assert(!st.contains(e)) by {
            if st.contains(e) {
                let i = choose|i: int| 0 <= i < st.len() && st[i] == e;
                if i < s0.len() {
                    assert(s0[i] == st.take(s0.len() as int)[i]);
                    assert(s0[i].0 == u || s0[i].1 == u);
                } else {
                    let k2 = choose|k2: int| 0 <= k2 < k && st[i] == ord_pair(u, (#[trigger] g.adj@[u as int]@[k2]).0);
                    assert(g.adj@[u as int]@[k2].0 == v);
                }
            }
        }
        assert forall|a: int, b: int| 0 <= a < st2.len() && 0 <= b < st2.len() && a != b implies st2[a] != st2[b] by {
            if a < st.len() && b < st.len() {
                assert(st2[a] == st[a] && st2[b] == st[b]);
            } else if a < st.len() {
                assert(st2[a] == st[a]);
                assert(st.contains(st[a]));
            } else {
                assert(st2[b] == st[b]);
                assert(st.contains(st[b]));
            }
        }
    }
}

/// The stack keeps the pairs of `u` when entries are kept and more are scanned,
/// pairs added with an end reached after `u` being no pairs of `u`.
proof fn lemma_own_pairs_keep<W>(
    g: &Graph<W>,
    s1: Seq<(usize, usize)>,
    s3: Seq<(usize, usize)>,
    from: int,
    d1: Seq<usize>,
    d3: Seq<usize>,
    t1: int,
    u: usize,
    k: int,
    k3: int,
)
    requires
        own_pairs(g, s1, from, d1, t1, u, k),
        0 <= from,
        k <= k3,
        s3.len() >= s1.len(),
        s3.take(s1.len() as int) == s1,
        forall|i: int| s1.len() <= i < s3.len() ==> d3[(#[trigger] s3[i]).0 as int] > t1 || d3[s3[i].1 as int] > t1,
        forall|i: int| 0 <= i < s1.len() ==> d3[(#[trigger] s1[i]).0 as int] == d1[s1[i].0 as int] && d3[s1[i].1 as int] == d1[s1[i].1 as int],
    ensures
        own_pairs(g, s3, from, d3, t1, u, k3),
{
    reveal(own_pairs);
    assert forall|i: int| from <= i < s3.len() && d3[(#[trigger] s3[i]).0 as int] <= t1 && d3[s3[i].1 as int] <= t1
        implies exists|k2: int| 0 <= k2 < k3 && s3[i] == ord_pair(u, (#[trigger] g.adj@[u as int]@[k2]).0) by {
        assert(i < s1.len());
        assert(s3[i] == s3.take(s1.len() as int)[i]);
        assert(s3[i] == s1[i]);
        let k2 = choose|k2: int| 0 <= k2 < k && s1[i] == ord_pair(u, (#[trigger] g.adj@[u as int]@[k2]).0);
        assert(s3[i] == ord_pair(u, g.adj@[u as int]@[k2].0));
    }
}

/// After the search below the child `v` of `u`, the stack (whether the pairs
/// found below `v` stay on it or not) still holds only pairs of `u` from the
/// entries scanned so far among those with both ends reached no later than `u`.
proof fn lemma_own_pairs_child<W>(
    g: &Graph<W>,
    s1: Seq<(usize, usize)>,
    s3: Seq<(usize, usize)>,
    from: int,
    d1: Seq<usize>,
    d3: Seq<usize>,
    vis: Seq<bool>,
    t1: int,
    tc: int,
    u: usize,
    v: usize,
    k: int,
)
    requires
        own_pairs(g, s1, from, d1, t1, u, k),
        0 <= from,
        s3.len() >= s1.len() + 1,
        s3.take(s1.len() as int + 1) == s1.push(ord_pair(u, v)),
        forall|i: int| s1.len() + 1 <= i < s3.len() ==> #[trigger] fresh_pair(d3, tc, v, Some(u), s3[i]),
        forall|i: int| s1.len() + 1 <= i < s3.len() ==> (#[trigger] s3[i]).0 < d3.len() && s3[i].1 < d3.len(),
        forall|x: int| 0 <= x < d3.len() ==> #[trigger] d3[x] <= tc || d3[x] > tc,
        d3[v as int] == tc + 1,
        t1 < tc + 1,
        forall|i: int| 0 <= i < s1.len() ==> vis[(#[trigger] s1[i]).0 as int] && vis[s1[i].1 as int],
        forall|i: int| 0 <= i < s1.len() ==> (#[trigger] s1[i]).0 < vis.len() && s1[i].1 < vis.len(),
        forall|x: int| 0 <= x < vis.len() && #[trigger] vis[x] ==> d3[x] == d1[x],
    ensures
        own_pairs(g, s3, from, d3, t1, u, k + 1),
        own_pairs(g, s1, from, d3, t1, u, k + 1),
{
    assert forall|i: int| s1.len() <= i < s3.len() implies d3[(#[trigger] s3[i]).0 as int] > t1 || d3[s3[i].1 as int] > t1 by {
        if i > s1.len() {
            assert(fresh_pair(d3, tc, v, Some(u), s3[i]));
        } else {
            assert(s3[i] == s3.take(s1.len() as int + 1)[i]);
        }
    }
    assert forall|i: int| 0 <= i < s1.len() implies d3[(#[trigger] s1[i]).0 as int] == d1[s1[i].0 as int] && d3[s1[i].1 as int] == d1[s1[i].1 as int] by {
        assert(vis[s1[i].0 as int] && vis[s1[i].1 as int]);
    }
    assert(s3.take(s1.len() as int) =~= s3.take(s1.len() as int + 1).take(s1.len() as int));
    assert(s1.push(ord_pair(u, v)).take(s1.len() as int) =~= s1);
    assert(s1.take(s1.len() as int) =~= s1);
    lemma_own_pairs_keep(g, s1, s3, from, d1, d3, t1, u, k, k + 1);
    lemma_own_pairs_keep(g, s1, s1, from, d1, d3, t1, u, k, k + 1);
}

/// The pair of `u` and an ancestor `v` other than the vertex `p` it was reached
/// from meets the pair of `p` and `u` around the cycle through the ancestors, so
/// pushing it keeps every pair above the one of `p` and `u` chained to that one.
proof fn lemma_back_chain<W>(
    g: &Graph<W>,
    u: usize,
    v: usize,
    p: usize,
    anc: Seq<usize>,
    s0: Seq<(usize, usize)>,
    s1: Seq<(usize, usize)>,
)
    requires
        anc.contains(v),
        v != p,
        anc.len() > 0,
        anc.last() == p,
        !anc.contains(u),
        forall|k: int| 0 <= k < anc.len() ==> #[trigger] anc[k] < g.n,
        forall|k: int| 0 <= k < anc.len() - 1 ==> #[trigger] g.has_edge(anc[k] as int, anc[k + 1] as int),
        s0.len() >= 1,
        s0.last() == ord_pair(p, u),
        s1.len() >= s0.len(),
        s1.take(s0.len() as int) == s0,
        forall|j: int| s0.len() <= j < s1.len() ==> chained(g, s1.skip(s0.len() - 1), #[trigger] s1[j], ord_pair(p, u)),
    ensures
        forall|j: int| s0.len() <= j < s1.len() + 1 ==> chained(
            g, s1.push(ord_pair(u, v)).skip(s0.len() - 1), #[trigger] s1.push(ord_pair(u, v))[j], ord_pair(p, u)),
{
    let e = ord_pair(u, v);
    let st = s1.push(e);
    let seg0 = s1.skip(s0.len() - 1);
    let seg = st.skip(s0.len() - 1);
    assert forall|x: (usize, usize)| seg0.contains(x) implies #[trigger] seg.contains(x) by {
        let q = choose|q: int| 0 <= q < seg0.len() && seg0[q] == x;
        assert(seg[q] == x);
    }
    let q = choose|q: int| 0 <= q < anc.len() && anc[q] == v;
    assert(anc.contains(p)) by {
        assert(anc[anc.len() - 1] == p);
    }
    assert(u != v && u != p);
    lemma_anc_path(g, anc, u as int, q);
    assert(meet_around(g, e, ord_pair(p, u))) by {
        assert(e == ord_pair(u, v) && ord_pair(p, u) == ord_pair(u, p));
        assert(reach_without(g, u as int, v as int, p as int));
    }
    assert(seg[seg.len() - 1] == e);
    assert(seg[0] == ord_pair(p, u)) by {
        assert(seg[0] == s1[s0.len() - 1]);
        assert(s1[s0.len() - 1] == s1.take(s0.len() as int)[s0.len() - 1]);
    }
    lemma_chained_step(g, seg, e, ord_pair(p, u));
    assert forall|j: int| s0.len() <= j < st.len() implies chained(g, seg, #[trigger] st[j], ord_pair(p, u)) by {
        if j < s1.len() {
            assert(st[j] == s1[j]);
            lemma_chained_mono(g, seg0, seg, s1[j], ord_pair(p, u));
        }
    }
}

/// No pair is a pair of `u` on an empty part of the stack.
proof fn lemma_own_pairs_none<W>(g: &Graph<W>, st: Seq<(usize, usize)>, disc: Seq<usize>, t1: int, u: usize)
    ensures
        own_pairs(g, st, st.len() as int, disc, t1, u, 0),
{
    reveal(own_pairs);
}

/// A component closed by the search at a split below `u`: its pairs are the
/// pair of `u` and `v` and those put on the stack while the vertices below `v`
/// (times after `tc`) were searched; no edge leaves those vertices but to `u`.
/// Then every edge meeting one of its pairs around a common cycle is in it.
proof fn lemma_split_closed<W>(
    g: &Graph<W>,
    u: usize,
    v: usize,
    s1: Seq<(usize, usize)>,
    s3: Seq<(usize, usize)>,
    cs1: Seq<Vec<(usize, usize)>>,
    cs3: Seq<Vec<(usize, usize)>>,
    vc: Seq<bool>,
    visited: Seq<bool>,
    disc: Seq<usize>,
    tc: int,
    timer: int,
    cm: Seq<(usize, usize)>,
)
    requires
        g.wf(),
        g.symmetric(),
        u < g.n,
        v < g.n,
        vc.len() == g.n,
        visited.len() == g.n,
        disc.len() == g.n,
        forall|x: int| 0 <= x < g.n && #[trigger] vc[x] ==> disc[x] <= tc,
        forall|x: int| 0 <= x < g.n && !vc[x] && #[trigger] visited[x] ==> disc[x] > tc,
        forall|x: int| 0 <= x < g.n && tc < #[trigger] disc[x] ==> visited[x] && !vc[x],
        forall|x: int| 0 <= x < g.n ==> #[trigger] disc[x] <= timer,
        forall|z: int, k: int|
            0 <= z < g.n && tc + 1 <= disc[z] <= timer && 0 <= k < g.adj@[z]@.len() && (#[trigger] g.adj@[z]@[k]).0 != u
                ==> tc + 1 <= disc[g.adj@[z]@[k].0 as int] <= timer,
        s3.len() >= s1.len(),
        s3.take(s1.len() as int) == s1,
        forall|j: int| s1.len() <= j < s3.len() ==> (tc + 1 <= disc[(#[trigger] s3[j]).0 as int] <= timer
            || tc + 1 <= disc[s3[j].1 as int] <= timer),
        forall|i: int| 0 <= i < s1.len() ==> vc[(#[trigger] s1[i]).0 as int] && vc[s1[i].1 as int],
        forall|i: int| 0 <= i < s3.len() ==> ordered_edge(g, #[trigger] s3[i]),
        cs3.len() >= cs1.len(),
        forall|c: int| 0 <= c < cs1.len() ==> #[trigger] cs3[c] == cs1[c],
        forall|c: int, i: int| 0 <= c < cs1.len() && 0 <= i < cs1[c]@.len()
            ==> vc[(#[trigger] cs1[c]@[i]).0 as int] && vc[cs1[c]@[i].1 as int],
        forall|c: int| cs1.len() <= c < cs3.len() ==> #[trigger] comp_closed(g, cs3[c]@),
        pool_disjoint(s3, cs3),
        forall|z: int, k: int|
            0 <= z < g.n && !vc[z] && visited[z] && 0 <= k < g.adj@[z]@.len() && (#[trigger] g.adj@[z]@[k]).0 != z
                ==> in_pool(s3, cs3, ord_pair(z as usize, g.adj@[z]@[k].0)),
        forall|x: (usize, usize)| #[trigger] cm.contains(x) ==> exists|j: int| s1.len() <= j < s3.len() && s3[j] == x,
        forall|j: int| s1.len() <= j < s3.len() ==> cm.contains(#[trigger] s3[j]),
    ensures
        comp_closed(g, cm),
{
    assert forall|e: (usize, usize), f: (usize, usize)|
        cm.contains(e) && proper_edge(g, f) && #[trigger] meet_around(g, e, f) implies #[trigger] cm.contains(f) by {
        let j = choose|j: int| s1.len() <= j < s3.len() && s3[j] == e;
        let (w, x, y) = choose|w: usize, x: usize, y: usize|
            e == ord_pair(w, x) && f == ord_pair(w, y) && w != x && w != y && #[trigger] reach_without(
                g,
                w as int,
                x as int,
                y as int,
            );
        // an end of e was reached below v
        let a: usize = if tc + 1 <= disc[e.0 as int] <= timer {
            e.0
        } else {
            e.1
        };
        assert(ordered_edge(g, e));
        assert(a < g.n);
        assert(tc + 1 <= disc[a as int] <= timer);
        // f has an end reached below v
        let z: usize = if tc + 1 <= disc[w as int] <= timer {
            w
        } else {
            y
        };
        if !(tc + 1 <= disc[w as int] <= timer) {
            assert(a == x);
            // w is a neighbour of x below v, so it is u
            assert(g.has_edge(a as int, w as int)) by {
                if !g.has_edge(a as int, w as int) {
                    assert(g.has_edge(w as int, a as int));
                }
            }
            let kk = choose|kk: int| 0 <= kk < g.adj@[a as int]@.len() && (#[trigger] g.adj@[a as int]@[kk]).0 == w;
            assert(w == u);
            let sub = Set::new(|q: int| 0 <= q < g.n && tc + 1 <= disc[q] <= timer);
            assert forall|q: int, t: int| sub.contains(q) && #[trigger] g.has_edge(q, t) && t != u implies sub.contains(t) by {
                let k3 = choose|k3: int| 0 <= k3 < g.adj@[q]@.len() && (#[trigger] g.adj@[q]@[k3]).0 == t;
                assert(g.adj@[q]@[k3].0 < g.n);
            }
            lemma_without_closed(g, u as int, sub, x as int, y as int);
        }
        assert(tc + 1 <= disc[z as int] <= timer);
        assert(z < g.n);
        assert(f == ord_pair(z, if z == w { y } else { w }));
        let other: usize = if z == w { y } else { w };
        assert(proper_edge(g, f));
        assert(g.has_edge(z as int, other as int)) by {
            if !g.has_edge(z as int, other as int) {
                assert(g.has_edge(other as int, z as int));
            }
        }
        let kz = choose|kz: int| 0 <= kz < g.adj@[z as int]@.len() && (#[trigger] g.adj@[z as int]@[kz]).0 == other;
        assert(in_pool(s3, cs3, ord_pair(z, g.adj@[z as int]@[kz].0)));
        assert(in_pool(s3, cs3, f));
        if s3.contains(f) {
            let q = choose|q: int| 0 <= q < s3.len() && s3[q] == f;
            if q < s1.len() {
                assert(s1[q] == s3.take(s1.len() as int)[q]);
                assert(vc[f.0 as int] && vc[f.1 as int]);
                assert(visited[z as int] && !vc[z as int]);
            }
            assert(cm.contains(s3[q]));
        } else {
            let c = choose|c: int| 0 <= c < cs3.len() && (#[trigger] cs3[c])@.contains(f);
            if c < cs1.len() {
                assert(cs3[c] == cs1[c]);
                let t = choose|t: int| 0 <= t < cs1[c]@.len() && cs1[c]@[t] == f;
                assert(vc[cs1[c]@[t].0 as int] && vc[cs1[c]@[t].1 as int]);
                assert(visited[z as int] && !vc[z as int]);
            } else {
                assert(comp_closed(g, cs3[c]@));
                lemma_without_sym(g, w as int, x as int, y as int);
                assert(meet_around(g, f, e)) by {
                    assert(reach_without(g, w as int, y as int, x as int));
                }
                assert(proper_edge(g, e));
                assert(cs3[c]@.contains(e));
                assert(s3.contains(e));
            }
        }
    }
}

/// Pushing onto the stack keeps what was there and adds the pushed pair.
proof fn lemma_pool_push(stack: Seq<(usize, usize)>, comps: Seq<Vec<(usize, usize)>>, x: (usize, usize))
    ensures
        in_pool(stack.push(x), comps, x),
        forall|e: (usize, usize)| #[trigger] in_pool(stack, comps, e) ==> in_pool(stack.push(x), comps, e),
{
    assert(stack.push(x)[stack.len() as int] == x);
    assert forall|e: (usize, usize)| #[trigger] in_pool(stack, comps, e) implies in_pool(stack.push(x), comps, e) by {
        if stack.contains(e) {
            let i = choose|i: int| 0 <= i < stack.len() && stack[i] == e;
            assert(stack.push(x)[i] == e);
        }
    }
}

/// Moving the top of the stack into the component being gathered loses nothing.
proof fn lemma_pool_pop(stack: Seq<(usize, usize)>, comps: Seq<Vec<(usize, usize)>>, comp: Seq<(usize, usize)>)
    requires
        stack.len() > 0,
    ensures
        forall|e: (usize, usize)| in_pool(stack, comps, e) || comp.contains(e) ==>
            #[trigger] in_pool(stack.drop_last(), comps, e) || comp.push(stack.last()).contains(e),
{
    assert forall|e: (usize, usize)| in_pool(stack, comps, e) || comp.contains(e) implies
        #[trigger] in_pool(stack.drop_last(), comps, e) || comp.push(stack.last()).contains(e) by {
        if stack.contains(e) {
            let i = choose|i: int| 0 <= i < stack.len() && stack[i] == e;
            if i < stack.len() - 1 {
                assert(stack.drop_last()[i] == e);
            } else {
                assert(comp.push(stack.last())[comp.len() as int] == e);
            }
        } else if comp.contains(e) {
            let i = choose|i: int| 0 <= i < comp.len() && comp[i] == e;
            assert(comp.push(stack.last())[i] == e);
        } else {
            let c = choose|c: int| 0 <= c < comps.len() && (#[trigger] comps[c])@.contains(e);
            assert(comps[c]@.contains(e));
        }
    }
}

/// Closing the gathered component keeps every pair in the pool.
proof fn lemma_pool_close(stack: Seq<(usize, usize)>, comps: Seq<Vec<(usize, usize)>>, comp: Vec<(usize, usize)>)
    ensures
        forall|e: (usize, usize)| in_pool(stack, comps, e) || comp@.contains(e) ==> #[trigger] in_pool(stack, comps.push(comp), e),
{
    assert forall|e: (usize, usize)| in_pool(stack, comps, e) || comp@.contains(e) implies #[trigger] in_pool(stack, comps.push(comp), e) by {
        if stack.contains(e) {
        } else if comp@.contains(e) {
            assert(comps.push(comp)[comps.len() as int] == comp);
        } else {
            let c = choose|c: int| 0 <= c < comps.len() && (#[trigger] comps[c])@.contains(e);
            assert(comps.push(comp)[c] == comps[c]);
        }
    }
}

#[verifier::rlimit(100)]
#[verifier::spinoff_prover]
fn bcc_dfs<W>(
    g: &Graph<W>,
    u: usize,
    parent: Option<usize>,
    disc: &mut Vec<usize>,
    low: &mut Vec<usize>,
    timer: &mut usize,
    visited: &mut Vec<bool>,
    stack: &mut Vec<(usize, usize)>,
    components: &mut Vec<Vec<(usize, usize)>>,
    Ghost(anc): Ghost<Seq<usize>>,
)
    requires
        g.wf(),
        forall|i: int| 0 <= i < anc.len() ==> #[trigger] anc[i] < g.n && old(visited)@[anc[i] as int],
        parent matches Some(p) ==> anc.len() > 0 && anc.last() == p && g.has_edge(p as int, u as int),
        anc.len() > 0 ==> parent == Some(anc.last()),
        finished_closed(g, old(visited)@, anc, -1),
        forall|k: int| 0 <= k < anc.len() - 1 ==> #[trigger] g.has_edge(anc[k] as int, anc[k + 1] as int),
        parent matches Some(p) ==> old(stack)@.len() >= 1 && old(stack)@.last() == ord_pair(p, u),
        marker_only(old(stack)@, u, parent),
        pool_nodup(g, old(stack)@, old(components)@, old(components)@.len() as int),
        u < g.n,
        !old(visited)@[u as int],
        dfs_state_ok(g, old(disc)@, old(low)@, *old(timer), old(visited)@),
        disc_ok(g, old(disc)@, old(visited)@, *old(timer)),
        forall|i: int| 0 <= i < old(stack)@.len() ==> ordered_edge(g, #[trigger] old(stack)@[i]),
        forall|c: int| 0 <= c < old(components)@.len() ==> (#[trigger] old(components)@[c])@.len() >= 1
            && forall|i: int| 0 <= i < old(components)@[c]@.len() ==> ordered_edge(g, #[trigger] old(components)@[c]@[i]),
        parent matches Some(p) ==> in_pool(old(stack)@, old(components)@, ord_pair(p, u)),
        pool_visited(old(stack)@, old(components)@, old(visited)@, u as int),
        pool_disjoint(old(stack)@, old(components)@),
    ensures
        dfs_state_ok(g, final(disc)@, final(low)@, *final(timer), final(visited)@),
        disc_ok(g, final(disc)@, final(visited)@, *final(timer)),
        *final(timer) > *old(timer),
        final(visited)@[u as int],
        final(disc)@[u as int] == *old(timer) + 1,
        forall|x: int| 0 <= x < g.n && #[trigger] old(visited)@[x] ==> final(visited)@[x] && final(disc)@[x] == old(disc)@[x]
            && final(low)@[x] == old(low)@[x],
        forall|x: int| 0 <= x < g.n && !old(visited)@[x] && #[trigger] final(visited)@[x] ==> final(disc)@[x] > *old(timer),
        final(stack)@.len() >= old(stack)@.len(),
        final(stack)@.take(old(stack)@.len() as int) == old(stack)@,
        forall|i: int| 0 <= i < final(stack)@.len() ==> ordered_edge(g, #[trigger] final(stack)@[i]),
        forall|c: int| 0 <= c < final(components)@.len() ==> (#[trigger] final(components)@[c])@.len() >= 1
            && forall|i: int| 0 <= i < final(components)@[c]@.len() ==> ordered_edge(g, #[trigger] final(components)@[c]@[i]),
        forall|e: (usize, usize)| #[trigger] in_pool(old(stack)@, old(components)@, e) ==> in_pool(final(stack)@, final(components)@, e),
        g.symmetric() ==> forall|z: int, k: int|
            0 <= z < g.n && !old(visited)@[z] && final(visited)@[z] && 0 <= k < g.adj@[z]@.len() && (#[trigger] g.adj@[z]@[k]).0 != z
                ==> in_pool(final(stack)@, final(components)@, ord_pair(z as usize, g.adj@[z]@[k].0)),
        pool_visited(final(stack)@, final(components)@, final(visited)@, -1),
        pool_disjoint(final(stack)@, final(components)@),
        finished_closed(g, final(visited)@, anc, -1),
        subtree_edges(g, final(disc)@, *old(timer) + 1, *final(timer) as int, final(low)@[u as int] as int, u as int, parent),
        final(low)@[u as int] >= 1,
        g.symmetric() ==> forall|c: int| old(components)@.len() <= c < final(components)@.len() ==> #[trigger] comp_closed(g, final(components)@[c]@),
        g.symmetric() ==> forall|c: int| old(components)@.len() <= c < final(components)@.len() ==> #[trigger] comp_linked(g, final(components)@[c]@),
        g.symmetric() ==> exists|p: Seq<usize>|
            #[trigger] low_witness(g, final(disc)@, u as int, parent, *old(timer) + 1, *final(timer) as int, anc, final(low)@[u as int] as int, p),
        g.symmetric() ==> (parent matches Some(p) ==> forall|j: int| old(stack)@.len() <= j < final(stack)@.len() ==> chained(
            g, final(stack)@.skip(old(stack)@.len() - 1), #[trigger] final(stack)@[j], ord_pair(p, u))),
        g.symmetric() && parent is None ==> comp_linked(g, final(stack)@.skip(old(stack)@.len() as int)),
        pool_nodup(g, final(stack)@, final(components)@, old(components)@.len() as int),
        forall|i: int| old(stack)@.len() <= i < final(stack)@.len() ==> #[trigger] fresh_pair(final(disc)@, *old(timer) as int, u, parent, final(stack)@[i]),
        final(components)@.len() >= old(components)@.len(),
        forall|c: int| 0 <= c < old(components)@.len() ==> #[trigger] final(components)@[c] == old(components)@[c],
        forall|c: int, i: int| old(components)@.len() <= c < final(components)@.len() && 0 <= i < final(components)@[c]@.len()
            ==> #[trigger] fresh_pair(final(disc)@, *old(timer) as int, u, parent, final(components)@[c]@[i]),
    decreases g.n - *old(timer),
{
    let ghost v0 = visited@;
    let ghost d0 = disc@;
    let ghost l0 = low@;
    let ghost tm0 = *timer;
    let ghost c0 = components@;
    proof {
        lemma_vis_mark(visited@, u as int);
    }
    visited.set(u, true);
    *timer = *timer + 1;
    disc.set(u, *timer);
    low.set(u, *timer);
    let ghost t1 = *timer;
    let ghost s0 = stack@;
    let ghost inner = anc.push(u);
    proof {
        assert(low_witness(g, disc@, u as int, parent, t1 as int, *timer as int, anc, low@[u as int] as int, seq![u]));
        assert(!anc.contains(u)) by {
            if anc.contains(u) {
                let q = choose|q: int| 0 <= q < anc.len() && anc[q] == u;
                assert(v0[anc[q] as int]);
            }
        }
        assert(stack@.skip(s0.len() as int) =~= Seq::<(usize, usize)>::empty());
        lemma_own_pairs_none(g, stack@, disc@, t1 as int, u);
        assert forall|x: int, k2: int|
            0 <= x < g.n && visited@[x] && !anc.contains(x as usize) && x != u && 0 <= k2 < g.adj@[x]@.len()
                implies visited@[(#[trigger] g.adj@[x]@[k2]).0 as int] by {
            assert(g.adj@[x]@[k2].0 < g.n);
        }
        assert forall|i: int| 0 <= i < stack@.len() implies (visited@[(#[trigger] stack@[i]).0 as int] || stack@[i].0 == -1)
            && (visited@[stack@[i].1 as int] || stack@[i].1 == -1) by {
            assert(v0[stack@[i].0 as int] || stack@[i].0 == u);
            assert(v0[stack@[i].1 as int] || stack@[i].1 == u);
        }
        assert forall|c: int, i: int| 0 <= c < components@.len() && 0 <= i < components@[c]@.len()
            implies visited@[(#[trigger] components@[c]@[i]).0 as int] && visited@[components@[c]@[i].1 as int] by {
            assert(v0[components@[c]@[i].0 as int] && v0[components@[c]@[i].1 as int]);
        }
    }
    let mut children: usize = 0;
    let mut k: usize = 0;
    while k < g.adj[u].len()
        invariant
            g.wf(),
            u < g.n,
            visited@[u as int],
            dfs_state_ok(g, disc@, low@, *timer, visited@),
            disc_ok(g, disc@, visited@, *timer),
            *timer >= t1,
            t1 == tm0 + 1,
            tm0 == *old(timer),
            v0 == old(visited)@,
            d0 == old(disc)@,
            c0 == old(components)@,
            v0.len() == g.n,
            !v0[u as int],
            disc@[u as int] == t1,
            disc_ok(g, d0, v0, tm0),
            forall|x: int| 0 <= x < g.n && #[trigger] v0[x] ==> visited@[x] && disc@[x] == d0[x] && low@[x] == l0[x],
            l0 == old(low)@,
            forall|x: int| 0 <= x < g.n && !v0[x] && #[trigger] visited@[x] ==> disc@[x] > tm0,
            s0 == old(stack)@,
            stack@.len() >= s0.len(),
            stack@.take(s0.len() as int) == s0,
            forall|i: int| 0 <= i < stack@.len() ==> ordered_edge(g, #[trigger] stack@[i]),
            forall|c: int| 0 <= c < components@.len() ==> (#[trigger] components@[c])@.len() >= 1
                && forall|i: int| 0 <= i < components@[c]@.len() ==> ordered_edge(g, #[trigger] components@[c]@[i]),
            k <= g.adj@[u as int]@.len(),
            children <= k,
            forall|e: (usize, usize)| #[trigger] in_pool(s0, c0, e) ==> in_pool(stack@, components@, e),
            parent matches Some(p) ==> in_pool(s0, c0, ord_pair(p, u)),
            g.symmetric() ==> forall|z: int, k2: int|
                0 <= z < g.n && !v0[z] && visited@[z] && z != u && 0 <= k2 < g.adj@[z]@.len() && (#[trigger] g.adj@[z]@[k2]).0 != z
                    ==> in_pool(stack@, components@, ord_pair(z as usize, g.adj@[z]@[k2].0)),
            g.symmetric() ==> forall|j: int| 0 <= j < k && (#[trigger] g.adj@[u as int]@[j]).0 != u
                ==> in_pool(stack@, components@, ord_pair(u, g.adj@[u as int]@[j].0)),
            pool_visited(stack@, components@, visited@, -1),
            pool_disjoint(stack@, components@),
            pool_visited(s0, c0, v0, u as int),
            forall|i: int| s0.len() <= i < stack@.len() ==> #[trigger] fresh_pair(disc@, tm0 as int, u, parent, stack@[i]),
            components@.len() >= c0.len(),
            forall|c: int| 0 <= c < c0.len() ==> #[trigger] components@[c] == c0[c],
            forall|c: int, i: int| c0.len() <= c < components@.len() && 0 <= i < components@[c]@.len()
                ==> disc@[(#[trigger] components@[c]@[i]).0 as int] > t1 || disc@[components@[c]@[i].1 as int] > t1,
            forall|i: int| 0 <= i < anc.len() ==> #[trigger] anc[i] < g.n && v0[anc[i] as int],
            parent matches Some(p) ==> anc.len() > 0 && anc.last() == p && g.has_edge(p as int, u as int),
            anc.len() > 0 ==> parent == Some(anc.last()),
            inner == anc.push(u),
            finished_closed(g, v0, anc, -1),
            low@[u as int] <= t1,
            low@[u as int] >= 1,
            forall|x: int| 0 <= x < g.n && !v0[x] && #[trigger] visited@[x] && x != u ==> disc@[x] > t1,
            forall|x: int, k2: int|
                0 <= x < g.n && visited@[x] && !anc.contains(x as usize) && x != u && 0 <= k2 < g.adj@[x]@.len()
                    ==> visited@[(#[trigger] g.adj@[x]@[k2]).0 as int],
            forall|j: int| 0 <= j < k ==> visited@[(#[trigger] g.adj@[u as int]@[j]).0 as int],
            forall|j: int| 0 <= j < k ==> {
                let y = (#[trigger] g.adj@[u as int]@[j]).0 as int;
                &&& 1 <= disc@[y] <= *timer
                &&& disc@[y] >= t1 || disc@[y] >= low@[u as int] || parent == Some(y as usize)
            },
            subtree_edges(g, disc@, t1 + 1, *timer as int, low@[u as int] as int, -1, None),
            g.symmetric() ==> forall|c: int| c0.len() <= c < components@.len() ==> #[trigger] comp_closed(g, components@[c]@),
            g.symmetric() ==> forall|c: int| c0.len() <= c < components@.len() ==> #[trigger] comp_linked(g, components@[c]@),
            g.symmetric() ==> exists|p: Seq<usize>|
                #[trigger] low_witness(g, disc@, u as int, parent, t1 as int, *timer as int, anc, low@[u as int] as int, p),
            g.symmetric() ==> (parent matches Some(p) ==> forall|j: int| s0.len() <= j < stack@.len() ==> chained(
                g, stack@.skip(s0.len() - 1), #[trigger] stack@[j], ord_pair(p, u))),
            g.symmetric() && parent is None ==> comp_linked(g, stack@.skip(s0.len() as int)),
            g.symmetric() && parent is None && children == 0 ==> stack@ == s0,
            pool_nodup(g, stack@, components@, c0.len() as int),
            marker_only(s0, u, parent),
            own_pairs(g, stack@, s0.len() as int, disc@, t1 as int, u, k as int),
            forall|kk: int| 0 <= kk < anc.len() - 1 ==> #[trigger] g.has_edge(anc[kk] as int, anc[kk + 1] as int),
            parent matches Some(p) ==> s0.len() >= 1 && s0.last() == ord_pair(p, u),
            !anc.contains(u),
        decreases g.adj@[u as int]@.len() - k,
    {
        let v = g.adj[u][k].0;
        proof {
            assert(g.adj@[u as int]@[k as int].0 < g.n);
            assert(g.has_edge(u as int, v as int));
        }
        let is_parent = match parent {
            Some(p) => p == v,
            None => false,
        };
        let e = if u < v { (u, v) } else { (v, u) };
        assert(e == ord_pair(u, v));
        if !is_parent {
            if !visited[v] {
                children = children + 1;
                let ghost s1 = stack@;
                let ghost cs1 = components@;
                let ghost vc = visited@;
                let ghost dc = disc@;
                let ghost tc = *timer;
                stack.push(e);
                proof {
                    assert(stack@.take(s0.len() as int) =~= s1.take(s0.len() as int));
                    lemma_vis_mark(visited@, v as int);
                    lemma_pool_push(s1, cs1, e);
                    assert(stack@ == s1.push(e));
                    assert forall|i: int| 0 <= i < stack@.len() implies (visited@[(#[trigger] stack@[i]).0 as int] || stack@[i].0 == v)
                        && (visited@[stack@[i].1 as int] || stack@[i].1 == v) by {
                        if i < s1.len() {
                            assert(stack@[i] == s1[i]);
                        }
                    }
                    assert(!vc[v as int]);
                    assert forall|c: int, x: (usize, usize)| 0 <= c < cs1.len() && #[trigger] cs1[c]@.contains(x) implies !stack@.contains(x) by {
                        assert(!s1.contains(x));
                        if stack@.contains(x) {
                            let q = choose|q: int| 0 <= q < stack@.len() && stack@[q] == x;
                            if q < s1.len() {
                                assert(s1[q] == x);
                            } else {
                                let qi = choose|qi: int| 0 <= qi < cs1[c]@.len() && cs1[c]@[qi] == x;
                                assert(vc[cs1[c]@[qi].0 as int] && vc[cs1[c]@[qi].1 as int]);
                            }
                        }
                    }
                }
                let ghost s2 = stack@;
                let ghost luc = low@[u as int];
                proof {
                    assert forall|i: int| 0 <= i < inner.len() implies #[trigger] inner[i] < g.n && visited@[inner[i] as int] by {
                        if i < anc.len() {
                            assert(inner[i] == anc[i]);
                        }
                    }
                    assert forall|x: int, k2: int|
                        0 <= x < g.n && visited@[x] && !inner.contains(x as usize) && x != -1 && 0 <= k2 < g.adj@[x]@.len()
                            implies visited@[(#[trigger] g.adj@[x]@[k2]).0 as int] by {
                        assert(inner[anc.len() as int] == u);
                        if anc.contains(x as usize) {
                            let q = choose|q: int| 0 <= q < anc.len() && anc[q] == x as usize;
                            assert(inner[q] == x);
                        }
                    }
                    assert(subtree_edges(g, dc, t1 + 1, tc as int, luc as int, -1, None));
                    assert forall|kk: int| 0 <= kk < inner.len() - 1 implies #[trigger] g.has_edge(inner[kk] as int, inner[kk + 1] as int) by {
                        if kk < anc.len() - 1 {
                            assert(inner[kk] == anc[kk] && inner[kk + 1] == anc[kk + 1]);
                        } else {
                            assert(inner[kk] == anc.last());
                            assert(inner[kk + 1] == u);
                        }
                    }
                    assert(stack@.last() == ord_pair(u, v));
                    assert forall|i: int| 0 <= i < s1.len() implies vc[(#[trigger] s1[i]).0 as int] && vc[s1[i].1 as int] by {}
                    lemma_nodup_tree_push(g, s1, cs1, c0.len() as int, vc, u, v);
                }
                let ghost pu = choose|p: Seq<usize>| #[trigger] low_witness(g, dc, u as int, parent, t1 as int, tc as int, anc, luc as int, p);
                bcc_dfs(g, v, Some(u), disc, low, timer, visited, stack, components, Ghost(inner));
                let ghost lv = low@[v as int];
                let ghost s3 = stack@;
                let ghost cs3 = components@;
                proof {
                    assert(stack@[s1.len() as int] == stack@.take(s2.len() as int)[s1.len() as int]);
                    assert(stack@[s1.len() as int] == e);
                    assert(stack@.take(s0.len() as int) =~= stack@.take(s2.len() as int).take(s0.len() as int));
                    assert forall|x: int| 0 <= x < g.n && #[trigger] v0[x] implies visited@[x] && disc@[x] == d0[x] by {
                        assert(vc[x]);
                    }
                    assert forall|x: int| 0 <= x < g.n && !v0[x] && #[trigger] visited@[x] implies disc@[x] > tm0 by {
                        if vc[x] {
                            assert(dc[x] > tm0);
                        }
                    }
                    assert(disc@[v as int] == tc + 1);
                    assert(tc >= t1);
                    assert forall|i: int| s0.len() <= i < s3.len() implies #[trigger] fresh_pair(disc@, tm0 as int, u, parent, s3[i]) by {
                        if i < s1.len() {
                            assert(s3[i] == s3.take(s2.len() as int)[i]);
                            assert(s3[i] == s1[i]);
                            assert(fresh_pair(dc, tm0 as int, u, parent, s1[i]));
                            assert(ordered_edge(g, s1[i]));
                            assert(vc[s1[i].0 as int] && vc[s1[i].1 as int]);
                            assert(disc@[s1[i].0 as int] == dc[s1[i].0 as int]);
                            assert(disc@[s1[i].1 as int] == dc[s1[i].1 as int]);
                        } else if i == s1.len() {
                        } else {
                            assert(fresh_pair(disc@, tc as int, v, Some(u), s3[i]));
                        }
                    }
                    assert forall|c: int| 0 <= c < c0.len() implies #[trigger] cs3[c] == c0[c] by {
                        assert(cs3[c] == cs1[c]);
                    }
                    if g.symmetric() {
                        assert forall|c: int| c0.len() <= c < cs3.len() implies #[trigger] comp_closed(g, cs3[c]@) by {
                            if c < cs1.len() {
                                assert(cs3[c] == cs1[c]);
                            }
                        }
                    }
                    assert forall|c: int, i: int| c0.len() <= c < cs3.len() && 0 <= i < cs3[c]@.len()
                        implies disc@[(#[trigger] cs3[c]@[i]).0 as int] > t1 || disc@[cs3[c]@[i].1 as int] > t1 by {
                        if c < cs1.len() {
                            assert(cs3[c] == cs1[c]);
                            assert(ordered_edge(g, cs1[c]@[i]));
                            assert(vc[cs1[c]@[i].0 as int] && vc[cs1[c]@[i].1 as int]);
                            assert(dc[cs1[c]@[i].0 as int] > t1 || dc[cs1[c]@[i].1 as int] > t1);
                        } else {
                            assert(fresh_pair(disc@, tc as int, v, Some(u), cs3[c]@[i]));
                        }
                    }
                    // no pair pushed below v is the pair of u and v
                    assert forall|j: int| s1.len() < j < s3.len() implies #[trigger] s3[j] != e by {
                        assert(fresh_pair(disc@, tc as int, v, Some(u), s3[j]));
                        assert(disc@[u as int] == t1);
                    }
                }
                if low[v] < low[u] {
                    low.set(u, low[v]);
                }
                proof {
                    assert forall|x: int, k2: int|
                        0 <= x < g.n && visited@[x] && !anc.contains(x as usize) && x != u && 0 <= k2 < g.adj@[x]@.len()
                            implies visited@[(#[trigger] g.adj@[x]@[k2]).0 as int] by {
                        if !inner.contains(x as usize) {
                        } else {
                            let q = choose|q: int| 0 <= q < inner.len() && inner[q] == x as usize;
                            if q < anc.len() {
                                assert(anc[q] == x);
                            }
                        }
                    }
                    assert forall|j: int| 0 <= j < k implies visited@[(#[trigger] g.adj@[u as int]@[j]).0 as int] by {
                        assert(vc[g.adj@[u as int]@[j].0 as int]);
                    }
                    assert forall|x: int| 0 <= x < g.n && !v0[x] && #[trigger] visited@[x] && x != u implies disc@[x] > t1 by {
                        if vc[x] {
                            assert(dc[x] > t1);
                        }
                    }
                    assert forall|z: int, k2: int|
                        0 <= z < g.n && t1 + 1 <= disc@[z] <= *timer && 0 <= k2 < g.adj@[z]@.len() implies {
                            let y = (#[trigger] g.adj@[z]@[k2]).0 as int;
                            &&& 1 <= disc@[y] <= *timer
                            &&& disc@[y] >= t1 + 1 || disc@[y] >= low@[u as int] || (z == -1 && None::<usize> == Some(y as usize))
                        } by {
                        let y = g.adj@[z]@[k2].0 as int;
                        assert(y < g.n);
                        if disc@[z] <= tc {
                            assert(visited@[z]);
                            assert(vc[z]) by {
                                if !vc[z] {
                                    assert(disc@[z] > tc);
                                }
                            }
                            assert(dc[z] == disc@[z]);
                            assert(1 <= dc[y] <= tc);
                            assert(vc[y]);
                            assert(disc@[y] == dc[y]);
                        } else {
                            assert(tc + 1 <= disc@[z]);
                        }
                    }
                    assert forall|j: int| 0 <= j < k + 1 implies {
                        let y = (#[trigger] g.adj@[u as int]@[j]).0 as int;
                        &&& 1 <= disc@[y] <= *timer
                        &&& disc@[y] >= t1 || disc@[y] >= low@[u as int] || parent == Some(y as usize)
                    } by {
                        let y = g.adj@[u as int]@[j].0 as int;
                        if j < k {
                            assert(vc[y]);
                            assert(disc@[y] == dc[y]);
                        }
                    }
                    if g.symmetric() {
                        assert forall|x: int| 0 <= x < g.n && dc[x] >= 1 implies #[trigger] disc@[x] == dc[x] by {
                            assert(vc[x]);
                        }
                        lemma_witness_frame(g, dc, disc@, u as int, parent, t1 as int, tc as int, *timer as int, anc, luc as int, pu);
                        if lv < luc {
                            let pv = choose|p: Seq<usize>| #[trigger] low_witness(g, disc@, v as int, Some(u), tc + 1, *timer as int, inner, lv as int, p);
                            lemma_child_witness(g, disc@, u, parent, v, t1 as int, tc + 1, *timer as int, anc, lv as int, pv);
                        }
                        assert forall|c: int| c0.len() <= c < cs3.len() implies #[trigger] comp_linked(g, cs3[c]@) by {
                            if c < cs1.len() {
                                assert(cs3[c] == cs1[c]);
                            }
                        }
                    }
                    lemma_own_pairs_child(g, s1, s3, s0.len() as int, dc, disc@, vc, t1 as int, tc as int, u, v, k as int);
                    lemma_nodup_merge(g, s1, s3, cs1, cs3, c0.len() as int);
                }
                if (parent.is_none() && children > 1) || (parent.is_some() && low[v] >= disc[u]) {
                    let mut comp: Vec<(usize, usize)> = Vec::new();
                    proof {
                        assert(s3.take(s3.len() as int) =~= s3);
                    }
                    loop
                        invariant_except_break
                            stack@.len() > s1.len(),
                            stack@[s1.len() as int] == e,
                        invariant
                            stack@.take(s0.len() as int) == s0,
                            s1.len() >= s0.len(),
                            forall|i: int| 0 <= i < stack@.len() ==> ordered_edge(g, #[trigger] stack@[i]),
                            forall|i: int| 0 <= i < comp@.len() ==> ordered_edge(g, #[trigger] comp@[i]),
                            forall|x: (usize, usize)| #[trigger] in_pool(s3, cs3, x) ==> in_pool(stack@, cs3, x) || comp@.contains(x),
                            components@ == cs3,
                            stack@.len() + comp@.len() == s3.len(),
                            stack@ == s3.take(stack@.len() as int),
                            forall|i: int| 0 <= i < comp@.len() ==> #[trigger] comp@[i] == s3[s3.len() - 1 - i],
                            s3.len() > s1.len(),
                            s3[s1.len() as int] == e,
                            forall|j: int| s1.len() < j < s3.len() ==> #[trigger] s3[j] != e,
                        ensures
                            stack@ == s3.take(s1.len() as int),
                            comp@.len() == s3.len() - s1.len(),
                            forall|i: int| 0 <= i < comp@.len() ==> #[trigger] comp@[i] == s3[s3.len() - 1 - i],
                            stack@.len() >= s1.len(),
                            stack@.take(s0.len() as int) == s0,
                            comp@.len() >= 1,
                            forall|i: int| 0 <= i < stack@.len() ==> ordered_edge(g, #[trigger] stack@[i]),
                            forall|i: int| 0 <= i < comp@.len() ==> ordered_edge(g, #[trigger] comp@[i]),
                            forall|x: (usize, usize)| #[trigger] in_pool(s3, cs3, x) ==> in_pool(stack@, cs3, x) || comp@.contains(x),
                            components@ == cs3,
                        decreases stack@.len(),
                    {
                        let ghost st = stack@;
                        let ghost cp = comp@;
                        let top = stack.pop().unwrap();
                        proof {
                            assert(stack@ == st.drop_last());
                            assert(top == st[st.len() - 1]);
                            assert(stack@.take(s0.len() as int) =~= st.take(s0.len() as int));
                            lemma_pool_pop(st, cs3, cp);
                        }
                        comp.push(top);
                        proof {
                            assert(stack@ =~= s3.take(stack@.len() as int));
                            assert forall|i: int| 0 <= i < comp@.len() implies #[trigger] comp@[i] == s3[s3.len() - 1 - i] by {
                                if i < cp.len() {
                                    assert(comp@[i] == cp[i]);
                                }
                            }
                        }
                        if top.0 == e.0 && top.1 == e.1 {
                            proof {
                                assert(top == e);
                                assert(st.len() - 1 == s1.len()) by {
                                    if st.len() - 1 > s1.len() {
                                        assert(s3[st.len() - 1] != e);
                                    }
                                }
                            }
                            break;
                        }
                        proof {
                            assert(st.len() - 1 != s1.len());
                            assert(stack@[s1.len() as int] == st[s1.len() as int]);
                        }
                    }
                    proof {
                        lemma_pool_close(stack@, cs3, comp);
                        assert(s3.take(s1.len() as int) =~= s3.take(s2.len() as int).take(s1.len() as int));
                        assert(s2.take(s1.len() as int) =~= s1);
                        assert(stack@ == s1);
                        if g.symmetric() {
                            // nothing leaves the vertices below v but towards u
                            assert forall|z: int, k2: int|
                                0 <= z < g.n && tc + 1 <= disc@[z] <= *timer && 0 <= k2 < g.adj@[z]@.len() && (#[trigger] g.adj@[z]@[k2]).0 != u
                                    implies tc + 1 <= disc@[g.adj@[z]@[k2].0 as int] <= *timer by {
                                let y = g.adj@[z]@[k2].0 as int;
                                assert(y < g.n);
                                assert(1 <= disc@[y] <= *timer);
                                if disc@[y] < tc + 1 {
                                    assert(disc@[y] >= lv);
                                    assert(visited@[y]);
                                    assert(vc[y]) by {
                                        if !vc[y] {
                                            assert(disc@[y] > tc);
                                        }
                                    }
                                    if inner.contains(y as usize) {
                                        let q = choose|q: int| 0 <= q < inner.len() && inner[q] == y as usize;
                                        if q < anc.len() {
                                            assert(anc[q] == y);
                                            assert(v0[y]);
                                            assert(d0[y] <= tm0);
                                            assert(disc@[y] == d0[y]);
                                            assert(parent.is_some());
                                        } else {
                                            assert(inner[q] == u);
                                        }
                                    } else {
                                        assert(g.has_edge(z, y));
                                        assert(g.has_edge(y, z));
                                        let kz = choose|kz: int| 0 <= kz < g.adj@[y]@.len() && (#[trigger] g.adj@[y]@[kz]).0 == z;
                                        assert(vc[g.adj@[y]@[kz].0 as int]);
                                        assert(dc[z] <= tc);
                                        assert(disc@[z] == dc[z]);
                                    }
                                }
                            }
                            assert forall|x: int| 0 <= x < g.n && tc < #[trigger] disc@[x] implies visited@[x] && !vc[x] by {
                                if vc[x] {
                                    assert(dc[x] <= tc);
                                }
                            }
                            assert forall|x: int| 0 <= x < g.n && #[trigger] vc[x] implies disc@[x] <= tc by {
                                assert(dc[x] <= tc);
                            }
                            assert forall|j: int| s1.len() <= j < s3.len() implies (tc + 1 <= disc@[(#[trigger] s3[j]).0 as int] <= *timer
                                || tc + 1 <= disc@[s3[j].1 as int] <= *timer) by {
                                assert(s2.len() == s1.len() + 1);
                                if j > s1.len() {
                                    assert(fresh_pair(disc@, tc as int, v, Some(u), s3[j]));
                                    assert(ordered_edge(g, s3[j]));
                                }
                            }
                            assert forall|x: (usize, usize)| #[trigger] comp@.contains(x) implies exists|j: int| s1.len() <= j < s3.len() && s3[j] == x by {
                                let i = choose|i: int| 0 <= i < comp@.len() && comp@[i] == x;
                                assert(comp@[i] == s3[s3.len() - 1 - i]);
                            }
                            assert forall|j: int| s1.len() <= j < s3.len() implies comp@.contains(#[trigger] s3[j]) by {
                                assert(comp@[s3.len() - 1 - j] == s3[j]);
                            }
                            lemma_split_closed(g, u, v, s1, s3, cs1, cs3, vc, visited@, disc@, tc as int, *timer as int, comp@);
                            let seg = s3.skip(s1.len() as int);
                            assert(s2.len() - 1 == s1.len());
                            assert forall|x: (usize, usize)| seg.contains(x) implies #[trigger] chained(g, seg, x, ord_pair(u, v)) by {
                                let q = choose|q: int| 0 <= q < seg.len() && seg[q] == x;
                                assert(seg[q] == s3[s1.len() + q]);
                                if q == 0 {
                                    lemma_chained_refl(g, seg, x);
                                } else {
                                    assert(chained(g, s3.skip(s2.len() - 1), s3[s1.len() + q], ord_pair(u, v)));
                                }
                            }
                            lemma_seg_linked(g, seg, ord_pair(u, v));
                            assert forall|x: (usize, usize)| #[trigger] seg.contains(x) <==> comp@.contains(x) by {
                                if seg.contains(x) {
                                    let q = choose|q: int| 0 <= q < seg.len() && seg[q] == x;
                                    assert(seg[q] == s3[s1.len() + q]);
                                }
                                if comp@.contains(x) {
                                    let jj = choose|jj: int| s1.len() <= jj < s3.len() && s3[jj] == x;
                                    assert(seg[jj - s1.len()] == x);
                                }
                            }
                            lemma_linked_same(g, seg, comp@);
                        }
                    }
                    let ghost cm = comp@;
                    proof {
                        lemma_nodup_pop(g, s3, cs3, c0.len() as int, s1.len() as int, comp);
                        assert(s3.take(s1.len() as int) == s1);
                    }
                    components.push(comp);
                    proof {
                        let cs4 = components@;
                        assert(cs4 == cs3.push(comp));
                        assert(cs4[cs3.len() as int]@ == cm);
                        // each pair of the new component was on the stack above s1
                        assert forall|x: (usize, usize)| #[trigger] cm.contains(x) implies exists|j: int| s1.len() <= j < s3.len() && s3[j] == x by {
                            let i = choose|i: int| 0 <= i < cm.len() && cm[i] == x;
                            assert(cm[i] == s3[s3.len() - 1 - i]);
                        }
                        assert forall|x: (usize, usize)| #[trigger] cm.contains(x) implies !s1.contains(x) && s3.contains(x)
                            && (disc@[x.0 as int] > t1 || disc@[x.1 as int] > t1) by {
                            let j = choose|j: int| s1.len() <= j < s3.len() && s3[j] == x;
                            assert(s3.contains(x));
                            let a = if j == s1.len() { v } else if disc@[x.0 as int] > tc + 1 || x.0 == v { x.0 } else { x.1 };
                            if j > s1.len() {
                                assert(fresh_pair(disc@, tc as int, v, Some(u), s3[j]));
                            }
                            assert(a == x.0 || a == x.1);
                            assert(disc@[a as int] > tc);
                            assert(!vc[a as int]) by {
                                if vc[a as int] {
                                    assert(ordered_edge(g, s3[j]));
                                    assert(dc[a as int] <= tc);
                                }
                            }
                            if s1.contains(x) {
                                let q = choose|q: int| 0 <= q < s1.len() && s1[q] == x;
                                assert(vc[s1[q].0 as int] && vc[s1[q].1 as int]);
                            }
                        }
                        assert forall|c1: int, c2: int, x: (usize, usize)|
                            0 <= c1 < cs4.len() && 0 <= c2 < cs4.len() && c1 != c2 && #[trigger] cs4[c1]@.contains(x)
                                implies !#[trigger] cs4[c2]@.contains(x) by {
                            if c1 < cs3.len() && c2 < cs3.len() {
                                assert(cs4[c1] == cs3[c1] && cs4[c2] == cs3[c2]);
                            } else if c1 < cs3.len() {
                                assert(cs4[c1] == cs3[c1]);
                                assert(!s3.contains(x));
                            } else {
                                assert(cs4[c2] == cs3[c2]);
                                if cs4[c2]@.contains(x) {
                                    assert(!s3.contains(x));
                                }
                            }
                        }
                        assert forall|c: int, x: (usize, usize)| 0 <= c < cs4.len() && #[trigger] cs4[c]@.contains(x) implies !stack@.contains(x) by {
                            if c < cs3.len() {
                                assert(cs4[c] == cs3[c]);
                                if stack@.contains(x) {
                                    let q = choose|q: int| 0 <= q < s1.len() && s1[q] == x;
                                    assert(s3[q] == x);
                                }
                            }
                        }
                        assert forall|c: int, i: int| 0 <= c < cs4.len() && 0 <= i < cs4[c]@.len()
                            implies visited@[(#[trigger] cs4[c]@[i]).0 as int] && visited@[cs4[c]@[i].1 as int] by {
                            if c < cs3.len() {
                                assert(cs4[c] == cs3[c]);
                            } else {
                                assert(cm.contains(cm[i]));
                                let j = choose|j: int| s1.len() <= j < s3.len() && s3[j] == cm[i];
                            }
                        }
                        assert forall|c: int, i: int| c0.len() <= c < cs4.len() && 0 <= i < cs4[c]@.len()
                            implies disc@[(#[trigger] cs4[c]@[i]).0 as int] > t1 || disc@[cs4[c]@[i].1 as int] > t1 by {
                            if c < cs3.len() {
                                assert(cs4[c] == cs3[c]);
                            } else {
                                assert(cm.contains(cm[i]));
                            }
                        }
                        assert forall|c: int| 0 <= c < c0.len() implies #[trigger] cs4[c] == c0[c] by {
                            assert(cs4[c] == cs3[c]);
                        }
                        if g.symmetric() {
                            assert forall|c: int| c0.len() <= c < cs4.len() implies #[trigger] comp_closed(g, cs4[c]@) by {
                                if c < cs3.len() {
                                    assert(cs4[c] == cs3[c]);
                                }
                            }
                            assert forall|c: int| c0.len() <= c < cs4.len() implies #[trigger] comp_linked(g, cs4[c]@) by {
                                if c < cs3.len() {
                                    assert(cs4[c] == cs3[c]);
                                }
                            }
                        }
                        assert forall|i: int| s0.len() <= i < stack@.len() implies #[trigger] fresh_pair(disc@, tm0 as int, u, parent, stack@[i]) by {
                            assert(stack@[i] == s3[i]);
                        }
                        assert(stack@ == s1);
                    }
                } else {
                    proof {
                        if g.symmetric() {
                            assert(stack@ == s3);
                            let seg_c = s3.skip(s1.len() as int);
                            assert(s2.len() - 1 == s1.len());
                            assert(s3.take(s2.len() as int) == s2);
                            assert(s3[s1.len() as int] == s2[s1.len() as int]);
                            assert forall|x: (usize, usize)| seg_c.contains(x) implies #[trigger] chained(g, seg_c, x, ord_pair(u, v)) by {
                                let q = choose|q: int| 0 <= q < seg_c.len() && seg_c[q] == x;
                                assert(seg_c[q] == s3[s1.len() + q]);
                                if q == 0 {
                                    lemma_chained_refl(g, seg_c, x);
                                } else {
                                    assert(chained(g, s3.skip(s2.len() - 1), s3[s1.len() + q], ord_pair(u, v)));
                                }
                            }
                            match parent {
                                Some(p) => {
                                    assert(lv < t1);
                                    let pv = choose|pp: Seq<usize>| #[trigger] low_witness(g, disc@, v as int, Some(u), tc + 1, *timer as int, inner, lv as int, pp);
                                    assert forall|kk: int| 0 <= kk < anc.len() implies #[trigger] anc[kk] < g.n by {}
                                    lemma_witness_reach(g, disc@, u, v, anc, tc + 1, *timer as int, lv as int, pv);
                                    assert(anc.last() == p);
                                    assert(meet_around(g, ord_pair(u, v), ord_pair(p, u))) by {
                                        assert(ord_pair(p, u) == ord_pair(u, p));
                                        assert(reach_without(g, u as int, v as int, p as int));
                                        assert(u != v);
                                    }
                                    let seg = s3.skip(s0.len() - 1);
                                    let seg1 = s1.skip(s0.len() - 1);
                                    assert forall|x: (usize, usize)| seg_c.contains(x) implies #[trigger] seg.contains(x) by {
                                        let q = choose|q: int| 0 <= q < seg_c.len() && seg_c[q] == x;
                                        assert(seg[s1.len() - s0.len() + 1 + q] == x);
                                    }
                                    assert forall|x: (usize, usize)| seg1.contains(x) implies #[trigger] seg.contains(x) by {
                                        let q = choose|q: int| 0 <= q < seg1.len() && seg1[q] == x;
                                        assert(s3.take(s1.len() as int)[s0.len() - 1 + q] == s1[s0.len() - 1 + q]);
                                        assert(seg[q] == x);
                                    }
                                    assert(seg[0] == ord_pair(p, u)) by {
                                        assert(s3.take(s1.len() as int)[s0.len() - 1] == s1[s0.len() - 1]);
                                        assert(s1.take(s0.len() as int) == s0);
                                        assert(s1[s0.len() - 1] == s0[s0.len() - 1]);
                                    }
                                    assert(seg.contains(ord_pair(u, v))) by {
                                        assert(seg[s1.len() - s0.len() + 1] == s3[s1.len() as int]);
                                    }
                                    lemma_chained_step(g, seg, ord_pair(u, v), ord_pair(p, u));
                                    assert forall|j: int| s0.len() <= j < stack@.len() implies chained(
                                        g, stack@.skip(s0.len() - 1), #[trigger] stack@[j], ord_pair(p, u)) by {
                                        if j < s1.len() {
                                            assert(s3[j] == s3.take(s1.len() as int)[j]);
                                            assert(s3[j] == s1[j]);
                                            assert(chained(g, seg1, s1[j], ord_pair(p, u)));
                                            lemma_chained_mono(g, seg1, seg, s1[j], ord_pair(p, u));
                                        } else {
                                            assert(seg_c.contains(s3[j])) by {
                                                assert(seg_c[j - s1.len()] == s3[j]);
                                            }
                                            lemma_chained_mono(g, seg_c, seg, s3[j], ord_pair(u, v));
                                            lemma_chained_trans(g, seg, s3[j], ord_pair(u, v), ord_pair(p, u));
                                        }
                                    }
                                }
                                None => {
                                    assert(s1 == s0);
                                    assert(s3.skip(s0.len() as int) == seg_c);
                                    lemma_seg_linked(g, seg_c, ord_pair(u, v));
                                }
                            }
                        }
                    }
                }
                proof {
                    if g.symmetric() {
                        assert forall|z: int, k2: int|
                            0 <= z < g.n && !v0[z] && visited@[z] && z != u && 0 <= k2 < g.adj@[z]@.len() && (#[trigger] g.adj@[z]@[k2]).0 != z
                                implies in_pool(stack@, components@, ord_pair(z as usize, g.adj@[z]@[k2].0)) by {
                            let pr = ord_pair(z as usize, g.adj@[z]@[k2].0);
                            if vc[z] {
                                assert(in_pool(s1, cs1, pr));
                                assert(in_pool(s2, cs1, pr));
                            }
                            assert(in_pool(s3, cs3, pr));
                        }
                        assert forall|j: int| 0 <= j < k + 1 && (#[trigger] g.adj@[u as int]@[j]).0 != u
                            implies in_pool(stack@, components@, ord_pair(u, g.adj@[u as int]@[j].0)) by {
                            let pr = ord_pair(u, g.adj@[u as int]@[j].0);
                            if j < k {
                                assert(in_pool(s1, cs1, pr));
                            }
                            assert(in_pool(s2, cs1, pr));
                            assert(in_pool(s3, cs3, pr));
                        }
                    }
                    assert forall|x: (usize, usize)| #[trigger] in_pool(s0, c0, x) implies in_pool(stack@, components@, x) by {
                        assert(in_pool(s1, cs1, x));
                        assert(in_pool(s2, cs1, x));
                        assert(in_pool(s3, cs3, x));
                    }
                }
            } else if disc[v] < disc[u] {
                let ghost lw = low@;
                proof {
                    // v was reached before u and is not finished: it is an ancestor of u
                    assert(visited@[v as int]);
                    assert(v0[v as int]) by {
                        if !v0[v as int] {
                            assert(v != u);
                        }
                    }
                    if g.symmetric() {
                        assert(anc.contains(v)) by {
                            if !anc.contains(v) {
                                assert(g.has_edge(v as int, u as int));
                                let kk = choose|kk: int| 0 <= kk < g.adj@[v as int]@.len() && (#[trigger] g.adj@[v as int]@[kk]).0 == u;
                                assert(v0[g.adj@[v as int]@[kk].0 as int]);
                            }
                        }
                    }
                }
                if disc[v] < low[u] {
                    low.set(u, disc[v]);
                    proof {
                        if g.symmetric() {
                            assert(low_witness(g, disc@, u as int, parent, t1 as int, *timer as int, anc, low@[u as int] as int, seq![u, v]));
                        }
                    }
                }
                let ghost s1 = stack@;
                proof {
                    lemma_back_push_distinct(g, s0, s1, disc@, t1 as int, u, parent, k as int, components@, c0.len() as int);
                }
                stack.push(e);
                proof {
                    assert(stack@.take(s0.len() as int) =~= s1.take(s0.len() as int));
                    lemma_pool_push(s1, components@, e);
                    if g.symmetric() {
                        assert(anc.len() > 0);
                        assert(parent.is_some());
                        assert forall|kk: int| 0 <= kk < anc.len() implies #[trigger] anc[kk] < g.n by {}
                        lemma_back_chain(g, u, v, parent.unwrap(), anc, s0, s1);
                        assert(stack@ == s1.push(e));
                    }
                }
            } else {
                proof {
                    if g.symmetric() && v != u {
                        assert(!v0[v as int]) by {
                            if v0[v as int] {
                                assert(d0[v as int] <= tm0);
                            }
                        }
                        assert(g.has_edge(v as int, u as int));
                        let kk = choose|kk: int| 0 <= kk < g.adj@[v as int]@.len() && (#[trigger] g.adj@[v as int]@[kk]).0 == u;
                        assert(in_pool(stack@, components@, ord_pair(v, g.adj@[v as int]@[kk].0)));
                    }
                    assert(stack@.take(stack@.len() as int) =~= stack@);
                    lemma_own_pairs_keep(g, stack@, stack@, s0.len() as int, disc@, disc@, t1 as int, u, k as int, k + 1);
                }
            }
        } else {
            proof {
                if g.symmetric() {
                    assert(in_pool(s0, c0, ord_pair(v, u)));
                }
                assert(stack@.take(stack@.len() as int) =~= stack@);
                lemma_own_pairs_keep(g, stack@, stack@, s0.len() as int, disc@, disc@, t1 as int, u, k as int, k + 1);
            }
        }
        k = k + 1;
    }
    proof {
        if g.symmetric() {
            assert forall|z: int, k2: int|
                0 <= z < g.n && !v0[z] && visited@[z] && 0 <= k2 < g.adj@[z]@.len() && (#[trigger] g.adj@[z]@[k2]).0 != z
                    implies in_pool(stack@, components@, ord_pair(z as usize, g.adj@[z]@[k2].0)) by {
                if z == u {
                }
            }
        }
    }
    proof {
        assert forall|z: int, k2: int|
            0 <= z < g.n && t1 <= disc@[z] <= *timer && 0 <= k2 < g.adj@[z]@.len() implies {
                let y = (#[trigger] g.adj@[z]@[k2]).0 as int;
                &&& 1 <= disc@[y] <= *timer
                &&& disc@[y] >= t1 || disc@[y] >= low@[u as int] || (z == u && parent == Some(y as usize))
            } by {
            if z != u {
                assert(visited@[z]);
                if v0[z] {
                    assert(d0[z] <= tm0);
                }
                assert(disc@[z] > t1);
            }
        }
    }
}

/// Find biconnected components using Tarjan's algorithm.
/// Returns a vector of components, each being a vector of edges (u, v).
/// Where every edge has its reverse, every edge between two distinct vertices
/// lies in exactly one component; an edge that meets a pair of a component
/// around a common cycle lies in that component; and every two pairs of a
/// component are joined by a chain of its pairs, each meeting the next around a
/// common cycle.
pub fn biconnected_components<W>(g: &Graph<W>) -> (components: Vec<Vec<(usize, usize)>>)
    requires
        g.wf(),
    ensures
        forall|c: int| 0 <= c < components@.len() ==> (#[trigger] components@[c])@.len() >= 1
            && forall|i: int| 0 <= i < components@[c]@.len() ==> ordered_edge(g, #[trigger] components@[c]@[i]),
        g.symmetric() ==> forall|a: usize, b: usize| a != b && #[trigger] g.has_edge(a as int, b as int) ==>
            exists|c: int| 0 <= c < components@.len() && (#[trigger] components@[c])@.contains(ord_pair(a, b)),
        forall|c1: int, c2: int, e: (usize, usize)|
            0 <= c1 < components@.len() && 0 <= c2 < components@.len() && c1 != c2 && #[trigger] components@[c1]@.contains(e)
                ==> !#[trigger] components@[c2]@.contains(e),
        g.symmetric() ==> forall|c: int, e: (usize, usize), f: (usize, usize)|
            0 <= c < components@.len() && components@[c]@.contains(e) && proper_edge(g, f) && #[trigger] meet_around(g, e, f)
                ==> #[trigger] components@[c]@.contains(f),
        g.symmetric() ==> forall|c: int, e: (usize, usize), f: (usize, usize)|
            0 <= c < components@.len() && components@[c]@.contains(e) && components@[c]@.contains(f)
                ==> #[trigger] chained(g, components@[c]@, e, f),
        no_parallel(g) ==> forall|c: int| 0 <= c < components@.len() ==> (#[trigger] components@[c])@.no_duplicates(),
{
    let n = g.n;
    let mut disc = filled_usize(n, 0);
    let mut low = filled_usize(n, 0);
    let mut timer: usize = 0;
    let mut stack: Vec<(usize, usize)> = Vec::new();
    let mut components: Vec<Vec<(usize, usize)>> = Vec::new();
    let mut visited = falses(n);
    proof {
        assert(vis_set(visited@) =~= Set::<int>::empty());
    }
    proof {
        lemma_nodup_empty(g);
        assert(stack@ =~= Seq::<(usize, usize)>::empty());
        assert(components@ =~= Seq::<Vec<(usize, usize)>>::empty());
    }
    let mut i: usize = 0;
    while i < n
        invariant
            g.wf(),
            n == g.n,
            i <= n,
            dfs_state_ok(g, disc@, low@, timer, visited@),
            disc_ok(g, disc@, visited@, timer),
            forall|j: int| 0 <= j < i ==> #[trigger] visited@[j],
            g.symmetric() ==> forall|z: int, k: int|
                0 <= z < g.n && visited@[z] && 0 <= k < g.adj@[z]@.len() && (#[trigger] g.adj@[z]@[k]).0 != z
                    ==> in_pool(stack@, components@, ord_pair(z as usize, g.adj@[z]@[k].0)),
            stack@.len() == 0,
            forall|c: int| 0 <= c < components@.len() ==> (#[trigger] components@[c])@.len() >= 1
                && forall|j: int| 0 <= j < components@[c]@.len() ==> ordered_edge(g, #[trigger] components@[c]@[j]),
            pool_visited(stack@, components@, visited@, -1),
            pool_disjoint(stack@, components@),
            finished_closed(g, visited@, Seq::<usize>::empty(), -1),
            g.symmetric() ==> forall|c: int| 0 <= c < components@.len() ==> #[trigger] comp_closed(g, components@[c]@),
            g.symmetric() ==> forall|c: int| 0 <= c < components@.len() ==> #[trigger] comp_linked(g, components@[c]@),
            pool_nodup(g, stack@, components@, 0),
        decreases n - i,
    {
        if !visited[i] {
            let ghost v1 = visited@;
            let ghost cs1 = components@;
            let ghost t0 = timer;
            let ghost d1 = disc@;
            let ghost sb = stack@;
            proof {
                lemma_nodup_weaken(g, stack@, components@, 0, components@.len() as int);
                lemma_marker_empty(stack@, i);
            }
            bcc_dfs(g, i, None, &mut disc, &mut low, &mut timer, &mut visited, &mut stack, &mut components, Ghost(Seq::<usize>::empty()));
            let ghost cs2 = components@;
            let ghost st2 = stack@;
            proof {
                lemma_nodup_merge(g, sb, st2, cs1, cs2, 0);
                assert forall|j: int| 0 <= j < i implies #[trigger] visited@[j] by {
                    assert(v1[j]);
                }
                if g.symmetric() {
                    assert forall|z: int, k: int|
                        0 <= z < g.n && visited@[z] && 0 <= k < g.adj@[z]@.len() && (#[trigger] g.adj@[z]@[k]).0 != z
                            implies in_pool(stack@, components@, ord_pair(z as usize, g.adj@[z]@[k].0)) by {
                        if v1[z] {
                            assert(in_pool(Seq::<(usize, usize)>::empty(), cs1, ord_pair(z as usize, g.adj@[z]@[k].0)));
                        }
                    }
                    assert forall|c: int| 0 <= c < cs2.len() implies #[trigger] comp_closed(g, cs2[c]@) by {
                        if c < cs1.len() {
                            assert(cs2[c] == cs1[c]);
                        }
                    }
                    assert forall|c: int| 0 <= c < cs2.len() implies #[trigger] comp_linked(g, cs2[c]@) by {
                        if c < cs1.len() {
                            assert(cs2[c] == cs1[c]);
                        }
                    }
                    assert(st2.skip(0) == st2);
                    assert(comp_linked(g, st2));
                    // nothing leaves the vertices reached from i
                    assert forall|z: int, k2: int|
                        0 <= z < g.n && t0 + 1 <= disc@[z] <= timer && 0 <= k2 < g.adj@[z]@.len() && (#[trigger] g.adj@[z]@[k2]).0 != i
                            implies t0 + 1 <= disc@[g.adj@[z]@[k2].0 as int] <= timer by {
                        let y = g.adj@[z]@[k2].0 as int;
                        assert(y < g.n);
                        assert(1 <= disc@[y] <= timer);
                        if disc@[y] < t0 + 1 {
                            assert(visited@[y]);
                            assert(v1[y]) by {
                                if !v1[y] {
                                    assert(disc@[y] > t0);
                                }
                            }
                            assert(g.has_edge(z, y));
                            assert(g.has_edge(y, z));
                            let kz = choose|kz: int| 0 <= kz < g.adj@[y]@.len() && (#[trigger] g.adj@[y]@[kz]).0 == z;
                            assert(v1[g.adj@[y]@[kz].0 as int]);
                            assert(d1[z] <= t0);
                            assert(disc@[z] == d1[z]);
                        }
                    }
                    assert forall|x: int| 0 <= x < g.n && t0 < #[trigger] disc@[x] implies visited@[x] && !v1[x] by {
                        if v1[x] {
                            assert(d1[x] <= t0);
                        }
                    }
                    assert forall|x: int| 0 <= x < g.n && #[trigger] v1[x] implies disc@[x] <= t0 by {
                        assert(d1[x] <= t0);
                    }
                    assert forall|j: int| 0 <= j < st2.len() implies (t0 + 1 <= disc@[(#[trigger] st2[j]).0 as int] <= timer
                        || t0 + 1 <= disc@[st2[j].1 as int] <= timer) by {
                        assert(fresh_pair(disc@, t0 as int, i, None, st2[j]));
                        assert(ordered_edge(g, st2[j]));
                    }
                    assert(st2.take(0) =~= Seq::<(usize, usize)>::empty());
                    assert forall|x: (usize, usize)| #[trigger] st2.contains(x) implies exists|j: int| 0 <= j < st2.len() && st2[j] == x by {}
                    lemma_split_closed(g, i, i, Seq::<(usize, usize)>::empty(), st2, cs1, cs2, v1, visited@, disc@, t0 as int, timer as int, st2);
                }
            }
            if stack.len() > 0 {
                proof {
                    lemma_pool_close(Seq::<(usize, usize)>::empty(), cs2, stack);
                    assert forall|x: (usize, usize)| #[trigger] in_pool(st2, cs2, x) implies
                        in_pool(Seq::<(usize, usize)>::empty(), cs2, x) || stack@.contains(x) by {
                    }
                }
                let ghost cm = stack@;
                proof {
                    lemma_nodup_close(g, stack@, components@, 0, stack);
                }
                components.push(stack);
                stack = Vec::new();
                proof {
                    let cs4 = components@;
                    assert(cs4 == cs2.push(cs4[cs2.len() as int]));
                    assert(cs4[cs2.len() as int]@ == cm);
                    assert forall|c1: int, c2: int, x: (usize, usize)|
                        0 <= c1 < cs4.len() && 0 <= c2 < cs4.len() && c1 != c2 && #[trigger] cs4[c1]@.contains(x)
                            implies !#[trigger] cs4[c2]@.contains(x) by {
                        if c1 < cs2.len() && c2 < cs2.len() {
                            assert(cs4[c1] == cs2[c1] && cs4[c2] == cs2[c2]);
                        } else if c1 < cs2.len() {
                            assert(cs4[c1] == cs2[c1]);
                        } else {
                            assert(cs4[c2] == cs2[c2]);
                        }
                    }
                    assert forall|c: int, j: int| 0 <= c < cs4.len() && 0 <= j < cs4[c]@.len()
                        implies visited@[(#[trigger] cs4[c]@[j]).0 as int] && visited@[cs4[c]@[j].1 as int] by {
                        if c < cs2.len() {
                            assert(cs4[c] == cs2[c]);
                        } else {
                            assert(cm[j] == cs4[c]@[j]);
                        }
                    }
                    if g.symmetric() {
                        assert forall|c: int| 0 <= c < cs4.len() implies #[trigger] comp_closed(g, cs4[c]@) by {
                            if c < cs2.len() {
                                assert(cs4[c] == cs2[c]);
                            }
                        }
                        assert forall|c: int| 0 <= c < cs4.len() implies #[trigger] comp_linked(g, cs4[c]@) by {
                            if c < cs2.len() {
                                assert(cs4[c] == cs2[c]);
                            }
                        }
                    }
                }
            }
        }
        i = i + 1;
    }
    proof {
        lemma_nodup_read(g, stack@, components@);
        if g.symmetric() {
            assert forall|a: usize, b: usize| a != b && #[trigger] g.has_edge(a as int, b as int) implies
                exists|c: int| 0 <= c < components@.len() && (#[trigger] components@[c])@.contains(ord_pair(a, b)) by {
                let k = choose|k: int| 0 <= k < g.adj@[a as int]@.len() && (#[trigger] g.adj@[a as int]@[k]).0 == b;
                assert(visited@[a as int]);
                assert(in_pool(stack@, components@, ord_pair(a, g.adj@[a as int]@[k].0)));
            }
            assert forall|c: int, e: (usize, usize), f: (usize, usize)|
                0 <= c < components@.len() && components@[c]@.contains(e) && proper_edge(g, f) && #[trigger] meet_around(g, e, f)
                    implies #[trigger] components@[c]@.contains(f) by {
                assert(comp_closed(g, components@[c]@));
            }
            assert forall|c: int, e: (usize, usize), f: (usize, usize)|
                0 <= c < components@.len() && components@[c]@.contains(e) && components@[c]@.contains(f)
                    implies #[trigger] chained(g, components@[c]@, e, f) by {
                assert(comp_linked(g, components@[c]@));
            }
        }
    }
    components
}

} // verus!
