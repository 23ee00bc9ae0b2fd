//! Cut vertices: walks that keep away from a vertex, and the facts about them
//! that the search for articulation points rests on.
use crate::graph::Graph;
use vstd::prelude::*;

verus! {

/// `p` is a walk from `a` to `b` that never passes through `x`.
pub open spec fn walk_without<W>(g: &Graph<W>, x: int, p: Seq<usize>, a: int, b: int) -> bool {
    &&& g.walk_between(p, a, b)
    &&& forall|i: int| 0 <= i < p.len() ==> #[trigger] p[i] != x
}

/// `b` can be reached from `a` without passing through `x`.
pub open spec fn reach_without<W>(g: &Graph<W>, x: int, a: int, b: int) -> bool {
    exists|p: Seq<usize>| #[trigger] walk_without(g, x, p, a, b)
}

/// `x` is a cut vertex: two other vertices that are joined by a walk are no
/// longer joined once `x` is taken out.
pub open spec fn is_cut_vertex<W>(g: &Graph<W>, x: int) -> bool {
    &&& 0 <= x < g.n
    &&& exists|a: int, b: int|
        #![trigger g.reachable(a, b)]
        a != x && b != x && g.reachable(a, b) && !reach_without(g, x, a, b)
}

/// Every two neighbours of `x` other than `x` are joined by a walk that keeps
/// away from `x`.
pub open spec fn nbrs_linked<W>(g: &Graph<W>, x: int) -> bool {
    forall|y1: int, y2: int|
        #![trigger g.has_edge(x, y1), g.has_edge(x, y2)]
        g.has_edge(x, y1) && g.has_edge(x, y2) && y1 != x && y2 != x ==> reach_without(g, x, y1, y2)
}

/// A vertex other than `x` reaches itself without `x`.
pub proof fn lemma_without_refl<W>(g: &Graph<W>, x: int, a: int)
    requires
        0 <= a < g.n,
        a != x,
    ensures
        reach_without(g, x, a, a),
{
    let p = seq![a as usize];
    assert(walk_without(g, x, p, a, a));
}

/// Walks without `x` can be joined.
pub proof fn lemma_without_trans<W>(g: &Graph<W>, x: int, a: int, b: int, c: int)
    requires
        reach_without(g, x, a, b),
        reach_without(g, x, b, c),
    ensures
        reach_without(g, x, a, c),
{
    let p = choose|p: Seq<usize>| #[trigger] walk_without(g, x, p, a, b);
    let q = choose|q: Seq<usize>| #[trigger] walk_without(g, x, q, b, c);
    let r = p + q.drop_first();
    let lp = p.len() as int;
    assert forall|i: int| 0 <= i < r.len() implies #[trigger] r[i] < g.n && r[i] != x by {
        if i < lp {
            assert(r[i] == p[i]);
        } else {
            assert(r[i] == q[i - lp + 1]);
        }
    }
    assert forall|i: int| 0 <= i < r.len() - 1 implies #[trigger] g.step(r, i) by {
        if i < lp - 1 {
            assert(g.step(p, i));
        } else {
            assert(g.step(q, i - lp + 1));
            assert(r[i + 1] == q[i - lp + 2]);
            if i == lp - 1 {
                assert(r[i] == p.last());
            } else {
                assert(r[i] == q[i - lp + 1]);
            }
        }
    }
    if q.len() == 1 {
        assert(r.last() == p.last());
    } else {
        assert(r.last() == q.last());
    }
    assert(walk_without(g, x, r, a, c));
}

/// In a graph whose edges all have reverses, walks without `x` can be reversed.
pub proof fn lemma_without_sym<W>(g: &Graph<W>, x: int, a: int, b: int)
    requires
        g.symmetric(),
        reach_without(g, x, a, b),
    ensures
        reach_without(g, x, b, a),
{
    let p = choose|p: Seq<usize>| #[trigger] walk_without(g, x, p, a, b);
    let q = p.reverse();
    let l = p.len() as int;
    assert forall|i: int| 0 <= i < q.len() implies #[trigger] q[i] < g.n && q[i] != x by {
        assert(q[i] == p[l - 1 - i]);
    }
    assert forall|i: int| 0 <= i < q.len() - 1 implies #[trigger] g.step(q, i) by {
        assert(g.step(p, l - 2 - i));
        assert(q[i] == p[l - 1 - i]);
        assert(q[i + 1] == p[l - 2 - i]);
    }
    assert(walk_without(g, x, q, b, a));
}

/// An edge between two vertices other than `x` is a walk without `x`.
pub proof fn lemma_without_edge<W>(g: &Graph<W>, x: int, a: int, b: int)
    requires
        g.has_edge(a, b),
        0 <= a < g.n,
        0 <= b < g.n,
        a != x,
        b != x,
    ensures
        reach_without(g, x, a, b),
{
    let p = seq![a as usize, b as usize];
    assert(g.step(p, 0));
    assert(walk_without(g, x, p, a, b));
}

/// A walk without `x` that starts in a set closed under the edges that do not
/// lead to `x` stays in that set.
pub proof fn lemma_without_closed<W>(g: &Graph<W>, x: int, set: Set<int>, a: int, b: int)
    requires
        set.contains(a),
        forall|z: int, w: int| set.contains(z) && #[trigger] g.has_edge(z, w) && w != x ==> set.contains(w),
        reach_without(g, x, a, b),
    ensures
        set.contains(b),
{
    let p = choose|p: Seq<usize>| #[trigger] walk_without(g, x, p, a, b);
    lemma_walk_without_in(g, x, set, p, a, b, p.len() - 1);
}

proof fn lemma_walk_without_in<W>(g: &Graph<W>, x: int, set: Set<int>, p: Seq<usize>, a: int, b: int, i: int)
    requires
        set.contains(a),
        forall|z: int, w: int| set.contains(z) && #[trigger] g.has_edge(z, w) && w != x ==> set.contains(w),
        walk_without(g, x, p, a, b),
        0 <= i < p.len(),
    ensures
        set.contains(p[i] as int),
    decreases i,
{
    if i > 0 {
        lemma_walk_without_in(g, x, set, p, a, b, i - 1);
        assert(g.step(p, i - 1));
        assert(p[i] != x);
    }
}

/// A stretch of a path of edges that never passes through `x` is a walk without `x`.
pub proof fn lemma_path_without<W>(g: &Graph<W>, s: Seq<usize>, i: int, j: int, x: int)
    requires
        0 <= i <= j < s.len(),
        forall|k: int| 0 <= k < s.len() ==> #[trigger] s[k] < g.n,
        forall|k: int| i <= k < j ==> #[trigger] g.has_edge(s[k] as int, s[k + 1] as int),
        !s.contains(x as usize),
        0 <= x,
    ensures
        reach_without(g, x, s[i] as int, s[j] as int),
{
    let p = s.subrange(i, j + 1);
    assert forall|k: int| 0 <= k < p.len() implies #[trigger] p[k] < g.n && p[k] != x by {
        assert(p[k] == s[i + k]);
        assert(s.contains(s[i + k]));
    }
    assert forall|k: int| 0 <= k < p.len() - 1 implies #[trigger] g.step(p, k) by {
        assert(p[k] == s[i + k]);
        assert(p[k + 1] == s[i + k + 1]);
        assert(g.has_edge(s[i + k] as int, s[i + k + 1] as int));
    }
    assert(walk_without(g, x, p, s[i] as int, s[j] as int));
}

/// No walk ends at a negative index.
pub proof fn lemma_no_reach_negative<W>(g: &Graph<W>, x: int, a: int)
    ensures
        !reach_without(g, x, a, -1),
{
    if reach_without(g, x, a, -1) {
        let p = choose|p: Seq<usize>| #[trigger] walk_without(g, x, p, a, -1);
        assert(p.last() as int >= 0);
    }
}

/// Two vertices joined by a walk are joined without `x` when the neighbours of
/// `x` are: each pass through `x` can be replaced by a detour.
pub proof fn lemma_linked_not_cut<W>(g: &Graph<W>, x: int)
    requires
        g.symmetric(),
        0 <= x < g.n,
        nbrs_linked(g, x),
    ensures
        !is_cut_vertex(g, x),
{
    assert forall|a: int, b: int| a != x && b != x && #[trigger] g.reachable(a, b) implies reach_without(g, x, a, b) by {
        let p = choose|p: Seq<usize>| #[trigger] g.walk_between(p, a, b);
        lemma_linked_walk(g, x, p, a, b, p.len() - 1);
    }
}

proof fn lemma_linked_walk<W>(g: &Graph<W>, x: int, p: Seq<usize>, a: int, b: int, i: int)
    requires
        g.symmetric(),
        0 <= x < g.n,
        nbrs_linked(g, x),
        g.walk_between(p, a, b),
        a != x,
        0 <= i < p.len(),
    ensures
        p[i] != x ==> reach_without(g, x, a, p[i] as int),
        p[i] == x ==> exists|y: int| #![trigger g.has_edge(x, y)] g.has_edge(x, y) && y != x && reach_without(g, x, a, y),
    decreases i,
{
    if i == 0 {
        lemma_without_refl(g, x, a);
    } else {
        lemma_linked_walk(g, x, p, a, b, i - 1);
        assert(g.step(p, i - 1));
        let c = p[i - 1] as int;
        let d = p[i] as int;
        assert(g.has_edge(c, d));
        if c != x && d != x {
            assert(p[i - 1] < g.n && p[i] < g.n);
            lemma_without_edge(g, x, c, d);
            lemma_without_trans(g, x, a, c, d);
        } else if c != x && d == x {
            assert(g.has_edge(x, c));
        } else if c == x && d != x {
            let y = choose|y: int| #![trigger g.has_edge(x, y)] g.has_edge(x, y) && y != x && reach_without(g, x, a, y);
            assert(g.has_edge(x, d));
            assert(reach_without(g, x, y, d));
            lemma_without_trans(g, x, a, y, d);
        }
    }
}

} // verus!
