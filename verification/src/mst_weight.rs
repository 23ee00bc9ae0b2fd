//! Total weight of spanning forests: a spanning forest that is light on every
//! cycle, as Kruskal's rule keeps and as Prim's tree is, weighs no more than any
//! other.
use crate::graph::{Edge, Graph, lemma_reach_step};
use crate::mst::{
    cycle_light, in_tree, is_entry, is_forest, is_prim_tree, is_spanning_forest, lemma_linked_edge, lemma_linked_grow,
    lemma_linked_refl, lemma_linked_sym, lemma_linked_trans, lemma_reps_empty, lemma_reps_finite, lemma_reps_push, light,
    link_path, link_step, linked, prim_step, reps, tree_cycle_light,
};
use vstd::prelude::*;
use vstd::set_lib::*;

verus! {

/// The sum of the weights of `es`.
pub open spec fn total_weight(es: Seq<Edge<u64>>) -> int
    decreases es.len(),
{
    if es.len() == 0 {
        0
    } else {
        total_weight(es.drop_last()) + es.last().weight
    }
}

/// Where every edge of `x` has its ends joined by `y`, so has every path of `x`.
proof fn lemma_linked_lift(x: Seq<Edge<u64>>, y: Seq<Edge<u64>>, a: int, b: int)
    requires
        forall|i: int| 0 <= i < x.len() ==> linked(y, (#[trigger] x[i]).from as int, x[i].to as int),
        linked(x, a, b),
    ensures
        linked(y, a, b),
{
    let p = choose|p: Seq<usize>| #[trigger] link_path(x, p, a, b);
    lemma_lift_prefix(x, y, p, a, p.len() - 1);
}

proof fn lemma_lift_prefix(x: Seq<Edge<u64>>, y: Seq<Edge<u64>>, p: Seq<usize>, a: int, i: int)
    requires
        forall|j: int| 0 <= j < x.len() ==> linked(y, (#[trigger] x[j]).from as int, x[j].to as int),
        p.len() >= 1,
        p[0] == a,
        forall|q: int| 0 <= q < p.len() - 1 ==> #[trigger] link_step(x, p, q),
        0 <= i < p.len(),
    ensures
        linked(y, a, p[i] as int),
    decreases i,
{
    if i == 0 {
        lemma_linked_refl(y, a);
    } else {
        lemma_lift_prefix(x, y, p, a, i - 1);
        assert(link_step(x, p, i - 1));
        let j = choose|j: int|
            0 <= j < x.len() && ((#[trigger] x[j].from == p[i - 1] && x[j].to == p[i]) || (x[j].to == p[i - 1]
                && x[j].from == p[i]));
        assert(linked(y, x[j].from as int, x[j].to as int));
        if x[j].from != p[i - 1] || x[j].to != p[i] {
            lemma_linked_sym(y, x[j].from as int, x[j].to as int);
        }
        lemma_linked_trans(y, a, p[i - 1] as int, p[i] as int);
    }
}

/// Every edge that `es` contains has its ends joined by `es`.
proof fn lemma_contains_linked(es: Seq<Edge<u64>>, e: Edge<u64>)
    requires
        es.contains(e),
    ensures
        linked(es, e.from as int, e.to as int),
{
    let j = choose|j: int| 0 <= j < es.len() && es[j] == e;
    lemma_linked_edge(es, j);
}

/// Where `y` joins the ends of every edge of `x`, every least vertex of a class
/// of `y` is one of a class of `x`: `y` leaves no more classes than `x`.
proof fn lemma_reps_fewer(x: Seq<Edge<u64>>, y: Seq<Edge<u64>>, n: int)
    requires
        0 <= n,
        forall|i: int| 0 <= i < x.len() ==> linked(y, (#[trigger] x[i]).from as int, x[i].to as int),
    ensures
        reps(y, n).len() <= reps(x, n).len(),
{
    assert forall|r: int| #[trigger] reps(y, n).contains(r) implies reps(x, n).contains(r) by {
        assert forall|v: int| 0 <= v < r implies !#[trigger] linked(x, v, r) by {
            if linked(x, v, r) {
                lemma_linked_lift(x, y, v, r);
            }
        }
    }
    lemma_reps_finite(x, n);
    lemma_len_subset(reps(y, n), reps(x, n));
}

/// A forest on the vertices below `n` leaves one class per vertex, less one per edge.
pub proof fn lemma_forest_count(f: Seq<Edge<u64>>, n: int)
    requires
        0 <= n <= usize::MAX + 1,
        is_forest(f),
        forall|i: int| 0 <= i < f.len() ==> (#[trigger] f[i]).from < n && f[i].to < n,
    ensures
        reps(f, n).len() + f.len() == n,
    decreases f.len(),
{
    if f.len() == 0 {
        assert(f =~= Seq::<Edge<u64>>::empty());
        lemma_reps_empty(n);
    } else {
        let f1 = f.drop_last();
        let e = f.last();
        assert forall|i: int| 0 <= i < f1.len() implies !linked(
            f1.take(i),
            (#[trigger] f1[i]).from as int,
            f1[i].to as int,
        ) by {
            assert(f1.take(i) =~= f.take(i));
            assert(f1[i] == f[i]);
        }
        assert forall|i: int| 0 <= i < f1.len() implies (#[trigger] f1[i]).from < n && f1[i].to < n by {
            assert(f1[i] == f[i]);
        }
        lemma_forest_count(f1, n);
        assert(f.take(f.len() - 1) =~= f1);
        assert(f[f.len() - 1] == e);
        lemma_reps_push(f1, e, n);
        assert(f1.push(e) =~= f);
    }
}

/// The light edges of `es.push(e)`: those of `es`, and `e` if it is light.
proof fn lemma_light_push(es: Seq<Edge<u64>>, e: Edge<u64>, w: u64)
    ensures
        light(es.push(e), w) == if e.weight <= w {
            light(es, w).push(e)
        } else {
            light(es, w)
        },
{
    assert(es.push(e).drop_last() =~= es);
}

/// The light edges are the edges of `es` that weigh at most `w`.
proof fn lemma_light_contains(es: Seq<Edge<u64>>, w: u64, x: Edge<u64>)
    ensures
        light(es, w).contains(x) <==> (es.contains(x) && x.weight <= w),
    decreases es.len(),
{
    if es.len() > 0 {
        let es1 = es.drop_last();
        let e = es.last();
        lemma_light_contains(es1, w, x);
        assert(es1.push(e) =~= es);
        lemma_light_push(es1, e, w);
        let l1 = light(es1, w);
        if es1.contains(x) {
            let j = choose|j: int| 0 <= j < es1.len() && es1[j] == x;
            assert(es[j] == x);
        }
        if es.contains(x) && x != e {
            let j = choose|j: int| 0 <= j < es.len() && es[j] == x;
            assert(es1[j] == x);
        }
        if e.weight <= w {
            assert(light(es, w)[l1.len() as int] == e);
            if l1.contains(x) {
                let j = choose|j: int| 0 <= j < l1.len() && l1[j] == x;
                assert(light(es, w)[j] == x);
            }
            if light(es, w).contains(x) && x != e {
                let j = choose|j: int| 0 <= j < light(es, w).len() && light(es, w)[j] == x;
                assert(l1[j] == x);
            }
        }
        if es.contains(x) && x == e {
            assert(es[es.len() - 1] == e);
        }
    } else {
        assert(!es.contains(x));
    }
}

/// The light edges of a forest form a forest.
proof fn lemma_light_forest(f: Seq<Edge<u64>>, w: u64)
    requires
        is_forest(f),
    ensures
        is_forest(light(f, w)),
    decreases f.len(),
{
    if f.len() > 0 {
        let f1 = f.drop_last();
        let e = f.last();
        assert forall|i: int| 0 <= i < f1.len() implies !linked(
            f1.take(i),
            (#[trigger] f1[i]).from as int,
            f1[i].to as int,
        ) by {
            assert(f1.take(i) =~= f.take(i));
            assert(f1[i] == f[i]);
        }
        lemma_light_forest(f1, w);
        assert(f1.push(e) =~= f);
        lemma_light_push(f1, e, w);
        let l1 = light(f1, w);
        if e.weight <= w {
            let l = l1.push(e);
            assert forall|i: int| 0 <= i < l.len() implies !linked(
                l.take(i),
                (#[trigger] l[i]).from as int,
                l[i].to as int,
            ) by {
                if i < l1.len() {
                    assert(l.take(i) =~= l1.take(i));
                    assert(l[i] == l1[i]);
                } else {
                    assert(l.take(i) =~= l1);
                    assert(l[i] == e);
                    assert(f.take(f.len() - 1) =~= f1);
                    assert(f[f.len() - 1] == e);
                    if linked(l1, e.from as int, e.to as int) {
                        assert forall|j: int| 0 <= j < l1.len() implies linked(
                            f1,
                            (#[trigger] l1[j]).from as int,
                            l1[j].to as int,
                        ) by {
                            assert(l1.contains(l1[j]));
                            lemma_light_contains(f1, w, l1[j]);
                            lemma_contains_linked(f1, l1[j]);
                        }
                        lemma_linked_lift(l1, f1, e.from as int, e.to as int);
                    }
                }
            }
        }
    }
}

/// Of the edges heavier than each weight below `k`, the count, summed over those weights.
pub open spec fn heavy_sum(es: Seq<Edge<u64>>, k: nat) -> int
    decreases k,
{
    if k == 0 {
        0
    } else {
        heavy_sum(es, (k - 1) as nat) + (es.len() - light(es, (k - 1) as u64).len())
    }
}

/// One more edge adds, to the sum up to `k`, its weight or `k`, whichever is smaller.
proof fn lemma_heavy_sum_push(es: Seq<Edge<u64>>, e: Edge<u64>, k: nat)
    requires
        k <= u64::MAX as nat + 1,
    ensures
        heavy_sum(es.push(e), k) == heavy_sum(es, k) + if e.weight < k {
            e.weight as int
        } else {
            k as int
        },
    decreases k,
{
    if k > 0 {
        lemma_heavy_sum_push(es, e, (k - 1) as nat);
        lemma_light_push(es, e, (k - 1) as u64);
    }
}

/// Summed up to every weight, the counts of heavier edges make the total weight.
proof fn lemma_heavy_sum_total(es: Seq<Edge<u64>>)
    ensures
        heavy_sum(es, u64::MAX as nat + 1) == total_weight(es),
    decreases es.len(),
{
    let k = u64::MAX as nat + 1;
    if es.len() == 0 {
        lemma_heavy_sum_empty(es, k);
    } else {
        let es1 = es.drop_last();
        lemma_heavy_sum_total(es1);
        lemma_heavy_sum_push(es1, es.last(), k);
        assert(es1.push(es.last()) =~= es);
    }
}

proof fn lemma_heavy_sum_empty(es: Seq<Edge<u64>>, k: nat)
    requires
        es.len() == 0,
    ensures
        heavy_sum(es, k) == 0,
    decreases k,
{
    if k > 0 {
        lemma_heavy_sum_empty(es, (k - 1) as nat);
    }
}

/// Of two lists of one length, the one with at least as many edges of weight at
/// most `w`, for every `w`, has the smaller sum.
proof fn lemma_heavy_sum_le(x: Seq<Edge<u64>>, y: Seq<Edge<u64>>, k: nat)
    requires
        k <= u64::MAX as nat + 1,
        x.len() == y.len(),
        forall|w: u64| #[trigger] light(x, w).len() >= light(y, w).len(),
    ensures
        heavy_sum(x, k) <= heavy_sum(y, k),
    decreases k,
{
    if k > 0 {
        lemma_heavy_sum_le(x, y, (k - 1) as nat);
        assert(light(x, (k - 1) as u64).len() >= light(y, (k - 1) as u64).len());
    }
}

/// The edges of `es` stay within the vertices below `n`.
pub open spec fn within(es: Seq<Edge<u64>>, n: int) -> bool {
    forall|i: int| 0 <= i < es.len() ==> (#[trigger] es[i]).from < n && es[i].to < n
}

proof fn lemma_light_within(es: Seq<Edge<u64>>, w: u64, n: int)
    requires
        within(es, n),
    ensures
        within(light(es, w), n),
{
    assert forall|i: int| 0 <= i < light(es, w).len() implies (#[trigger] light(es, w)[i]).from < n
        && light(es, w)[i].to < n by {
        assert(light(es, w).contains(light(es, w)[i]));
        lemma_light_contains(es, w, light(es, w)[i]);
        let j = choose|j: int| 0 <= j < es.len() && es[j] == light(es, w)[i];
    }
}

/// The entries of a graph join vertices of it.
pub proof fn lemma_entries_within(g: &Graph<u64>, es: Seq<Edge<u64>>)
    requires
        g.wf(),
        forall|i: int| 0 <= i < es.len() ==> is_entry(g, #[trigger] es[i]),
    ensures
        within(es, g.n as int),
{
    assert forall|i: int| 0 <= i < es.len() implies (#[trigger] es[i]).from < g.n && es[i].to < g.n by {
        assert(is_entry(g, es[i]));
        let k = choose|k: int|
            0 <= k < g.adj@[es[i].from as int]@.len() && #[trigger] g.adj@[es[i].from as int]@[k] == (
                es[i].to,
                es[i].weight,
            );
        assert(g.adj@[es[i].from as int]@[k].0 < g.n);
    }
}

/// Two forests within the vertices of `g`, each joining the ends of every edge
/// of the other, where every edge of `t` (an entry of `g`) has its ends joined
/// by edges of `m` no heavier than it: `m` weighs no more than `t`.
proof fn lemma_lighter_forest(g: &Graph<u64>, m: Seq<Edge<u64>>, t: Seq<Edge<u64>>)
    requires
        g.wf(),
        within(m, g.n as int),
        forall|i: int| 0 <= i < t.len() ==> is_entry(g, #[trigger] t[i]),
        is_forest(m),
        is_forest(t),
        forall|i: int| 0 <= i < t.len() ==> linked(m, (#[trigger] t[i]).from as int, t[i].to as int),
        forall|i: int| 0 <= i < m.len() ==> linked(t, (#[trigger] m[i]).from as int, m[i].to as int),
        forall|i: int| 0 <= i < t.len() ==> linked(light(m, (#[trigger] t[i]).weight), t[i].from as int, t[i].to as int),
    ensures
        total_weight(m) <= total_weight(t),
{
    let n = g.n as int;
    lemma_entries_within(g, t);
    lemma_forest_count(m, n);
    lemma_forest_count(t, n);
    lemma_reps_fewer(t, m, n);
    lemma_reps_fewer(m, t, n);
    assert(m.len() == t.len());
    // below every weight, m keeps at least as many edges as t
    assert forall|w: u64| #[trigger] light(m, w).len() >= light(t, w).len() by {
        let lm = light(m, w);
        let lt = light(t, w);
        lemma_light_forest(m, w);
        lemma_light_forest(t, w);
        lemma_light_within(m, w, n);
        lemma_light_within(t, w, n);
        lemma_forest_count(lm, n);
        lemma_forest_count(lt, n);
        assert forall|i: int| 0 <= i < lt.len() implies linked(lm, (#[trigger] lt[i]).from as int, lt[i].to as int) by {
            let e = lt[i];
            assert(lt.contains(e));
            lemma_light_contains(t, w, e);
            let j = choose|j: int| 0 <= j < t.len() && t[j] == e;
            let le = light(m, e.weight);
            assert(linked(le, t[j].from as int, t[j].to as int));
            assert forall|q: int| 0 <= q < le.len() implies linked(lm, (#[trigger] le[q]).from as int, le[q].to as int) by {
                assert(le.contains(le[q]));
                lemma_light_contains(m, e.weight, le[q]);
                lemma_light_contains(m, w, le[q]);
                lemma_contains_linked(lm, le[q]);
            }
            lemma_linked_lift(le, lm, e.from as int, e.to as int);
        }
        lemma_reps_fewer(lt, lm, n);
    }
    lemma_heavy_sum_le(m, t, u64::MAX as nat + 1);
    lemma_heavy_sum_total(m);
    lemma_heavy_sum_total(t);
}

/// A spanning forest of `g` that is light on every cycle, as `kruskal` returns,
/// weighs no more than any spanning forest of `g`.
pub proof fn law_cycle_light_forest_is_lightest(g: &Graph<u64>, m: Seq<Edge<u64>>, t: Seq<Edge<u64>>)
    requires
        g.wf(),
        is_spanning_forest(g, m),
        cycle_light(g, m),
        is_spanning_forest(g, t),
    ensures
        total_weight(m) <= total_weight(t),
{
    lemma_entries_within(g, m);
    assert forall|i: int| 0 <= i < t.len() implies linked(m, (#[trigger] t[i]).from as int, t[i].to as int)
        && linked(light(m, t[i].weight), t[i].from as int, t[i].to as int) by {
        assert(is_entry(g, t[i]));
        let k = choose|k: int|
            0 <= k < g.adj@[t[i].from as int]@.len() && #[trigger] g.adj@[t[i].from as int]@[k] == (
                t[i].to,
                t[i].weight,
            );
        assert(g.has_edge(t[i].from as int, t[i].to as int));
        assert(linked(light(m, g.adj@[t[i].from as int]@[k].1), t[i].from as int, g.adj@[t[i].from as int]@[k].0 as int));
    }
    assert forall|i: int| 0 <= i < m.len() implies linked(t, (#[trigger] m[i]).from as int, m[i].to as int) by {
        assert(is_entry(g, m[i]));
        let k = choose|k: int|
            0 <= k < g.adj@[m[i].from as int]@.len() && #[trigger] g.adj@[m[i].from as int]@[k] == (
                m[i].to,
                m[i].weight,
            );
        assert(g.has_edge(m[i].from as int, m[i].to as int));
    }
    lemma_lighter_forest(g, m, t);
}

/// `g` has an entry from `a` to `b` that weighs at most `w`.
pub open spec fn light_entry(g: &Graph<u64>, w: u64, a: int, b: int) -> bool {
    exists|k: int| 0 <= k < g.adj@[a]@.len() && (#[trigger] g.adj@[a]@[k]).0 == b && g.adj@[a]@[k].1 <= w
}

/// `p` is a walk of `g` along entries that weigh at most `w`.
pub open spec fn light_walk(g: &Graph<u64>, w: u64, p: Seq<usize>) -> bool {
    &&& p.len() >= 1
    &&& forall|i: int| 0 <= i < p.len() ==> #[trigger] p[i] < g.n
    &&& forall|i: int| 0 <= i < p.len() - 1 ==> #[trigger] light_entry(g, w, p[i] as int, p[i + 1] as int)
}

/// `b` can be reached from `a` along entries that weigh at most `w`.
pub open spec fn light_reach(g: &Graph<u64>, w: u64, a: int, b: int) -> bool {
    exists|p: Seq<usize>| #[trigger] light_walk(g, w, p) && p[0] == a && p.last() == b
}

/// A light entry followed by a light walk.
proof fn lemma_light_reach_prepend(g: &Graph<u64>, w: u64, x: int, a: int, b: int)
    requires
        0 <= x < g.n,
        light_entry(g, w, x, a),
        light_reach(g, w, a, b),
    ensures
        light_reach(g, w, x, b),
{
    let p = choose|p: Seq<usize>| #[trigger] light_walk(g, w, p) && p[0] == a && p.last() == b;
    let q = seq![x as usize] + p;
    assert forall|i: int| 0 <= i < q.len() implies #[trigger] q[i] < g.n by {
        if i > 0 {
            assert(q[i] == p[i - 1]);
        }
    }
    assert forall|i: int| 0 <= i < q.len() - 1 implies #[trigger] light_entry(g, w, q[i] as int, q[i + 1] as int) by {
        if i > 0 {
            let j = i - 1;
            assert(q[i] == p[j] && q[i + 1] == p[j + 1]);
            assert(light_entry(g, w, p[j] as int, p[j + 1] as int));
        } else {
            assert(q[1] == p[0]);
        }
    }
    assert(q.last() == p.last());
    assert(light_walk(g, w, q) && q[0] == x && q.last() == b);
}

/// In a graph whose entries have reverse entries of the same weight, light
/// walks can be walked back.
proof fn lemma_light_reach_sym(g: &Graph<u64>, w: u64, a: int, b: int)
    requires
        g.wf(),
        g.weight_symmetric(),
        light_reach(g, w, a, b),
    ensures
        light_reach(g, w, b, a),
{
    let p = choose|p: Seq<usize>| #[trigger] light_walk(g, w, p) && p[0] == a && p.last() == b;
    let q = p.reverse();
    let l = p.len() as int;
    assert forall|i: int| 0 <= i < q.len() implies #[trigger] q[i] < g.n by {
        assert(q[i] == p[l - 1 - i]);
    }
    assert forall|i: int| 0 <= i < q.len() - 1 implies #[trigger] light_entry(g, w, q[i] as int, q[i + 1] as int) by {
        let j = l - 2 - i;
        assert(q[i] == p[j + 1] && q[i + 1] == p[j]);
        assert(light_entry(g, w, p[j] as int, p[j + 1] as int));
        let u = p[l - 2 - i] as int;
        let k = choose|k: int| 0 <= k < g.adj@[u]@.len() && (#[trigger] g.adj@[u]@[k]).0 == p[l - 1 - i] && g.adj@[u]@[k].1 <= w;
        assert(p[l - 2 - i] < g.n);
        let v = g.adj@[u]@[k].0 as int;
        assert(g.has_reverse(u, k));
        let k2 = choose|k2: int|
            0 <= k2 < g.adj@[v]@.len() && #[trigger] g.adj@[v]@[k2] == (u as usize, g.adj@[u]@[k].1);
        assert(g.adj@[v]@[k2].0 == u);
    }
    assert(light_walk(g, w, q) && q[0] == b && q.last() == a);
}

/// A light walk from inside the tree to outside it takes a light entry out of the tree.
proof fn lemma_light_exit(g: &Graph<u64>, w: u64, start: usize, p: Seq<Edge<u64>>, i: int, q: Seq<usize>, j: int)
    requires
        light_walk(g, w, q),
        0 <= j < q.len(),
        in_tree(start, p, i, q[0]),
        !in_tree(start, p, i, q[j]),
    ensures
        exists|z: int|
            0 <= z < j && in_tree(start, p, i, q[z]) && !in_tree(start, p, i, q[z + 1]) && #[trigger] light_entry(
                g,
                w,
                q[z] as int,
                q[z + 1] as int,
            ),
    decreases j,
{
    let z = j - 1;
    if in_tree(start, p, i, q[z]) {
        assert(light_entry(g, w, q[z] as int, q[z + 1] as int));
    } else {
        lemma_light_exit(g, w, start, p, i, q, j - 1);
    }
}

/// The tree vertices are vertices of `g`.
proof fn lemma_tree_in_range(g: &Graph<u64>, start: usize, p: Seq<Edge<u64>>, i: int, x: usize)
    requires
        g.wf(),
        start < g.n,
        forall|j: int| 0 <= j < p.len() ==> #[trigger] prim_step::<u64>(g, start, p, j),
        0 <= i <= p.len(),
        in_tree(start, p, i, x),
    ensures
        x < g.n,
{
    if x != start {
        let j = choose|j: int| 0 <= j < i && #[trigger] p[j].to == x;
        assert(prim_step::<u64>(g, start, p, j));
        let k = choose|k: int|
            0 <= k < g.adj@[p[j].from as int]@.len() && #[trigger] g.adj@[p[j].from as int]@[k] == (p[j].to, p[j].weight);
    }
}

/// For a weight `w`, the light edges of the first `i` tree edges join every two
/// tree vertices that light entries join.
proof fn lemma_prim_light_links(g: &Graph<u64>, start: usize, p: Seq<Edge<u64>>, w: u64, i: int)
    requires
        g.wf(),
        start < g.n,
        g.weight_symmetric(),
        forall|j: int| 0 <= j < p.len() ==> #[trigger] prim_step::<u64>(g, start, p, j),
        0 <= i <= p.len(),
    ensures
        forall|a: usize, b: usize|
            in_tree(start, p, i, a) && in_tree(start, p, i, b) && #[trigger] light_reach(g, w, a as int, b as int)
                ==> linked(light(p.take(i), w), a as int, b as int),
    decreases i,
{
    if i == 0 {
        assert forall|a: usize, b: usize|
            in_tree(start, p, i, a) && in_tree(start, p, i, b) && #[trigger] light_reach(g, w, a as int, b as int)
                implies linked(light(p.take(i), w), a as int, b as int) by {
            assert(a == start && b == start);
            lemma_linked_refl(light(p.take(i), w), a as int);
        }
    } else {
        lemma_prim_light_links(g, start, p, w, i - 1);
        let e = p[i - 1];
        let x = e.from;
        let y = e.to;
        let l0 = light(p.take(i - 1), w);
        let l1 = light(p.take(i), w);
        assert(p.take(i - 1).push(e) =~= p.take(i));
        lemma_light_push(p.take(i - 1), e, w);
        assert(prim_step::<u64>(g, start, p, i - 1));
        let ke = choose|k: int| 0 <= k < g.adj@[x as int]@.len() && #[trigger] g.adj@[x as int]@[k] == (y, e.weight);
        assert(y < g.n);
        // tree vertices after step i are those before it and y
        assert forall|z: usize| #[trigger] in_tree(start, p, i, z) <==> (in_tree(start, p, i - 1, z) || z == y) by {
            if in_tree(start, p, i, z) && z != start && z != y {
                let j = choose|j: int| 0 <= j < i && #[trigger] p[j].to == z;
                assert(j != i - 1);
            }
            if z == y {
                assert(p[i - 1].to == z);
            }
            if in_tree(start, p, i - 1, z) && z != start {
                let j = choose|j: int| 0 <= j < i - 1 && #[trigger] p[j].to == z;
            }
        }
        // what l0 joins, l1 joins
        assert forall|a: int, b: int| linked(l0, a, b) implies linked(l1, a, b) by {
            if e.weight <= w {
                lemma_linked_grow(l0, e, a, b);
            }
        }
        assert forall|a: usize, b: usize|
            in_tree(start, p, i, a) && in_tree(start, p, i, b) && #[trigger] light_reach(g, w, a as int, b as int)
                implies linked(l1, a as int, b as int) by {
            if a == y && b == y {
                lemma_linked_refl(l1, a as int);
            } else if a != y && b != y {
                assert(linked(l0, a as int, b as int));
            } else {
                // one end is y, the other c was in the tree before
                let c = if a == y { b } else { a };
                assert(in_tree(start, p, i - 1, c));
                lemma_tree_in_range(g, start, p, i - 1, c);
                if a == y {
                    assert(light_reach(g, w, y as int, c as int));
                } else {
                    lemma_light_reach_sym(g, w, c as int, y as int);
                }
                assert(light_reach(g, w, y as int, c as int));
                lemma_light_reach_sym(g, w, y as int, c as int);
                if e.weight <= w {
                    assert(light_entry(g, w, x as int, y as int));
                    lemma_light_reach_prepend(g, w, x as int, y as int, c as int);
                    assert(in_tree(start, p, i - 1, x));
                    assert(light_reach(g, w, x as int, c as int));
                    assert(linked(l0, x as int, c as int));
                    assert(linked(l1, x as int, c as int));
                    assert(l1[l0.len() as int] == e);
                    lemma_linked_edge(l1, l0.len() as int);
                    lemma_linked_sym(l1, x as int, y as int);
                    lemma_linked_trans(l1, y as int, x as int, c as int);
                    lemma_linked_sym(l1, y as int, c as int);
                } else {
                    // no light entry leaves the tree before step i: y is out of light reach
                    let q = choose|q: Seq<usize>| #[trigger] light_walk(g, w, q) && q[0] == c && q.last() == y;
                    lemma_light_exit(g, w, start, p, i - 1, q, q.len() - 1);
                    let z = choose|z: int|
                        0 <= z < q.len() - 1 && in_tree(start, p, i - 1, q[z]) && !in_tree(start, p, i - 1, q[z + 1])
                            && #[trigger] light_entry(g, w, q[z] as int, q[z + 1] as int);
                    let u = q[z];
                    let k = choose|k: int|
                        0 <= k < g.adj@[u as int]@.len() && (#[trigger] g.adj@[u as int]@[k]).0 == q[z + 1]
                            && g.adj@[u as int]@[k].1 <= w;
                    assert(u < g.n);
                    assert(e.weight <= g.adj@[u as int]@[k].1);
                }
            }
        }
    }
}

/// The tree edges that `prim` returns form a forest.
pub proof fn lemma_prim_forest(g: &Graph<u64>, start: usize, p: Seq<Edge<u64>>)
    requires
        forall|i: int| 0 <= i < p.len() ==> #[trigger] prim_step::<u64>(g, start, p, i),
    ensures
        is_forest(p),
{
    assert forall|t: int| 0 <= t < p.len() implies #[trigger] in_tree(start, p, t, p[t].from) by {
        assert(prim_step::<u64>(g, start, p, t));
    }
    assert forall|i: int| 0 <= i < p.len() implies !linked(p.take(i), (#[trigger] p[i]).from as int, p[i].to as int) by {
        assert(prim_step::<u64>(g, start, p, i));
        if linked(p.take(i), p[i].from as int, p[i].to as int) {
            let q = choose|q: Seq<usize>| #[trigger] link_path(p.take(i), q, p[i].from as int, p[i].to as int);
            lemma_tree_path_stays(start, p, i, q, q.len() - 1);
        }
    }
}

/// A path along the first `i` tree edges from a tree vertex stays in the tree.
proof fn lemma_tree_path_stays(start: usize, p: Seq<Edge<u64>>, i: int, q: Seq<usize>, j: int)
    requires
        0 <= i <= p.len(),
        q.len() >= 1,
        in_tree(start, p, i, q[0]),
        forall|t: int| 0 <= t < q.len() - 1 ==> #[trigger] link_step(p.take(i), q, t),
        forall|t: int| 0 <= t < p.len() ==> #[trigger] in_tree(start, p, t, p[t].from),
        0 <= j < q.len(),
    ensures
        in_tree(start, p, i, q[j]),
    decreases j,
{
    if j > 0 {
        lemma_tree_path_stays(start, p, i, q, j - 1);
        assert(link_step(p.take(i), q, j - 1));
        let m = choose|m: int|
            0 <= m < p.take(i).len() && ((#[trigger] p.take(i)[m].from == q[j - 1] && p.take(i)[m].to == q[j]) || (
            p.take(i)[m].to == q[j - 1] && p.take(i)[m].from == q[j]));
        assert(p.take(i)[m] == p[m]);
        assert(in_tree(start, p, m, p[m].from));
        if p[m].from != start {
            let r = choose|r: int| 0 <= r < m && #[trigger] p[r].to == p[m].from;
            assert(in_tree(start, p, i, p[r].to));
        }
        assert(in_tree(start, p, i, p[m].from));
        assert(in_tree(start, p, i, p[m].to));
    }
}

/// In a graph whose entries have reverse entries of the same weight, the tree
/// that `prim` returns is light on every cycle.
pub proof fn lemma_prim_cycle_light(g: &Graph<u64>, start: usize, p: Seq<Edge<u64>>)
    requires
        g.wf(),
        start < g.n,
        g.weight_symmetric(),
        is_prim_tree(g, start, p),
    ensures
        tree_cycle_light(g, start, p),
{
    assert forall|a: int, k: int|
        0 <= a < g.n && in_tree(start, p, p.len() as int, a as usize) && 0 <= k < g.adj@[a]@.len() implies linked(
            light(p, (#[trigger] g.adj@[a]@[k]).1),
            a,
            g.adj@[a]@[k].0 as int,
        ) by {
        let w = g.adj@[a]@[k].1;
        let b = g.adj@[a]@[k].0;
        assert(b < g.n);
        assert(g.reachable(start as int, a));
        assert(g.has_edge(a, b as int));
        lemma_reach_step(g, start as int, a, b as int);
        assert(in_tree(start, p, p.len() as int, b));
        let q = seq![a as usize, b];
        assert(light_entry(g, w, q[0] as int, q[1] as int));
        assert(light_walk(g, w, q));
        assert(light_reach(g, w, a, b as int));
        lemma_prim_light_links(g, start, p, w, p.len() as int);
        assert(p.take(p.len() as int) =~= p);
        assert(linked(light(p.take(p.len() as int), w), (a as usize) as int, b as int));
    }
}

/// The edges of `light(es, w)` are edges of `es`.
proof fn lemma_light_linked(es: Seq<Edge<u64>>, w: u64, a: int, b: int)
    requires
        linked(light(es, w), a, b),
    ensures
        linked(es, a, b),
{
    let l = light(es, w);
    assert forall|i: int| 0 <= i < l.len() implies linked(es, (#[trigger] l[i]).from as int, l[i].to as int) by {
        assert(l.contains(l[i]));
        lemma_light_contains(es, w, l[i]);
        lemma_contains_linked(es, l[i]);
    }
    lemma_linked_lift(l, es, a, b);
}

/// Where every vertex can be reached from `start` and every entry has a reverse
/// entry of the same weight, the tree that `prim` returns is a spanning forest
/// light on every cycle.
proof fn lemma_prim_spanning(g: &Graph<u64>, start: usize, p: Seq<Edge<u64>>)
    requires
        g.wf(),
        start < g.n,
        g.weight_symmetric(),
        forall|y: int| 0 <= y < g.n ==> #[trigger] g.reachable(start as int, y),
        is_prim_tree(g, start, p),
    ensures
        is_spanning_forest(g, p),
        cycle_light(g, p),
{
    lemma_prim_cycle_light(g, start, p);
    lemma_prim_forest(g, start, p);
    assert forall|i: int| 0 <= i < p.len() implies is_entry(g, #[trigger] p[i]) by {
        assert(prim_step::<u64>(g, start, p, i));
    }
    assert forall|a: int, k: int|
        0 <= a < g.n && 0 <= k < g.adj@[a]@.len() implies linked(
            light(p, (#[trigger] g.adj@[a]@[k]).1),
            a,
            g.adj@[a]@[k].0 as int,
        ) by {
        assert(g.reachable(start as int, a));
        assert(in_tree(start, p, p.len() as int, a as usize));
    }
    assert forall|a: int, b: int| #[trigger] g.has_edge(a, b) implies linked(p, a, b) by {
        let k = choose|k: int| 0 <= k < g.adj@[a]@.len() && (#[trigger] g.adj@[a]@[k]).0 == b;
        assert(linked(light(p, g.adj@[a]@[k].1), a, b));
        lemma_light_linked(p, g.adj@[a]@[k].1, a, b);
    }
}

/// Where every vertex can be reached from `start` and every entry has a reverse
/// entry of the same weight, the tree that `prim` returns weighs no more than
/// any spanning forest of `g`.
pub proof fn law_prim_tree_is_lightest(g: &Graph<u64>, start: usize, p: Seq<Edge<u64>>, t: Seq<Edge<u64>>)
    requires
        g.wf(),
        start < g.n,
        g.weight_symmetric(),
        forall|y: int| 0 <= y < g.n ==> #[trigger] g.reachable(start as int, y),
        is_prim_tree(g, start, p),
        is_spanning_forest(g, t),
    ensures
        total_weight(p) <= total_weight(t),
{
    lemma_prim_spanning(g, start, p);
    law_cycle_light_forest_is_lightest(g, p, t);
}

/// Where every vertex can be reached from `start` and every entry has a reverse
/// entry of the same weight, the forest that `kruskal` returns and the tree that
/// `prim` returns from `start` weigh the same.
pub proof fn law_kruskal_prim_same_weight(g: &Graph<u64>, start: usize, m: Seq<Edge<u64>>, p: Seq<Edge<u64>>)
    requires
        g.wf(),
        start < g.n,
        g.weight_symmetric(),
        forall|y: int| 0 <= y < g.n ==> #[trigger] g.reachable(start as int, y),
        is_spanning_forest(g, m),
        cycle_light(g, m),
        is_prim_tree(g, start, p),
    ensures
        total_weight(m) == total_weight(p),
{
    lemma_prim_spanning(g, start, p);
    law_cycle_light_forest_is_lightest(g, p, m);
    law_cycle_light_forest_is_lightest(g, m, p);
}

/// `t` is a spanning forest of the part of `g` reachable from `s`: entries of
/// `g` leaving reachable vertices, without a cycle, joining the ends of every
/// edge from a reachable vertex.
pub open spec fn spans_part_from(g: &Graph<u64>, s: usize, t: Seq<Edge<u64>>) -> bool {
    &&& forall|i: int| 0 <= i < t.len() ==> is_entry(g, #[trigger] t[i]) && g.reachable(s as int, t[i].from as int)
    &&& is_forest(t)
    &&& forall|a: int, b: int| #[trigger] g.has_edge(a, b) && g.reachable(s as int, a) ==> linked(t, a, b)
}

/// Where every entry has a reverse entry of the same weight, the tree that
/// `prim` returns from `start` weighs no more than any spanning forest of the
/// part of `g` reachable from `start`.
pub proof fn law_prim_tree_is_lightest_on_its_part(g: &Graph<u64>, start: usize, p: Seq<Edge<u64>>, t: Seq<Edge<u64>>)
    requires
        g.wf(),
        start < g.n,
        g.weight_symmetric(),
        is_prim_tree(g, start, p),
        spans_part_from(g, start, t),
    ensures
        total_weight(p) <= total_weight(t),
{
    lemma_prim_cycle_light(g, start, p);
    lemma_prim_forest(g, start, p);
    assert forall|i: int| 0 <= i < p.len() implies is_entry(g, #[trigger] p[i]) by {
        assert(prim_step::<u64>(g, start, p, i));
    }
    lemma_entries_within(g, p);
    assert forall|i: int| 0 <= i < t.len() implies linked(p, (#[trigger] t[i]).from as int, t[i].to as int)
        && linked(light(p, t[i].weight), t[i].from as int, t[i].to as int) by {
        assert(is_entry(g, t[i]));
        let a = t[i].from as int;
        let k = choose|k: int| 0 <= k < g.adj@[a]@.len() && #[trigger] g.adj@[a]@[k] == (t[i].to, t[i].weight);
        assert(g.reachable(start as int, a));
        assert(in_tree(start, p, p.len() as int, a as usize));
        assert(linked(light(p, g.adj@[a]@[k].1), a, g.adj@[a]@[k].0 as int));
        lemma_light_linked(p, t[i].weight, a, t[i].to as int);
    }
    assert forall|i: int| 0 <= i < p.len() implies linked(t, (#[trigger] p[i]).from as int, p[i].to as int) by {
        assert(prim_step::<u64>(g, start, p, i));
        let x = p[i].from;
        assert(in_tree(start, p, i, x));
        assert(in_tree(start, p, p.len() as int, x)) by {
            if x != start {
                let j = choose|j: int| 0 <= j < i && #[trigger] p[j].to == x;
            }
        }
        let k = choose|k: int| 0 <= k < g.adj@[x as int]@.len() && #[trigger] g.adj@[x as int]@[k] == (p[i].to, p[i].weight);
        assert(g.has_edge(x as int, p[i].to as int));
    }
    lemma_lighter_forest(g, p, t);
}

} // verus!
