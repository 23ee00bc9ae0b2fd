//! Matching algorithms: maximum bipartite matching.
use crate::connectivity::filled_usize;
use crate::graph::Graph;
use crate::seq_facts::lemma_distinct_bounded_missing;
use vstd::prelude::*;
use vstd::set_lib::*;

verus! {

/// `m` is a matching of `g` between the left vertices `0..n_left` and the right
/// vertices from `n_left` on: every pair is an edge from a left to a right
/// vertex, no vertex is used twice, and the pairs are listed by increasing left vertex.
pub open spec fn is_bipartite_matching<W>(g: &Graph<W>, n_left: usize, m: Seq<(usize, usize)>) -> bool {
    &&& forall|i: int|
        0 <= i < m.len() ==> (#[trigger] m[i]).0 < n_left && n_left <= m[i].1 < g.n && g.has_edge(
            m[i].0 as int,
            m[i].1 as int,
        )
    &&& forall|i: int, j: int| 0 <= i < j < m.len() ==> (#[trigger] m[i]).0 < (#[trigger] m[j]).0
    &&& forall|i: int, j: int| 0 <= i < j < m.len() ==> (#[trigger] m[i]).1 != (#[trigger] m[j]).1
}

/// In the pair list `m`, right vertex `r` is the partner of left vertex `b`.
pub open spec fn partner_in(m: Seq<(usize, usize)>, b: int, r: int) -> bool {
    exists|i: int| 0 <= i < m.len() && #[trigger] m[i].0 == b && m[i].1 == r
}

/// From left vertex `a`, an edge to a right vertex whose partner in `m` is `b`.
pub open spec fn m_step<W>(g: &Graph<W>, n_left: usize, m: Seq<(usize, usize)>, a: int, b: int) -> bool {
    exists|k: int|
        0 <= k < g.adj@[a]@.len() && (#[trigger] g.adj@[a]@[k]).0 >= n_left && partner_in(m, b, g.adj@[a]@[k].0 as int)
}

/// Left vertex `a` has an edge to a right vertex that no pair of `m` uses.
pub open spec fn m_free_end<W>(g: &Graph<W>, n_left: usize, m: Seq<(usize, usize)>, a: int) -> bool {
    exists|k: int|
        0 <= k < g.adj@[a]@.len() && (#[trigger] g.adj@[a]@[k]).0 >= n_left && forall|i: int|
            0 <= i < m.len() ==> (#[trigger] m[i]).1 != g.adj@[a]@[k].0
}

/// `p` gives the left vertices of an augmenting path for the matching `m`: the
/// first has no partner, each next one is the partner of a right vertex that the
/// one before has an edge to, and the last has an edge to a right vertex without
/// a partner. Flipping such a path would match one pair more.
pub open spec fn augmenting<W>(g: &Graph<W>, n_left: usize, m: Seq<(usize, usize)>, p: Seq<usize>) -> bool {
    &&& p.len() >= 1
    &&& forall|i: int| 0 <= i < p.len() ==> #[trigger] p[i] < n_left
    &&& forall|i: int| 0 <= i < m.len() ==> (#[trigger] m[i]).0 != p[0]
    &&& forall|i: int| 0 <= i < p.len() - 1 ==> #[trigger] m_step(g, n_left, m, p[i] as int, p[i + 1] as int)
    &&& m_free_end(g, n_left, m, p.last() as int)
}

/// The left partners and right partners agree (`usize::MAX` for none), except that
/// the entry of right vertex `stale` may still name a left vertex that has moved on.
pub open spec fn pairs_ok<W>(
    g: &Graph<W>,
    n_left: usize,
    pu: Seq<usize>,
    pv: Seq<usize>,
    stale: int,
) -> bool {
    &&& forall|x: int|
        0 <= x < pu.len() && #[trigger] pu[x] != usize::MAX ==> pu[x] < pv.len() && pv[pu[x] as int]
            == x && g.has_edge(x, pu[x] + n_left)
    &&& forall|y: int|
        0 <= y < pv.len() && y != stale && #[trigger] pv[y] != usize::MAX ==> pv[y] < pu.len()
            && pu[pv[y] as int] == y
}

/// The left vertices that have no partner.
pub open spec fn free_left(pu: Seq<usize>) -> Set<int> {
    Set::new(|x: int| 0 <= x < pu.len() && pu[x] == usize::MAX)
}

/// Every distance is unset or smaller than `n_left`.
pub open spec fn dist_ok(dist: Seq<usize>, n_left: usize) -> bool {
    &&& dist.len() == n_left
    &&& forall|x: int| 0 <= x < dist.len() && #[trigger] dist[x] != usize::MAX ==> dist[x] < n_left
}

/// From left vertex `a`, an edge to a right vertex whose partner is `b`.
pub open spec fn alt_step<W>(g: &Graph<W>, n_left: usize, pv: Seq<usize>, a: int, b: int) -> bool {
    exists|k: int|
        0 <= k < g.adj@[a]@.len() && (#[trigger] g.adj@[a]@[k]).0 >= n_left && pv[g.adj@[a]@[k].0 - n_left] == b
}

/// Left vertex `a` has an edge to a right vertex without a partner.
pub open spec fn free_end<W>(g: &Graph<W>, n_left: usize, pv: Seq<usize>, a: int) -> bool {
    exists|k: int|
        0 <= k < g.adj@[a]@.len() && (#[trigger] g.adj@[a]@[k]).0 >= n_left && pv[g.adj@[a]@[k].0 - n_left]
            == usize::MAX
}

/// `p` lists left vertices, each reached from the one before through an edge to
/// a right vertex that the next one is matched to.
pub open spec fn alt_chain<W>(g: &Graph<W>, n_left: usize, pv: Seq<usize>, p: Seq<usize>) -> bool {
    &&& p.len() >= 1
    &&& forall|i: int| 0 <= i < p.len() ==> #[trigger] p[i] < n_left
    &&& forall|i: int| 0 <= i < p.len() - 1 ==> #[trigger] alt_step(g, n_left, pv, p[i] as int, p[i + 1] as int)
}

/// An augmenting path, given by its left vertices: it starts at a left vertex
/// without a partner, alternates through matched right vertices, and ends with
/// an edge to a right vertex without a partner.
pub open spec fn aug_path<W>(g: &Graph<W>, n_left: usize, pu: Seq<usize>, pv: Seq<usize>, p: Seq<usize>) -> bool {
    &&& alt_chain(g, n_left, pv, p)
    &&& pu[p[0] as int] == usize::MAX
    &&& free_end(g, n_left, pv, p.last() as int)
}

/// An alternating chain whose layers in `dist` go up by one at each step.
pub open spec fn layered_chain<W>(g: &Graph<W>, n_left: usize, pv: Seq<usize>, dist: Seq<usize>, p: Seq<usize>) -> bool {
    &&& alt_chain(g, n_left, pv, p)
    &&& forall|i: int| 0 <= i < p.len() ==> #[trigger] dist[p[i] as int] != usize::MAX
    &&& forall|i: int| 0 <= i < p.len() - 1 ==> #[trigger] dist[p[i + 1] as int] == dist[p[i] as int] + 1
}

/// Left vertex `x` starts a layered chain that ends with an edge to a free right vertex.
pub open spec fn good<W>(g: &Graph<W>, n_left: usize, pv: Seq<usize>, dist: Seq<usize>, x: int) -> bool {
    exists|p: Seq<usize>|
        #[trigger] layered_chain(g, n_left, pv, dist, p) && p[0] == x && free_end(g, n_left, pv, p.last() as int)
}

/// A layered chain stays one while the layers of its vertices stay fixed.
proof fn lemma_chain_frame<W>(g: &Graph<W>, n_left: usize, pv: Seq<usize>, d1: Seq<usize>, d2: Seq<usize>, p: Seq<usize>)
    requires
        layered_chain(g, n_left, pv, d1, p),
        forall|x: int| 0 <= x < n_left && d1[x] != usize::MAX ==> #[trigger] d2[x] == d1[x],
    ensures
        layered_chain(g, n_left, pv, d2, p),
{
    assert forall|i: int| 0 <= i < p.len() implies #[trigger] d2[p[i] as int] != usize::MAX by {
        assert(d1[p[i] as int] != usize::MAX);
        assert(p[i] < n_left);
    }
    assert forall|i: int| 0 <= i < p.len() - 1 implies #[trigger] d2[p[i + 1] as int] == d2[p[i] as int] + 1 by {
        assert(d1[p[i] as int] != usize::MAX && d1[p[i + 1] as int] != usize::MAX);
        assert(p[i] < n_left && p[i + 1] < n_left);
    }
}

/// A set of left vertices that holds the free ones and is closed under
/// alternating steps, none of which has an edge to a free right vertex, leaves
/// no augmenting path.
proof fn lemma_no_aug<W>(g: &Graph<W>, n_left: usize, pu: Seq<usize>, pv: Seq<usize>, dist: Seq<usize>, p: Seq<usize>, i: int)
    requires
        aug_path(g, n_left, pu, pv, p),
        0 <= i < p.len(),
        forall|x: int| 0 <= x < n_left && #[trigger] pu[x] == usize::MAX ==> dist[x] != usize::MAX,
        forall|a: int, b: int| 0 <= a < n_left && 0 <= b < n_left && dist[a] != usize::MAX && #[trigger] alt_step(g, n_left, pv, a, b)
            ==> dist[b] != usize::MAX,
        forall|a: int| 0 <= a < n_left && dist[a] != usize::MAX ==> !#[trigger] free_end(g, n_left, pv, a),
    ensures
        dist[p[i] as int] != usize::MAX,
        i == p.len() - 1 ==> false,
    decreases i,
{
    assert(p[i] < n_left);
    if i > 0 {
        lemma_no_aug(g, n_left, pu, pv, dist, p, i - 1);
        let j = i - 1;
        assert(alt_step(g, n_left, pv, p[j] as int, p[j + 1] as int));
        assert(p[j] < n_left);
    } else {
        assert(p[0] < n_left);
    }
    if i == p.len() - 1 {
        assert(free_end(g, n_left, pv, p.last() as int));
    }
}

/// The part of a good chain from any of its vertices on is good too.
proof fn lemma_suffix_good<W>(g: &Graph<W>, n_left: usize, pv: Seq<usize>, dist: Seq<usize>, p: Seq<usize>, j: int)
    requires
        layered_chain(g, n_left, pv, dist, p),
        free_end(g, n_left, pv, p.last() as int),
        0 <= j < p.len(),
    ensures
        good(g, n_left, pv, dist, p[j] as int),
{
    let q = p.subrange(j, p.len() as int);
    assert forall|i: int| 0 <= i < q.len() implies #[trigger] q[i] < n_left && dist[q[i] as int] != usize::MAX by {
        assert(q[i] == p[j + i]);
    }
    assert forall|i: int| 0 <= i < q.len() - 1 implies #[trigger] alt_step(g, n_left, pv, q[i] as int, q[i + 1] as int) by {
        let a = j + i;
        assert(q[i] == p[a] && q[i + 1] == p[a + 1]);
        assert(alt_step(g, n_left, pv, p[a] as int, p[a + 1] as int));
    }
    assert forall|i: int| 0 <= i < q.len() - 1 implies #[trigger] dist[q[i + 1] as int] == dist[q[i] as int] + 1 by {
        let a = j + i;
        assert(q[i] == p[a] && q[i + 1] == p[a + 1]);
        assert(dist[p[a + 1] as int] == dist[p[a] as int] + 1);
    }
    assert(q.last() == p.last());
    assert(layered_chain(g, n_left, pv, dist, q));
}

/// Taking a vertex that is not good out of the layers changes no vertex's goodness.
proof fn lemma_kill<W>(g: &Graph<W>, n_left: usize, pv: Seq<usize>, dist: Seq<usize>, z: int)
    requires
        0 <= z < dist.len(),
        dist.len() == n_left,
        !good(g, n_left, pv, dist, z),
    ensures
        forall|x: int|
            #![trigger good(g, n_left, pv, dist.update(z, usize::MAX), x)]
            #![trigger good(g, n_left, pv, dist, x)]
            good(g, n_left, pv, dist.update(z, usize::MAX), x) <==> good(g, n_left, pv, dist, x),
{
    let d2 = dist.update(z, usize::MAX);
    assert forall|x: int|
        #![trigger good(g, n_left, pv, d2, x)]
        #![trigger good(g, n_left, pv, dist, x)]
        good(g, n_left, pv, d2, x) <==> good(g, n_left, pv, dist, x) by {
        if good(g, n_left, pv, d2, x) {
            let p = choose|p: Seq<usize>| #[trigger] layered_chain(g, n_left, pv, d2, p) && p[0] == x && free_end(g, n_left, pv, p.last() as int);
            assert forall|i: int| 0 <= i < p.len() implies #[trigger] dist[p[i] as int] == d2[p[i] as int] by {
                assert(d2[p[i] as int] != usize::MAX);
            }
            assert forall|i: int| 0 <= i < p.len() - 1 implies #[trigger] dist[p[i + 1] as int] == dist[p[i] as int] + 1 by {
                assert(dist[p[i] as int] == d2[p[i] as int]);
                assert(dist[p[i + 1] as int] == d2[p[i + 1] as int]);
            }
            assert forall|i: int| 0 <= i < p.len() implies #[trigger] dist[p[i] as int] != usize::MAX by {
                assert(dist[p[i] as int] == d2[p[i] as int]);
            }
            assert(layered_chain(g, n_left, pv, dist, p));
        }
        if good(g, n_left, pv, dist, x) {
            let p = choose|p: Seq<usize>| #[trigger] layered_chain(g, n_left, pv, dist, p) && p[0] == x && free_end(g, n_left, pv, p.last() as int);
            assert forall|i: int| 0 <= i < p.len() implies p[i] != z by {
                if p[i] == z {
                    lemma_suffix_good(g, n_left, pv, dist, p, i);
                }
            }
            assert forall|i: int| 0 <= i < p.len() implies #[trigger] d2[p[i] as int] == dist[p[i] as int] by {
                assert(p[i] != z);
            }
            assert forall|i: int| 0 <= i < p.len() - 1 implies #[trigger] d2[p[i + 1] as int] == d2[p[i] as int] + 1 by {
                assert(d2[p[i] as int] == dist[p[i] as int]);
                assert(d2[p[i + 1] as int] == dist[p[i + 1] as int]);
            }
            assert forall|i: int| 0 <= i < p.len() implies #[trigger] d2[p[i] as int] != usize::MAX by {
                assert(d2[p[i] as int] == dist[p[i] as int]);
            }
            assert(layered_chain(g, n_left, pv, d2, p));
        }
    }
}

/// Layer the left vertices by alternating paths from the free ones; true when
/// some layered vertex has a free right neighbour.
fn layer<W>(
    g: &Graph<W>,
    n_left: usize,
    pair_u: &Vec<usize>,
    pair_v: &Vec<usize>,
    dist: &mut Vec<usize>,
) -> (found: bool)
    requires
        g.wf(),
        n_left <= g.n,
        pair_u@.len() == n_left,
        pair_v@.len() == g.n - n_left,
        pairs_ok(g, n_left, pair_u@, pair_v@, -1),
        old(dist)@.len() == n_left,
    ensures
        dist_ok(final(dist)@, n_left),
        forall|x: int| 0 <= x < n_left && #[trigger] pair_u@[x] == usize::MAX ==> final(dist)@[x] == 0,
        !found ==> forall|p: Seq<usize>| !#[trigger] aug_path(g, n_left, pair_u@, pair_v@, p),
        found ==> exists|r: int|
            0 <= r < n_left && pair_u@[r] == usize::MAX && #[trigger] good(g, n_left, pair_v@, final(dist)@, r),
{
    let mut queue: Vec<usize> = Vec::new();
    let mut u: usize = 0;
    while u < n_left
        invariant
            u <= n_left,
            dist@.len() == n_left,
            pair_u@.len() == n_left,
            queue@.len() <= u,
            queue@.no_duplicates(),
            forall|i: int| 0 <= i < queue@.len() ==> #[trigger] queue@[i] < u && dist@[queue@[i] as int] == 0,
            forall|x: int| 0 <= x < u && #[trigger] pair_u@[x] == usize::MAX ==> dist@[x] == 0,
            forall|x: int| 0 <= x < u ==> (#[trigger] dist@[x] != usize::MAX <==> queue@.contains(x as usize)),
            forall|x: int| 0 <= x < u && #[trigger] dist@[x] != usize::MAX ==> pair_u@[x] == usize::MAX,
        decreases n_left - u,
    {
        let ghost q0 = queue@;
        let ghost d0 = dist@;
        if pair_u[u] == usize::MAX {
            dist.set(u, 0);
            queue.push(u);
            proof {
                assert forall|x: int| 0 <= x < u + 1 implies (#[trigger] dist@[x] != usize::MAX <==> queue@.contains(x as usize)) by {
                    if x < u {
                        assert(dist@[x] == d0[x]);
                        if queue@.contains(x as usize) {
                            let j = choose|j: int| 0 <= j < queue@.len() && queue@[j] == x as usize;
                            assert(j != q0.len());
                            assert(q0[j] == x);
                        }
                        if q0.contains(x as usize) {
                            let j = choose|j: int| 0 <= j < q0.len() && q0[j] == x as usize;
                            assert(queue@[j] == x);
                        }
                    } else {
                        assert(queue@[q0.len() as int] == u);
                    }
                }
            }
        } else {
            dist.set(u, usize::MAX);
            proof {
                assert(!q0.contains(u));
                assert forall|x: int| 0 <= x < u + 1 implies (#[trigger] dist@[x] != usize::MAX <==> queue@.contains(x as usize)) by {
                    if x == u {
                        assert(!queue@.contains(u));
                    } else {
                        assert(dist@[x] == d0[x]);
                    }
                }
            }
        }
        u = u + 1;
    }
    let mut found = false;
    let mut head: usize = 0;
    proof {
        assert forall|x: int| 0 <= x < n_left && #[trigger] dist@[x] != usize::MAX implies exists|p: Seq<usize>|
            #[trigger] layered_chain(g, n_left, pair_v@, dist@, p) && pair_u@[p[0] as int] == usize::MAX && p.last() == x by {
            let p = seq![x as usize];
            assert(layered_chain(g, n_left, pair_v@, dist@, p));
        }
    }
    while head < queue.len()
        invariant
            g.wf(),
            n_left <= g.n,
            pair_u@.len() == n_left,
            pair_v@.len() == g.n - n_left,
            pairs_ok(g, n_left, pair_u@, pair_v@, -1),
            dist@.len() == n_left,
            head <= queue@.len(),
            queue@.len() <= n_left,
            queue@.no_duplicates(),
            forall|i: int| 0 <= i < queue@.len() ==> #[trigger] queue@[i] < n_left && dist@[queue@[i] as int] <= i,
            forall|x: int| 0 <= x < n_left ==> (#[trigger] dist@[x] != usize::MAX <==> queue@.contains(x as usize)),
            forall|x: int| 0 <= x < n_left && #[trigger] pair_u@[x] == usize::MAX ==> dist@[x] == 0,
            forall|x: int| 0 <= x < n_left && #[trigger] dist@[x] != usize::MAX ==> exists|p: Seq<usize>|
                #[trigger] layered_chain(g, n_left, pair_v@, dist@, p) && pair_u@[p[0] as int] == usize::MAX && p.last() == x,
            forall|i: int, k: int|
                0 <= i < head && 0 <= k < g.adj@[queue@[i] as int]@.len() && (#[trigger] g.adj@[queue@[i] as int]@[k]).0 >= n_left
                    ==> (pair_v@[g.adj@[queue@[i] as int]@[k].0 - n_left] == usize::MAX ==> found)
                    && (pair_v@[g.adj@[queue@[i] as int]@[k].0 - n_left] != usize::MAX
                        ==> dist@[pair_v@[g.adj@[queue@[i] as int]@[k].0 - n_left] as int] != usize::MAX),
            found ==> exists|x: int| 0 <= x < n_left && dist@[x] != usize::MAX && #[trigger] free_end(g, n_left, pair_v@, x),
        decreases n_left - head,
    {
        let u = queue[head];
        let mut k: usize = 0;
        while k < g.adj[u].len()
            invariant
                g.wf(),
                n_left <= g.n,
                pair_u@.len() == n_left,
                pair_v@.len() == g.n - n_left,
                pairs_ok(g, n_left, pair_u@, pair_v@, -1),
                dist@.len() == n_left,
                head < queue@.len(),
                u == queue@[head as int],
                u < n_left,
                dist@[u as int] <= head,
                queue@.len() <= n_left,
                queue@.no_duplicates(),
                forall|i: int| 0 <= i < queue@.len() ==> #[trigger] queue@[i] < n_left && dist@[queue@[i] as int] <= i,
                forall|x: int| 0 <= x < n_left ==> (#[trigger] dist@[x] != usize::MAX <==> queue@.contains(x as usize)),
                forall|x: int| 0 <= x < n_left && #[trigger] pair_u@[x] == usize::MAX ==> dist@[x] == 0,
                k <= g.adj@[u as int]@.len(),
                forall|x: int| 0 <= x < n_left && #[trigger] dist@[x] != usize::MAX ==> exists|p: Seq<usize>|
                    #[trigger] layered_chain(g, n_left, pair_v@, dist@, p) && pair_u@[p[0] as int] == usize::MAX && p.last() == x,
                forall|i: int, k2: int|
                    0 <= i < head && 0 <= k2 < g.adj@[queue@[i] as int]@.len() && (#[trigger] g.adj@[queue@[i] as int]@[k2]).0 >= n_left
                        ==> (pair_v@[g.adj@[queue@[i] as int]@[k2].0 - n_left] == usize::MAX ==> found)
                        && (pair_v@[g.adj@[queue@[i] as int]@[k2].0 - n_left] != usize::MAX
                            ==> dist@[pair_v@[g.adj@[queue@[i] as int]@[k2].0 - n_left] as int] != usize::MAX),
                forall|j: int|
                    0 <= j < k && (#[trigger] g.adj@[u as int]@[j]).0 >= n_left
                        ==> (pair_v@[g.adj@[u as int]@[j].0 - n_left] == usize::MAX ==> found)
                        && (pair_v@[g.adj@[u as int]@[j].0 - n_left] != usize::MAX
                            ==> dist@[pair_v@[g.adj@[u as int]@[j].0 - n_left] as int] != usize::MAX),
                found ==> exists|x: int| 0 <= x < n_left && dist@[x] != usize::MAX && #[trigger] free_end(g, n_left, pair_v@, x),
            decreases g.adj@[u as int]@.len() - k,
        {
            let v_rel = g.adj[u][k].0;
            proof {
                assert(g.adj@[u as int]@[k as int].0 < g.n);
            }
            if v_rel >= n_left {
                let v = v_rel - n_left;
                if pair_v[v] == usize::MAX {
                    found = true;
                    proof {
                        assert(dist@[u as int] != usize::MAX) by {
                            assert(queue@.contains(u));
                        }
                        assert(free_end(g, n_left, pair_v@, u as int));
                    }
                } else {
                    let w = pair_v[v];
                    proof {
                        assert(v < pair_v@.len());
                        assert(pair_v@[v as int] != usize::MAX);
                        assert(pair_v@[v as int] < n_left);
                    }
                    if dist[w] == usize::MAX {
                        let ghost q0 = queue@;
                        proof {
                            assert(!q0.contains(w));
                            lemma_distinct_bounded_missing(q0, n_left, w);
                            assert(dist@[u as int] != usize::MAX) by {
                                assert(queue@.contains(u));
                            }
                        }
                        let d = dist[u] + 1;
                        proof {
                            assert(pair_u@[w as int] == v);
                        }
                        let ghost dd = dist@;
                        let ghost pc = choose|p: Seq<usize>|
                            #[trigger] layered_chain(g, n_left, pair_v@, dd, p) && pair_u@[p[0] as int] == usize::MAX && p.last() == u;
                        dist.set(w, d);
                        queue.push(w);
                        proof {
                            assert forall|x: int| 0 <= x < n_left && dd[x] != usize::MAX implies #[trigger] dist@[x] == dd[x] by {
                                if x == w {
                                }
                            }
                            assert forall|x: int| 0 <= x < n_left && #[trigger] dist@[x] != usize::MAX implies exists|p: Seq<usize>|
                                #[trigger] layered_chain(g, n_left, pair_v@, dist@, p) && pair_u@[p[0] as int] == usize::MAX && p.last() == x by {
                                if x == w {
                                    lemma_chain_frame(g, n_left, pair_v@, dd, dist@, pc);
                                    let p = pc.push(w);
                                    assert(alt_step(g, n_left, pair_v@, u as int, w as int));
                                    assert forall|i: int| 0 <= i < p.len() - 1 implies #[trigger] alt_step(g, n_left, pair_v@, p[i] as int, p[i + 1] as int) by {
                                        if i < pc.len() - 1 {
                                            assert(p[i] == pc[i] && p[i + 1] == pc[i + 1]);
                                        } else {
                                            assert(p[i] == u && p[i + 1] == w);
                                        }
                                    }
                                    assert forall|i: int| 0 <= i < p.len() implies #[trigger] dist@[p[i] as int] != usize::MAX by {
                                        if i < pc.len() {
                                            assert(p[i] == pc[i]);
                                        }
                                    }
                                    assert forall|i: int| 0 <= i < p.len() - 1 implies #[trigger] dist@[p[i + 1] as int] == dist@[p[i] as int] + 1 by {
                                        if i < pc.len() - 1 {
                                            assert(p[i] == pc[i] && p[i + 1] == pc[i + 1]);
                                        } else {
                                            assert(p[i] == u && p[i + 1] == w);
                                        }
                                    }
                                    assert(layered_chain(g, n_left, pair_v@, dist@, p));
                                } else {
                                    assert(dd[x] != usize::MAX);
                                    let p = choose|p: Seq<usize>|
                                        #[trigger] layered_chain(g, n_left, pair_v@, dd, p) && pair_u@[p[0] as int] == usize::MAX && p.last() == x;
                                    lemma_chain_frame(g, n_left, pair_v@, dd, dist@, p);
                                }
                            }
                            assert forall|i: int| 0 <= i < queue@.len() implies #[trigger] queue@[i] < n_left && dist@[queue@[i] as int] <= i by {
                                if i < q0.len() {
                                    assert(queue@[i] == q0[i]);
                                    assert(q0[i] != w);
                                }
                            }
                            assert forall|x: int| 0 <= x < n_left implies (#[trigger] dist@[x] != usize::MAX <==> queue@.contains(x as usize)) by {
                                if x == w {
                                    assert(queue@[q0.len() as int] == w);
                                } else {
                                    if queue@.contains(x as usize) {
                                        let j = choose|j: int| 0 <= j < queue@.len() && queue@[j] == x as usize;
                                        assert(j != q0.len());
                                        assert(q0[j] == x);
                                        assert(q0.contains(x as usize));
                                    }
                                    if q0.contains(x as usize) {
                                        let j = choose|j: int| 0 <= j < q0.len() && q0[j] == x as usize;
                                        assert(queue@[j] == x);
                                    }
                                }
                            }
                        }
                    }
                }
            }
            k = k + 1;
        }
        proof {
            assert forall|i: int, k2: int|
                0 <= i < head + 1 && 0 <= k2 < g.adj@[queue@[i] as int]@.len() && (#[trigger] g.adj@[queue@[i] as int]@[k2]).0 >= n_left
                    implies (pair_v@[g.adj@[queue@[i] as int]@[k2].0 - n_left] == usize::MAX ==> found)
                    && (pair_v@[g.adj@[queue@[i] as int]@[k2].0 - n_left] != usize::MAX
                        ==> dist@[pair_v@[g.adj@[queue@[i] as int]@[k2].0 - n_left] as int] != usize::MAX) by {
                if i == head {
                    assert(queue@[i] == u);
                }
            }
        }
        head = head + 1;
    }
    proof {
        assert forall|x: int| 0 <= x < dist@.len() && #[trigger] dist@[x] != usize::MAX implies dist@[x] < n_left by {
            assert(queue@.contains(x as usize));
            let j = choose|j: int| 0 <= j < queue@.len() && queue@[j] == x as usize;
        }
        if !found {
            assert forall|a: int, b: int| 0 <= a < n_left && 0 <= b < n_left && dist@[a] != usize::MAX && #[trigger] alt_step(g, n_left, pair_v@, a, b)
                implies dist@[b] != usize::MAX by {
                assert(queue@.contains(a as usize));
                let i = choose|i: int| 0 <= i < queue@.len() && queue@[i] == a as usize;
                let k = choose|k: int|
                    0 <= k < g.adj@[a]@.len() && (#[trigger] g.adj@[a]@[k]).0 >= n_left && pair_v@[g.adj@[a]@[k].0 - n_left] == b;
                assert(g.adj@[queue@[i] as int]@[k].0 >= n_left);
            }
            assert forall|a: int| 0 <= a < n_left && dist@[a] != usize::MAX implies !#[trigger] free_end(g, n_left, pair_v@, a) by {
                if free_end(g, n_left, pair_v@, a) {
                    assert(queue@.contains(a as usize));
                    let i = choose|i: int| 0 <= i < queue@.len() && queue@[i] == a as usize;
                    let k = choose|k: int|
                        0 <= k < g.adj@[a]@.len() && (#[trigger] g.adj@[a]@[k]).0 >= n_left && pair_v@[g.adj@[a]@[k].0 - n_left] == usize::MAX;
                    assert(g.adj@[queue@[i] as int]@[k].0 >= n_left);
                }
            }
            assert forall|p: Seq<usize>| !#[trigger] aug_path(g, n_left, pair_u@, pair_v@, p) by {
                if aug_path(g, n_left, pair_u@, pair_v@, p) {
                    lemma_no_aug(g, n_left, pair_u@, pair_v@, dist@, p, p.len() - 1);
                }
            }
        } else {
            let x = choose|x: int| 0 <= x < n_left && dist@[x] != usize::MAX && #[trigger] free_end(g, n_left, pair_v@, x);
            let p = choose|p: Seq<usize>|
                #[trigger] layered_chain(g, n_left, pair_v@, dist@, p) && pair_u@[p[0] as int] == usize::MAX && p.last() == x;
            assert(good(g, n_left, pair_v@, dist@, p[0] as int));
            assert(p[0] < n_left);
        }
    }
    found
}

/// Search for an augmenting path from `u` along the layers; on success flip it,
/// so that `u` gets a new partner. A dead end is unset from the layers.
fn augment<W>(
    g: &Graph<W>,
    u: usize,
    n_left: usize,
    pair_u: &mut Vec<usize>,
    pair_v: &mut Vec<usize>,
    dist: &mut Vec<usize>,
) -> (ok: bool)
    requires
        g.wf(),
        n_left <= g.n,
        n_left < usize::MAX,
        u < n_left,
        old(pair_u)@.len() == n_left,
        old(pair_v)@.len() == g.n - n_left,
        pairs_ok(g, n_left, old(pair_u)@, old(pair_v)@, -1),
        dist_ok(old(dist)@, n_left),
        old(dist)@[u as int] != usize::MAX,
    ensures
        final(pair_u)@.len() == n_left,
        final(pair_v)@.len() == g.n - n_left,
        dist_ok(final(dist)@, n_left),
        !ok ==> final(pair_u)@ == old(pair_u)@ && final(pair_v)@ == old(pair_v)@,
        ok ==> final(pair_u)@[u as int] != usize::MAX && final(pair_u)@[u as int] != old(pair_u)@[u as int],
        ok ==> pairs_ok(
            g,
            n_left,
            final(pair_u)@,
            final(pair_v)@,
            if old(pair_u)@[u as int] == usize::MAX { -1 } else { old(pair_u)@[u as int] as int },
        ),
        ok && old(pair_u)@[u as int] != usize::MAX ==> final(pair_v)@[old(pair_u)@[u as int] as int] == u,
        forall|x: int|
            0 <= x < n_left && #[trigger] final(pair_u)@[x] != old(pair_u)@[x] ==> final(pair_u)@[x]
                != usize::MAX && (x == u || (old(dist)@[x] != usize::MAX && old(dist)@[x] > old(dist)@[u as int])),
        forall|x: int|
            0 <= x < n_left && #[trigger] final(dist)@[x] != old(dist)@[x] ==> final(dist)@[x]
                == usize::MAX && (x == u || (old(dist)@[x] != usize::MAX && old(dist)@[x] > old(dist)@[u as int])),
        forall|y: int|
            0 <= y < final(pair_v)@.len() && #[trigger] final(pair_v)@[y] != old(pair_v)@[y] ==> (old(pair_v)@[y]
                == usize::MAX || (old(pair_v)@[y] < n_left && old(dist)@[old(pair_v)@[y] as int] != usize::MAX
                && old(dist)@[old(pair_v)@[y] as int] > old(dist)@[u as int])) && final(pair_v)@[y] < n_left
                && old(dist)@[final(pair_v)@[y] as int] != usize::MAX && old(dist)@[final(pair_v)@[y] as int]
                >= old(dist)@[u as int],
        !ok ==> !good(g, n_left, old(pair_v)@, old(dist)@, u as int),
        !ok ==> forall|x: int|
            #![trigger good(g, n_left, old(pair_v)@, final(dist)@, x)]
            #![trigger good(g, n_left, old(pair_v)@, old(dist)@, x)]
            good(g, n_left, old(pair_v)@, final(dist)@, x) <==> good(g, n_left, old(pair_v)@, old(dist)@, x),
    decreases n_left - old(dist)@[u as int],
{
    let ghost pu0 = pair_u@;
    let ghost pv0 = pair_v@;
    let ghost d0 = dist@;
    let ghost du = d0[u as int];
    let mut k: usize = 0;
    while k < g.adj[u].len()
        invariant
            g.wf(),
            n_left <= g.n,
            n_left < usize::MAX,
            u < n_left,
            pu0 == old(pair_u)@,
            pv0 == old(pair_v)@,
            d0 == old(dist)@,
            du == d0[u as int],
            du != usize::MAX,
            du < n_left,
            pair_u@ == pu0,
            pair_v@ == pv0,
            pu0.len() == n_left,
            pv0.len() == g.n - n_left,
            pairs_ok(g, n_left, pu0, pv0, -1),
            dist_ok(dist@, n_left),
            dist_ok(d0, n_left),
            forall|x: int|
                0 <= x < n_left && #[trigger] dist@[x] != d0[x] ==> dist@[x] == usize::MAX
                    && d0[x] != usize::MAX && d0[x] > du,
            k <= g.adj@[u as int]@.len(),
            forall|x: int|
                #![trigger good(g, n_left, pv0, dist@, x)]
                #![trigger good(g, n_left, pv0, d0, x)]
                good(g, n_left, pv0, dist@, x) <==> good(g, n_left, pv0, d0, x),
            forall|j: int|
                0 <= j < k && (#[trigger] g.adj@[u as int]@[j]).0 >= n_left ==> pv0[g.adj@[u as int]@[j].0 - n_left]
                    != usize::MAX && (d0[pv0[g.adj@[u as int]@[j].0 - n_left] as int] != du + 1 || !good(
                    g,
                    n_left,
                    pv0,
                    d0,
                    pv0[g.adj@[u as int]@[j].0 - n_left] as int,
                )),
        decreases g.adj@[u as int]@.len() - k,
    {
        let v_rel = g.adj[u][k].0;
        proof {
            assert(g.adj@[u as int]@[k as int].0 < g.n);
            assert(dist@[u as int] == du);
        }
        if v_rel >= n_left {
            let v = v_rel - n_left;
            let w = pair_v[v];
            let mut take = false;
            if w == usize::MAX {
                take = true;
            } else {
                proof {
                    assert(w < n_left);
                    assert(pu0[w as int] == v);
                }
                if dist[w] == dist[u] + 1 {
                    let ghost dk = dist@;
                    proof {
                        assert(dk[w as int] == d0[w as int]) by {
                            if dk[w as int] != d0[w as int] {
                                assert(dk[w as int] == usize::MAX);
                            }
                        }
                    }
                    if augment(g, w, n_left, pair_u, pair_v, dist) {
                        take = true;
                        proof {
                            // the search below `w` left `u` and the old partner of `u` alone
                            assert(pair_u@[u as int] == pu0[u as int]);
                            assert(pair_v@[v as int] == w);
                            if pu0[u as int] != usize::MAX {
                                assert(pv0[pu0[u as int] as int] == u);
                                assert(pair_v@[pu0[u as int] as int] == u);
                            }
                        }
                    } else {
                        proof {
                            assert(!good(g, n_left, pv0, d0, w as int));
                            assert forall|x: int|
                                0 <= x < n_left && #[trigger] dist@[x] != d0[x] implies dist@[x] == usize::MAX
                                    && d0[x] != usize::MAX && d0[x] > du by {
                                if dist@[x] != dk[x] {
                                    assert(dk[x] != usize::MAX);
                                    if dk[x] != d0[x] {
                                    }
                                }
                            }
                        }
                    }
                }
            }
            if take {
                let ghost pu1 = pair_u@;
                let ghost pv1 = pair_v@;
                let ghost d1 = dist@;
                pair_u.set(u, v);
                pair_v.set(v, u);
                proof {
                    let s_u: int = if pu0[u as int] == usize::MAX { -1 } else { pu0[u as int] as int };
                    assert(g.adj@[u as int]@[k as int].0 == v + n_left);
                    assert(g.has_edge(u as int, v + n_left));
                    if w != usize::MAX {
                        // w moved to a partner other than v
                        assert(pu1[w as int] != v);
                    }
                    assert forall|x: int| 0 <= x < pair_u@.len() && #[trigger] pair_u@[x] != usize::MAX implies pair_u@[x] < pair_v@.len()
                        && pair_v@[pair_u@[x] as int] == x && g.has_edge(x, pair_u@[x] + n_left) by {
                        if x != u {
                            assert(pair_u@[x] == pu1[x]);
                            if pu1[x] == v {
                                if w == usize::MAX {
                                    assert(pv1[v as int] == x);
                                } else {
                                    assert(pv1[v as int] == x);
                                }
                            }
                        }
                    }
                    assert forall|y: int| 0 <= y < pair_v@.len() && y != s_u && #[trigger] pair_v@[y] != usize::MAX implies pair_v@[y] < pair_u@.len()
                        && pair_u@[pair_v@[y] as int] == y by {
                        if y != v {
                            assert(pair_v@[y] == pv1[y]);
                            if pv1[y] == u {
                                if pv1[y] == pv0[y] {
                                    assert(pu0[u as int] == y);
                                }
                            }
                        }
                    }
                    assert forall|x: int|
                        0 <= x < n_left && #[trigger] pair_u@[x] != pu0[x] implies pair_u@[x]
                            != usize::MAX && (x == u || (d0[x] != usize::MAX && d0[x] > du)) by {
                        if x != u {
                            assert(pair_u@[x] == pu1[x]);
                        }
                    }
                    assert forall|x: int|
                        0 <= x < n_left && #[trigger] dist@[x] != d0[x] implies dist@[x]
                            == usize::MAX && (x == u || (d0[x] != usize::MAX && d0[x] > du)) by {
                    }
                    assert forall|y: int|
                        0 <= y < pair_v@.len() && #[trigger] pair_v@[y] != pv0[y] implies (pv0[y]
                            == usize::MAX || (pv0[y] < n_left && d0[pv0[y] as int] != usize::MAX
                            && d0[pv0[y] as int] > du)) && pair_v@[y] < n_left
                            && d0[pair_v@[y] as int] != usize::MAX && d0[pair_v@[y] as int] >= du by {
                        if y != v {
                            assert(pair_v@[y] == pv1[y]);
                        }
                    }
                }
                return true;
            }
            proof {
                if w != usize::MAX && d0[w as int] == du + 1 && good(g, n_left, pv0, d0, w as int) {
                    assert(dist@[w as int] != dist@[u as int] + 1);
                    assert(dist@[w as int] == usize::MAX);
                    assert(!good(g, n_left, pv0, dist@, w as int));
                }
            }
        }
        k = k + 1;
    }
    proof {
        if good(g, n_left, pv0, d0, u as int) {
            let p = choose|p: Seq<usize>| #[trigger] layered_chain(g, n_left, pv0, d0, p) && p[0] == u as int && free_end(g, n_left, pv0, p.last() as int);
            if p.len() == 1 {
                let j = choose|j: int|
                    0 <= j < g.adj@[u as int]@.len() && (#[trigger] g.adj@[u as int]@[j]).0 >= n_left && pv0[g.adj@[u as int]@[j].0 - n_left]
                        == usize::MAX;
                assert(g.adj@[u as int]@[j].0 >= n_left);
            } else {
                let z: int = 0;
                assert(alt_step(g, n_left, pv0, p[z] as int, p[z + 1] as int));
                assert(d0[p[z + 1] as int] == d0[p[z] as int] + 1);
                let j = choose|j: int|
                    0 <= j < g.adj@[u as int]@.len() && (#[trigger] g.adj@[u as int]@[j]).0 >= n_left && pv0[g.adj@[u as int]@[j].0 - n_left] == p[1];
                assert(g.adj@[u as int]@[j].0 >= n_left);
                assert(d0[p[1] as int] == du + 1);
                lemma_suffix_good(g, n_left, pv0, d0, p, 1);
            }
        }
        assert(!good(g, n_left, pv0, dist@, u as int));
        lemma_kill(g, n_left, pv0, dist@, u as int);
    }
    dist.set(u, usize::MAX);
    false
}

proof fn lemma_free_finite(pu: Seq<usize>)
    ensures
        free_left(pu).finite(),
{
    let r = set_int_range(0, pu.len() as int);
    lemma_int_range(0, pu.len() as int);
    assert(free_left(pu).subset_of(r));
    lemma_set_subset_finite(r, free_left(pu));
}

/// An augmenting path for the listed pairs is one for the partner arrays they
/// were read from.
proof fn lemma_augmenting_arrays<W>(
    g: &Graph<W>,
    n_left: usize,
    n_right: usize,
    pu: Seq<usize>,
    pv: Seq<usize>,
    m: Seq<(usize, usize)>,
    p: Seq<usize>,
)
    requires
        g.wf(),
        g.n == n_left + n_right,
        pu.len() == n_left,
        pv.len() == n_right,
        pairs_ok(g, n_left, pu, pv, -1),
        forall|i: int| 0 <= i < m.len() ==> (#[trigger] m[i]).0 < n_left && m[i].1 == pu[m[i].0 as int] + n_left
            && pu[m[i].0 as int] != usize::MAX,
        forall|x: int| 0 <= x < n_left && #[trigger] pu[x] != usize::MAX ==> exists|i: int| 0 <= i < m.len() && #[trigger] m[i].0 == x,
        augmenting(g, n_left, m, p),
    ensures
        aug_path(g, n_left, pu, pv, p),
{
    assert forall|i: int| 0 <= i < p.len() - 1 implies #[trigger] alt_step(g, n_left, pv, p[i] as int, p[i + 1] as int) by {
        assert(m_step(g, n_left, m, p[i] as int, p[i + 1] as int));
        let a = p[i] as int;
        let b = p[i + 1] as int;
        let k = choose|k: int| 0 <= k < g.adj@[a]@.len() && (#[trigger] g.adj@[a]@[k]).0 >= n_left && partner_in(m, b, g.adj@[a]@[k].0 as int);
        let j = choose|j: int| 0 <= j < m.len() && #[trigger] m[j].0 == b && m[j].1 == g.adj@[a]@[k].0 as int;
        assert(pu[b] != usize::MAX);
        assert(pv[pu[b] as int] == b);
        assert(g.adj@[a]@[k].0 - n_left == pu[b]);
    }
    assert(p[0] < n_left);
    if pu[p[0] as int] != usize::MAX {
        let i = choose|i: int| 0 <= i < m.len() && #[trigger] m[i].0 == p[0] as int;
    }
    let l = p.last() as int;
    assert(p[p.len() - 1] < n_left);
    let k = choose|k: int|
        0 <= k < g.adj@[l]@.len() && (#[trigger] g.adj@[l]@[k]).0 >= n_left && forall|i: int|
            0 <= i < m.len() ==> (#[trigger] m[i]).1 != g.adj@[l]@[k].0;
    let y = g.adj@[l]@[k].0 - n_left;
    assert(g.adj@[l]@[k].0 < g.n);
    if pv[y] != usize::MAX {
        let x = pv[y] as int;
        assert(pu[x] == y);
        let i = choose|i: int| 0 <= i < m.len() && #[trigger] m[i].0 == x;
        assert(m[i].1 == g.adj@[l]@[k].0);
    }
    assert(free_end(g, n_left, pv, l));
}

/// Maximum bipartite matching using augmenting paths (Hopcroft-Karp style BFS+DFS).
/// `n_left` = number of vertices on the left partition (vertices 0..n_left-1).
/// `n_right` = number on the right (vertices n_left..n_left+n_right-1).
/// Returns the matched pairs (left_vertex, right_vertex) by increasing left vertex.
pub fn bipartite_matching<W>(g: &Graph<W>, n_left: usize, n_right: usize) -> (result: Vec<(usize, usize)>)
    requires
        g.wf(),
        g.n == n_left + n_right,
        n_left < usize::MAX,
    ensures
        is_bipartite_matching(g, n_left, result@),
        forall|p: Seq<usize>| !#[trigger] augmenting(g, n_left, result@, p),
        forall|m2: Seq<(usize, usize)>| #[trigger] is_matching(g, n_left, m2) ==> m2.len() <= result@.len(),
{
    let mut pair_u = filled_usize(n_left, usize::MAX);
    let mut pair_v = filled_usize(n_right, usize::MAX);
    let mut dist = filled_usize(n_left, 0);
    proof {
        lemma_free_finite(pair_u@);
    }
    loop
        invariant
            g.wf(),
            g.n == n_left + n_right,
            n_left < usize::MAX,
            pair_u@.len() == n_left,
            pair_v@.len() == n_right,
            dist@.len() == n_left,
            pairs_ok(g, n_left, pair_u@, pair_v@, -1),
        ensures
            forall|p: Seq<usize>| !#[trigger] aug_path(g, n_left, pair_u@, pair_v@, p),
        decreases free_left(pair_u@).len(),
    {
        if !layer(g, n_left, &pair_u, &pair_v, &mut dist) {
            break;
        }
        let ghost free0 = free_left(pair_u@);
        let ghost pu_ph = pair_u@;
        let ghost pv_ph = pair_v@;
        let ghost d_ph = dist@;
        proof {
            lemma_free_finite(pair_u@);
        }
        let ghost mut augmented = false;
        let mut u: usize = 0;
        while u < n_left
            invariant
                g.wf(),
                g.n == n_left + n_right,
                n_left < usize::MAX,
                u <= n_left,
                pair_u@.len() == n_left,
                pair_v@.len() == n_right,
                pairs_ok(g, n_left, pair_u@, pair_v@, -1),
                dist_ok(dist@, n_left),
                free0.finite(),
                free_left(pair_u@).subset_of(free0),
                augmented ==> free_left(pair_u@).len() < free0.len(),
                forall|x: int| u <= x < n_left && #[trigger] pair_u@[x] == usize::MAX ==> dist@[x] == 0,
                pu_ph.len() == n_left,
                exists|r: int| 0 <= r < n_left && pu_ph[r] == usize::MAX && #[trigger] good(g, n_left, pv_ph, d_ph, r),
                !augmented ==> pair_u@ == pu_ph && pair_v@ == pv_ph,
                !augmented ==> forall|x: int|
                    #![trigger good(g, n_left, pv_ph, dist@, x)]
                    #![trigger good(g, n_left, pv_ph, d_ph, x)]
                    good(g, n_left, pv_ph, dist@, x) <==> good(g, n_left, pv_ph, d_ph, x),
                !augmented ==> forall|x: int| 0 <= x < u && #[trigger] pu_ph[x] == usize::MAX ==> !good(g, n_left, pv_ph, d_ph, x),
            decreases n_left - u,
        {
            if pair_u[u] == usize::MAX {
                let ghost pu0 = pair_u@;
                let ghost d0 = dist@;
                if augment(g, u, n_left, &mut pair_u, &mut pair_v, &mut dist) {
                    proof {
                        lemma_free_finite(pair_u@);
                        lemma_free_finite(pu0);
                        assert(free_left(pair_u@).subset_of(free_left(pu0).remove(u as int)));
                        lemma_len_subset(free_left(pair_u@), free_left(pu0).remove(u as int));
                        lemma_len_subset(free_left(pu0), free0);
                        assert(free_left(pu0).contains(u as int));
                        augmented = true;
                    }
                }
                proof {
                    assert forall|x: int| u + 1 <= x < n_left && #[trigger] pair_u@[x] == usize::MAX implies dist@[x] == 0 by {
                        if pu0[x] != usize::MAX {
                            assert(pair_u@[x] != pu0[x]);
                        }
                    }
                }
            }
            u = u + 1;
        }
        proof {
            if !augmented {
                let r = choose|r: int| 0 <= r < n_left && pu_ph[r] == usize::MAX && #[trigger] good(g, n_left, pv_ph, d_ph, r);
                assert(!good(g, n_left, pv_ph, d_ph, r));
            }
        }
    }
    let mut result: Vec<(usize, usize)> = Vec::new();
    let mut u: usize = 0;
    while u < n_left
        invariant
            g.wf(),
            g.n == n_left + n_right,
            u <= n_left,
            pair_u@.len() == n_left,
            pair_v@.len() == n_right,
            pairs_ok(g, n_left, pair_u@, pair_v@, -1),
            forall|i: int| 0 <= i < result@.len() ==> (#[trigger] result@[i]).0 < u && result@[i].1 == pair_u@[result@[i].0 as int] + n_left
                && pair_u@[result@[i].0 as int] != usize::MAX,
            is_bipartite_matching(g, n_left, result@),
            forall|x: int| 0 <= x < u && #[trigger] pair_u@[x] != usize::MAX ==> exists|i: int| 0 <= i < result@.len() && #[trigger] result@[i].0 == x,
        decreases n_left - u,
    {
        if pair_u[u] != usize::MAX {
            let ghost r0 = result@;
            result.push((u, pair_u[u] + n_left));
            proof {
                assert forall|x: int| 0 <= x < u + 1 && #[trigger] pair_u@[x] != usize::MAX implies exists|i: int| 0 <= i < result@.len() && #[trigger] result@[i].0 == x by {
                    if x < u {
                        let i = choose|i: int| 0 <= i < r0.len() && #[trigger] r0[i].0 == x;
                        assert(result@[i] == r0[i]);
                    } else {
                        assert(result@[r0.len() as int].0 == x);
                    }
                }
                assert forall|i: int, j: int| 0 <= i < j < result@.len() implies (#[trigger] result@[i]).1 != (#[trigger] result@[j]).1 by {
                    if j == r0.len() {
                        assert(result@[i] == r0[i]);
                        let x = r0[i].0;
                        if pair_u@[x as int] == pair_u@[u as int] {
                            assert(pair_v@[pair_u@[x as int] as int] == x);
                        }
                    } else {
                        assert(result@[i] == r0[i]);
                        assert(result@[j] == r0[j]);
                    }
                }
                assert forall|i: int, j: int| 0 <= i < j < result@.len() implies (#[trigger] result@[i]).0 < (#[trigger] result@[j]).0 by {
                    if j < r0.len() {
                        assert(result@[i] == r0[i]);
                        assert(result@[j] == r0[j]);
                    } else {
                        assert(result@[i] == r0[i]);
                    }
                }
                assert forall|i: int| 0 <= i < result@.len() implies (#[trigger] result@[i]).0 < n_left && n_left <= result@[i].1 < g.n && g.has_edge(
                    result@[i].0 as int,
                    result@[i].1 as int,
                ) by {
                    if i < r0.len() {
                        assert(result@[i] == r0[i]);
                    }
                }
            }
        }
        u = u + 1;
    }
    proof {
        assert forall|p: Seq<usize>| !#[trigger] augmenting(g, n_left, result@, p) by {
            if augmenting(g, n_left, result@, p) {
                lemma_augmenting_arrays(g, n_left, n_right, pair_u@, pair_v@, result@, p);
            }
        }
        assert forall|m2: Seq<(usize, usize)>| #[trigger] is_matching(g, n_left, m2) implies m2.len() <= result@.len() by {
            lemma_no_augmenting_is_maximum(g, n_left, result@, m2);
        }
    }
    result
}

/// `m` pairs left vertices (below `n_left`) with right vertices along edges of
/// `g`, in any order, with no vertex in two pairs.
pub open spec fn is_matching<W>(g: &Graph<W>, n_left: usize, m: Seq<(usize, usize)>) -> bool {
    &&& forall|i: int|
        0 <= i < m.len() ==> (#[trigger] m[i]).0 < n_left && n_left <= m[i].1 && g.has_edge(
            m[i].0 as int,
            m[i].1 as int,
        )
    &&& forall|i: int, j: int| 0 <= i < j < m.len() ==> (#[trigger] m[i]).0 != (#[trigger] m[j]).0
    &&& forall|i: int, j: int| 0 <= i < j < m.len() ==> (#[trigger] m[i]).1 != (#[trigger] m[j]).1
}

/// `p` gives the left vertices of an alternating walk for `m` that starts at a
/// left vertex without a partner.
pub open spec fn alt_walk<W>(g: &Graph<W>, n_left: usize, m: Seq<(usize, usize)>, p: Seq<usize>) -> bool {
    &&& p.len() >= 1
    &&& forall|i: int| 0 <= i < p.len() ==> #[trigger] p[i] < n_left
    &&& forall|i: int| 0 <= i < m.len() ==> (#[trigger] m[i]).0 != p[0]
    &&& forall|i: int| 0 <= i < p.len() - 1 ==> #[trigger] m_step(g, n_left, m, p[i] as int, p[i + 1] as int)
}

/// Left vertex `l` ends an alternating walk for `m`.
pub open spec fn alt_reach<W>(g: &Graph<W>, n_left: usize, m: Seq<(usize, usize)>, l: int) -> bool {
    exists|p: Seq<usize>| #[trigger] alt_walk(g, n_left, m, p) && p.last() == l
}

/// The vertex of a cover that pair `e` is counted by: its left vertex, unless an
/// alternating walk reaches that, then its right vertex.
pub open spec fn cover_vertex<W>(g: &Graph<W>, n_left: usize, m: Seq<(usize, usize)>, e: (usize, usize)) -> int {
    if alt_reach(g, n_left, m, e.0 as int) {
        e.1 as int
    } else {
        e.0 as int
    }
}

/// A matching without an augmenting path is as large as any matching: every
/// pair of another matching has a vertex of the cover formed by the left
/// vertices that no alternating walk reaches and the right vertices next to
/// those it reaches, and each vertex of that cover is in a pair of its own.
proof fn lemma_no_augmenting_is_maximum<W>(g: &Graph<W>, n_left: usize, m: Seq<(usize, usize)>, m2: Seq<(usize, usize)>)
    requires
        g.wf(),
        is_bipartite_matching(g, n_left, m),
        forall|p: Seq<usize>| !#[trigger] augmenting(g, n_left, m, p),
        is_matching(g, n_left, m2),
    ensures
        m2.len() <= m.len(),
{
    let s = Seq::new(m2.len(), |j: int| cover_vertex(g, n_left, m, m2[j]));
    let t = Seq::new(m.len(), |i: int| cover_vertex(g, n_left, m, m[i]));
    assert forall|a: int, b: int| 0 <= a < s.len() && 0 <= b < s.len() && a != b implies s[a] != s[b] by {
        let (x, y) = if a < b { (a, b) } else { (b, a) };
        assert(m2[x].0 != m2[y].0 && m2[x].1 != m2[y].1);
        assert(m2[x].0 < n_left && n_left <= m2[x].1);
        assert(m2[y].0 < n_left && n_left <= m2[y].1);
    }
    assert(s.no_duplicates());
    assert forall|c: int| s.to_set().contains(c) implies t.to_set().contains(c) by {
        let j = choose|j: int| 0 <= j < s.len() && s[j] == c;
        let l = m2[j].0;
        let r = m2[j].1;
        assert(l < n_left && n_left <= r && g.has_edge(l as int, r as int));
        if !alt_reach(g, n_left, m, l as int) {
            // l has a partner, or the walk of l alone would reach it
            if forall|i: int| 0 <= i < m.len() ==> (#[trigger] m[i]).0 != l {
                let p = seq![l];
                assert(alt_walk(g, n_left, m, p) && p.last() == l as int);
            }
            let i = choose|i: int| 0 <= i < m.len() && (#[trigger] m[i]).0 == l;
            assert(t[i] == l as int);
        } else {
            let p = choose|p: Seq<usize>| #[trigger] alt_walk(g, n_left, m, p) && p.last() == l as int;
            let k = choose|k: int| 0 <= k < g.adj@[l as int]@.len() && (#[trigger] g.adj@[l as int]@[k]).0 == r;
            // r has a partner, or the walk would be augmenting
            if forall|i: int| 0 <= i < m.len() ==> (#[trigger] m[i]).1 != r {
                assert(m_free_end(g, n_left, m, p.last() as int));
                assert(augmenting(g, n_left, m, p));
            }
            let i = choose|i: int| 0 <= i < m.len() && (#[trigger] m[i]).1 == r;
            // and that partner is reached one step further
            let b = m[i].0;
            let q = p.push(b);
            assert(partner_in(m, b as int, r as int));
            assert(m_step(g, n_left, m, l as int, b as int));
            assert forall|z: int| 0 <= z < q.len() - 1 implies #[trigger] m_step(g, n_left, m, q[z] as int, q[z + 1] as int) by {
                if z < p.len() - 1 {
                    assert(q[z] == p[z] && q[z + 1] == p[z + 1]);
                } else {
                    assert(q[z] == p.last() && q[z + 1] == b);
                }
            }
            assert forall|z: int| 0 <= z < q.len() implies #[trigger] q[z] < n_left by {
                if z < p.len() {
                    assert(q[z] == p[z]);
                }
            }
            assert(q[0] == p[0]);
            assert(alt_walk(g, n_left, m, q) && q.last() == b as int);
            assert(t[i] == r as int);
        }
    }
    s.unique_seq_to_set();
    t.lemma_cardinality_of_set();
    lemma_len_subset(s.to_set(), t.to_set());
}

} // verus!
