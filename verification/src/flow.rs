//! Network flow: the search for augmenting paths of the Edmonds-Karp method,
//! over the pairs of vertices whose residual capacity is left open.
use crate::connectivity::filled_usize;
use crate::traversal::falses;
use vstd::prelude::*;

verus! {

/// `p` is a path from `a` to `b` along open pairs: consecutive vertices are
/// open from the one to the next.
pub open spec fn open_path(open: Seq<Vec<bool>>, p: Seq<usize>, a: int, b: int) -> bool {
    &&& p.len() >= 1
    &&& p[0] == a
    &&& p.last() == b
    &&& forall|i: int| 0 <= i < p.len() ==> #[trigger] p[i] < open.len()
    &&& forall|i: int| 0 <= i < p.len() - 1 ==> #[trigger] open[p[i] as int]@[p[i + 1] as int]
}

/// Some path leads from `a` to `b` along open pairs.
pub open spec fn open_reach(open: Seq<Vec<bool>>, a: int, b: int) -> bool {
    exists|p: Seq<usize>| #[trigger] open_path(open, p, a, b)
}

/// The layer of the vertex queued at `i`: one more than that of the vertex it
/// was reached from.
pub open spec fn depth(par: Seq<int>, i: int) -> nat
    decreases i,
{
    if 0 < i && 0 <= par[i] < i {
        depth(par, par[i]) + 1
    } else {
        0
    }
}

/// The state of the search: `queue` holds the vertices reached, each reached
/// from the queued vertex at `par`, which is the first vertex taken from the
/// queue with an open pair to it, vertices reached from the same one queued in
/// increasing order; `from` gives that vertex by name.
pub open spec fn search_ok(open: Seq<Vec<bool>>, queue: Seq<usize>, par: Seq<int>, from: Seq<usize>, source: int) -> bool {
    &&& queue.len() >= 1
    &&& queue[0] == source
    &&& queue.no_duplicates()
    &&& par.len() == queue.len()
    &&& forall|i: int| 0 <= i < queue.len() ==> #[trigger] queue[i] < open.len()
    &&& forall|i: int|
        1 <= i < queue.len() ==> 0 <= #[trigger] par[i] < i && open[queue[par[i]] as int]@[queue[i] as int]
            && from[queue[i] as int] == queue[par[i]]
            && forall|j: int| 0 <= j < par[i] ==> !#[trigger] open[queue[j] as int]@[queue[i] as int]
    &&& forall|i: int, l: int| 1 <= i < l < queue.len() ==> #[trigger] par[i] <= #[trigger] par[l]
    &&& forall|i: int, l: int| 1 <= i < l < queue.len() && par[i] == par[l] ==> #[trigger] queue[i] < #[trigger] queue[l]
}

/// The path that following the vertices each was reached from gives, from the
/// source to the vertex queued at `i`.
pub open spec fn back_path(queue: Seq<usize>, par: Seq<int>, i: int) -> Seq<usize>
    decreases i,
{
    if 0 < i && 0 <= par[i] < i {
        back_path(queue, par, par[i]).push(queue[i])
    } else {
        seq![queue[i]]
    }
}

/// `p` comes no later than `q` in dictionary order.
pub open spec fn lex_le(p: Seq<usize>, q: Seq<usize>) -> bool {
    p == q || exists|k: int| 0 <= k < p.len() && k < q.len() && p.take(k) == q.take(k) && #[trigger] p[k] < q[k]
}

proof fn lemma_back_path_len(queue: Seq<usize>, par: Seq<int>, i: int)
    ensures
        back_path(queue, par, i).len() == depth(par, i) + 1,
        back_path(queue, par, i).last() == queue[i],
    decreases i,
{
    if 0 < i && 0 <= par[i] < i {
        lemma_back_path_len(queue, par, par[i]);
    }
}

/// Dictionary order, on sequences of one length, is transitive.
proof fn lemma_lex_trans(a: Seq<usize>, b: Seq<usize>, c: Seq<usize>)
    requires
        a.len() == b.len(),
        b.len() == c.len(),
        lex_le(a, b),
        lex_le(b, c),
    ensures
        lex_le(a, c),
{
    if a != b && b != c {
        let k1 = choose|k: int| 0 <= k < a.len() && k < b.len() && a.take(k) == b.take(k) && #[trigger] a[k] < b[k];
        let k2 = choose|k: int| 0 <= k < b.len() && k < c.len() && b.take(k) == c.take(k) && #[trigger] b[k] < c[k];
        if k1 < k2 {
            assert(b.take(k2).take(k1) =~= b.take(k1));
            assert(c.take(k2).take(k1) =~= c.take(k1));
            assert(b[k1] == b.take(k2)[k1]);
            assert(c[k1] == c.take(k2)[k1]);
            assert(a.take(k1) == c.take(k1) && a[k1] < c[k1]);
        } else if k2 < k1 {
            assert(a.take(k1).take(k2) =~= a.take(k2));
            assert(b.take(k1).take(k2) =~= b.take(k2));
            assert(a[k2] == a.take(k1)[k2]);
            assert(b[k2] == b.take(k1)[k2]);
            assert(a.take(k2) == c.take(k2) && a[k2] < c[k2]);
        } else {
            assert(a.take(k1) == c.take(k1) && a[k1] < c[k1]);
        }
    }
}

/// Appending one vertex to two sequences of one length keeps their order.
proof fn lemma_lex_push(a: Seq<usize>, b: Seq<usize>, x: usize)
    requires
        a.len() == b.len(),
        lex_le(a, b),
    ensures
        lex_le(a.push(x), b.push(x)),
{
    if a != b {
        let k = choose|k: int| 0 <= k < a.len() && k < b.len() && a.take(k) == b.take(k) && #[trigger] a[k] < b[k];
        assert(a.push(x).take(k) =~= a.take(k));
        assert(b.push(x).take(k) =~= b.take(k));
        assert(a.push(x)[k] == a[k] && b.push(x)[k] == b[k]);
    }
}

/// Within a layer, the queue order is the dictionary order of the back paths.
proof fn lemma_layer_order(open: Seq<Vec<bool>>, queue: Seq<usize>, par: Seq<int>, from: Seq<usize>, source: int, i: int, l: int)
    requires
        search_ok(open, queue, par, from, source),
        0 <= i <= l < queue.len(),
        depth(par, i) == depth(par, l),
    ensures
        lex_le(back_path(queue, par, i), back_path(queue, par, l)),
    decreases l,
{
    if i < l {
        assert(l > 0 && 0 <= par[l] < l);
        if i == 0 {
            assert(depth(par, i) == 0);
        } else {
            let pi = par[i];
            let pl = par[l];
            assert(0 <= pi < i);
            assert(pi <= pl);
            lemma_back_path_len(queue, par, pi);
            lemma_back_path_len(queue, par, pl);
            let a = back_path(queue, par, pi);
            let b = back_path(queue, par, pl);
            if pi == pl {
                assert(queue[i] < queue[l]);
                let k = a.len() as int;
                assert(a.push(queue[i]).take(k) =~= a);
                assert(a.push(queue[l]).take(k) =~= a);
                assert(a.push(queue[i])[k] < a.push(queue[l])[k]);
            } else {
                lemma_layer_order(open, queue, par, from, source, pi, pl);
                if a != b {
                    let k = choose|k: int| 0 <= k < a.len() && k < b.len() && a.take(k) == b.take(k) && #[trigger] a[k] < b[k];
                    assert(a.push(queue[i]).take(k) =~= a.take(k));
                    assert(b.push(queue[l]).take(k) =~= b.take(k));
                    assert(a.push(queue[i])[k] == a[k] && b.push(queue[l])[k] == b[k]);
                } else {
                    // distinct queued vertices have distinct back paths
                    assert(a.last() == queue[pi] && b.last() == queue[pl]);
                    assert(queue[pi] != queue[pl]);
                }
            }
        }
    }
}

/// An open path from the source as short as the layer of the vertex it ends at
/// comes no earlier in dictionary order than that vertex's back path, for the
/// vertices up to the one at `hs`, all before which were scanned.
proof fn lemma_back_path_least(
    open: Seq<Vec<bool>>,
    queue: Seq<usize>,
    par: Seq<int>,
    from: Seq<usize>,
    source: int,
    hs: int,
    b: int,
    q: Seq<usize>,
)
    requires
        search_ok(open, queue, par, from, source),
        0 <= b <= hs < queue.len(),
        forall|i: int, v: int| 0 <= i < hs && 0 <= v < open.len() && #[trigger] open[queue[i] as int]@[v]
            ==> queue.contains(v as usize),
        open_path(open, q, source, queue[b] as int),
        q.len() == depth(par, b) + 1,
    ensures
        lex_le(back_path(queue, par, b), q),
    decreases depth(par, b),
{
    let len = queue.len() as int;
    assert forall|a: int| 1 <= a < len implies 0 <= #[trigger] par[a] < a by {}
    lemma_back_path_len(queue, par, b);
    if b == 0 {
        assert(depth(par, 0) == 0);
        assert(q =~= seq![queue[0]]);
    } else {
        let l = q.len() - 1;
        let y = q[l - 1];
        lemma_open_shortest(open, queue, par, from, source, hs, q, l - 1);
        lemma_depth_mono(par, len, b, hs);
        let a = choose|a: int| 0 <= a < hs && queue[a] == q[l - 1] && #[trigger] depth(par, a) <= l - 1;
        // the vertex b was reached from comes no later than a
        let z = l - 1;
        assert(open[q[z] as int]@[q[z + 1] as int]);
        assert(q[z + 1] == queue[b]);
        if a < par[b] {
            assert(!open[queue[a] as int]@[queue[b] as int]);
        }
        lemma_depth_mono(par, len, par[b], a);
        let q1 = q.take(l);
        assert(open_path(open, q1, source, queue[a] as int)) by {
            assert forall|t: int| 0 <= t < q1.len() implies #[trigger] q1[t] < open.len() by {
                assert(q1[t] == q[t]);
            }
            assert forall|t: int| 0 <= t < q1.len() - 1 implies #[trigger] open[q1[t] as int]@[q1[t + 1] as int] by {
                assert(q1[t] == q[t] && q1[t + 1] == q[t + 1]);
            }
        }
        lemma_back_path_least(open, queue, par, from, source, hs, a, q1);
        lemma_layer_order(open, queue, par, from, source, par[b], a);
        lemma_back_path_len(queue, par, par[b]);
        lemma_back_path_len(queue, par, a);
        lemma_lex_trans(back_path(queue, par, par[b]), back_path(queue, par, a), q1);
        lemma_lex_push(back_path(queue, par, par[b]), q1, queue[b]);
        assert(q1.push(queue[b]) =~= q);
    }
}

proof fn lemma_depth_mono(par: Seq<int>, len: int, i: int, j: int)
    requires
        forall|a: int| 1 <= a < len ==> 0 <= #[trigger] par[a] < a,
        forall|a: int, b: int| 1 <= a < b < len ==> #[trigger] par[a] <= #[trigger] par[b],
        0 <= i <= j < len,
    ensures
        depth(par, i) <= depth(par, j),
    decreases j,
{
    if i < j && i > 0 {
        assert(par[i] <= par[j]);
        lemma_depth_mono(par, len, par[i], par[j]);
    }
}

/// Following the vertices each was reached from leads back to the source, in
/// as many steps as the layer.
proof fn lemma_back_path(open: Seq<Vec<bool>>, queue: Seq<usize>, par: Seq<int>, from: Seq<usize>, source: int, i: int)
    requires
        search_ok(open, queue, par, from, source),
        0 <= i < queue.len(),
    ensures
        exists|p: Seq<usize>| #[trigger] open_path(open, p, source, queue[i] as int) && p.len() == depth(par, i) + 1,
    decreases i,
{
    if i == 0 {
        let p = seq![queue[0]];
        assert(open_path(open, p, source, queue[0] as int));
    } else {
        let a = par[i];
        lemma_back_path(open, queue, par, from, source, a);
        let p = choose|p: Seq<usize>| #[trigger] open_path(open, p, source, queue[a] as int) && p.len() == depth(par, a) + 1;
        let q = p.push(queue[i]);
        assert forall|t: int| 0 <= t < q.len() implies #[trigger] q[t] < open.len() by {
            if t < p.len() {
                assert(q[t] == p[t]);
            }
        }
        assert forall|t: int| 0 <= t < q.len() - 1 implies #[trigger] open[q[t] as int]@[q[t + 1] as int] by {
            if t < p.len() - 1 {
                assert(q[t] == p[t] && q[t + 1] == p[t + 1]);
            } else {
                assert(q[t] == p.last());
            }
        }
        assert(open_path(open, q, source, queue[i] as int));
    }
}

/// Search for a path from `source` to `sink` along open pairs, breadth first:
/// each vertex taken from the queue scans the vertices in increasing order, and
/// the search stops when it takes the sink. Returns the path found, which has
/// as few steps as any and, of those, comes first in dictionary order, or
/// `None` when no path exists.
pub fn augmenting_path(open: &Vec<Vec<bool>>, source: usize, sink: usize) -> (path: Option<Vec<usize>>)
    requires
        source < open@.len(),
        sink < open@.len(),
        forall|u: int| 0 <= u < open@.len() ==> (#[trigger] open@[u])@.len() == open@.len(),
    ensures
        match path {
            Some(p) => {
                &&& open_path(open@, p@, source as int, sink as int)
                &&& forall|q: Seq<usize>| #[trigger] open_path(open@, q, source as int, sink as int) ==> p@.len() <= q.len()
                &&& forall|q: Seq<usize>| #[trigger] open_path(open@, q, source as int, sink as int) && q.len() == p@.len()
                    ==> lex_le(p@, q)
            },
            None => !open_reach(open@, source as int, sink as int),
        },
{
    let n = open.len();
    let mut from = filled_usize(n, usize::MAX);
    let mut visited = falses(n);
    visited.set(source, true);
    let mut queue: Vec<usize> = Vec::new();
    queue.push(source);
    let ghost mut par: Seq<int> = seq![0];
    let mut head: usize = 0;
    let mut found = false;
    proof {
        assert forall|x: int| 0 <= x < n implies (#[trigger] visited@[x] <==> queue@.contains(x as usize)) by {
            if x == source {
                assert(queue@[0] == source);
            }
            if queue@.contains(x as usize) {
                let j = choose|j: int| 0 <= j < queue@.len() && queue@[j] == x as usize;
            }
        }
    }
    while head < queue.len()
        invariant_except_break
            !found,
        invariant
            n == open@.len(),
            source < n,
            sink < n,
            forall|u: int| 0 <= u < n ==> (#[trigger] open@[u])@.len() == n,
            visited@.len() == n,
            from@.len() == n,
            head <= queue@.len(),
            queue@.len() <= n,
            search_ok(open@, queue@, par, from@, source as int),
            forall|x: int| 0 <= x < n ==> (#[trigger] visited@[x] <==> queue@.contains(x as usize)),
            forall|i: int, v: int| 0 <= i < head && 0 <= v < n && #[trigger] open@[queue@[i] as int]@[v] ==> visited@[v],
            forall|i: int| 1 <= i < queue@.len() ==> #[trigger] par[i] < head,
            forall|i: int| 0 <= i < head ==> #[trigger] queue@[i] != sink,
        ensures
            search_ok(open@, queue@, par, from@, source as int),
            forall|x: int| 0 <= x < n ==> (#[trigger] visited@[x] <==> queue@.contains(x as usize)),
            found ==> head < queue@.len() && queue@[head as int] == sink,
            found ==> forall|i: int, v: int| 0 <= i < head && 0 <= v < n && #[trigger] open@[queue@[i] as int]@[v] ==> visited@[v],
            found ==> forall|i: int| 1 <= i < queue@.len() ==> #[trigger] par[i] <= head,
            !found ==> forall|i: int, v: int| 0 <= i < queue@.len() && 0 <= v < n && #[trigger] open@[queue@[i] as int]@[v] ==> visited@[v],
            !found ==> forall|i: int| 0 <= i < queue@.len() ==> #[trigger] queue@[i] != sink,
        decreases n - head,
    {
        let u = queue[head];
        if u == sink {
            found = true;
            break;
        }
        proof {
            assert forall|i: int| 1 <= i < queue@.len() && par[i] == head implies #[trigger] queue@[i] < 0 by {
                assert(par[i] < head);
            }
        }
        let mut v: usize = 0;
        while v < n
            invariant
                n == open@.len(),
                source < n,
                sink < n,
                forall|w: int| 0 <= w < n ==> (#[trigger] open@[w])@.len() == n,
                visited@.len() == n,
                from@.len() == n,
                head < queue@.len(),
                u == queue@[head as int],
                u != sink,
                queue@.len() <= n,
                v <= n,
                search_ok(open@, queue@, par, from@, source as int),
                forall|x: int| 0 <= x < n ==> (#[trigger] visited@[x] <==> queue@.contains(x as usize)),
                forall|i: int, w: int| 0 <= i < head && 0 <= w < n && #[trigger] open@[queue@[i] as int]@[w] ==> visited@[w],
                forall|w: int| 0 <= w < v && #[trigger] open@[u as int]@[w] ==> visited@[w],
                forall|i: int| 1 <= i < queue@.len() ==> #[trigger] par[i] <= head,
                forall|i: int| 1 <= i < queue@.len() && par[i] == head ==> #[trigger] queue@[i] < v,
                forall|i: int| 0 <= i < head ==> #[trigger] queue@[i] != sink,
            decreases n - v,
        {
            if !visited[v] && open[u][v] {
                let ghost q0 = queue@;
                let ghost pp = par;
                let ghost f0 = from@;
                let ghost m0 = visited@;
                proof {
                    assert(!q0.contains(v));
                    assert forall|i: int| 0 <= i < q0.len() implies q0[i] < n by {}
                    crate::seq_facts::lemma_distinct_bounded_missing(q0, n, v);
                }
                visited.set(v, true);
                from.set(v, u);
                queue.push(v);
                proof {
                    par = pp.push(head as int);
                    assert(queue@[head as int] == u);
                    assert forall|i: int|
                        1 <= i < queue@.len() implies 0 <= #[trigger] par[i] < i && open@[queue@[par[i]] as int]@[queue@[i] as int]
                            && from@[queue@[i] as int] == queue@[par[i]]
                            && forall|j: int| 0 <= j < par[i] ==> !#[trigger] open@[queue@[j] as int]@[queue@[i] as int] by {
                        if i < q0.len() {
                            assert(queue@[i] == q0[i] && par[i] == pp[i]);
                            assert(queue@[pp[i]] == q0[pp[i]]);
                            assert(q0[i] != v);
                            assert forall|j: int| 0 <= j < par[i] implies !#[trigger] open@[queue@[j] as int]@[queue@[i] as int] by {
                                assert(queue@[j] == q0[j]);
                            }
                        } else {
                            assert(queue@[i] == v);
                            assert forall|j: int| 0 <= j < par[i] implies !#[trigger] open@[queue@[j] as int]@[queue@[i] as int] by {
                                assert(queue@[j] == q0[j]);
                                if open@[q0[j] as int]@[v as int] {
                                    assert(m0[v as int]);
                                }
                            }
                        }
                    }
                    assert forall|x: int| 0 <= x < n implies (#[trigger] visited@[x] <==> queue@.contains(x as usize)) by {
                        if x == v {
                            assert(queue@[q0.len() as int] == v);
                        } else {
                            if queue@.contains(x as usize) {
                                let j = choose|j: int| 0 <= j < queue@.len() && queue@[j] == x as usize;
                                assert(q0[j] == x);
                            }
                            if q0.contains(x as usize) {
                                let j = choose|j: int| 0 <= j < q0.len() && q0[j] == x as usize;
                                assert(queue@[j] == x);
                            }
                        }
                    }
                    assert forall|i: int, w: int| 0 <= i < head && 0 <= w < n && #[trigger] open@[queue@[i] as int]@[w] implies visited@[w] by {
                        assert(queue@[i] == q0[i]);
                    }
                    assert forall|i: int| 0 <= i < head implies #[trigger] queue@[i] != sink by {
                        assert(queue@[i] == q0[i]);
                    }
                    assert forall|i: int, l: int| 1 <= i < l < queue@.len() && par[i] == par[l] implies #[trigger] queue@[i] < #[trigger] queue@[l] by {
                        assert(queue@[i] == q0[i] && par[i] == pp[i]);
                        if l < q0.len() {
                            assert(queue@[l] == q0[l] && par[l] == pp[l]);
                        }
                    }
                    assert forall|i: int| 1 <= i < queue@.len() && par[i] == head implies #[trigger] queue@[i] < v + 1 by {
                        if i < q0.len() {
                            assert(queue@[i] == q0[i] && par[i] == pp[i]);
                        }
                    }
                }
            }
            v = v + 1;
        }
        proof {
            assert forall|i: int, w: int| 0 <= i < head + 1 && 0 <= w < n && #[trigger] open@[queue@[i] as int]@[w] implies visited@[w] by {
            }
        }
        head = head + 1;
    }
    if !visited[sink] {
        proof {
            assert(!found) by {
                if found {
                    assert(queue@.contains(sink));
                }
            }
            let set = Set::new(|x: int| 0 <= x < n && visited@[x]);
            if open_reach(open@, source as int, sink as int) {
                let q = choose|q: Seq<usize>| #[trigger] open_path(open@, q, source as int, sink as int);
                lemma_open_closed(open@, set, q, q.len() - 1);
            }
        }
        return None;
    }
    let ghost hs = head as int;
    proof {
        assert(found) by {
            if !found {
                assert(queue@.contains(sink));
                let j = choose|j: int| 0 <= j < queue@.len() && queue@[j] == sink;
            }
        }
    }
    // walk back from the sink
    let mut rev: Vec<usize> = Vec::new();
    rev.push(sink);
    let mut cur = sink;
    let ghost mut ci: int = hs;
    let ghost bp = back_path(queue@, par, hs);
    proof {
        lemma_back_path(open@, queue@, par, from@, source as int, hs);
        lemma_back_path_len(queue@, par, hs);
        assert(bp.take(bp.len() as int) =~= bp);
    }
    while cur != source
        invariant
            n == open@.len(),
            search_ok(open@, queue@, par, from@, source as int),
            0 <= ci < queue@.len(),
            cur == queue@[ci],
            rev@.len() >= 1,
            rev@.last() == cur,
            rev@[0] == sink,
            rev@.len() + depth(par, ci) == depth(par, hs) + 1,
            forall|t: int| 0 <= t < rev@.len() ==> #[trigger] rev@[t] < n,
            forall|t: int| 0 <= t < rev@.len() - 1 ==> #[trigger] open@[rev@[t + 1] as int]@[rev@[t] as int],
            from@.len() == n,
            bp == back_path(queue@, par, hs),
            bp.take(back_path(queue@, par, ci).len() as int) == back_path(queue@, par, ci),
            back_path(queue@, par, ci).len() == depth(par, ci) + 1,
            back_path(queue@, par, ci).len() <= bp.len(),
            rev@.len() == bp.len() - back_path(queue@, par, ci).len() + 1,
            forall|t: int| 0 <= t < rev@.len() ==> #[trigger] rev@[t] == bp[bp.len() - 1 - t],
        decreases ci,
    {
        proof {
            if ci == 0 {
                assert(queue@[0] == source);
            }
        }
        let ghost r0 = rev@;
        let p = from[cur];
        proof {
            assert(p == queue@[par[ci]]);
            assert(ci != 0) by {
                if ci == 0 {
                    assert(queue@[0] == source);
                }
            }
            let c1 = par[ci];
            lemma_back_path_len(queue@, par, c1);
            let b0 = back_path(queue@, par, ci);
            let b1 = back_path(queue@, par, c1);
            assert(b0 == b1.push(queue@[ci]));
            assert(bp.take(b1.len() as int) =~= b0.take(b1.len() as int));
            assert(b0.take(b1.len() as int) =~= b1);
            assert(bp[b1.len() - 1] == b1[b1.len() - 1]);
        }
        rev.push(p);
        proof {
            assert forall|t: int| 0 <= t < rev@.len() - 1 implies #[trigger] open@[rev@[t + 1] as int]@[rev@[t] as int] by {
                if t < r0.len() - 1 {
                    assert(rev@[t] == r0[t] && rev@[t + 1] == r0[t + 1]);
                } else {
                    assert(rev@[t] == cur);
                }
            }
            ci = par[ci];
            assert forall|t: int| 0 <= t < rev@.len() implies #[trigger] rev@[t] == bp[bp.len() - 1 - t] by {
                if t < r0.len() {
                    assert(rev@[t] == r0[t]);
                }
            }
        }
        cur = p;
    }
    let mut path: Vec<usize> = Vec::new();
    let mut t: usize = rev.len();
    while t > 0
        invariant
            t <= rev@.len(),
            path@.len() == rev@.len() - t,
            forall|i: int| 0 <= i < path@.len() ==> #[trigger] path@[i] == rev@[rev@.len() - 1 - i],
        decreases t,
    {
        t = t - 1;
        path.push(rev[t]);
    }
    proof {
        let l = rev@.len() as int;
        assert(depth(par, ci) == 0) by {
            if ci != 0 {
                assert(queue@[ci] != queue@[0]);
            }
        }
        assert forall|i: int| 0 <= i < path@.len() implies #[trigger] path@[i] < n by {
            assert(path@[i] == rev@[l - 1 - i]);
        }
        assert forall|i: int| 0 <= i < path@.len() - 1 implies #[trigger] open@[path@[i] as int]@[path@[i + 1] as int] by {
            assert(path@[i] == rev@[l - 1 - i]);
            assert(path@[i + 1] == rev@[l - 2 - i]);
            assert(open@[rev@[(l - 2 - i) + 1] as int]@[rev@[l - 2 - i] as int]);
        }
        assert(path@[0] == source);
        assert(path@.last() == sink);
        lemma_back_path_len(queue@, par, ci);
        assert(path@ =~= bp) by {
            assert forall|i: int| 0 <= i < path@.len() implies #[trigger] path@[i] == bp[i] by {
                assert(path@[i] == rev@[l - 1 - i]);
            }
        }
        assert forall|q: Seq<usize>| #[trigger] open_path(open@, q, source as int, sink as int) && q.len() == path@.len() implies lex_le(path@, q) by {
            lemma_back_path_len(queue@, par, hs);
            lemma_back_path_least(open@, queue@, par, from@, source as int, hs, hs, q);
        }
        assert forall|q: Seq<usize>| #[trigger] open_path(open@, q, source as int, sink as int) implies path@.len() <= q.len() by {
            lemma_open_shortest(open@, queue@, par, from@, source as int, hs, q, q.len() - 1);
        }
    }
    Some(path)
}

/// A set closed under open pairs that holds the source holds every vertex an
/// open path from it reaches.
proof fn lemma_open_closed(open: Seq<Vec<bool>>, set: Set<int>, q: Seq<usize>, t: int)
    requires
        open_path(open, q, q[0] as int, q.last() as int),
        set.contains(q[0] as int),
        forall|x: int, y: int| set.contains(x) && 0 <= y < open.len() && #[trigger] open[x]@[y] ==> set.contains(y),
        0 <= t < q.len(),
    ensures
        set.contains(q[t] as int),
    decreases t,
{
    if t > 0 {
        lemma_open_closed(open, set, q, t - 1);
        let a = t - 1;
        assert(open[q[a] as int]@[q[a + 1] as int]);
    }
}

/// No open path reaches a queued vertex in fewer steps than its layer, for the
/// vertices up to the one at `hs`, all before which were scanned.
proof fn lemma_open_shortest(
    open: Seq<Vec<bool>>,
    queue: Seq<usize>,
    par: Seq<int>,
    from: Seq<usize>,
    source: int,
    hs: int,
    q: Seq<usize>,
    t: int,
)
    requires
        search_ok(open, queue, par, from, source),
        0 <= hs < queue.len(),
        forall|i: int, v: int| 0 <= i < hs && 0 <= v < open.len() && #[trigger] open[queue[i] as int]@[v]
            ==> queue.contains(v as usize),
        open_path(open, q, source, q.last() as int),
        0 <= t < q.len(),
    ensures
        depth(par, hs) <= t || exists|a: int| 0 <= a < hs && queue[a] == q[t] && #[trigger] depth(par, a) <= t,
    decreases t,
{
    let len = queue.len() as int;
    assert forall|a: int| 1 <= a < len implies 0 <= #[trigger] par[a] < a by {}
    if t == 0 {
        if hs == 0 {
        } else {
            assert(queue[0] == q[0]);
            assert(depth(par, 0) <= 0);
        }
    } else {
        lemma_open_shortest(open, queue, par, from, source, hs, q, t - 1);
        if depth(par, hs) <= t - 1 {
        } else {
            let a = choose|a: int| 0 <= a < hs && queue[a] == q[t - 1] && #[trigger] depth(par, a) <= t - 1;
            let z = t - 1;
            assert(open[q[z] as int]@[q[z + 1] as int]);
            assert(q[t] < open.len());
            assert(queue.contains(q[t]));
            let b = choose|b: int| 0 <= b < len && queue[b] == q[t];
            // the vertex reached from a lies at most one layer further
            if b > 0 {
                if a < par[b] {
                    assert(!open[queue[a] as int]@[queue[b] as int]);
                }
                lemma_depth_mono(par, len, par[b], a);
            }
            if b < hs {
                assert(depth(par, b) <= t);
            } else {
                lemma_depth_mono(par, len, hs, b);
            }
        }
    }
}

} // verus!
