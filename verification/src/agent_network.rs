//! Agent networks: the counting behind clustering coefficients, and the steps
//! of influence spreading.
use crate::graph::Graph;
use crate::traversal::falses;
use vstd::prelude::*;

verus! {

/// Entries of `row` that lead to a neighbour of `v`.
pub open spec fn hits<W>(g: &Graph<W>, v: int, row: Seq<(usize, W)>) -> nat
    decreases row.len(),
{
    if row.len() == 0 {
        0
    } else {
        hits(g, v, row.drop_last()) + if g.has_edge(v, row.last().0 as int) {
            1nat
        } else {
            0nat
        }
    }
}

/// Over the first `k` entries of `v`, the entries of their targets that lead to
/// a neighbour of `v`.
pub open spec fn links_upto<W>(g: &Graph<W>, v: int, k: int) -> nat
    decreases k,
{
    if k <= 0 {
        0
    } else {
        links_upto(g, v, k - 1) + hits(g, v, g.adj@[g.adj@[v]@[k - 1].0 as int]@)
    }
}

/// The links among the neighbours of `v`, counted from each entry of `v` along
/// each entry of its target: a link between two neighbours counts once from each end.
pub open spec fn neighbour_link_count<W>(g: &Graph<W>, v: int) -> nat {
    links_upto(g, v, g.adj@[v]@.len() as int)
}

proof fn lemma_links_mono<W>(g: &Graph<W>, v: int, k: int, l: int)
    requires
        k <= l,
    ensures
        links_upto(g, v, k) <= links_upto(g, v, l),
    decreases l - k,
{
    if k < l {
        lemma_links_mono(g, v, k, l - 1);
    }
}

proof fn lemma_hits_mono<W>(g: &Graph<W>, v: int, row: Seq<(usize, W)>, j: int)
    requires
        0 <= j <= row.len(),
    ensures
        hits(g, v, row.take(j)) <= hits(g, v, row),
    decreases row.len() - j,
{
    if j < row.len() {
        lemma_hits_mono(g, v, row.drop_last(), j);
        assert(row.drop_last().take(j) =~= row.take(j));
    } else {
        assert(row.take(j) =~= row);
    }
}

/// Entry `j` of the target `u` of entry `k` of `v` leads to an out-neighbour
/// of `v`: the pair of entries `v -> u -> w` closes a triangle at `v`.
pub open spec fn link_entry<W>(g: &Graph<W>, v: int, k: int, j: int) -> bool {
    &&& 0 <= k < g.adj@[v]@.len()
    &&& 0 <= j < g.adj@[g.adj@[v]@[k].0 as int]@.len()
    &&& g.has_edge(v, g.adj@[g.adj@[v]@[k].0 as int]@[j].0 as int)
}

/// `src` lists in increasing order exactly the pairs of entries `(k, j)` before
/// `bound` that close a triangle at `v`.
pub open spec fn lists_links<W>(g: &Graph<W>, v: int, src: Seq<(int, int)>, bound: (int, int)) -> bool {
    &&& forall|i: int| 0 <= i < src.len() ==> link_entry(g, v, (#[trigger] src[i]).0, src[i].1) && pair_lt(src[i], bound)
    &&& forall|i: int, j: int| 0 <= i < j < src.len() ==> pair_lt(#[trigger] src[i], #[trigger] src[j])
    &&& forall|k: int, j: int| #[trigger] link_entry(g, v, k, j) && pair_lt((k, j), bound) ==> src.contains((k, j))
}

proof fn lemma_links_row<W>(g: &Graph<W>, v: int, k: int, j: int, src0: Seq<(int, int)>) -> (src: Seq<(int, int)>)
    requires
        g.wf(),
        0 <= v < g.n,
        0 <= k < g.adj@[v]@.len(),
        0 <= j <= g.adj@[g.adj@[v]@[k].0 as int]@.len(),
        lists_links(g, v, src0, (k, 0)),
    ensures
        lists_links(g, v, src, (k, j)),
        src.len() == src0.len() + hits(g, v, g.adj@[g.adj@[v]@[k].0 as int]@.take(j)),
    decreases j,
{
    let row = g.adj@[g.adj@[v]@[k].0 as int]@;
    if j == 0 {
        assert(row.take(0) =~= Seq::<(usize, W)>::empty());
        assert forall|a: int, b: int| #[trigger] link_entry(g, v, a, b) && pair_lt((a, b), (k, j)) implies src0.contains((a, b)) by {
            assert(pair_lt((a, b), (k, 0)));
        }
        src0
    } else {
        let s1 = lemma_links_row(g, v, k, j - 1, src0);
        assert(row.take(j).drop_last() =~= row.take(j - 1));
        assert(row.take(j).last() == row[j - 1]);
        if g.has_edge(v, row[j - 1].0 as int) {
            let src = s1.push((k, j - 1));
            assert(link_entry(g, v, k, j - 1));
            assert forall|i: int| 0 <= i < src.len() implies link_entry(g, v, (#[trigger] src[i]).0, src[i].1) && pair_lt(src[i], (k, j)) by {
                if i < s1.len() {
                    assert(src[i] == s1[i]);
                }
            }
            assert forall|i: int, i2: int| 0 <= i < i2 < src.len() implies pair_lt(#[trigger] src[i], #[trigger] src[i2]) by {
                assert(src[i] == s1[i]);
                if i2 < s1.len() {
                    assert(src[i2] == s1[i2]);
                }
            }
            assert forall|a: int, b: int| #[trigger] link_entry(g, v, a, b) && pair_lt((a, b), (k, j)) implies src.contains((a, b)) by {
                if a == k && b == j - 1 {
                    assert(src[s1.len() as int] == (a, b));
                } else {
                    assert(s1.contains((a, b)));
                    let i = choose|i: int| 0 <= i < s1.len() && s1[i] == (a, b);
                    assert(src[i] == (a, b));
                }
            }
            src
        } else {
            assert forall|a: int, b: int| #[trigger] link_entry(g, v, a, b) && pair_lt((a, b), (k, j)) implies s1.contains((a, b)) by {
                if a == k && b == j - 1 {
                } else {
                    assert(pair_lt((a, b), (k, j - 1)));
                }
            }
            s1
        }
    }
}

proof fn lemma_links_count<W>(g: &Graph<W>, v: int, k: int) -> (src: Seq<(int, int)>)
    requires
        g.wf(),
        0 <= v < g.n,
        0 <= k <= g.adj@[v]@.len(),
    ensures
        lists_links(g, v, src, (k, 0)),
        src.len() == links_upto(g, v, k),
    decreases k,
{
    if k == 0 {
        let src = Seq::<(int, int)>::empty();
        assert forall|a: int, b: int| #[trigger] link_entry(g, v, a, b) && pair_lt((a, b), (k, 0)) implies src.contains((a, b)) by {
        }
        src
    } else {
        let s1 = lemma_links_count(g, v, k - 1);
        let u = g.adj@[v]@[k - 1].0 as int;
        let len = g.adj@[u]@.len() as int;
        let s2 = lemma_links_row(g, v, k - 1, len, s1);
        assert(g.adj@[u]@.take(len) =~= g.adj@[u]@);
        assert forall|i: int| 0 <= i < s2.len() implies pair_lt(#[trigger] s2[i], (k, 0)) by {
            assert(pair_lt(s2[i], (k - 1, len)));
        }
        assert forall|a: int, b: int| #[trigger] link_entry(g, v, a, b) && pair_lt((a, b), (k, 0)) implies s2.contains((a, b)) by {
            assert(pair_lt((a, b), (k - 1, len)));
        }
        s2
    }
}

/// The count of links around `v` is the number of pairs of entries `v -> u`
/// and `u -> w` where `w` is an out-neighbour of `v` (a target of an entry of
/// `v`'s own row), for directed and undirected graphs alike.
pub proof fn law_neighbour_links_count_triangles<W>(g: &Graph<W>, v: int)
    requires
        g.wf(),
        0 <= v < g.n,
    ensures
        exists|src: Seq<(int, int)>|
            #[trigger] lists_links(g, v, src, (g.adj@[v]@.len() as int, 0)) && src.len() == neighbour_link_count(g, v),
{
    let src = lemma_links_count(g, v, g.adj@[v]@.len() as int);
    assert(lists_links(g, v, src, (g.adj@[v]@.len() as int, 0)));
}

/// Count, over the entries of `v`, the entries of their targets that lead to a
/// neighbour of `v`: twice the number of links among the neighbours of `v` in a
/// simple undirected graph. `None` when the count does not fit in a `usize`.
pub fn neighbour_links<W>(g: &Graph<W>, v: usize) -> (count: Option<usize>)
    requires
        g.wf(),
        v < g.n,
    ensures
        match count {
            Some(c) => c == neighbour_link_count(g, v as int),
            None => neighbour_link_count(g, v as int) > usize::MAX,
        },
        exists|src: Seq<(int, int)>| #[trigger] lists_links(g, v as int, src, (g.adj@[v as int]@.len() as int, 0)) && match count {
            Some(c) => src.len() == c,
            None => src.len() > usize::MAX,
        },
{
    proof {
        law_neighbour_links_count_triangles(g, v as int);
    }

    let n = g.n;
    let mut mark = falses(n);
    let mut k: usize = 0;
    while k < g.adj[v].len()
        invariant
            g.wf(),
            v < n,
            n == g.n,
            mark@.len() == n,
            k <= g.adj@[v as int]@.len(),
            forall|x: int| 0 <= x < n ==> (#[trigger] mark@[x] <==> exists|j: int| 0 <= j < k && (#[trigger] g.adj@[v as int]@[j]).0 == x),
        decreases g.adj@[v as int]@.len() - k,
    {
        let t = g.adj[v][k].0;
        proof {
            assert(g.adj@[v as int]@[k as int].0 < n);
        }
        mark.set(t, true);
        proof {
            assert forall|x: int| 0 <= x < n implies (#[trigger] mark@[x] <==> exists|j: int| 0 <= j < k + 1 && (#[trigger] g.adj@[v as int]@[j]).0 == x) by {
                if x == t {
                    assert(g.adj@[v as int]@[k as int].0 == x);
                }
            }
        }
        k = k + 1;
    }
    let ghost total = neighbour_link_count(g, v as int);
    let mut count: usize = 0;
    let mut k: usize = 0;
    while k < g.adj[v].len()
        invariant
            g.wf(),
            v < n,
            n == g.n,
            mark@.len() == n,
            k <= g.adj@[v as int]@.len(),
            forall|x: int| 0 <= x < n ==> (#[trigger] mark@[x] <==> g.has_edge(v as int, x)),
            count == links_upto(g, v as int, k as int),
            total == neighbour_link_count(g, v as int),
        decreases g.adj@[v as int]@.len() - k,
    {
        let u = g.adj[v][k].0;
        proof {
            assert(g.adj@[v as int]@[k as int].0 < n);
        }
        let mut j: usize = 0;
        while j < g.adj[u].len()
            invariant
                g.wf(),
                v < n,
                u < n,
                n == g.n,
                mark@.len() == n,
                k < g.adj@[v as int]@.len(),
                u == g.adj@[v as int]@[k as int].0,
                j <= g.adj@[u as int]@.len(),
                forall|x: int| 0 <= x < n ==> (#[trigger] mark@[x] <==> g.has_edge(v as int, x)),
                count == links_upto(g, v as int, k as int) + hits(g, v as int, g.adj@[u as int]@.take(j as int)),
                total == neighbour_link_count(g, v as int),
            decreases g.adj@[u as int]@.len() - j,
        {
            let w = g.adj[u][j].0;
            proof {
                assert(g.adj@[u as int]@[j as int].0 < n);
                let row = g.adj@[u as int]@;
                assert(row.take(j + 1).drop_last() =~= row.take(j as int));
                assert(row.take(j + 1).last() == row[j as int]);
            }
            if mark[w] {
                proof {
                    let row = g.adj@[u as int]@;
                    lemma_hits_mono(g, v as int, row, j + 1);
                    lemma_links_mono(g, v as int, k + 1, g.adj@[v as int]@.len() as int);
                    assert(row.take(row.len() as int) =~= row);
                }
                match count.checked_add(1) {
                    Some(c) => {
                        count = c;
                    },
                    None => {
                        proof {
                            law_neighbour_links_count_triangles(g, v as int);
                        }
                        return None;
                    },
                }
            }
            j = j + 1;
        }
        proof {
            assert(g.adj@[u as int]@.take(j as int) =~= g.adj@[u as int]@);
        }
        k = k + 1;
    }
    Some(count)
}

/// The targets of the entries of `row`, in order, that are not infected.
pub open spec fn row_candidates<W>(row: Seq<(usize, W)>, infected: Seq<bool>) -> Seq<usize>
    decreases row.len(),
{
    if row.len() == 0 {
        Seq::empty()
    } else {
        let r = row_candidates(row.drop_last(), infected);
        if !infected[row.last().0 as int] {
            r.push(row.last().0)
        } else {
            r
        }
    }
}

/// The chances of infection in one step of spreading: for each infected vertex
/// below `u` in increasing order, the targets of its entries, in order, that are
/// not infected yet. Each of them gets one draw.
pub open spec fn candidates_upto<W>(g: &Graph<W>, infected: Seq<bool>, u: int) -> Seq<usize>
    decreases u,
{
    if u <= 0 {
        Seq::empty()
    } else {
        candidates_upto(g, infected, u - 1) + if infected[u - 1] {
            row_candidates(g.adj@[u - 1]@, infected)
        } else {
            Seq::empty()
        }
    }
}

/// The chances of infection in one step of spreading, in the order they are drawn.
pub fn infection_candidates<W>(g: &Graph<W>, infected: &Vec<bool>) -> (cands: Vec<usize>)
    requires
        g.wf(),
        infected@.len() == g.n,
    ensures
        cands@ == candidates_upto(g, infected@, g.n as int),
        forall|i: int| 0 <= i < cands@.len() ==> #[trigger] cands@[i] < g.n,
        exists|src: Seq<(int, int)>| #[trigger] lists_spread(g, infected@, cands@, src, (g.n as int, 0)),
{
    let n = g.n;
    let mut cands: Vec<usize> = Vec::new();
    let mut u: usize = 0;
    while u < n
        invariant
            g.wf(),
            n == g.n,
            infected@.len() == n,
            u <= n,
            cands@ == candidates_upto(g, infected@, u as int),
            forall|i: int| 0 <= i < cands@.len() ==> #[trigger] cands@[i] < n,
        decreases n - u,
    {
        if infected[u] {
            let ghost c0 = cands@;
            let mut k: usize = 0;
            while k < g.adj[u].len()
                invariant
                    g.wf(),
                    n == g.n,
                    infected@.len() == n,
                    u < n,
                    infected@[u as int],
                    k <= g.adj@[u as int]@.len(),
                    c0 == candidates_upto(g, infected@, u as int),
                    cands@ == c0 + row_candidates(g.adj@[u as int]@.take(k as int), infected@),
                    forall|i: int| 0 <= i < cands@.len() ==> #[trigger] cands@[i] < n,
                decreases g.adj@[u as int]@.len() - k,
            {
                let t = g.adj[u][k].0;
                let ghost c1 = cands@;
                proof {
                    assert(g.adj@[u as int]@[k as int].0 < n);
                    let row = g.adj@[u as int]@;
                    assert(row.take(k + 1).drop_last() =~= row.take(k as int));
                    assert(row.take(k + 1).last() == row[k as int]);
                }
                if !infected[t] {
                    cands.push(t);
                    proof {
                        assert(cands@ =~= c0 + row_candidates(g.adj@[u as int]@.take(k + 1), infected@));
                    }
                }
                k = k + 1;
            }
            proof {
                assert(g.adj@[u as int]@.take(k as int) =~= g.adj@[u as int]@);
            }
        } else {
            proof {
                assert(candidates_upto(g, infected@, u + 1) =~= candidates_upto(g, infected@, u as int));
            }
        }
        u = u + 1;
    }
    proof {
        law_candidates_are_spreading_entries(g, infected@, cands@);
    }
    cands
}

/// `a` comes before `b`, first by their first and then by their second parts.
pub open spec fn pair_lt(a: (int, int), b: (int, int)) -> bool {
    a.0 < b.0 || (a.0 == b.0 && a.1 < b.1)
}

/// Entry `k` of infected vertex `u` leads to a vertex not yet infected.
pub open spec fn spread_entry<W>(g: &Graph<W>, infected: Seq<bool>, u: int, k: int) -> bool {
    &&& 0 <= u < g.n
    &&& infected[u]
    &&& 0 <= k < g.adj@[u]@.len()
    &&& !infected[g.adj@[u]@[k].0 as int]
}

/// `cands` holds, one for each entry `src[i]` (vertex, position in its row)
/// from an infected vertex to one not yet infected, the target of that entry;
/// `src` lists, in increasing order, exactly those entries before `bound`.
pub open spec fn lists_spread<W>(
    g: &Graph<W>,
    infected: Seq<bool>,
    cands: Seq<usize>,
    src: Seq<(int, int)>,
    bound: (int, int),
) -> bool {
    &&& src.len() == cands.len()
    &&& forall|i: int|
        0 <= i < src.len() ==> spread_entry(g, infected, (#[trigger] src[i]).0, src[i].1) && pair_lt(src[i], bound)
            && cands[i] == g.adj@[src[i].0]@[src[i].1].0
    &&& forall|i: int, j: int| 0 <= i < j < src.len() ==> pair_lt(#[trigger] src[i], #[trigger] src[j])
    &&& forall|u: int, k: int|
        #[trigger] spread_entry(g, infected, u, k) && pair_lt((u, k), bound) ==> src.contains((u, k))
}

proof fn lemma_spread_row<W>(
    g: &Graph<W>,
    infected: Seq<bool>,
    c0: Seq<usize>,
    src0: Seq<(int, int)>,
    u: int,
    k: int,
) -> (src: Seq<(int, int)>)
    requires
        g.wf(),
        infected.len() == g.n,
        0 <= u < g.n,
        infected[u],
        0 <= k <= g.adj@[u]@.len(),
        lists_spread(g, infected, c0, src0, (u, 0)),
    ensures
        lists_spread(g, infected, c0 + row_candidates(g.adj@[u]@.take(k), infected), src, (u, k)),
    decreases k,
{
    if k == 0 {
        assert(g.adj@[u]@.take(0) =~= Seq::<(usize, W)>::empty());
        assert(c0 + row_candidates(g.adj@[u]@.take(0), infected) =~= c0);
        assert forall|a: int, b: int| #[trigger] spread_entry(g, infected, a, b) && pair_lt((a, b), (u, k)) implies src0.contains((a, b)) by {
            assert(pair_lt((a, b), (u, 0)));
        }
        src0
    } else {
        let s1 = lemma_spread_row(g, infected, c0, src0, u, k - 1);
        let row = g.adj@[u]@;
        let c1 = c0 + row_candidates(row.take(k - 1), infected);
        assert(row.take(k).drop_last() =~= row.take(k - 1));
        assert(row.take(k).last() == row[k - 1]);
        let t = row[k - 1].0;
        assert(t < g.n);
        if !infected[t as int] {
            let src = s1.push((u, k - 1));
            let c = c1.push(t);
            assert(c0 + row_candidates(row.take(k), infected) =~= c);
            assert forall|i: int|
                0 <= i < src.len() implies spread_entry(g, infected, (#[trigger] src[i]).0, src[i].1) && pair_lt(src[i], (u, k))
                    && c[i] == g.adj@[src[i].0]@[src[i].1].0 by {
                if i < s1.len() {
                    assert(src[i] == s1[i] && c[i] == c1[i]);
                }
            }
            assert forall|i: int, j: int| 0 <= i < j < src.len() implies pair_lt(#[trigger] src[i], #[trigger] src[j]) by {
                assert(src[i] == s1[i]);
                if j < s1.len() {
                    assert(src[j] == s1[j]);
                }
            }
            assert forall|a: int, b: int| #[trigger] spread_entry(g, infected, a, b) && pair_lt((a, b), (u, k)) implies src.contains((a, b)) by {
                if a == u && b == k - 1 {
                    assert(src[s1.len() as int] == (a, b));
                } else {
                    assert(s1.contains((a, b)));
                    let i = choose|i: int| 0 <= i < s1.len() && s1[i] == (a, b);
                    assert(src[i] == (a, b));
                }
            }
            src
        } else {
            assert(c0 + row_candidates(row.take(k), infected) =~= c1);
            assert forall|a: int, b: int| #[trigger] spread_entry(g, infected, a, b) && pair_lt((a, b), (u, k)) implies s1.contains((a, b)) by {
                if a == u && b == k - 1 {
                } else {
                    assert(pair_lt((a, b), (u, k - 1)));
                }
            }
            s1
        }
    }
}

/// The candidates below vertex `u`, with the entries they stand for.
proof fn lemma_spread_upto<W>(g: &Graph<W>, infected: Seq<bool>, u: int) -> (src: Seq<(int, int)>)
    requires
        g.wf(),
        infected.len() == g.n,
        0 <= u <= g.n,
    ensures
        lists_spread(g, infected, candidates_upto(g, infected, u), src, (u, 0)),
    decreases u,
{
    if u == 0 {
        let src = Seq::<(int, int)>::empty();
        assert forall|a: int, b: int| #[trigger] spread_entry(g, infected, a, b) && pair_lt((a, b), (u, 0)) implies src.contains((a, b)) by {
        }
        src
    } else {
        let s1 = lemma_spread_upto(g, infected, u - 1);
        let c1 = candidates_upto(g, infected, u - 1);
        let len = g.adj@[u - 1]@.len() as int;
        if infected[u - 1] {
            let s2 = lemma_spread_row(g, infected, c1, s1, u - 1, len);
            assert(g.adj@[u - 1]@.take(len) =~= g.adj@[u - 1]@);
            assert forall|i: int| 0 <= i < s2.len() implies pair_lt(#[trigger] s2[i], (u, 0)) by {
                assert(pair_lt(s2[i], (u - 1, len)));
            }
            assert forall|a: int, b: int| #[trigger] spread_entry(g, infected, a, b) && pair_lt((a, b), (u, 0)) implies s2.contains((a, b)) by {
                assert(pair_lt((a, b), (u - 1, len)));
            }
            s2
        } else {
            assert(candidates_upto(g, infected, u) =~= c1);
            assert forall|i: int| 0 <= i < s1.len() implies pair_lt(#[trigger] s1[i], (u, 0)) by {
                assert(pair_lt(s1[i], (u - 1, 0)));
            }
            assert forall|a: int, b: int| #[trigger] spread_entry(g, infected, a, b) && pair_lt((a, b), (u, 0)) implies s1.contains((a, b)) by {
                assert(a != u - 1);
                assert(pair_lt((a, b), (u - 1, 0)));
            }
            s1
        }
    }
}

/// One step of spreading gives one chance of infection per entry from an
/// infected vertex to one not yet infected: the candidates are the targets of
/// exactly those entries, each once, by increasing vertex and row position.
pub proof fn law_candidates_are_spreading_entries<W>(g: &Graph<W>, infected: Seq<bool>, cands: Seq<usize>)
    requires
        g.wf(),
        infected.len() == g.n,
        cands == candidates_upto(g, infected, g.n as int),
    ensures
        exists|src: Seq<(int, int)>| #[trigger] lists_spread(g, infected, cands, src, (g.n as int, 0)),
{
    let src = lemma_spread_upto(g, infected, g.n as int);
    assert(lists_spread(g, infected, cands, src, (g.n as int, 0)));
}

/// The infection after one step: what was infected stays infected, and each
/// chance whose draw came up is infected too.
pub fn apply_infections(infected: &Vec<bool>, cands: &Vec<usize>, hit: &Vec<bool>) -> (next: Vec<bool>)
    requires
        hit@.len() == cands@.len(),
        forall|i: int| 0 <= i < cands@.len() ==> #[trigger] cands@[i] < infected@.len(),
    ensures
        next@.len() == infected@.len(),
        forall|x: int| 0 <= x < next@.len() ==> (#[trigger] next@[x] <==> infected@[x]
            || exists|i: int| 0 <= i < cands@.len() && cands@[i] == x && #[trigger] hit@[i]),
{
    let mut next = infected.clone();
    let mut i: usize = 0;
    while i < cands.len()
        invariant
            hit@.len() == cands@.len(),
            forall|j: int| 0 <= j < cands@.len() ==> #[trigger] cands@[j] < infected@.len(),
            next@.len() == infected@.len(),
            i <= cands@.len(),
            forall|x: int| 0 <= x < next@.len() ==> (#[trigger] next@[x] <==> infected@[x]
                || exists|j: int| 0 <= j < i && cands@[j] == x && #[trigger] hit@[j]),
        decreases cands@.len() - i,
    {
        if hit[i] {
            let t = cands[i];
            next.set(t, true);
            proof {
                assert forall|x: int| 0 <= x < next@.len() implies (#[trigger] next@[x] <==> infected@[x]
                    || exists|j: int| 0 <= j < i + 1 && cands@[j] == x && #[trigger] hit@[j]) by {
                    if x == t {
                        assert(cands@[i as int] == x && hit@[i as int]);
                    }
                }
            }
        }
        i = i + 1;
    }
    next
}

/// The number of `true` entries.
pub open spec fn count_true(s: Seq<bool>) -> nat
    decreases s.len(),
{
    if s.len() == 0 {
        0
    } else {
        count_true(s.drop_last()) + if s.last() {
            1nat
        } else {
            0nat
        }
    }
}

proof fn lemma_count_true_le(s: Seq<bool>)
    ensures
        count_true(s) <= s.len(),
    decreases s.len(),
{
    if s.len() > 0 {
        lemma_count_true_le(s.drop_last());
    }
}

/// The positions of `s` that hold `true`.
pub open spec fn true_positions(s: Seq<bool>) -> Set<int> {
    Set::new(|i: int| 0 <= i < s.len() && s[i])
}

/// The count of `true` entries is the number of positions holding `true`.
pub proof fn law_count_true_positions(s: Seq<bool>)
    ensures
        true_positions(s).finite(),
        count_true(s) == true_positions(s).len(),
    decreases s.len(),
{
    if s.len() == 0 {
        assert(true_positions(s) =~= Set::<int>::empty());
    } else {
        let s0 = s.drop_last();
        law_count_true_positions(s0);
        let last = s.len() - 1;
        assert forall|i: int| 0 <= i < s0.len() implies s0[i] == s[i] by {}
        if s.last() {
            assert(true_positions(s) =~= true_positions(s0).insert(last));
            assert(!true_positions(s0).contains(last));
        } else {
            assert(true_positions(s) =~= true_positions(s0));
        }
    }
}

/// The number of infected vertices.
pub fn count_infected(infected: &Vec<bool>) -> (c: usize)
    ensures
        c == count_true(infected@),
        c == true_positions(infected@).len(),
{
    proof {
        law_count_true_positions(infected@);
    }
    let mut c: usize = 0;
    let mut i: usize = 0;
    while i < infected.len()
        invariant
            i <= infected@.len(),
            c == count_true(infected@.take(i as int)),
        decreases infected@.len() - i,
    {
        proof {
            assert(infected@.take(i + 1).drop_last() =~= infected@.take(i as int));
            lemma_count_true_le(infected@.take(i as int));
        }
        if infected[i] {
            c = c + 1;
        }
        i = i + 1;
    }
    proof {
        assert(infected@.take(i as int) =~= infected@);
    }
    c
}

/// The infection at the start: exactly the seeds.
pub fn seed_infection(n: usize, seeds: &[usize]) -> (infected: Vec<bool>)
    requires
        forall|i: int| 0 <= i < seeds@.len() ==> #[trigger] seeds@[i] < n,
    ensures
        infected@.len() == n,
        forall|x: int| 0 <= x < n ==> (#[trigger] infected@[x] <==> seeds@.contains(x as usize)),
{
    let mut infected = falses(n);
    let mut i: usize = 0;
    while i < seeds.len()
        invariant
            forall|j: int| 0 <= j < seeds@.len() ==> #[trigger] seeds@[j] < n,
            infected@.len() == n,
            i <= seeds@.len(),
            forall|x: int| 0 <= x < n ==> (#[trigger] infected@[x] <==> seeds@.take(i as int).contains(x as usize)),
        decreases seeds@.len() - i,
    {
        let s = seeds[i];
        infected.set(s, true);
        proof {
            assert forall|x: int| 0 <= x < n implies (#[trigger] infected@[x] <==> seeds@.take(i + 1).contains(x as usize)) by {
                if seeds@.take(i + 1).contains(x as usize) {
                    let j = choose|j: int| 0 <= j < i + 1 && #[trigger] seeds@.take(i + 1)[j] == x as usize;
                    if j < i {
                        assert(seeds@.take(i as int)[j] == x as usize);
                    }
                }
                if seeds@.take(i as int).contains(x as usize) {
                    let j = choose|j: int| 0 <= j < i && #[trigger] seeds@.take(i as int)[j] == x as usize;
                    assert(seeds@.take(i + 1)[j] == x as usize);
                }
                if x == s {
                    assert(seeds@.take(i + 1)[i as int] == s);
                }
            }
        }
        i = i + 1;
    }
    proof {
        assert(seeds@.take(i as int) =~= seeds@);
    }
    infected
}

} // verus!
