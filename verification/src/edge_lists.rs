//! The edge list of a graph built by adding edges: each added edge once, rows
//! in order, and the smaller end first when the graph is undirected.
use crate::graph::{
    add_edge_rows, dedup_entries, edge_key, empty_rows, entries_upto, entry_key, lemma_dedup_keys, row_entries,
    rows_from_edges, sum_lens, Edge, Graph,
};
use vstd::prelude::*;

verus! {

/// No two added edges stand for the same edge: same endpoints (in either order
/// when undirected) and same weight.
pub open spec fn keys_distinct(es: Seq<(usize, usize, u64)>, directed: bool) -> bool {
    forall|i: int, j: int| 0 <= i < j < es.len() ==> entry_key(#[trigger] es[i], directed) != entry_key(#[trigger] es[j], directed)
}

/// Row `x` of `rows` holds an entry to `y` of weight `w`.
pub open spec fn row_holds(rows: Seq<Seq<(usize, u64)>>, x: int, y: usize, w: u64) -> bool {
    exists|k: int| 0 <= k < rows[x].len() && #[trigger] rows[x][k] == (y, w)
}

/// `e` was added from `x` to `y` with weight `w`, or, undirected, from `y` to `x`.
pub open spec fn added(es: Seq<(usize, usize, u64)>, directed: bool, x: usize, y: usize, w: u64) -> bool {
    exists|i: int| 0 <= i < es.len() && (#[trigger] es[i] == (x, y, w) || (!directed && es[i] == (y, x, w)))
}

/// Sum of the lengths of rows given as sequences.
pub open spec fn total_len(rows: Seq<Seq<(usize, u64)>>) -> nat
    decreases rows.len(),
{
    if rows.len() == 0 {
        0
    } else {
        total_len(rows.drop_last()) + rows.last().len()
    }
}

proof fn lemma_total_len_update(rows: Seq<Seq<(usize, u64)>>, i: int, r: Seq<(usize, u64)>)
    requires
        0 <= i < rows.len(),
    ensures
        total_len(rows.update(i, r)) + rows[i].len() == total_len(rows) + r.len(),
    decreases rows.len(),
{
    if i < rows.len() - 1 {
        assert(rows.update(i, r).drop_last() =~= rows.drop_last().update(i, r));
        lemma_total_len_update(rows.drop_last(), i, r);
    } else {
        assert(rows.update(i, r).drop_last() =~= rows.drop_last());
    }
}

proof fn lemma_total_len_empty(n: nat)
    ensures
        total_len(empty_rows::<u64>(n)) == 0,
    decreases n,
{
    if n > 0 {
        assert(empty_rows::<u64>(n).drop_last() =~= empty_rows::<u64>((n - 1) as nat));
        lemma_total_len_empty((n - 1) as nat);
    }
}

proof fn lemma_total_len_adj(adj: Seq<Vec<(usize, u64)>>)
    ensures
        total_len(adj.map_values(|r: Vec<(usize, u64)>| r@)) == sum_lens(adj),
    decreases adj.len(),
{
    if adj.len() > 0 {
        lemma_total_len_adj(adj.drop_last());
        assert(adj.map_values(|r: Vec<(usize, u64)>| r@).drop_last() =~= adj.drop_last().map_values(|r: Vec<(usize, u64)>| r@));
    }
}

/// The rows built from the added edges: `n` of them, holding exactly the added
/// entries, one per edge (two when undirected) in all.
proof fn lemma_rows_built(n: nat, es: Seq<(usize, usize, u64)>, directed: bool)
    requires
        n <= usize::MAX,
        forall|i: int| 0 <= i < es.len() ==> (#[trigger] es[i]).0 < n && es[i].1 < n,
    ensures
        rows_from_edges(n, es, directed).len() == n,
        forall|x: int, y: usize, w: u64|
            0 <= x < n ==> (#[trigger] row_holds(rows_from_edges(n, es, directed), x, y, w) <==> added(es, directed, x as usize, y, w)),
        total_len(rows_from_edges(n, es, directed)) == if directed { es.len() } else { 2 * es.len() },
    decreases es.len(),
{
    if es.len() == 0 {
        lemma_total_len_empty(n);
        assert forall|x: int, y: usize, w: u64|
            0 <= x < n implies (#[trigger] row_holds(rows_from_edges(n, es, directed), x, y, w) <==> added(es, directed, x as usize, y, w)) by {
        }
    } else {
        let e0 = es.drop_last();
        assert forall|i: int| 0 <= i < e0.len() implies (#[trigger] e0[i]).0 < n && e0[i].1 < n by {
            assert(e0[i] == es[i]);
        }
        lemma_rows_built(n, e0, directed);
        let r0 = rows_from_edges(n, e0, directed);
        let e = es.last();
        assert(es[es.len() - 1] == e);
        let r1 = r0.update(e.0 as int, r0[e.0 as int].push((e.1, e.2)));
        let r = rows_from_edges(n, es, directed);
        assert(r == add_edge_rows(r0, e.0, e.1, e.2, directed));
        lemma_total_len_update(r0, e.0 as int, r0[e.0 as int].push((e.1, e.2)));
        if !directed {
            lemma_total_len_update(r1, e.1 as int, r1[e.1 as int].push((e.0, e.2)));
        }
        assert forall|x: int, y: usize, w: u64|
            0 <= x < n implies (#[trigger] row_holds(r, x, y, w) <==> added(es, directed, x as usize, y, w)) by {
            // what row x holds: what it held, and the new entries of this edge
            let newf = x == e.0 && (y, w) == (e.1, e.2);
            let newb = !directed && x == e.1 && (y, w) == (e.0, e.2);
            assert(row_holds(r, x, y, w) <==> (row_holds(r0, x, y, w) || newf || newb)) by {
                if row_holds(r, x, y, w) {
                    let k = choose|k: int| 0 <= k < r[x].len() && #[trigger] r[x][k] == (y, w);
                    if directed || x != e.1 {
                        if x == e.0 {
                            assert(r[x] == r0[x].push((e.1, e.2)));
                            if k < r0[x].len() {
                                assert(r0[x][k] == (y, w));
                            }
                        } else {
                            assert(r[x] == r0[x]);
                        }
                    } else if x == e.0 {
                        assert(r[x] == r0[x].push((e.1, e.2)).push((e.0, e.2)));
                        if k < r0[x].len() {
                            assert(r0[x][k] == (y, w));
                        }
                    } else {
                        assert(r[x] == r0[x].push((e.0, e.2)));
                        if k < r0[x].len() {
                            assert(r0[x][k] == (y, w));
                        }
                    }
                }
                if row_holds(r0, x, y, w) {
                    let k = choose|k: int| 0 <= k < r0[x].len() && #[trigger] r0[x][k] == (y, w);
                    if directed || x != e.1 {
                        if x == e.0 {
                            assert(r[x] == r0[x].push((e.1, e.2)));
                        } else {
                            assert(r[x] == r0[x]);
                        }
                    } else if x == e.0 {
                        assert(r[x] == r0[x].push((e.1, e.2)).push((e.0, e.2)));
                    } else {
                        assert(r[x] == r0[x].push((e.0, e.2)));
                    }
                    assert(r[x][k] == (y, w));
                }
                if newf {
                    if directed || x != e.1 {
                        assert(r[x] == r0[x].push((e.1, e.2)));
                        assert(r[x][r0[x].len() as int] == (y, w));
                    } else {
                        assert(r[x] == r0[x].push((e.1, e.2)).push((e.0, e.2)));
                        assert(r[x][r0[x].len() as int] == (y, w));
                    }
                }
                if newb {
                    assert(r1[x].len() == r0[x].len() + if x == e.0 { 1int } else { 0int });
                    assert(r[x] == r1[x].push((e.0, e.2)));
                    assert(r[x][r1[x].len() as int] == (y, w));
                }
            }
            assert(added(es, directed, x as usize, y, w) <==> (added(e0, directed, x as usize, y, w) || newf || newb)) by {
                if added(es, directed, x as usize, y, w) {
                    let i = choose|i: int| 0 <= i < es.len() && (#[trigger] es[i] == (x as usize, y, w) || (!directed && es[i] == (y, x as usize, w)));
                    if i < e0.len() {
                        assert(e0[i] == es[i]);
                    } else {
                        assert(es[i] == e);
                        if es[i] == (x as usize, y, w) {
                            assert(newf);
                        } else {
                            assert(newb);
                        }
                    }
                }
                if added(e0, directed, x as usize, y, w) {
                    let i = choose|i: int| 0 <= i < e0.len() && (#[trigger] e0[i] == (x as usize, y, w) || (!directed && e0[i] == (y, x as usize, w)));
                    assert(es[i] == e0[i]);
                }
                if newf || newb {
                    assert(es[es.len() - 1] == e);
                }
            }
        }
    }
}

/// Entry `j` of the rows below `u` comes from its row.
proof fn lemma_entry_at(adj: Seq<Vec<(usize, u64)>>, u: int, j: int)
    requires
        0 <= u <= adj.len(),
        u <= usize::MAX + 1,
        0 <= j < entries_upto(adj, u).len(),
    ensures
        entries_upto(adj, u)[j].0 < u,
        exists|k: int|
            0 <= k < adj[entries_upto(adj, u)[j].0 as int]@.len() && adj[entries_upto(adj, u)[j].0 as int]@[k] == (
                entries_upto(adj, u)[j].1,
                entries_upto(adj, u)[j].2,
            ),
    decreases u,
{
    let pre = entries_upto(adj, u - 1);
    let row = row_entries(u - 1, adj[u - 1]@);
    assert(entries_upto(adj, u) == pre + row);
    if j < pre.len() {
        assert(entries_upto(adj, u)[j] == pre[j]);
        lemma_entry_at(adj, u - 1, j);
    } else {
        let k = j - pre.len();
        assert(entries_upto(adj, u)[j] == row[k]);
        assert(row[k].0 as int == u - 1);
        assert(adj[u - 1]@[k] == (row[k].1, row[k].2));
    }
}

/// Every entry of the rows below `u` is among their triples, and the triples
/// come row by row.
proof fn lemma_entries(adj: Seq<Vec<(usize, u64)>>, u: int)
    requires
        0 <= u <= adj.len(),
        u <= usize::MAX + 1,
    ensures
        forall|x: int, k: int|
            0 <= x < u && 0 <= k < adj[x]@.len() ==> entries_upto(adj, u).contains(
                (x as usize, (#[trigger] adj[x]@[k]).0, adj[x]@[k].1),
            ),
        forall|i: int, j: int|
            0 <= i < j < entries_upto(adj, u).len() ==> (#[trigger] entries_upto(adj, u)[i]).0 <= (
            #[trigger] entries_upto(adj, u)[j]).0,
    decreases u,
{
    if u > 0 {
        lemma_entries(adj, u - 1);
        let pre = entries_upto(adj, u - 1);
        let row = row_entries(u - 1, adj[u - 1]@);
        let all = entries_upto(adj, u);
        assert(all == pre + row);
        assert forall|x: int, k: int|
            0 <= x < u && 0 <= k < adj[x]@.len() implies all.contains((x as usize, (#[trigger] adj[x]@[k]).0, adj[x]@[k].1)) by {
            if x < u - 1 {
                assert(pre.contains((x as usize, adj[x]@[k].0, adj[x]@[k].1)));
                let q = choose|q: int| 0 <= q < pre.len() && pre[q] == (x as usize, adj[x]@[k].0, adj[x]@[k].1);
                assert(all[q] == pre[q]);
            } else {
                assert(all[pre.len() + k] == row[k]);
            }
        }
        assert forall|i: int, j: int| 0 <= i < j < all.len() implies (#[trigger] all[i]).0 <= (#[trigger] all[j]).0 by {
            if j < pre.len() {
                assert(all[i] == pre[i] && all[j] == pre[j]);
                lemma_entry_at(adj, u - 1, i);
                lemma_entry_at(adj, u - 1, j);
            } else if i < pre.len() {
                assert(all[i] == pre[i]);
                lemma_entry_at(adj, u - 1, i);
                assert(all[j] == row[j - pre.len()]);
            } else {
                assert(all[i] == row[i - pre.len()] && all[j] == row[j - pre.len()]);
            }
        }
    }
}

/// Each kept edge is an entry whose key does not occur before it.
proof fn lemma_dedup_first(es: Seq<(usize, usize, u64)>, directed: bool, j: int)
    requires
        0 <= j < dedup_entries(es, directed).len(),
    ensures
        exists|m: int|
            0 <= m < es.len() && #[trigger] es[m] == (
                dedup_entries(es, directed)[j].from,
                dedup_entries(es, directed)[j].to,
                dedup_entries(es, directed)[j].weight,
            ) && forall|m2: int| 0 <= m2 < m ==> entry_key(#[trigger] es[m2], directed) != entry_key(es[m], directed),
    decreases es.len(),
{
    let e0 = es.drop_last();
    let d0 = dedup_entries(e0, directed);
    let d = dedup_entries(es, directed);
    if j < d0.len() {
        assert(d[j] == d0[j]);
        lemma_dedup_first(e0, directed, j);
        let m = choose|m: int|
            0 <= m < e0.len() && #[trigger] e0[m] == (d0[j].from, d0[j].to, d0[j].weight)
                && forall|m2: int| 0 <= m2 < m ==> entry_key(#[trigger] e0[m2], directed) != entry_key(e0[m], directed);
        assert(es[m] == e0[m]);
        assert forall|m2: int| 0 <= m2 < m implies entry_key(#[trigger] es[m2], directed) != entry_key(es[m], directed) by {
            assert(es[m2] == e0[m2]);
        }
    } else {
        let m = es.len() - 1;
        assert(es[m] == es.last());
    }
}

/// Kept edges have distinct keys.
proof fn lemma_dedup_distinct(es: Seq<(usize, usize, u64)>, directed: bool)
    ensures
        forall|a: int, b: int|
            0 <= a < b < dedup_entries(es, directed).len() ==> edge_key(#[trigger] dedup_entries(es, directed)[a], directed)
                != edge_key(#[trigger] dedup_entries(es, directed)[b], directed),
    decreases es.len(),
{
    if es.len() > 0 {
        let e0 = es.drop_last();
        lemma_dedup_distinct(e0, directed);
        let d0 = dedup_entries(e0, directed);
        let d = dedup_entries(es, directed);
        assert forall|a: int, b: int| 0 <= a < b < d.len() implies edge_key(#[trigger] d[a], directed) != edge_key(#[trigger] d[b], directed) by {
            assert(d[a] == d0[a]);
            if b < d0.len() {
                assert(d[b] == d0[b]);
            } else {
                lemma_dedup_keys(e0, directed, edge_key(d0[a], directed));
                let e = es.last();
                assert(d[b] == Edge { from: e.0, to: e.1, weight: e.2 });
                if edge_key(d[a], directed) == edge_key(d[b], directed) {
                    let q = choose|q: int| 0 <= q < e0.len() && entry_key(#[trigger] e0[q], directed) == edge_key(d0[a], directed);
                    assert(es[q] == e0[q]);
                }
            }
        }
    }
}

/// On entries in order of their first vertex, the kept edges come in that order too.
proof fn lemma_dedup_from_order(es: Seq<(usize, usize, u64)>, directed: bool)
    requires
        forall|i: int, j: int| 0 <= i < j < es.len() ==> (#[trigger] es[i]).0 <= (#[trigger] es[j]).0,
    ensures
        forall|a: int, b: int|
            0 <= a < b < dedup_entries(es, directed).len() ==> (#[trigger] dedup_entries(es, directed)[a]).from
                <= (#[trigger] dedup_entries(es, directed)[b]).from,
    decreases es.len(),
{
    if es.len() > 0 {
        let e0 = es.drop_last();
        assert forall|i: int, j: int| 0 <= i < j < e0.len() implies (#[trigger] e0[i]).0 <= (#[trigger] e0[j]).0 by {
            assert(e0[i] == es[i] && e0[j] == es[j]);
        }
        lemma_dedup_from_order(e0, directed);
        let d0 = dedup_entries(e0, directed);
        let d = dedup_entries(es, directed);
        assert forall|a: int, b: int| 0 <= a < b < d.len() implies (#[trigger] d[a]).from <= (#[trigger] d[b]).from by {
            assert(d[a] == d0[a]);
            if b < d0.len() {
                assert(d[b] == d0[b]);
            } else {
                lemma_dedup_first(e0, directed, a);
                let m = choose|m: int|
                    0 <= m < e0.len() && #[trigger] e0[m] == (d0[a].from, d0[a].to, d0[a].weight)
                        && forall|m2: int| 0 <= m2 < m ==> entry_key(#[trigger] e0[m2], directed) != entry_key(e0[m], directed);
                assert(es[m] == e0[m]);
                assert(es[es.len() - 1] == es.last());
            }
        }
    }
}

/// The edge list of `g`, as `edge_list` returns it.
pub open spec fn listed_edges(g: &Graph<u64>) -> Seq<Edge<u64>> {
    dedup_entries(entries_upto(g.adj@, g.n as int), g.directed)
}

/// The hypotheses of the edge-list law.
pub open spec fn built_from(g: &Graph<u64>, es: Seq<(usize, usize, u64)>) -> bool {
    &&& g.adj@.len() == g.n
    &&& g.rows() == rows_from_edges(g.n as nat, es, g.directed)
    &&& forall|i: int| 0 <= i < es.len() ==> (#[trigger] es[i]).0 < g.n && es[i].1 < g.n
}

/// Entry `q` of a built graph has the key of an added edge and, undirected, its
/// reverse is an entry too.
proof fn lemma_entry_added(g: &Graph<u64>, es: Seq<(usize, usize, u64)>, q: int)
    requires
        built_from(g, es),
        0 <= q < entries_upto(g.adj@, g.n as int).len(),
    ensures
        exists|i: int| 0 <= i < es.len() && entry_key(#[trigger] es[i], g.directed) == entry_key(entries_upto(g.adj@, g.n as int)[q], g.directed),
        !g.directed ==> entries_upto(g.adj@, g.n as int).contains(
            (entries_upto(g.adj@, g.n as int)[q].1, entries_upto(g.adj@, g.n as int)[q].0, entries_upto(g.adj@, g.n as int)[q].2)),
{
    let n = g.n;
    let dir = g.directed;
    let adj = g.adj@;
    let rows = g.rows();
    let ent = entries_upto(adj, n as int);
    let t = ent[q];
    lemma_entry_at(adj, n as int, q);
    let k = choose|k: int| 0 <= k < adj[t.0 as int]@.len() && adj[t.0 as int]@[k] == (t.1, t.2);
    assert(rows[t.0 as int] == adj[t.0 as int]@);
    assert(rows[t.0 as int][k] == (t.1, t.2));
    lemma_rows_built(n as nat, es, dir);
    assert(row_holds(rows, t.0 as int, t.1, t.2));
    assert(added(es, dir, t.0, t.1, t.2));
    let i = choose|i: int| 0 <= i < es.len() && (#[trigger] es[i] == (t.0, t.1, t.2) || (!dir && es[i] == (t.1, t.0, t.2)));
    assert(entry_key(es[i], dir) == entry_key(t, dir));
    if !dir {
        assert(added(es, dir, t.1, t.0, t.2)) by {
            assert(es[i] == (t.1, t.0, t.2) || es[i] == (t.0, t.1, t.2));
        }
        assert(t.1 < n) by {
            assert(es[i].0 < n && es[i].1 < n);
        }
        assert(row_holds(rows, t.1 as int, t.0, t.2));
        let k2 = choose|k2: int| 0 <= k2 < rows[t.1 as int].len() && #[trigger] rows[t.1 as int][k2] == (t.0, t.2);
        assert(rows[t.1 as int] == adj[t.1 as int]@);
        assert(adj[t.1 as int]@[k2] == (t.0, t.2));
        lemma_entries(adj, n as int);
        assert(ent.contains((t.1 as int as usize, adj[t.1 as int]@[k2].0, adj[t.1 as int]@[k2].1)));
    }
}

/// Added edge `i` of a built graph is one of its entries.
proof fn lemma_added_entry(g: &Graph<u64>, es: Seq<(usize, usize, u64)>, i: int)
    requires
        built_from(g, es),
        0 <= i < es.len(),
    ensures
        entries_upto(g.adj@, g.n as int).contains(es[i]),
{
    let n = g.n;
    let dir = g.directed;
    let adj = g.adj@;
    let rows = g.rows();
    let e = es[i];
    lemma_rows_built(n as nat, es, dir);
    assert(added(es, dir, e.0, e.1, e.2));
    assert(row_holds(rows, e.0 as int, e.1, e.2));
    let k = choose|k: int| 0 <= k < rows[e.0 as int].len() && #[trigger] rows[e.0 as int][k] == (e.1, e.2);
    assert(rows[e.0 as int] == adj[e.0 as int]@);
    assert(adj[e.0 as int]@[k] == (e.1, e.2));
    lemma_entries(adj, n as int);
    assert(entries_upto(adj, n as int).contains((e.0 as int as usize, adj[e.0 as int]@[k].0, adj[e.0 as int]@[k].1)));
}

/// The entries of a built graph are the added edges, both ways round when undirected.
proof fn lemma_added_entries(g: &Graph<u64>, es: Seq<(usize, usize, u64)>)
    requires
        built_from(g, es),
    ensures
        forall|q: int| #![trigger entries_upto(g.adj@, g.n as int)[q]] 0 <= q < entries_upto(g.adj@, g.n as int).len() ==> exists|i: int|
            0 <= i < es.len() && entry_key(#[trigger] es[i], g.directed) == entry_key(entries_upto(g.adj@, g.n as int)[q], g.directed),
        forall|i: int| 0 <= i < es.len() ==> entries_upto(g.adj@, g.n as int).contains(#[trigger] es[i]),
{
    let ent = entries_upto(g.adj@, g.n as int);
    assert forall|q: int| #![trigger ent[q]] 0 <= q < ent.len() implies exists|i: int| 0 <= i < es.len() && entry_key(#[trigger] es[i], g.directed) == entry_key(ent[q], g.directed) by {
        lemma_entry_added(g, es, q);
    }
    assert forall|i: int| 0 <= i < es.len() implies ent.contains(#[trigger] es[i]) by {
        lemma_added_entry(g, es, i);
    }
}

/// The listed edges of a built graph have the keys of the added edges.
proof fn lemma_listed_keys(g: &Graph<u64>, es: Seq<(usize, usize, u64)>)
    requires
        built_from(g, es),
    ensures
        forall|i: int| #![trigger es[i]] 0 <= i < es.len() ==> exists|j: int|
            0 <= j < listed_edges(g).len() && edge_key(#[trigger] listed_edges(g)[j], g.directed) == entry_key(es[i], g.directed),
        forall|j: int| #![trigger listed_edges(g)[j]] 0 <= j < listed_edges(g).len() ==> exists|i: int|
            0 <= i < es.len() && entry_key(#[trigger] es[i], g.directed) == edge_key(listed_edges(g)[j], g.directed),
{
    let dir = g.directed;
    let ent = entries_upto(g.adj@, g.n as int);
    let l = listed_edges(g);
    lemma_added_entries(g, es);
    assert forall|i: int| #![trigger es[i]] 0 <= i < es.len() implies exists|j: int|
        0 <= j < l.len() && edge_key(#[trigger] l[j], dir) == entry_key(es[i], dir) by {
        assert(ent.contains(es[i]));
        let q = choose|q: int| 0 <= q < ent.len() && ent[q] == es[i];
        lemma_dedup_keys(ent, dir, entry_key(es[i], dir));
        assert(entry_key(ent[q], dir) == entry_key(es[i], dir));
    }
    assert forall|j: int| #![trigger l[j]] 0 <= j < l.len() implies exists|i: int|
        0 <= i < es.len() && entry_key(#[trigger] es[i], dir) == edge_key(l[j], dir) by {
        lemma_dedup_keys(ent, dir, edge_key(l[j], dir));
        let q = choose|q: int| 0 <= q < ent.len() && entry_key(#[trigger] ent[q], dir) == edge_key(l[j], dir);
    }
}

/// As many listed edges as added ones: the keys are the same, without repeats.
#[verifier::rlimit(60)]
proof fn lemma_listed_count(g: &Graph<u64>, es: Seq<(usize, usize, u64)>)
    requires
        built_from(g, es),
        keys_distinct(es, g.directed),
    ensures
        listed_edges(g).len() == es.len(),
{
    let dir = g.directed;
    let l = listed_edges(g);
    lemma_listed_keys(g, es);
    lemma_dedup_distinct(entries_upto(g.adj@, g.n as int), dir);
    let kl = Seq::new(l.len(), |j: int| edge_key(l[j], dir));
    let ke = Seq::new(es.len(), |i: int| entry_key(es[i], dir));
    assert(kl.no_duplicates());
    assert(ke.no_duplicates());
    assert forall|key: (usize, usize, u64)| kl.to_set().contains(key) <==> ke.to_set().contains(key) by {
        if kl.to_set().contains(key) {
            let j = choose|j: int| 0 <= j < kl.len() && kl[j] == key;
            assert(l[j] == l[j]);
            let i = choose|i: int| 0 <= i < es.len() && entry_key(#[trigger] es[i], dir) == edge_key(l[j], dir);
            assert(ke[i] == key);
        }
        if ke.to_set().contains(key) {
            let i = choose|i: int| 0 <= i < ke.len() && ke[i] == key;
            assert(es[i] == es[i]);
            let j = choose|j: int| 0 <= j < l.len() && edge_key(#[trigger] l[j], dir) == entry_key(es[i], dir);
            assert(kl[j] == key);
        }
    }
    assert(kl.to_set() =~= ke.to_set());
    kl.unique_seq_to_set();
    ke.unique_seq_to_set();
}

/// In an undirected built graph each listed edge has its smaller end first: the
/// entry of the other end comes in an earlier row.
proof fn lemma_listed_smaller_first(g: &Graph<u64>, es: Seq<(usize, usize, u64)>)
    requires
        built_from(g, es),
        !g.directed,
    ensures
        forall|j: int| 0 <= j < listed_edges(g).len() ==> (#[trigger] listed_edges(g)[j]).from <= listed_edges(g)[j].to,
{
    let dir = g.directed;
    let ent = entries_upto(g.adj@, g.n as int);
    let l = listed_edges(g);
    lemma_entries(g.adj@, g.n as int);
    assert forall|j: int| 0 <= j < l.len() implies (#[trigger] l[j]).from <= l[j].to by {
        lemma_dedup_first(ent, dir, j);
        let m = choose|m: int|
            0 <= m < ent.len() && #[trigger] ent[m] == (l[j].from, l[j].to, l[j].weight)
                && forall|m2: int| 0 <= m2 < m ==> entry_key(#[trigger] ent[m2], dir) != entry_key(ent[m], dir);
        if l[j].from > l[j].to {
            let t = ent[m];
            lemma_entry_added(g, es, m);
            assert(ent.contains((t.1, t.0, t.2)));
            let q = choose|q: int| 0 <= q < ent.len() && ent[q] == (t.1, t.0, t.2);
            if q > m {
                assert(ent[m].0 <= ent[q].0);
            }
            assert(entry_key(ent[q], dir) == entry_key(ent[m], dir));
        }
    }
}

/// For a graph built from `n` empty rows by adding the edges `es` in order
/// (as `new` or `new_directed` followed by `add_edge` calls, or `from_edge_list`,
/// build it), no two of them the same edge: the edge list holds one edge for
/// each added edge and nothing else, as many as `edge_count` counts, with
/// nondecreasing first vertices, and the smaller end first when undirected.
pub proof fn law_edge_list_of_added_edges(g: &Graph<u64>, es: Seq<(usize, usize, u64)>)
    requires
        built_from(g, es),
        keys_distinct(es, g.directed),
    ensures
        listed_edges(g).len() == es.len(),
        g.edge_total() == es.len(),
        forall|i: int| #![trigger es[i]] 0 <= i < es.len() ==> exists|j: int|
            0 <= j < listed_edges(g).len() && edge_key(#[trigger] listed_edges(g)[j], g.directed) == entry_key(es[i], g.directed),
        forall|j: int| #![trigger listed_edges(g)[j]] 0 <= j < listed_edges(g).len() ==> exists|i: int|
            0 <= i < es.len() && entry_key(#[trigger] es[i], g.directed) == edge_key(listed_edges(g)[j], g.directed),
        forall|a: int, b: int|
            0 <= a < b < listed_edges(g).len() ==> edge_key(#[trigger] listed_edges(g)[a], g.directed) != edge_key(
                #[trigger] listed_edges(g)[b],
                g.directed,
            ),
        forall|a: int, b: int|
            0 <= a < b < listed_edges(g).len() ==> (#[trigger] listed_edges(g)[a]).from <= (#[trigger] listed_edges(g)[b]).from,
        !g.directed ==> forall|j: int| 0 <= j < listed_edges(g).len() ==> (#[trigger] listed_edges(g)[j]).from <= listed_edges(g)[j].to,
{
    let ent = entries_upto(g.adj@, g.n as int);
    lemma_listed_keys(g, es);
    lemma_listed_count(g, es);
    lemma_dedup_distinct(ent, g.directed);
    lemma_entries(g.adj@, g.n as int);
    lemma_dedup_from_order(ent, g.directed);
    if !g.directed {
        lemma_listed_smaller_first(g, es);
    }
    // the number of entries
    lemma_rows_built(g.n as nat, es, g.directed);
    lemma_total_len_adj(g.adj@);
    assert(g.rows() == g.adj@.map_values(|r: Vec<(usize, u64)>| r@));
}

} // verus!
