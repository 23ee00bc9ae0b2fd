//! Union-find and minimum spanning trees (Kruskal and Prim) over graphs whose
//! weights are integer keys ordered like the weights they stand for.
use vstd::prelude::*;
use vstd::set_lib::*;
use vstd::arithmetic::power2::*;
use crate::graph::{
    Edge, Graph, dedup_entries, edge_key, entries_upto, entry_key, row_entries, lemma_closed_holds_reachable, lemma_dedup_keys,
    lemma_reach_refl, lemma_reach_step,
};
use crate::seq_facts::lemma_distinct_bounded_missing;
use crate::traversal::falses;
use crate::mst_weight::{lemma_prim_cycle_light, lemma_prim_forest};

verus! {

/// Union-Find (Disjoint Set Union) with path compression and union by rank.
pub struct UnionFind {
    parent: Vec<usize>,
    rank: Vec<usize>,
}

/// Parent links stay in range and strictly raise the rank.
pub open spec fn links_ok(parent: Seq<usize>, rank: Seq<usize>) -> bool {
    &&& parent.len() == rank.len()
    &&& forall|x: int| 0 <= x < parent.len() ==> (#[trigger] parent[x]) < parent.len()
    &&& forall|x: int|
        0 <= x < parent.len() && #[trigger] parent[x] != x ==> rank[x] < rank[parent[x] as int]
}

/// The root reached from `x` by following parent links.
pub open spec fn root_of(parent: Seq<usize>, rank: Seq<usize>, x: int) -> int
    decreases usize::MAX - rank[x],
    when links_ok(parent, rank) && 0 <= x < parent.len()
{
    if parent[x] == x {
        x
    } else {
        root_of(parent, rank, parent[x] as int)
    }
}

/// `z` lies on the path of parent links from `x` to its root (both ends included).
pub open spec fn on_path(parent: Seq<usize>, rank: Seq<usize>, x: int, z: int) -> bool
    decreases usize::MAX - rank[x],
    when links_ok(parent, rank) && 0 <= x < parent.len()
{
    z == x || (parent[x] != x && on_path(parent, rank, parent[x] as int, z))
}

/// Every vertex on the path from `x` has the root of `x`.
pub proof fn lemma_path_root(parent: Seq<usize>, rank: Seq<usize>, x: int, z: int)
    requires
        links_ok(parent, rank),
        0 <= x < parent.len(),
        on_path(parent, rank, x, z),
    ensures
        0 <= z < parent.len(),
        root_of(parent, rank, z) == root_of(parent, rank, x),
    decreases usize::MAX - rank[x],
{
    if z != x {
        lemma_path_root(parent, rank, parent[x] as int, z);
    }
}

/// The root of `x` lies on the path from `x`.
pub proof fn lemma_root_on_path(parent: Seq<usize>, rank: Seq<usize>, x: int)
    requires
        links_ok(parent, rank),
        0 <= x < parent.len(),
    ensures
        on_path(parent, rank, x, root_of(parent, rank, x)),
    decreases usize::MAX - rank[x],
{
    if parent[x] != x {
        lemma_root_on_path(parent, rank, parent[x] as int);
    }
}

/// A path from a vertex on the path from `x` stays on the path from `x`.
pub proof fn lemma_path_trans(parent: Seq<usize>, rank: Seq<usize>, x: int, y: int, z: int)
    requires
        links_ok(parent, rank),
        0 <= x < parent.len(),
        on_path(parent, rank, x, y),
        on_path(parent, rank, y, z),
    ensures
        on_path(parent, rank, x, z),
    decreases usize::MAX - rank[x],
{
    if y != x {
        lemma_path_trans(parent, rank, parent[x] as int, y, z);
    }
}

/// After the path from `x` is pointed at its root, the path from `y` holds only
/// vertices of the old paths from `y` or from `x`, and keeps every vertex of the
/// old path from `y` that is not on the path from `x`.
pub proof fn lemma_path_after_compress(p0: Seq<usize>, p1: Seq<usize>, rank: Seq<usize>, x: int, y: int, z: int)
    requires
        links_ok(p0, rank),
        links_ok(p1, rank),
        0 <= x < p0.len(),
        0 <= y < p0.len(),
        p1.len() == p0.len(),
        forall|w: int| 0 <= w < p0.len() ==> #[trigger] p1[w] == if on_path(p0, rank, x, w) {
            root_of(p0, rank, x) as usize
        } else {
            p0[w]
        },
    ensures
        on_path(p1, rank, y, z) ==> on_path(p0, rank, y, z) || on_path(p0, rank, x, z),
        on_path(p0, rank, y, z) && !on_path(p0, rank, x, z) ==> on_path(p1, rank, y, z),
    decreases usize::MAX - rank[y],
{
    let rx = root_of(p0, rank, x);
    lemma_root_props(p0, rank, x);
    lemma_root_on_path(p0, rank, x);
    if on_path(p0, rank, x, y) {
        assert(p1[y] == rx as usize);
        assert(p1[rx] == rx as usize);
        if on_path(p1, rank, y, z) && z != y {
            assert(on_path(p1, rank, rx, z));
            assert(z == rx);
        }
        if on_path(p0, rank, y, z) {
            lemma_path_trans(p0, rank, x, y, z);
        }
    } else {
        assert(p1[y] == p0[y]);
        if p0[y] != y {
            lemma_path_after_compress(p0, p1, rank, x, p0[y] as int, z);
        }
    }
}

/// The elements whose root is `r`.
pub open spec fn class_of(parent: Seq<usize>, rank: Seq<usize>, r: int) -> Set<int> {
    Set::new(|z: int| 0 <= z < parent.len() && root_of(parent, rank, z) == r)
}

/// Union by rank: every root of rank `k` has at least `2^k` elements in its set.
pub open spec fn ranks_bounded(parent: Seq<usize>, rank: Seq<usize>) -> bool {
    forall|r: int| 0 <= r < parent.len() && parent[r] == r ==> pow2(rank[r] as nat) <= #[trigger] class_of(parent, rank, r).len()
}

/// A set of elements is finite and no larger than the number of elements.
pub proof fn lemma_class_finite(parent: Seq<usize>, rank: Seq<usize>, r: int)
    ensures
        class_of(parent, rank, r).finite(),
        class_of(parent, rank, r).len() <= parent.len(),
{
    lemma_int_range(0, parent.len() as int);
    assert(class_of(parent, rank, r).subset_of(set_int_range(0, parent.len() as int)));
    lemma_len_subset(class_of(parent, rank, r), set_int_range(0, parent.len() as int));
}

/// The elements that are their own parent.
pub open spec fn roots_set(parent: Seq<usize>) -> Set<int> {
    Set::new(|x: int| 0 <= x < parent.len() && parent[x] == x)
}

/// The roots are a finite set of at most `parent.len()` elements.
pub proof fn lemma_roots_finite(parent: Seq<usize>)
    ensures
        roots_set(parent).finite(),
        roots_set(parent).len() <= parent.len(),
{
    let r = Set::new(|x: int| 0 <= x < parent.len());
    lemma_int_range(0, parent.len() as int);
    assert(r =~= set_int_range(0, parent.len() as int));
    assert(roots_set(parent).subset_of(r));
    lemma_len_subset(roots_set(parent), r);
}

/// The root of `x` is a root in range, of rank at least that of `x`, and strictly
/// greater when `x` is not itself a root.
pub proof fn lemma_root_props(parent: Seq<usize>, rank: Seq<usize>, x: int)
    requires
        links_ok(parent, rank),
        0 <= x < parent.len(),
    ensures
        0 <= root_of(parent, rank, x) < parent.len(),
        parent[root_of(parent, rank, x)] == root_of(parent, rank, x),
        rank[x] <= rank[root_of(parent, rank, x)],
        parent[x] != x ==> rank[x] < rank[root_of(parent, rank, x)],
        parent[x] != x ==> root_of(parent, rank, x) != x,
        parent[x] != x ==> root_of(parent, rank, x) == root_of(parent, rank, parent[x] as int),
    decreases usize::MAX - rank[x],
{
    if parent[x] != x {
        lemma_root_props(parent, rank, parent[x] as int);
    }
}

/// Pointing `x` straight at its root keeps every root.
pub proof fn lemma_compress(parent: Seq<usize>, rank: Seq<usize>, x: int, z: int)
    requires
        links_ok(parent, rank),
        0 <= x < parent.len(),
        0 <= z < parent.len(),
    ensures
        links_ok(parent.update(x, root_of(parent, rank, x) as usize), rank),
        root_of(parent.update(x, root_of(parent, rank, x) as usize), rank, z) == root_of(
            parent,
            rank,
            z,
        ),
    decreases usize::MAX - rank[z],
{
    let r = root_of(parent, rank, x);
    lemma_root_props(parent, rank, x);
    let p2 = parent.update(x, r as usize);
    assert forall|y: int|
        0 <= y < p2.len() && #[trigger] p2[y] != y implies rank[y] < rank[p2[y] as int] by {
        if y == x {
        } else {
        }
    }
    assert(links_ok(p2, rank));
    lemma_root_props(parent, rank, z);
    if z == x {
        if parent[x] != x {
            assert(root_of(p2, rank, r) == r);
        }
    } else if parent[z] != z {
        lemma_compress(parent, rank, x, parent[z] as int);
    }
}

/// Linking root `a` below root `b` (raising the rank of `b` by `bump`) moves the
/// class of `a` into that of `b` and leaves every other root alone.
pub proof fn lemma_link(parent: Seq<usize>, rank: Seq<usize>, a: int, b: int, new_rank: Seq<usize>, z: int)
    requires
        links_ok(parent, rank),
        0 <= a < parent.len(),
        0 <= b < parent.len(),
        a != b,
        parent[a] == a,
        parent[b] == b,
        new_rank.len() == rank.len(),
        forall|y: int| 0 <= y < rank.len() && y != b ==> new_rank[y] == rank[y],
        new_rank[b] >= rank[b],
        new_rank[a] < new_rank[b],
        0 <= z < parent.len(),
    ensures
        links_ok(parent.update(a, b as usize), new_rank),
        root_of(parent.update(a, b as usize), new_rank, z) == if root_of(parent, rank, z) == a {
            b
        } else {
            root_of(parent, rank, z)
        },
    decreases usize::MAX - rank[z],
{
    let p2 = parent.update(a, b as usize);
    assert forall|y: int|
        0 <= y < p2.len() && #[trigger] p2[y] != y implies new_rank[y] < new_rank[p2[y] as int] by {
        if y != a {
            assert(parent[y] != y);
            assert(rank[y] < rank[parent[y] as int]);
        }
    }
    assert(links_ok(p2, new_rank));
    if z == a {
        assert(root_of(p2, new_rank, b) == b);
    } else if parent[z] == z {
    } else {
        lemma_link(parent, rank, a, b, new_rank, parent[z] as int);
    }
}

/// Linking root `a` below root `b`, of rank no lower, keeps union by rank's
/// bound when `b` gains a rank only where the ranks were equal.
pub proof fn lemma_link_bounded(parent: Seq<usize>, rank: Seq<usize>, a: int, b: int, new_rank: Seq<usize>)
    requires
        links_ok(parent, rank),
        ranks_bounded(parent, rank),
        0 <= a < parent.len(),
        0 <= b < parent.len(),
        a != b,
        parent[a] == a,
        parent[b] == b,
        rank[a] <= rank[b],
        new_rank == rank || (rank[a] == rank[b] && rank[b] < usize::MAX && new_rank == rank.update(b, (rank[b] + 1) as usize)),
        new_rank[a] < new_rank[b],
    ensures
        ranks_bounded(parent.update(a, b as usize), new_rank),
{
    let p2 = parent.update(a, b as usize);
    assert forall|q: int| 0 <= q < p2.len() && p2[q] == q implies pow2(new_rank[q] as nat) <= #[trigger] class_of(p2, new_rank, q).len() by {
        assert(q != a);
        assert(parent[q] == q);
        lemma_class_finite(parent, rank, q);
        if q == b {
            assert(class_of(p2, new_rank, b) =~= class_of(parent, rank, b) + class_of(parent, rank, a)) by {
                assert forall|z: int| #[trigger] class_of(p2, new_rank, b).contains(z) <==> (class_of(parent, rank, b) + class_of(parent, rank, a)).contains(z) by {
                    if 0 <= z < parent.len() {
                        lemma_link(parent, rank, a, b, new_rank, z);
                    }
                }
            }
            lemma_class_finite(parent, rank, a);
            lemma_set_disjoint_lens(class_of(parent, rank, b), class_of(parent, rank, a));
            if new_rank != rank {
                lemma_pow2_unfold(new_rank[b] as nat);
            }
        } else {
            assert(class_of(p2, new_rank, q) =~= class_of(parent, rank, q)) by {
                assert forall|z: int| #[trigger] class_of(p2, new_rank, q).contains(z) <==> class_of(parent, rank, q).contains(z) by {
                    if 0 <= z < parent.len() {
                        lemma_link(parent, rank, a, b, new_rank, z);
                    }
                }
            }
        }
    }
}

impl UnionFind {
    /// Internal consistency: links in range and rank-raising, and no rank larger
    /// than the number of merges so far (elements minus roots).
    pub closed spec fn wf(&self) -> bool {
        &&& links_ok(self.parent@, self.rank@)
        &&& forall|x: int|
            0 <= x < self.rank@.len() ==> #[trigger] self.rank@[x] + roots_set(self.parent@).len()
                <= self.parent@.len()
        &&& ranks_bounded(self.parent@, self.rank@)
    }

    /// Union by rank keeps every rank at most the base-2 logarithm of the
    /// number of elements.
    pub proof fn lemma_rank_log(&self, x: int)
        requires
            self.wf(),
            0 <= x < self.size(),
        ensures
            pow2(self.ranks()[x] as nat) <= self.size(),
    {
        let r = root_of(self.parent@, self.rank@, x);
        lemma_root_props(self.parent@, self.rank@, x);
        lemma_class_finite(self.parent@, self.rank@, r);
        if self.rank@[x] < self.rank@[r] {
            lemma_pow2_strictly_increases(self.rank@[x] as nat, self.rank@[r] as nat);
        }
    }

    /// Number of elements.
    pub closed spec fn size(&self) -> nat {
        self.parent@.len()
    }

    /// Representative of the set that holds `x`.
    pub closed spec fn root(&self, x: int) -> int {
        root_of(self.parent@, self.rank@, x)
    }

    /// The ranks, which only bound the height of the trees.
    pub closed spec fn ranks(&self) -> Seq<usize> {
        self.rank@
    }

    /// The parent links.
    pub closed spec fn parents(&self) -> Seq<usize> {
        self.parent@
    }

    /// `z` lies on the path of parent links from `x` to its root.
    pub open spec fn on_path_of(&self, x: int, z: int) -> bool {
        on_path(self.parents(), self.ranks(), x, z)
    }

    /// `x` and `y` are in the same set.
    pub open spec fn same(&self, x: int, y: int) -> bool {
        self.root(x) == self.root(y)
    }

    /// `a` is in the set of `x` or in that of `y`.
    pub open spec fn joins(&self, a: int, x: int, y: int) -> bool {
        self.same(a, x) || self.same(a, y)
    }

    /// The parent links and the ranks hold one entry per element.
    pub proof fn lemma_lengths(&self)
        requires
            self.wf(),
        ensures
            self.parents().len() == self.size(),
            self.ranks().len() == self.size(),
    {
    }

    /// The representative of an element is an element.
    pub proof fn lemma_root_in_range(&self, x: int)
        requires
            self.wf(),
            0 <= x < self.size(),
        ensures
            0 <= self.root(x) < self.size(),
            self.root(self.root(x)) == self.root(x),
    {
        lemma_root_props(self.parent@, self.rank@, x);
    }

    /// `n` singleton sets.
    pub fn new(n: usize) -> (uf: Self)
        ensures
            uf.wf(),
            uf.size() == n,
            forall|x: int| 0 <= x < n ==> #[trigger] uf.root(x) == x,
            uf.parents() == Seq::new(n as nat, |i: int| i as usize),
            uf.ranks() == Seq::new(n as nat, |i: int| 0usize),
    {
        let mut parent: Vec<usize> = Vec::new();
        let mut rank: Vec<usize> = Vec::new();
        let mut i: usize = 0;
        while i < n
            invariant
                i <= n,
                parent@.len() == i,
                rank@.len() == i,
                forall|x: int| 0 <= x < i ==> #[trigger] parent@[x] == x,
                forall|x: int| 0 <= x < i ==> #[trigger] rank@[x] == 0,
            decreases n - i,
        {
            parent.push(i);
            rank.push(0);
            i = i + 1;
        }
        let uf = UnionFind { parent, rank };
        proof {
            assert(roots_set(uf.parent@) =~= Set::new(|x: int| 0 <= x < n));
            lemma_int_range(0, n as int);
            assert(Set::new(|x: int| 0 <= x < n) =~= set_int_range(0, n as int));
            assert forall|x: int| 0 <= x < n implies #[trigger] uf.root(x) == x by {
                assert(uf.parent@[x] == x);
            }
            assert(uf.parent@ =~= Seq::new(n as nat, |i: int| i as usize));
            assert(uf.rank@ =~= Seq::new(n as nat, |i: int| 0usize));
            lemma2_to64();
            assert forall|r: int| 0 <= r < uf.parent@.len() && uf.parent@[r] == r implies pow2(uf.rank@[r] as nat) <= #[trigger] class_of(uf.parent@, uf.rank@, r).len() by {
                assert(class_of(uf.parent@, uf.rank@, r) =~= set![r]) by {
                    assert forall|z: int| #[trigger] class_of(uf.parent@, uf.rank@, r).contains(z) <==> z == r by {
                        if 0 <= z < n {
                            assert(uf.root(z) == z);
                        }
                    }
                }
            }
        }
        uf
    }

    /// Representative of the set of `x`; shortens the path from `x` on the way.
    pub fn find(&mut self, x: usize) -> (r: usize)
        requires
            old(self).wf(),
            x < old(self).size(),
        ensures
            final(self).wf(),
            final(self).size() == old(self).size(),
            r == old(self).root(x as int),
            forall|z: int| 0 <= z < old(self).size() ==> #[trigger] final(self).root(z) == old(self).root(z),
            final(self).ranks() == old(self).ranks(),
            final(self).parents().len() == old(self).parents().len(),
            forall|z: int| 0 <= z < old(self).size() ==> #[trigger] final(self).parents()[z] == if old(self).on_path_of(x as int, z) {
                old(self).root(x as int) as usize
            } else {
                old(self).parents()[z]
            },
        decreases usize::MAX - old(self).ranks()[x as int],
    {
        proof {
            lemma_root_props(self.parent@, self.rank@, x as int);
        }
        if self.parent[x] != x {
            let p = self.parent[x];
            let ghost p0 = self.parent@;
            let ghost before: UnionFind = *self;
            let r = self.find(p);
            let ghost p1 = self.parent@;
            proof {
                assert(self.root(x as int) == before.root(x as int));
                assert(self.root(p as int) == before.root(p as int));
                lemma_root_props(p1, self.rank@, x as int);
                assert forall|z: int| 0 <= z < p1.len() implies #[trigger] root_of(
                    p1.update(x as int, r),
                    self.rank@,
                    z,
                ) == root_of(p0, self.rank@, z) by {
                        assert(self.root(z) == before.root(z));
                    lemma_compress(p1, self.rank@, x as int, z);
                }
                lemma_compress(p1, self.rank@, x as int, x as int);
                // the roots do not change, so neither does their number
                assert forall|z: int| 0 <= z < p1.len() implies (p1.update(x as int, r)[z] == z
                    <==> #[trigger] p0[z] == z) by {
                    assert(self.root(z) == before.root(z));
                    lemma_root_props(p0, self.rank@, z);
                    lemma_root_props(p1.update(x as int, r), self.rank@, z);
                    lemma_compress(p1, self.rank@, x as int, z);
                }
                assert(roots_set(p1.update(x as int, r)) =~= roots_set(p0));
                assert forall|q: int| #![trigger class_of(p1.update(x as int, r), self.rank@, q)] true implies class_of(p1.update(x as int, r), self.rank@, q) =~= class_of(p0, self.rank@, q) by {
                    assert forall|z: int| #[trigger] class_of(p1.update(x as int, r), self.rank@, q).contains(z) <==> class_of(p0, self.rank@, q).contains(z) by {
                        if 0 <= z < p0.len() {
                            lemma_compress(p1, self.rank@, x as int, z);
                            assert(self.root(z) == before.root(z));
                        }
                    }
                }
                assert(before.wf());
                assert(ranks_bounded(p0, self.rank@));
                assert forall|q: int| 0 <= q < p0.len() && p1.update(x as int, r)[q] == q implies pow2(self.rank@[q] as nat) <= #[trigger] class_of(p1.update(x as int, r), self.rank@, q).len() by {
                    assert(p0[q] == q);
                    assert(class_of(p1.update(x as int, r), self.rank@, q) =~= class_of(p0, self.rank@, q));
                }
                lemma_root_props(p0, self.rank@, x as int);
                assert forall|z: int| 0 <= z < p0.len() implies #[trigger] p1.update(x as int, r)[z] == if on_path(p0, self.rank@, x as int, z) {
                    root_of(p0, self.rank@, x as int) as usize
                } else {
                    p0[z]
                } by {
                    assert(before.parents()[z] == p0[z]);
                    assert(self.parents()[z] == p1[z]);
                }
            }
            self.parent.set(x, r);
        }
        self.parent[x]
    }

    /// The root that stays a root when the sets with roots `rx` and `ry` are
    /// merged: the one of higher rank, and `rx` on equal ranks.
    pub open spec fn union_winner(&self, rx: int, ry: int) -> int {
        if self.ranks()[rx] < self.ranks()[ry] {
            ry
        } else {
            rx
        }
    }

    /// Merge the sets of `x` and `y`; false when they already were one set.
    pub fn union(&mut self, x: usize, y: usize) -> (merged: bool)
        requires
            old(self).wf(),
            x < old(self).size(),
            y < old(self).size(),
        ensures
            final(self).wf(),
            final(self).size() == old(self).size(),
            merged == !old(self).same(x as int, y as int),
            forall|a: int, b: int|
                0 <= a < old(self).size() && 0 <= b < old(self).size() ==> (#[trigger] final(self).same(a, b)
                    <==> (old(self).same(a, b) || (old(self).joins(a, x as int, y as int)
                    && old(self).joins(b, x as int, y as int)))),
            final(self).parents().len() == old(self).parents().len(),
            ({
                let rx = old(self).root(x as int);
                let ry = old(self).root(y as int);
                let w = old(self).union_winner(rx, ry);
                let l = if w == rx { ry } else { rx };
                &&& forall|z: int| 0 <= z < old(self).size() ==> #[trigger] final(self).parents()[z] == if merged && z == l {
                    w as usize
                } else if old(self).on_path_of(x as int, z) {
                    rx as usize
                } else if old(self).on_path_of(y as int, z) {
                    ry as usize
                } else {
                    old(self).parents()[z]
                }
                &&& final(self).ranks() == if merged && old(self).ranks()[rx] == old(self).ranks()[ry] {
                    old(self).ranks().update(rx, (old(self).ranks()[rx] + 1) as usize)
                } else {
                    old(self).ranks()
                }
            }),
    {
        let ghost p0 = self.parent@;
        let ghost k0 = self.rank@;
        let ghost s0: UnionFind = *self;
        let rx = self.find(x);
        let ghost s1: UnionFind = *self;
        let ry = self.find(y);
        let ghost p1 = self.parent@;
        proof {
            assert(self.root(x as int) == s1.root(x as int));
            assert(s1.root(x as int) == s0.root(x as int));
            assert(self.root(y as int) == s1.root(y as int));
            assert(s1.root(y as int) == s0.root(y as int));
            assert forall|z: int| 0 <= z < p0.len() implies #[trigger] root_of(p1, k0, z) == root_of(p0, k0, z) by {
                assert(self.root(z) == s1.root(z));
                assert(s1.root(z) == s0.root(z));
            }
            lemma_root_props(p1, k0, x as int);
            lemma_root_props(p1, k0, y as int);
            lemma_root_props(p0, k0, x as int);
            lemma_root_props(p0, k0, y as int);
            // the parents after both compressions
            let pm = s1.parent@;
            assert(links_ok(pm, k0));
            assert forall|z: int| 0 <= z < p0.len() implies #[trigger] p1[z] == if on_path(p0, k0, x as int, z) {
                rx
            } else if on_path(p0, k0, y as int, z) {
                ry
            } else {
                p0[z]
            } by {
                assert(s1.parents()[z] == pm[z]);
                assert(s0.parents()[z] == p0[z]);
                assert(self.parents()[z] == p1[z]);
                assert(pm[z] == if on_path(p0, k0, x as int, z) { rx } else { p0[z] });
                assert(p1[z] == if on_path(pm, k0, y as int, z) { ry } else { pm[z] });
                assert forall|w: int| 0 <= w < p0.len() implies #[trigger] pm[w] == if on_path(p0, k0, x as int, w) {
                    root_of(p0, k0, x as int) as usize
                } else {
                    p0[w]
                } by {
                    assert(s1.parents()[w] == pm[w]);
                }
                lemma_path_after_compress(p0, pm, k0, x as int, y as int, z);
                if on_path(pm, k0, y as int, z) && on_path(p0, k0, x as int, z) {
                    lemma_path_root(pm, k0, y as int, z);
                    lemma_path_root(p0, k0, x as int, z);
                    assert(root_of(pm, k0, z) == s0.root(z));
                    assert(root_of(pm, k0, y as int) == s0.root(y as int));
                }
            }
        }
        if rx == ry {
            proof {
                assert(self.rank@ == k0);
            }
            return false;
        }
        proof {
            lemma_roots_finite(p1);
            assert(roots_set(p1).contains(rx as int));
            assert(roots_set(p1).contains(ry as int));
            assert(roots_set(p1).remove(rx as int).contains(ry as int));
            assert(roots_set(p1).remove(rx as int).remove(ry as int).len() + 2 == roots_set(p1).len());
            assert(self.rank@ == k0);
        }
        if self.rank[rx] < self.rank[ry] {
            proof {
                assert forall|z: int| 0 <= z < p1.len() implies #[trigger] root_of(
                    p1.update(rx as int, ry),
                    k0,
                    z,
                ) == if root_of(p1, k0, z) == rx {
                    ry as int
                } else {
                    root_of(p1, k0, z)
                } by {
                    lemma_link(p1, k0, rx as int, ry as int, k0, z);
                }
                lemma_link(p1, k0, rx as int, ry as int, k0, 0);
                assert(roots_set(p1.update(rx as int, ry)) =~= roots_set(p1).remove(rx as int));
                lemma_link_bounded(p1, k0, rx as int, ry as int, k0);
            }
            self.parent.set(rx, ry);
        } else if self.rank[rx] > self.rank[ry] {
            proof {
                assert forall|z: int| 0 <= z < p1.len() implies #[trigger] root_of(
                    p1.update(ry as int, rx),
                    k0,
                    z,
                ) == if root_of(p1, k0, z) == ry {
                    rx as int
                } else {
                    root_of(p1, k0, z)
                } by {
                    lemma_link(p1, k0, ry as int, rx as int, k0, z);
                }
                lemma_link(p1, k0, ry as int, rx as int, k0, 0);
                assert(roots_set(p1.update(ry as int, rx)) =~= roots_set(p1).remove(ry as int));
                lemma_link_bounded(p1, k0, ry as int, rx as int, k0);
            }
            self.parent.set(ry, rx);
        } else {
            let count = self.parent.len();
            proof {
                assert(count == p1.len());
                assert(k0[rx as int] + roots_set(p1).len() <= p1.len());
            }
            let ghost k1 = k0.update(rx as int, (k0[rx as int] + 1) as usize);
            proof {
                assert(k0[rx as int] + roots_set(p1).len() <= p1.len());
                assert forall|z: int| 0 <= z < p1.len() implies #[trigger] root_of(
                    p1.update(ry as int, rx),
                    k1,
                    z,
                ) == if root_of(p1, k0, z) == ry {
                    rx as int
                } else {
                    root_of(p1, k0, z)
                } by {
                    lemma_link(p1, k0, ry as int, rx as int, k1, z);
                }
                lemma_link(p1, k0, ry as int, rx as int, k1, 0);
                assert(roots_set(p1.update(ry as int, rx)) =~= roots_set(p1).remove(ry as int));
                lemma_link_bounded(p1, k0, ry as int, rx as int, k1);
            }
            self.parent.set(ry, rx);
            let bumped = self.rank[rx] + 1;
            self.rank.set(rx, bumped);
            proof {
                assert(self.rank@ =~= k1);
            }
        }
        true
    }
}

/// `x` is the start vertex or the target of one of the first `i` tree edges.
pub open spec fn in_tree(start: usize, mst: Seq<Edge<u64>>, i: int, x: usize) -> bool {
    x == start || exists|j: int| 0 <= j < i && #[trigger] mst[j].to == x
}

/// Tree edge `i` leaves the tree built so far along an edge of `g` of least
/// weight among all the edges that leave it.
pub open spec fn prim_step<W>(g: &Graph<u64>, start: usize, mst: Seq<Edge<u64>>, i: int) -> bool {
    let e = mst[i];
    &&& e.from < g.n
    &&& in_tree(start, mst, i, e.from)
    &&& !in_tree(start, mst, i, e.to)
    &&& exists|k: int|
        0 <= k < g.adj@[e.from as int]@.len() && #[trigger] g.adj@[e.from as int]@[k] == (
            e.to,
            e.weight,
        )
    &&& forall|x: usize, k: int|
        x < g.n && in_tree(start, mst, i, x) && 0 <= k < g.adj@[x as int]@.len() && !in_tree(
            start,
            mst,
            i,
            (#[trigger] g.adj@[x as int]@[k]).0,
        ) ==> e.weight <= g.adj@[x as int]@[k].1
}

/// Remove and return an entry of least weight (the first such entry).
fn pop_min(heap: &mut Vec<(u64, usize, usize)>) -> (res: (u64, usize, usize))
    requires
        old(heap)@.len() > 0,
    ensures
        exists|m: int|
            0 <= m < old(heap)@.len() && old(heap)@[m] == res && final(heap)@ == old(heap)@.remove(m),
        forall|i: int| 0 <= i < old(heap)@.len() ==> res.0 <= (#[trigger] old(heap)@[i]).0,
{
    let mut best: usize = 0;
    let mut i: usize = 1;
    while i < heap.len()
        invariant
            heap@.len() > 0,
            best < heap@.len(),
            1 <= i <= heap@.len(),
            forall|j: int| 0 <= j < i ==> heap@[best as int].0 <= (#[trigger] heap@[j]).0,
        decreases heap@.len() - i,
    {
        if heap[i].0 < heap[best].0 {
            best = i;
        }
        i = i + 1;
    }
    heap.remove(best)
}

/// Prim's MST algorithm starting from vertex `start`, on weights given as integer
/// keys ordered like the weights. Returns the tree edges in the order they join.
pub fn prim(g: &Graph<u64>, start: usize) -> (mst: Vec<Edge<u64>>)
    requires
        g.wf(),
        start < g.n,
    ensures
        is_prim_tree(g, start, mst@),
        is_forest(mst@),
        g.weight_symmetric() ==> tree_cycle_light(g, start, mst@),
{
    let n = g.n;
    let mut in_mst = falses(n);
    let mut heap: Vec<(u64, usize, usize)> = Vec::new();
    let mut mst: Vec<Edge<u64>> = Vec::new();
    in_mst.set(start, true);
    let ghost mut tv: Seq<usize> = seq![start];
    let mut k: usize = 0;
    while k < g.adj[start].len()
        invariant
            g.wf(),
            n == g.n,
            start < n,
            k <= g.adj@[start as int]@.len(),
            heap@.len() == k,
            forall|j: int| 0 <= j < k ==> #[trigger] heap@[j] == (g.adj@[start as int]@[j].1, start, g.adj@[start as int]@[j].0),
        decreases g.adj@[start as int]@.len() - k,
    {
        let (v, w) = g.adj[start][k];
        heap.push((w, start, v));
        k = k + 1;
    }
    proof {
        lemma_reach_refl(g, start as int);
        assert forall|x: usize| x < n implies (#[trigger] in_mst@[x as int] <==> in_tree(start, mst@, 0, x)) by {}
        assert forall|x: usize, j: int|
            x < n && in_tree(start, mst@, mst@.len() as int, x) && 0 <= j < g.adj@[x as int]@.len()
                && !in_tree(start, mst@, mst@.len() as int, (#[trigger] g.adj@[x as int]@[j]).0)
                implies heap@.contains((g.adj@[x as int]@[j].1, x, g.adj@[x as int]@[j].0)) by {
            assert(heap@[j] == (g.adj@[start as int]@[j].1, start, g.adj@[start as int]@[j].0));
        }
    }
    while heap.len() > 0
        invariant
            g.wf(),
            n == g.n,
            start < n,
            in_mst@.len() == n,
            tv.len() == mst@.len() + 1,
            tv[0] == start,
            tv.no_duplicates(),
            forall|i: int| 0 <= i < tv.len() ==> #[trigger] tv[i] < n,
            forall|i: int| 0 <= i < mst@.len() ==> tv[i + 1] == (#[trigger] mst@[i]).to,
            forall|x: usize| x < n ==> (#[trigger] in_mst@[x as int] <==> in_tree(start, mst@, mst@.len() as int, x)),
            forall|x: usize| in_tree(start, mst@, mst@.len() as int, x) ==> x < n && g.reachable(start as int, x as int),
            forall|i: int| 0 <= i < mst@.len() ==> #[trigger] prim_step::<u64>(g, start, mst@, i),
            forall|h: int|
                0 <= h < heap@.len() ==> (#[trigger] heap@[h]).1 < n && in_tree(start, mst@, mst@.len() as int, heap@[h].1)
                    && exists|k: int| 0 <= k < g.adj@[heap@[h].1 as int]@.len()
                    && #[trigger] g.adj@[heap@[h].1 as int]@[k] == (heap@[h].2, heap@[h].0),
            forall|x: usize, j: int|
                x < n && in_tree(start, mst@, mst@.len() as int, x) && 0 <= j < g.adj@[x as int]@.len()
                    && !in_tree(start, mst@, mst@.len() as int, (#[trigger] g.adj@[x as int]@[j]).0)
                    ==> heap@.contains((g.adj@[x as int]@[j].1, x, g.adj@[x as int]@[j].0)),
        decreases n - mst@.len(), heap@.len(),
    {
        let ghost h0 = heap@;
        let (weight, from, to) = pop_min(&mut heap);
        let ghost m = choose|m: int| 0 <= m < h0.len() && h0[m] == (weight, from, to) && heap@ == h0.remove(m);
        proof {
            let kk = choose|kk: int| 0 <= kk < g.adj@[h0[m].1 as int]@.len()
                && #[trigger] g.adj@[h0[m].1 as int]@[kk] == (h0[m].2, h0[m].0);
            assert(g.adj@[from as int]@[kk].0 < n);
        }
        if in_mst[to] {
            proof {
                assert forall|x: usize, j: int|
                    x < n && in_tree(start, mst@, mst@.len() as int, x) && 0 <= j < g.adj@[x as int]@.len()
                        && !in_tree(start, mst@, mst@.len() as int, (#[trigger] g.adj@[x as int]@[j]).0)
                        implies heap@.contains((g.adj@[x as int]@[j].1, x, g.adj@[x as int]@[j].0)) by {
                    let e = (g.adj@[x as int]@[j].1, x, g.adj@[x as int]@[j].0);
                    assert(h0.contains(e));
                    let q = choose|q: int| 0 <= q < h0.len() && h0[q] == e;
                    assert(q != m);
                    if q < m {
                        assert(heap@[q] == e);
                    } else {
                        assert(heap@[q - 1] == e);
                    }
                }
                assert forall|h: int| 0 <= h < heap@.len() implies (#[trigger] heap@[h]).1 < n && in_tree(start, mst@, mst@.len() as int, heap@[h].1)
                    && exists|k: int| 0 <= k < g.adj@[heap@[h].1 as int]@.len()
                    && #[trigger] g.adj@[heap@[h].1 as int]@[k] == (heap@[h].2, heap@[h].0) by {
                    if h < m {
                        assert(heap@[h] == h0[h]);
                    } else {
                        assert(heap@[h] == h0[h + 1]);
                    }
                }
            }
            continue;
        }
        let ghost mst0 = mst@;
        let ghost tv0 = tv;
        proof {
            let kk = choose|kk: int| 0 <= kk < g.adj@[from as int]@.len()
                && #[trigger] g.adj@[from as int]@[kk] == (to, weight);
            assert(to < n);
            assert(!in_tree(start, mst0, mst0.len() as int, to));
            assert(!tv.contains(to)) by {
                if tv.contains(to) {
                    let q = choose|q: int| 0 <= q < tv.len() && tv[q] == to;
                    if q > 0 {
                        assert(mst0[q - 1].to == to);
                    }
                }
            }
            lemma_distinct_bounded_missing(tv, n, to);
            assert(g.has_edge(from as int, to as int));
            lemma_reach_step(g, start as int, from as int, to as int);
            // greedy: every edge leaving the tree is still waiting in the heap
            assert forall|x: usize, j: int|
                x < n && in_tree(start, mst0, mst0.len() as int, x) && 0 <= j < g.adj@[x as int]@.len()
                    && !in_tree(start, mst0, mst0.len() as int, (#[trigger] g.adj@[x as int]@[j]).0)
                    implies weight <= g.adj@[x as int]@[j].1 by {
                let e = (g.adj@[x as int]@[j].1, x, g.adj@[x as int]@[j].0);
                assert(h0.contains(e));
                let q = choose|q: int| 0 <= q < h0.len() && h0[q] == e;
                assert(weight <= h0[q].0);
            }
        }
        in_mst.set(to, true);
        mst.push(Edge { from, to, weight });
        proof {
            tv = tv.push(to);
            let mst1 = mst@;
            assert forall|j: int| 0 <= j < mst0.len() implies #[trigger] mst1[j] == mst0[j] by {}
            assert forall|i: int, x: usize| 0 <= i <= mst0.len() implies (in_tree(start, mst1, i, x) <==> in_tree(start, mst0, i, x)) by {
                if in_tree(start, mst1, i, x) && x != start {
                    let j = choose|j: int| 0 <= j < i && #[trigger] mst1[j].to == x;
                    assert(mst0[j].to == x);
                }
                if in_tree(start, mst0, i, x) && x != start {
                    let j = choose|j: int| 0 <= j < i && #[trigger] mst0[j].to == x;
                    assert(mst1[j].to == x);
                }
            }
            assert forall|x: usize| in_tree(start, mst1, mst1.len() as int, x) <==> (in_tree(start, mst0, mst0.len() as int, x) || x == to) by {
                if in_tree(start, mst1, mst1.len() as int, x) && x != start && x != to {
                    let j = choose|j: int| 0 <= j < mst1.len() && #[trigger] mst1[j].to == x;
                    assert(j < mst0.len());
                    assert(mst0[j].to == x);
                }
                if in_tree(start, mst0, mst0.len() as int, x) && x != start {
                    let j = choose|j: int| 0 <= j < mst0.len() && #[trigger] mst0[j].to == x;
                    assert(mst1[j].to == x);
                }
                if x == to {
                    assert(mst1[mst0.len() as int].to == to);
                }
            }
            assert forall|i: int| 0 <= i < mst1.len() implies #[trigger] prim_step::<u64>(g, start, mst1, i) by {
                if i < mst0.len() {
                    assert(prim_step::<u64>(g, start, mst0, i));
                    assert(mst1[i] == mst0[i]);
                    assert forall|x: usize| in_tree(start, mst1, i, x) <==> in_tree(start, mst0, i, x) by {}
                } else {
                    assert(mst1[i] == Edge { from, to, weight });
                    assert forall|x: usize| in_tree(start, mst1, i, x) <==> in_tree(start, mst0, i, x) by {}
                    let kk = choose|kk: int| 0 <= kk < g.adj@[from as int]@.len()
                        && #[trigger] g.adj@[from as int]@[kk] == (to, weight);
                    assert(g.adj@[mst1[i].from as int]@[kk] == (mst1[i].to, mst1[i].weight));
                }
            }
            assert forall|i: int| 0 <= i < mst1.len() implies tv[i + 1] == (#[trigger] mst1[i]).to by {
                if i < mst0.len() {
                    assert(tv0[i + 1] == mst0[i].to);
                }
            }
            assert forall|x: usize| x < n implies (#[trigger] in_mst@[x as int] <==> in_tree(start, mst1, mst1.len() as int, x)) by {}
            assert forall|h: int| 0 <= h < heap@.len() implies (#[trigger] heap@[h]).1 < n && in_tree(start, mst1, mst1.len() as int, heap@[h].1)
                && exists|k: int| 0 <= k < g.adj@[heap@[h].1 as int]@.len()
                && #[trigger] g.adj@[heap@[h].1 as int]@[k] == (heap@[h].2, heap@[h].0) by {
                if h < m {
                    assert(heap@[h] == h0[h]);
                } else {
                    assert(heap@[h] == h0[h + 1]);
                }
            }
            assert forall|x: usize, j: int|
                x < n && in_tree(start, mst1, mst1.len() as int, x) && x != to && 0 <= j < g.adj@[x as int]@.len()
                    && !in_tree(start, mst1, mst1.len() as int, (#[trigger] g.adj@[x as int]@[j]).0)
                    implies heap@.contains((g.adj@[x as int]@[j].1, x, g.adj@[x as int]@[j].0)) by {
                let e = (g.adj@[x as int]@[j].1, x, g.adj@[x as int]@[j].0);
                assert(h0.contains(e));
                let q = choose|q: int| 0 <= q < h0.len() && h0[q] == e;
                assert(q != m);
                if q < m {
                    assert(heap@[q] == e);
                } else {
                    assert(heap@[q - 1] == e);
                }
            }
        }
        let ghost heap_base = heap@;
        let mut k: usize = 0;
        while k < g.adj[to].len()
            invariant
                g.wf(),
                n == g.n,
                to < n,
                in_mst@.len() == n,
                in_mst@[to as int],
                forall|x: usize| x < n ==> (#[trigger] in_mst@[x as int] <==> in_tree(start, mst@, mst@.len() as int, x)),
                in_tree(start, mst@, mst@.len() as int, to),
                k <= g.adj@[to as int]@.len(),
                heap@.len() >= heap_base.len(),
                forall|h: int| 0 <= h < heap_base.len() ==> #[trigger] heap@[h] == heap_base[h],
                forall|h: int|
                    0 <= h < heap@.len() ==> (#[trigger] heap@[h]).1 < n && in_tree(start, mst@, mst@.len() as int, heap@[h].1)
                        && exists|k: int| 0 <= k < g.adj@[heap@[h].1 as int]@.len()
                        && #[trigger] g.adj@[heap@[h].1 as int]@[k] == (heap@[h].2, heap@[h].0),
                forall|j: int|
                    0 <= j < k && !in_tree(start, mst@, mst@.len() as int, (#[trigger] g.adj@[to as int]@[j]).0)
                        ==> heap@.contains((g.adj@[to as int]@[j].1, to, g.adj@[to as int]@[j].0)),
            decreases g.adj@[to as int]@.len() - k,
        {
            let (v, w) = g.adj[to][k];
            let ghost hk = heap@;
            proof {
                assert(g.adj@[to as int]@[k as int].0 < n);
            }
            if !in_mst[v] {
                heap.push((w, to, v));
                proof {
                    assert(heap@[hk.len() as int] == (w, to, v));
                    assert(g.adj@[to as int]@[k as int] == (v, w));
                    assert forall|j: int|
                        0 <= j < k + 1 && !in_tree(start, mst@, mst@.len() as int, (#[trigger] g.adj@[to as int]@[j]).0)
                            implies heap@.contains((g.adj@[to as int]@[j].1, to, g.adj@[to as int]@[j].0)) by {
                        if j < k {
                            let e = (g.adj@[to as int]@[j].1, to, g.adj@[to as int]@[j].0);
                            let q = choose|q: int| 0 <= q < hk.len() && hk[q] == e;
                            assert(heap@[q] == e);
                        } else {
                            assert(heap@[hk.len() as int] == (g.adj@[to as int]@[j].1, to, g.adj@[to as int]@[j].0));
                        }
                    }
                }
            }
            k = k + 1;
        }
        proof {
            assert forall|x: usize, j: int|
                x < n && in_tree(start, mst@, mst@.len() as int, x) && 0 <= j < g.adj@[x as int]@.len()
                    && !in_tree(start, mst@, mst@.len() as int, (#[trigger] g.adj@[x as int]@[j]).0)
                    implies heap@.contains((g.adj@[x as int]@[j].1, x, g.adj@[x as int]@[j].0)) by {
                if x != to {
                    let e = (g.adj@[x as int]@[j].1, x, g.adj@[x as int]@[j].0);
                    assert(heap_base.contains(e));
                    let q = choose|q: int| 0 <= q < heap_base.len() && heap_base[q] == e;
                    assert(heap@[q] == e);
                }
            }
        }
    }
    proof {
        assert forall|y: usize| #[trigger] in_tree(start, mst@, mst@.len() as int, y) <==> (y < g.n && g.reachable(start as int, y as int)) by {
            if y < g.n && g.reachable(start as int, y as int) {
                let set = Set::new(|x: int| 0 <= x < n && in_tree(start, mst@, mst@.len() as int, x as usize));
                assert forall|x: int, z: int| set.contains(x) && #[trigger] g.has_edge(x, z) implies set.contains(z) by {
                    let j = choose|j: int| 0 <= j < g.adj@[x]@.len() && (#[trigger] g.adj@[x]@[j]).0 == z;
                    assert(g.adj@[x]@[j].0 < n);
                    if !in_tree(start, mst@, mst@.len() as int, z as usize) {
                        assert(g.adj@[(x as usize) as int]@[j] == g.adj@[x]@[j]);
                        assert(heap@.contains((g.adj@[x]@[j].1, x as usize, g.adj@[x]@[j].0)));
                    }
                }
                lemma_closed_holds_reachable(g, start as int, y as int, set);
            }
        }
        lemma_prim_forest(g, start, mst@);
        if g.weight_symmetric() {
            lemma_prim_cycle_light(g, start, mst@);
        }
    }
    mst
}

/// Step `i` of `p` uses an edge of `es`, in either direction.
pub open spec fn link_step(es: Seq<Edge<u64>>, p: Seq<usize>, i: int) -> bool {
    exists|j: int|
        0 <= j < es.len() && ((#[trigger] es[j].from == p[i] && es[j].to == p[i + 1]) || (es[j].to
            == p[i] && es[j].from == p[i + 1]))
}

/// `p` is a path from `a` to `b` along edges of `es`.
pub open spec fn link_path(es: Seq<Edge<u64>>, p: Seq<usize>, a: int, b: int) -> bool {
    &&& p.len() >= 1
    &&& p[0] == a
    &&& p.last() == b
    &&& forall|i: int| 0 <= i < p.len() - 1 ==> #[trigger] link_step(es, p, i)
}

/// `a` and `b` are joined by a path of edges of `es`, each usable in either direction.
pub open spec fn linked(es: Seq<Edge<u64>>, a: int, b: int) -> bool {
    exists|p: Seq<usize>| #[trigger] link_path(es, p, a, b)
}

/// The edges Kruskal's rule keeps from `s`: an edge is kept when fewer than
/// `n - 1` edges are kept so far and its endpoints are not yet joined by them.
pub open spec fn kruskal_pick(n: nat, s: Seq<Edge<u64>>) -> Seq<Edge<u64>>
    decreases s.len(),
{
    if s.len() == 0 {
        Seq::empty()
    } else {
        let m = kruskal_pick(n, s.drop_last());
        let e = s.last();
        if m.len() + 1 < n && !linked(m, e.from as int, e.to as int) {
            m.push(e)
        } else {
            m
        }
    }
}

/// No edge of `es` joins two vertices that the edges before it join already.
pub open spec fn is_forest(es: Seq<Edge<u64>>) -> bool {
    forall|i: int| 0 <= i < es.len() ==> !linked(es.take(i), (#[trigger] es[i]).from as int, es[i].to as int)
}

/// `es` joins the two ends of every edge of `g`.
pub open spec fn spans<W>(g: &Graph<W>, es: Seq<Edge<u64>>) -> bool {
    forall|a: int, b: int| #[trigger] g.has_edge(a, b) ==> linked(es, a, b)
}

/// `e` is an entry of `g`: an edge from `e.from` to `e.to` of weight `e.weight`.
pub open spec fn is_entry(g: &Graph<u64>, e: Edge<u64>) -> bool {
    &&& e.from < g.n
    &&& exists|k: int|
        0 <= k < g.adj@[e.from as int]@.len() && #[trigger] g.adj@[e.from as int]@[k] == (e.to, e.weight)
}

/// The ends of every entry of `g` are joined by edges of `es` no heavier than it.
pub open spec fn cycle_light(g: &Graph<u64>, es: Seq<Edge<u64>>) -> bool {
    forall|a: int, k: int|
        0 <= a < g.n && 0 <= k < g.adj@[a]@.len() ==> linked(
            light(es, (#[trigger] g.adj@[a]@[k]).1),
            a,
            g.adj@[a]@[k].0 as int,
        )
}

/// `es` is a spanning forest of `g`: entries of `g`, without a cycle, that join
/// the ends of every edge of `g`.
pub open spec fn is_spanning_forest(g: &Graph<u64>, es: Seq<Edge<u64>>) -> bool {
    &&& forall|i: int| 0 <= i < es.len() ==> is_entry(g, #[trigger] es[i])
    &&& is_forest(es)
    &&& spans(g, es)
}


/// What `prim` returns from `start`: each edge leaves the tree built so far along
/// a lightest edge that leaves it, and the tree holds the vertices reachable from `start`.
pub open spec fn is_prim_tree(g: &Graph<u64>, start: usize, p: Seq<Edge<u64>>) -> bool {
    &&& forall|i: int| 0 <= i < p.len() ==> #[trigger] prim_step::<u64>(g, start, p, i)
    &&& forall|y: usize|
        #[trigger] in_tree(start, p, p.len() as int, y) <==> (y < g.n && g.reachable(start as int, y as int))
}

/// The ends of every entry from a vertex of the tree are joined by tree edges
/// no heavier than it.
pub open spec fn tree_cycle_light(g: &Graph<u64>, start: usize, p: Seq<Edge<u64>>) -> bool {
    forall|a: int, k: int|
        0 <= a < g.n && in_tree(start, p, p.len() as int, a as usize) && 0 <= k < g.adj@[a]@.len() ==> linked(
            light(p, (#[trigger] g.adj@[a]@[k]).1),
            a,
            g.adj@[a]@[k].0 as int,
        )
}

/// `k` occurs in `perm`.
pub open spec fn listed(perm: Seq<int>, k: int) -> bool {
    exists|i: int| 0 <= i < perm.len() && #[trigger] perm[i] == k
}

/// `s` is `es` ordered by weight, equal weights kept in their order in `es`:
/// position `i` of `s` holds entry `perm[i]` of `es`.
pub open spec fn stably_sorted(es: Seq<Edge<u64>>, s: Seq<Edge<u64>>, perm: Seq<int>) -> bool {
    &&& perm.len() == es.len()
    &&& s.len() == es.len()
    &&& forall|i: int| 0 <= i < perm.len() ==> 0 <= #[trigger] perm[i] < es.len()
    &&& forall|i: int| 0 <= i < s.len() ==> #[trigger] s[i] == es[perm[i]]
    &&& forall|k: int| 0 <= k < es.len() ==> #[trigger] listed(perm, k)
    &&& forall|i: int, j: int|
        0 <= i < j < s.len() ==> (#[trigger] s[i]).weight < (#[trigger] s[j]).weight || (
        s[i].weight == s[j].weight && perm[i] < perm[j])
}

pub proof fn lemma_linked_refl(es: Seq<Edge<u64>>, a: int)
    requires
        0 <= a <= usize::MAX,
    ensures
        linked(es, a, a),
{
    assert(link_path(es, seq![a as usize], a, a));
}

pub proof fn lemma_linked_sym(es: Seq<Edge<u64>>, a: int, b: int)
    requires
        linked(es, a, b),
    ensures
        linked(es, b, a),
{
    let p = choose|p: Seq<usize>| #[trigger] link_path(es, p, a, b);
    let q = p.reverse();
    let l = p.len() as int;
    assert forall|i: int| 0 <= i < q.len() - 1 implies #[trigger] link_step(es, q, i) by {
        assert(link_step(es, p, l - 2 - i));
        let j = choose|j: int|
            0 <= j < es.len() && ((#[trigger] es[j].from == p[l - 2 - i] && es[j].to == p[l - 1 - i]) || (es[j].to
                == p[l - 2 - i] && es[j].from == p[l - 1 - i]));
        assert(q[i] == p[l - 1 - i]);
        assert(q[i + 1] == p[l - 2 - i]);
        assert(es[j].from == q[i] || es[j].to == q[i]);
    }
    assert(link_path(es, q, b, a));
}

pub proof fn lemma_linked_trans(es: Seq<Edge<u64>>, a: int, b: int, c: int)
    requires
        linked(es, a, b),
        linked(es, b, c),
    ensures
        linked(es, a, c),
{
    let p = choose|p: Seq<usize>| #[trigger] link_path(es, p, a, b);
    let q = choose|q: Seq<usize>| #[trigger] link_path(es, q, b, c);
    let r = p + q.drop_first();
    assert forall|i: int| 0 <= i < r.len() - 1 implies #[trigger] link_step(es, r, i) by {
        if i < p.len() - 1 {
            assert(link_step(es, p, i));
            assert(r[i] == p[i] && r[i + 1] == p[i + 1]);
        } else {
            let j = i - p.len() + 1;
            assert(link_step(es, q, j));
            assert(r[i] == q[j]);
            assert(r[i + 1] == q[j + 1]);
        }
    }
    if q.len() == 1 {
        assert(r =~= p);
    }
    assert(link_path(es, r, a, c));
}

pub proof fn lemma_linked_edge(es: Seq<Edge<u64>>, j: int)
    requires
        0 <= j < es.len(),
    ensures
        linked(es, es[j].from as int, es[j].to as int),
{
    let p = seq![es[j].from, es[j].to];
    assert(link_step(es, p, 0));
    assert(link_path(es, p, es[j].from as int, es[j].to as int));
}

pub proof fn lemma_linked_grow(es: Seq<Edge<u64>>, e: Edge<u64>, a: int, b: int)
    requires
        linked(es, a, b),
    ensures
        linked(es.push(e), a, b),
{
    let p = choose|p: Seq<usize>| #[trigger] link_path(es, p, a, b);
    assert forall|i: int| 0 <= i < p.len() - 1 implies #[trigger] link_step(es.push(e), p, i) by {
        assert(link_step(es, p, i));
        let j = choose|j: int|
            0 <= j < es.len() && ((#[trigger] es[j].from == p[i] && es[j].to == p[i + 1]) || (es[j].to
                == p[i] && es[j].from == p[i + 1]));
        assert(es.push(e)[j] == es[j]);
    }
    assert(link_path(es.push(e), p, a, b));
}

pub proof fn lemma_linked_empty(a: int, b: int)
    requires
        linked(Seq::<Edge<u64>>::empty(), a, b),
    ensures
        a == b,
{
    let p = choose|p: Seq<usize>| #[trigger] link_path(Seq::<Edge<u64>>::empty(), p, a, b);
    if p.len() > 1 {
        assert(link_step(Seq::<Edge<u64>>::empty(), p, 0));
    }
}

/// Joined by the edges plus `e`: joined already, or both ends joined to an end of `e`.
proof fn lemma_linked_push(es: Seq<Edge<u64>>, e: Edge<u64>, a: int, b: int)
    requires
        linked(es.push(e), a, b),
    ensures
        linked(es, a, b) || ((linked(es, a, e.from as int) || linked(es, a, e.to as int)) && (
        linked(es, b, e.from as int) || linked(es, b, e.to as int))),
{
    let p = choose|p: Seq<usize>| #[trigger] link_path(es.push(e), p, a, b);
    lemma_linked_push_prefix(es, e, p, a, p.len() - 1);
    if !linked(es, a, b) {
        // a is joined to an end of e, and so is p.last() == b
        assert(linked(es, p[p.len() - 1] as int, e.from as int) || linked(es, p[p.len() - 1] as int, e.to as int));
    }
}

proof fn lemma_linked_push_prefix(es: Seq<Edge<u64>>, e: Edge<u64>, p: Seq<usize>, a: int, i: int)
    requires
        p.len() >= 1,
        p[0] == a,
        forall|q: int| 0 <= q < p.len() - 1 ==> #[trigger] link_step(es.push(e), p, q),
        0 <= i < p.len(),
    ensures
        linked(es, a, p[i] as int) || ((linked(es, a, e.from as int) || linked(es, a, e.to as int))
            && (linked(es, p[i] as int, e.from as int) || linked(es, p[i] as int, e.to as int))),
    decreases i,
{
    if i == 0 {
        lemma_linked_refl(es, a);
    } else {
        lemma_linked_push_prefix(es, e, p, a, i - 1);
        assert(link_step(es.push(e), p, i - 1));
        let j = choose|j: int|
            0 <= j < es.push(e).len() && ((#[trigger] es.push(e)[j].from == p[i - 1] && es.push(e)[j].to == p[i])
                || (es.push(e)[j].to == p[i - 1] && es.push(e)[j].from == p[i]));
        let x = p[i - 1] as int;
        let y = p[i] as int;
        if j < es.len() {
            assert(es.push(e)[j] == es[j]);
            lemma_linked_edge(es, j);
            if es[j].from == p[i - 1] {
                assert(linked(es, x, y));
            } else {
                lemma_linked_sym(es, es[j].from as int, es[j].to as int);
                assert(linked(es, x, y));
            }
            lemma_linked_sym(es, x, y);
            if linked(es, a, x) {
                lemma_linked_trans(es, a, x, y);
            } else {
                if linked(es, x, e.from as int) {
                    lemma_linked_trans(es, y, x, e.from as int);
                }
                if linked(es, x, e.to as int) {
                    lemma_linked_trans(es, y, x, e.to as int);
                }
            }
        } else {
            assert(es.push(e)[j] == e);
            lemma_linked_refl(es, y);
            if linked(es, a, x) {
                if e.from == p[i - 1] {
                    assert(linked(es, a, e.from as int));
                } else {
                    assert(linked(es, a, e.to as int));
                }
            }
        }
    }
}

/// Once `n - 1` edges are kept, no later edge is.
proof fn lemma_pick_full(n: nat, s: Seq<Edge<u64>>, t: int)
    requires
        0 <= t <= s.len(),
        kruskal_pick(n, s.take(t)).len() + 1 >= n,
    ensures
        kruskal_pick(n, s) == kruskal_pick(n, s.take(t)),
    decreases s.len() - t,
{
    if t < s.len() {
        assert(s.take(t + 1).drop_last() =~= s.take(t));
        lemma_pick_full(n, s, t + 1);
    } else {
        assert(s.take(t) =~= s);
    }
}

/// What Kruskal's rule keeps: edges of `s`, each joining two vertices that the
/// edges kept before it leave apart; and every edge of `s` ends up with its
/// endpoints joined, unless `n - 1` edges were kept.
proof fn lemma_pick_props(n: nat, s: Seq<Edge<u64>>)
    ensures
        forall|i: int| 0 <= i < kruskal_pick(n, s).len() ==> s.contains(#[trigger] kruskal_pick(n, s)[i]),
        forall|i: int| 0 <= i < kruskal_pick(n, s).len() ==> !linked(
            kruskal_pick(n, s).take(i),
            (#[trigger] kruskal_pick(n, s)[i]).from as int,
            kruskal_pick(n, s)[i].to as int,
        ),
        forall|j: int| 0 <= j < s.len() ==> linked(kruskal_pick(n, s), (#[trigger] s[j]).from as int, s[j].to as int)
            || kruskal_pick(n, s).len() + 1 >= n,
    decreases s.len(),
{
    if s.len() > 0 {
        let s1 = s.drop_last();
        lemma_pick_props(n, s1);
        let m1 = kruskal_pick(n, s1);
        let m = kruskal_pick(n, s);
        let e = s.last();
        assert forall|i: int| 0 <= i < m.len() implies s.contains(#[trigger] m[i]) by {
            if i < m1.len() {
                assert(m[i] == m1[i]);
                assert(s1.contains(m1[i]));
                let j = choose|j: int| 0 <= j < s1.len() && s1[j] == m1[i];
                assert(s[j] == s1[j]);
            } else {
                assert(m[i] == e);
                assert(s[s.len() - 1] == e);
            }
        }
        assert forall|i: int| 0 <= i < m.len() implies !linked(m.take(i), (#[trigger] m[i]).from as int, m[i].to as int) by {
            if i < m1.len() {
                assert(m[i] == m1[i]);
                assert(m.take(i) =~= m1.take(i));
                assert(!linked(m1.take(i), m1[i].from as int, m1[i].to as int));
            } else {
                assert(m.take(i) =~= m1);
            }
        }
        assert forall|j: int| 0 <= j < s.len() implies linked(m, (#[trigger] s[j]).from as int, s[j].to as int)
            || m.len() + 1 >= n by {
            if j < s1.len() {
                assert(s[j] == s1[j]);
                if m != m1 && linked(m1, s1[j].from as int, s1[j].to as int) {
                    lemma_linked_grow(m1, e, s1[j].from as int, s1[j].to as int);
                }
            } else if m != m1 {
                assert(m[m1.len() as int] == e);
                lemma_linked_edge(m, m1.len() as int);
            }
        }
    }
}

/// Each entry of the rows below `u` appears among their triples.
proof fn lemma_entries_contain(adj: Seq<Vec<(usize, u64)>>, u: int, a: int, k: int)
    requires
        0 <= a < u,
        0 <= k < adj[a]@.len(),
        a <= usize::MAX,
    ensures
        exists|j: int| 0 <= j < entries_upto(adj, u).len() && #[trigger] entries_upto(adj, u)[j] == (a as usize, adj[a]@[k].0, adj[a]@[k].1),
    decreases u,
{
    let pre = entries_upto(adj, u - 1);
    let row = row_entries(u - 1, adj[u - 1]@);
    if a == u - 1 {
        assert(entries_upto(adj, u)[pre.len() + k] == row[k]);
    } else {
        lemma_entries_contain(adj, u - 1, a, k);
        let j = choose|j: int| 0 <= j < pre.len() && #[trigger] pre[j] == (a as usize, adj[a]@[k].0, adj[a]@[k].1);
        assert(entries_upto(adj, u)[j] == pre[j]);
    }
}

/// Each triple of the rows below `u` is an entry of its source's row.
proof fn lemma_entries_are_edges(g: &Graph<u64>, u: int, j: int)
    requires
        g.wf(),
        0 <= u <= g.n,
        0 <= j < entries_upto(g.adj@, u).len(),
    ensures
        g.has_edge(entries_upto(g.adj@, u)[j].0 as int, entries_upto(g.adj@, u)[j].1 as int),
        entries_upto(g.adj@, u)[j].0 < g.n,
        exists|k: int|
            0 <= k < g.adj@[entries_upto(g.adj@, u)[j].0 as int]@.len() && #[trigger] g.adj@[entries_upto(
                g.adj@,
                u,
            )[j].0 as int]@[k] == (entries_upto(g.adj@, u)[j].1, entries_upto(g.adj@, u)[j].2),
    decreases u,
{
    let pre = entries_upto(g.adj@, u - 1);
    let row = row_entries(u - 1, g.adj@[u - 1]@);
    if j < pre.len() {
        assert(entries_upto(g.adj@, u)[j] == pre[j]);
        lemma_entries_are_edges(g, u - 1, j);
    } else {
        let k = j - pre.len();
        assert(entries_upto(g.adj@, u)[j] == row[k]);
        assert(g.adj@[u - 1]@[k].0 == row[k].1);
    }
}

/// Each kept edge is one of the entries.
proof fn lemma_dedup_member(es: Seq<(usize, usize, u64)>, directed: bool, i: int)
    requires
        0 <= i < dedup_entries(es, directed).len(),
    ensures
        exists|j: int| 0 <= j < es.len() && #[trigger] es[j] == (
            dedup_entries(es, directed)[i].from,
            dedup_entries(es, directed)[i].to,
            dedup_entries(es, directed)[i].weight,
        ),
    decreases es.len(),
{
    let d = dedup_entries(es.drop_last(), directed);
    if i < d.len() {
        assert(dedup_entries(es, directed)[i] == d[i]);
        lemma_dedup_member(es.drop_last(), directed, i);
        let j = choose|j: int| 0 <= j < es.drop_last().len() && #[trigger] es.drop_last()[j] == (d[i].from, d[i].to, d[i].weight);
        assert(es[j] == es.drop_last()[j]);
    } else {
        assert(es[es.len() - 1] == es.last());
    }
}

/// `x` is the least vertex of its class: no smaller vertex is joined to it.
pub open spec fn is_rep(es: Seq<Edge<u64>>, x: int) -> bool {
    forall|y: int| 0 <= y < x ==> !#[trigger] linked(es, y, x)
}

/// The least vertices of the classes of the vertices below `n`: one for each
/// class that the edges `es` leave.
pub open spec fn reps(es: Seq<Edge<u64>>, n: int) -> Set<int> {
    Set::new(|x: int| 0 <= x < n && is_rep(es, x))
}

pub proof fn lemma_reps_finite(es: Seq<Edge<u64>>, n: int)
    requires
        0 <= n,
    ensures
        reps(es, n).finite(),
        reps(es, n).len() <= n,
{
    lemma_int_range(0, n);
    assert(reps(es, n).subset_of(set_int_range(0, n)));
    lemma_len_subset(reps(es, n), set_int_range(0, n));
}

/// Every vertex is joined to the least vertex of its class.
pub proof fn lemma_rep_exists(es: Seq<Edge<u64>>, a: int)
    requires
        0 <= a <= usize::MAX,
    ensures
        exists|r: int| 0 <= r <= a && #[trigger] is_rep(es, r) && linked(es, r, a),
    decreases a,
{
    if is_rep(es, a) {
        lemma_linked_refl(es, a);
        assert(is_rep(es, a) && linked(es, a, a));
    } else {
        let y = choose|y: int| 0 <= y < a && #[trigger] linked(es, y, a);
        lemma_rep_exists(es, y);
        let r = choose|r: int| 0 <= r <= y && #[trigger] is_rep(es, r) && linked(es, r, y);
        lemma_linked_trans(es, r, y, a);
        assert(is_rep(es, r) && linked(es, r, a));
    }
}

/// A class has one least vertex.
proof fn lemma_rep_unique(es: Seq<Edge<u64>>, r1: int, r2: int)
    requires
        0 <= r1,
        0 <= r2,
        is_rep(es, r1),
        is_rep(es, r2),
        linked(es, r1, r2),
    ensures
        r1 == r2,
{
    if r2 < r1 {
        lemma_linked_sym(es, r1, r2);
    }
}

/// An edge between two classes merges them: one least vertex fewer.
pub proof fn lemma_reps_push(es: Seq<Edge<u64>>, e: Edge<u64>, n: int)
    requires
        e.from < n,
        e.to < n,
        n <= usize::MAX + 1,
        !linked(es, e.from as int, e.to as int),
    ensures
        reps(es.push(e), n).len() + 1 == reps(es, n).len(),
{
    let f = e.from as int;
    let t = e.to as int;
    let es2 = es.push(e);
    lemma_rep_exists(es, f);
    lemma_rep_exists(es, t);
    let rf = choose|r: int| 0 <= r <= f && #[trigger] is_rep(es, r) && linked(es, r, f);
    let rt = choose|r: int| 0 <= r <= t && #[trigger] is_rep(es, r) && linked(es, r, t);
    assert(rf != rt) by {
        if rf == rt {
            lemma_linked_sym(es, rf, f);
            lemma_linked_trans(es, f, rf, t);
        }
    }
    let hi = if rf < rt { rt } else { rf };
    let lo = if rf < rt { rf } else { rt };
    // `lo` and `hi` are joined once `e` is in
    lemma_linked_edge(es2, es.len() as int);
    assert(es2[es.len() as int] == e);
    lemma_linked_grow(es, e, rf, f);
    lemma_linked_grow(es, e, rt, t);
    lemma_linked_sym(es2, rt, t);
    lemma_linked_trans(es2, rf, f, t);
    lemma_linked_trans(es2, rf, t, rt);
    if rt < rf {
        lemma_linked_sym(es2, rf, rt);
    }
    assert(linked(es2, lo, hi));
    assert forall|x: int| #[trigger] reps(es2, n).contains(x) <==> reps(es, n).remove(hi).contains(x) by {
        if reps(es2, n).contains(x) {
            assert forall|y: int| 0 <= y < x implies !#[trigger] linked(es, y, x) by {
                if linked(es, y, x) {
                    lemma_linked_grow(es, e, y, x);
                }
            }
            assert(x != hi) by {
                if x == hi {
                    assert(!linked(es2, lo, hi));
                }
            }
        }
        if reps(es, n).contains(x) && x != hi {
            assert forall|y: int| 0 <= y < x implies !#[trigger] linked(es2, y, x) by {
                if linked(es2, y, x) {
                    lemma_linked_push(es, e, y, x);
                    assert(!linked(es, y, x));
                    // x is the least vertex of the class of an end of e
                    if linked(es, x, f) {
                        lemma_linked_sym(es, rf, f);
                        lemma_linked_sym(es, x, f);
                        lemma_linked_trans(es, rf, f, x);
                        lemma_rep_unique(es, rf, x);
                    } else {
                        assert(linked(es, x, t));
                        lemma_linked_sym(es, rt, t);
                        lemma_linked_sym(es, x, t);
                        lemma_linked_trans(es, rt, t, x);
                        lemma_rep_unique(es, rt, x);
                    }
                    assert(x == lo);
                    // y is joined to the class of one end of e, whose least vertex is at most lo
                    let r = if linked(es, y, f) { rf } else { rt };
                    if linked(es, y, f) {
                        lemma_linked_sym(es, rf, f);
                        lemma_linked_trans(es, y, f, rf);
                    } else {
                        lemma_linked_sym(es, rt, t);
                        lemma_linked_trans(es, y, t, rt);
                    }
                    assert(linked(es, y, r));
                    assert(r >= lo);
                    if r == lo {
                        assert(!linked(es, y, lo));
                    } else {
                        assert(r == hi);
                        assert(!linked(es, y, hi));
                    }
                }
            }
        }
    }
    assert(reps(es2, n) =~= reps(es, n).remove(hi));
    lemma_reps_finite(es, n);
    assert(reps(es, n).contains(hi));
}

/// Without edges, every vertex is a class of its own.
pub proof fn lemma_reps_empty(n: int)
    requires
        0 <= n,
    ensures
        reps(Seq::<Edge<u64>>::empty(), n).len() == n,
{
    assert forall|x: int| #[trigger] reps(Seq::<Edge<u64>>::empty(), n).contains(x) <==> set_int_range(0, n).contains(x) by {
        if 0 <= x < n {
            assert forall|y: int| 0 <= y < x implies !#[trigger] linked(Seq::<Edge<u64>>::empty(), y, x) by {
                if linked(Seq::<Edge<u64>>::empty(), y, x) {
                    lemma_linked_empty(y, x);
                }
            }
        }
    }
    assert(reps(Seq::<Edge<u64>>::empty(), n) =~= set_int_range(0, n));
    lemma_int_range(0, n);
}

/// Kruskal's rule leaves one class per vertex, less one for each edge it keeps.
proof fn lemma_pick_count(n: nat, s: Seq<Edge<u64>>)
    requires
        n <= usize::MAX + 1,
        forall|j: int| 0 <= j < s.len() ==> (#[trigger] s[j]).from < n && s[j].to < n,
    ensures
        reps(kruskal_pick(n, s), n as int).len() + kruskal_pick(n, s).len() == n,
    decreases s.len(),
{
    if s.len() == 0 {
        lemma_reps_empty(n as int);
    } else {
        let s1 = s.drop_last();
        assert forall|j: int| 0 <= j < s1.len() implies (#[trigger] s1[j]).from < n && s1[j].to < n by {
            assert(s1[j] == s[j]);
        }
        lemma_pick_count(n, s1);
        let m1 = kruskal_pick(n, s1);
        let e = s.last();
        assert(s[s.len() - 1] == e);
        if m1.len() + 1 < n && !linked(m1, e.from as int, e.to as int) {
            lemma_reps_push(m1, e, n as int);
        }
    }
}

/// When at most one class is left, every two vertices are joined.
proof fn lemma_one_rep(es: Seq<Edge<u64>>, n: int, a: int, b: int)
    requires
        n <= usize::MAX + 1,
        reps(es, n).len() <= 1,
        0 <= a < n,
        0 <= b < n,
    ensures
        linked(es, a, b),
{
    lemma_reps_finite(es, n);
    lemma_rep_exists(es, a);
    lemma_rep_exists(es, b);
    let ra = choose|r: int| 0 <= r <= a && #[trigger] is_rep(es, r) && linked(es, r, a);
    let rb = choose|r: int| 0 <= r <= b && #[trigger] is_rep(es, r) && linked(es, r, b);
    if ra != rb {
        let two = set![ra, rb];
        assert(two.subset_of(reps(es, n)));
        lemma_len_subset(two, reps(es, n));
        assert(two.len() == 2);
    }
    lemma_linked_sym(es, ra, a);
    lemma_linked_trans(es, a, ra, b);
}

/// The edges of `es` that weigh at most `w`, in order.
pub open spec fn light(es: Seq<Edge<u64>>, w: u64) -> Seq<Edge<u64>>
    decreases es.len(),
{
    if es.len() == 0 {
        Seq::empty()
    } else {
        let l = light(es.drop_last(), w);
        if es.last().weight <= w {
            l.push(es.last())
        } else {
            l
        }
    }
}

/// When every edge weighs at most `w`, all of them are light.
proof fn lemma_light_all(es: Seq<Edge<u64>>, w: u64)
    requires
        forall|i: int| 0 <= i < es.len() ==> (#[trigger] es[i]).weight <= w,
    ensures
        light(es, w) == es,
    decreases es.len(),
{
    if es.len() > 0 {
        assert forall|i: int| 0 <= i < es.drop_last().len() implies (#[trigger] es.drop_last()[i]).weight <= w by {
            assert(es.drop_last()[i] == es[i]);
        }
        lemma_light_all(es.drop_last(), w);
        assert(es[es.len() - 1] == es.last());
        assert(es.drop_last().push(es.last()) =~= es);
    }
}

/// On edges in order of weight, Kruskal's rule joins the ends of every edge by
/// kept edges that are no heavier than it.
proof fn lemma_pick_light(n: nat, s: Seq<Edge<u64>>)
    requires
        n <= usize::MAX + 1,
        forall|j: int| 0 <= j < s.len() ==> (#[trigger] s[j]).from < n && s[j].to < n,
        forall|i: int, j: int| 0 <= i < j < s.len() ==> (#[trigger] s[i]).weight <= (#[trigger] s[j]).weight,
    ensures
        forall|j: int| 0 <= j < s.len() ==> linked(
            light(kruskal_pick(n, s), (#[trigger] s[j]).weight),
            s[j].from as int,
            s[j].to as int,
        ),
    decreases s.len(),
{
    if s.len() > 0 {
        let s1 = s.drop_last();
        assert forall|j: int| 0 <= j < s1.len() implies (#[trigger] s1[j]).from < n && s1[j].to < n by {
            assert(s1[j] == s[j]);
        }
        assert forall|i: int, j: int| 0 <= i < j < s1.len() implies (#[trigger] s1[i]).weight <= (#[trigger] s1[j]).weight by {
            assert(s1[i] == s[i] && s1[j] == s[j]);
        }
        lemma_pick_light(n, s1);
        let m1 = kruskal_pick(n, s1);
        let m = kruskal_pick(n, s);
        let e = s.last();
        assert(s[s.len() - 1] == e);
        assert forall|j: int| 0 <= j < s.len() implies linked(light(m, (#[trigger] s[j]).weight), s[j].from as int, s[j].to as int) by {
            let w = s[j].weight;
            if j < s1.len() {
                assert(s[j] == s1[j]);
                assert(linked(light(m1, w), s1[j].from as int, s1[j].to as int));
                if m != m1 {
                    assert(m == m1.push(e));
                    assert(m.drop_last() =~= m1);
                    if e.weight <= w {
                        lemma_linked_grow(light(m1, w), e, s[j].from as int, s[j].to as int);
                    }
                }
            } else if m != m1 {
                assert(m.drop_last() =~= m1);
                let l = light(m, w);
                assert(l == light(m1, w).push(e));
                assert(l[l.len() - 1] == e);
                lemma_linked_edge(l, l.len() - 1);
            } else {
                // the ends of e were joined already, by lighter edges
                lemma_pick_props(n, s1);
                assert forall|i: int| 0 <= i < m1.len() implies (#[trigger] m1[i]).weight <= w by {
                    assert(s1.contains(m1[i]));
                    let q = choose|q: int| 0 <= q < s1.len() && s1[q] == m1[i];
                    assert(s[q] == s1[q]);
                }
                lemma_light_all(m1, w);
                if !linked(m1, e.from as int, e.to as int) {
                    lemma_pick_count(n, s1);
                    lemma_one_rep(m1, n as int, e.from as int, e.to as int);
                }
            }
        }
    }
}

/// Order edges by weight; equal weights keep their order (insertion sort).
pub fn sort_by_weight(edges: &Vec<Edge<u64>>) -> (sorted: Vec<Edge<u64>>)
    ensures
        exists|perm: Seq<int>| #[trigger] stably_sorted(edges@, sorted@, perm),
{
    let mut sorted: Vec<Edge<u64>> = Vec::new();
    let ghost mut perm: Seq<int> = Seq::empty();
    let mut t: usize = 0;
    while t < edges.len()
        invariant
            t <= edges@.len(),
            stably_sorted(edges@.take(t as int), sorted@, perm),
        decreases edges@.len() - t,
    {
        let e = edges[t];
        let mut p: usize = 0;
        while p < sorted.len() && sorted[p].weight <= e.weight
            invariant
                p <= sorted@.len(),
                forall|i: int| 0 <= i < p ==> (#[trigger] sorted@[i]).weight <= e.weight,
            decreases sorted@.len() - p,
        {
            p = p + 1;
        }
        let ghost s0 = sorted@;
        let ghost es0 = edges@.take(t as int);
        let ghost es1 = edges@.take(t + 1);
        sorted.insert(p, e);
        proof {
            let perm1 = perm.insert(p as int, t as int);
            assert forall|i: int| 0 <= i < es0.len() implies #[trigger] es1[i] == es0[i] by {}
            assert(es1[t as int] == e);
            assert forall|kk: int| 0 <= kk < es1.len() implies #[trigger] listed(perm1, kk) by {
                if kk < t {
                    assert(listed(perm, kk));
                    let i = choose|i: int| 0 <= i < perm.len() && #[trigger] perm[i] == kk;
                    if i < p {
                        assert(perm1[i] == kk);
                    } else {
                        assert(perm1[i + 1] == kk);
                    }
                } else {
                    assert(perm1[p as int] == kk);
                }
            }
            assert forall|i: int| 0 <= i < perm1.len() implies 0 <= #[trigger] perm1[i] < es1.len() by {
                if i < p {
                    assert(perm1[i] == perm[i]);
                } else if i > p {
                    assert(perm1[i] == perm[i - 1]);
                }
            }
            assert forall|i: int| 0 <= i < sorted@.len() implies #[trigger] sorted@[i] == es1[perm1[i]] by {
                if i < p {
                    assert(sorted@[i] == s0[i]);
                    assert(perm1[i] == perm[i]);
                } else if i > p {
                    assert(sorted@[i] == s0[i - 1]);
                    assert(perm1[i] == perm[i - 1]);
                }
            }
            assert forall|i: int, j: int| 0 <= i < j < sorted@.len() implies (#[trigger] sorted@[i]).weight < (
            #[trigger] sorted@[j]).weight || (sorted@[i].weight == sorted@[j].weight && perm1[i] < perm1[j]) by {
                if j < p {
                    assert(sorted@[i] == s0[i] && sorted@[j] == s0[j]);
                    assert(perm1[i] == perm[i] && perm1[j] == perm[j]);
                } else if j == p {
                    assert(sorted@[i] == s0[i]);
                    assert(perm1[i] == perm[i]);
                } else if i < p {
                    assert(sorted@[i] == s0[i] && sorted@[j] == s0[j - 1]);
                    assert(perm1[i] == perm[i] && perm1[j] == perm[j - 1]);
                    if s0[j - 1].weight < s0[i].weight {
                        assert(s0[i].weight < s0[j - 1].weight || s0[i].weight == s0[j - 1].weight);
                    }
                } else if i == p {
                    assert(sorted@[j] == s0[j - 1]);
                    assert(s0[p as int].weight > e.weight);
                    if j - 1 > p {
                        assert(s0[p as int].weight <= s0[j - 1].weight);
                    }
                } else {
                    assert(sorted@[i] == s0[i - 1] && sorted@[j] == s0[j - 1]);
                    assert(perm1[i] == perm[i - 1] && perm1[j] == perm[j - 1]);
                }
            }
            perm = perm1;
        }
        t = t + 1;
    }
    proof {
        assert(edges@.take(t as int) =~= edges@);
    }
    sorted
}

/// Kruskal's MST algorithm: the edges of the edge list, ordered by weight (equal
/// weights in edge-list order), that Kruskal's rule keeps.
pub fn kruskal(g: &Graph<u64>) -> (mst: Vec<Edge<u64>>)
    requires
        g.wf(),
    ensures
        exists|s: Seq<Edge<u64>>, perm: Seq<int>|
            #[trigger] stably_sorted(
                dedup_entries(entries_upto(g.adj@, g.n as int), g.directed),
                s,
                perm,
            ) && mst@ == kruskal_pick(g.n as nat, s),
        is_spanning_forest(g, mst@),
        cycle_light(g, mst@),
{
    let n = g.n;
    let edges = g.edge_list();
    let sorted = sort_by_weight(&edges);
    let ghost perm = choose|perm: Seq<int>| #[trigger] stably_sorted(edges@, sorted@, perm);
    proof {
        assert forall|i: int| 0 <= i < sorted@.len() implies (#[trigger] sorted@[i]).from < n && sorted@[i].to < n by {
            lemma_edges_in_range(g, perm[i]);
        }
    }
    let mut uf = UnionFind::new(n);
    let mut mst: Vec<Edge<u64>> = Vec::new();
    let mut t: usize = 0;
    proof {
        assert forall|a: int, b: int| 0 <= a < n && 0 <= b < n implies (#[trigger] uf.same(a, b) <==> linked(mst@, a, b)) by {
            if linked(mst@, a, b) {
                assert(mst@ =~= Seq::<Edge<u64>>::empty());
                lemma_linked_empty(a, b);
            }
            if a == b {
                lemma_linked_refl(mst@, a);
            }
        }
        assert(sorted@.take(0) =~= Seq::<Edge<u64>>::empty());
    }
    while t < sorted.len()
        invariant
            n == g.n,
            t <= sorted@.len(),
            uf.wf(),
            uf.size() == n,
            mst@ == kruskal_pick(n as nat, sorted@.take(t as int)),
            forall|i: int| 0 <= i < sorted@.len() ==> (#[trigger] sorted@[i]).from < n && sorted@[i].to < n,
            forall|a: int, b: int| 0 <= a < n && 0 <= b < n ==> (#[trigger] uf.same(a, b) <==> linked(mst@, a, b)),
        ensures
            t < sorted@.len() ==> n == 0 || mst@.len() + 1 >= n,
            t <= sorted@.len(),
            mst@ == kruskal_pick(n as nat, sorted@.take(t as int)),
        decreases sorted@.len() - t,
    {
        if n == 0 || mst.len() >= n - 1 {
            break;
        }
        let e = sorted[t];
        let ghost m0 = mst@;
        let ghost u0 = uf;
        proof {
            assert(sorted@.take(t + 1).drop_last() =~= sorted@.take(t as int));
            assert(sorted@.take(t + 1).last() == e);
        }
        if uf.union(e.from, e.to) {
            mst.push(e);
            proof {
                assert forall|a: int, b: int| 0 <= a < n && 0 <= b < n implies (#[trigger] uf.same(a, b) <==> linked(mst@, a, b)) by {
                    let x = e.from as int;
                    let y = e.to as int;
                    assert(uf.same(a, b) <==> (u0.same(a, b) || (u0.joins(a, x, y) && u0.joins(b, x, y))));
                    assert(u0.same(a, x) <==> linked(m0, a, x));
                    assert(u0.same(a, y) <==> linked(m0, a, y));
                    assert(u0.same(b, x) <==> linked(m0, b, x));
                    assert(u0.same(b, y) <==> linked(m0, b, y));
                    assert(u0.same(a, b) <==> linked(m0, a, b));
                    if linked(mst@, a, b) {
                        lemma_linked_push(m0, e, a, b);
                    }
                    lemma_linked_edge(mst@, m0.len() as int);
                    assert(mst@[m0.len() as int] == e);
                    if u0.same(a, b) {
                        lemma_linked_grow(m0, e, a, b);
                    } else if u0.joins(a, x, y) && u0.joins(b, x, y) {
                        lemma_linked_sym(mst@, x, y);
                        if linked(m0, a, x) {
                            lemma_linked_grow(m0, e, a, x);
                        } else {
                            lemma_linked_grow(m0, e, a, y);
                            lemma_linked_trans(mst@, a, y, x);
                        }
                        if linked(m0, b, x) {
                            lemma_linked_grow(m0, e, b, x);
                        } else {
                            lemma_linked_grow(m0, e, b, y);
                            lemma_linked_trans(mst@, b, y, x);
                        }
                        lemma_linked_sym(mst@, b, x);
                        lemma_linked_trans(mst@, a, x, b);
                    }
                }
            }
        } else {
            proof {
                assert(u0.same(e.from as int, e.to as int));
                assert forall|a: int, b: int| 0 <= a < n && 0 <= b < n implies (#[trigger] uf.same(a, b) <==> linked(mst@, a, b)) by {
                    assert(uf.same(a, b) <==> u0.same(a, b));
                }
            }
        }
        t = t + 1;
    }
    proof {
        if t < sorted@.len() {
            lemma_pick_full(n as nat, sorted@, t as int);
        } else {
            assert(sorted@.take(t as int) =~= sorted@);
        }
        assert(stably_sorted(dedup_entries(entries_upto(g.adj@, g.n as int), g.directed), sorted@, perm));
        let ents = entries_upto(g.adj@, g.n as int);
        let es = dedup_entries(ents, g.directed);
        lemma_pick_props(n as nat, sorted@);
        assert forall|i: int| 0 <= i < mst@.len() implies is_entry(g, #[trigger] mst@[i]) by {
            assert(sorted@.contains(mst@[i]));
            let j = choose|j: int| 0 <= j < sorted@.len() && sorted@[j] == mst@[i];
            assert(sorted@[j] == es[perm[j]]);
            lemma_dedup_member(ents, g.directed, perm[j]);
            let q = choose|q: int| 0 <= q < ents.len() && #[trigger] ents[q] == (es[perm[j]].from, es[perm[j]].to, es[perm[j]].weight);
            lemma_entries_are_edges(g, g.n as int, q);
        }
        lemma_pick_count(n as nat, sorted@);
        assert forall|i: int, j: int| 0 <= i < j < sorted@.len() implies (#[trigger] sorted@[i]).weight <= (#[trigger] sorted@[j]).weight by {
        }
        lemma_pick_light(n as nat, sorted@);
        assert forall|a: int, k: int| 0 <= a < g.n && 0 <= k < g.adj@[a]@.len() implies linked(
            light(mst@, (#[trigger] g.adj@[a]@[k]).1),
            a,
            g.adj@[a]@[k].0 as int,
        ) by {
            lemma_entries_contain(g.adj@, g.n as int, a, k);
            let ent = (a as usize, g.adj@[a]@[k].0, g.adj@[a]@[k].1);
            let key = entry_key(ent, g.directed);
            let q = choose|q: int| 0 <= q < ents.len() && #[trigger] ents[q] == ent;
            assert(entry_key(ents[q], g.directed) == key);
            lemma_dedup_keys(ents, g.directed, key);
            let i = choose|i: int| 0 <= i < es.len() && edge_key(#[trigger] es[i], g.directed) == key;
            assert(listed(perm, i));
            let j = choose|j: int| 0 <= j < perm.len() && #[trigger] perm[j] == i;
            assert(sorted@[j] == es[i]);
            let f = sorted@[j].from as int;
            let t2 = sorted@[j].to as int;
            let w = g.adj@[a]@[k].1;
            assert(sorted@[j].weight == w);
            assert(linked(light(mst@, w), f, t2));
            if !(f == a && t2 == g.adj@[a]@[k].0) {
                lemma_linked_sym(light(mst@, w), f, t2);
            }
        }
        assert forall|a: int, b: int| #[trigger] g.has_edge(a, b) implies linked(mst@, a, b) by {
            let k = choose|k: int| 0 <= k < g.adj@[a]@.len() && (#[trigger] g.adj@[a]@[k]).0 == b;
            assert(g.adj@[a]@[k].0 < g.n);
            if mst@.len() + 1 >= g.n {
                lemma_one_rep(mst@, n as int, a, b);
            }
            lemma_entries_contain(g.adj@, g.n as int, a, k);
            let ent = (a as usize, g.adj@[a]@[k].0, g.adj@[a]@[k].1);
            let key = entry_key(ent, g.directed);
            let q = choose|q: int| 0 <= q < ents.len() && #[trigger] ents[q] == ent;
            assert(entry_key(ents[q], g.directed) == key);
            lemma_dedup_keys(ents, g.directed, key);
            let i = choose|i: int| 0 <= i < es.len() && edge_key(#[trigger] es[i], g.directed) == key;
            assert(listed(perm, i));
            let j = choose|j: int| 0 <= j < perm.len() && #[trigger] perm[j] == i;
            assert(sorted@[j] == es[i]);
            let f = sorted@[j].from as int;
            let t2 = sorted@[j].to as int;
            assert((f == a && t2 == b) || (f == b && t2 == a));
            if linked(mst@, f, t2) && !(f == a && t2 == b) {
                lemma_linked_sym(mst@, f, t2);
            }
        }
    }
    mst
}

/// The edges of the edge list join vertices of the graph.
proof fn lemma_edges_in_range(g: &Graph<u64>, i: int)
    requires
        g.wf(),
        0 <= i < dedup_entries(entries_upto(g.adj@, g.n as int), g.directed).len(),
    ensures
        dedup_entries(entries_upto(g.adj@, g.n as int), g.directed)[i].from < g.n,
        dedup_entries(entries_upto(g.adj@, g.n as int), g.directed)[i].to < g.n,
{
    lemma_entries_in_range(g, g.n as int);
    lemma_dedup_from(entries_upto(g.adj@, g.n as int), g.directed, g.n as int, i);
}

proof fn lemma_entries_in_range(g: &Graph<u64>, u: int)
    requires
        g.wf(),
        0 <= u <= g.n,
    ensures
        forall|j: int| 0 <= j < entries_upto(g.adj@, u).len() ==> (#[trigger] entries_upto(g.adj@, u)[j]).0 < g.n
            && entries_upto(g.adj@, u)[j].1 < g.n,
    decreases u,
{
    if u > 0 {
        lemma_entries_in_range(g, u - 1);
        let a = entries_upto(g.adj@, u - 1);
        let b = row_entries(u - 1, g.adj@[u - 1]@);
        assert forall|j: int| 0 <= j < entries_upto(g.adj@, u).len() implies (#[trigger] entries_upto(g.adj@, u)[j]).0 < g.n
            && entries_upto(g.adj@, u)[j].1 < g.n by {
            if j < a.len() {
                assert(entries_upto(g.adj@, u)[j] == a[j]);
            } else {
                assert(entries_upto(g.adj@, u)[j] == b[j - a.len()]);
                assert(g.adj@[u - 1]@[j - a.len()].0 < g.n);
            }
        }
    }
}

proof fn lemma_dedup_from(es: Seq<(usize, usize, u64)>, directed: bool, n: int, i: int)
    requires
        forall|j: int| 0 <= j < es.len() ==> (#[trigger] es[j]).0 < n && es[j].1 < n,
        0 <= i < dedup_entries(es, directed).len(),
    ensures
        dedup_entries(es, directed)[i].from < n,
        dedup_entries(es, directed)[i].to < n,
    decreases es.len(),
{
    let d = dedup_entries(es.drop_last(), directed);
    assert forall|j: int| 0 <= j < es.drop_last().len() implies (#[trigger] es.drop_last()[j]).0 < n && es.drop_last()[j].1 < n by {
        assert(es.drop_last()[j] == es[j]);
    }
    if i < d.len() {
        assert(dedup_entries(es, directed)[i] == d[i]);
        lemma_dedup_from(es.drop_last(), directed, n, i);
    } else {
        assert(es[es.len() - 1].0 < n);
    }
}

} // verus!
