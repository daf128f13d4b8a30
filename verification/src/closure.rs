//! Why pivoting computes shortest distances.
//!
//! The all-pairs computation keeps a square table of distances and takes the
//! nodes one at a time as pivots, from the last position down. A table is
//! right for a set of pivots when each entry is the least length of a walk
//! that passes only through those pivots. This module states that invariant
//! and proves that relaxing every entry through one more pivot keeps it.

use crate::network::{inner_in, join, Network};
use vstd::prelude::*;

verus! {

/// A table of optional distances, indexed by the positions of two nodes.
pub type Table = Seq<Seq<Option<int>>>;

/// The table has `n` rows of `n` entries.
pub open spec fn square(t: Table, n: nat) -> bool {
    &&& t.len() == n
    &&& forall|i: int| 0 <= i < n ==> (#[trigger] t[i]).len() == n
}

/// The entry at `(i, j)` after relaxing it through pivot `k`: the smaller of
/// what it held and the sum of the entries at `(i, k)` and `(k, j)`. The row
/// and the column of the pivot and the diagonal stay as they are.
pub open spec fn relaxed(t: Table, k: int, i: int, j: int) -> Option<int> {
    if i == k || j == k || i == j {
        t[i][j]
    } else if t[i][k] is Some && t[k][j] is Some {
        let s = t[i][k]->0 + t[k][j]->0;
        if t[i][j] is Some && t[i][j]->0 <= s {
            t[i][j]
        } else {
            Some(s)
        }
    } else {
        t[i][j]
    }
}

/// Going from any node to pivot `k` and back never has negative length.
pub open spec fn no_dip(t: Table, k: int) -> bool {
    forall|i: int|
        0 <= i < t.len() && i != k && (#[trigger] t[i][k]) is Some && t[k][i] is Some ==> t[i][k]->0
            + t[k][i]->0 >= 0
}

/// As many edges as a walk without repeated nodes can have, each of a
/// weight of `2^63` in magnitude, add up to less than `2^127`.
proof fn lemma_edges_fit(m: int)
    requires
        0 <= m <= 0xffff_ffff_ffff_fffe,
    ensures
        m * 0x8000_0000_0000_0000 <= 0x7fff_ffff_ffff_ffff_0000_0000_0000_0000,
{
    assert(m * 0x8000_0000_0000_0000 <= 0xffff_ffff_ffff_fffe * 0x8000_0000_0000_0000)
        by (nonlinear_arith)
        requires
            0 <= m <= 0xffff_ffff_ffff_fffe,
    ;
}

impl Network {
    /// `e` is the right entry for the pair `(a, b)` where walks may pass
    /// through `via` only: it is zero from a node to itself, it is the length
    /// of some walk that visits no node twice, and no walk is shorter. It is
    /// `None` only where there is no walk at all.
    pub open spec fn entry_ok(self, via: Set<i32>, a: i32, b: i32, e: Option<int>) -> bool {
        &&& a == b ==> e == Some(0int)
        &&& e is Some ==> exists|p: Seq<i32>|
            #[trigger] self.walk_via(p, a, b, via) && p.no_duplicates() && self.length(p) == e->0
        &&& forall|p: Seq<i32>| #[trigger]
            self.walk_via(p, a, b, via) ==> e is Some && e->0 <= self.length(p)
    }

    /// Every entry of `t` is right where walks may pass through the nodes at
    /// positions `k` and above.
    pub open spec fn table_ok(self, t: Table, k: int) -> bool {
        &&& square(t, self.nodes.len())
        &&& forall|i: int, j: int|
            0 <= i < self.nodes.len() && 0 <= j < self.nodes.len() ==> self.entry_ok(
                self.pivots_from(k),
                self.nodes[i],
                self.nodes[j],
                #[trigger] t[i][j],
            )
    }

    /// A pair has one right entry only.
    pub(crate) proof fn lemma_entry_unique(
        self,
        via: Set<i32>,
        a: i32,
        b: i32,
        e1: Option<int>,
        e2: Option<int>,
    )
        requires
            self.entry_ok(via, a, b, e1),
            self.entry_ok(via, a, b, e2),
        ensures
            e1 == e2,
    {
        if e1 is Some {
            let p = choose|p: Seq<i32>| #[trigger]
                self.walk_via(p, a, b, via) && p.no_duplicates() && self.length(p) == e1->0;
            assert(self.walk_via(p, a, b, via));
        }
        if e2 is Some {
            let p = choose|p: Seq<i32>| #[trigger]
                self.walk_via(p, a, b, via) && p.no_duplicates() && self.length(p) == e2->0;
            assert(self.walk_via(p, a, b, via));
        }
    }

    /// A walk through fewer pivots is a walk through more.
    proof fn lemma_via_wider(self, p: Seq<i32>, a: i32, b: i32, k: int)
        requires
            self.walk_via(p, a, b, self.pivots_from(k + 1)),
        ensures
            self.walk_via(p, a, b, self.pivots_from(k)),
    {
        assert forall|t: int| 0 < t < p.len() - 1 implies self.pivots_from(k).contains(
            #[trigger] p[t],
        ) by {
            assert(self.pivots_from(k + 1).contains(p[t]));
            let m = choose|m: int| k + 1 <= m < self.nodes.len() && self.nodes[m] == p[t];
            assert(k <= m < self.nodes.len() && self.nodes[m] == p[t]);
        }
    }

    /// A walk through the pivots from `k` on that never passes through the
    /// node at `k` itself is a walk through the pivots from `k + 1` on.
    proof fn lemma_via_narrower(self, p: Seq<i32>, a: i32, b: i32, k: int)
        requires
            0 <= k < self.nodes.len(),
            self.walk_via(p, a, b, self.pivots_from(k)),
            forall|t: int| 0 < t < p.len() - 1 ==> p[t] != self.nodes[k],
        ensures
            self.walk_via(p, a, b, self.pivots_from(k + 1)),
    {
        assert forall|t: int| 0 < t < p.len() - 1 implies self.pivots_from(k + 1).contains(
            #[trigger] p[t],
        ) by {
            assert(self.pivots_from(k).contains(p[t]));
            let m = choose|m: int| k <= m < self.nodes.len() && self.nodes[m] == p[t];
            assert(k + 1 <= m < self.nodes.len() && self.nodes[m] == p[t]);
        }
    }

    /// The two halves of a walk through `via`, cut at an inner position, are
    /// walks through `via`.
    proof fn lemma_split_via(self, p: Seq<i32>, a: i32, b: i32, via: Set<i32>, s: int)
        requires
            self.walk_via(p, a, b, via),
            0 <= s < p.len(),
        ensures
            self.walk_via(p.subrange(0, s + 1), a, p[s], via),
            self.walk_via(p.subrange(s, p.len() as int), p[s], b, via),
            self.length(p) == self.length(p.subrange(0, s + 1)) + self.length(
                p.subrange(s, p.len() as int),
            ),
    {
        self.lemma_split(p, s);
        let x = p.subrange(0, s + 1);
        let y = p.subrange(s, p.len() as int);
        assert forall|t: int| 0 < t < x.len() - 1 implies via.contains(#[trigger] x[t]) by {
            assert(x[t] == p[t]);
        }
        assert forall|t: int| 0 < t < y.len() - 1 implies via.contains(#[trigger] y[t]) by {
            assert(y[t] == p[t + s]);
        }
    }

    /// No walk from the pivot at `k` is shorter than the entry in the
    /// pivot's row, even where the walk passes through the pivot again.
    proof fn lemma_from_pivot(self, t: Table, k: int, j: int, p: Seq<i32>)
        requires
            self.wf(),
            0 <= k < self.nodes.len(),
            0 <= j < self.nodes.len(),
            self.table_ok(t, k + 1),
            self.walk_via(p, self.nodes[k], self.nodes[j], self.pivots_from(k)),
        ensures
            t[k][j] is Some,
            t[k][j]->0 <= self.length(p),
        decreases p.len(),
    {
        let c = self.nodes[k];
        let b = self.nodes[j];
        assert(self.entry_ok(self.pivots_from(k + 1), c, b, t[k][j]));
        if exists|s: int| 0 < s < p.len() - 1 && p[s] == c {
            let s = choose|s: int| 0 < s < p.len() - 1 && p[s] == c;
            self.lemma_split_via(p, c, b, self.pivots_from(k), s);
            let x = p.subrange(0, s + 1);
            let y = p.subrange(s, p.len() as int);
            self.lemma_from_pivot(t, k, k, x);
            self.lemma_from_pivot(t, k, j, y);
            assert(self.entry_ok(self.pivots_from(k + 1), c, c, t[k][k]));
        } else {
            self.lemma_via_narrower(p, c, b, k);
        }
    }

    /// No walk to the pivot at `k` is shorter than the entry in the pivot's
    /// column.
    proof fn lemma_to_pivot(self, t: Table, k: int, i: int, p: Seq<i32>)
        requires
            self.wf(),
            0 <= k < self.nodes.len(),
            0 <= i < self.nodes.len(),
            self.table_ok(t, k + 1),
            self.walk_via(p, self.nodes[i], self.nodes[k], self.pivots_from(k)),
        ensures
            t[i][k] is Some,
            t[i][k]->0 <= self.length(p),
        decreases p.len(),
    {
        let c = self.nodes[k];
        let a = self.nodes[i];
        assert(self.entry_ok(self.pivots_from(k + 1), a, c, t[i][k]));
        if exists|s: int| 0 < s < p.len() - 1 && p[s] == c {
            let s = choose|s: int| 0 < s < p.len() - 1 && p[s] == c;
            self.lemma_split_via(p, a, c, self.pivots_from(k), s);
            let x = p.subrange(0, s + 1);
            let y = p.subrange(s, p.len() as int);
            self.lemma_to_pivot(t, k, i, x);
            self.lemma_from_pivot(t, k, k, y);
            assert(self.entry_ok(self.pivots_from(k + 1), c, c, t[k][k]));
        } else {
            self.lemma_via_narrower(p, a, c, k);
        }
    }

    /// After relaxing through the pivot at `k`, no walk through the pivots
    /// from `k` on is shorter than the entry of its two ends.
    proof fn lemma_relaxed_is_least(self, t: Table, k: int, i: int, j: int, p: Seq<i32>)
        requires
            self.wf(),
            0 <= k < self.nodes.len(),
            0 <= i < self.nodes.len(),
            0 <= j < self.nodes.len(),
            self.table_ok(t, k + 1),
            no_dip(t, k),
            self.walk_via(p, self.nodes[i], self.nodes[j], self.pivots_from(k)),
        ensures
            relaxed(t, k, i, j) is Some,
            relaxed(t, k, i, j)->0 <= self.length(p),
    {
        let c = self.nodes[k];
        let a = self.nodes[i];
        let b = self.nodes[j];
        assert(self.entry_ok(self.pivots_from(k + 1), a, b, t[i][j]));
        if i == k {
            self.lemma_from_pivot(t, k, j, p);
        } else if j == k {
            self.lemma_to_pivot(t, k, i, p);
        } else if exists|s: int| 0 < s < p.len() - 1 && p[s] == c {
            let s = choose|s: int| 0 < s < p.len() - 1 && p[s] == c;
            self.lemma_split_via(p, a, b, self.pivots_from(k), s);
            let x = p.subrange(0, s + 1);
            let y = p.subrange(s, p.len() as int);
            self.lemma_to_pivot(t, k, i, x);
            self.lemma_from_pivot(t, k, j, y);
            if i == j {
                assert(t[i][k] is Some && t[k][i] is Some);
            }
        } else {
            self.lemma_via_narrower(p, a, b, k);
        }
    }

    /// Where two walks without repeated nodes, one into the pivot at `k`
    /// and one out of it, share a node besides the pivot, cutting out the
    /// loop between the two visits gives a walk that avoids the pivot and is
    /// no longer. So the entry of the two ends is already at most the sum
    /// of the two lengths.
    proof fn lemma_shortcut(
        self,
        t: Table,
        k: int,
        i: int,
        j: int,
        pa: Seq<i32>,
        pb: Seq<i32>,
        s: int,
        r: int,
    )
        requires
            self.wf(),
            0 <= k < self.nodes.len(),
            0 <= i < self.nodes.len(),
            0 <= j < self.nodes.len(),
            self.table_ok(t, k + 1),
            no_dip(t, k),
            self.walk_via(pa, self.nodes[i], self.nodes[k], self.pivots_from(k + 1)),
            self.walk_via(pb, self.nodes[k], self.nodes[j], self.pivots_from(k + 1)),
            pa.no_duplicates(),
            pb.no_duplicates(),
            0 <= s < pa.len() - 1,
            1 <= r < pb.len(),
            pa[s] == pb[r],
        ensures
            t[i][j] is Some,
            t[i][j]->0 <= self.length(pa) + self.length(pb),
    {
        let via = self.pivots_from(k + 1);
        let a = self.nodes[i];
        let b = self.nodes[j];
        let c = self.nodes[k];
        let x = pa[s];
        assert(x != c) by {
            assert(pa[pa.len() - 1] == c);
        }
        assert(self.nodes.contains(x));
        let m = choose|m: int| 0 <= m < self.nodes.len() && self.nodes[m] == x;
        self.lemma_split_via(pa, a, c, via, s);
        self.lemma_split_via(pb, c, b, via, r);
        let h1 = pa.subrange(0, s + 1);
        let z1 = pa.subrange(s, pa.len() as int);
        let z2 = pb.subrange(0, r + 1);
        let h2 = pb.subrange(r, pb.len() as int);
        assert(self.entry_ok(via, x, c, t[m][k]));
        assert(self.walk_via(z1, x, c, via));
        assert(self.entry_ok(via, c, x, t[k][m]));
        assert(self.walk_via(z2, c, x, via));
        assert(t[m][k]->0 + t[k][m]->0 >= 0);
        let q = join(h1, h2);
        self.lemma_join_is_walk(h1, h2);
        self.lemma_length_join(h1, h2);
        assert forall|u: int| 0 < u < q.len() - 1 implies via.contains(#[trigger] q[u]) by {
            if u <= s {
                assert(q[u] == pa[u]);
            } else {
                assert(q[u] == pb[r + u - s]);
            }
        }
        assert(self.walk_via(q, a, b, via));
        assert(self.entry_ok(via, a, b, t[i][j]));
    }

    /// Where the way through the pivot at `k` beats the entry of `(i, j)`,
    /// the sum of the two entries is the length of a walk from `i` to `j`
    /// that visits no node twice.
    proof fn lemma_improved_walk(self, t: Table, k: int, i: int, j: int) -> (p: Seq<i32>)
        requires
            self.wf(),
            0 <= k < self.nodes.len(),
            0 <= i < self.nodes.len(),
            0 <= j < self.nodes.len(),
            i != j,
            i != k,
            j != k,
            self.table_ok(t, k + 1),
            no_dip(t, k),
            t[i][k] is Some,
            t[k][j] is Some,
            t[i][j] is None || t[i][k]->0 + t[k][j]->0 < t[i][j]->0,
        ensures
            self.walk_via(p, self.nodes[i], self.nodes[j], self.pivots_from(k)),
            p.no_duplicates(),
            self.length(p) == t[i][k]->0 + t[k][j]->0,
    {
        let via = self.pivots_from(k + 1);
        let a = self.nodes[i];
        let b = self.nodes[j];
        let c = self.nodes[k];
        assert(self.entry_ok(via, a, c, t[i][k]));
        assert(self.entry_ok(via, c, b, t[k][j]));
        let pa = choose|p: Seq<i32>| #[trigger]
            self.walk_via(p, a, c, via) && p.no_duplicates() && self.length(p) == t[i][k]->0;
        let pb = choose|p: Seq<i32>| #[trigger]
            self.walk_via(p, c, b, via) && p.no_duplicates() && self.length(p) == t[k][j]->0;
        let q = join(pa, pb);
        self.lemma_join_is_walk(pa, pb);
        self.lemma_length_join(pa, pb);
        assert forall|u: int| 0 < u < q.len() - 1 implies self.pivots_from(k).contains(
            #[trigger] q[u],
        ) by {
            if u < pa.len() - 1 {
                assert(q[u] == pa[u]);
                assert(via.contains(pa[u]));
                let m = choose|m: int| k + 1 <= m < self.nodes.len() && self.nodes[m] == pa[u];
                assert(k <= m < self.nodes.len() && self.nodes[m] == q[u]);
            } else if u == pa.len() - 1 {
                assert(q[u] == c);
                assert(k <= k < self.nodes.len() && self.nodes[k] == q[u]);
            } else {
                let v = u - pa.len() + 1;
                assert(q[u] == pb[v]);
                assert(via.contains(pb[v]));
                let m = choose|m: int| k + 1 <= m < self.nodes.len() && self.nodes[m] == pb[v];
                assert(k <= m < self.nodes.len() && self.nodes[m] == q[u]);
            }
        }
        assert forall|u: int, v: int| 0 <= u < v < q.len() implies q[u] != q[v] by {
            if q[u] == q[v] {
                if v < pa.len() {
                    assert(q[u] == pa[u] && q[v] == pa[v]);
                } else if u >= pa.len() {
                    assert(q[u] == pb[u - pa.len() + 1] && q[v] == pb[v - pa.len() + 1]);
                } else {
                    let r = v - pa.len() + 1;
                    assert(q[u] == pa[u] && q[v] == pb[r]);
                    if u == pa.len() - 1 {
                        assert(pb[0] == pb[r]);
                    } else {
                        self.lemma_shortcut(t, k, i, j, pa, pb, u, r);
                    }
                }
            }
        }
        q
    }

    /// Relaxing every entry through the pivot at `k` turns a table that is
    /// right for the pivots from `k + 1` on into one that is right for the
    /// pivots from `k` on.
    pub(crate) proof fn lemma_pivot_step(self, t0: Table, t1: Table, k: int)
        requires
            self.wf(),
            0 <= k < self.nodes.len(),
            self.table_ok(t0, k + 1),
            no_dip(t0, k),
            square(t1, self.nodes.len()),
            forall|i: int, j: int|
                0 <= i < self.nodes.len() && 0 <= j < self.nodes.len() ==> #[trigger] t1[i][j]
                    == relaxed(t0, k, i, j),
        ensures
            self.table_ok(t1, k),
    {
        let via = self.pivots_from(k);
        assert forall|i: int, j: int|
            0 <= i < self.nodes.len() && 0 <= j < self.nodes.len() implies self.entry_ok(
            via,
            self.nodes[i],
            self.nodes[j],
            #[trigger] t1[i][j],
        ) by {
            let a = self.nodes[i];
            let b = self.nodes[j];
            let e = t1[i][j];
            assert(e == relaxed(t0, k, i, j));
            assert(self.entry_ok(self.pivots_from(k + 1), a, b, t0[i][j]));
            assert forall|p: Seq<i32>| #[trigger] self.walk_via(p, a, b, via) implies e is Some
                && e->0 <= self.length(p) by {
                self.lemma_relaxed_is_least(t0, k, i, j, p);
            }
            if e is Some {
                if e == t0[i][j] {
                    let p = choose|p: Seq<i32>| #[trigger]
                        self.walk_via(p, a, b, self.pivots_from(k + 1)) && p.no_duplicates()
                            && self.length(p) == e->0;
                    self.lemma_via_wider(p, a, b, k);
                } else {
                    let p = self.lemma_improved_walk(t0, k, i, j);
                }
            }
        }
    }

    /// An entry of a table that is right fits well within 128 bits.
    pub(crate) proof fn lemma_entry_bound(self, t: Table, k: int, i: int, j: int)
        requires
            0 <= i < self.nodes.len(),
            0 <= j < self.nodes.len(),
            self.nodes.len() <= 0xffff_ffff_ffff_ffff,
            self.table_ok(t, k),
            t[i][j] is Some,
        ensures
            -0x7fff_ffff_ffff_ffff_0000_0000_0000_0000 <= t[i][j]->0
                <= 0x7fff_ffff_ffff_ffff_0000_0000_0000_0000,
    {
        let via = self.pivots_from(k);
        assert(self.entry_ok(via, self.nodes[i], self.nodes[j], t[i][j]));
        let p = choose|p: Seq<i32>| #[trigger]
            self.walk_via(p, self.nodes[i], self.nodes[j], via) && p.no_duplicates()
                && self.length(p) == t[i][j]->0;
        self.lemma_simple_walk_bound(p);
        lemma_edges_fit(p.len() - 1);
    }

    /// Where the way through the pivot at `k` beats the entry of `(i, j)`,
    /// the sum of the two entries fits well within 128 bits.
    pub(crate) proof fn lemma_improved_bound(self, t: Table, k: int, i: int, j: int)
        requires
            self.wf(),
            self.nodes.len() <= 0xffff_ffff_ffff_ffff,
            0 <= k < self.nodes.len(),
            0 <= i < self.nodes.len(),
            0 <= j < self.nodes.len(),
            i != j,
            i != k,
            j != k,
            self.table_ok(t, k + 1),
            no_dip(t, k),
            t[i][k] is Some,
            t[k][j] is Some,
            t[i][j] is None || t[i][k]->0 + t[k][j]->0 < t[i][j]->0,
        ensures
            -0x7fff_ffff_ffff_ffff_0000_0000_0000_0000 <= t[i][k]->0 + t[k][j]->0
                <= 0x7fff_ffff_ffff_ffff_0000_0000_0000_0000,
    {
        let p = self.lemma_improved_walk(t, k, i, j);
        self.lemma_simple_walk_bound(p);
        lemma_edges_fit(p.len() - 1);
    }

    /// A walk that visits no node twice has at most as many nodes as the
    /// network, and each of its edges adds at most `2^63` in magnitude to its
    /// length.
    proof fn lemma_simple_walk_bound(self, p: Seq<i32>)
        requires
            self.is_walk(p),
            p.no_duplicates(),
        ensures
            p.len() <= self.nodes.len(),
            -(p.len() - 1) * 0x8000_0000_0000_0000 <= self.length(p) <= (p.len() - 1)
                * 0x8000_0000_0000_0000,
    {
        p.unique_seq_to_set();
        self.nodes.lemma_cardinality_of_set();
        vstd::seq_lib::seq_to_set_is_finite(self.nodes);
        assert(p.to_set().subset_of(self.nodes.to_set())) by {
            assert forall|x: i32| p.to_set().contains(x) implies self.nodes.to_set().contains(
                x,
            ) by {
                let u = choose|u: int| 0 <= u < p.len() && p[u] == x;
                assert(self.nodes.contains(p[u]));
            }
        }
        vstd::set_lib::lemma_len_subset(p.to_set(), self.nodes.to_set());
        self.lemma_length_bound(p);
    }

    /// Each edge of a walk adds at most `2^63` in magnitude to its length.
    proof fn lemma_length_bound(self, p: Seq<i32>)
        requires
            p.len() >= 1,
        ensures
            -(p.len() - 1) * 0x8000_0000_0000_0000 <= self.length(p) <= (p.len() - 1)
                * 0x8000_0000_0000_0000,
        decreases p.len(),
    {
        if p.len() > 1 {
            self.lemma_length_bound(p.drop_last());
            let m = p.len() - 2;
            assert((m + 1) * 0x8000_0000_0000_0000 == m * 0x8000_0000_0000_0000
                + 0x8000_0000_0000_0000) by (nonlinear_arith);
        }
    }

    /// The table of direct edges, with zero on the diagonal, is right where
    /// walks pass through no node at all, provided no node has an edge of
    /// negative weight to itself.
    pub(crate) proof fn lemma_direct_entry(self, i: int, j: int, e: Option<int>)
        requires
            self.wf(),
            0 <= i < self.nodes.len(),
            0 <= j < self.nodes.len(),
            i == j && self.has_edge(self.nodes[i], self.nodes[i]) ==> self.weights[(
                self.nodes[i],
                self.nodes[i],
            )] >= 0,
            i == j ==> e == Some(0int),
            i != j && self.has_edge(self.nodes[i], self.nodes[j]) ==> e == Some(
                self.weights[(self.nodes[i], self.nodes[j])] as int,
            ),
            i != j && !self.has_edge(self.nodes[i], self.nodes[j]) ==> e is None,
        ensures
            self.entry_ok(
                self.pivots_from(self.nodes.len() as int),
                self.nodes[i],
                self.nodes[j],
                e,
            ),
    {
        let via = self.pivots_from(self.nodes.len() as int);
        let a = self.nodes[i];
        let b = self.nodes[j];
        assert forall|p: Seq<i32>| #[trigger] self.walk_via(p, a, b, via) implies e is Some && e->0
            <= self.length(p) by {
            if p.len() >= 3 {
                assert(via.contains(p[1]));
            }
            self.lemma_length_short(p);
            if p.len() == 2 {
                assert(self.step(p, 0));
            }
        }
        if e is Some {
            let p = if i == j {
                seq![a]
            } else {
                seq![a, b]
            };
            self.lemma_length_short(p);
            assert(self.is_walk(p)) by {
                assert forall|u: int| 0 <= u < p.len() - 1 implies #[trigger] self.step(p, u) by {
                    assert(u == 0);
                }
            }
            assert(self.walk_via(p, a, b, via));
            assert(p.no_duplicates());
        }
    }

    /// Once every node has been a pivot, the entries are the shortest
    /// distances of the network.
    pub(crate) proof fn lemma_all_pivots(self, t: Table, i: int, j: int)
        requires
            0 <= i < self.nodes.len(),
            0 <= j < self.nodes.len(),
            self.table_ok(t, 0),
        ensures
            t[i][j] is Some ==> self.is_distance(self.nodes[i], self.nodes[j], t[i][j]->0),
            t[i][j] is None ==> !self.connected(self.nodes[i], self.nodes[j]),
    {
        let via = self.pivots_from(0);
        let a = self.nodes[i];
        let b = self.nodes[j];
        assert(self.entry_ok(via, a, b, t[i][j]));
        assert forall|p: Seq<i32>| #[trigger] self.walk_between(p, a, b) implies self.walk_via(
            p,
            a,
            b,
            via,
        ) by {
            self.lemma_any_walk(p);
        }
        if t[i][j] is Some {
            let p = choose|p: Seq<i32>| #[trigger]
                self.walk_via(p, a, b, via) && p.no_duplicates() && self.length(p) == t[i][j]->0;
            assert(self.walk_between(p, a, b));
        }
    }

    /// Every walk passes only through nodes of the network.
    proof fn lemma_any_walk(self, p: Seq<i32>)
        requires
            self.is_walk(p),
        ensures
            inner_in(p, self.pivots_from(0)),
    {
        assert forall|u: int| 0 < u < p.len() - 1 implies self.pivots_from(0).contains(
            #[trigger] p[u],
        ) by {
            assert(self.nodes.contains(p[u]));
            let m = choose|m: int| 0 <= m < self.nodes.len() && self.nodes[m] == p[u];
            assert(0 <= m < self.nodes.len() && self.nodes[m] == p[u]);
        }
    }

    /// A table that is right for all pivots shows that the network has no
    /// negative cycle.
    pub(crate) proof fn lemma_no_negative_cycle(self, t: Table)
        requires
            self.table_ok(t, 0),
        ensures
            !self.has_negative_cycle(),
    {
        assert forall|p: Seq<i32>| !self.is_negative_cycle(p) by {
            if self.is_walk(p) && p[0] == p[p.len() - 1] {
                self.lemma_any_walk(p);
                assert(self.nodes.contains(p[0]));
                let m = choose|m: int| 0 <= m < self.nodes.len() && self.nodes[m] == p[0];
                assert(self.entry_ok(self.pivots_from(0), p[0], p[0], t[m][m]));
                assert(self.walk_via(p, p[0], p[0], self.pivots_from(0)));
            }
        }
    }
}

} // verus!
