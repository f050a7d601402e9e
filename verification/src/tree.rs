//! The tree that one level of the dictionary encodes, as mathematics: nodes
//! numbered in breadth-first order, their children found by counting in a
//! level-order unary-degree sequence, and an edge label on every node but
//! the root.

use vstd::prelude::*;
use crate::bitseq::{
    count_bits, is_nth, select_bit, lemma_count_bounds, lemma_count_monotone, lemma_count_split,
    lemma_count_step, lemma_nth_below, lemma_nth_ordered, lemma_nth_unique, lemma_select,
    lemma_select_is,
};

verus! {

pub struct Tree {
    /// `1 0`, then for each node in order one `1` per child and a closing `0`.
    pub louds: Seq<bool>,
    /// Bit `v` says whether node `v` ends a key; as long as `louds`.
    pub terminal: Seq<bool>,
    /// The bytes on the edge that leads to each node; empty for the root.
    pub labels: Seq<Seq<u8>>,
}

impl Tree {
    pub open spec fn nodes(self) -> int {
        self.labels.len() as int
    }

    /// The number of the first child of `u`; that of `u + 1` is where the
    /// children of `u` end.
    pub open spec fn child_begin(self, u: int) -> int {
        select_bit(self.louds, false, u) - u
    }

    pub open spec fn parent(self, v: int) -> int {
        select_bit(self.louds, true, v) - v - 1
    }

    pub open spec fn louds_ok(self) -> bool {
        let n = self.nodes();
        &&& n >= 1
        &&& self.louds.len() == 2 * n + 1
        &&& count_bits(self.louds, true, 2 * n + 1) == n
        &&& self.louds[0]
        &&& !self.louds[1]
        &&& forall|u: int| 0 <= u < n ==> #[trigger] self.child_begin(u) > u
    }

    pub open spec fn wf(self) -> bool {
        let n = self.nodes();
        &&& self.louds_ok()
        &&& self.terminal.len() == self.louds.len()
        &&& count_bits(self.terminal, true, self.terminal.len() as int) == self.num_keys()
        &&& self.labels[0].len() == 0
        &&& forall|v: int| 1 <= v < n ==> (#[trigger] self.labels[v]).len() >= 1
        &&& forall|v: int, w: int|
            1 <= v < n && 1 <= w < n && v != w && #[trigger] self.parent(v) == #[trigger] self.parent(
                w,
            ) ==> self.labels[v][0] != self.labels[w][0]
    }

    /// The bytes read on the way from the root to `v`.
    pub open spec fn path(self, v: int) -> Seq<u8>
        decreases v,
    {
        if 0 < v < self.nodes() && 0 <= self.parent(v) < v {
            self.path(self.parent(v)) + self.labels[v]
        } else {
            Seq::empty()
        }
    }

    /// `a` is `w` or lies on the way from the root to `w`.
    pub open spec fn anc(self, a: int, w: int) -> bool
        decreases w,
    {
        if w == a {
            true
        } else if w <= a || w <= 0 {
            false
        } else {
            0 <= self.parent(w) < w && self.anc(a, self.parent(w))
        }
    }

    /// The child of `a` on the way from `a` down to `w`.
    pub open spec fn toward(self, a: int, w: int) -> int
        decreases w,
    {
        if w <= 0 || !(0 <= self.parent(w) < w) || self.parent(w) == a {
            w
        } else {
            self.toward(a, self.parent(w))
        }
    }

    pub open spec fn num_keys(self) -> int {
        count_bits(self.terminal, true, self.nodes())
    }

    /// The node at which the key with this identifier ends.
    pub open spec fn key_node(self, id: int) -> int {
        select_bit(self.terminal, true, id)
    }

    /// The keys by identifier.
    pub open spec fn keys(self) -> Seq<Seq<u8>> {
        Seq::new(self.num_keys() as nat, |id: int| self.path(self.key_node(id)))
    }

    /// Where the zero that closes the children of node `u - 1` stands.
    pub proof fn lemma_child_begin(self, u: int)
        requires
            self.louds_ok(),
            0 <= u <= self.nodes(),
        ensures
            is_nth(self.louds, false, u, self.child_begin(u) + u),
            self.child_begin(u) == count_bits(self.louds, true, self.child_begin(u) + u),
            1 <= self.child_begin(u) <= self.nodes(),
            u < self.nodes() ==> u < self.child_begin(u),
            u == 0 ==> self.child_begin(u) == 1,
            u == self.nodes() ==> self.child_begin(u) == u,
    {
        let n = self.nodes();
        let len = 2 * n + 1;
        lemma_count_split(self.louds, len);
        lemma_select(self.louds, false, u);
        let s = select_bit(self.louds, false, u);
        lemma_count_split(self.louds, s);
        lemma_count_monotone(self.louds, true, s, len);
        lemma_count_step(self.louds, false, 0);
        assert(count_bits(self.louds, false, 0) == 0);
        assert(is_nth(self.louds, false, 0, 1));
        if u == 0 {
            lemma_nth_unique(self.louds, false, 0, 1, s);
        } else if u < n {
            assert(self.child_begin(u) > u);
        } else {
            assert(self.child_begin(n - 1) > n - 1);
            lemma_select(self.louds, false, n - 1);
            let t = select_bit(self.louds, false, n - 1);
            lemma_nth_ordered(self.louds, false, n - 1, t, n, s);
        }
    }

    pub proof fn lemma_child_begin_monotone(self, u1: int, u2: int)
        requires
            self.louds_ok(),
            0 <= u1 <= u2 <= self.nodes(),
        ensures
            self.child_begin(u1) <= self.child_begin(u2),
    {
        self.lemma_child_begin(u1);
        self.lemma_child_begin(u2);
        let s1 = self.child_begin(u1) + u1;
        let s2 = self.child_begin(u2) + u2;
        if u1 < u2 {
            lemma_nth_ordered(self.louds, false, u1, s1, u2, s2);
            lemma_count_monotone(self.louds, true, s1, s2);
        }
    }

    /// No bit past the last node is set in `terminal`.
    pub proof fn lemma_num_keys(self)
        requires
            self.wf(),
        ensures
            0 <= self.num_keys() <= self.nodes(),
            self.num_keys() == count_bits(self.terminal, true, self.terminal.len() as int),
    {
        lemma_count_bounds(self.terminal, true, self.nodes());
    }

    pub proof fn lemma_path_step(self, v: int)
        requires
            self.louds_ok(),
            1 <= v < self.nodes(),
        ensures
            self.path(v) == self.path(self.parent(v)) + self.labels[v],
    {
        self.lemma_parent(v);
    }

    /// On the way down from `cur` to a node whose path goes on with the
    /// byte `q[pos]`, the next node is the child of `cur` whose label
    /// starts with that byte.
    pub proof fn lemma_walk_child(self, cur: int, w: int, q: Seq<u8>, pos: int)
        requires
            self.wf(),
            0 <= cur < self.nodes(),
            0 <= w < self.nodes(),
            self.anc(cur, w),
            0 <= pos < q.len(),
            self.path(cur) == q.subrange(0, pos),
            q.subrange(0, pos + 1).is_prefix_of(self.path(w)),
        ensures
            cur != w,
            1 <= self.toward(cur, w) < self.nodes(),
            self.parent(self.toward(cur, w)) == cur,
            self.anc(self.toward(cur, w), w),
            self.labels[self.toward(cur, w)][0] == q[pos],
            self.path(self.toward(cur, w)).is_prefix_of(self.path(w)),
    {
        let pw = self.path(w);
        let q1 = q.subrange(0, pos + 1);
        assert(q1.len() == pos + 1);
        assert(pw.len() >= pos + 1);
        assert(self.path(cur).len() == pos);
        self.lemma_toward(cur, w);
        let c = self.toward(cur, w);
        self.lemma_anc_path(c, w);
        self.lemma_path_step(c);
        assert(self.labels[c].len() >= 1);
        assert(self.path(c)[pos] == self.labels[c][0]);
        assert(pw.subrange(0, self.path(c).len() as int)[pos] == pw[pos]);
        assert(pw.subrange(0, pos + 1)[pos] == q1[pos]);
    }

    /// Each node but the root is a child of exactly one earlier node.
    pub proof fn lemma_parent(self, v: int)
        requires
            self.louds_ok(),
            1 <= v < self.nodes(),
        ensures
            0 <= self.parent(v) < v,
            self.child_begin(self.parent(v)) <= v < self.child_begin(self.parent(v) + 1),
            is_nth(self.louds, true, v, self.parent(v) + v + 1),
    {
        let n = self.nodes();
        let len = 2 * n + 1;
        let bits = self.louds;
        lemma_select(bits, true, v);
        let p = select_bit(bits, true, v);
        lemma_count_split(bits, p);
        let z = count_bits(bits, false, p);
        assert(z == p - v);
        // the bit of a node other than the root stands behind the first zero
        assert(count_bits(bits, true, 0) == 0);
        assert(p != 0);
        assert(p >= 2);
        lemma_count_step(bits, false, 0);
        lemma_count_step(bits, false, 1);
        assert(count_bits(bits, false, 0) == 0);
        assert(count_bits(bits, false, 2) == 1);
        lemma_count_monotone(bits, false, 2, p);
        lemma_count_split(bits, len);
        lemma_count_monotone(bits, false, p, len);
        if z == n + 1 {
            self.lemma_child_begin(n);
            let s = self.child_begin(n) + n;
            lemma_nth_below(bits, false, n, s, p);
            lemma_count_monotone(bits, true, s, p);
            assert(false);
        }
        let u = z - 1;
        self.lemma_child_begin(u);
        self.lemma_child_begin(u + 1);
        let q0 = self.child_begin(u) + u;
        let q1 = self.child_begin(u + 1) + u + 1;
        lemma_nth_below(bits, false, u, q0, p);
        lemma_count_monotone(bits, true, q0, p);
        if q1 < p {
            lemma_count_step(bits, false, q1);
            lemma_count_monotone(bits, false, q1 + 1, p);
            assert(false);
        }
        assert(q1 > p);
        lemma_count_step(bits, true, p);
        lemma_count_monotone(bits, true, p + 1, q1);
    }

    pub proof fn lemma_parent_unique(self, u: int, v: int)
        requires
            self.louds_ok(),
            0 <= u < self.nodes(),
            self.child_begin(u) <= v < self.child_begin(u + 1),
        ensures
            1 <= v < self.nodes(),
            self.parent(v) == u,
    {
        self.lemma_child_begin(u);
        self.lemma_child_begin(u + 1);
        self.lemma_parent(v);
        let p = self.parent(v);
        if p < u {
            self.lemma_child_begin_monotone(p + 1, u);
        } else if u < p {
            self.lemma_child_begin_monotone(u + 1, p);
        }
    }

    pub proof fn lemma_anc_le(self, a: int, w: int)
        requires
            self.anc(a, w),
        ensures
            a <= w,
        decreases w,
    {
        if w != a {
            self.lemma_anc_le(a, self.parent(w));
        }
    }

    pub proof fn lemma_anc_root(self, w: int)
        requires
            self.louds_ok(),
            0 <= w < self.nodes(),
        ensures
            self.anc(0, w),
        decreases w,
    {
        if w != 0 {
            self.lemma_parent(w);
            self.lemma_anc_root(self.parent(w));
        }
    }

    /// The path of a node goes on from the path of each of its ancestors.
    pub proof fn lemma_anc_path(self, a: int, w: int)
        requires
            self.wf(),
            0 <= a,
            w < self.nodes(),
            self.anc(a, w),
        ensures
            self.path(a).is_prefix_of(self.path(w)),
            a != w ==> self.path(a).len() < self.path(w).len(),
        decreases w,
    {
        if w != a {
            let p = self.parent(w);
            self.lemma_anc_le(a, p);
            self.lemma_anc_path(a, p);
            assert(self.path(w) == self.path(p) + self.labels[w]);
            assert(self.labels[w].len() >= 1);
            assert(self.path(p).is_prefix_of(self.path(w)));
        }
    }

    pub proof fn lemma_toward(self, a: int, w: int)
        requires
            self.anc(a, w),
            a != w,
            0 <= a,
        ensures
            a < self.toward(a, w) <= w,
            self.parent(self.toward(a, w)) == a,
            self.anc(self.toward(a, w), w),
        decreases w,
    {
        let p = self.parent(w);
        self.lemma_anc_le(a, p);
        if p != a {
            self.lemma_toward(a, p);
            let c = self.toward(a, p);
            assert(self.anc(c, w));
        }
    }

    /// The nodes `lo..hi` are descendants of `x`, and every descendant of
    /// `x` from `lo` on lies under one of them.
    pub open spec fn covers(self, x: int, lo: int, hi: int) -> bool {
        &&& forall|u: int| lo <= u < hi ==> #[trigger] self.anc(x, u)
        &&& forall|w: int|
            lo <= w < self.nodes() && #[trigger] self.anc(x, w) ==> exists|u: int|
                lo <= u < hi && #[trigger] self.anc(u, w)
    }

    pub proof fn lemma_range_start(self, x: int)
        ensures
            self.covers(x, x, x + 1),
    {
        assert forall|w: int| x <= w < self.nodes() && #[trigger] self.anc(x, w) implies exists|
            u: int,
        |
            x <= u < x + 1 && #[trigger] self.anc(u, w) by {
            assert(self.anc(x, w));
        }
    }

    /// The children of a run of nodes are a run of nodes, and nothing
    /// between the two runs descends from `x`.
    pub proof fn lemma_range_next(self, x: int, lo: int, hi: int)
        requires
            self.louds_ok(),
            0 <= x <= lo < hi <= self.nodes(),
            hi <= self.child_begin(lo),
            self.covers(x, lo, hi),
        ensures
            self.covers(x, self.child_begin(lo), self.child_begin(hi)),
            hi <= self.child_begin(lo) <= self.child_begin(hi) <= self.nodes(),
            lo < self.child_begin(lo),
            self.child_begin(lo) < self.child_begin(hi) ==> self.child_begin(hi)
                <= self.child_begin(self.child_begin(lo)),
            forall|w: int| hi <= w < self.child_begin(lo) ==> !#[trigger] self.anc(x, w),
    {
        let nlo = self.child_begin(lo);
        let nhi = self.child_begin(hi);
        self.lemma_child_begin(lo);
        self.lemma_child_begin(hi);
        self.lemma_child_begin_monotone(lo, hi);
        if nlo < nhi {
            self.lemma_child_begin_monotone(hi, nlo);
        }
        assert forall|u: int| nlo <= u < nhi implies #[trigger] self.anc(x, u) by {
            self.lemma_parent(u);
            let pu = self.parent(u);
            if pu < lo {
                self.lemma_child_begin_monotone(pu + 1, lo);
            }
            if pu >= hi {
                self.lemma_child_begin_monotone(hi, pu);
            }
            assert(self.anc(x, pu));
        }
        assert forall|w: int| hi <= w < self.nodes() && #[trigger] self.anc(x, w) implies nlo <= w
            && exists|u: int| nlo <= u < nhi && #[trigger] self.anc(u, w) by {
            let u = choose|u: int| lo <= u < hi && #[trigger] self.anc(u, w);
            self.lemma_toward(u, w);
            let c = self.toward(u, w);
            self.lemma_parent(c);
            self.lemma_child_begin_monotone(lo, u);
            self.lemma_child_begin_monotone(u + 1, hi);
            assert(nlo <= c < nhi && self.anc(c, w));
        }
    }

    /// A node whose path starts the path of another is an ancestor of it:
    /// no two ways down from the root read the same bytes.
    pub proof fn lemma_prefix_anc(self, u: int, w: int)
        requires
            self.wf(),
            0 <= u < self.nodes(),
            0 <= w < self.nodes(),
            self.path(u).is_prefix_of(self.path(w)),
        ensures
            self.anc(u, w),
        decreases u,
    {
        if u == 0 {
            self.lemma_anc_root(w);
        } else {
            self.lemma_parent(u);
            let p = self.parent(u);
            let pu = self.path(u);
            let pw = self.path(w);
            assert(pu == self.path(p) + self.labels[u]);
            assert(self.labels[u].len() >= 1);
            assert(self.path(p).is_prefix_of(pw));
            self.lemma_prefix_anc(p, w);
            if w == p {
                assert(false);
            }
            self.lemma_toward(p, w);
            let c = self.toward(p, w);
            self.lemma_anc_path(c, w);
            assert(self.path(c) == self.path(p) + self.labels[c]);
            assert(self.labels[c].len() >= 1);
            let k = self.path(p).len() as int;
            assert(self.path(c)[k] == self.labels[c][0]);
            assert(pu[k] == self.labels[u][0]);
            assert(self.path(c)[k] == pw[k]);
            assert(pu[k] == pw[k]);
            assert(c == u);
        }
    }

    /// Distinct nodes have distinct paths.
    pub proof fn lemma_path_injective(self, u: int, w: int)
        requires
            self.wf(),
            0 <= u < self.nodes(),
            0 <= w < self.nodes(),
            self.path(u) == self.path(w),
        ensures
            u == w,
    {
        self.lemma_prefix_anc(u, w);
        self.lemma_prefix_anc(w, u);
        self.lemma_anc_le(u, w);
        self.lemma_anc_le(w, u);
    }

    /// The node of a key ends a key, and as many keys end before it as its
    /// identifier says.
    pub proof fn lemma_key_node(self, id: int)
        requires
            self.wf(),
            0 <= id < self.num_keys(),
        ensures
            0 <= self.key_node(id) < self.nodes(),
            self.terminal[self.key_node(id)],
            count_bits(self.terminal, true, self.key_node(id)) == id,
    {
        lemma_nth_exists_below(self.terminal, id, self.nodes());
    }

    /// A node that ends a key is the node of the key that its rank names.
    pub proof fn lemma_node_key(self, v: int)
        requires
            self.wf(),
            0 <= v < self.nodes(),
            self.terminal[v],
        ensures
            0 <= count_bits(self.terminal, true, v) < self.num_keys(),
            self.key_node(count_bits(self.terminal, true, v)) == v,
    {
        lemma_count_bounds(self.terminal, true, v);
        lemma_count_step(self.terminal, true, v);
        lemma_count_monotone(self.terminal, true, v + 1, self.nodes());
        lemma_select_is(self.terminal, true, count_bits(self.terminal, true, v), v);
    }

    /// No key has two identifiers.
    pub proof fn lemma_keys_distinct(self, id1: int, id2: int)
        requires
            self.wf(),
            0 <= id1 < self.num_keys(),
            0 <= id2 < self.num_keys(),
            self.keys()[id1] == self.keys()[id2],
        ensures
            id1 == id2,
    {
        self.lemma_key_node(id1);
        self.lemma_key_node(id2);
        self.lemma_path_injective(self.key_node(id1), self.key_node(id2));
    }
}

/// The `k`-th one among the first `end` bits is found by `select_bit`.
pub proof fn lemma_nth_exists_below(bits: Seq<bool>, k: int, end: int)
    requires
        0 <= k < count_bits(bits, true, end),
        0 <= end <= bits.len(),
    ensures
        is_nth(bits, true, k, select_bit(bits, true, k)),
        select_bit(bits, true, k) < end,
{
    crate::bitseq::lemma_nth_exists(bits, true, k, end);
    let p = choose|p: int| p < end && is_nth(bits, true, k, p);
    lemma_select_is(bits, true, k, p);
}

} // verus!
