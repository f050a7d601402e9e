//! Building the tree of one level from sorted keys: nodes are made in
//! breadth-first order, each for a run of keys that share a prefix, and the
//! bytes that all keys of a run share beyond the branching byte are folded
//! into one edge.

use vstd::prelude::*;
use crate::bitseq::{
    count_bits, is_nth, lemma_count_agree, lemma_count_bounds, lemma_count_push, lemma_count_split,
    lemma_nth_push, lemma_select_is,
};
use crate::bitvec::BitVector;
use crate::level::MAX_NODES;
use crate::lex::{
    common_prefix, lcp, lemma_lcp, lemma_lcp_common, lemma_lex_between,
    lemma_lex_irreflexive, lemma_lex_next_byte, lex_lt,
};
use crate::sums::{
    lemma_sum_all, lemma_sum_bound, lemma_sum_nonneg, lemma_sum_push, lemma_sum_update, sum,
};
use crate::tree::Tree;
use crate::weight::{add_weights, weight_sum};

verus! {

/// The most bytes that the keys of one dictionary may hold together. The
/// bound is this library's own: a level is written with the length of its
/// label store in 32 bits, and that store takes five bytes for each node
/// and one for each byte of a tail; a level has at most one node more than
/// its keys have bytes, so six times this many bytes and five more must
/// fit in 32 bits.
pub const MAX_TOTAL: usize = 700_000_000;

/// What is known of a node while its level is built.
#[derive(Clone, Copy)]
pub struct NodeInfo {
    /// The run of sorted keys that pass through the node.
    pub lo: usize,
    pub hi: usize,
    /// The bytes of those keys from `start` up to `depth` label the edge
    /// to the node.
    pub start: usize,
    pub depth: usize,
    pub parent: usize,
    pub head: u8,
}

/// The tree of one level before its labels are stored.
pub struct Shape {
    pub louds: BitVector,
    pub terminal: BitVector,
    pub nodes: Vec<NodeInfo>,
    /// For each sorted key, the node at which it ends.
    pub owner: Vec<usize>,
}

pub open spec fn key_lens(keys: Seq<Vec<u8>>) -> Seq<int> {
    Seq::new(keys.len(), |i: int| keys[i]@.len() as int)
}

/// The bytes of all keys together.
pub open spec fn total_len(keys: Seq<Vec<u8>>) -> int {
    sum(key_lens(keys))
}

/// The keys that `order` names, in that order.
pub open spec fn picked(keys: Seq<Vec<u8>>, order: Seq<usize>) -> Seq<Seq<u8>> {
    Seq::new(order.len(), |k: int| keys[order[k] as int]@)
}

pub open spec fn strictly_sorted(s: Seq<Seq<u8>>) -> bool {
    forall|i: int, k: int| 0 <= i < k < s.len() ==> lex_lt(#[trigger] s[i], #[trigger] s[k])
}

pub open spec fn node_ok(s: Seq<Seq<u8>>, nodes: Seq<NodeInfo>, u: int) -> bool {
    let x = nodes[u];
    &&& x.lo < x.hi <= s.len()
    &&& x.depth <= s[x.lo as int].len()
    &&& lcp(s[x.lo as int], s[x.hi - 1]) >= x.depth
    &&& if u == 0 {
        x.lo == 0 && x.hi == s.len() && x.depth == 0 && x.start == 0
    } else {
        let p = nodes[x.parent as int];
        &&& x.parent < u
        &&& x.start == p.depth
        &&& x.start < x.depth
        &&& p.lo <= x.lo
        &&& x.hi <= p.hi
        &&& x.head == s[x.lo as int][x.start as int]
    }
}

pub open spec fn nodes_ok(s: Seq<Seq<u8>>, nodes: Seq<NodeInfo>) -> bool {
    &&& nodes.len() >= 1
    &&& forall|u: int| 0 <= u < nodes.len() ==> #[trigger] node_ok(s, nodes, u)
}

/// The bytes on the edge to node `u`.
pub open spec fn label_of(s: Seq<Seq<u8>>, nodes: Seq<NodeInfo>, u: int) -> Seq<u8> {
    if u <= 0 {
        Seq::empty()
    } else {
        s[nodes[u].lo as int].subrange(nodes[u].start as int, nodes[u].depth as int)
    }
}

pub open spec fn label_lens(nodes: Seq<NodeInfo>) -> Seq<int> {
    Seq::new(nodes.len(), |u: int| nodes[u].depth - nodes[u].start)
}

pub open spec fn shape_tree(s: Seq<Seq<u8>>, r: &Shape) -> Tree {
    Tree {
        louds: r.louds@,
        terminal: r.terminal@,
        labels: Seq::new(r.nodes@.len(), |u: int| label_of(s, r.nodes@, u)),
    }
}

/// The weight of the keys `lo..hi` together.
pub open spec fn run_weight(weights: Seq<u32>, lo: int, hi: int) -> u32
    decreases hi - lo,
{
    if hi <= lo {
        0
    } else {
        weight_sum(run_weight(weights, lo, hi - 1), weights[hi - 1])
    }
}

/// Of two children of one node, the one whose keys weigh more comes first.
pub open spec fn by_weight(nodes: Seq<NodeInfo>, weights: Seq<u32>) -> bool {
    forall|c1: int, c2: int|
        1 <= c1 < c2 < nodes.len() && (#[trigger] nodes[c1]).parent == (#[trigger] nodes[c2]).parent
            ==> run_weight(weights, nodes[c1].lo as int, nodes[c1].hi as int) >= run_weight(
            weights,
            nodes[c2].lo as int,
            nodes[c2].hi as int,
        )
}

/// Of two children of one node, the one with the lesser first byte comes
/// first.
pub open spec fn by_bytes(nodes: Seq<NodeInfo>) -> bool {
    forall|c1: int, c2: int|
        1 <= c1 < c2 < nodes.len() && (#[trigger] nodes[c1]).parent == (#[trigger] nodes[c2]).parent
            ==> nodes[c1].head < nodes[c2].head
}

/// The weight of those of the first `upto` keys together that start with
/// `prefix`.
pub open spec fn under_weight(s: Seq<Seq<u8>>, weights: Seq<u32>, prefix: Seq<u8>, upto: int) -> u32
    decreases upto,
{
    if upto <= 0 {
        0
    } else if prefix.is_prefix_of(s[upto - 1]) {
        weight_sum(under_weight(s, weights, prefix, upto - 1), weights[upto - 1])
    } else {
        under_weight(s, weights, prefix, upto - 1)
    }
}

/// Of two children of one node, the one whose label starts with the
/// lesser byte has the lesser number.
pub open spec fn siblings_by_bytes(t: Tree) -> bool {
    forall|c1: int, c2: int|
        1 <= c1 < c2 < t.nodes() && #[trigger] t.parent(c1) == #[trigger] t.parent(c2)
            ==> t.labels[c1][0] < t.labels[c2][0]
}

/// Of two children of one node, the one under which the keys weigh more
/// has the lesser number.
pub open spec fn siblings_by_weight(t: Tree, s: Seq<Seq<u8>>, weights: Seq<u32>) -> bool {
    forall|c1: int, c2: int|
        1 <= c1 < c2 < t.nodes() && #[trigger] t.parent(c1) == #[trigger] t.parent(c2)
            ==> under_weight(s, weights, t.path(c1), s.len() as int) >= under_weight(
            s,
            weights,
            t.path(c2),
            s.len() as int,
        )
}

/// The shape is the tree of exactly the sorted keys, `owner` says where
/// each of them ends, and siblings stand by falling weight if `ordered`,
/// else by rising first byte.
pub open spec fn shape_ok(
    keys: Seq<Vec<u8>>,
    order: Seq<usize>,
    weights: Seq<u32>,
    ordered: bool,
    r: &Shape,
) -> bool {
    let s = picked(keys, order);
    let t = shape_tree(s, r);
    &&& ordered ==> by_weight(r.nodes@, weights)
    &&& ordered ==> siblings_by_weight(t, s, weights)
    &&& !ordered ==> siblings_by_bytes(t)
    &&& r.louds.wf()
    &&& r.terminal.wf()
    &&& nodes_ok(s, r.nodes@)
    &&& r.nodes@.len() <= MAX_NODES
    &&& r.nodes@.len() <= 1 + total_len(keys)
    &&& sum(label_lens(r.nodes@)) <= total_len(keys)
    &&& t.wf()
    &&& t.num_keys() == s.len()
    &&& r.owner@.len() == s.len()
    &&& forall|k: int|
        0 <= k < s.len() ==> {
            let o = #[trigger] r.owner@[k];
            &&& o < r.nodes@.len()
            &&& t.terminal[o as int]
            &&& t.path(o as int) == s[k]
        }
    &&& forall|u: int|
        0 <= u < r.nodes@.len() && #[trigger] t.terminal[u] ==> r.nodes@[u].lo < s.len() && t.path(u)
            == s[r.nodes@[u].lo as int]
}

spec fn kids_ok(nodes: Seq<NodeInfo>, cbs: Seq<int>, v: int) -> bool {
    forall|c: int|
        1 <= c < nodes.len() ==> {
            let p = (#[trigger] nodes[c]).parent as int;
            &&& 0 <= p <= v
            &&& p < v ==> cbs[p] <= c < cbs[p + 1]
            &&& p == v ==> cbs[v] <= c
        }
}

spec fn heads_differ(nodes: Seq<NodeInfo>) -> bool {
    forall|c1: int, c2: int|
        1 <= c1 < nodes.len() && 1 <= c2 < nodes.len() && c1 != c2 && (#[trigger] nodes[c1]).parent
            == (#[trigger] nodes[c2]).parent ==> nodes[c1].head != nodes[c2].head
}

spec fn louds_inv(louds: Seq<bool>, cbs: Seq<int>, n: int, v: int) -> bool {
    &&& louds.len() == n + v + 1
    &&& count_bits(louds, true, n + v + 1) == n
    &&& louds[0]
    &&& !louds[1]
    &&& cbs.len() == v + 1
    &&& forall|u: int| 0 <= u <= v ==> is_nth(louds, false, u, #[trigger] cbs[u] + u)
    &&& forall|u: int| 0 <= u <= v && u < n ==> #[trigger] cbs[u] > u
    &&& cbs[v] <= n
}

spec fn term_inv(s: Seq<Seq<u8>>, nodes: Seq<NodeInfo>, term: Seq<bool>) -> bool {
    &&& term.len() == nodes.len()
    &&& forall|u: int|
        0 <= u < nodes.len() ==> #[trigger] term[u] == (s[nodes[u].lo as int].len()
            == nodes[u].depth)
}

/// The tree as far as it is built: node `v` is the next to get children.
#[verifier::opaque]
spec fn shape_inv(
    s: Seq<Seq<u8>>,
    nodes: Seq<NodeInfo>,
    louds: Seq<bool>,
    term: Seq<bool>,
    cbs: Seq<int>,
    v: int,
    weights: Seq<u32>,
    ordered: bool,
) -> bool {
    &&& 0 <= v <= nodes.len()
    &&& nodes_ok(s, nodes)
    &&& louds_inv(louds, cbs, nodes.len() as int, v)
    &&& kids_ok(nodes, cbs, v)
    &&& heads_differ(nodes)
    &&& term_inv(s, nodes, term)
    &&& ordered ==> by_weight(nodes, weights)
    &&& !ordered ==> by_bytes(nodes)
}

/// `info` can be a child of node `v`, which is `x`.
spec fn kid_ok(s: Seq<Seq<u8>>, x: NodeInfo, v: int, info: NodeInfo) -> bool {
    &&& info.parent == v
    &&& info.start == x.depth
    &&& info.start < info.depth
    &&& x.lo <= info.lo < info.hi <= x.hi
    &&& info.hi <= s.len()
    &&& info.depth == lcp(s[info.lo as int], s[info.hi - 1])
    &&& info.start < s[info.lo as int].len()
    &&& info.head == s[info.lo as int][info.start as int]
}

/// Key `k` is in the run of one of `kids`.
spec fn covered(kids: Seq<NodeInfo>, k: int) -> bool {
    exists|y: int| 0 <= y < kids.len() && (#[trigger] kids[y]).lo <= k < kids[y].hi
}

/// `kids` are the children that node `v` is to get: their runs are apart
/// and take up all keys of `v` from `first` on, and no two of them start
/// with the same byte.
spec fn family_ok(s: Seq<Seq<u8>>, x: NodeInfo, v: int, kids: Seq<NodeInfo>, first: int) -> bool {
    &&& forall|y: int| 0 <= y < kids.len() ==> kid_ok(s, x, v, #[trigger] kids[y])
    &&& forall|y1: int, y2: int|
        0 <= y1 < kids.len() && 0 <= y2 < kids.len() && y1 != y2 ==> (#[trigger] kids[y1]).head != (
        #[trigger] kids[y2]).head
    &&& forall|y1: int, y2: int|
        0 <= y1 < kids.len() && 0 <= y2 < kids.len() && y1 != y2 ==> (#[trigger] kids[y1]).hi <= (
        #[trigger] kids[y2]).lo || kids[y2].hi <= kids[y1].lo
    &&& forall|k: int| first <= k < x.hi ==> #[trigger] covered(kids, k)
}

/// The kids stand by falling weight.
spec fn kids_by_weight(kids: Seq<NodeInfo>, weights: Seq<u32>) -> bool {
    forall|y1: int, y2: int|
        0 <= y1 < y2 < kids.len() ==> run_weight(
            weights,
            (#[trigger] kids[y1]).lo as int,
            kids[y1].hi as int,
        ) >= run_weight(weights, (#[trigger] kids[y2]).lo as int, kids[y2].hi as int)
}

/// The kids stand by rising first byte.
spec fn kids_by_bytes(kids: Seq<NodeInfo>) -> bool {
    forall|y1: int, y2: int|
        0 <= y1 < y2 < kids.len() ==> (#[trigger] kids[y1]).head < (#[trigger] kids[y2]).head
}

/// The first `x` of `kids` are the nodes from `base` on, and the last.
spec fn made(nodes: Seq<NodeInfo>, base: int, kids: Seq<NodeInfo>, x: int) -> bool {
    &&& nodes.len() == base + x
    &&& forall|y: int| 0 <= y < x ==> #[trigger] nodes[base + y] == kids[y]
}

spec fn owner_inv(s: Seq<Seq<u8>>, nodes: Seq<NodeInfo>, owner: Seq<usize>, v: int) -> bool {
    &&& owner.len() == s.len()
    &&& forall|k: int|
        0 <= k < owner.len() ==> {
            let o = #[trigger] owner[k] as int;
            &&& 0 <= o < nodes.len()
            &&& nodes[o].lo <= k < nodes[o].hi
            &&& o < v ==> k == nodes[o].lo && s[k].len() == nodes[o].depth
        }
}

/// Each node from `from` up to `to` owns all keys of its run.
spec fn pending_inv(nodes: Seq<NodeInfo>, owner: Seq<usize>, from: int, to: int) -> bool {
    forall|u: int, k: int|
        from <= u < to && (#[trigger] nodes[u]).lo <= k < nodes[u].hi ==> #[trigger] owner[k] == u
}

/// Every key is owned by a node of its run; the nodes before `v` own only
/// the key that ends at them, and those from `v` on own their whole run.
#[verifier::opaque]
spec fn pending_all(s: Seq<Seq<u8>>, nodes: Seq<NodeInfo>, owner: Seq<usize>, v: int) -> bool {
    &&& owner_inv(s, nodes, owner, v)
    &&& pending_inv(nodes, owner, v, nodes.len() as int)
}

/// While node `v` gets its children: the keys of the kids behind kid `x`
/// are still with `v`; of those of kid `x`, the ones before `k` have gone
/// to the node `limit` and the others are still with `v`.
#[verifier::opaque]
spec fn claim_inv(
    s: Seq<Seq<u8>>,
    nodes: Seq<NodeInfo>,
    owner: Seq<usize>,
    v: int,
    limit: int,
    kids: Seq<NodeInfo>,
    x: int,
    k: int,
) -> bool {
    &&& owner_inv(s, nodes, owner, v)
    &&& pending_inv(nodes, owner, v + 1, limit)
    &&& forall|y: int, j: int|
        x <= y < kids.len() && (#[trigger] kids[y]).lo <= j < kids[y].hi && (y > x || j >= k)
            ==> #[trigger] owner[j] == v
    &&& forall|j: int| 0 <= x < kids.len() && kids[x].lo <= j < k ==> #[trigger] owner[j] == limit
}

/// The bytes that the keys have not yet given to labels, `slack`, and the
/// bytes of the labels made so far are together no more than the keys
/// hold; and as many keys have ended, `fin`, as nodes end a key.
#[verifier::opaque]
spec fn budget_inv(
    keys: Seq<Vec<u8>>,
    order: Seq<usize>,
    nodes: Seq<NodeInfo>,
    owner: Seq<usize>,
    term: Seq<bool>,
    slack: Seq<int>,
    fin: Seq<int>,
) -> bool {
    let s = picked(keys, order);
    &&& slack.len() == keys.len()
    &&& forall|i: int| 0 <= i < slack.len() ==> #[trigger] slack[i] >= 0
    &&& forall|k: int|
        0 <= k < s.len() ==> slack[order[k] as int] == s[k].len() - nodes[(
        #[trigger] owner[k]) as int].depth
    &&& nodes.len() <= 1 + sum(label_lens(nodes))
    &&& sum(label_lens(nodes)) + sum(slack) <= total_len(keys)
    &&& fin.len() == s.len()
    &&& forall|k: int|
        0 <= k < s.len() ==> #[trigger] fin[k] == if s[k].len() == nodes[owner[k] as int].depth {
            1int
        } else {
            0int
        }
    &&& sum(fin) == count_bits(term, true, nodes.len() as int)
}

proof fn lemma_order_injective(keys: Seq<Vec<u8>>, order: Seq<usize>, k1: int, k2: int)
    requires
        strictly_sorted(picked(keys, order)),
        0 <= k1 < order.len(),
        0 <= k2 < order.len(),
        order[k1] == order[k2],
    ensures
        k1 == k2,
{
    let s = picked(keys, order);
    lemma_lex_irreflexive(s[k1]);
    if k1 < k2 {
        assert(lex_lt(s[k1], s[k2]));
    } else if k2 < k1 {
        assert(lex_lt(s[k2], s[k1]));
    }
}

/// Every key of a node's run shares the node's prefix, and every key of
/// the run but the first is longer than it.
proof fn lemma_range_lcp(s: Seq<Seq<u8>>, nodes: Seq<NodeInfo>, u: int, k: int)
    requires
        strictly_sorted(s),
        0 <= u < nodes.len(),
        node_ok(s, nodes, u),
        nodes[u].lo <= k < nodes[u].hi,
    ensures
        lcp(s[nodes[u].lo as int], s[k]) >= nodes[u].depth,
        s[k].len() >= nodes[u].depth,
        k > nodes[u].lo ==> s[k].len() > nodes[u].depth,
        forall|i: int| 0 <= i < nodes[u].depth ==> s[k][i] == s[nodes[u].lo as int][i],
{
    let x = nodes[u];
    let a = s[x.lo as int];
    let c = s[x.hi - 1];
    if k > x.lo {
        assert(lex_lt(s[x.lo as int], s[k]));
    }
    if k < x.hi - 1 {
        assert(lex_lt(s[k], s[x.hi - 1]));
    }
    lemma_lex_between(a, s[k], c, x.depth as int);
    lemma_lcp(a, s[k]);
}

/// Two keys of one run compare at the byte behind the node's prefix.
proof fn lemma_range_bytes(s: Seq<Seq<u8>>, nodes: Seq<NodeInfo>, u: int, k1: int, k2: int)
    requires
        strictly_sorted(s),
        0 <= u < nodes.len(),
        node_ok(s, nodes, u),
        nodes[u].lo <= k1 < k2 < nodes[u].hi,
        s[k1].len() > nodes[u].depth,
    ensures
        s[k2].len() > nodes[u].depth,
        s[k1][nodes[u].depth as int] <= s[k2][nodes[u].depth as int],
        lcp(s[k1], s[k2]) >= nodes[u].depth,
{
    let d = nodes[u].depth as int;
    lemma_range_lcp(s, nodes, u, k1);
    lemma_range_lcp(s, nodes, u, k2);
    lemma_lcp_common(s[nodes[u].lo as int], s[k1], s[k2], d);
    assert(lex_lt(s[k1], s[k2]));
    lemma_lex_next_byte(s[k1], s[k2], d);
}

/// The path of a node is the prefix that the keys of its run share.
proof fn lemma_shape_path(s: Seq<Seq<u8>>, nodes: Seq<NodeInfo>, t: Tree, u: int)
    requires
        strictly_sorted(s),
        nodes_ok(s, nodes),
        t.louds_ok(),
        t.labels == Seq::new(nodes.len(), |u: int| label_of(s, nodes, u)),
        forall|c: int| 1 <= c < nodes.len() ==> #[trigger] t.parent(c) == nodes[c].parent,
        0 <= u < nodes.len(),
    ensures
        t.path(u) == s[nodes[u].lo as int].subrange(0, nodes[u].depth as int),
    decreases u,
{
    assert(node_ok(s, nodes, u));
    if u == 0 {
        assert(t.path(0) =~= s[nodes[u].lo as int].subrange(0, 0));
    } else {
        let x = nodes[u];
        let p = x.parent as int;
        assert(t.parent(u) == p);
        assert(node_ok(s, nodes, p));
        lemma_shape_path(s, nodes, t, p);
        t.lemma_path_step(u);
        lemma_range_lcp(s, nodes, p, x.lo as int);
        let ku = s[x.lo as int];
        assert(t.labels[u] == ku.subrange(x.start as int, x.depth as int));
        assert(t.path(p) =~= ku.subrange(0, x.start as int));
        assert(t.path(u) =~= ku.subrange(0, x.depth as int));
    }
}

fn key_at<'a>(keys: &'a Vec<Vec<u8>>, order: &Vec<usize>, k: usize) -> (r: &'a [u8])
    requires
        k < order@.len(),
        order@[k as int] < keys@.len(),
    ensures
        r@ == picked(keys@, order@)[k as int],
{
    keys[order[k]].as_slice()
}

/// Where the run of keys ends that starts at `a` and has `byte` at `d`.
fn group_end(keys: &Vec<Vec<u8>>, order: &Vec<usize>, a: usize, hi: usize, d: usize, byte: u8) -> (e:
    usize)
    requires
        a < hi <= order@.len(),
        forall|k: int| 0 <= k < order@.len() ==> order@[k] < keys@.len(),
        forall|k: int| a <= k < hi ==> (#[trigger] picked(keys@, order@)[k]).len() > d,
        picked(keys@, order@)[a as int][d as int] == byte,
    ensures
        a < e <= hi,
        forall|k: int| a <= k < e ==> (#[trigger] picked(keys@, order@)[k])[d as int] == byte,
        e < hi ==> picked(keys@, order@)[e as int][d as int] != byte,
{
    let mut e: usize = a + 1;
    while e < hi
        invariant
            a < e <= hi <= order@.len(),
            forall|k: int| 0 <= k < order@.len() ==> order@[k] < keys@.len(),
            forall|k: int| a <= k < hi ==> (#[trigger] picked(keys@, order@)[k]).len() > d,
            forall|k: int| a <= k < e ==> (#[trigger] picked(keys@, order@)[k])[d as int] == byte,
        decreases hi - e,
    {
        let key = key_at(keys, order, e);
        assert(picked(keys@, order@)[e as int].len() > d);
        if key[d] != byte {
            return e;
        }
        e = e + 1;
    }
    e
}



/// What the loops need to know of the tree so far.
proof fn lemma_shape_facts(
    s: Seq<Seq<u8>>,
    nodes: Seq<NodeInfo>,
    louds: Seq<bool>,
    term: Seq<bool>,
    cbs: Seq<int>,
    v: int,
    weights: Seq<u32>,
    ordered: bool,
)
    requires
        shape_inv(s, nodes, louds, term, cbs, v, weights, ordered),
    ensures
        nodes_ok(s, nodes),
        0 <= v <= nodes.len(),
        louds.len() == nodes.len() + v + 1,
        term.len() == nodes.len(),
        cbs.len() == v + 1,
        cbs[v] <= nodes.len(),
{
    reveal(shape_inv);
}

proof fn lemma_start(
    keys: Seq<Vec<u8>>,
    order: Seq<usize>,
    owner: Seq<usize>,
    weights: Seq<u32>,
    ordered: bool,
) -> (r: (Seq<NodeInfo>, Seq<bool>, Seq<bool>, Seq<int>, Seq<int>, Seq<int>))
    requires
        1 <= order.len() <= usize::MAX,
        forall|k: int| 0 <= k < order.len() ==> order[k] < keys.len(),
        strictly_sorted(picked(keys, order)),
        owner.len() == order.len(),
        forall|k: int| 0 <= k < owner.len() ==> owner[k] == 0,
    ensures
        ({
            let s = picked(keys, order);
            let (nodes, louds, term, cbs, slack, fin) = r;
            &&& nodes == seq![
                NodeInfo { lo: 0, hi: order.len() as usize, start: 0, depth: 0, parent: 0, head: 0 },
            ]
            &&& louds == Seq::<bool>::empty().push(true).push(false)
            &&& term == Seq::<bool>::empty().push(s[0].len() == 0)
            &&& shape_inv(s, nodes, louds, term, cbs, 0, weights, ordered)
            &&& cbs[0] == 1
            &&& pending_all(s, nodes, owner, 0)
            &&& budget_inv(keys, order, nodes, owner, term, slack, fin)
        }),
{
    let s = picked(keys, order);
    let m = order.len() as int;
    let nodes = seq![
        NodeInfo { lo: 0, hi: order.len() as usize, start: 0, depth: 0, parent: 0, head: 0 },
    ];
    let b0 = Seq::<bool>::empty();
    let louds = b0.push(true).push(false);
    let term = b0.push(s[0].len() == 0);
    let cbs = seq![1int];
    let slack = key_lens(keys);
    let fin = Seq::new(
        m as nat,
        |k: int|
            if s[k].len() == 0 {
                1int
            } else {
                0int
            },
    );
    reveal(shape_inv);
    reveal(pending_all);
    reveal(budget_inv);
    lemma_lcp(s[0], s[m - 1]);
    assert(node_ok(s, nodes, 0));
    lemma_count_push(b0, true, true, 0);
    lemma_count_push(b0, true, false, 0);
    lemma_count_push(b0.push(true), false, true, 1);
    lemma_count_push(b0.push(true), false, false, 1);
    assert(count_bits(b0, true, 0) == 0);
    assert(count_bits(b0, false, 0) == 0);
    assert(is_nth(louds, false, 0, 1));
    assert(louds_inv(louds, cbs, 1, 0));
    lemma_count_push(b0, s[0].len() == 0, true, 0);
    assert(label_lens(nodes) =~= seq![0int]);
    lemma_sum_all(label_lens(nodes), 0);
    assert forall|k: int| 1 <= k < m implies #[trigger] fin[k] == 0 by {
        assert(lex_lt(s[0], s[k]));
        lemma_lcp(s[0], s[k]);
    }
    lemma_sum_update(fin, 0, 0);
    lemma_sum_all(fin.update(0, 0), 0);
    (nodes, louds, term, cbs, slack, fin)
}

/// Node `v` is taken up: all keys of its kids are with it.
proof fn lemma_begin_node(
    s: Seq<Seq<u8>>,
    nodes: Seq<NodeInfo>,
    owner: Seq<usize>,
    v: int,
    kids: Seq<NodeInfo>,
    first: int,
    k: int,
)
    requires
        0 <= v < nodes.len(),
        pending_all(s, nodes, owner, v),
        family_ok(s, nodes[v], v, kids, first),
        kids.len() > 0 ==> k == kids[0].lo,
    ensures
        claim_inv(s, nodes, owner, v, nodes.len() as int, kids, 0, k),
{
    reveal(pending_all);
    reveal(claim_inv);
    assert forall|y: int, j: int|
        0 <= y < kids.len() && (#[trigger] kids[y]).lo <= j < kids[y].hi && (y > 0 || j >= k)
            implies #[trigger] owner[j] == v by {
        assert(kid_ok(s, nodes[v], v, kids[y]));
        assert(nodes[v].lo <= j < nodes[v].hi);
    }
}

/// As long as a kid is still to be made, there is room for one more node.
proof fn lemma_room(
    keys: Seq<Vec<u8>>,
    order: Seq<usize>,
    nodes: Seq<NodeInfo>,
    owner: Seq<usize>,
    term: Seq<bool>,
    slack: Seq<int>,
    fin: Seq<int>,
    v: int,
    kids: Seq<NodeInfo>,
    x: int,
    first: int,
)
    requires
        total_len(keys) <= MAX_TOTAL,
        forall|k: int| 0 <= k < order.len() ==> order[k] < keys.len(),
        budget_inv(keys, order, nodes, owner, term, slack, fin),
        0 <= v < nodes.len(),
        0 <= x < kids.len(),
        family_ok(picked(keys, order), nodes[v], v, kids, first),
        claim_inv(picked(keys, order), nodes, owner, v, nodes.len() as int, kids, x, kids[x].lo as int),
    ensures
        nodes.len() + 1 <= MAX_NODES,
        owner.len() == order.len(),
        kids[x].lo < kids[x].hi <= order.len(),
{
    reveal(budget_inv);
    reveal(claim_inv);
    let s = picked(keys, order);
    let a = kids[x].lo as int;
    assert(kid_ok(s, nodes[v], v, kids[x]));
    let ia = order[a] as int;
    assert(owner[a] == v);
    lemma_sum_bound(slack, ia);
}

/// The tree after kid `x` of `v` has been appended.
proof fn lemma_child_shape(
    s: Seq<Seq<u8>>,
    nodes: Seq<NodeInfo>,
    louds: Seq<bool>,
    term: Seq<bool>,
    cbs: Seq<int>,
    v: int,
    weights: Seq<u32>,
    ordered: bool,
    kids: Seq<NodeInfo>,
    x: int,
    first: int,
)
    requires
        strictly_sorted(s),
        shape_inv(s, nodes, louds, term, cbs, v, weights, ordered),
        0 <= v < nodes.len(),
        0 <= x < kids.len(),
        family_ok(s, nodes[v], v, kids, first),
        ordered ==> kids_by_weight(kids, weights),
        !ordered ==> kids_by_bytes(kids),
        cbs.len() == v + 1,
        made(nodes, cbs[v], kids, x),
    ensures
        shape_inv(
            s,
            nodes.push(kids[x]),
            louds.push(true),
            term.push(s[kids[x].lo as int].len() == kids[x].depth),
            cbs,
            v,
            weights,
            ordered,
        ),
        made(nodes.push(kids[x]), cbs[v], kids, x + 1),
        node_ok(s, nodes.push(kids[x]), nodes.len() as int),
        forall|k: int| kids[x].lo < k < kids[x].hi ==> (#[trigger] s[k]).len() > kids[x].depth,
{
    reveal(shape_inv);
    let info = kids[x];
    let base = cbs[v];
    let c = nodes.len() as int;
    let nodes1 = nodes.push(info);
    let louds1 = louds.push(true);
    let is_end = s[info.lo as int].len() == info.depth;
    let term1 = term.push(is_end);
    let n1 = c + 1;
    assert(kid_ok(s, nodes[v], v, info));
    assert(node_ok(s, nodes, v));
    lemma_lcp(s[info.lo as int], s[info.hi - 1]);
    assert(node_ok(s, nodes1, c));
    assert forall|u: int| 0 <= u < n1 implies #[trigger] node_ok(s, nodes1, u) by {
        if u < c {
            assert(node_ok(s, nodes, u));
        }
    }
    lemma_count_push(louds, true, true, louds.len() as int);
    assert forall|u: int| 0 <= u <= v implies is_nth(louds1, false, u, #[trigger] cbs[u] + u) by {
        lemma_nth_push(louds, true, false, u, cbs[u] + u);
    }
    assert(louds_inv(louds1, cbs, n1, v));
    assert forall|j: int| 1 <= j < n1 implies {
        let p = (#[trigger] nodes1[j]).parent as int;
        &&& 0 <= p <= v
        &&& p < v ==> cbs[p] <= j < cbs[p + 1]
        &&& p == v ==> cbs[v] <= j
    } by {
        if j < c {
            assert(nodes[j].parent == nodes1[j].parent);
        }
    }
    // the children that `v` has are the kids before this one
    assert forall|j: int| 1 <= j < c && (#[trigger] nodes[j]).parent == v implies base <= j
        && nodes[j] == kids[j - base] && 0 <= j - base < x by {
        assert(nodes[base + (j - base)] == kids[j - base]);
    }
    assert forall|c1: int, c2: int|
        1 <= c1 < n1 && 1 <= c2 < n1 && c1 != c2 && (#[trigger] nodes1[c1]).parent == (
        #[trigger] nodes1[c2]).parent implies nodes1[c1].head != nodes1[c2].head by {
        if c1 < c && c2 < c {
            assert(nodes[c1].parent == nodes[c2].parent);
        } else if c1 < c {
            assert(nodes[c1].parent == v);
            assert(kids[c1 - base].head != kids[x].head);
        } else {
            assert(nodes[c2].parent == v);
            assert(kids[c2 - base].head != kids[x].head);
        }
    }
    assert forall|u: int| 0 <= u < n1 implies #[trigger] term1[u] == (s[nodes1[u].lo as int].len()
        == nodes1[u].depth) by {
        if u < c {
            assert(term[u] == term1[u]);
        }
    }
    if ordered {
        assert forall|c1: int, c2: int|
            1 <= c1 < c2 < n1 && (#[trigger] nodes1[c1]).parent == (
            #[trigger] nodes1[c2]).parent implies run_weight(
            weights,
            nodes1[c1].lo as int,
            nodes1[c1].hi as int,
        ) >= run_weight(weights, nodes1[c2].lo as int, nodes1[c2].hi as int) by {
            if c2 < c {
                assert(nodes[c1].parent == nodes[c2].parent);
            } else {
                assert(nodes[c1].parent == v);
                assert(kids[c1 - base].lo == nodes[c1].lo);
                assert(kids[x].lo == info.lo);
            }
        }
    }
    if !ordered {
        assert forall|c1: int, c2: int|
            1 <= c1 < c2 < n1 && (#[trigger] nodes1[c1]).parent == (
            #[trigger] nodes1[c2]).parent implies nodes1[c1].head < nodes1[c2].head by {
            if c2 < c {
                assert(nodes[c1].parent == nodes[c2].parent);
            } else {
                assert(nodes[c1].parent == v);
                assert(kids[c1 - base].head < kids[x].head);
            }
        }
    }
    assert forall|y: int| 0 <= y < x + 1 implies #[trigger] nodes1[base + y] == kids[y] by {
        if y < x {
            assert(nodes[base + y] == kids[y]);
        }
    }
    assert forall|k: int| info.lo < k < info.hi implies (#[trigger] s[k]).len() > info.depth by {
        lemma_range_lcp(s, nodes1, c, k);
    }
}

/// Ownership and the budget after kid `x` of `v` has been appended and
/// has taken the first key of its run.
proof fn lemma_child_claim(
    keys: Seq<Vec<u8>>,
    order: Seq<usize>,
    nodes: Seq<NodeInfo>,
    owner: Seq<usize>,
    term: Seq<bool>,
    slack: Seq<int>,
    fin: Seq<int>,
    v: int,
    kids: Seq<NodeInfo>,
    x: int,
    first: int,
) -> (r: (Seq<int>, Seq<int>))
    requires
        forall|k: int| 0 <= k < order.len() ==> order[k] < keys.len(),
        strictly_sorted(picked(keys, order)),
        nodes_ok(picked(keys, order), nodes),
        0 <= v < nodes.len(),
        nodes.len() < usize::MAX,
        term.len() == nodes.len(),
        0 <= x < kids.len(),
        family_ok(picked(keys, order), nodes[v], v, kids, first),
        budget_inv(keys, order, nodes, owner, term, slack, fin),
        claim_inv(picked(keys, order), nodes, owner, v, nodes.len() as int, kids, x, kids[x].lo as int),
    ensures
        ({
            let s = picked(keys, order);
            let info = kids[x];
            let c = nodes.len();
            let nodes1 = nodes.push(info);
            let owner1 = owner.update(info.lo as int, c as usize);
            let term1 = term.push(s[info.lo as int].len() == info.depth);
            &&& budget_inv(keys, order, nodes1, owner1, term1, r.0, r.1)
            &&& claim_inv(s, nodes1, owner1, v, c as int, kids, x, info.lo + 1)
        }),
{
    reveal(budget_inv);
    reveal(claim_inv);
    let s = picked(keys, order);
    let info = kids[x];
    let c = nodes.len() as int;
    let a = info.lo as int;
    let d = info.start as int;
    let dc = info.depth as int;
    assert(kid_ok(s, nodes[v], v, info));
    assert(node_ok(s, nodes, v));
    lemma_lcp(s[a], s[info.hi - 1]);
    lemma_range_lcp(s, nodes, v, a);
    let nodes1 = nodes.push(info);
    let owner1 = owner.update(a, c as usize);
    let is_end = s[a].len() == dc;
    let term1 = term.push(is_end);
    let ia = order[a] as int;
    assert(owner[a] == v);
    let slack1 = slack.update(ia, s[a].len() - dc);
    let fin1 = fin.update(
        a,
        if is_end {
            1int
        } else {
            0int
        },
    );
    lemma_sum_update(slack, ia, s[a].len() - dc);
    lemma_sum_update(
        fin,
        a,
        if is_end {
            1int
        } else {
            0int
        },
    );
    assert(fin[a] == 0);
    assert(label_lens(nodes1) =~= label_lens(nodes).push(dc - d));
    lemma_sum_push(label_lens(nodes), dc - d);
    lemma_count_bounds(term, true, c);
    lemma_count_push(term, is_end, true, term.len() as int);
    assert forall|k: int| 0 <= k < s.len() implies slack1[order[k] as int] == s[k].len() - nodes1[(
    #[trigger] owner1[k]) as int].depth by {
        if k != a {
            if order[k] == order[a] {
                lemma_order_injective(keys, order, k, a);
            }
            assert(owner1[k] == owner[k]);
        }
    }
    assert forall|k: int| 0 <= k < s.len() implies #[trigger] fin1[k] == if s[k].len()
        == nodes1[owner1[k] as int].depth {
        1int
    } else {
        0int
    } by {
        if k != a {
            assert(owner1[k] == owner[k]);
        }
    }
    assert forall|k: int| 0 <= k < owner1.len() implies {
        let o = #[trigger] owner1[k] as int;
        &&& 0 <= o < nodes1.len()
        &&& nodes1[o].lo <= k < nodes1[o].hi
        &&& o < v ==> k == nodes1[o].lo && s[k].len() == nodes1[o].depth
    } by {
        if k != a {
            assert(owner1[k] == owner[k]);
        }
    }
    assert forall|u: int, k: int|
        v + 1 <= u < c && (#[trigger] nodes1[u]).lo <= k < nodes1[u].hi implies #[trigger] owner1[k]
        == u by {
        assert(node_ok(s, nodes, u));
        assert(nodes[u].lo <= k < nodes[u].hi);
        assert(owner[k] == u);
    }
    assert forall|y: int, j: int|
        x <= y < kids.len() && (#[trigger] kids[y]).lo <= j < kids[y].hi && (y > x || j >= a + 1)
            implies #[trigger] owner1[j] == v by {
        assert(kid_ok(s, nodes[v], v, kids[y]));
        assert(owner[j] == v);
        if y > x {
            assert(kids[y].hi <= kids[x].lo || kids[x].hi <= kids[y].lo);
        }
    }
    (slack1, fin1)
}

/// Ownership and the budget after the newest node, kid `x`, has taken one
/// more key of its run.
proof fn lemma_claim_key(
    keys: Seq<Vec<u8>>,
    order: Seq<usize>,
    nodes: Seq<NodeInfo>,
    owner: Seq<usize>,
    term: Seq<bool>,
    slack: Seq<int>,
    fin: Seq<int>,
    v: int,
    kids: Seq<NodeInfo>,
    x: int,
    first: int,
    k: int,
) -> (r: Seq<int>)
    requires
        forall|j: int| 0 <= j < order.len() ==> order[j] < keys.len(),
        strictly_sorted(picked(keys, order)),
        2 <= nodes.len() <= usize::MAX,
        nodes_ok(picked(keys, order), nodes),
        0 <= v < nodes.len() - 1,
        0 <= x < kids.len(),
        family_ok(picked(keys, order), nodes[v], v, kids, first),
        nodes[nodes.len() - 1] == kids[x],
        budget_inv(keys, order, nodes, owner, term, slack, fin),
        claim_inv(picked(keys, order), nodes, owner, v, nodes.len() - 1, kids, x, k),
        kids[x].lo < k < kids[x].hi,
        picked(keys, order)[k].len() > kids[x].depth,
    ensures
        ({
            let s = picked(keys, order);
            let c = nodes.len() - 1;
            let owner1 = owner.update(k, c as usize);
            &&& budget_inv(keys, order, nodes, owner1, term, r, fin)
            &&& claim_inv(s, nodes, owner1, v, c, kids, x, k + 1)
        }),
{
    reveal(budget_inv);
    reveal(claim_inv);
    let s = picked(keys, order);
    let c = nodes.len() - 1;
    let a = kids[x].lo as int;
    let dc = kids[x].depth as int;
    assert(kid_ok(s, nodes[v], v, kids[x]));
    assert(node_ok(s, nodes, v));
    let owner1 = owner.update(k, c as usize);
    let ik = order[k] as int;
    assert(owner[k] == v);
    let slack1 = slack.update(ik, s[k].len() - dc);
    lemma_sum_update(slack, ik, s[k].len() - dc);
    assert forall|j: int| 0 <= j < s.len() implies slack1[order[j] as int] == s[j].len() - nodes[(
    #[trigger] owner1[j]) as int].depth by {
        if j != k {
            if order[j] == order[k] {
                lemma_order_injective(keys, order, j, k);
            }
            assert(owner1[j] == owner[j]);
        }
    }
    assert forall|j: int| 0 <= j < s.len() implies #[trigger] fin[j] == if s[j].len()
        == nodes[owner1[j] as int].depth {
        1int
    } else {
        0int
    } by {
        if j != k {
            assert(owner1[j] == owner[j]);
        } else {
            assert(owner[k] == v);
        }
    }
    assert forall|j: int| 0 <= j < owner1.len() implies {
        let o = #[trigger] owner1[j] as int;
        &&& 0 <= o < nodes.len()
        &&& nodes[o].lo <= j < nodes[o].hi
        &&& o < v ==> j == nodes[o].lo && s[j].len() == nodes[o].depth
    } by {
        if j != k {
            assert(owner1[j] == owner[j]);
        }
    }
    assert forall|u: int, j: int|
        v + 1 <= u < c && (#[trigger] nodes[u]).lo <= j < nodes[u].hi implies #[trigger] owner1[j]
        == u by {
        assert(node_ok(s, nodes, u));
        assert(owner[j] == u);
    }
    assert forall|y: int, j: int|
        x <= y < kids.len() && (#[trigger] kids[y]).lo <= j < kids[y].hi && (y > x || j >= k + 1)
            implies #[trigger] owner1[j] == v by {
        assert(kid_ok(s, nodes[v], v, kids[y]));
        assert(owner[j] == v);
        if y > x {
            assert(kids[y].hi <= kids[x].lo || kids[x].hi <= kids[y].lo);
        }
    }
    assert forall|j: int| a <= j < k + 1 implies #[trigger] owner1[j] == c by {
        if j != k {
            assert(owner[j] == c);
        }
    }
    slack1
}

/// The newest node, kid `x`, owns its whole run; the next kid is up.
proof fn lemma_end_group(
    s: Seq<Seq<u8>>,
    nodes: Seq<NodeInfo>,
    owner: Seq<usize>,
    v: int,
    kids: Seq<NodeInfo>,
    x: int,
    k: int,
)
    requires
        nodes.len() >= 2,
        0 <= v < nodes.len() - 1,
        0 <= x < kids.len(),
        nodes[nodes.len() - 1] == kids[x],
        claim_inv(s, nodes, owner, v, nodes.len() - 1, kids, x, kids[x].hi as int),
        x + 1 < kids.len() ==> k == kids[x + 1].lo,
    ensures
        claim_inv(s, nodes, owner, v, nodes.len() as int, kids, x + 1, k),
{
    reveal(claim_inv);
}

/// The tree and the ownership after the children of `v` have all been made.
proof fn lemma_close_node(
    s: Seq<Seq<u8>>,
    nodes: Seq<NodeInfo>,
    owner: Seq<usize>,
    louds: Seq<bool>,
    term: Seq<bool>,
    cbs: Seq<int>,
    v: int,
    weights: Seq<u32>,
    ordered: bool,
    kids: Seq<NodeInfo>,
    first: int,
    old_nodes: Seq<NodeInfo>,
    k: int,
)
    requires
        shape_inv(s, nodes, louds, term, cbs, v, weights, ordered),
        0 <= v < old_nodes.len() <= nodes.len(),
        old_nodes[v] == nodes[v],
        cbs.len() == v + 1,
        cbs[v] == old_nodes.len(),
        made(nodes, cbs[v], kids, kids.len() as int),
        family_ok(s, nodes[v], v, kids, first),
        first == nodes[v].lo + if s[nodes[v].lo as int].len() == nodes[v].depth {
            1int
        } else {
            0int
        },
        claim_inv(s, nodes, owner, v, nodes.len() as int, kids, kids.len() as int, k),
    ensures
        shape_inv(
            s,
            nodes,
            louds.push(false),
            term,
            cbs.push(nodes.len() as int),
            v + 1,
            weights,
            ordered,
        ),
        pending_all(s, nodes, owner, v + 1),
{
    reveal(shape_inv);
    reveal(claim_inv);
    reveal(pending_all);
    let n = nodes.len() as int;
    let base = cbs[v];
    let louds1 = louds.push(false);
    let cbs1 = cbs.push(n);
    lemma_count_push(louds, false, true, louds.len() as int);
    lemma_count_push(louds, false, false, louds.len() as int);
    lemma_count_split(louds, louds.len() as int);
    assert forall|u: int| 0 <= u <= v + 1 implies is_nth(louds1, false, u, #[trigger] cbs1[u] + u) by {
        if u <= v {
            assert(cbs1[u] == cbs[u]);
            lemma_nth_push(louds, false, false, u, cbs[u] + u);
        }
    }
    assert forall|u: int| 0 <= u <= v + 1 && u < n implies #[trigger] cbs1[u] > u by {
        if u <= v {
            assert(cbs1[u] == cbs[u]);
        }
    }
    assert(louds_inv(louds1, cbs1, n, v + 1));
    assert forall|c: int| 1 <= c < n implies {
        let p = (#[trigger] nodes[c]).parent as int;
        &&& 0 <= p <= v + 1
        &&& p < v + 1 ==> cbs1[p] <= c < cbs1[p + 1]
        &&& p == v + 1 ==> cbs1[v + 1] <= c
    } by {
        let p = nodes[c].parent as int;
        if p < v {
            assert(cbs1[p] == cbs[p] && cbs1[p + 1] == cbs[p + 1]);
        } else {
            assert(cbs1[p] == cbs[p]);
        }
    }
    // what `v` still owns is the key that ends at it
    assert forall|j: int| 0 <= j < owner.len() && #[trigger] owner[j] == v implies j == nodes[v].lo
        && s[j].len() == nodes[v].depth by {
        if j >= first {
            assert(covered(kids, j));
            let y = choose|y: int| 0 <= y < kids.len() && (#[trigger] kids[y]).lo <= j < kids[y].hi;
            assert(nodes[base + y] == kids[y]);
            assert(nodes[base + y].lo <= j < nodes[base + y].hi);
            assert(owner[j] == base + y);
        }
    }
}

/// The run of a node lies within the run of each of its ancestors.
proof fn lemma_anc_range(nodes: Seq<NodeInfo>, s: Seq<Seq<u8>>, t: Tree, c: int, w: int)
    requires
        nodes_ok(s, nodes),
        forall|x: int| 1 <= x < nodes.len() ==> #[trigger] t.parent(x) == nodes[x].parent,
        0 <= c,
        w < nodes.len(),
        t.anc(c, w),
    ensures
        nodes[c].lo <= nodes[w].lo,
        nodes[w].hi <= nodes[c].hi,
    decreases w,
{
    if w != c {
        let p = t.parent(w);
        t.lemma_anc_le(c, p);
        lemma_anc_range(nodes, s, t, c, p);
        assert(node_ok(s, nodes, w));
    }
}

/// The weight of a run is the weight of the keys that start with a
/// prefix, where the run holds exactly those keys.
proof fn lemma_under_run(
    s: Seq<Seq<u8>>,
    weights: Seq<u32>,
    prefix: Seq<u8>,
    lo: int,
    hi: int,
    upto: int,
)
    requires
        0 <= lo <= hi <= s.len(),
        0 <= upto <= s.len(),
        forall|g: int| 0 <= g < s.len() ==> (lo <= g < hi <==> prefix.is_prefix_of(#[trigger] s[g])),
    ensures
        under_weight(s, weights, prefix, upto) == run_weight(
            weights,
            lo,
            if upto < lo {
                lo
            } else if upto < hi {
                upto
            } else {
                hi
            },
        ),
    decreases upto,
{
    if upto > 0 {
        lemma_under_run(s, weights, prefix, lo, hi, upto - 1);
        assert(lo <= upto - 1 < hi <==> prefix.is_prefix_of(s[upto - 1]));
    }
    assert(run_weight(weights, lo, lo) == 0);
}

/// The weight of the run of a node is the weight of the keys that start
/// with its path.
proof fn lemma_node_weight(
    s: Seq<Seq<u8>>,
    nodes: Seq<NodeInfo>,
    owner: Seq<usize>,
    t: Tree,
    weights: Seq<u32>,
    c: int,
)
    requires
        strictly_sorted(s),
        nodes_ok(s, nodes),
        t.wf(),
        t.nodes() == nodes.len(),
        t.labels == Seq::new(nodes.len(), |u: int| label_of(s, nodes, u)),
        forall|x: int| 1 <= x < nodes.len() ==> #[trigger] t.parent(x) == nodes[x].parent,
        owner_inv(s, nodes, owner, nodes.len() as int),
        0 <= c < nodes.len(),
    ensures
        run_weight(weights, nodes[c].lo as int, nodes[c].hi as int) == under_weight(
            s,
            weights,
            t.path(c),
            s.len() as int,
        ),
{
    let lo = nodes[c].lo as int;
    let hi = nodes[c].hi as int;
    let d = nodes[c].depth as int;
    let p = t.path(c);
    assert(node_ok(s, nodes, c));
    lemma_shape_path(s, nodes, t, c);
    assert forall|g: int| 0 <= g < s.len() implies (lo <= g < hi <==> p.is_prefix_of(
        #[trigger] s[g],
    )) by {
        if lo <= g < hi {
            lemma_range_lcp(s, nodes, c, g);
            assert(p =~= s[g].subrange(0, d));
        }
        if p.is_prefix_of(s[g]) {
            let w = owner[g] as int;
            assert(g == nodes[w].lo && s[g].len() == nodes[w].depth);
            lemma_shape_path(s, nodes, t, w);
            assert(s[g].subrange(0, s[g].len() as int) =~= s[g]);
            t.lemma_prefix_anc(c, w);
            lemma_anc_range(nodes, s, t, c, w);
            assert(node_ok(s, nodes, w));
        }
    }
    lemma_under_run(s, weights, p, lo, hi, s.len() as int);
}

/// When every node has been taken up, the tree is that of the keys.
proof fn lemma_finish(
    keys: Seq<Vec<u8>>,
    order: Seq<usize>,
    weights: Seq<u32>,
    ordered: bool,
    r: &Shape,
    flags: Seq<bool>,
    cbs: Seq<int>,
    slack: Seq<int>,
    fin: Seq<int>,
)
    requires
        strictly_sorted(picked(keys, order)),
        r.louds.wf(),
        r.terminal.wf(),
        r.nodes@.len() <= MAX_NODES,
        shape_inv(
            picked(keys, order),
            r.nodes@,
            r.louds@,
            flags,
            cbs,
            r.nodes@.len() as int,
            weights,
            ordered,
        ),
        pending_all(picked(keys, order), r.nodes@, r.owner@, r.nodes@.len() as int),
        budget_inv(keys, order, r.nodes@, r.owner@, flags, slack, fin),
        r.terminal@.len() == r.louds@.len(),
        flags.len() == r.nodes@.len(),
        forall|u: int| 0 <= u < flags.len() ==> r.terminal@[u] == flags[u],
        count_bits(r.terminal@, true, r.terminal@.len() as int) == count_bits(
            flags,
            true,
            flags.len() as int,
        ),
    ensures
        shape_ok(keys, order, weights, ordered, r),
{
    reveal(shape_inv);
    reveal(pending_all);
    reveal(budget_inv);
    let s = picked(keys, order);
    let n = r.nodes@.len() as int;
    let m = s.len() as int;
    let t = shape_tree(s, r);
    lemma_count_agree(flags, t.terminal, true, n);
    assert(t.nodes() == n);
    assert forall|u: int| 0 <= u < n implies #[trigger] t.child_begin(u) > u by {
        assert(is_nth(t.louds, false, u, cbs[u] + u));
        lemma_select_is(t.louds, false, u, cbs[u] + u);
    }
    assert(t.louds_ok());
    assert forall|c: int| 1 <= c < n implies #[trigger] t.parent(c) == r.nodes@[c].parent by {
        let p = r.nodes@[c].parent as int;
        assert(node_ok(s, r.nodes@, c));
        assert(is_nth(t.louds, false, p, cbs[p] + p));
        assert(is_nth(t.louds, false, p + 1, cbs[p + 1] + (p + 1)));
        lemma_select_is(t.louds, false, p, cbs[p] + p);
        lemma_select_is(t.louds, false, p + 1, cbs[p + 1] + p + 1);
        t.lemma_parent_unique(p, c);
    }
    assert forall|u: int| 1 <= u < n implies (#[trigger] t.labels[u]).len() >= 1 && t.labels[u][0]
        == r.nodes@[u].head by {
        assert(node_ok(s, r.nodes@, u));
    }
    assert forall|c1: int, c2: int|
        1 <= c1 < n && 1 <= c2 < n && c1 != c2 && #[trigger] t.parent(c1) == #[trigger] t.parent(
            c2,
        ) implies t.labels[c1][0] != t.labels[c2][0] by {
        assert(r.nodes@[c1].parent == r.nodes@[c2].parent);
    }
    assert(t.wf());
    if !ordered {
        assert forall|c1: int, c2: int|
            1 <= c1 < c2 < n && #[trigger] t.parent(c1) == #[trigger] t.parent(c2) implies t.labels[c1][0]
            < t.labels[c2][0] by {
            assert(r.nodes@[c1].parent == r.nodes@[c2].parent);
        }
    }
    if ordered {
        assert forall|c1: int, c2: int|
            1 <= c1 < c2 < n && #[trigger] t.parent(c1) == #[trigger] t.parent(
                c2,
            ) implies under_weight(s, weights, t.path(c1), m) >= under_weight(
            s,
            weights,
            t.path(c2),
            m,
        ) by {
            assert(r.nodes@[c1].parent == r.nodes@[c2].parent);
            lemma_node_weight(s, r.nodes@, r.owner@, t, weights, c1);
            lemma_node_weight(s, r.nodes@, r.owner@, t, weights, c2);
        }
    }
    assert forall|k: int| 0 <= k < m implies fin[k] == 1 by {
        assert(r.owner@[k] < n);
    }
    lemma_sum_all(fin, 1);
    assert forall|k: int| 0 <= k < s.len() implies {
        let o = #[trigger] r.owner@[k];
        &&& o < r.nodes@.len()
        &&& t.terminal[o as int]
        &&& t.path(o as int) == s[k]
    } by {
        let o = r.owner@[k] as int;
        lemma_shape_path(s, r.nodes@, t, o);
        assert(flags[o]);
        assert(s[k].subrange(0, s[k].len() as int) =~= s[k]);
    }
    assert forall|u: int| 0 <= u < n && #[trigger] t.terminal[u] implies r.nodes@[u].lo < s.len()
        && t.path(u) == s[r.nodes@[u].lo as int] by {
        assert(node_ok(s, r.nodes@, u));
        lemma_shape_path(s, r.nodes@, t, u);
        assert(flags[u]);
        let key = s[r.nodes@[u].lo as int];
        assert(key.subrange(0, key.len() as int) =~= key);
    }
    lemma_sum_nonneg(slack);
}

/// The weight of the keys `lo..hi` together.
fn weigh(weights: &Vec<u32>, lo: usize, hi: usize) -> (r: u32)
    requires
        lo <= hi <= weights@.len(),
    ensures
        r == run_weight(weights@, lo as int, hi as int),
{
    let mut r: u32 = 0;
    let mut k: usize = lo;
    while k < hi
        invariant
            lo <= k <= hi <= weights@.len(),
            r == run_weight(weights@, lo as int, k as int),
        decreases hi - k,
    {
        r = add_weights(r, weights[k]);
        k = k + 1;
    }
    r
}

/// The children that node `v` is to get, in the order of their first
/// bytes, each with the weight of its keys.
fn scan_kids(
    keys: &Vec<Vec<u8>>,
    order: &Vec<usize>,
    weights: &Vec<u32>,
    nodes: &Vec<NodeInfo>,
    v: usize,
    first: usize,
) -> (r: (Vec<NodeInfo>, Vec<u32>))
    requires
        forall|k: int| 0 <= k < order@.len() ==> order@[k] < keys@.len(),
        strictly_sorted(picked(keys@, order@)),
        weights@.len() == order@.len(),
        v < nodes@.len(),
        node_ok(picked(keys@, order@), nodes@, v as int),
        first == nodes@[v as int].lo + if picked(keys@, order@)[nodes@[v as int].lo as int].len()
            == nodes@[v as int].depth {
            1int
        } else {
            0int
        },
    ensures
        family_ok(picked(keys@, order@), nodes@[v as int], v as int, r.0@, first as int),
        kids_by_bytes(r.0@),
        r.1@.len() == r.0@.len(),
        forall|y: int|
            0 <= y < r.0@.len() ==> #[trigger] r.1@[y] == run_weight(
                weights@,
                r.0@[y].lo as int,
                r.0@[y].hi as int,
            ),
{
    let ghost s = picked(keys@, order@);
    let x = nodes[v];
    let hi = x.hi;
    let d = x.depth;
    let mut kids: Vec<NodeInfo> = Vec::new();
    let mut kid_weights: Vec<u32> = Vec::new();
    let mut i: usize = first;
    let ghost mut last: int = -1;
    proof {
        assert forall|k: int| first <= k < hi implies (#[trigger] s[k]).len() > d by {
            lemma_range_lcp(s, nodes@, v as int, k);
        }
    }
    while i < hi
        invariant
            s == picked(keys@, order@),
            forall|k: int| 0 <= k < order@.len() ==> order@[k] < keys@.len(),
            strictly_sorted(s),
            weights@.len() == order@.len(),
            v < nodes@.len(),
            node_ok(s, nodes@, v as int),
            x == nodes@[v as int],
            hi == x.hi,
            d == x.depth,
            x.lo <= first <= i <= hi <= order@.len(),
            forall|k: int| i <= k < hi ==> (#[trigger] s[k]).len() > d,
            forall|y: int| 0 <= y < kids@.len() ==> kid_ok(s, x, v as int, #[trigger] kids@[y]),
            forall|y: int| 0 <= y < kids@.len() ==> (#[trigger] kids@[y]).hi <= i,
            forall|y1: int, y2: int|
                0 <= y1 < y2 < kids@.len() ==> (#[trigger] kids@[y1]).hi <= (#[trigger] kids@[y2]).lo,
            forall|y1: int, y2: int|
                0 <= y1 < y2 < kids@.len() ==> (#[trigger] kids@[y1]).head < (
                #[trigger] kids@[y2]).head,
            forall|y: int| 0 <= y < kids@.len() ==> (#[trigger] kids@[y]).head <= last,
            i < hi ==> last < s[i as int][d as int],
            forall|k: int| first <= k < i ==> #[trigger] covered(kids@, k),
            kid_weights@.len() == kids@.len(),
            forall|y: int|
                0 <= y < kids@.len() ==> #[trigger] kid_weights@[y] == run_weight(
                    weights@,
                    kids@[y].lo as int,
                    kids@[y].hi as int,
                ),
        decreases hi - i,
    {
        let a = i;
        let ka = key_at(keys, order, a);
        assert(s[a as int].len() > d);
        let b = ka[d];
        let e = group_end(keys, order, a, hi, d, b);
        let kl = key_at(keys, order, e - 1);
        proof {
            lemma_range_lcp(s, nodes@, v as int, a as int);
            lemma_range_lcp(s, nodes@, v as int, e - 1);
            assert forall|j: int| 0 <= j < d + 1 implies ka@[j] == kl@[j] by {
                if j == d {
                    assert(s[e - 1][d as int] == b);
                }
            }
        }
        let dc = common_prefix(ka, kl, d + 1);
        let info = NodeInfo { lo: a, hi: e, start: d, depth: dc, parent: v, head: b };
        let w = weigh(weights, a, e);
        let ghost old_kids = kids@;
        kids.push(info);
        kid_weights.push(w);
        proof {
            assert(kid_ok(s, x, v as int, info));
            assert forall|k: int| first <= k < e implies #[trigger] covered(kids@, k) by {
                if k < a {
                    assert(covered(old_kids, k));
                    let y = choose|y: int|
                        0 <= y < old_kids.len() && (#[trigger] old_kids[y]).lo <= k < old_kids[y].hi;
                    assert(kids@[y] == old_kids[y]);
                } else {
                    assert(kids@[old_kids.len() as int].lo <= k < kids@[old_kids.len() as int].hi);
                }
            }
            if e < hi {
                lemma_range_bytes(s, nodes@, v as int, a as int, e as int);
            }
            last = b as int;
        }
        i = e;
    }
    (kids, kid_weights)
}

/// Swapping two kids that stand side by side leaves them a family.
proof fn lemma_swap_family(
    s: Seq<Seq<u8>>,
    x: NodeInfo,
    v: int,
    kids: Seq<NodeInfo>,
    first: int,
    b: int,
)
    requires
        family_ok(s, x, v, kids, first),
        0 < b < kids.len(),
    ensures
        family_ok(s, x, v, kids.update(b - 1, kids[b]).update(b, kids[b - 1]), first),
{
    let next = kids.update(b - 1, kids[b]).update(b, kids[b - 1]);
    let back = |y: int|
        if y == b {
            b - 1
        } else if y == b - 1 {
            b
        } else {
            y
        };
    assert forall|y: int| 0 <= y < next.len() implies next[y] == kids[back(y)] by {}
    assert forall|y: int| 0 <= y < next.len() implies kid_ok(s, x, v, #[trigger] next[y]) by {
        assert(kid_ok(s, x, v, kids[back(y)]));
    }
    assert forall|y1: int, y2: int|
        0 <= y1 < next.len() && 0 <= y2 < next.len() && y1 != y2 implies (#[trigger] next[y1]).head
        != (#[trigger] next[y2]).head by {
        assert(kids[back(y1)].head != kids[back(y2)].head);
    }
    assert forall|y1: int, y2: int|
        0 <= y1 < next.len() && 0 <= y2 < next.len() && y1 != y2 implies (#[trigger] next[y1]).hi
        <= (#[trigger] next[y2]).lo || next[y2].hi <= next[y1].lo by {
        assert(kids[back(y1)].hi <= kids[back(y2)].lo || kids[back(y2)].hi <= kids[back(y1)].lo);
    }
    assert forall|k: int| first <= k < x.hi implies #[trigger] covered(next, k) by {
        assert(covered(kids, k));
        let y = choose|y: int| 0 <= y < kids.len() && (#[trigger] kids[y]).lo <= k < kids[y].hi;
        assert(next[back(y)] == kids[y]);
    }
}

/// Puts the kids in the order of falling weight.
fn sort_kids(
    kids: &mut Vec<NodeInfo>,
    kid_weights: &mut Vec<u32>,
    Ghost(s): Ghost<Seq<Seq<u8>>>,
    Ghost(x): Ghost<NodeInfo>,
    Ghost(v): Ghost<int>,
    Ghost(first): Ghost<int>,
    Ghost(weights): Ghost<Seq<u32>>,
)
    requires
        family_ok(s, x, v, old(kids)@, first),
        old(kid_weights)@.len() == old(kids)@.len(),
        forall|y: int|
            0 <= y < old(kids)@.len() ==> #[trigger] old(kid_weights)@[y] == run_weight(
                weights,
                old(kids)@[y].lo as int,
                old(kids)@[y].hi as int,
            ),
    ensures
        family_ok(s, x, v, final(kids)@, first),
        final(kids)@.len() == old(kids)@.len(),
        kids_by_weight(final(kids)@, weights),
{
    let n = kids.len();
    let mut a: usize = 1;
    while a < n
        invariant
            n == kids@.len(),
            kid_weights@.len() == n,
            1 <= a,
            family_ok(s, x, v, kids@, first),
            forall|y: int|
                0 <= y < n ==> #[trigger] kid_weights@[y] == run_weight(
                    weights,
                    kids@[y].lo as int,
                    kids@[y].hi as int,
                ),
            forall|y1: int, y2: int|
                0 <= y1 < y2 < a && y2 < n ==> #[trigger] kid_weights@[y1] >= #[trigger] kid_weights@[y2],
        decreases n - a,
    {
        let mut b: usize = a;
        while b > 0 && kid_weights[b - 1] < kid_weights[b]
            invariant
                n == kids@.len(),
                kid_weights@.len() == n,
                b <= a < n,
                family_ok(s, x, v, kids@, first),
                forall|y: int|
                    0 <= y < n ==> #[trigger] kid_weights@[y] == run_weight(
                        weights,
                        kids@[y].lo as int,
                        kids@[y].hi as int,
                    ),
                forall|y1: int, y2: int|
                    0 <= y1 < y2 <= a && y1 != b && y2 != b ==> #[trigger] kid_weights@[y1]
                        >= #[trigger] kid_weights@[y2],
                forall|y2: int| b < y2 <= a ==> kid_weights@[b as int] > #[trigger] kid_weights@[y2],
            decreases b,
        {
            let k1 = kids[b - 1];
            let k2 = kids[b];
            let w1 = kid_weights[b - 1];
            let w2 = kid_weights[b];
            proof {
                lemma_swap_family(s, x, v, kids@, first, b as int);
            }
            kids.set(b - 1, k2);
            kids.set(b, k1);
            kid_weights.set(b - 1, w2);
            kid_weights.set(b, w1);
            b = b - 1;
        }
        a = a + 1;
    }
    proof {
        assert forall|y1: int, y2: int| 0 <= y1 < y2 < kids@.len() implies run_weight(
            weights,
            (#[trigger] kids@[y1]).lo as int,
            kids@[y1].hi as int,
        ) >= run_weight(weights, (#[trigger] kids@[y2]).lo as int, kids@[y2].hi as int) by {
            assert(kid_weights@[y1] >= kid_weights@[y2]);
        }
    }
}

/// Builds the tree of the keys that `order` names, which are sorted and
/// distinct. If `ordered`, the children of each node stand by falling
/// weight of their keys, else by their first bytes.
pub fn build_shape(
    keys: &Vec<Vec<u8>>,
    order: &Vec<usize>,
    weights: &Vec<u32>,
    ordered: bool,
) -> (r: Shape)
    requires
        order@.len() >= 1,
        forall|k: int| 0 <= k < order@.len() ==> order@[k] < keys@.len(),
        strictly_sorted(picked(keys@, order@)),
        total_len(keys@) <= MAX_TOTAL,
        weights@.len() == order@.len(),
    ensures
        shape_ok(keys@, order@, weights@, ordered, &r),
{
    let ghost s = picked(keys@, order@);
    let ghost ws = weights@;
    let m = order.len();
    let mut louds = BitVector::new();
    louds.push(true);
    louds.push(false);
    let mut term = BitVector::new();
    let first_len = key_at(keys, order, 0).len();
    term.push(first_len == 0);
    let mut nodes: Vec<NodeInfo> = Vec::new();
    nodes.push(NodeInfo { lo: 0, hi: m, start: 0, depth: 0, parent: 0, head: 0 });
    let mut owner: Vec<usize> = Vec::new();
    while owner.len() < m
        invariant
            owner@.len() <= m,
            forall|k: int| 0 <= k < owner@.len() ==> owner@[k] == 0,
        decreases m - owner@.len(),
    {
        owner.push(0);
    }
    let ghost mut cbs: Seq<int>;
    let ghost mut slack: Seq<int>;
    let ghost mut fin: Seq<int>;
    proof {
        let start = lemma_start(keys@, order@, owner@, ws, ordered);
        assert(nodes@ =~= start.0);
        cbs = start.3;
        slack = start.4;
        fin = start.5;
        lemma_shape_facts(s, nodes@, louds@, term@, cbs, 0, ws, ordered);
    }
    let mut v: usize = 0;
    while v < nodes.len()
        invariant
            s == picked(keys@, order@),
            ws == weights@,
            ws.len() == order@.len(),
            m == order@.len(),
            m >= 1,
            forall|k: int| 0 <= k < order@.len() ==> order@[k] < keys@.len(),
            strictly_sorted(s),
            total_len(keys@) <= MAX_TOTAL,
            louds.wf(),
            term.wf(),
            owner@.len() == m,
            v <= nodes@.len() <= MAX_NODES,
            shape_inv(s, nodes@, louds@, term@, cbs, v as int, ws, ordered),
            cbs.len() == v + 1,
            cbs[v as int] == nodes@.len(),
            pending_all(s, nodes@, owner@, v as int),
            budget_inv(keys@, order@, nodes@, owner@, term@, slack, fin),
        decreases MAX_NODES - v,
    {
        proof {
            lemma_shape_facts(s, nodes@, louds@, term@, cbs, v as int, ws, ordered);
        }
        let node = nodes[v];
        assert(node_ok(s, nodes@, v as int));
        let first = if key_at(keys, order, node.lo).len() == node.depth {
            node.lo + 1
        } else {
            node.lo
        };
        let (mut kids, mut kid_weights) = scan_kids(keys, order, weights, &nodes, v, first);
        if ordered {
            sort_kids(
                &mut kids,
                &mut kid_weights,
                Ghost(s),
                Ghost(node),
                Ghost(v as int),
                Ghost(first as int),
                Ghost(ws),
            );
        }
        let ghost old_nodes = nodes@;
        let ghost base = nodes@.len() as int;
        let count = kids.len();
        let mut x: usize = 0;
        proof {
            lemma_begin_node(
                s,
                nodes@,
                owner@,
                v as int,
                kids@,
                first as int,
                if count > 0 {
                    kids@[0].lo as int
                } else {
                    0
                },
            );
        }
        while x < count
            invariant
                s == picked(keys@, order@),
                ws == weights@,
                m == order@.len(),
                forall|k: int| 0 <= k < order@.len() ==> order@[k] < keys@.len(),
                strictly_sorted(s),
                total_len(keys@) <= MAX_TOTAL,
                louds.wf(),
                term.wf(),
                owner@.len() == m,
                v < old_nodes.len() <= nodes@.len() <= MAX_NODES,
                node == nodes@[v as int],
                node == old_nodes[v as int],
                count == kids@.len(),
                x <= count,
                family_ok(s, node, v as int, kids@, first as int),
                ordered ==> kids_by_weight(kids@, ws),
                !ordered ==> kids_by_bytes(kids@),
                shape_inv(s, nodes@, louds@, term@, cbs, v as int, ws, ordered),
                cbs.len() == v + 1,
                cbs[v as int] == base,
                base == old_nodes.len(),
                made(nodes@, base, kids@, x as int),
                claim_inv(
                    s,
                    nodes@,
                    owner@,
                    v as int,
                    nodes@.len() as int,
                    kids@,
                    x as int,
                    if x < count {
                        kids@[x as int].lo as int
                    } else {
                        0
                    },
                ),
                budget_inv(keys@, order@, nodes@, owner@, term@, slack, fin),
            decreases count - x,
        {
            let info = kids[x];
            let a = info.lo;
            let e = info.hi;
            let c = nodes.len();
            proof {
                lemma_shape_facts(s, nodes@, louds@, term@, cbs, v as int, ws, ordered);
                lemma_room(
                    keys@,
                    order@,
                    nodes@,
                    owner@,
                    term@,
                    slack,
                    fin,
                    v as int,
                    kids@,
                    x as int,
                    first as int,
                );
                lemma_child_shape(
                    s,
                    nodes@,
                    louds@,
                    term@,
                    cbs,
                    v as int,
                    ws,
                    ordered,
                    kids@,
                    x as int,
                    first as int,
                );
                let next = lemma_child_claim(
                    keys@,
                    order@,
                    nodes@,
                    owner@,
                    term@,
                    slack,
                    fin,
                    v as int,
                    kids@,
                    x as int,
                    first as int,
                );
                slack = next.0;
                fin = next.1;
            }
            let is_end = key_at(keys, order, a).len() == info.depth;
            nodes.push(info);
            term.push(is_end);
            louds.push(true);
            owner.set(a, c);
            proof {
                lemma_shape_facts(s, nodes@, louds@, term@, cbs, v as int, ws, ordered);
            }
            let mut k: usize = a + 1;
            while k < e
                invariant
                    s == picked(keys@, order@),
                    m == order@.len(),
                    forall|j: int| 0 <= j < order@.len() ==> order@[j] < keys@.len(),
                    strictly_sorted(s),
                    owner@.len() == m,
                    v < c,
                    c + 1 == nodes@.len(),
                    nodes@.len() <= MAX_NODES,
                    x < kids@.len(),
                    info == kids@[x as int],
                    a == info.lo,
                    e == info.hi,
                    a < k <= e <= m,
                    nodes@[c as int] == info,
                    node == nodes@[v as int],
                    family_ok(s, node, v as int, kids@, first as int),
                    forall|j: int| a < j < e ==> (#[trigger] s[j]).len() > info.depth,
                    nodes_ok(s, nodes@),
                    claim_inv(s, nodes@, owner@, v as int, c as int, kids@, x as int, k as int),
                    budget_inv(keys@, order@, nodes@, owner@, term@, slack, fin),
                decreases e - k,
            {
                proof {
                    slack = lemma_claim_key(
                        keys@,
                        order@,
                        nodes@,
                        owner@,
                        term@,
                        slack,
                        fin,
                        v as int,
                        kids@,
                        x as int,
                        first as int,
                        k as int,
                    );
                }
                owner.set(k, c);
                k = k + 1;
            }
            proof {
                lemma_end_group(
                    s,
                    nodes@,
                    owner@,
                    v as int,
                    kids@,
                    x as int,
                    if x + 1 < count {
                        kids@[x + 1].lo as int
                    } else {
                        0
                    },
                );
            }
            x = x + 1;
        }
        proof {
            lemma_shape_facts(s, nodes@, louds@, term@, cbs, v as int, ws, ordered);
            lemma_close_node(
                s,
                nodes@,
                owner@,
                louds@,
                term@,
                cbs,
                v as int,
                ws,
                ordered,
                kids@,
                first as int,
                old_nodes,
                0,
            );
            cbs = cbs.push(nodes@.len() as int);
        }
        louds.push(false);
        v = v + 1;
    }
    let ghost n = nodes@.len() as int;
    let ghost flags = term@;
    proof {
        lemma_shape_facts(s, nodes@, louds@, term@, cbs, v as int, ws, ordered);
    }
    while term.len() < louds.len()
        invariant
            louds.wf(),
            term.wf(),
            louds@.len() == 2 * n + 1,
            n <= term@.len() <= louds@.len(),
            n == flags.len(),
            forall|u: int| 0 <= u < n ==> term@[u] == flags[u],
            count_bits(term@, true, term@.len() as int) == count_bits(flags, true, n),
        decreases louds@.len() - term@.len(),
    {
        let ghost prev = term@;
        term.push(false);
        proof {
            lemma_count_push(prev, false, true, prev.len() as int);
        }
    }
    let r = Shape { louds, terminal: term, nodes, owner };
    proof {
        lemma_finish(keys@, order@, ws, ordered, &r, flags, cbs, slack, fin);
    }
    r
}

} // verus!
