//! Building the levels of a dictionary: the tree of the keys first, then,
//! as long as more levels are wanted and it is worth it, a tree of the label
//! tails of each level below it.

use vstd::prelude::*;
use crate::builder::combined_weight;
use crate::key::KeyView;
use crate::level::{lemma_level_frame, level_ok, level_tree, LevelView, TrieLevel, MAX_NODES};
use crate::lex::{bytes_equal, lemma_lex_irreflexive, lemma_lex_transitive, lex_lt};
use crate::shape::{
    build_shape, key_lens, label_lens, label_of, node_ok, nodes_ok, picked, shape_ok, shape_tree,
    siblings_by_bytes, siblings_by_weight, strictly_sorted, total_len, NodeInfo, Shape, MAX_TOTAL,
};
use crate::sort::{key_before, lemma_sorted_distinct, sort_keys, sorted, views};
use crate::sums::{lemma_sum_take, lemma_sum_take_step, sum};
use crate::tree::Tree;
use crate::trie::{append_bytes, cascade_ok, lemma_total_nodes_frame, total_nodes, views_of};
use crate::weight::add_weights;

verus! {

/// A level is built below another only if that has at least this many
/// label tails.
pub const MIN_CASCADE_TAILS: usize = 2;

/// For each key the run of equal keys that it belongs to, and for each
/// run the weights of its keys added up.
pub(crate) fn merge_weights(
    keys: &Vec<Vec<u8>>,
    weights: &Vec<u32>,
    order: &Vec<usize>,
    distinct: &Vec<usize>,
    group_of: &Vec<usize>,
    Ghost(input): Ghost<Seq<KeyView>>,
) -> (r: (Vec<usize>, Vec<u32>))
    requires
        sorted(views(keys@), order@),
        order@.len() == keys@.len(),
        forall|i: usize| i < keys@.len() ==> order@.contains(i),
        input.len() == keys@.len(),
        weights@.len() == keys@.len(),
        forall|i: int|
            0 <= i < keys@.len() ==> (#[trigger] keys@[i])@ == input[i].bytes && weights@[i]
                == input[i].weight,
        forall|x: int| 0 <= x < distinct@.len() ==> #[trigger] distinct@[x] < keys@.len(),
        strictly_sorted(picked(keys@, distinct@)),
        group_of@.len() == order@.len(),
        forall|p: int|
            0 <= p < order@.len() ==> (#[trigger] group_of@[p]) < distinct@.len() && keys@[distinct@[group_of@[p] as int] as int]@
                == keys@[order@[p] as int]@,
    ensures
        r.0@.len() == keys@.len(),
        forall|i: int|
            0 <= i < keys@.len() ==> (#[trigger] r.0@[i]) < distinct@.len() && keys@[distinct@[r.0@[i] as int] as int]@
                == keys@[i]@,
        r.1@.len() == distinct@.len(),
        forall|g: int|
            0 <= g < distinct@.len() ==> #[trigger] r.1@[g] == combined_weight(
                input,
                keys@[distinct@[g] as int]@,
                input.len() as int,
            ),
{
    let n = keys.len();
    let ghost sv = views(keys@);
    let mut rec_group: Vec<usize> = Vec::new();
    let mut i: usize = 0;
    while i < n
        invariant
            i <= n,
            rec_group@.len() == i,
        decreases n - i,
    {
        rec_group.push(0);
        i = i + 1;
    }
    let mut p: usize = 0;
    while p < n
        invariant
            sv == views(keys@),
            sorted(sv, order@),
            n == keys@.len(),
            order@.len() == n,
            group_of@.len() == n,
            rec_group@.len() == n,
            p <= n,
            forall|q: int| 0 <= q < p ==> #[trigger] rec_group@[order@[q] as int] == group_of@[q],
        decreases n - p,
    {
        let ghost prev = rec_group@;
        rec_group.set(order[p], group_of[p]);
        proof {
            assert forall|q: int| 0 <= q < p + 1 implies #[trigger] rec_group@[order@[q] as int]
                == group_of@[q] by {
                if q < p {
                    if order@[q] == order@[p as int] {
                        lemma_sorted_distinct(sv, order@, q, p as int);
                    }
                    assert(rec_group@[order@[q] as int] == prev[order@[q] as int]);
                }
            }
        }
        p = p + 1;
    }
    proof {
        assert forall|i: int| 0 <= i < n implies (#[trigger] rec_group@[i]) < distinct@.len()
            && keys@[distinct@[rec_group@[i] as int] as int]@ == keys@[i]@ by {
            assert(order@.contains(i as usize));
            let q = choose|q: int| 0 <= q < order@.len() && order@[q] == i as usize;
            assert(rec_group@[order@[q] as int] == group_of@[q]);
        }
    }
    let groups = distinct.len();
    let mut merged: Vec<u32> = Vec::new();
    let mut g: usize = 0;
    while g < groups
        invariant
            g <= groups,
            merged@.len() == g,
            forall|h: int| 0 <= h < g ==> #[trigger] merged@[h] == 0,
        decreases groups - g,
    {
        merged.push(0);
        g = g + 1;
    }
    let mut i: usize = 0;
    while i < n
        invariant
            n == keys@.len(),
            input.len() == n,
            weights@.len() == n,
            forall|k: int|
                0 <= k < keys@.len() ==> (#[trigger] keys@[k])@ == input[k].bytes && weights@[k]
                    == input[k].weight,
            forall|x: int| 0 <= x < distinct@.len() ==> #[trigger] distinct@[x] < keys@.len(),
            strictly_sorted(picked(keys@, distinct@)),
            groups == distinct@.len(),
            rec_group@.len() == n,
            forall|k: int|
                0 <= k < n ==> (#[trigger] rec_group@[k]) < distinct@.len() && keys@[distinct@[rec_group@[k] as int] as int]@
                    == keys@[k]@,
            i <= n,
            merged@.len() == groups,
            forall|h: int|
                0 <= h < groups ==> #[trigger] merged@[h] == combined_weight(
                    input,
                    keys@[distinct@[h] as int]@,
                    i as int,
                ),
        decreases n - i,
    {
        let h = rec_group[i];
        let ghost prev = merged@;
        let sum = add_weights(merged[h], weights[i]);
        merged.set(h, sum);
        proof {
            let sd = picked(keys@, distinct@);
            assert forall|h2: int| 0 <= h2 < groups implies #[trigger] merged@[h2]
                == combined_weight(input, keys@[distinct@[h2] as int]@, i + 1) by {
                assert(input[i as int].bytes == keys@[i as int]@);
                if h2 != h {
                    assert(merged@[h2] == prev[h2]);
                    lemma_lex_irreflexive(sd[h2]);
                    if h2 < h {
                        assert(lex_lt(sd[h2], sd[h as int]));
                    } else {
                        assert(lex_lt(sd[h as int], sd[h2]));
                    }
                    assert(sd[h as int] == keys@[i as int]@);
                    assert(sd[h2] != input[i as int].bytes);
                } else {
                    assert(sd[h as int] == keys@[i as int]@);
                }
            }
        }
        i = i + 1;
    }
    (rec_group, merged)
}

/// Whether the keys hold no more than `limit` bytes together.
pub fn fits_within(keys: &Vec<Vec<u8>>, limit: usize) -> (r: bool)
    ensures
        r == (total_len(keys@) <= limit),
{
    let ghost lens = key_lens(keys@);
    let mut acc: usize = 0;
    let mut i: usize = 0;
    assert(lens.take(0) =~= Seq::<int>::empty());
    while i < keys.len()
        invariant
            lens == key_lens(keys@),
            i <= keys@.len(),
            acc == sum(lens.take(i as int)),
            acc <= limit,
        decreases keys@.len() - i,
    {
        let n = keys[i].len();
        proof {
            lemma_sum_take_step(lens, i as int);
            lemma_sum_take(lens, i + 1);
        }
        if n > limit - acc {
            return false;
        }
        acc = acc + n;
        i = i + 1;
    }
    assert(lens.take(i as int) =~= lens);
    true
}

/// The keys at positions `p` and `p + 1` of `order` are the same.
pub open spec fn equal_next(keys: Seq<Vec<u8>>, order: Seq<usize>, p: int) -> bool {
    keys[order[p] as int]@ == keys[order[p + 1] as int]@
}

/// Among sorted keys, equal keys stand side by side.
pub proof fn lemma_equal_adjacent(keys: Seq<Seq<u8>>, order: Seq<usize>, p: int, q: int)
    requires
        sorted(keys, order),
        0 <= p < q < order.len(),
        keys[order[p] as int] == keys[order[q] as int],
    ensures
        keys[order[p] as int] == keys[order[p + 1] as int],
{
    if p + 1 < q {
        let a = keys[order[p] as int];
        let b = keys[order[p + 1] as int];
        let c = keys[order[q] as int];
        assert(key_before(keys, order[p] as int, order[p + 1] as int));
        assert(key_before(keys, order[p + 1] as int, order[q] as int));
        lemma_lex_irreflexive(a);
        if a != b {
            if b != c {
                lemma_lex_transitive(a, b, c);
            }
        }
    }
}

/// The first index of each run of equal keys, the run that each sorted
/// position belongs to, and whether any run holds more than one key.
pub fn distinct_runs(keys: &Vec<Vec<u8>>, order: &Vec<usize>) -> (r: (Vec<usize>, Vec<usize>, bool))
    requires
        sorted(views(keys@), order@),
        order@.len() >= 1,
    ensures
        r.0@.len() >= 1,
        forall|x: int| 0 <= x < r.0@.len() ==> #[trigger] r.0@[x] < keys@.len(),
        strictly_sorted(picked(keys@, r.0@)),
        r.1@.len() == order@.len(),
        forall|p: int|
            0 <= p < order@.len() ==> (#[trigger] r.1@[p]) < r.0@.len() && keys@[r.0@[r.1@[p] as int] as int]@
                == keys@[order@[p] as int]@,
        r.2 <==> exists|p: int| 0 <= p < order@.len() - 1 && #[trigger] equal_next(keys@, order@, p),
{
    let ghost s = views(keys@);
    let mut distinct: Vec<usize> = Vec::new();
    let mut group_of: Vec<usize> = Vec::new();
    let mut dup = false;
    distinct.push(order[0]);
    group_of.push(0);
    let mut p: usize = 1;
    while p < order.len()
        invariant
            s == views(keys@),
            sorted(s, order@),
            1 <= p <= order@.len(),
            distinct@.len() >= 1,
            forall|x: int| 0 <= x < distinct@.len() ==> #[trigger] distinct@[x] < keys@.len(),
            strictly_sorted(picked(keys@, distinct@)),
            keys@[distinct@[distinct@.len() - 1] as int]@ == keys@[order@[p - 1] as int]@,
            group_of@.len() == p,
            forall|q: int|
                0 <= q < p ==> (#[trigger] group_of@[q]) < distinct@.len() && keys@[distinct@[group_of@[q] as int] as int]@
                    == keys@[order@[q] as int]@,
            dup <==> exists|q: int| 0 <= q < p - 1 && #[trigger] equal_next(keys@, order@, q),
        decreases order@.len() - p,
    {
        let prev = order[p - 1];
        let cur = order[p];
        let ghost old_distinct = distinct@;
        let ghost old_dup = dup;
        assert(key_before(s, order@[p - 1] as int, order@[p as int] as int));
        if bytes_equal(keys[prev].as_slice(), keys[cur].as_slice()) {
            dup = true;
            group_of.push(distinct.len() - 1);
        } else {
            distinct.push(cur);
            group_of.push(distinct.len() - 1);
            proof {
                let sd = picked(keys@, distinct@);
                let last = old_distinct.len() as int;
                assert(lex_lt(sd[last - 1], sd[last]));
                assert forall|i: int, k: int| 0 <= i < k < sd.len() implies lex_lt(
                    #[trigger] sd[i],
                    #[trigger] sd[k],
                ) by {
                    let so = picked(keys@, old_distinct);
                    assert(sd[i] == so[i]);
                    if k < last {
                        assert(sd[k] == so[k]);
                    } else if i < last - 1 {
                        assert(lex_lt(so[i], so[last - 1]));
                        lemma_lex_transitive(sd[i], sd[last - 1], sd[last]);
                    }
                }
            }
        }
        proof {
            assert forall|q: int| 0 <= q < p + 1 implies (#[trigger] group_of@[q]) < distinct@.len()
                && keys@[distinct@[group_of@[q] as int] as int]@ == keys@[order@[q] as int]@ by {
                if q < p {
                    assert(distinct@[group_of@[q] as int] == old_distinct[group_of@[q] as int]);
                }
            }
            if old_dup {
                let q = choose|q: int| 0 <= q < p - 1 && #[trigger] equal_next(keys@, order@, q);
                assert(0 <= q < p && equal_next(keys@, order@, q));
            }
            if dup && !old_dup {
                assert(equal_next(keys@, order@, p - 1));
            }
        }
        p = p + 1;
    }
    (distinct, group_of, dup)
}

/// Stores the labels of a shape as they are: the branching bytes apart,
/// the rest of each label in one buffer.
pub(crate) fn store_literal(
    keys: &Vec<Vec<u8>>,
    order: &Vec<usize>,
    shape: Shape,
    Ghost(weights): Ghost<Seq<u32>>,
    Ghost(ordered): Ghost<bool>,
) -> (r: (TrieLevel, Vec<usize>))
    requires
        forall|k: int| 0 <= k < order@.len() ==> order@[k] < keys@.len(),
        strictly_sorted(picked(keys@, order@)),
        total_len(keys@) <= MAX_TOTAL,
        shape_ok(keys@, order@, weights, ordered, &shape),
    ensures
        r.0.wf(),
        level_ok(seq![r.0@], 0),
        level_tree(seq![r.0@], 0) == shape_tree(picked(keys@, order@), &shape),
        r.1@ == shape.owner@,
{
    let ghost s = picked(keys@, order@);
    let ghost t = shape_tree(s, &shape);
    let Shape { louds, terminal, nodes, owner } = shape;
    let ghost lens = label_lens(nodes@);
    let n = nodes.len();
    let mut heads: Vec<u8> = Vec::new();
    let mut links: Vec<u32> = Vec::new();
    let mut tails: Vec<u8> = Vec::new();
    let mut u: usize = 0;
    proof {
        assert(lens.take(0) =~= Seq::<int>::empty());
        assert forall|j: int| 0 <= j < lens.len() implies lens[j] >= 0 by {
            assert(node_ok(s, nodes@, j));
        }
    }
    while u < n
        invariant
            s == picked(keys@, order@),
            forall|k: int| 0 <= k < order@.len() ==> order@[k] < keys@.len(),
            nodes_ok(s, nodes@),
            n == nodes@.len(),
            lens == label_lens(nodes@),
            forall|j: int| 0 <= j < lens.len() ==> lens[j] >= 0,
            sum(lens) <= MAX_TOTAL,
            u <= n,
            heads@.len() == u,
            links@.len() == u,
            tails@.len() <= sum(lens.take(u as int)),
            sum(lens.take(u as int)) <= MAX_TOTAL,
            forall|j: int| 0 <= j < u ==> #[trigger] heads@[j] == nodes@[j].head,
            forall|j: int| 0 <= j < u ==> #[trigger] links@[j] <= tails@.len(),
            forall|i: int, j: int| 0 <= i <= j < u ==> #[trigger] links@[i] <= #[trigger] links@[j],
            u > 0 ==> links@[0] == 0 && links@[u - 1] == tails@.len(),
            forall|j: int|
                1 <= j < u ==> tails@.subrange(links@[j - 1] as int, (#[trigger] links@[j]) as int)
                    == s[nodes@[j].lo as int].subrange(nodes@[j].start + 1, nodes@[j].depth as int),
        decreases n - u,
    {
        let x = nodes[u];
        let ghost old_tails = tails@;
        let ghost old_links = links@;
        proof {
            assert(node_ok(s, nodes@, u as int));
            lemma_sum_take_step(lens, u as int);
            lemma_sum_take(lens, u + 1);
        }
        heads.push(x.head);
        if u > 0 {
            let key = keys[order[x.lo]].as_slice();
            append_bytes(&mut tails, key, x.start + 1, x.depth);
        }
        links.push(tails.len() as u32);
        proof {
            assert forall|j: int| 1 <= j < u + 1 implies tails@.subrange(
                links@[j - 1] as int,
                (#[trigger] links@[j]) as int,
            ) == s[nodes@[j].lo as int].subrange(nodes@[j].start + 1, nodes@[j].depth as int) by {
                if j < u {
                    assert(links@[j] == old_links[j] && links@[j - 1] == old_links[j - 1]);
                    assert(tails@.subrange(links@[j - 1] as int, links@[j] as int)
                        =~= old_tails.subrange(old_links[j - 1] as int, old_links[j] as int));
                } else {
                    assert(links@[j - 1] == old_links[j - 1]);
                    assert(tails@.subrange(links@[j - 1] as int, links@[j] as int)
                        =~= s[nodes@[j].lo as int].subrange(
                        nodes@[j].start + 1,
                        nodes@[j].depth as int,
                    ));
                }
            }
            assert forall|i: int, j: int| 0 <= i <= j < u + 1 implies #[trigger] links@[i]
                <= #[trigger] links@[j] by {
                if j < u {
                    assert(links@[i] == old_links[i] && links@[j] == old_links[j]);
                } else if i < u {
                    assert(links@[i] == old_links[i]);
                }
            }
        }
        u = u + 1;
    }
    let level = TrieLevel::new(louds, terminal, heads, links, tails);
    proof {
        let lv = level@;
        let levels = seq![lv];
        let lt = level_tree(levels, 0);
        assert(levels[0] == lv);
        assert forall|v: int| 0 <= v < n implies #[trigger] lt.labels[v] == t.labels[v] by {
            if v > 0 {
                assert(node_ok(s, nodes@, v));
                let key = s[nodes@[v].lo as int];
                assert(lv.tail(v, false, Seq::empty()) == key.subrange(
                    nodes@[v].start + 1,
                    nodes@[v].depth as int,
                ));
                assert(lt.labels[v] =~= key.subrange(nodes@[v].start as int, nodes@[v].depth as int));
            }
        }
        assert(lt.labels =~= t.labels);
        assert(lt == t);
    }
    (level, owner)
}

/// Keys put in order: the sorted indices, the first index of each run of
/// equal keys, the run of each key, the weight of each run, and whether
/// any run holds more than one key.
pub struct Runs {
    pub order: Vec<usize>,
    pub distinct: Vec<usize>,
    pub rec_group: Vec<usize>,
    pub merged: Vec<u32>,
    pub dup: bool,
}

pub open spec fn runs_ok(keys: Seq<Vec<u8>>, input: Seq<KeyView>, r: &Runs) -> bool {
    &&& sorted(views(keys), r.order@)
    &&& r.order@.len() == keys.len()
    &&& forall|i: usize| i < keys.len() ==> r.order@.contains(i)
    &&& r.distinct@.len() >= 1
    &&& forall|x: int| 0 <= x < r.distinct@.len() ==> #[trigger] r.distinct@[x] < keys.len()
    &&& strictly_sorted(picked(keys, r.distinct@))
    &&& r.rec_group@.len() == keys.len()
    &&& forall|i: int|
        0 <= i < keys.len() ==> (#[trigger] r.rec_group@[i]) < r.distinct@.len() && keys[r.distinct@[r.rec_group@[i] as int] as int]@
            == keys[i]@
    &&& r.merged@.len() == r.distinct@.len()
    &&& forall|g: int|
        0 <= g < r.distinct@.len() ==> #[trigger] r.merged@[g] == combined_weight(
            input,
            keys[r.distinct@[g] as int]@,
            input.len() as int,
        )
    &&& r.dup <==> exists|p: int| 0 <= p < r.order@.len() - 1 && #[trigger] equal_next(keys, r.order@, p)
}

/// Sorts the keys and gathers equal keys into runs.
pub(crate) fn arrange(keys: &Vec<Vec<u8>>, weights: &Vec<u32>, Ghost(input): Ghost<Seq<KeyView>>) -> (r:
    Runs)
    requires
        keys@.len() >= 1,
        input.len() == keys@.len(),
        weights@.len() == keys@.len(),
        forall|i: int|
            0 <= i < keys@.len() ==> (#[trigger] keys@[i])@ == input[i].bytes && weights@[i]
                == input[i].weight,
    ensures
        runs_ok(keys@, input, &r),
{
    let order = sort_keys(keys);
    let (distinct, group_of, dup) = distinct_runs(keys, &order);
    let (rec_group, merged) = merge_weights(keys, weights, &order, &distinct, &group_of, Ghost(input));
    Runs { order, distinct, rec_group, merged, dup }
}

/// How many of the first `upto` nodes have a label of more than one byte,
/// which is to say a tail.
pub open spec fn tail_count(t: Tree, upto: int) -> int
    decreases upto,
{
    if upto <= 0 {
        0
    } else {
        tail_count(t, upto - 1) + if t.labels[upto - 1].len() >= 2 {
            1int
        } else {
            0int
        }
    }
}

/// How many bytes the tails of the first `upto` nodes hold together.
pub open spec fn tail_bytes(t: Tree, upto: int) -> int
    decreases upto,
{
    if upto <= 0 {
        0
    } else {
        tail_bytes(t, upto - 1) + if t.labels[upto - 1].len() >= 2 {
            t.labels[upto - 1].len() - 1
        } else {
            0int
        }
    }
}

/// Whether a level is built below the one with tree `t`: more levels are
/// wanted, the tails are enough to be worth it, and a tree of them fits
/// in the `room` that is left for nodes.
pub open spec fn goes_on(t: Tree, wanted: int, room: int) -> bool {
    &&& wanted > 1
    &&& t.nodes() < room
    &&& tail_count(t, t.nodes()) >= MIN_CASCADE_TAILS
    &&& tail_bytes(t, t.nodes()) <= room - t.nodes() - 1
}

/// Below each level but the deepest a level was built because it was to
/// be, and below the deepest none because it was not: `wanted` levels and
/// `room` nodes at most were to be had from the top down.
pub open spec fn levels_as_wanted(vs: Seq<LevelView>, wanted: int, room: int) -> bool {
    forall|j: int|
        0 <= j < vs.len() ==> (j > 0) == goes_on(
            #[trigger] level_tree(vs, j),
            wanted - (vs.len() - 1 - j),
            room - (total_nodes(vs, vs.len() as int) - total_nodes(vs, j + 1)),
        )
}

/// The label tails of a shape, and for each node one more than the index
/// of its tail among them, or zero if its label is a single byte.
fn collect_tails(
    keys: &Vec<Vec<u8>>,
    order: &Vec<usize>,
    nodes: &Vec<NodeInfo>,
    Ghost(t): Ghost<Tree>,
) -> (r: (Vec<Vec<u8>>, Vec<usize>))
    requires
        forall|k: int| 0 <= k < order@.len() ==> order@[k] < keys@.len(),
        nodes_ok(picked(keys@, order@), nodes@),
        t.labels == Seq::new(nodes@.len(), |u: int| label_of(picked(keys@, order@), nodes@, u)),
    ensures
        tails_of(picked(keys@, order@), nodes@, r.0@, r.1@),
        r.0@.len() == tail_count(t, nodes@.len() as int),
        total_len(r.0@) == tail_bytes(t, nodes@.len() as int),
{
    let ghost s = picked(keys@, order@);
    let n = nodes.len();
    let mut tails: Vec<Vec<u8>> = Vec::new();
    let mut tail_of: Vec<usize> = Vec::new();
    let mut v: usize = 0;
    while v < n
        invariant
            s == picked(keys@, order@),
            forall|k: int| 0 <= k < order@.len() ==> order@[k] < keys@.len(),
            nodes_ok(s, nodes@),
            n == nodes@.len(),
            v <= n,
            tail_of@.len() == v,
            tails@.len() <= v,
            t.labels == Seq::new(nodes@.len(), |u: int| label_of(s, nodes@, u)),
            tails@.len() == tail_count(t, v as int),
            total_len(tails@) == tail_bytes(t, v as int),
            forall|u: int| 0 <= u < v ==> tail_at(s, nodes@, tails@, #[trigger] tail_of@[u], u),
        decreases n - v,
    {
        let x = nodes[v];
        let ghost old_tails = tails@;
        proof {
            assert(node_ok(s, nodes@, v as int));
            assert(t.labels[v as int] == label_of(s, nodes@, v as int));
        }
        if v == 0 || x.depth - x.start == 1 {
            tail_of.push(0);
        } else {
            let mut tail: Vec<u8> = Vec::new();
            append_bytes(&mut tail, keys[order[x.lo]].as_slice(), x.start + 1, x.depth);
            proof {
                assert(key_lens(old_tails.push(tail)) =~= key_lens(old_tails).push(
                    tail@.len() as int,
                ));
                crate::sums::lemma_sum_push(key_lens(old_tails), tail@.len() as int);
            }
            tails.push(tail);
            tail_of.push(tails.len());
        }
        proof {
            assert forall|u: int| 0 <= u < v + 1 implies tail_at(
                s,
                nodes@,
                tails@,
                #[trigger] tail_of@[u],
                u,
            ) by {
                if u < v {
                    assert(tail_at(s, nodes@, old_tails, tail_of@[u], u));
                    if tail_of@[u] > 0 {
                        assert(tails@[tail_of@[u] - 1] == old_tails[tail_of@[u] - 1]);
                    }
                }
            }
        }
        v = v + 1;
    }
    (tails, tail_of)
}

/// `t` is zero and node `u` has no tail, or `t` is one more than the
/// index of the tail of node `u`.
pub open spec fn tail_at(
    s: Seq<Seq<u8>>,
    nodes: Seq<NodeInfo>,
    tails: Seq<Vec<u8>>,
    t: usize,
    u: int,
) -> bool {
    if u == 0 || nodes[u].depth - nodes[u].start == 1 {
        t == 0
    } else {
        &&& 1 <= t <= tails.len()
        &&& tails[t - 1]@ == s[nodes[u].lo as int].subrange(
            nodes[u].start + 1,
            nodes[u].depth as int,
        )
    }
}

pub open spec fn tails_of(
    s: Seq<Seq<u8>>,
    nodes: Seq<NodeInfo>,
    tails: Seq<Vec<u8>>,
    tail_of: Seq<usize>,
) -> bool {
    &&& tail_of.len() == nodes.len()
    &&& tails.len() <= nodes.len()
    &&& forall|u: int| 0 <= u < nodes.len() ==> tail_at(s, nodes, tails, #[trigger] tail_of[u], u)
}

/// Stores the labels of a shape above other levels: the branching bytes
/// as they are, and for the rest of each label the identifier that it has
/// as a key of the level below.
fn store_linked(
    shape: Shape,
    tail_of: &Vec<usize>,
    tail_ids: &Vec<u32>,
    Ghost(s): Ghost<Seq<Seq<u8>>>,
    Ghost(tails): Ghost<Seq<Vec<u8>>>,
    Ghost(lower): Ghost<Seq<LevelView>>,
) -> (r: TrieLevel)
    requires
        shape.louds.wf(),
        shape.terminal.wf(),
        nodes_ok(s, shape.nodes@),
        shape.nodes@.len() <= MAX_NODES,
        shape_tree(s, &shape).wf(),
        tails_of(s, shape.nodes@, tails, tail_of@),
        lower.len() >= 1,
        0 <= level_tree(lower, lower.len() - 1).num_keys() <= MAX_NODES,
        tail_ids@.len() == tails.len(),
        forall|i: int|
            0 <= i < tails.len() ==> (#[trigger] tail_ids@[i]) < level_tree(
                lower,
                lower.len() - 1,
            ).num_keys() && level_tree(lower, lower.len() - 1).keys()[tail_ids@[i] as int]
                == tails[i]@,
    ensures
        r.wf(),
        level_ok(lower.push(r@), lower.len() as int),
        level_tree(lower.push(r@), lower.len() as int) == shape_tree(s, &shape),
{
    let ghost t = shape_tree(s, &shape);
    let ghost lt = level_tree(lower, lower.len() - 1);
    let Shape { louds, terminal, nodes, owner } = shape;
    let n = nodes.len();
    let mut heads: Vec<u8> = Vec::new();
    let mut links: Vec<u32> = Vec::new();
    let mut u: usize = 0;
    while u < n
        invariant
            n == nodes@.len(),
            tails_of(s, nodes@, tails, tail_of@),
            lt.num_keys() <= MAX_NODES,
            tail_ids@.len() == tails.len(),
            forall|i: int|
                0 <= i < tails.len() ==> (#[trigger] tail_ids@[i]) < lt.num_keys() && lt.keys()[tail_ids@[i] as int]
                    == tails[i]@,
            u <= n,
            heads@.len() == u,
            links@.len() == u,
            forall|j: int| 0 <= j < u ==> #[trigger] heads@[j] == nodes@[j].head,
            forall|j: int|
                0 <= j < u ==> #[trigger] links@[j] == if tail_of@[j] == 0 {
                    0int
                } else {
                    1 + tail_ids@[tail_of@[j] - 1]
                },
        decreases n - u,
    {
        heads.push(nodes[u].head);
        let t_at = tail_of[u];
        proof {
            assert(tail_at(s, nodes@, tails, tail_of@[u as int], u as int));
        }
        if t_at == 0 {
            links.push(0);
        } else {
            links.push(1 + tail_ids[t_at - 1]);
        }
        u = u + 1;
    }
    let level = TrieLevel::new(louds, terminal, heads, links, Vec::new());
    proof {
        let lv = level@;
        let vs = lower.push(lv);
        let j = lower.len() as int;
        let tree = level_tree(vs, j);
        lemma_level_frame(lower, vs, j - 1);
        assert(vs[j] == lv);
        assert(level_tree(vs, j - 1) == lt);
        assert forall|v: int| 0 <= v < n implies #[trigger] tree.labels[v] == t.labels[v] by {
            if v > 0 {
                assert(node_ok(s, nodes@, v));
                assert(tail_at(s, nodes@, tails, tail_of@[v], v));
                let key = s[nodes@[v].lo as int];
                if tail_of@[v] > 0 {
                    assert(lv.links[v] - 1 == tail_ids@[tail_of@[v] - 1]);
                }
                assert(tree.labels[v] =~= key.subrange(nodes@[v].start as int, nodes@[v].depth as int));
            }
        }
        assert(tree.labels =~= t.labels);
        assert(tree == t);
        assert(tail_at(s, nodes@, tails, tail_of@[0], 0));
        assert forall|v: int| 0 <= v < n implies #[trigger] lv.links[v] <= lt.num_keys() by {
            assert(tail_at(s, nodes@, tails, tail_of@[v], v));
            if tail_of@[v] > 0 {
                assert(tail_ids@[tail_of@[v] - 1] < lt.num_keys());
            }
        }
    }
    level
}

/// What building the levels gives: a cascade in order of at most `wanted`
/// levels and at most `room` nodes, whose keys are exactly those that
/// `distinct` names; and for each of those, its identifier. In the
/// topmost tree siblings stand by falling weight if `ordered`, else by
/// rising first byte.
pub open spec fn cascade_built(
    keys: Seq<Vec<u8>>,
    distinct: Seq<usize>,
    weights: Seq<u32>,
    ordered: bool,
    wanted: int,
    room: int,
    r: &(Vec<TrieLevel>, usize, Vec<u32>),
) -> bool {
    let s = picked(keys, distinct);
    let vs = views_of(r.0@);
    let top = level_tree(vs, r.0@.len() - 1);
    &&& 1 <= r.0@.len() <= wanted
    &&& cascade_ok(r.0@)
    &&& r.1 == total_nodes(vs, r.0@.len() as int)
    &&& r.1 <= room
    &&& top.num_keys() == s.len()
    &&& r.2@.len() == s.len()
    &&& forall|g: int|
        0 <= g < s.len() ==> (#[trigger] r.2@[g]) < top.num_keys() && top.keys()[r.2@[g] as int]
            == s[g]
    &&& forall|id: int| 0 <= id < top.num_keys() ==> s.contains(#[trigger] top.keys()[id])
    &&& levels_as_wanted(vs, wanted, room)
    &&& ordered ==> siblings_by_weight(top, s, weights)
    &&& !ordered ==> siblings_by_bytes(top)
}

/// Builds the levels for the keys that `distinct` names, which are sorted
/// and distinct.
pub fn build_levels(
    keys: &Vec<Vec<u8>>,
    distinct: &Vec<usize>,
    weights: &Vec<u32>,
    ordered: bool,
    wanted: usize,
    room: usize,
) -> (r: (Vec<TrieLevel>, usize, Vec<u32>))
    requires
        distinct@.len() >= 1,
        forall|x: int| 0 <= x < distinct@.len() ==> #[trigger] distinct@[x] < keys@.len(),
        strictly_sorted(picked(keys@, distinct@)),
        weights@.len() == distinct@.len(),
        total_len(keys@) < room <= MAX_NODES,
        wanted >= 1,
    ensures
        cascade_built(keys@, distinct@, weights@, ordered, wanted as int, room as int, &r),
    decreases wanted,
{
    let ghost s = picked(keys@, distinct@);
    let shape = build_shape(keys, distinct, weights, ordered);
    let ghost t = shape_tree(s, &shape);
    let n = shape.nodes.len();
    let mut ids: Vec<u32> = Vec::new();
    let mut g: usize = 0;
    proof {
        t.lemma_num_keys();
    }
    while g < distinct.len()
        invariant
            s == picked(keys@, distinct@),
            t == shape_tree(s, &shape),
            shape_ok(keys@, distinct@, weights@, ordered, &shape),
            t.keys().len() == t.num_keys(),
            g <= distinct@.len(),
            ids@.len() == g,
            forall|h: int|
                0 <= h < g ==> (#[trigger] ids@[h]) < t.num_keys() && t.keys()[ids@[h] as int]
                    == s[h],
        decreases distinct@.len() - g,
    {
        let node = shape.owner[g];
        let id = shape.terminal.rank(true, node);
        proof {
            assert(shape.owner@[g as int] == node);
            t.lemma_node_key(node as int);
        }
        ids.push(id as u32);
        g = g + 1;
    }
    proof {
        assert forall|id: int| 0 <= id < t.num_keys() implies s.contains(#[trigger] t.keys()[id]) by {
            t.lemma_key_node(id);
            let w = t.key_node(id);
            assert(t.terminal[w]);
            assert(s[shape.nodes@[w].lo as int] == t.keys()[id]);
        }
    }
    let (tails, tail_of, deeper) = if wanted > 1 && n < room {
        let (tails, tail_of) = collect_tails(keys, distinct, &shape.nodes, Ghost(t));
        let deeper = tails.len() >= MIN_CASCADE_TAILS && fits_within(&tails, room - n - 1);
        (tails, tail_of, deeper)
    } else {
        (Vec::new(), Vec::new(), false)
    };
    // a level goes below this one exactly if the tails call for it
    assert(deeper == goes_on(t, wanted as int, room as int));
    if deeper {
        let mut ones: Vec<u32> = Vec::new();
        let mut i: usize = 0;
        while i < tails.len()
            invariant
                i <= tails@.len(),
                ones@.len() == i,
            decreases tails@.len() - i,
        {
            ones.push(1);
            i = i + 1;
        }
        let ghost input = Seq::new(
            tails@.len(),
            |i: int| KeyView { bytes: tails@[i]@, weight: ones@[i], id: None },
        );
        let runs = arrange(&tails, &ones, Ghost(input));
        let below = build_levels(&tails, &runs.distinct, &runs.merged, ordered, wanted - 1, room - n);
        let (lower, lower_total, run_ids) = below;
        let ghost lvs = views_of(lower@);
        let ghost lt = level_tree(lvs, lower@.len() - 1);
        let ghost sd = picked(tails@, runs.distinct@);
        let mut tail_ids: Vec<u32> = Vec::new();
        let mut i: usize = 0;
        while i < tails.len()
            invariant
                runs_ok(tails@, input, &runs),
                sd == picked(tails@, runs.distinct@),
                run_ids@.len() == sd.len(),
                forall|h: int|
                    0 <= h < sd.len() ==> (#[trigger] run_ids@[h]) < lt.num_keys() && lt.keys()[run_ids@[h] as int]
                        == sd[h],
                i <= tails@.len(),
                tail_ids@.len() == i,
                forall|k: int|
                    0 <= k < i ==> (#[trigger] tail_ids@[k]) < lt.num_keys() && lt.keys()[tail_ids@[k] as int]
                        == tails@[k]@,
            decreases tails@.len() - i,
        {
            let h = runs.rec_group[i];
            proof {
                assert(runs.rec_group@[i as int] == h);
                assert(sd[h as int] == tails@[i as int]@);
            }
            tail_ids.push(run_ids[h]);
            i = i + 1;
        }
        proof {
            assert(level_ok(lvs, lower@.len() - 1));
            lt.lemma_num_keys();
            crate::level::lemma_level_shape(lvs, lower@.len() - 1);
        }
        let level = store_linked(shape, &tail_of, &tail_ids, Ghost(s), Ghost(tails@), Ghost(lvs));
        let mut levels = lower;
        let ghost old_levels = levels@;
        levels.push(level);
        proof {
            let vs = views_of(levels@);
            let j = old_levels.len() as int;
            assert(vs =~= lvs.push(level@));
            assert forall|i: int| 0 <= i < levels@.len() implies (#[trigger] levels@[i]).wf()
                && level_ok(vs, i) by {
                if i < j {
                    assert(levels@[i] == old_levels[i]);
                    lemma_level_frame(lvs, vs, i);
                }
            }
            lemma_total_nodes_frame(lvs, vs, j);
            assert(vs[j] == level@);
            let total = lower_total + n;
            assert(total_nodes(vs, j + 1) == total);
            assert forall|i: int| 0 <= i < vs.len() implies (i > 0) == goes_on(
                #[trigger] level_tree(vs, i),
                wanted - (vs.len() - 1 - i),
                room - (total_nodes(vs, vs.len() as int) - total_nodes(vs, i + 1)),
            ) by {
                if i < j {
                    lemma_level_frame(lvs, vs, i);
                    lemma_total_nodes_frame(lvs, vs, i + 1);
                    assert((i > 0) == goes_on(
                        level_tree(lvs, i),
                        (wanted - 1) - (lvs.len() - 1 - i),
                        (room - n) - (total_nodes(lvs, lvs.len() as int) - total_nodes(
                            lvs,
                            i + 1,
                        )),
                    ));
                }
            }
        }
        return (levels, lower_total + n, ids);
    }
    let (level, owner) = store_literal(keys, distinct, shape, Ghost(weights@), Ghost(ordered));
    let mut levels: Vec<TrieLevel> = Vec::new();
    levels.push(level);
    proof {
        assert(views_of(levels@) =~= seq![level@]);
        assert(cascade_ok(levels@));
        assert(total_nodes(views_of(levels@), 0) == 0);
        assert(total_nodes(views_of(levels@), 1) == n);
        assert(level_tree(views_of(levels@), 0) == t);
    }
    (levels, n, ids)
}

} // verus!
