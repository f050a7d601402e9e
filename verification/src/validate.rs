//! Checking levels that were not built here: whether what they hold is a
//! cascade of well-formed trees.

use vstd::prelude::*;
use crate::bitseq::{count_bits, lemma_count_bounds, lemma_count_split};
use crate::level::{
    lemma_level_head, level_ok, level_tree, LevelView, TrieLevel, MAX_NODES, MAX_TAIL_BYTES,
};
use crate::trie::{cascade_ok, cascade_valid, total_nodes, views_of};

verus! {

/// No two children of one node start with the same byte.
pub open spec fn siblings_differ(lv: LevelView) -> bool {
    forall|c1: int, c2: int|
        1 <= c1 < lv.nodes() && 1 <= c2 < lv.nodes() && c1 != c2 && #[trigger] lv.shape().parent(c1)
            == #[trigger] lv.shape().parent(c2) ==> lv.heads[c1] != lv.heads[c2]
}

/// The bits that say which nodes end a key are as many as the tree's, and
/// none is set past the last node.
pub open spec fn terminal_ok(lv: LevelView) -> bool {
    &&& lv.terminal.len() == lv.louds.len()
    &&& count_bits(lv.terminal, true, lv.terminal.len() as int) == count_bits(
        lv.terminal,
        true,
        lv.nodes(),
    )
}

/// A level is in order exactly if its parts are, one by one.
pub proof fn lemma_level_ok(levels: Seq<LevelView>, j: int)
    requires
        0 <= j < levels.len(),
    ensures
        level_ok(levels, j) <==> {
            &&& levels[j].storage_ok(
                j > 0,
                if j > 0 {
                    level_tree(levels, j - 1).num_keys()
                } else {
                    0
                },
            )
            &&& levels[j].shape().louds_ok()
            &&& terminal_ok(levels[j])
            &&& siblings_differ(levels[j])
        },
{
    let lv = levels[j];
    let t = level_tree(levels, j);
    let s = lv.shape();
    assert(s.nodes() == t.nodes());
    if level_ok(levels, j) {
        assert forall|u: int| 0 <= u < s.nodes() implies #[trigger] s.child_begin(u) > u by {
            assert(t.child_begin(u) > u);
        }
        assert forall|c1: int, c2: int|
            1 <= c1 < lv.nodes() && 1 <= c2 < lv.nodes() && c1 != c2 && #[trigger] s.parent(c1)
                == #[trigger] s.parent(c2) implies lv.heads[c1] != lv.heads[c2] by {
            assert(t.parent(c1) == t.parent(c2));
            lemma_level_head(levels, j, c1);
            lemma_level_head(levels, j, c2);
        }
    }
    if lv.storage_ok(
        j > 0,
        if j > 0 {
            level_tree(levels, j - 1).num_keys()
        } else {
            0
        },
    ) && s.louds_ok() && terminal_ok(lv) && siblings_differ(lv) {
        assert forall|u: int| 0 <= u < t.nodes() implies #[trigger] t.child_begin(u) > u by {
            assert(s.child_begin(u) > u);
        }
        assert forall|v: int| 1 <= v < t.nodes() implies (#[trigger] t.labels[v]).len() >= 1 by {
            lemma_level_head(levels, j, v);
        }
        assert forall|v: int, w: int|
            1 <= v < t.nodes() && 1 <= w < t.nodes() && v != w && #[trigger] t.parent(v)
                == #[trigger] t.parent(w) implies t.labels[v][0] != t.labels[w][0] by {
            assert(s.parent(v) == s.parent(w));
            lemma_level_head(levels, j, v);
            lemma_level_head(levels, j, w);
        }
        assert(t.wf());
    }
}

fn check_storage(level: &TrieLevel, linked: bool, lower_keys: usize) -> (r: bool)
    ensures
        r == level@.storage_ok(linked, lower_keys as int),
{
    let n = level.nodes();
    let links = level.links();
    if n == 0 || n > MAX_NODES || links.len() != n {
        return false;
    }
    if links[0] != 0 {
        return false;
    }
    if linked {
        if level.tails().len() != 0 {
            return false;
        }
        let mut v: usize = 0;
        while v < n
            invariant
                n == level@.nodes(),
                links@ == level@.links,
                links@.len() == n,
                v <= n,
                linked,
                forall|u: int| 0 <= u < v ==> #[trigger] links@[u] <= lower_keys,
            decreases n - v,
        {
            if links[v] as usize > lower_keys {
                assert(level@.links[v as int] > lower_keys);
                return false;
            }
            v = v + 1;
        }
        true
    } else {
        let mut v: usize = 1;
        while v < n
            invariant
                n == level@.nodes(),
                links@ == level@.links,
                links@.len() == n,
                1 <= v <= n,
                !linked,
                forall|i: int, k: int|
                    0 <= i <= k < v ==> #[trigger] links@[i] <= #[trigger] links@[k],
            decreases n - v,
        {
            if links[v - 1] > links[v] {
                assert(level@.links[v - 1] > level@.links[v as int]);
                return false;
            }
            proof {
                assert forall|i: int, k: int| 0 <= i <= k < v + 1 implies #[trigger] links@[i]
                    <= #[trigger] links@[k] by {
                    if k == v && i < v {
                        assert(links@[i] <= links@[v - 1]);
                    }
                }
            }
            v = v + 1;
        }
        links[n - 1] as usize == level.tails().len() && level.tails().len() <= MAX_TAIL_BYTES
    }
}

fn check_louds(level: &TrieLevel) -> (r: bool)
    requires
        level.wf(),
        1 <= level@.nodes() <= MAX_NODES,
    ensures
        r == level@.shape().louds_ok(),
{
    let ghost t = level@.shape();
    let n = level.nodes();
    let louds = level.louds();
    if louds.len() != 2 * n + 1 {
        return false;
    }
    if louds.count_ones() != n {
        return false;
    }
    if !louds.get(0) || louds.get(1) {
        return false;
    }
    proof {
        lemma_count_split(t.louds, 2 * n + 1);
    }
    let mut u: usize = 0;
    while u < n
        invariant
            level.wf(),
            t == level@.shape(),
            louds@ == t.louds,
            louds.wf(),
            n == t.nodes(),
            louds@.len() == 2 * n + 1,
            count_bits(louds@, false, 2 * n + 1) == n + 1,
            u <= n,
            forall|w: int| 0 <= w < u ==> #[trigger] t.child_begin(w) > w,
        decreases n - u,
    {
        let s = louds.select(false, u);
        proof {
            lemma_count_bounds(louds@, false, s as int);
        }
        if s - u <= u {
            assert(!(t.child_begin(u as int) > u));
            return false;
        }
        u = u + 1;
    }
    true
}

fn check_terminal(level: &TrieLevel) -> (r: bool)
    requires
        level.wf(),
        level@.shape().louds_ok(),
    ensures
        r == terminal_ok(level@),
{
    let terminal = level.terminal();
    if terminal.len() != level.louds().len() {
        return false;
    }
    terminal.count_ones() == terminal.rank(true, level.nodes())
}

fn check_siblings(level: &TrieLevel) -> (r: bool)
    requires
        level.wf(),
        level@.shape().louds_ok(),
    ensures
        r == siblings_differ(level@),
{
    let ghost lv = level@;
    let ghost t = level@.shape();
    let n = level.nodes();
    let heads = level.heads();
    let mut u: usize = 0;
    proof {
        assert forall|c1: int, c2: int|
            1 <= c1 < n && 1 <= c2 < n && c1 != c2 && #[trigger] t.parent(c1) == #[trigger] t.parent(
                c2,
            ) && t.parent(c1) < 0 implies heads@[c1] != heads@[c2] by {
            t.lemma_parent(c1);
        }
    }
    while u < n
        invariant
            level.wf(),
            lv == level@,
            t == lv.shape(),
            t.louds_ok(),
            n == t.nodes(),
            heads@ == lv.heads,
            heads@.len() == n,
            u <= n,
            forall|c1: int, c2: int|
                1 <= c1 < n && 1 <= c2 < n && c1 != c2 && #[trigger] t.parent(c1) == #[trigger] t.parent(
                    c2,
                ) && t.parent(c1) < u ==> heads@[c1] != heads@[c2],
        decreases n - u,
    {
        let begin = level.child_begin(u);
        let end = level.child_begin(u + 1);
        proof {
            t.lemma_child_begin_monotone(u as int, u + 1);
        }
        let mut c1: usize = begin;
        while c1 < end
            invariant
                lv == level@,
                t == lv.shape(),
                t.louds_ok(),
                n == t.nodes(),
                heads@ == lv.heads,
                heads@.len() == n,
                u < n,
                begin == t.child_begin(u as int),
                end == t.child_begin(u + 1),
                1 <= begin <= c1 <= end <= n,
                forall|a: int, b: int|
                    begin <= a < c1 && a < b < end ==> #[trigger] heads@[a] != #[trigger] heads@[b],
            decreases end - c1,
        {
            let mut c2: usize = c1 + 1;
            while c2 < end
                invariant
                    lv == level@,
                    t == lv.shape(),
                    t.louds_ok(),
                    n == t.nodes(),
                    heads@ == lv.heads,
                    heads@.len() == n,
                    u < n,
                    begin == t.child_begin(u as int),
                    end == t.child_begin(u + 1),
                    1 <= begin <= c1 < c2 <= end <= n,
                    forall|b: int| c1 < b < c2 ==> heads@[c1 as int] != #[trigger] heads@[b],
                decreases end - c2,
            {
                if heads[c1] == heads[c2] {
                    proof {
                        t.lemma_parent_unique(u as int, c1 as int);
                        t.lemma_parent_unique(u as int, c2 as int);
                        assert(t.parent(c1 as int) == t.parent(c2 as int));
                    }
                    return false;
                }
                c2 = c2 + 1;
            }
            c1 = c1 + 1;
        }
        proof {
            assert forall|c1: int, c2: int|
                1 <= c1 < n && 1 <= c2 < n && c1 != c2 && #[trigger] t.parent(c1) == #[trigger] t.parent(
                    c2,
                ) && t.parent(c1) < u + 1 implies heads@[c1] != heads@[c2] by {
                if t.parent(c1) == u {
                    t.lemma_parent(c1);
                    t.lemma_parent(c2);
                }
            }
        }
        u = u + 1;
    }
    proof {
        assert forall|c1: int, c2: int|
            1 <= c1 < n && 1 <= c2 < n && c1 != c2 && #[trigger] t.parent(c1) == #[trigger] t.parent(
                c2,
            ) implies heads@[c1] != heads@[c2] by {
            t.lemma_parent(c1);
        }
    }
    true
}

/// Whether level `j` is in order, given that those below it are.
fn check_level(levels: &Vec<TrieLevel>, j: usize) -> (r: bool)
    requires
        j < levels@.len(),
        forall|i: int| 0 <= i < levels@.len() ==> (#[trigger] levels@[i]).wf(),
        forall|i: int| 0 <= i < j ==> #[trigger] level_ok(views_of(levels@), i),
    ensures
        r == level_ok(views_of(levels@), j as int),
{
    let ghost vs = views_of(levels@);
    let level = &levels[j];
    assert(vs[j as int] == level@);
    let mut lower_keys: usize = 0;
    if j > 0 {
        let below = &levels[j - 1];
        assert(vs[j - 1] == below@);
        assert(level_ok(vs, j - 1));
        proof {
            level_tree(vs, j - 1).lemma_num_keys();
        }
        lower_keys = below.num_keys();
    }
    proof {
        lemma_level_ok(vs, j as int);
    }
    if !check_storage(level, j > 0, lower_keys) {
        return false;
    }
    if !check_louds(level) {
        return false;
    }
    if !check_terminal(level) {
        return false;
    }
    check_siblings(level)
}

/// Whether the levels are a cascade in order; if so, how many nodes they
/// hold together.
pub fn validate(levels: &Vec<TrieLevel>) -> (r: Option<usize>)
    requires
        forall|i: int| 0 <= i < levels@.len() ==> (#[trigger] levels@[i]).wf(),
    ensures
        r is Some <==> cascade_valid(views_of(levels@)),
        r is Some ==> cascade_ok(levels@) && r->Some_0 == total_nodes(
            views_of(levels@),
            levels@.len() as int,
        ),
{
    let ghost vs = views_of(levels@);
    if levels.len() == 0 {
        return None;
    }
    let mut total: usize = 0;
    let mut j: usize = 0;
    while j < levels.len()
        invariant
            vs == views_of(levels@),
            forall|i: int| 0 <= i < levels@.len() ==> (#[trigger] levels@[i]).wf(),
            j <= levels@.len(),
            forall|i: int| 0 <= i < j ==> #[trigger] level_ok(vs, i),
            total == total_nodes(vs, j as int),
            total <= MAX_NODES,
        decreases levels@.len() - j,
    {
        if !check_level(levels, j) {
            return None;
        }
        let n = levels[j].nodes();
        assert(vs[j as int] == levels@[j as int]@);
        if n > MAX_NODES - total {
            proof {
                lemma_total_nodes_grows(vs, j + 1, levels@.len() as int);
            }
            return None;
        }
        total = total + n;
        j = j + 1;
    }
    Some(total)
}

/// More levels hold no fewer nodes.
pub proof fn lemma_total_nodes_grows(levels: Seq<LevelView>, a: int, b: int)
    requires
        0 <= a <= b,
    ensures
        total_nodes(levels, a) <= total_nodes(levels, b),
    decreases b - a,
{
    if a < b {
        lemma_total_nodes_grows(levels, a, b - 1);
    }
}

} // verus!
