//! One level of the cascade as it is stored: two bit vectors and the bytes
//! of the edge labels.

use vstd::prelude::*;
use crate::bitseq::{count_bits, select_bit, lemma_count_split};
use crate::bitvec::{packed_ok, unpack, BitVector};
use crate::tree::Tree;

verus! {

/// The most nodes a dictionary may hold.
pub const MAX_NODES: usize = 700_000_001;

/// The most bytes the stored label tails of one level may hold.
pub const MAX_TAIL_BYTES: usize = 700_000_000;

/// What a stored level holds.
pub struct LevelView {
    pub louds: Seq<bool>,
    pub terminal: Seq<bool>,
    /// The first byte of each node's label.
    pub heads: Seq<u8>,
    /// Where the rest of each node's label is found. In the deepest level,
    /// the offset in `tails` at which it ends, starting where that of the
    /// node before ends. In a level above another, zero for none, else one
    /// more than the identifier of a key of the level below.
    pub links: Seq<u32>,
    pub tails: Seq<u8>,
}

impl LevelView {
    pub open spec fn nodes(self) -> int {
        self.heads.len() as int
    }

    /// The label of `v` after its first byte.
    pub open spec fn tail(self, v: int, linked: bool, lower: Seq<Seq<u8>>) -> Seq<u8> {
        if linked {
            if self.links[v] == 0 {
                Seq::empty()
            } else {
                lower[self.links[v] - 1]
            }
        } else {
            self.tails.subrange(self.links[v - 1] as int, self.links[v] as int)
        }
    }

    pub open spec fn label(self, v: int, linked: bool, lower: Seq<Seq<u8>>) -> Seq<u8> {
        if v <= 0 {
            Seq::empty()
        } else {
            seq![self.heads[v]] + self.tail(v, linked, lower)
        }
    }

    pub open spec fn labels(self, linked: bool, lower: Seq<Seq<u8>>) -> Seq<Seq<u8>> {
        Seq::new(self.heads.len(), |v: int| self.label(v, linked, lower))
    }

    /// The stored parts fit together; `lower_keys` is the number of keys of
    /// the level below, if there is one.
    pub open spec fn storage_ok(self, linked: bool, lower_keys: int) -> bool {
        let n = self.nodes();
        &&& 1 <= n <= MAX_NODES
        &&& self.links.len() == n
        &&& self.links[0] == 0
        &&& if linked {
            &&& self.tails.len() == 0
            &&& forall|v: int| 0 <= v < n ==> #[trigger] self.links[v] <= lower_keys
        } else {
            &&& forall|u: int, v: int|
                0 <= u <= v < n ==> #[trigger] self.links[u] <= #[trigger] self.links[v]
            &&& self.links[n - 1] == self.tails.len()
            &&& self.tails.len() <= MAX_TAIL_BYTES
        }
    }

    /// The tree of this level with its labels left out.
    pub open spec fn shape(self) -> Tree {
        Tree {
            louds: self.louds,
            terminal: self.terminal,
            labels: Seq::new(self.heads.len(), |v: int| Seq::<u8>::empty()),
        }
    }
}

/// A level as it is written out: the bit vectors as packed words.
pub struct LevelImage {
    pub louds_len: nat,
    pub louds_words: Seq<u64>,
    pub terminal_len: nat,
    pub terminal_words: Seq<u64>,
    pub heads: Seq<u8>,
    pub links: Seq<u32>,
    pub tails: Seq<u8>,
}

impl LevelImage {
    /// The words hold the bits in canonical form.
    pub open spec fn packed(self) -> bool {
        packed_ok(self.louds_words, self.louds_len) && packed_ok(
            self.terminal_words,
            self.terminal_len,
        )
    }

    /// The level that the image holds.
    pub open spec fn level(self) -> LevelView {
        LevelView {
            louds: unpack(self.louds_words, self.louds_len),
            terminal: unpack(self.terminal_words, self.terminal_len),
            heads: self.heads,
            links: self.links,
            tails: self.tails,
        }
    }
}

/// The tree that level `j` encodes; the labels of a level above the
/// deepest go on with keys of the level below it.
pub open spec fn level_tree(levels: Seq<LevelView>, j: int) -> Tree
    decreases j,
{
    let lv = levels[j];
    let lower = if j > 0 {
        level_tree(levels, j - 1).keys()
    } else {
        Seq::empty()
    };
    Tree { louds: lv.louds, terminal: lv.terminal, labels: lv.labels(j > 0, lower) }
}

/// Level `j` is stored consistently and encodes a well-formed tree.
pub open spec fn level_ok(levels: Seq<LevelView>, j: int) -> bool {
    &&& levels[j].storage_ok(
        j > 0,
        if j > 0 {
            level_tree(levels, j - 1).num_keys()
        } else {
            0
        },
    )
    &&& level_tree(levels, j).wf()
}

/// The tree of a level and its shape have the same nodes and the same
/// family relations.
pub proof fn lemma_level_shape(levels: Seq<LevelView>, j: int)
    requires
        0 <= j < levels.len(),
        level_ok(levels, j),
    ensures
        levels[j].shape().louds_ok(),
        levels[j].shape().louds == level_tree(levels, j).louds,
        levels[j].shape().terminal == level_tree(levels, j).terminal,
        levels[j].nodes() == level_tree(levels, j).nodes(),
        level_tree(levels, j).wf(),
        levels[j].terminal.len() == 2 * levels[j].nodes() + 1,
{
    let t = level_tree(levels, j);
    let s = levels[j].shape();
    assert(s.nodes() == t.nodes());
    assert forall|u: int| 0 <= u < s.nodes() implies #[trigger] s.child_begin(u) > u by {
        assert(t.child_begin(u) > u);
    }
}

/// A level and those below it are what they are whatever stands above.
pub proof fn lemma_level_frame(a: Seq<LevelView>, b: Seq<LevelView>, j: int)
    requires
        0 <= j < a.len(),
        j < b.len(),
        forall|i: int| 0 <= i <= j ==> a[i] == b[i],
    ensures
        level_tree(a, j) == level_tree(b, j),
        level_ok(a, j) == level_ok(b, j),
    decreases j,
{
    if j > 0 {
        lemma_level_frame(a, b, j - 1);
    }
}

/// The label of a node but the root starts with the byte stored for it.
pub proof fn lemma_level_head(levels: Seq<LevelView>, j: int, v: int)
    requires
        0 <= j < levels.len(),
        1 <= v < levels[j].nodes(),
    ensures
        level_tree(levels, j).labels[v].len() >= 1,
        level_tree(levels, j).labels[v][0] == levels[j].heads[v],
{
}

pub struct TrieLevel {
    louds: BitVector,
    terminal: BitVector,
    heads: Vec<u8>,
    links: Vec<u32>,
    tails: Vec<u8>,
}

impl View for TrieLevel {
    type V = LevelView;

    closed spec fn view(&self) -> LevelView {
        LevelView {
            louds: self.louds@,
            terminal: self.terminal@,
            heads: self.heads@,
            links: self.links@,
            tails: self.tails@,
        }
    }
}

impl TrieLevel {
    /// The bit vectors are in order.
    pub closed spec fn wf(&self) -> bool {
        self.louds.wf() && self.terminal.wf()
    }

    pub closed spec fn image(&self) -> LevelImage {
        LevelImage {
            louds_len: self.louds@.len(),
            louds_words: self.louds.words(),
            terminal_len: self.terminal@.len(),
            terminal_words: self.terminal.words(),
            heads: self.heads@,
            links: self.links@,
            tails: self.tails@,
        }
    }

    /// The image of a level holds the level.
    pub proof fn lemma_image(&self)
        requires
            self.wf(),
        ensures
            self.image().packed(),
            self.image().level() == self@,
    {
        self.louds.lemma_wf();
        self.terminal.lemma_wf();
    }

    pub fn new(
        louds: BitVector,
        terminal: BitVector,
        heads: Vec<u8>,
        links: Vec<u32>,
        tails: Vec<u8>,
    ) -> (r: TrieLevel)
        requires
            louds.wf(),
            terminal.wf(),
        ensures
            r.wf(),
            r@ == (LevelView {
                louds: louds@,
                terminal: terminal@,
                heads: heads@,
                links: links@,
                tails: tails@,
            }),
            r.image() == (LevelImage {
                louds_len: louds@.len(),
                louds_words: louds.words(),
                terminal_len: terminal@.len(),
                terminal_words: terminal.words(),
                heads: heads@,
                links: links@,
                tails: tails@,
            }),
    {
        TrieLevel { louds, terminal, heads, links, tails }
    }

    pub fn louds(&self) -> (r: &BitVector)
        requires
            self.wf(),
        ensures
            r.wf(),
            r@ == self@.louds,
            r.words() == self.image().louds_words,
    {
        &self.louds
    }

    pub fn terminal(&self) -> (r: &BitVector)
        requires
            self.wf(),
        ensures
            r.wf(),
            r@ == self@.terminal,
            r.words() == self.image().terminal_words,
    {
        &self.terminal
    }

    pub fn heads(&self) -> (r: &Vec<u8>)
        ensures
            r@ == self@.heads,
            r@ == self.image().heads,
    {
        &self.heads
    }

    pub fn links(&self) -> (r: &Vec<u32>)
        ensures
            r@ == self@.links,
            r@ == self.image().links,
    {
        &self.links
    }

    pub fn tails(&self) -> (r: &Vec<u8>)
        ensures
            r@ == self@.tails,
            r@ == self.image().tails,
    {
        &self.tails
    }

    pub fn nodes(&self) -> (n: usize)
        ensures
            n == self@.nodes(),
    {
        self.heads.len()
    }

    /// The number of the first child of `u`.
    pub fn child_begin(&self, u: usize) -> (r: usize)
        requires
            self.wf(),
            self@.shape().louds_ok(),
            u <= self@.nodes(),
        ensures
            r == self@.shape().child_begin(u as int),
            1 <= r <= self@.nodes(),
    {
        proof {
            let t = self@.shape();
            lemma_count_split(t.louds, t.louds.len() as int);
            t.lemma_child_begin(u as int);
        }
        self.louds.select(false, u) - u
    }

    pub fn parent(&self, v: usize) -> (r: usize)
        requires
            self.wf(),
            self@.shape().louds_ok(),
            1 <= v < self@.nodes(),
        ensures
            r == self@.shape().parent(v as int),
            r < v,
    {
        proof {
            self@.shape().lemma_parent(v as int);
        }
        self.louds.select(true, v) - v - 1
    }

    pub fn is_terminal(&self, v: usize) -> (r: bool)
        requires
            self.wf(),
            v < self@.terminal.len(),
        ensures
            r == self@.terminal[v as int],
    {
        self.terminal.get(v)
    }

    /// How many keys end at nodes before `v`.
    pub fn key_id(&self, v: usize) -> (r: usize)
        requires
            self.wf(),
            v <= self@.terminal.len(),
        ensures
            r == count_bits(self@.terminal, true, v as int),
            r <= v,
    {
        self.terminal.rank(true, v)
    }

    /// The node at which key `id` ends.
    pub fn key_node(&self, id: usize) -> (r: usize)
        requires
            self.wf(),
            id < count_bits(self@.terminal, true, self@.terminal.len() as int),
        ensures
            r == select_bit(self@.terminal, true, id as int),
    {
        self.terminal.select(true, id)
    }

    /// How many keys end in this level.
    pub fn num_keys(&self) -> (r: usize)
        requires
            self.wf(),
        ensures
            r == count_bits(self@.terminal, true, self@.terminal.len() as int),
    {
        self.terminal.count_ones()
    }
}

} // verus!
