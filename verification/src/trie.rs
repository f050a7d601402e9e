//! The dictionary: a cascade of levels, and the queries on it.

use vstd::prelude::*;
use crate::bitseq::{count_bits, lemma_count_bounds, lemma_count_monotone, lemma_count_step};
use crate::error::{Error, InputError, StateError};
use crate::level::{
    lemma_level_head, lemma_level_shape, level_ok, level_tree, LevelImage, LevelView, TrieLevel,
    MAX_NODES,
};
use crate::tree::Tree;

verus! {

/// One result of a search: a key and its identifier.
#[derive(Debug, PartialEq, Eq)]
pub struct Match {
    pub key: Vec<u8>,
    pub id: u32,
}

#[derive(Clone, Copy, Debug, PartialEq, Eq, Structural)]
pub enum TrieState {
    Empty,
    Built,
    Cleared,
}

pub open spec fn views_of(levels: Seq<TrieLevel>) -> Seq<LevelView> {
    Seq::new(levels.len(), |i: int| levels[i]@)
}

/// Every level is stored consistently and encodes a well-formed tree.
pub open spec fn cascade_ok(levels: Seq<TrieLevel>) -> bool {
    forall|j: int|
        0 <= j < levels.len() ==> (#[trigger] levels[j]).wf() && level_ok(views_of(levels), j)
}

/// The levels are one or more, each is stored consistently and encodes a
/// well-formed tree, and together they hold no more nodes than allowed.
pub open spec fn cascade_valid(levels: Seq<LevelView>) -> bool {
    &&& levels.len() >= 1
    &&& forall|j: int| 0 <= j < levels.len() ==> #[trigger] level_ok(levels, j)
    &&& total_nodes(levels, levels.len() as int) <= MAX_NODES
}

pub open spec fn images_of(levels: Seq<TrieLevel>) -> Seq<LevelImage> {
    Seq::new(levels.len(), |i: int| levels[i].image())
}

/// The levels that images hold.
pub open spec fn levels_of(images: Seq<LevelImage>) -> Seq<LevelView> {
    Seq::new(images.len(), |i: int| images[i].level())
}

/// The nodes of the first `upto` levels together.
pub open spec fn total_nodes(levels: Seq<LevelView>, upto: int) -> int
    decreases upto,
{
    if upto <= 0 {
        0
    } else {
        total_nodes(levels, upto - 1) + levels[upto - 1].nodes()
    }
}

/// Some result names the key `id`.
pub open spec fn has_id(out: Seq<Match>, id: int) -> bool {
    exists|i: int| 0 <= i < out.len() && #[trigger] out[i].id == id
}

/// `out` lists, shortest first, the keys shorter than `bound` that `query`
/// starts with, each with its identifier, and leaves none out.
pub open spec fn lists_prefixes(keys: Seq<Seq<u8>>, query: Seq<u8>, out: Seq<Match>, bound: int) -> bool {
    &&& forall|i: int|
        0 <= i < out.len() ==> {
            &&& (#[trigger] out[i]).id < keys.len()
            &&& out[i].key@ == keys[out[i].id as int]
            &&& out[i].key@.is_prefix_of(query)
            &&& out[i].key@.len() < bound
        }
    &&& forall|i: int, k: int|
        0 <= i < k < out.len() ==> (#[trigger] out[i]).key@.len() < (#[trigger] out[k]).key@.len()
    &&& forall|id: int|
        0 <= id < keys.len() && (#[trigger] keys[id]).is_prefix_of(query) && keys[id].len() < bound
            ==> has_id(out, id)
}

/// `out` lists, by rising identifier, the keys that start with `prefix`,
/// each with its identifier, and leaves none out.
pub open spec fn lists_extensions(keys: Seq<Seq<u8>>, prefix: Seq<u8>, out: Seq<Match>) -> bool {
    &&& forall|i: int|
        0 <= i < out.len() ==> {
            &&& (#[trigger] out[i]).id < keys.len()
            &&& out[i].key@ == keys[out[i].id as int]
            &&& prefix.is_prefix_of(out[i].key@)
        }
    &&& forall|i: int, k: int|
        0 <= i < k < out.len() ==> (#[trigger] out[i]).id < (#[trigger] out[k]).id
    &&& forall|id: int|
        0 <= id < keys.len() && prefix.is_prefix_of(#[trigger] keys[id]) ==> has_id(out, id)
}

pub proof fn lemma_has_id_push(out: Seq<Match>, m: Match, id: int)
    ensures
        has_id(out, id) ==> has_id(out.push(m), id),
        has_id(out.push(m), m.id as int),
{
    let next = out.push(m);
    if has_id(out, id) {
        let i = choose|i: int| 0 <= i < out.len() && #[trigger] out[i].id == id;
        assert(next[i].id == id);
    }
    assert(next[out.len() as int].id == m.id);
}

pub proof fn lemma_prefix_transitive(a: Seq<u8>, b: Seq<u8>, c: Seq<u8>)
    requires
        a.is_prefix_of(b),
        b.is_prefix_of(c),
    ensures
        a.is_prefix_of(c),
{
    assert forall|i: int| 0 <= i < a.len() implies a[i] == c[i] by {
        assert(b.subrange(0, a.len() as int)[i] == b[i]);
        assert(c.subrange(0, b.len() as int)[i] == c[i]);
    }
    assert(a =~= c.subrange(0, a.len() as int));
}

pub proof fn lemma_prefix_index(a: Seq<u8>, b: Seq<u8>, i: int)
    requires
        a.is_prefix_of(b),
        0 <= i < a.len(),
    ensures
        a[i] == b[i],
{
    assert(b.subrange(0, a.len() as int)[i] == b[i]);
}

/// The nodes of the lower levels are counted without a look at the
/// levels above.
pub proof fn lemma_total_nodes_frame(a: Seq<LevelView>, b: Seq<LevelView>, upto: int)
    requires
        0 <= upto <= a.len(),
        upto <= b.len(),
        forall|i: int| 0 <= i < upto ==> a[i] == b[i],
    ensures
        total_nodes(a, upto) == total_nodes(b, upto),
    decreases upto,
{
    if upto > 0 {
        lemma_total_nodes_frame(a, b, upto - 1);
    }
}

/// Appends `src[from..to]` to `out`.
pub fn append_bytes(out: &mut Vec<u8>, src: &[u8], from: usize, to: usize)
    requires
        from <= to <= src@.len(),
    ensures
        final(out)@ == old(out)@ + src@.subrange(from as int, to as int),
{
    let ghost base = out@;
    let mut i: usize = from;
    while i < to
        invariant
            from <= i <= to <= src@.len(),
            out@ == base + src@.subrange(from as int, i as int),
        decreases to - i,
    {
        out.push(src[i]);
        i = i + 1;
        assert(out@ =~= base + src@.subrange(from as int, i as int));
    }
    assert(out@ =~= base + src@.subrange(from as int, to as int));
}

/// Whether `part` stands in `whole` at `pos`.
pub fn matches_at(whole: &[u8], pos: usize, part: &[u8]) -> (r: bool)
    requires
        pos <= whole@.len(),
    ensures
        r == (pos + part@.len() <= whole@.len() && whole@.subrange(
            pos as int,
            pos + part@.len(),
        ) == part@),
{
    if part.len() > whole.len() - pos {
        return false;
    }
    let n = whole.len();
    let mut i: usize = 0;
    while i < part.len()
        invariant
            n == whole@.len(),
            pos + part@.len() <= n,
            i <= part@.len(),
            forall|k: int| 0 <= k < i ==> whole@[pos + k] == part@[k],
        decreases part@.len() - i,
    {
        if whole[pos + i] != part[i] {
            proof {
                assert(whole@.subrange(pos as int, pos + part@.len())[i as int] == whole@[pos + i]);
            }
            return false;
        }
        i = i + 1;
    }
    assert(whole@.subrange(pos as int, pos + part@.len()) =~= part@);
    true
}

/// If `q[..pos]` followed by `label` starts `q`, then `label` stands in `q`
/// at `pos`.
pub proof fn lemma_label_in_query(q: Seq<u8>, pos: int, label: Seq<u8>)
    requires
        0 <= pos <= q.len(),
        (q.subrange(0, pos) + label).is_prefix_of(q),
    ensures
        pos + label.len() <= q.len(),
        q.subrange(pos, pos + label.len()) == label,
{
    let whole = q.subrange(0, pos) + label;
    assert(whole.len() == pos + label.len());
    assert forall|k: int| 0 <= k < label.len() implies q[pos + k] == label[k] by {
        assert(q.subrange(0, whole.len() as int)[pos + k] == q[pos + k]);
        assert(whole[pos + k] == label[k]);
    }
    assert(q.subrange(pos, pos + label.len()) =~= label);
}

pub struct Trie {
    levels: Vec<TrieLevel>,
    num_nodes: usize,
    state: TrieState,
}

impl View for Trie {
    type V = Seq<Seq<u8>>;

    /// The keys by identifier.
    open spec fn view(&self) -> Seq<Seq<u8>> {
        self.keys()
    }
}

impl Default for Trie {
    fn default() -> (r: Trie)
        ensures
            r.wf(),
            r.state() == TrieState::Empty,
    {
        Trie::new()
    }
}

impl Trie {
    pub closed spec fn levels(&self) -> Seq<LevelView> {
        views_of(self.levels@)
    }

    pub closed spec fn state(&self) -> TrieState {
        self.state
    }

    pub open spec fn is_built(&self) -> bool {
        self.state() == TrieState::Built
    }

    /// The levels as they are written out.
    pub closed spec fn images(&self) -> Seq<LevelImage> {
        images_of(self.levels@)
    }

    pub closed spec fn wf(&self) -> bool {
        if self.state == TrieState::Built {
            &&& self.levels@.len() >= 1
            &&& cascade_ok(self.levels@)
            &&& self.num_nodes == total_nodes(views_of(self.levels@), self.levels@.len() as int)
            &&& self.num_nodes <= MAX_NODES
        } else {
            &&& self.levels@.len() == 0
            &&& self.num_nodes == 0
        }
    }

    /// The tree of the topmost level, whose keys are the dictionary's.
    pub open spec fn top(&self) -> Tree {
        level_tree(self.levels(), self.levels().len() - 1)
    }

    pub open spec fn keys(&self) -> Seq<Seq<u8>> {
        if self.is_built() {
            self.top().keys()
        } else {
            Seq::empty()
        }
    }

    /// A dictionary that holds nothing yet.
    pub fn new() -> (r: Trie)
        ensures
            r.wf(),
            r.state() == TrieState::Empty,
    {
        Trie { levels: Vec::new(), num_nodes: 0, state: TrieState::Empty }
    }

    /// Takes `levels` as the levels of a dictionary that holds nothing.
    pub(crate) fn install(&mut self, levels: Vec<TrieLevel>, num_nodes: usize)
        requires
            !old(self).is_built(),
            levels@.len() >= 1,
            cascade_ok(levels@),
            num_nodes == total_nodes(views_of(levels@), levels@.len() as int),
            num_nodes <= MAX_NODES,
        ensures
            final(self).wf(),
            final(self).is_built(),
            final(self).levels() == views_of(levels@),
            final(self).images() == images_of(levels@),
    {
        self.levels = levels;
        self.num_nodes = num_nodes;
        self.state = TrieState::Built;
    }

    /// What a dictionary in order is made of.
    pub proof fn lemma_wf(&self)
        requires
            self.wf(),
        ensures
            self.is_built() ==> cascade_valid(self.levels()),
            !self.is_built() ==> self.levels().len() == 0,
            self.images().len() == self.levels().len(),
            forall|j: int|
                0 <= j < self.images().len() ==> (#[trigger] self.images()[j]).packed()
                    && self.images()[j].level() == self.levels()[j],
            self.levels() == levels_of(self.images()),
    {
        assert forall|j: int| 0 <= j < self.images().len() implies (#[trigger] self.images()[j]).packed()
            && self.images()[j].level() == self.levels()[j] by {
            if self.state == TrieState::Built {
                assert(self.levels@[j].wf());
                self.levels@[j].lemma_image();
            }
        }
        assert(self.levels() =~= levels_of(self.images()));
    }

    /// The levels, for writing them out.
    pub(crate) fn stored(&self) -> (r: &Vec<TrieLevel>)
        requires
            self.wf(),
        ensures
            views_of(r@) == self.levels(),
            images_of(r@) == self.images(),
            self.is_built() ==> cascade_ok(r@),
            forall|j: int| 0 <= j < r@.len() ==> (#[trigger] r@[j]).wf(),
    {
        &self.levels
    }

    /// No key has two identifiers: the identifiers of the keys are
    /// exactly the numbers below the number of keys, each for one key.
    pub proof fn lemma_keys_distinct(&self, id1: int, id2: int)
        requires
            self.wf(),
            0 <= id1 < self@.len(),
            0 <= id2 < self@.len(),
            self@[id1] == self@[id2],
        ensures
            id1 == id2,
    {
        assert(self.is_built());
        let j = self.levels@.len() - 1;
        assert(self.levels@[j].wf() && level_ok(views_of(self.levels@), j));
        self.top().lemma_num_keys();
        self.top().lemma_keys_distinct(id1, id2);
    }

    /// Looking up the key with identifier `id` gives `id`: whatever
    /// `lookup` may return for that key by its contract is `Some(id)`.
    pub proof fn lemma_lookup_of_key(&self, id: int, found: Option<u32>)
        requires
            self.wf(),
            0 <= id < self@.len(),
            match found {
                Some(x) => x < self@.len() && self@[x as int] == self@[id],
                None => forall|i: int| 0 <= i < self@.len() ==> #[trigger] self@[i] != self@[id],
            },
        ensures
            found == Some(id as u32),
    {
        match found {
            Some(x) => {
                self.lemma_keys_distinct(x as int, id);
            },
            None => {
                assert(self@[id] == self@[id]);
            },
        }
    }

    /// The key with the identifier that a lookup of `key` gives is `key`:
    /// whatever `reverse_lookup` may return for that identifier by its
    /// contract is `key`.
    pub proof fn lemma_key_of_lookup(&self, key: Seq<u8>, id: u32, back: Seq<u8>)
        requires
            self.wf(),
            id < self@.len(),
            self@[id as int] == key,
            back == self@[id as int],
        ensures
            back == key,
    {
    }

    /// Where the dictionary stands between empty, built and cleared.
    pub fn status(&self) -> (r: TrieState)
        ensures
            r == self.state(),
    {
        self.state
    }

    pub fn is_ready(&self) -> (r: bool)
        ensures
            r == self.is_built(),
    {
        match self.state {
            TrieState::Built => true,
            _ => false,
        }
    }

    /// Appends the label of node `v` of level `j`.
    fn append_label(&self, j: usize, v: usize, out: &mut Vec<u8>)
        requires
            cascade_ok(self.levels@),
            j < self.levels@.len(),
            1 <= v < level_tree(views_of(self.levels@), j as int).nodes(),
        ensures
            final(out)@ == old(out)@ + level_tree(views_of(self.levels@), j as int).labels[v as int],
        decreases j, 0int,
    {
        let ghost vs = views_of(self.levels@);
        let ghost t = level_tree(vs, j as int);
        let ghost base = out@;
        let level = &self.levels[j];
        assert(level.wf() && level_ok(vs, j as int));
        assert(vs[j as int] == level@);
        proof {
            lemma_level_shape(vs, j as int);
        }
        out.push(level.heads()[v]);
        if j == 0 {
            let start = level.links()[v - 1] as usize;
            let end = level.links()[v] as usize;
            append_bytes(out, level.tails().as_slice(), start, end);
            assert(out@ =~= base + t.labels[v as int]);
        } else {
            let link = level.links()[v];
            if link != 0 {
                let below = &self.levels[j - 1];
                let ghost tb = level_tree(vs, j - 1);
                assert(below.wf() && level_ok(vs, j - 1));
                assert(vs[j - 1] == below@);
                proof {
                    lemma_level_shape(vs, j - 1);
                    tb.lemma_num_keys();
                    tb.lemma_key_node(link - 1);
                }
                let node = below.key_node((link - 1) as usize);
                self.append_path(j - 1, node, out);
                assert(out@ =~= base + t.labels[v as int]);
            } else {
                assert(out@ =~= base + t.labels[v as int]);
            }
        }
    }

    /// Appends the path of node `v` of level `j`.
    fn append_path(&self, j: usize, v: usize, out: &mut Vec<u8>)
        requires
            cascade_ok(self.levels@),
            j < self.levels@.len(),
            v < level_tree(views_of(self.levels@), j as int).nodes(),
        ensures
            final(out)@ == old(out)@ + level_tree(views_of(self.levels@), j as int).path(v as int),
        decreases j, 1int,
    {
        let ghost vs = views_of(self.levels@);
        let ghost t = level_tree(vs, j as int);
        let ghost base = out@;
        let level = &self.levels[j];
        assert(level.wf() && level_ok(vs, j as int));
        assert(vs[j as int] == level@);
        proof {
            lemma_level_shape(vs, j as int);
        }
        let mut chain: Vec<usize> = Vec::new();
        let mut cur: usize = v;
        while cur != 0
            invariant
                level.wf(),
                level@.shape().louds_ok(),
                level@.shape().louds == t.louds,
                level@.nodes() == t.nodes(),
                cur < t.nodes(),
                forall|i: int| 0 <= i < chain@.len() ==> 1 <= #[trigger] chain@[i] < t.nodes(),
                forall|i: int|
                    0 <= i < chain@.len() - 1 ==> t.parent(#[trigger] chain@[i] as int)
                        == chain@[i + 1],
                chain@.len() > 0 ==> t.parent(chain@[chain@.len() - 1] as int) == cur,
                chain@.len() > 0 ==> chain@[0] == v,
                chain@.len() == 0 ==> cur == v,
            decreases cur,
        {
            chain.push(cur);
            cur = level.parent(cur);
        }
        let mut k: usize = chain.len();
        assert(t.path(0) =~= Seq::<u8>::empty());
        assert(out@ =~= base + t.path(0));
        while k > 0
            invariant
                cascade_ok(self.levels@),
                j < self.levels@.len(),
                vs == views_of(self.levels@),
                t == level_tree(vs, j as int),
                t.louds_ok(),
                k <= chain@.len(),
                forall|i: int| 0 <= i < chain@.len() ==> 1 <= #[trigger] chain@[i] < t.nodes(),
                forall|i: int|
                    0 <= i < chain@.len() - 1 ==> t.parent(#[trigger] chain@[i] as int)
                        == chain@[i + 1],
                chain@.len() > 0 ==> t.parent(chain@[chain@.len() - 1] as int) == 0,
                out@ == base + t.path(
                    if k == chain@.len() {
                        0int
                    } else {
                        chain@[k as int] as int
                    },
                ),
            decreases k,
        {
            k = k - 1;
            let node = chain[k];
            proof {
                t.lemma_path_step(node as int);
            }
            self.append_label(j, node, out);
            assert(out@ =~= base + t.path(node as int));
        }
    }

    /// The child of `cur` whose label starts with `byte`, if there is one.
    fn find_child(&self, j: usize, cur: usize, byte: u8) -> (r: Option<usize>)
        requires
            cascade_ok(self.levels@),
            j < self.levels@.len(),
            cur < level_tree(views_of(self.levels@), j as int).nodes(),
        ensures
            ({
                let t = level_tree(views_of(self.levels@), j as int);
                match r {
                    Some(c) => 1 <= c < t.nodes() && t.parent(c as int) == cur && t.labels[c as int][0]
                        == byte,
                    None => forall|c: int|
                        1 <= c < t.nodes() && #[trigger] t.parent(c) == cur ==> t.labels[c][0]
                            != byte,
                }
            }),
    {
        let ghost vs = views_of(self.levels@);
        let ghost t = level_tree(vs, j as int);
        let level = &self.levels[j];
        assert(level.wf() && level_ok(vs, j as int));
        assert(vs[j as int] == level@);
        proof {
            lemma_level_shape(vs, j as int);
        }
        let begin = level.child_begin(cur);
        let end = level.child_begin(cur + 1);
        proof {
            t.lemma_child_begin_monotone(cur as int, cur + 1);
        }
        let mut c: usize = begin;
        while c < end
            invariant
                vs == views_of(self.levels@),
                0 <= j < vs.len(),
                level@ == vs[j as int],
                level_ok(vs, j as int),
                t == level_tree(vs, j as int),
                t.wf(),
                cur < t.nodes(),
                begin == t.child_begin(cur as int),
                end == t.child_begin(cur + 1),
                begin <= c <= end <= t.nodes(),
                forall|k: int| begin <= k < c ==> #[trigger] t.labels[k][0] != byte,
            decreases end - c,
        {
            proof {
                t.lemma_parent_unique(cur as int, c as int);
                lemma_level_head(vs, j as int, c as int);
            }
            if level.heads()[c] == byte {
                return Some(c);
            }
            c = c + 1;
        }
        proof {
            assert forall|k: int| 1 <= k < t.nodes() && #[trigger] t.parent(k) == cur implies t.labels[k][0]
                != byte by {
                t.lemma_parent(k);
            }
        }
        None
    }

    /// The label of node `v` of level `j`.
    fn node_label(&self, j: usize, v: usize) -> (label: Vec<u8>)
        requires
            cascade_ok(self.levels@),
            j < self.levels@.len(),
            1 <= v < level_tree(views_of(self.levels@), j as int).nodes(),
        ensures
            label@ == level_tree(views_of(self.levels@), j as int).labels[v as int],
    {
        let mut label: Vec<u8> = Vec::new();
        self.append_label(j, v, &mut label);
        assert(label@ =~= level_tree(views_of(self.levels@), j as int).labels[v as int]);
        label
    }

    /// How many levels the cascade has.
    pub fn num_tries(&self) -> (n: usize)
        requires
            self.wf(),
        ensures
            n == self.levels().len(),
            self.is_built() ==> n >= 1,
            !self.is_built() ==> n == 0,
    {
        self.levels.len()
    }

    /// How many keys the dictionary holds.
    pub fn num_keys(&self) -> (n: usize)
        requires
            self.wf(),
        ensures
            n == self@.len(),
    {
        if self.levels.len() == 0 {
            return 0;
        }
        let j = self.levels.len() - 1;
        let level = &self.levels[j];
        proof {
            let vs = views_of(self.levels@);
            assert(level.wf() && level_ok(vs, j as int));
            assert(vs[j as int] == level@);
            level_tree(vs, j as int).lemma_num_keys();
        }
        level.num_keys()
    }

    /// How many nodes all levels hold together.
    pub fn num_nodes(&self) -> (n: usize)
        requires
            self.wf(),
        ensures
            n == total_nodes(self.levels(), self.levels().len() as int),
    {
        proof {
            if self.levels@.len() == 0 {
                assert(total_nodes(views_of(self.levels@), 0) == 0);
            }
        }
        self.num_nodes
    }

    /// Lets go of all levels; the dictionary then holds nothing.
    pub fn clear(&mut self)
        requires
            old(self).wf(),
        ensures
            final(self).wf(),
            final(self).state() == TrieState::Cleared,
            final(self)@.len() == 0,
    {
        self.levels = Vec::new();
        self.num_nodes = 0;
        self.state = TrieState::Cleared;
    }

    /// The identifier of `key`, if the dictionary holds it.
    pub fn lookup(&self, key: &[u8]) -> (r: Result<Option<u32>, StateError>)
        requires
            self.wf(),
        ensures
            match r {
                Ok(Some(id)) => self.is_built() && id < self@.len() && self@[id as int] == key@,
                Ok(None) => self.is_built() && forall|id: int|
                    0 <= id < self@.len() ==> self@[id] != key@,
                Err(e) => !self.is_built() && e == StateError::NotBuilt,
            },
    {
        if self.levels.len() == 0 {
            return Err(StateError::NotBuilt);
        }
        let j = self.levels.len() - 1;
        let ghost vs = views_of(self.levels@);
        let ghost t = level_tree(vs, j as int);
        let level = &self.levels[j];
        assert(level.wf() && level_ok(vs, j as int));
        assert(vs[j as int] == level@);
        proof {
            lemma_level_shape(vs, j as int);
        }
        let mut cur: usize = 0;
        let mut pos: usize = 0;
        proof {
            assert(t.path(0) =~= key@.subrange(0, 0));
            assert forall|w: int| 0 <= w < t.nodes() && t.path(w) == key@ implies t.anc(0, w) by {
                t.lemma_anc_root(w);
            }
            t.lemma_num_keys();
            assert(self@ == t.keys());
        }
        while pos < key.len()
            invariant
                self.wf(),
                self.is_built(),
                self@ == t.keys(),
                t.keys().len() == t.num_keys(),
                cascade_ok(self.levels@),
                j == self.levels@.len() - 1,
                vs == views_of(self.levels@),
                t == level_tree(vs, j as int),
                t.wf(),
                cur < t.nodes(),
                pos <= key@.len(),
                t.path(cur as int) == key@.subrange(0, pos as int),
                forall|w: int| 0 <= w < t.nodes() && t.path(w) == key@ ==> t.anc(cur as int, w),
            decreases key@.len() - pos,
        {
            let found = self.find_child(j, cur, key[pos]);
            match found {
                None => {
                    proof {
                        assert forall|id: int| 0 <= id < t.num_keys() implies t.keys()[id]
                            != key@ by {
                            t.lemma_key_node(id);
                            let w = t.key_node(id);
                            if t.path(w) == key@ {
                                assert(key@.subrange(0, pos + 1).is_prefix_of(key@));
                                t.lemma_walk_child(cur as int, w, key@, pos as int);
                            }
                        }
                    }
                    return Ok(None);
                },
                Some(c) => {
                    let label = self.node_label(j, c);
                    proof {
                        t.lemma_path_step(c as int);
                    }
                    if !matches_at(key, pos, label.as_slice()) {
                        proof {
                            assert forall|id: int| 0 <= id < t.num_keys() implies t.keys()[id]
                                != key@ by {
                                t.lemma_key_node(id);
                                let w = t.key_node(id);
                                if t.path(w) == key@ {
                                    assert(key@.subrange(0, pos + 1).is_prefix_of(key@));
                                    t.lemma_walk_child(cur as int, w, key@, pos as int);
                                    assert(t.toward(cur as int, w) == c);
                                    lemma_label_in_query(key@, pos as int, label@);
                                }
                            }
                        }
                        return Ok(None);
                    }
                    proof {
                        assert(t.path(c as int) =~= key@.subrange(0, pos + label@.len()));
                        assert forall|w: int|
                            0 <= w < t.nodes() && t.path(w) == key@ implies t.anc(c as int, w) by {
                            assert(key@.subrange(0, pos + 1).is_prefix_of(key@));
                            t.lemma_walk_child(cur as int, w, key@, pos as int);
                            assert(t.toward(cur as int, w) == c);
                        }
                    }
                    pos = pos + label.len();
                    cur = c;
                },
            }
        }
        proof {
            assert(key@.subrange(0, pos as int) =~= key@);
            t.lemma_num_keys();
        }
        if level.is_terminal(cur) {
            let id = level.key_id(cur);
            proof {
                t.lemma_node_key(cur as int);
            }
            Ok(Some(id as u32))
        } else {
            proof {
                assert forall|id: int| 0 <= id < t.num_keys() implies t.keys()[id] != key@ by {
                    t.lemma_key_node(id);
                    let w = t.key_node(id);
                    if t.path(w) == key@ {
                        t.lemma_path_injective(cur as int, w);
                    }
                }
            }
            Ok(None)
        }
    }

    /// Every key that `query` starts with, shortest first.
    pub fn common_prefix_search(&self, query: &[u8]) -> (r: Result<Vec<Match>, StateError>)
        requires
            self.wf(),
        ensures
            match r {
                Ok(out) => self.is_built() && lists_prefixes(
                    self@,
                    query@,
                    out@,
                    query@.len() as int + 1,
                ),
                Err(e) => !self.is_built() && e == StateError::NotBuilt,
            },
    {
        if self.levels.len() == 0 {
            return Err(StateError::NotBuilt);
        }
        let j = self.levels.len() - 1;
        let ghost vs = views_of(self.levels@);
        let ghost t = level_tree(vs, j as int);
        let ghost q = query@;
        let level = &self.levels[j];
        assert(level.wf() && level_ok(vs, j as int));
        assert(vs[j as int] == level@);
        proof {
            lemma_level_shape(vs, j as int);
        }
        let mut out: Vec<Match> = Vec::new();
        let mut cur: usize = 0;
        let mut pos: usize = 0;
        proof {
            assert(t.path(0) =~= q.subrange(0, 0));
            assert forall|w: int| 0 <= w < t.nodes() implies t.anc(0, w) by {
                t.lemma_anc_root(w);
            }
            t.lemma_num_keys();
            assert(self@ == t.keys());
        }
        loop
            invariant
                self.wf(),
                self.is_built(),
                self@ == t.keys(),
                t.keys().len() == t.num_keys(),
                cascade_ok(self.levels@),
                j == self.levels@.len() - 1,
                vs == views_of(self.levels@),
                level == &self.levels@[j as int],
                level.wf(),
                level@ == vs[j as int],
                t == level_tree(vs, j as int),
                t.wf(),
                q == query@,
                cur < t.nodes(),
                pos <= q.len(),
                t.path(cur as int) == q.subrange(0, pos as int),
                lists_prefixes(t.keys(), q, out@, pos as int),
                forall|w: int|
                    0 <= w < t.nodes() && t.path(w).is_prefix_of(q) && t.path(w).len() >= pos
                        ==> t.anc(cur as int, w),
            decreases q.len() - pos,
        {
            let ghost prev = out@;
            if level.is_terminal(cur) {
                let id = level.key_id(cur);
                let mut key: Vec<u8> = Vec::new();
                append_bytes(&mut key, query, 0, pos);
                let m = Match { key, id: id as u32 };
                proof {
                    t.lemma_node_key(cur as int);
                    assert(m.key@ =~= q.subrange(0, pos as int));
                    assert forall|id2: int| has_id(prev, id2) implies has_id(prev.push(m), id2) by {
                        lemma_has_id_push(prev, m, id2);
                    }
                    lemma_has_id_push(prev, m, id as int);
                }
                out.push(m);
            }
            proof {
                // every key of exactly this length that starts the query ends here
                assert forall|id: int|
                    0 <= id < t.keys().len() && (#[trigger] t.keys()[id]).is_prefix_of(q)
                        && t.keys()[id].len() < pos + 1 implies has_id(out@, id) by {
                    if t.keys()[id].len() < pos {
                        assert(has_id(prev, id));
                    } else {
                        t.lemma_key_node(id);
                        let w = t.key_node(id);
                        assert(t.path(w) =~= q.subrange(0, pos as int));
                        t.lemma_path_injective(cur as int, w);
                        t.lemma_node_key(cur as int);
                    }
                }
                assert(lists_prefixes(t.keys(), q, out@, pos + 1));
            }
            if pos == query.len() {
                return Ok(out);
            }
            let found = self.find_child(j, cur, query[pos]);
            let ghost stop: bool;
            let mut label: Vec<u8> = Vec::new();
            match found {
                None => {
                    proof {
                        stop = true;
                    }
                },
                Some(c) => {
                    label = self.node_label(j, c);
                    proof {
                        t.lemma_path_step(c as int);
                        stop = !(pos + label@.len() <= q.len() && q.subrange(
                            pos as int,
                            pos + label@.len(),
                        ) == label@);
                    }
                },
            }
            proof {
                // whatever lies further down the query lies under that child
                assert forall|w: int|
                    0 <= w < t.nodes() && (#[trigger] t.path(w)).is_prefix_of(q) && t.path(w).len()
                        > pos implies found is Some && !stop && t.anc(found->Some_0 as int, w)
                    && t.path(w).len() >= pos + label@.len() by {
                    assert(q.subrange(0, pos + 1) =~= t.path(w).subrange(0, pos + 1));
                    t.lemma_walk_child(cur as int, w, q, pos as int);
                    let c = t.toward(cur as int, w);
                    assert(found is Some);
                    assert(c == found->Some_0);
                    lemma_prefix_transitive(t.path(c), t.path(w), q);
                    lemma_label_in_query(q, pos as int, label@);
                }
            }
            if found.is_none() || !matches_at(query, pos, label.as_slice()) {
                proof {
                    assert forall|id: int|
                        0 <= id < t.keys().len() && (#[trigger] t.keys()[id]).is_prefix_of(q)
                            && t.keys()[id].len() < q.len() + 1 implies has_id(out@, id) by {
                        t.lemma_key_node(id);
                        let w = t.key_node(id);
                        assert(t.keys()[id] == t.path(w));
                        if t.path(w).len() > pos {
                            assert(t.path(w).is_prefix_of(q));
                            assert(false);
                        }
                    }
                }
                return Ok(out);
            }
            let c = found.unwrap();
            proof {
                assert(t.path(c as int) =~= q.subrange(0, pos + label@.len()));
                lemma_level_head(vs, j as int, c as int);
                assert forall|id: int|
                    0 <= id < t.keys().len() && (#[trigger] t.keys()[id]).is_prefix_of(q)
                        && t.keys()[id].len() < pos + label@.len() implies has_id(out@, id) by {
                    t.lemma_key_node(id);
                    let w = t.key_node(id);
                    assert(t.keys()[id] == t.path(w));
                    if t.path(w).len() > pos {
                        assert(t.path(w).is_prefix_of(q));
                        assert(false);
                    }
                }
            }
            pos = pos + label.len();
            cur = c;
        }
    }

    /// The node under which exactly the nodes lie whose paths start with
    /// `prefix`, if there is any such node.
    fn locate(&self, j: usize, prefix: &[u8]) -> (r: Option<usize>)
        requires
            cascade_ok(self.levels@),
            j < self.levels@.len(),
        ensures
            ({
                let t = level_tree(views_of(self.levels@), j as int);
                match r {
                    Some(x) => x < t.nodes() && forall|w: int|
                        0 <= w < t.nodes() ==> (prefix@.is_prefix_of(#[trigger] t.path(w))
                            <==> t.anc(x as int, w)),
                    None => forall|w: int|
                        0 <= w < t.nodes() ==> !prefix@.is_prefix_of(#[trigger] t.path(w)),
                }
            }),
    {
        let ghost vs = views_of(self.levels@);
        let ghost t = level_tree(vs, j as int);
        let ghost p = prefix@;
        let level = &self.levels[j];
        assert(level.wf() && level_ok(vs, j as int));
        assert(vs[j as int] == level@);
        proof {
            lemma_level_shape(vs, j as int);
        }
        let mut cur: usize = 0;
        let mut pos: usize = 0;
        proof {
            assert(t.path(0) =~= p.subrange(0, 0));
            assert forall|w: int| 0 <= w < t.nodes() implies t.anc(0, w) by {
                t.lemma_anc_root(w);
            }
        }
        while pos < prefix.len()
            invariant
                cascade_ok(self.levels@),
                j < self.levels@.len(),
                vs == views_of(self.levels@),
                t == level_tree(vs, j as int),
                t.wf(),
                p == prefix@,
                cur < t.nodes(),
                pos <= p.len(),
                t.path(cur as int) == p.subrange(0, pos as int),
                forall|w: int|
                    0 <= w < t.nodes() && p.is_prefix_of(#[trigger] t.path(w)) ==> t.anc(
                        cur as int,
                        w,
                    ),
            decreases p.len() - pos,
        {
            let found = self.find_child(j, cur, prefix[pos]);
            if found.is_none() {
                proof {
                    assert forall|w: int| 0 <= w < t.nodes() implies !p.is_prefix_of(
                        #[trigger] t.path(w),
                    ) by {
                        if p.is_prefix_of(t.path(w)) {
                            assert(p.subrange(0, pos + 1).is_prefix_of(p));
                            lemma_prefix_transitive(p.subrange(0, pos + 1), p, t.path(w));
                            t.lemma_walk_child(cur as int, w, p, pos as int);
                        }
                    }
                }
                return None;
            }
            let c = found.unwrap();
            let label = self.node_label(j, c);
            let rest = prefix.len() - pos;
            let ghost pc = t.path(c as int);
            proof {
                t.lemma_path_step(c as int);
                lemma_level_head(vs, j as int, c as int);
                assert(pc == p.subrange(0, pos as int) + label@);
                // all that starts with the prefix lies under this child
                assert forall|w: int|
                    0 <= w < t.nodes() && p.is_prefix_of(#[trigger] t.path(w)) implies t.anc(
                    c as int,
                    w,
                ) && pc.is_prefix_of(t.path(w)) by {
                    assert(p.subrange(0, pos + 1).is_prefix_of(p));
                    lemma_prefix_transitive(p.subrange(0, pos + 1), p, t.path(w));
                    t.lemma_walk_child(cur as int, w, p, pos as int);
                    assert(t.toward(cur as int, w) == c);
                }
            }
            if label.len() <= rest {
                if !matches_at(prefix, pos, label.as_slice()) {
                    proof {
                        assert forall|w: int| 0 <= w < t.nodes() implies !p.is_prefix_of(
                            #[trigger] t.path(w),
                        ) by {
                            if p.is_prefix_of(t.path(w)) {
                                let pw = t.path(w);
                                assert forall|k: int| 0 <= k < label@.len() implies p[pos + k]
                                    == label@[k] by {
                                    lemma_prefix_index(p, pw, pos + k);
                                    lemma_prefix_index(pc, pw, pos + k);
                                }
                                assert(p.subrange(pos as int, pos + label@.len()) =~= label@);
                            }
                        }
                    }
                    return None;
                }
                proof {
                    assert(pc =~= p.subrange(0, pos + label@.len()));
                }
                pos = pos + label.len();
                cur = c;
            } else {
                let tail = vstd::slice::slice_subrange(prefix, pos, prefix.len());
                if !matches_at(label.as_slice(), 0, tail) {
                    proof {
                        assert forall|w: int| 0 <= w < t.nodes() implies !p.is_prefix_of(
                            #[trigger] t.path(w),
                        ) by {
                            if p.is_prefix_of(t.path(w)) {
                                let pw = t.path(w);
                                assert forall|k: int| 0 <= k < rest implies label@[k] == tail@[k] by {
                                    lemma_prefix_index(p, pw, pos + k);
                                    lemma_prefix_index(pc, pw, pos + k);
                                }
                                assert(label@.subrange(0int, 0int + tail@.len()) =~= tail@);
                            }
                        }
                    }
                    return None;
                }
                proof {
                    assert forall|k: int| 0 <= k < p.len() implies p[k] == pc[k] by {
                        if k >= pos {
                            assert(label@.subrange(0int, 0int + tail@.len())[k - pos] == tail@[k - pos]);
                        } else {
                            assert(p.subrange(0, pos as int)[k] == p[k]);
                        }
                    }
                    assert(p =~= pc.subrange(0, p.len() as int));
                    assert(p.is_prefix_of(pc));
                    assert forall|w: int| 0 <= w < t.nodes() implies (p.is_prefix_of(
                        #[trigger] t.path(w),
                    ) <==> t.anc(c as int, w)) by {
                        if t.anc(c as int, w) {
                            t.lemma_anc_path(c as int, w);
                            lemma_prefix_transitive(p, pc, t.path(w));
                        }
                    }
                }
                return Some(c);
            }
        }
        proof {
            assert(p.subrange(0, pos as int) =~= p);
            assert forall|w: int| 0 <= w < t.nodes() implies (p.is_prefix_of(#[trigger] t.path(w))
                <==> t.anc(cur as int, w)) by {
                if t.anc(cur as int, w) {
                    t.lemma_anc_path(cur as int, w);
                }
            }
        }
        Some(cur)
    }

    /// The keys that end at `x` or below it, by rising identifier.
    fn collect_subtree(&self, j: usize, x: usize) -> (out: Vec<Match>)
        requires
            cascade_ok(self.levels@),
            j < self.levels@.len(),
            x < level_tree(views_of(self.levels@), j as int).nodes(),
        ensures
            ({
                let t = level_tree(views_of(self.levels@), j as int);
                &&& forall|i: int|
                    0 <= i < out@.len() ==> {
                        &&& (#[trigger] out@[i]).id < t.num_keys()
                        &&& out@[i].key@ == t.keys()[out@[i].id as int]
                        &&& t.anc(x as int, t.key_node(out@[i].id as int))
                    }
                &&& forall|i: int, k: int|
                    0 <= i < k < out@.len() ==> (#[trigger] out@[i]).id < (#[trigger] out@[k]).id
                &&& forall|w: int|
                    0 <= w < t.nodes() && #[trigger] t.anc(x as int, w) && t.terminal[w] ==> has_id(
                        out@,
                        count_bits(t.terminal, true, w),
                    )
            }),
    {
        let ghost vs = views_of(self.levels@);
        let ghost t = level_tree(vs, j as int);
        let level = &self.levels[j];
        assert(level.wf() && level_ok(vs, j as int));
        assert(vs[j as int] == level@);
        proof {
            lemma_level_shape(vs, j as int);
            t.lemma_num_keys();
            t.lemma_range_start(x as int);
            t.lemma_child_begin(x as int);
        }
        let n = level.nodes();
        let mut out: Vec<Match> = Vec::new();
        let mut lo: usize = x;
        let mut hi: usize = x + 1;
        while lo < hi
            invariant
                cascade_ok(self.levels@),
                j < self.levels@.len(),
                vs == views_of(self.levels@),
                level == &self.levels@[j as int],
                level.wf(),
                level@ == vs[j as int],
                level@.shape().louds_ok(),
                level@.shape().louds == t.louds,
                t == level_tree(vs, j as int),
                t.wf(),
                n == t.nodes(),
                t.keys().len() == t.num_keys(),
                x <= lo <= hi <= n,
                lo < hi ==> hi <= t.child_begin(lo as int),
                t.covers(x as int, lo as int, hi as int),
                forall|i: int|
                    0 <= i < out@.len() ==> {
                        &&& (#[trigger] out@[i]).id < t.num_keys()
                        &&& out@[i].key@ == t.keys()[out@[i].id as int]
                        &&& t.anc(x as int, t.key_node(out@[i].id as int))
                        &&& out@[i].id < count_bits(t.terminal, true, lo as int)
                    },
                forall|i: int, k: int|
                    0 <= i < k < out@.len() ==> (#[trigger] out@[i]).id < (#[trigger] out@[k]).id,
                forall|w: int|
                    0 <= w < lo && #[trigger] t.anc(x as int, w) && t.terminal[w] ==> has_id(
                        out@,
                        count_bits(t.terminal, true, w),
                    ),
            decreases n - lo,
        {
            let mut w: usize = lo;
            while w < hi
                invariant
                    cascade_ok(self.levels@),
                    j < self.levels@.len(),
                    vs == views_of(self.levels@),
                    level == &self.levels@[j as int],
                    level.wf(),
                    level@ == vs[j as int],
                    t == level_tree(vs, j as int),
                    t.wf(),
                    n == t.nodes(),
                    t.keys().len() == t.num_keys(),
                    lo <= w <= hi <= n,
                    t.covers(x as int, lo as int, hi as int),
                    forall|i: int|
                        0 <= i < out@.len() ==> {
                            &&& (#[trigger] out@[i]).id < t.num_keys()
                            &&& out@[i].key@ == t.keys()[out@[i].id as int]
                            &&& t.anc(x as int, t.key_node(out@[i].id as int))
                            &&& out@[i].id < count_bits(t.terminal, true, w as int)
                        },
                    forall|i: int, k: int|
                        0 <= i < k < out@.len() ==> (#[trigger] out@[i]).id < (
                        #[trigger] out@[k]).id,
                    forall|v: int|
                        0 <= v < w && #[trigger] t.anc(x as int, v) && t.terminal[v] ==> has_id(
                            out@,
                            count_bits(t.terminal, true, v),
                        ),
                decreases hi - w,
            {
                let ghost prev = out@;
                proof {
                    lemma_count_step(t.terminal, true, w as int);
                    lemma_count_bounds(t.terminal, true, w as int);
                }
                if level.is_terminal(w) {
                    let id = level.key_id(w);
                    let mut key: Vec<u8> = Vec::new();
                    self.append_path(j, w, &mut key);
                    let m = Match { key, id: id as u32 };
                    proof {
                        t.lemma_node_key(w as int);
                        assert(m.key@ =~= t.path(w as int));
                        assert(t.anc(x as int, w as int));
                        assert forall|id2: int| has_id(prev, id2) implies has_id(
                            prev.push(m),
                            id2,
                        ) by {
                            lemma_has_id_push(prev, m, id2);
                        }
                        lemma_has_id_push(prev, m, id as int);
                    }
                    out.push(m);
                }
                w = w + 1;
            }
            proof {
                t.lemma_range_next(x as int, lo as int, hi as int);
                lemma_count_monotone(t.terminal, true, hi as int, t.child_begin(lo as int));
            }
            let next_lo = level.child_begin(lo);
            let next_hi = level.child_begin(hi);
            lo = next_lo;
            hi = next_hi;
        }
        proof {
            assert forall|w: int|
                0 <= w < t.nodes() && #[trigger] t.anc(x as int, w) && t.terminal[w] implies has_id(
                out@,
                count_bits(t.terminal, true, w),
            ) by {
                if w >= lo {
                    let u = choose|u: int| lo <= u < hi && #[trigger] t.anc(u, w);
                }
            }
        }
        out
    }

    /// Every key that starts with `prefix`, by rising identifier.
    pub fn predictive_search(&self, prefix: &[u8]) -> (r: Result<Vec<Match>, StateError>)
        requires
            self.wf(),
        ensures
            match r {
                Ok(out) => self.is_built() && lists_extensions(self@, prefix@, out@),
                Err(e) => !self.is_built() && e == StateError::NotBuilt,
            },
    {
        if self.levels.len() == 0 {
            return Err(StateError::NotBuilt);
        }
        let j = self.levels.len() - 1;
        let ghost vs = views_of(self.levels@);
        let ghost t = level_tree(vs, j as int);
        proof {
            assert(self.levels@[j as int].wf() && level_ok(vs, j as int));
            t.lemma_num_keys();
            assert(self@ == t.keys());
        }
        match self.locate(j, prefix) {
            None => {
                let out: Vec<Match> = Vec::new();
                proof {
                    assert forall|id: int|
                        0 <= id < t.keys().len() && prefix@.is_prefix_of(
                            #[trigger] t.keys()[id],
                        ) implies has_id(out@, id) by {
                        t.lemma_key_node(id);
                        assert(!prefix@.is_prefix_of(t.path(t.key_node(id))));
                    }
                }
                Ok(out)
            },
            Some(x) => {
                let out = self.collect_subtree(j, x);
                proof {
                    assert forall|i: int| 0 <= i < out@.len() implies prefix@.is_prefix_of(
                        (#[trigger] out@[i]).key@,
                    ) by {
                        t.lemma_key_node(out@[i].id as int);
                        assert(prefix@.is_prefix_of(t.path(t.key_node(out@[i].id as int))));
                    }
                    assert forall|id: int|
                        0 <= id < t.keys().len() && prefix@.is_prefix_of(
                            #[trigger] t.keys()[id],
                        ) implies has_id(out@, id) by {
                        t.lemma_key_node(id);
                        let w = t.key_node(id);
                        assert(prefix@.is_prefix_of(t.path(w)));
                        assert(t.anc(x as int, w));
                    }
                }
                Ok(out)
            },
        }
    }

    /// The key with identifier `id`.
    pub fn reverse_lookup(&self, id: u32) -> (r: Result<Vec<u8>, Error>)
        requires
            self.wf(),
        ensures
            match r {
                Ok(key) => self.is_built() && id < self@.len() && key@ == self@[id as int],
                Err(e) => if !self.is_built() {
                    e == Error::State(StateError::NotBuilt)
                } else {
                    id >= self@.len() && e == Error::Input(InputError::OutOfRange)
                },
            },
    {
        if self.levels.len() == 0 {
            return Err(Error::State(StateError::NotBuilt));
        }
        let j = self.levels.len() - 1;
        let ghost vs = views_of(self.levels@);
        let ghost t = level_tree(vs, j as int);
        let level = &self.levels[j];
        assert(level.wf() && level_ok(vs, j as int));
        assert(vs[j as int] == level@);
        proof {
            lemma_level_shape(vs, j as int);
        }
        proof {
            t.lemma_num_keys();
        }
        if id as usize >= level.num_keys() {
            return Err(Error::Input(InputError::OutOfRange));
        }
        proof {
            t.lemma_key_node(id as int);
        }
        let node = level.key_node(id as usize);
        let mut key: Vec<u8> = Vec::new();
        self.append_path(j, node, &mut key);
        assert(key@ =~= t.path(node as int));
        Ok(key)
    }
}

} // verus!
