//! Building a dictionary from a set of keys.

use vstd::prelude::*;
use vstd::slice::slice_to_vec;
use crate::cascade::{
    arrange, build_levels, equal_next, fits_within, lemma_equal_adjacent, levels_as_wanted,
    runs_ok,
};
use crate::error::{Error, InputError, StateError};
use crate::key::KeyView;
use crate::keyset::Keyset;
use crate::level::{level_ok, level_tree, MAX_NODES};
use crate::shape::{key_lens, picked, strictly_sorted, under_weight, MAX_TOTAL};
use crate::tree::Tree;
use crate::sort::{lemma_sorted_distinct, views};
use crate::sums::sum;
use crate::trie::{views_of, Trie};
use crate::weight::weight_sum;

verus! {

/// What to do with a key that is given more than once.
#[derive(Clone, Copy, Debug, PartialEq, Eq, Structural)]
pub enum DuplicatePolicy {
    /// The build fails.
    Reject,
    /// The key is taken once, with the weights of its copies added up.
    MergeSumWeights,
}

/// How to build.
#[derive(Clone, Copy, Debug, PartialEq, Eq, Structural)]
pub struct Config {
    /// How many levels to build at most; zero leaves the choice to the
    /// builder.
    pub num_tries: usize,
    /// Whether the children of a node stand by falling weight of their
    /// keys, or else by their first bytes.
    pub weight_ordering: bool,
    pub duplicate_policy: DuplicatePolicy,
}

impl Default for Config {
    fn default() -> (r: Config)
        ensures
            r == (Config {
                num_tries: 0,
                weight_ordering: true,
                duplicate_policy: DuplicatePolicy::Reject,
            }),
    {
        Config { num_tries: 0, weight_ordering: true, duplicate_policy: DuplicatePolicy::Reject }
    }
}

/// The weights of the first `upto` keys that hold `bytes`, added up.
pub open spec fn combined_weight(keys: Seq<KeyView>, bytes: Seq<u8>, upto: int) -> u32
    decreases upto,
{
    if upto <= 0 {
        0
    } else if keys[upto - 1].bytes == bytes {
        weight_sum(combined_weight(keys, bytes, upto - 1), keys[upto - 1].weight)
    } else {
        combined_weight(keys, bytes, upto - 1)
    }
}

/// The weights of those of the first `upto` keys that start with `prefix`,
/// added up.
pub open spec fn prefix_weight(keys: Seq<KeyView>, prefix: Seq<u8>, upto: int) -> u32
    decreases upto,
{
    if upto <= 0 {
        0
    } else if prefix.is_prefix_of(keys[upto - 1].bytes) {
        weight_sum(prefix_weight(keys, prefix, upto - 1), keys[upto - 1].weight)
    } else {
        prefix_weight(keys, prefix, upto - 1)
    }
}

/// Of two children of one node of `t`, the one with the lesser number is
/// the one under which the keys given weigh more, if siblings are to stand
/// by weight, and else the one whose label starts with the lesser byte.
pub open spec fn siblings_ordered(t: Tree, keys: Seq<KeyView>, by_weight: bool) -> bool {
    forall|c1: int, c2: int|
        1 <= c1 < c2 < t.nodes() && #[trigger] t.parent(c1) == #[trigger] t.parent(c2) ==> if by_weight {
            prefix_weight(keys, t.path(c1), keys.len() as int) >= prefix_weight(
                keys,
                t.path(c2),
                keys.len() as int,
            )
        } else {
            t.labels[c1][0] < t.labels[c2][0]
        }
}

/// A sum of weights as it is kept: at most the largest weight.
spec fn kept(x: int) -> u32 {
    if x > u32::MAX {
        u32::MAX
    } else {
        x as u32
    }
}

/// The weights of the first `upto` keys that hold `bytes`, in full.
spec fn full_combined(keys: Seq<KeyView>, bytes: Seq<u8>, upto: int) -> int
    decreases upto,
{
    if upto <= 0 {
        0
    } else if keys[upto - 1].bytes == bytes {
        full_combined(keys, bytes, upto - 1) + keys[upto - 1].weight
    } else {
        full_combined(keys, bytes, upto - 1)
    }
}

/// The weights of the first `upto` keys that start with `prefix`, in full.
spec fn full_prefix(keys: Seq<KeyView>, prefix: Seq<u8>, upto: int) -> int
    decreases upto,
{
    if upto <= 0 {
        0
    } else if prefix.is_prefix_of(keys[upto - 1].bytes) {
        full_prefix(keys, prefix, upto - 1) + keys[upto - 1].weight
    } else {
        full_prefix(keys, prefix, upto - 1)
    }
}

/// Over the first `k` of the distinct byte strings `s` that start with
/// `prefix`: the weights of the first `upto` keys that hold them, in full.
spec fn full_under(s: Seq<Seq<u8>>, keys: Seq<KeyView>, prefix: Seq<u8>, k: int, upto: int) -> int
    decreases k,
{
    if k <= 0 {
        0
    } else if prefix.is_prefix_of(s[k - 1]) {
        full_under(s, keys, prefix, k - 1, upto) + full_combined(keys, s[k - 1], upto)
    } else {
        full_under(s, keys, prefix, k - 1, upto)
    }
}

proof fn lemma_combined_kept(keys: Seq<KeyView>, bytes: Seq<u8>, upto: int)
    ensures
        full_combined(keys, bytes, upto) >= 0,
        combined_weight(keys, bytes, upto) == kept(full_combined(keys, bytes, upto)),
    decreases upto,
{
    if upto > 0 {
        lemma_combined_kept(keys, bytes, upto - 1);
    }
}

proof fn lemma_prefix_kept(keys: Seq<KeyView>, prefix: Seq<u8>, upto: int)
    ensures
        full_prefix(keys, prefix, upto) >= 0,
        prefix_weight(keys, prefix, upto) == kept(full_prefix(keys, prefix, upto)),
    decreases upto,
{
    if upto > 0 {
        lemma_prefix_kept(keys, prefix, upto - 1);
    }
}

proof fn lemma_under_kept(
    s: Seq<Seq<u8>>,
    merged: Seq<u32>,
    keys: Seq<KeyView>,
    prefix: Seq<u8>,
    k: int,
)
    requires
        0 <= k <= s.len(),
        merged.len() == s.len(),
        forall|g: int|
            0 <= g < s.len() ==> #[trigger] merged[g] == combined_weight(
                keys,
                s[g],
                keys.len() as int,
            ),
    ensures
        full_under(s, keys, prefix, k, keys.len() as int) >= 0,
        under_weight(s, merged, prefix, k) == kept(
            full_under(s, keys, prefix, k, keys.len() as int),
        ),
    decreases k,
{
    if k > 0 {
        lemma_under_kept(s, merged, keys, prefix, k - 1);
        lemma_combined_kept(keys, s[k - 1], keys.len() as int);
        assert(merged[k - 1] == combined_weight(keys, s[k - 1], keys.len() as int));
    }
}

proof fn lemma_under_none(s: Seq<Seq<u8>>, keys: Seq<KeyView>, prefix: Seq<u8>, k: int)
    ensures
        full_under(s, keys, prefix, k, 0) == 0,
    decreases k,
{
    if k > 0 {
        lemma_under_none(s, keys, prefix, k - 1);
    }
}

/// One key more adds its weight where its byte string is among those
/// counted, and nothing elsewhere.
proof fn lemma_under_step(
    s: Seq<Seq<u8>>,
    keys: Seq<KeyView>,
    prefix: Seq<u8>,
    k: int,
    upto: int,
    at: int,
)
    requires
        strictly_sorted(s),
        0 <= k <= s.len(),
        0 <= upto < keys.len(),
        0 <= at < s.len(),
        s[at] == keys[upto].bytes,
    ensures
        full_under(s, keys, prefix, k, upto + 1) == full_under(s, keys, prefix, k, upto) + if at
            < k && prefix.is_prefix_of(keys[upto].bytes) {
            keys[upto].weight as int
        } else {
            0int
        },
    decreases k,
{
    if k > 0 {
        lemma_under_step(s, keys, prefix, k - 1, upto, at);
        if s[k - 1] == keys[upto].bytes && k - 1 != at {
            crate::lex::lemma_lex_irreflexive(s[at]);
            if k - 1 < at {
                assert(crate::lex::lex_lt(s[k - 1], s[at]));
            } else {
                assert(crate::lex::lex_lt(s[at], s[k - 1]));
            }
        }
    }
}

proof fn lemma_under_all(
    s: Seq<Seq<u8>>,
    keys: Seq<KeyView>,
    prefix: Seq<u8>,
    group: Seq<usize>,
    upto: int,
)
    requires
        strictly_sorted(s),
        0 <= upto <= keys.len(),
        group.len() == keys.len(),
        forall|i: int|
            0 <= i < keys.len() ==> (#[trigger] group[i]) < s.len() && s[group[i] as int]
                == keys[i].bytes,
    ensures
        full_under(s, keys, prefix, s.len() as int, upto) == full_prefix(keys, prefix, upto),
    decreases upto,
{
    if upto <= 0 {
        lemma_under_none(s, keys, prefix, s.len() as int);
    } else {
        lemma_under_all(s, keys, prefix, group, upto - 1);
        assert(group[upto - 1] < s.len());
        lemma_under_step(s, keys, prefix, s.len() as int, upto - 1, group[upto - 1] as int);
    }
}

/// The keys that start with a prefix weigh the same whether their weights
/// are added up key by key or by distinct byte string.
proof fn lemma_under_is_prefix(
    s: Seq<Seq<u8>>,
    merged: Seq<u32>,
    keys: Seq<KeyView>,
    group: Seq<usize>,
    prefix: Seq<u8>,
)
    requires
        strictly_sorted(s),
        merged.len() == s.len(),
        forall|g: int|
            0 <= g < s.len() ==> #[trigger] merged[g] == combined_weight(
                keys,
                s[g],
                keys.len() as int,
            ),
        group.len() == keys.len(),
        forall|i: int|
            0 <= i < keys.len() ==> (#[trigger] group[i]) < s.len() && s[group[i] as int]
                == keys[i].bytes,
    ensures
        under_weight(s, merged, prefix, s.len() as int) == prefix_weight(
            keys,
            prefix,
            keys.len() as int,
        ),
{
    lemma_under_kept(s, merged, keys, prefix, s.len() as int);
    lemma_under_all(s, keys, prefix, group, keys.len() as int);
    lemma_prefix_kept(keys, prefix, keys.len() as int);
}

/// The bytes of all keys together.
pub open spec fn total_bytes(keys: Seq<KeyView>) -> int {
    sum(Seq::new(keys.len(), |i: int| keys[i].bytes.len() as int))
}

/// The byte strings of the keys, each once.
pub open spec fn distinct_bytes(keys: Seq<KeyView>) -> Set<Seq<u8>> {
    Seq::new(keys.len(), |i: int| keys[i].bytes).to_set()
}

/// Some key is given twice.
pub open spec fn has_duplicates(keys: Seq<KeyView>) -> bool {
    exists|i: int, j: int| 0 <= i < j < keys.len() && keys[i].bytes == keys[j].bytes
}

/// Why a build from `keys` fails, if it does.
pub open spec fn build_error(built: bool, keys: Seq<KeyView>, policy: DuplicatePolicy) -> Option<
    Error,
> {
    if built {
        Some(Error::State(StateError::AlreadyBuilt))
    } else if keys.len() == 0 {
        Some(Error::Input(InputError::EmptyInput))
    } else if total_bytes(keys) > MAX_TOTAL {
        Some(Error::Input(InputError::TooLarge))
    } else if policy == DuplicatePolicy::Reject && has_duplicates(keys) {
        Some(Error::Input(InputError::DuplicateKey))
    } else {
        None
    }
}

/// The bytes of the keys of `keyset`, each in a buffer of its own.
fn export(keyset: &Keyset) -> (keys: Vec<Vec<u8>>)
    requires
        keyset.wf(),
    ensures
        keys@.len() == keyset@.len(),
        forall|i: int| 0 <= i < keys@.len() ==> (#[trigger] keys@[i])@ == keyset@[i].bytes,
{
    let n = keyset.num_keys();
    let mut keys: Vec<Vec<u8>> = Vec::new();
    let mut i: usize = 0;
    while i < n
        invariant
            keyset.wf(),
            n == keyset@.len(),
            i <= n,
            keys@.len() == i,
            forall|k: int| 0 <= k < i ==> (#[trigger] keys@[k])@ == keyset@[k].bytes,
        decreases n - i,
    {
        keys.push(slice_to_vec(keyset.get(i).bytes()));
        i = i + 1;
    }
    keys
}

/// The weights of the keys of `keyset`.
fn export_weights(keyset: &Keyset) -> (weights: Vec<u32>)
    requires
        keyset.wf(),
    ensures
        weights@.len() == keyset@.len(),
        forall|i: int| 0 <= i < weights@.len() ==> #[trigger] weights@[i] == keyset@[i].weight,
{
    let n = keyset.num_keys();
    let mut weights: Vec<u32> = Vec::new();
    let mut i: usize = 0;
    while i < n
        invariant
            keyset.wf(),
            n == keyset@.len(),
            i <= n,
            weights@.len() == i,
            forall|k: int| 0 <= k < i ==> #[trigger] weights@[k] == keyset@[k].weight,
        decreases n - i,
    {
        weights.push(keyset.get(i).weight());
        i = i + 1;
    }
    weights
}

/// For each key of `keyset`, the weights of all keys of `keyset` that hold
/// the same bytes, added up: what the key counts for where duplicates are
/// merged.
pub fn merged_weights(keyset: &Keyset) -> (r: Vec<u32>)
    requires
        keyset.wf(),
    ensures
        r@.len() == keyset@.len(),
        forall|i: int|
            0 <= i < r@.len() ==> #[trigger] r@[i] == combined_weight(
                keyset@,
                keyset@[i].bytes,
                keyset@.len() as int,
            ),
{
    let ghost input = keyset@;
    let mut r: Vec<u32> = Vec::new();
    if keyset.num_keys() == 0 {
        return r;
    }
    let keys = export(keyset);
    let weights = export_weights(keyset);
    let runs = arrange(&keys, &weights, Ghost(input));
    let mut i: usize = 0;
    while i < keys.len()
        invariant
            input.len() == keys@.len(),
            forall|k: int| 0 <= k < keys@.len() ==> (#[trigger] keys@[k])@ == input[k].bytes,
            runs_ok(keys@, input, &runs),
            i <= keys@.len(),
            r@.len() == i,
            forall|k: int|
                0 <= k < i ==> #[trigger] r@[k] == combined_weight(
                    input,
                    input[k].bytes,
                    input.len() as int,
                ),
        decreases keys@.len() - i,
    {
        let g = runs.rec_group[i];
        proof {
            assert(runs.rec_group@[i as int] == g);
        }
        r.push(runs.merged[g]);
        i = i + 1;
    }
    r
}

/// How many levels are built at most: as many as asked for, or, where the
/// choice is left open, more for more keys.
pub open spec fn wanted_levels(num_tries: usize, keys: int) -> int {
    if num_tries > 0 {
        num_tries as int
    } else if keys < 256 {
        1
    } else if keys < 65536 {
        2
    } else {
        3
    }
}

impl Trie {
    /// Builds the dictionary from the keys of `keyset` as `Config`'s
    /// default says, and gives each key of `keyset` its identifier; see
    /// `build_with`.
    pub fn build(&mut self, keyset: &mut Keyset) -> (r: Result<(), Error>)
        requires
            old(self).wf(),
            old(keyset).wf(),
        ensures
            final(self).wf(),
            final(keyset).wf(),
            built_from(
                *old(self),
                *final(self),
                old(keyset)@,
                final(keyset)@,
                Config {
                    num_tries: 0,
                    weight_ordering: true,
                    duplicate_policy: DuplicatePolicy::Reject,
                },
                r,
            ),
    {
        let config = Config::default();
        self.build_with(keyset, &config)
    }

    /// Builds the dictionary from the keys of `keyset` and gives each key
    /// of `keyset` its identifier; bytes, weights and order of the keys
    /// given stay as they are. Where duplicates are merged, the copies of
    /// a key share one identifier and count with their weights together,
    /// which `merged_weights` gives.
    ///
    /// Keys of more than `MAX_TOTAL` bytes together are refused as
    /// `TooLarge`: the stored form counts in 32 bits.
    pub fn build_with(&mut self, keyset: &mut Keyset, config: &Config) -> (r: Result<(), Error>)
        requires
            old(self).wf(),
            old(keyset).wf(),
        ensures
            final(self).wf(),
            final(keyset).wf(),
            built_from(*old(self), *final(self), old(keyset)@, final(keyset)@, *config, r),
    {
        let ghost input = keyset@;
        let policy = config.duplicate_policy;
        if self.is_ready() {
            return Err(Error::State(StateError::AlreadyBuilt));
        }
        let count = keyset.num_keys();
        if count == 0 {
            return Err(Error::Input(InputError::EmptyInput));
        }
        let keys = export(keyset);
        let weights = export_weights(keyset);
        proof {
            assert(key_lens(keys@) =~= Seq::new(input.len(), |i: int| input[i].bytes.len() as int));
        }
        if !fits_within(&keys, MAX_TOTAL) {
            return Err(Error::Input(InputError::TooLarge));
        }
        let runs = arrange(&keys, &weights, Ghost(input));
        let ghost sv = views(keys@);
        let ghost order = runs.order@;
        proof {
            // equal keys stand side by side once sorted, and only equal keys do
            if has_duplicates(input) {
                let (i, j) = choose|i: int, j: int|
                    0 <= i < j < input.len() && input[i].bytes == input[j].bytes;
                assert(order.contains(i as usize));
                assert(order.contains(j as usize));
                let p = choose|p: int| 0 <= p < order.len() && order[p] == i as usize;
                let q = choose|q: int| 0 <= q < order.len() && order[q] == j as usize;
                assert(sv[i] == sv[j]);
                if p < q {
                    lemma_equal_adjacent(sv, order, p, q);
                    assert(equal_next(keys@, order, p));
                } else {
                    lemma_equal_adjacent(sv, order, q, p);
                    assert(equal_next(keys@, order, q));
                }
                assert(runs.dup);
            }
            if runs.dup {
                let p = choose|p: int| 0 <= p < order.len() - 1 && #[trigger] equal_next(keys@, order, p);
                if order[p] == order[p + 1] {
                    lemma_sorted_distinct(sv, order, p, p + 1);
                }
                let i = order[p] as int;
                let j = order[p + 1] as int;
                assert(input[i].bytes == input[j].bytes);
                if i < j {
                    assert(0 <= i < j < input.len() && input[i].bytes == input[j].bytes);
                } else {
                    assert(0 <= j < i < input.len() && input[j].bytes == input[i].bytes);
                }
                assert(has_duplicates(input));
            }
        }
        if runs.dup {
            match policy {
                DuplicatePolicy::Reject => {
                    return Err(Error::Input(InputError::DuplicateKey));
                },
                DuplicatePolicy::MergeSumWeights => {},
            }
        }
        let wanted: usize = if config.num_tries > 0 {
            config.num_tries
        } else if count < 256 {
            1
        } else if count < 65536 {
            2
        } else {
            3
        };
        let built = build_levels(
            &keys,
            &runs.distinct,
            &runs.merged,
            config.weight_ordering,
            wanted,
            MAX_NODES,
        );
        let (levels, total, run_ids) = built;
        let ghost s = picked(keys@, runs.distinct@);
        let ghost t = level_tree(views_of(levels@), levels@.len() - 1);
        let mut ids: Vec<u32> = Vec::new();
        let mut i: usize = 0;
        proof {
            assert(level_ok(views_of(levels@), levels@.len() - 1));
            t.lemma_num_keys();
        }
        while i < keys.len()
            invariant
                i <= keys@.len(),
                input.len() == keys@.len(),
                ids@.len() == i,
                weights@.len() == keys@.len(),
                forall|k: int|
                    0 <= k < keys@.len() ==> (#[trigger] keys@[k])@ == input[k].bytes && weights@[k]
                        == input[k].weight,
                runs_ok(keys@, input, &runs),
                s == picked(keys@, runs.distinct@),
                run_ids@.len() == s.len(),
                forall|g: int|
                    0 <= g < s.len() ==> (#[trigger] run_ids@[g]) < t.num_keys() && t.keys()[run_ids@[g] as int]
                        == s[g],
                forall|k: int|
                    0 <= k < i ==> (#[trigger] ids@[k]) < t.num_keys() && t.keys()[ids@[k] as int]
                        == keys@[k]@,
            decreases keys@.len() - i,
        {
            let g = runs.rec_group[i];
            proof {
                assert(runs.rec_group@[i as int] == g);
                assert(s[g as int] == keys@[i as int]@);
            }
            ids.push(run_ids[g]);
            i = i + 1;
        }
        self.install(levels, total);
        keyset.assign_ids(&ids);
        proof {
            assert(self@ == t.keys());
            assert forall|id: int| 0 <= id < self@.len() implies exists|i: int|
                0 <= i < input.len() && input[i].bytes == #[trigger] self@[id] by {
                assert(s.contains(t.keys()[id]));
                let g = choose|g: int| 0 <= g < s.len() && s[g] == t.keys()[id];
                let x = runs.distinct@[g] as int;
                assert(input[x].bytes == self@[id]);
            }
            // siblings stand as asked for
            assert(self.top() == t);
            if config.weight_ordering {
                assert forall|c1: int, c2: int|
                    1 <= c1 < c2 < t.nodes() && #[trigger] t.parent(c1) == #[trigger] t.parent(
                        c2,
                    ) implies prefix_weight(input, t.path(c1), input.len() as int)
                    >= prefix_weight(input, t.path(c2), input.len() as int) by {
                    lemma_under_is_prefix(s, runs.merged@, input, runs.rec_group@, t.path(c1));
                    lemma_under_is_prefix(s, runs.merged@, input, runs.rec_group@, t.path(c2));
                }
            }
            // as many keys as byte strings were given
            let given = Seq::new(input.len(), |i: int| input[i].bytes);
            assert forall|i: int, j: int|
                0 <= i < self@.len() && 0 <= j < self@.len() && i != j implies self@[i]
                != self@[j] by {
                if self@[i] == self@[j] {
                    self.lemma_keys_distinct(i, j);
                }
            }
            assert forall|x: Seq<u8>| self@.to_set().contains(x) <==> given.to_set().contains(
                x,
            ) by {
                if self@.to_set().contains(x) {
                    let id = choose|id: int| 0 <= id < self@.len() && self@[id] == x;
                    let i = choose|i: int| 0 <= i < input.len() && input[i].bytes == self@[id];
                    assert(given[i] == x);
                }
                if given.to_set().contains(x) {
                    let i = choose|i: int| 0 <= i < given.len() && given[i] == x;
                    assert(ids@[i] < t.num_keys());
                    assert(self@[ids@[i] as int] == x);
                }
            }
            assert(self@.to_set() =~= given.to_set());
            self@.unique_seq_to_set();
            if !has_duplicates(input) {
                assert forall|i: int, j: int|
                    0 <= i < given.len() && 0 <= j < given.len() && i != j implies given[i]
                    != given[j] by {
                    if given[i] == given[j] {
                        if i < j {
                            assert(0 <= i < j < input.len() && input[i].bytes == input[j].bytes);
                        } else {
                            assert(0 <= j < i < input.len() && input[j].bytes == input[i].bytes);
                        }
                    }
                }
                given.unique_seq_to_set();
            }
        }
        Ok(())
    }
}

/// What a build does: it fails and changes nothing, with the error that
/// the input calls for, or it leaves a dictionary of exactly the keys
/// given, each once, with siblings in the order asked for and a level
/// below each level that calls for one, and has told each key its
/// identifier; the keys given stay as they are otherwise.
pub open spec fn built_from(
    before: Trie,
    after: Trie,
    input: Seq<KeyView>,
    output: Seq<KeyView>,
    config: Config,
    r: Result<(), Error>,
) -> bool {
    let policy = config.duplicate_policy;
    match r {
        Ok(()) => {
            &&& build_error(before.is_built(), input, policy) is None
            &&& after.is_built()
            &&& 1 <= after.levels().len() <= wanted_levels(config.num_tries, input.len() as int)
            &&& levels_as_wanted(
                after.levels(),
                wanted_levels(config.num_tries, input.len() as int),
                MAX_NODES as int,
            )
            &&& output.len() == input.len()
            &&& forall|i: int|
                0 <= i < input.len() ==> {
                    let k = #[trigger] output[i];
                    &&& k.bytes == input[i].bytes
                    &&& k.weight == input[i].weight
                    &&& k.id is Some
                    &&& k.id->Some_0 < after@.len()
                    &&& after@[k.id->Some_0 as int] == input[i].bytes
                }
            &&& forall|id: int|
                0 <= id < after@.len() ==> exists|i: int|
                    0 <= i < input.len() && input[i].bytes == #[trigger] after@[id]
            &&& siblings_ordered(after.top(), input, config.weight_ordering)
            &&& after@.len() == distinct_bytes(input).len()
            &&& policy == DuplicatePolicy::Reject ==> after@.len() == input.len()
        },
        Err(e) => {
            &&& build_error(before.is_built(), input, policy) == Some(e)
            &&& after == before
            &&& output == input
        },
    }
}

} // verus!
