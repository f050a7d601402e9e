//! The keys to build from: an append-only collection held in blocks of a
//! fixed size, so that it grows without moving the keys it already holds.

use vstd::prelude::*;
use vstd::string::StringSliceAdditionalSpecFns;
use crate::error::InputError;
use crate::key::{Key, KeyView};
use crate::weight::DEFAULT_WEIGHT;

verus! {

/// How many keys one block holds.
pub const KEY_BLOCK_SIZE: usize = 256;

pub struct Keyset {
    blocks: Vec<Vec<Key>>,
    size: usize,
}

impl View for Keyset {
    type V = Seq<KeyView>;

    closed spec fn view(&self) -> Seq<KeyView> {
        Seq::new(self.size as nat, |i: int| self.blocks@[i / 256]@[i % 256]@)
    }
}

impl Default for Keyset {
    fn default() -> (r: Keyset)
        ensures
            r.wf(),
            r@ == Seq::<KeyView>::empty(),
    {
        let r = Keyset { blocks: Vec::new(), size: 0 };
        assert(r@ =~= Seq::<KeyView>::empty());
        r
    }
}

impl Keyset {
    /// Every block but the last is full, and the last holds the rest.
    pub closed spec fn wf(&self) -> bool {
        &&& self.blocks@.len() == (self.size + 255) / 256
        &&& forall|b: int|
            0 <= b < self.blocks@.len() ==> (#[trigger] self.blocks@[b])@.len() == if b
                < self.blocks@.len() - 1 {
                256int
            } else {
                self.size - 256 * b
            }
    }

    /// Appends a key of the bytes of `key`, with weight `weight` or, if
    /// none is given, the default weight.
    pub fn push(&mut self, key: &str, weight: Option<u32>)
        requires
            old(self).wf(),
            old(self)@.len() < usize::MAX,
        ensures
            final(self).wf(),
            final(self)@ == old(self)@.push(
                KeyView {
                    bytes: key.spec_bytes(),
                    weight: match weight {
                        Some(w) => w,
                        None => DEFAULT_WEIGHT,
                    },
                    id: None,
                },
            ),
    {
        self.push_bytes(key.as_bytes(), weight)
    }

    /// Appends a key of `bytes`.
    pub fn push_bytes(&mut self, bytes: &[u8], weight: Option<u32>)
        requires
            old(self).wf(),
            old(self)@.len() < usize::MAX,
        ensures
            final(self).wf(),
            final(self)@ == old(self)@.push(
                KeyView {
                    bytes: bytes@,
                    weight: match weight {
                        Some(w) => w,
                        None => DEFAULT_WEIGHT,
                    },
                    id: None,
                },
            ),
    {
        let w = match weight {
            Some(w) => w,
            None => DEFAULT_WEIGHT,
        };
        self.push_key(Key::from_bytes(bytes, w));
    }

    /// Appends `key` as it is.
    pub fn push_key(&mut self, key: Key)
        requires
            old(self).wf(),
            old(self)@.len() < usize::MAX,
        ensures
            final(self).wf(),
            final(self)@ == old(self)@.push(key@),
    {
        let ghost before = self@;
        let ghost old_blocks = self.blocks@;
        let mut last: Vec<Key> = if self.size % KEY_BLOCK_SIZE == 0 {
            Vec::new()
        } else {
            self.blocks.pop().unwrap()
        };
        let ghost kept = self.blocks@;
        last.push(key);
        self.blocks.push(last);
        self.size = self.size + 1;
        proof {
            let b = self.size as int - 1;
            assert(self.blocks@.len() == b / 256 + 1);
            assert forall|i: int| 0 <= i < b implies self@[i] == before[i] by {
                if i / 256 < kept.len() {
                    assert(self.blocks@[i / 256] == old_blocks[i / 256]);
                } else {
                    assert(old_blocks[i / 256]@[i % 256] == last@[i % 256]);
                }
            }
            assert(self@ =~= before.push(key@));
        }
    }

    pub fn empty(&self) -> (r: bool)
        requires
            self.wf(),
        ensures
            r == (self@.len() == 0),
    {
        self.size == 0
    }

    /// Lets go of all blocks.
    pub fn reset(&mut self)
        ensures
            final(self).wf(),
            final(self)@ == Seq::<KeyView>::empty(),
    {
        self.blocks = Vec::new();
        self.size = 0;
        assert(self@ =~= Seq::<KeyView>::empty());
    }

    /// The same as `reset`.
    pub fn clear(&mut self)
        ensures
            final(self).wf(),
            final(self)@ == Seq::<KeyView>::empty(),
    {
        self.reset();
    }

    pub fn num_keys(&self) -> (r: usize)
        requires
            self.wf(),
        ensures
            r == self@.len(),
    {
        self.size
    }

    /// The key at `index`, borrowed.
    pub fn get(&self, index: usize) -> (r: &Key)
        requires
            self.wf(),
            index < self@.len(),
        ensures
            r@ == self@[index as int],
    {
        &self.blocks[index / KEY_BLOCK_SIZE][index % KEY_BLOCK_SIZE]
    }

    /// A copy of the key at `index`.
    pub fn at(&self, index: usize) -> (r: Result<Key, InputError>)
        requires
            self.wf(),
        ensures
            match r {
                Ok(key) => index < self@.len() && key@ == self@[index as int],
                Err(e) => index >= self@.len() && e == InputError::OutOfRange,
            },
    {
        if index >= self.size {
            return Err(InputError::OutOfRange);
        }
        Ok(Key::from(self.get(index)))
    }

    /// Gives the key at index `i` the identifier `ids[i]`, for every key,
    /// and leaves the keys as they are otherwise.
    pub fn assign_ids(&mut self, ids: &Vec<u32>)
        requires
            old(self).wf(),
            ids@.len() == old(self)@.len(),
        ensures
            final(self).wf(),
            final(self)@.len() == old(self)@.len(),
            forall|i: int|
                0 <= i < old(self)@.len() ==> #[trigger] final(self)@[i] == (KeyView {
                    id: Some(ids@[i]),
                    ..old(self)@[i]
                }),
    {
        let mut next = Keyset { blocks: Vec::new(), size: 0 };
        assert(next@ =~= Seq::<KeyView>::empty());
        let n = self.size;
        let mut i: usize = 0;
        while i < n
            invariant
                self.wf(),
                next.wf(),
                n == self@.len(),
                ids@.len() == n,
                i <= n,
                next@.len() == i,
                forall|k: int|
                    0 <= k < i ==> #[trigger] next@[k] == (KeyView {
                        id: Some(ids@[k]),
                        ..self@[k]
                    }),
            decreases n - i,
        {
            let key = self.get(i).with_id(ids[i]);
            next.push_key(key);
            i = i + 1;
        }
        *self = next;
    }
}

} // verus!
