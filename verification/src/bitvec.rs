//! A growable bit vector packed into 64-bit words, with a rank directory
//! that is kept up to date as bits are appended.

use vstd::prelude::*;
use crate::bitseq::{count_bits, is_nth, select_bit, lemma_count_agree, lemma_count_bounds, lemma_count_split, lemma_select_is};

verus! {

/// The most bits a vector may hold: lengths are stored in 32 bits.
pub const MAX_BITS: usize = 0x7FFF_FFFF;

/// Bit `i` of `word`, the lowest being bit 0.
pub open spec fn word_bit(word: u64, i: int) -> bool {
    (word >> (i as u64)) & 1 == 1
}

/// The bits that `words` hold, `len` of them.
pub open spec fn unpack(words: Seq<u64>, len: nat) -> Seq<bool> {
    Seq::new(len, |i: int| word_bit(words[i / 64], i % 64))
}

/// `words` are exactly as many as `len` bits need, and the unused high bits
/// of the last one are zero.
pub open spec fn packed_ok(words: Seq<u64>, len: nat) -> bool {
    &&& len <= MAX_BITS
    &&& words.len() == (len + 63) / 64
    &&& len % 64 != 0 ==> words[words.len() - 1] >> ((len % 64) as u64) == 0
}

pub struct BitVector {
    words: Vec<u64>,
    len: usize,
    /// `ranks[w]` is the number of ones before word `w`.
    ranks: Vec<usize>,
    ones: usize,
}

impl View for BitVector {
    type V = Seq<bool>;

    closed spec fn view(&self) -> Seq<bool> {
        unpack(self.words@, self.len as nat)
    }
}

proof fn lemma_set_bit(w: u64, i: u64, j: u64)
    requires
        i < 64,
        j < 64,
    ensures
        ((w | (1u64 << i)) >> j) & 1 == 1 <==> (j == i || (w >> j) & 1 == 1),
{
    assert(((w | (1u64 << i)) >> j) & 1 == 1 <==> (j == i || (w >> j) & 1 == 1)) by (bit_vector)
        requires
            i < 64,
            j < 64,
    ;
}

proof fn lemma_zero_word(j: u64)
    requires
        j < 64,
    ensures
        (0u64 >> j) & 1 == 0,
        0u64 >> j == 0,
{
    assert((0u64 >> j) & 1 == 0 && 0u64 >> j == 0) by (bit_vector)
        requires
            j < 64,
    ;
}

proof fn lemma_padding_bit(w: u64, r: u64, j: u64)
    requires
        r <= j < 64,
        w >> r == 0,
    ensures
        (w >> j) & 1 == 0,
{
    assert((w >> j) & 1 == 0) by (bit_vector)
        requires
            r <= j < 64,
            w >> r == 0,
    ;
}

proof fn lemma_padding_after_set(w: u64, r: u64, bit: bool)
    requires
        r < 63,
        w >> r == 0,
    ensures
        bit ==> (w | (1u64 << r)) >> ((r + 1) as u64) == 0,
        !bit ==> w >> ((r + 1) as u64) == 0,
{
    assert((w | (1u64 << r)) >> ((r + 1) as u64) == 0 && w >> ((r + 1) as u64) == 0)
        by (bit_vector)
        requires
            r < 63,
            w >> r == 0,
    ;
}

impl BitVector {
    /// The words behind the bits.
    pub closed spec fn words(&self) -> Seq<u64> {
        self.words@
    }

    pub closed spec fn wf(&self) -> bool {
        &&& packed_ok(self.words@, self.len as nat)
        &&& self.ranks@.len() == self.words@.len()
        &&& forall|w: int|
            0 <= w < self.ranks@.len() ==> #[trigger] self.ranks@[w] == count_bits(
                self@,
                true,
                64 * w,
            )
        &&& self.ones == count_bits(self@, true, self.len as int)
    }

    /// What a well-formed vector is made of.
    pub proof fn lemma_wf(&self)
        requires
            self.wf(),
        ensures
            packed_ok(self.words(), self@.len()),
            self@ == unpack(self.words(), self@.len()),
            self@.len() <= MAX_BITS,
    {
    }

    pub fn new() -> (r: BitVector)
        ensures
            r.wf(),
            r@ == Seq::<bool>::empty(),
    {
        let r = BitVector { words: Vec::new(), len: 0, ranks: Vec::new(), ones: 0 };
        assert(r@ =~= Seq::<bool>::empty());
        r
    }

    pub fn len(&self) -> (n: usize)
        requires
            self.wf(),
        ensures
            n == self@.len(),
            n <= MAX_BITS,
    {
        self.len
    }

    /// The number of ones in the whole vector.
    pub fn count_ones(&self) -> (n: usize)
        requires
            self.wf(),
        ensures
            n == count_bits(self@, true, self@.len() as int),
            n <= self@.len(),
    {
        proof {
            lemma_count_bounds(self@, true, self.len as int);
        }
        self.ones
    }

    pub fn as_words(&self) -> (w: &Vec<u64>)
        requires
            self.wf(),
        ensures
            w@ == self.words(),
    {
        &self.words
    }

    pub fn get(&self, i: usize) -> (bit: bool)
        requires
            self.wf(),
            i < self@.len(),
        ensures
            bit == self@[i as int],
    {
        (self.words[i / 64] >> ((i % 64) as u64)) & 1 == 1
    }

    /// Appends one bit.
    pub fn push(&mut self, bit: bool)
        requires
            old(self).wf(),
            old(self)@.len() < MAX_BITS,
        ensures
            final(self).wf(),
            final(self)@ == old(self)@.push(bit),
    {
        let ghost before = self@;
        proof {
            lemma_count_bounds(before, true, self.len as int);
        }
        let off = self.len % 64;
        let w = self.len / 64;
        if off == 0 {
            self.words.push(0);
            self.ranks.push(self.ones);
        }
        let word = self.words[w];
        proof {
            if off == 0 {
                lemma_zero_word(off as u64);
            }
            assert(word >> (off as u64) == 0);
            lemma_set_bit(word, off as u64, off as u64);
            lemma_padding_bit(word, off as u64, off as u64);
            if off < 63 {
                lemma_padding_after_set(word, off as u64, bit);
            }
        }
        if bit {
            self.words.set(w, word | (1u64 << (off as u64)));
            self.ones = self.ones + 1;
        }
        self.len = self.len + 1;
        proof {
            let after = self@;
            assert(after.len() == before.len() + 1);
            assert forall|i: int| 0 <= i < before.len() implies after[i] == before[i] by {
                if i / 64 == w as int {
                    lemma_set_bit(word, off as u64, (i % 64) as u64);
                    if off == 0 {
                        lemma_zero_word((i % 64) as u64);
                    }
                }
            }
            assert(after[before.len() as int] == bit);
            assert(after =~= before.push(bit));
            lemma_count_agree(before, after, true, before.len() as int);
            assert forall|k: int| 0 <= k < self.ranks@.len() implies #[trigger] self.ranks@[k]
                == count_bits(after, true, 64 * k) by {
                lemma_count_agree(before, after, true, 64 * k);
            }
        }
    }

    /// How many positions below `pos` hold `value`.
    pub fn rank(&self, value: bool, pos: usize) -> (r: usize)
        requires
            self.wf(),
            pos <= self@.len(),
        ensures
            r == count_bits(self@, value, pos as int),
            r <= pos,
    {
        proof {
            lemma_count_split(self@, pos as int);
            lemma_count_bounds(self@, value, pos as int);
        }
        if pos == self.len {
            return if value {
                self.ones
            } else {
                self.len - self.ones
            };
        }
        let w = pos / 64;
        let mut ones: usize = self.ranks[w];
        let mut i: usize = 64 * w;
        proof {
            lemma_count_bounds(self@, true, i as int);
        }
        while i < pos
            invariant
                self.wf(),
                pos < self@.len(),
                i <= pos,
                ones == count_bits(self@, true, i as int),
                ones <= i,
            decreases pos - i,
        {
            if self.get(i) {
                ones = ones + 1;
            }
            i = i + 1;
        }
        if value {
            ones
        } else {
            pos - ones
        }
    }

    /// How many positions before word `w` hold `value`.
    fn before_word(&self, value: bool, w: usize) -> (r: usize)
        requires
            self.wf(),
            w < self.words().len(),
        ensures
            r == count_bits(self@, value, 64 * w),
    {
        proof {
            lemma_count_split(self@, 64 * w);
            lemma_count_bounds(self@, value, 64 * w);
        }
        if value {
            self.ranks[w]
        } else {
            64 * w - self.ranks[w]
        }
    }

    /// Where `value` occurs for the `k`-th time, counting from zero.
    pub fn select(&self, value: bool, k: usize) -> (pos: usize)
        requires
            self.wf(),
            k < count_bits(self@, value, self@.len() as int),
        ensures
            is_nth(self@, value, k as int, pos as int),
            pos == select_bit(self@, value, k as int),
    {
        proof {
            lemma_count_bounds(self@, value, self.len as int);
        }
        let mut lo: usize = 0;
        let mut hi: usize = self.words.len();
        while hi - lo > 1
            invariant
                self.wf(),
                lo < hi <= self.words().len(),
                count_bits(self@, value, 64 * lo) <= k,
            decreases hi - lo,
        {
            let mid = lo + (hi - lo) / 2;
            if self.before_word(value, mid) <= k {
                lo = mid;
            } else {
                hi = mid;
            }
        }
        let mut seen: usize = self.before_word(value, lo);
        let mut i: usize = 64 * lo;
        loop
            invariant
                self.wf(),
                k < count_bits(self@, value, self@.len() as int),
                i <= self@.len(),
                seen == count_bits(self@, value, i as int),
                seen <= k,
            decreases self@.len() - i,
        {
            assert(i < self@.len());
            if self.get(i) == value {
                if seen == k {
                    proof {
                        lemma_select_is(self@, value, k as int, i as int);
                    }
                    return i;
                }
                seen = seen + 1;
            }
            i = i + 1;
        }
    }

    /// Takes packed words as the bits of a vector, if they are `len` bits
    /// in canonical form.
    pub fn from_words(words: Vec<u64>, len: usize) -> (r: Option<BitVector>)
        ensures
            r is Some <==> packed_ok(words@, len as nat),
            r is Some ==> {
                let v = r->Some_0;
                &&& v.wf()
                &&& v.words() == words@
                &&& v@ == unpack(words@, len as nat)
            },
    {
        if len > MAX_BITS {
            return None;
        }
        if words.len() != (len + 63) / 64 {
            return None;
        }
        if len % 64 != 0 && words[words.len() - 1] >> ((len % 64) as u64) != 0 {
            return None;
        }
        let mut v = BitVector { words, len, ranks: Vec::new(), ones: 0 };
        let ghost bits = v@;
        let nwords = v.words.len();
        let mut i: usize = 0;
        let mut ones: usize = 0;
        while i < len
            invariant
                v.len == len,
                v@ == bits,
                v.words@ == words@,
                packed_ok(v.words@, len as nat),
                nwords == v.words@.len(),
                i <= len,
                ones == count_bits(bits, true, i as int),
                ones <= i,
                v.ranks@.len() == (i + 63) / 64,
                forall|w: int|
                    0 <= w < v.ranks@.len() ==> #[trigger] v.ranks@[w] == count_bits(
                        bits,
                        true,
                        64 * w,
                    ),
            decreases len - i,
        {
            if i % 64 == 0 {
                v.ranks.push(ones);
            }
            if (v.words[i / 64] >> ((i % 64) as u64)) & 1 == 1 {
                ones = ones + 1;
            }
            i = i + 1;
        }
        v.ones = ones;
        Some(v)
    }
}

} // verus!
