//! Counting and selecting in sequences of bits: the mathematics that the
//! succinct structures rest on.

use vstd::prelude::*;

verus! {

/// How many positions below `end` hold `value`.
pub open spec fn count_bits(bits: Seq<bool>, value: bool, end: int) -> int
    decreases end,
{
    if end <= 0 {
        0
    } else {
        count_bits(bits, value, end - 1) + if bits[end - 1] == value {
            1int
        } else {
            0int
        }
    }
}

/// `pos` is where `value` occurs for the `k`-th time, counting from zero.
pub open spec fn is_nth(bits: Seq<bool>, value: bool, k: int, pos: int) -> bool {
    &&& 0 <= pos < bits.len()
    &&& bits[pos] == value
    &&& count_bits(bits, value, pos) == k
}

/// The position of the `k`-th occurrence of `value`, counting from zero.
pub open spec fn select_bit(bits: Seq<bool>, value: bool, k: int) -> int {
    choose|pos: int| is_nth(bits, value, k, pos)
}

pub proof fn lemma_count_step(bits: Seq<bool>, value: bool, pos: int)
    requires
        0 <= pos,
    ensures
        count_bits(bits, value, pos + 1) == count_bits(bits, value, pos) + if bits[pos] == value {
            1int
        } else {
            0int
        },
{
}

pub proof fn lemma_count_bounds(bits: Seq<bool>, value: bool, end: int)
    requires
        0 <= end,
    ensures
        0 <= count_bits(bits, value, end) <= end,
    decreases end,
{
    if end > 0 {
        lemma_count_bounds(bits, value, end - 1);
    }
}

/// Every position holds either a one or a zero.
pub proof fn lemma_count_split(bits: Seq<bool>, end: int)
    requires
        0 <= end,
    ensures
        count_bits(bits, true, end) + count_bits(bits, false, end) == end,
    decreases end,
{
    if end > 0 {
        lemma_count_split(bits, end - 1);
    }
}

pub proof fn lemma_count_monotone(bits: Seq<bool>, value: bool, a: int, b: int)
    requires
        0 <= a <= b,
    ensures
        count_bits(bits, value, a) <= count_bits(bits, value, b) <= count_bits(bits, value, a) + (b
            - a),
    decreases b - a,
{
    if a < b {
        lemma_count_monotone(bits, value, a, b - 1);
    }
}

/// Counting looks only at the positions below `end`.
pub proof fn lemma_count_agree(a: Seq<bool>, b: Seq<bool>, value: bool, end: int)
    requires
        0 <= end,
        forall|i: int| 0 <= i < end ==> a[i] == b[i],
    ensures
        count_bits(a, value, end) == count_bits(b, value, end),
    decreases end,
{
    if end > 0 {
        lemma_count_agree(a, b, value, end - 1);
    }
}

/// What was counted stays counted when a bit is appended.
pub proof fn lemma_count_push(bits: Seq<bool>, bit: bool, value: bool, end: int)
    requires
        0 <= end <= bits.len(),
    ensures
        count_bits(bits.push(bit), value, end) == count_bits(bits, value, end),
        count_bits(bits.push(bit), value, bits.len() as int + 1) == count_bits(
            bits,
            value,
            bits.len() as int,
        ) + if bit == value {
            1int
        } else {
            0int
        },
{
    lemma_count_agree(bits, bits.push(bit), value, end);
    lemma_count_agree(bits, bits.push(bit), value, bits.len() as int);
}

pub proof fn lemma_nth_push(bits: Seq<bool>, bit: bool, value: bool, k: int, pos: int)
    requires
        is_nth(bits, value, k, pos),
    ensures
        is_nth(bits.push(bit), value, k, pos),
{
    lemma_count_agree(bits, bits.push(bit), value, pos);
}

pub proof fn lemma_nth_unique(bits: Seq<bool>, value: bool, k: int, p: int, q: int)
    requires
        is_nth(bits, value, k, p),
        is_nth(bits, value, k, q),
    ensures
        p == q,
{
    if p < q {
        lemma_count_step(bits, value, p);
        lemma_count_monotone(bits, value, p + 1, q);
    } else if q < p {
        lemma_count_step(bits, value, q);
        lemma_count_monotone(bits, value, q + 1, p);
    }
}

/// An occurrence that is counted below `end` stands below `end`.
pub proof fn lemma_nth_exists(bits: Seq<bool>, value: bool, k: int, end: int)
    requires
        0 <= k < count_bits(bits, value, end),
        0 <= end <= bits.len(),
    ensures
        exists|p: int| p < end && is_nth(bits, value, k, p),
    decreases end,
{
    if count_bits(bits, value, end - 1) > k {
        lemma_nth_exists(bits, value, k, end - 1);
        let p = choose|p: int| p < end - 1 && is_nth(bits, value, k, p);
        assert(p < end && is_nth(bits, value, k, p));
    } else {
        assert(is_nth(bits, value, k, end - 1));
    }
}

pub proof fn lemma_select(bits: Seq<bool>, value: bool, k: int)
    requires
        0 <= k < count_bits(bits, value, bits.len() as int),
    ensures
        is_nth(bits, value, k, select_bit(bits, value, k)),
{
    lemma_nth_exists(bits, value, k, bits.len() as int);
}

pub proof fn lemma_select_is(bits: Seq<bool>, value: bool, k: int, pos: int)
    requires
        is_nth(bits, value, k, pos),
    ensures
        select_bit(bits, value, k) == pos,
{
    lemma_nth_unique(bits, value, k, pos, select_bit(bits, value, k));
}

/// An occurrence with fewer before it than positions below `end` hold
/// stands below `end`.
pub proof fn lemma_nth_below(bits: Seq<bool>, value: bool, k: int, pos: int, end: int)
    requires
        is_nth(bits, value, k, pos),
        0 <= end,
        k < count_bits(bits, value, end),
    ensures
        pos < end,
{
    if pos >= end {
        lemma_count_monotone(bits, value, end, pos);
    }
}

/// Later occurrences stand at later positions.
pub proof fn lemma_nth_ordered(bits: Seq<bool>, value: bool, k1: int, pos1: int, k2: int, pos2: int)
    requires
        is_nth(bits, value, k1, pos1),
        is_nth(bits, value, k2, pos2),
        k1 < k2,
    ensures
        pos1 < pos2,
{
    if pos2 <= pos1 {
        lemma_count_monotone(bits, value, pos2, pos1);
    }
}

} // verus!
