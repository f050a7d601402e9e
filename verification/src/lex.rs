//! Byte strings in dictionary order.

use vstd::prelude::*;

verus! {

/// The first position at or after `i` where `a` and `b` differ or one ends.
pub open spec fn lcp_from(a: Seq<u8>, b: Seq<u8>, i: int) -> int
    decreases a.len() - i,
{
    if 0 <= i < a.len() && i < b.len() && a[i] == b[i] {
        lcp_from(a, b, i + 1)
    } else {
        i
    }
}

/// The length of the longest common prefix of `a` and `b`.
pub open spec fn lcp(a: Seq<u8>, b: Seq<u8>) -> int {
    lcp_from(a, b, 0)
}

/// `a` and `b` agree on their first `k` bytes and no further.
pub open spec fn is_lcp(a: Seq<u8>, b: Seq<u8>, k: int) -> bool {
    &&& 0 <= k <= a.len()
    &&& k <= b.len()
    &&& forall|i: int| 0 <= i < k ==> a[i] == b[i]
    &&& k < a.len() && k < b.len() ==> a[k] != b[k]
}

/// `a` comes strictly before `b` in dictionary order.
pub open spec fn lex_lt(a: Seq<u8>, b: Seq<u8>) -> bool {
    let k = lcp(a, b);
    k < b.len() && (k == a.len() || a[k] < b[k])
}

pub proof fn lemma_lcp_from(a: Seq<u8>, b: Seq<u8>, i: int)
    requires
        0 <= i <= a.len(),
        i <= b.len(),
        forall|j: int| 0 <= j < i ==> a[j] == b[j],
    ensures
        is_lcp(a, b, lcp_from(a, b, i)),
        i <= lcp_from(a, b, i),
    decreases a.len() - i,
{
    if i < a.len() && i < b.len() && a[i] == b[i] {
        lemma_lcp_from(a, b, i + 1);
    }
}

pub proof fn lemma_lcp(a: Seq<u8>, b: Seq<u8>)
    ensures
        is_lcp(a, b, lcp(a, b)),
{
    lemma_lcp_from(a, b, 0);
}

pub proof fn lemma_lcp_unique(a: Seq<u8>, b: Seq<u8>, k: int)
    requires
        is_lcp(a, b, k),
    ensures
        lcp(a, b) == k,
{
    lemma_lcp(a, b);
}

pub proof fn lemma_lcp_symmetric(a: Seq<u8>, b: Seq<u8>)
    ensures
        lcp(a, b) == lcp(b, a),
{
    lemma_lcp(a, b);
    lemma_lcp_unique(b, a, lcp(a, b));
}

pub proof fn lemma_lcp_same(a: Seq<u8>)
    ensures
        lcp(a, a) == a.len(),
{
    lemma_lcp_unique(a, a, a.len() as int);
}

pub proof fn lemma_lex_irreflexive(a: Seq<u8>)
    ensures
        !lex_lt(a, a),
{
    lemma_lcp_same(a);
}

pub proof fn lemma_lex_total(a: Seq<u8>, b: Seq<u8>)
    ensures
        a == b || lex_lt(a, b) || lex_lt(b, a),
        !(lex_lt(a, b) && lex_lt(b, a)),
        lex_lt(a, b) ==> a != b,
{
    lemma_lcp(a, b);
    lemma_lcp_symmetric(a, b);
    lemma_lcp_same(a);
    if lcp(a, b) == a.len() && lcp(a, b) == b.len() {
        assert(a =~= b);
    }
}

pub proof fn lemma_lex_transitive(a: Seq<u8>, b: Seq<u8>, c: Seq<u8>)
    requires
        lex_lt(a, b),
        lex_lt(b, c),
    ensures
        lex_lt(a, c),
{
    lemma_lcp(a, b);
    lemma_lcp(b, c);
    let k1 = lcp(a, b);
    let k2 = lcp(b, c);
    let k = if k1 <= k2 {
        k1
    } else {
        k2
    };
    assert(is_lcp(a, c, k));
    lemma_lcp_unique(a, c, k);
}

/// Two strings that each share `d` bytes with a third share them with
/// each other.
pub proof fn lemma_lcp_common(a: Seq<u8>, x: Seq<u8>, y: Seq<u8>, d: int)
    requires
        0 <= d <= lcp(a, x),
        d <= lcp(a, y),
    ensures
        d <= lcp(x, y),
{
    lemma_lcp(a, x);
    lemma_lcp(a, y);
    lemma_lcp(x, y);
}

/// A string between two that share a prefix shares it too.
pub proof fn lemma_lex_between(a: Seq<u8>, x: Seq<u8>, c: Seq<u8>, d: int)
    requires
        a == x || lex_lt(a, x),
        x == c || lex_lt(x, c),
        0 <= d <= lcp(a, c),
    ensures
        d <= lcp(a, x),
        d <= x.len(),
        forall|i: int| 0 <= i < d ==> x[i] == a[i],
{
    lemma_lcp(a, c);
    lemma_lcp(a, x);
    lemma_lcp(x, c);
    lemma_lcp_same(a);
    let k = lcp(a, x);
    if a != x && x != c && k < d {
        assert(a[k] < x[k]);
        assert(is_lcp(x, c, k));
        lemma_lcp_unique(x, c, k);
        assert(false);
    }
    if x == c {
        assert(d <= k);
    }
}

/// Of two strings in order that share `d` bytes, the earlier has the lesser
/// or the same byte next, and ends there only if the later does not.
pub proof fn lemma_lex_next_byte(a: Seq<u8>, b: Seq<u8>, d: int)
    requires
        lex_lt(a, b),
        0 <= d <= lcp(a, b),
    ensures
        d < b.len(),
        d < a.len() ==> a[d] <= b[d],
{
    lemma_lcp(a, b);
}

/// The length of the longest common prefix, given that the first `from`
/// bytes are known to agree.
pub fn common_prefix(a: &[u8], b: &[u8], from: usize) -> (k: usize)
    requires
        from <= a@.len(),
        from <= b@.len(),
        forall|j: int| 0 <= j < from ==> a@[j] == b@[j],
    ensures
        k == lcp(a@, b@),
        from <= k,
        k <= a@.len(),
        k <= b@.len(),
{
    let mut k: usize = from;
    while k < a.len() && k < b.len() && a[k] == b[k]
        invariant
            k <= a@.len(),
            k <= b@.len(),
            forall|j: int| 0 <= j < k ==> a@[j] == b@[j],
        decreases a@.len() - k,
    {
        k = k + 1;
    }
    proof {
        lemma_lcp_unique(a@, b@, k as int);
    }
    k
}

/// Whether `a` comes strictly before `b` in dictionary order.
pub fn bytes_less(a: &[u8], b: &[u8]) -> (r: bool)
    ensures
        r == lex_lt(a@, b@),
{
    let k = common_prefix(a, b, 0);
    k < b.len() && (k == a.len() || a[k] < b[k])
}

/// Whether `a` and `b` hold the same bytes.
pub fn bytes_equal(a: &[u8], b: &[u8]) -> (r: bool)
    ensures
        r == (a@ == b@),
{
    let k = common_prefix(a, b, 0);
    proof {
        lemma_lcp(a@, b@);
        lemma_lcp_same(a@);
        if k == a@.len() && k == b@.len() {
            assert(a@ =~= b@);
        }
    }
    k == a.len() && k == b.len()
}

} // verus!
