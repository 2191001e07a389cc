//! Keys are byte strings ordered lexicographically.
use vstd::prelude::*;

verus! {

/// The timestamp written next to every key.
pub const TS_DEFAULT: u64 = 0;

/// `a` sorts strictly before `b` in byte-wise lexicographic order.
pub open spec fn key_lt(a: Seq<u8>, b: Seq<u8>) -> bool
    decreases a.len(),
{
    if b.len() == 0 {
        false
    } else if a.len() == 0 {
        true
    } else if a[0] != b[0] {
        a[0] < b[0]
    } else {
        key_lt(a.drop_first(), b.drop_first())
    }
}

/// Length of the longest common prefix of `a` and `b`.
pub open spec fn lcp(a: Seq<u8>, b: Seq<u8>) -> nat
    decreases a.len(),
{
    if a.len() == 0 || b.len() == 0 || a[0] != b[0] {
        0
    } else {
        1 + lcp(a.drop_first(), b.drop_first())
    }
}

pub proof fn lemma_lcp(a: Seq<u8>, b: Seq<u8>)
    ensures
        lcp(a, b) <= a.len(),
        lcp(a, b) <= b.len(),
        forall|j: int| 0 <= j < lcp(a, b) ==> a[j] == b[j],
        lcp(a, b) == a.len() || lcp(a, b) == b.len() || a[lcp(a, b) as int] != b[lcp(a, b) as int],
    decreases a.len(),
{
    if a.len() == 0 || b.len() == 0 || a[0] != b[0] {
    } else {
        lemma_lcp(a.drop_first(), b.drop_first());
        let n = lcp(a, b);
        assert forall|j: int| 0 <= j < n implies a[j] == b[j] by {
            if j > 0 {
                assert(a.drop_first()[j - 1] == b.drop_first()[j - 1]);
            }
        }
    }
}

/// A common prefix with a mismatch (or an end) right after it is the longest one.
pub proof fn lemma_lcp_unique(a: Seq<u8>, b: Seq<u8>, n: int)
    requires
        0 <= n <= a.len(),
        n <= b.len(),
        forall|j: int| 0 <= j < n ==> a[j] == b[j],
        n == a.len() || n == b.len() || a[n] != b[n],
    ensures
        lcp(a, b) == n,
{
    lemma_lcp(a, b);
    let m = lcp(a, b) as int;
    if m < n {
        assert(a[m] == b[m]);
    }
    if n < m {
        assert(a[n] == b[n]);
    }
}

/// A key with a common prefix of another replaced by that prefix is the same key.
pub proof fn lemma_lcp_rebuild(a: Seq<u8>, b: Seq<u8>)
    ensures
        b.subrange(0, lcp(a, b) as int) + a.subrange(lcp(a, b) as int, a.len() as int) == a,
{
    lemma_lcp(a, b);
    let n = lcp(a, b) as int;
    assert(b.subrange(0, n) + a.subrange(n, a.len() as int) =~= a);
}

pub proof fn lemma_key_lt_irreflexive(a: Seq<u8>)
    ensures
        !key_lt(a, a),
    decreases a.len(),
{
    if a.len() > 0 {
        lemma_key_lt_irreflexive(a.drop_first());
    }
}

pub proof fn lemma_key_lt_transitive(a: Seq<u8>, b: Seq<u8>, c: Seq<u8>)
    requires
        key_lt(a, b),
        key_lt(b, c),
    ensures
        key_lt(a, c),
    decreases a.len(),
{
    if a.len() > 0 && b.len() > 0 && c.len() > 0 && a[0] == b[0] && b[0] == c[0] {
        lemma_key_lt_transitive(a.drop_first(), b.drop_first(), c.drop_first());
    }
}

pub proof fn lemma_key_lt_total(a: Seq<u8>, b: Seq<u8>)
    ensures
        key_lt(a, b) || key_lt(b, a) || a == b,
    decreases a.len(),
{
    if a.len() > 0 && b.len() > 0 && a[0] == b[0] {
        lemma_key_lt_total(a.drop_first(), b.drop_first());
        if a.drop_first() == b.drop_first() {
            assert(a =~= seq![a[0]] + a.drop_first());
            assert(b =~= seq![b[0]] + b.drop_first());
        }
    } else if a.len() == 0 && b.len() == 0 {
        assert(a =~= b);
    }
}

pub proof fn lemma_key_lt_asymmetric(a: Seq<u8>, b: Seq<u8>)
    requires
        key_lt(a, b),
    ensures
        !key_lt(b, a),
        a != b,
{
    if key_lt(b, a) {
        lemma_key_lt_transitive(a, b, a);
        lemma_key_lt_irreflexive(a);
    }
    if a == b {
        lemma_key_lt_irreflexive(a);
    }
}

/// Byte-wise lexicographic comparison: whether `a` sorts strictly before `b`.
pub fn key_less(a: &[u8], b: &[u8]) -> (r: bool)
    ensures
        r == key_lt(a@, b@),
{
    let mut i: usize = 0;
    assert(a@.subrange(0, a@.len() as int) =~= a@);
    assert(b@.subrange(0, b@.len() as int) =~= b@);
    while i < a.len() && i < b.len() && a[i] == b[i]
        invariant
            i <= a@.len(),
            i <= b@.len(),
            key_lt(a@, b@) == key_lt(a@.subrange(i as int, a@.len() as int), b@.subrange(
                i as int,
                b@.len() as int,
            )),
        decreases a@.len() - i,
    {
        let ghost sa = a@.subrange(i as int, a@.len() as int);
        let ghost sb = b@.subrange(i as int, b@.len() as int);
        assert(sa.drop_first() =~= a@.subrange(i + 1, a@.len() as int));
        assert(sb.drop_first() =~= b@.subrange(i + 1, b@.len() as int));
        i = i + 1;
    }
    if i == b.len() {
        false
    } else if i == a.len() {
        true
    } else {
        a[i] < b[i]
    }
}

/// Whether `a` and `b` hold the same bytes.
pub fn key_equal(a: &[u8], b: &[u8]) -> (r: bool)
    ensures
        r == (a@ == b@),
{
    if a.len() != b.len() {
        return false;
    }
    let mut i: usize = 0;
    while i < a.len()
        invariant
            i <= a@.len() == b@.len(),
            forall|j: int| 0 <= j < i ==> a@[j] == b@[j],
        decreases a@.len() - i,
    {
        if a[i] != b[i] {
            return false;
        }
        i = i + 1;
    }
    assert(a@ =~= b@);
    true
}

/// Length of the longest common prefix of `a` and `b`.
pub fn common_prefix_len(a: &[u8], b: &[u8]) -> (r: usize)
    ensures
        r == lcp(a@, b@),
{
    let mut i: usize = 0;
    while i < a.len() && i < b.len() && a[i] == b[i]
        invariant
            i <= a@.len(),
            i <= b@.len(),
            forall|j: int| 0 <= j < i ==> a@[j] == b@[j],
        decreases a@.len() - i,
    {
        i = i + 1;
    }
    proof {
        lemma_lcp_unique(a@, b@, i as int);
    }
    i
}

} // verus!
