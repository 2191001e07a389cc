//! Keys of the point-lookup workload: a prefix, then a number in decimal,
//! zero-padded to eight digits.
use crate::key::key_lt;
use vstd::prelude::*;

verus! {

/// The decimal digits of `n`, most significant first, as ASCII.
pub open spec fn decimal(n: nat) -> Seq<u8>
    decreases n,
{
    if n < 10 {
        seq![(48 + n) as u8]
    } else {
        decimal(n / 10).push((48 + n % 10) as u8)
    }
}

/// `n` in decimal, with leading zeros up to `width` digits.
pub open spec fn padded_decimal(n: nat, width: nat) -> Seq<u8> {
    let d = decimal(n);
    if d.len() < width {
        Seq::new((width - d.len()) as nat, |i: int| 48u8) + d
    } else {
        d
    }
}

/// The key of entry `n`: `key` and `n` in eight or more decimal digits.
pub open spec fn workload_key(n: nat) -> Seq<u8> {
    seq![107u8, 101u8, 121u8] + padded_decimal(n, 8)
}

/// The key that stands for entry `n` where a missing key is wanted: `absent`
/// and `n` in eight or more decimal digits.
pub open spec fn absent_key(n: nat) -> Seq<u8> {
    seq![97u8, 98u8, 115u8, 101u8, 110u8, 116u8] + padded_decimal(n, 8)
}

/// Ten to the power `k`.
pub open spec fn pow10(k: nat) -> nat
    decreases k,
{
    if k == 0 {
        1
    } else {
        10 * pow10((k - 1) as nat)
    }
}

/// The last `k` decimal digits of `n`, most significant first, as ASCII.
pub open spec fn fixed_digits(n: nat, k: nat) -> Seq<u8>
    decreases k,
{
    if k == 0 {
        Seq::empty()
    } else {
        fixed_digits(n / 10, (k - 1) as nat).push((48 + n % 10) as u8)
    }
}

proof fn lemma_fixed_len(n: nat, k: nat)
    ensures
        fixed_digits(n, k).len() == k,
    decreases k,
{
    if k > 0 {
        lemma_fixed_len(n / 10, (k - 1) as nat);
    }
}

proof fn lemma_decimal_len(n: nat, k: nat)
    requires
        k >= 1,
        n < pow10(k),
    ensures
        decimal(n).len() <= k,
    decreases k,
{
    if n >= 10 {
        let k1 = (k - 1) as nat;
        assert(k >= 2) by {
            if k == 1 {
                assert(pow10(1) == 10 * pow10(0));
            }
        }
        assert(pow10(k) == 10 * pow10(k1));
        let p = pow10(k1);
        assert(n / 10 < p) by (nonlinear_arith)
            requires
                n < 10 * p,
        ;
        lemma_decimal_len(n / 10, k1);
    }
}

/// Below `10^k`, `k` fixed digits are the zero-padded decimal.
proof fn lemma_fixed_is_padded(n: nat, k: nat)
    requires
        k >= 1,
        n < pow10(k),
    ensures
        fixed_digits(n, k) == padded_decimal(n, k),
    decreases k,
{
    let dig = (48 + n % 10) as u8;
    if k == 1 {
        assert(pow10(1) == 10 * pow10(0));
        assert(fixed_digits(n / 10, 0) == Seq::<u8>::empty());
        assert(fixed_digits(n, 1) =~= seq![dig]);
        assert(decimal(n) == seq![(48 + n) as u8]);
    } else {
        let k1 = (k - 1) as nat;
        let q = n / 10;
        assert(pow10(k) == 10 * pow10(k1));
        let p = pow10(k1);
        assert(q < p) by (nonlinear_arith)
            requires
                n < 10 * p,
                q == n / 10,
        ;
        lemma_fixed_is_padded(q, k1);
        lemma_decimal_len(q, k1);
        if n >= 10 {
            assert(decimal(n) == decimal(q).push(dig));
            assert(padded_decimal(n, k) =~= padded_decimal(q, k1).push(dig));
        } else {
            assert(q == 0);
            assert(decimal(0) == seq![48u8]);
            assert(decimal(n) == seq![dig]);
            assert(padded_decimal(0, k1) =~= Seq::new(k1, |i: int| 48u8));
            assert(padded_decimal(n, k) =~= padded_decimal(q, k1).push(dig));
        }
    }
}

/// Appending one byte to each of two keys of one length keeps them in order,
/// and equal keys are ordered by the bytes appended.
proof fn lemma_key_lt_push(a: Seq<u8>, b: Seq<u8>, x: u8, y: u8)
    requires
        a.len() == b.len(),
        key_lt(a, b) || (a == b && x < y),
    ensures
        key_lt(a.push(x), b.push(y)),
    decreases a.len(),
{
    if a.len() == 0 {
        assert(a.push(x) =~= seq![x]);
        assert(b.push(y) =~= seq![y]);
    } else if a[0] != b[0] {
        assert(a.push(x)[0] == a[0]);
        assert(b.push(y)[0] == b[0]);
    } else {
        if a == b {
            assert(a.drop_first() == b.drop_first());
        }
        lemma_key_lt_push(a.drop_first(), b.drop_first(), x, y);
        assert(a.push(x).drop_first() =~= a.drop_first().push(x));
        assert(b.push(y).drop_first() =~= b.drop_first().push(y));
    }
}

/// A shared prefix keeps two keys in order.
proof fn lemma_key_lt_prefix(p: Seq<u8>, a: Seq<u8>, b: Seq<u8>)
    requires
        key_lt(a, b),
    ensures
        key_lt(p + a, p + b),
    decreases p.len(),
{
    if p.len() > 0 {
        lemma_key_lt_prefix(p.drop_first(), a, b);
        assert((p + a).drop_first() =~= p.drop_first() + a);
        assert((p + b).drop_first() =~= p.drop_first() + b);
    } else {
        assert(p + a =~= a);
        assert(p + b =~= b);
    }
}

/// Fixed digits follow the order of the numbers below `10^k`.
proof fn lemma_fixed_ordered(i: nat, j: nat, k: nat)
    requires
        i < j < pow10(k),
    ensures
        key_lt(fixed_digits(i, k), fixed_digits(j, k)),
    decreases k,
{
    let k1 = (k - 1) as nat;
    assert(k >= 1);
    assert(pow10(k) == 10 * pow10(k1));
    let p = pow10(k1);
    let qi = i / 10;
    let qj = j / 10;
    assert(qi <= qj && qj < p) by (nonlinear_arith)
        requires
            i < j < 10 * p,
            qi == i / 10,
            qj == j / 10,
    ;
    lemma_fixed_len(qi, k1);
    lemma_fixed_len(qj, k1);
    if qi < qj {
        lemma_fixed_ordered(qi, qj, k1);
    } else {
        assert(i % 10 < j % 10);
    }
    lemma_key_lt_push(fixed_digits(qi, k1), fixed_digits(qj, k1), (48 + i % 10) as u8, (48 + j % 10) as u8);
}

/// The workload's keys follow the order of their entries while the entry
/// fits in eight digits.
pub proof fn law_workload_keys_ordered(i: nat, j: nat)
    requires
        i < j < 100_000_000,
    ensures
        key_lt(workload_key(i), workload_key(j)),
{
    reveal_with_fuel(pow10, 9);
    assert(pow10(8) == 100_000_000);
    lemma_fixed_is_padded(i, 8);
    lemma_fixed_is_padded(j, 8);
    lemma_fixed_ordered(i, j, 8);
    lemma_key_lt_prefix(seq![107u8, 101u8, 121u8], padded_decimal(i, 8), padded_decimal(j, 8));
}

/// No key of an entry is a key that the workload uses for a missing one:
/// every missing key sorts before every entry's key.
pub proof fn law_workload_keys_never_absent(i: nat, j: nat)
    ensures
        workload_key(i) != absent_key(j),
        key_lt(absent_key(j), workload_key(i)),
{
    assert(workload_key(i)[0] == 107u8);
    assert(absent_key(j)[0] == 97u8);
}

/// Appends `n` in decimal, zero-padded to `width` digits.
fn push_padded_decimal(buf: &mut Vec<u8>, n: usize, width: usize)
    ensures
        final(buf)@ == old(buf)@ + padded_decimal(n as nat, width as nat),
{
    let mut digits: Vec<u8> = Vec::new();
    let mut m: usize = n;
    let d = (m % 10) as u8;
    digits.push(48 + d);
    proof {
        assert(digits@.reverse() =~= seq![(48 + d) as u8]);
        if m >= 10 {
            assert(decimal(m as nat) == decimal((m / 10) as nat).push((48 + m % 10) as u8));
            assert(decimal(m as nat) =~= decimal((m / 10) as nat) + digits@.reverse());
        } else {
            assert(decimal(m as nat) == seq![(48 + m) as u8]);
        }
    }
    m = m / 10;
    while m > 0
        invariant
            m > 0 ==> decimal(n as nat) == decimal(m as nat) + digits@.reverse(),
            m == 0 ==> decimal(n as nat) == digits@.reverse(),
        decreases m,
    {
        let d = (m % 10) as u8;
        let ghost before = digits@;
        digits.push(48 + d);
        proof {
            assert(digits@.reverse() =~= seq![(48 + d) as u8] + before.reverse());
            if m >= 10 {
                assert(decimal(m as nat) == decimal((m / 10) as nat).push((48 + m % 10) as u8));
                assert(decimal(m as nat) + before.reverse() =~= decimal((m / 10) as nat)
                    + digits@.reverse());
            } else {
                assert(decimal(m as nat) == seq![(48 + m) as u8]);
                assert(decimal(m as nat) + before.reverse() =~= digits@.reverse());
            }
        }
        m = m / 10;
    }
    let len = digits.len();
    if len < width {
        let mut i: usize = 0;
        let ghost start = buf@;
        while i < width - len
            invariant
                i <= width - len,
                buf@ == start + Seq::new(i as nat, |j: int| 48u8),
            decreases width - len - i,
        {
            buf.push(48);
            i = i + 1;
            assert(buf@ =~= start + Seq::new(i as nat, |j: int| 48u8));
        }
    }
    let ghost mid = buf@;
    let mut j: usize = len;
    while j > 0
        invariant
            j <= len,
            len == digits@.len(),
            buf@ == mid + digits@.reverse().subrange(0, (len - j) as int),
        decreases j,
    {
        j = j - 1;
        buf.push(digits[j]);
        assert(buf@ =~= mid + digits@.reverse().subrange(0, (len - j) as int));
    }
    assert(digits@.reverse().subrange(0, len as int) =~= digits@.reverse());
    proof {
        let dn = decimal(n as nat);
        assert(dn.len() == len);
        if len < width {
            assert(Seq::new((width - len) as nat, |j: int| 48u8) =~= Seq::new(
                (width - dn.len()) as nat,
                |j: int| 48u8,
            ));
        }
    }
}

/// The key of entry `i`: `key` and `i` in eight or more decimal digits.
pub fn key_of(i: usize) -> (r: Vec<u8>)
    ensures
        r@ == workload_key(i as nat),
{
    let mut r: Vec<u8> = Vec::new();
    r.push(107);
    r.push(101);
    r.push(121);
    push_padded_decimal(&mut r, i, 8);
    r
}

/// A key that the workload never writes: `absent` and `i` in eight or more
/// decimal digits.
pub fn absent_key_of(i: usize) -> (r: Vec<u8>)
    ensures
        r@ == absent_key(i as nat),
{
    let mut r: Vec<u8> = Vec::new();
    r.push(97);
    r.push(98);
    r.push(115);
    r.push(101);
    r.push(110);
    r.push(116);
    push_padded_decimal(&mut r, i, 8);
    r
}

/// The key of lookup `i` in a batch over `n_keys` loaded entries: an entry's
/// key, taken round-robin, for present keys; otherwise a key that the
/// workload never writes.
pub fn lookup_key(i: usize, present: bool, n_keys: usize) -> (r: Vec<u8>)
    requires
        present ==> n_keys > 0,
    ensures
        r@ == if present {
            workload_key((i % n_keys) as nat)
        } else {
            absent_key(i as nat)
        },
{
    if present {
        key_of(i % n_keys)
    } else {
        absent_key_of(i)
    }
}

} // verus!
