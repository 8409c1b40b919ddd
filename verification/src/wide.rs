//! Unsigned integers of any width, held as little-endian bit vectors.

use vstd::prelude::*;
use crate::numeric::{p2, lemma_p2_adds, lemma_p2_mono, lemma_p2_pos, lemma_p2_values};

verus! {

/// The number that a little-endian sequence of bits stands for.
pub open spec fn bits_value(s: Seq<bool>) -> nat
    decreases s.len(),
{
    if s.len() == 0 {
        0
    } else {
        bits_value(s.drop_last()) + if s.last() { p2((s.len() - 1) as nat) } else { 0 }
    }
}

/// Appending a bit adds its weight.
pub proof fn lemma_push_value(s: Seq<bool>, b: bool)
    ensures
        bits_value(s.push(b)) == bits_value(s) + if b { p2(s.len()) } else { 0 },
{
    assert(s.push(b).drop_last() =~= s);
}

/// Extending a prefix by one bit adds that bit's weight.
pub proof fn lemma_take_next(s: Seq<bool>, i: int)
    requires
        0 <= i < s.len(),
    ensures
        bits_value(s.take(i + 1)) == bits_value(s.take(i)) + if s[i] { p2(i as nat) } else { 0 },
{
    assert(s.take(i + 1).drop_last() =~= s.take(i));
}

/// A sequence of `n` bits stands for less than `2^n`.
pub proof fn lemma_bits_bound(s: Seq<bool>)
    ensures
        bits_value(s) < p2(s.len()),
    decreases s.len(),
{
    if s.len() > 0 {
        lemma_bits_bound(s.drop_last());
        assert(p2(s.len()) == 2 * p2((s.len() - 1) as nat));
    }
}

/// The sum of two numbers of `n` bits whose sum fits in `n` bits.
pub fn add_bits(a: &Vec<bool>, b: &Vec<bool>) -> (r: Vec<bool>)
    requires
        a.len() == b.len(),
        bits_value(a@) + bits_value(b@) < p2(a.len() as nat),
    ensures
        r.len() == a.len(),
        bits_value(r@) == bits_value(a@) + bits_value(b@),
{
    let n = a.len();
    let mut r: Vec<bool> = Vec::new();
    let mut carry = false;
    let mut i: usize = 0;
    while i < n
        invariant
            n == a.len(),
            n == b.len(),
            i <= n,
            r.len() == i,
            bits_value(r@) + (if carry { p2(i as nat) } else { 0 }) == bits_value(a@.take(i as int))
                + bits_value(b@.take(i as int)),
        decreases n - i,
    {
        let x = a[i];
        let y = b[i];
        let bit = (x != y) != carry;
        let next = (x && y) || (carry && (x != y));
        proof {
            lemma_take_next(a@, i as int);
            lemma_take_next(b@, i as int);
            lemma_push_value(r@, bit);
            assert(p2((i + 1) as nat) == 2 * p2(i as nat));
        }
        r.push(bit);
        carry = next;
        i = i + 1;
    }
    proof {
        assert(a@.take(n as int) =~= a@);
        assert(b@.take(n as int) =~= b@);
    }
    r
}

/// The difference `a - b` of two numbers of `n` bits, taken modulo `2^n`,
/// and whether it borrowed, that is whether `a < b`.
pub fn sub_bits(a: &Vec<bool>, b: &Vec<bool>) -> (res: (Vec<bool>, bool))
    requires
        a.len() == b.len(),
    ensures
        res.0.len() == a.len(),
        bits_value(res.0@) + bits_value(b@) == bits_value(a@) + if res.1 { p2(a.len() as nat) } else { 0 },
        res.1 <==> bits_value(a@) < bits_value(b@),
{
    let n = a.len();
    let mut r: Vec<bool> = Vec::new();
    let mut borrow = false;
    let mut i: usize = 0;
    while i < n
        invariant
            n == a.len(),
            n == b.len(),
            i <= n,
            r.len() == i,
            bits_value(r@) + bits_value(b@.take(i as int)) == bits_value(a@.take(i as int)) + (if borrow {
                p2(i as nat)
            } else {
                0
            }),
        decreases n - i,
    {
        let x = a[i];
        let y = b[i];
        let bit = (x != y) != borrow;
        let next = if x { y && borrow } else { y || borrow };
        proof {
            lemma_take_next(a@, i as int);
            lemma_take_next(b@, i as int);
            lemma_push_value(r@, bit);
            assert(p2((i + 1) as nat) == 2 * p2(i as nat));
        }
        r.push(bit);
        borrow = next;
        i = i + 1;
    }
    proof {
        assert(a@.take(n as int) =~= a@);
        assert(b@.take(n as int) =~= b@);
        lemma_bits_bound(r@);
        lemma_bits_bound(a@);
        lemma_bits_bound(b@);
    }
    (r, borrow)
}

/// The `n`-bit vector standing for `m * 2^e`.
pub fn shifted_bits(m: u64, e: usize, n: usize) -> (r: Vec<bool>)
    requires
        e + 64 <= n,
    ensures
        r.len() == n,
        bits_value(r@) == m * p2(e as nat),
{
    let mut r: Vec<bool> = Vec::new();
    let mut v: u64 = m;
    let mut i: usize = 0;
    while i < n
        invariant
            i <= n,
            r.len() == i,
            e + 64 <= n,
            i <= e ==> bits_value(r@) == 0 && v == m,
            i >= e ==> bits_value(r@) + v * p2(i as nat) == m * p2(e as nat),
        decreases n - i,
    {
        if i < e {
            proof {
                lemma_push_value(r@, false);
            }
            r.push(false);
        } else {
            let bit = v % 2 == 1;
            proof {
                lemma_push_value(r@, bit);
                let q = p2(i as nat);
                assert(p2((i + 1) as nat) == 2 * q);
                assert((v / 2) as int * (2 * q) + (v % 2) as int * q == v as int * q) by (nonlinear_arith);
                assert((if bit { q } else { 0 }) == (v % 2) as int * q);
            }
            r.push(bit);
            v = v / 2;
        }
        i = i + 1;
    }
    proof {
        lemma_p2_values();
        lemma_p2_adds(e as nat, 64);
        lemma_p2_mono((e + 64) as nat, n as nat);
        lemma_p2_pos(e as nat);
        let q = p2(n as nat);
        assert(m * p2(e as nat) < p2(64) * p2(e as nat)) by (nonlinear_arith)
            requires m < p2(64), p2(e as nat) >= 1;
        assert(v * q < q);
        assert(v == 0) by (nonlinear_arith)
            requires v * q < q, q >= 1;
    }
    r
}

} // verus!
