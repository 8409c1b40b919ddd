//! Numeric comparison on IEEE 754 binary64 bit patterns.

use vstd::prelude::*;
use crate::wide::bits_value;

verus! {

/// Whether a bit pattern is a zero (positive or negative).
pub open spec fn is_zero_bits(x: u64) -> bool {
    x & 0x7fff_ffff_ffff_ffff == 0
}

/// Equality of two floats as `==` on `f64` decides it, except that a value is
/// always equal to itself (so a NaN equals the identical NaN): identical bit
/// patterns, or two zeros of either sign.
pub open spec fn float_eq_exact(x: u64, y: u64) -> bool {
    x == y || (is_zero_bits(x) && is_zero_bits(y))
}

/// Two to the power `k`.
pub open spec fn p2(k: nat) -> nat
    decreases k,
{
    if k == 0 { 1 } else { 2 * p2((k - 1) as nat) }
}

/// The number of binary digits of `a` (0 for 0).
pub open spec fn bit_length(a: nat) -> nat
    decreases a,
{
    if a == 0 { 0 } else { 1 + bit_length(a / 2) }
}

/// `a / 2^k` rounded to the nearest integer, ties to the even one.
pub open spec fn round_quotient(a: nat, k: nat) -> nat {
    let q = a / p2(k);
    let r = a % p2(k);
    if k == 0 {
        q
    } else if r > p2((k - 1) as nat) || (r == p2((k - 1) as nat) && q % 2 == 1) {
        q + 1
    } else {
        q
    }
}

/// The bit pattern of the `f64` nearest to a positive integer below 2^64
/// (ties to even): biased exponent and 52-bit fraction.
pub open spec fn positive_float_bits(a: nat) -> nat {
    let e = (bit_length(a) - 1) as nat;
    if e <= 52 {
        ((e + 1023) * p2(52) + (a * p2((52 - e) as nat) - p2(52))) as nat
    } else {
        let q = round_quotient(a, (e - 52) as nat);
        if q == p2(53) {
            (e + 1024) * p2(52)
        } else {
            ((e + 1023) * p2(52) + (q - p2(52))) as nat
        }
    }
}

/// The bit pattern of the `f64` nearest to an integer (ties to even), as
/// `i as f64` gives it.
pub open spec fn int_float_bits(i: i64) -> u64 {
    if i == 0 {
        0
    } else if i > 0 {
        positive_float_bits(i as nat) as u64
    } else {
        (p2(63) + positive_float_bits((-i) as nat)) as u64
    }
}

/// The biased exponent field of a float.
pub open spec fn biased_exponent(b: u64) -> u64 {
    (b >> 52u64) & 0x7ffu64
}

/// The fraction field of a float.
pub open spec fn fraction(b: u64) -> u64 {
    b & 0xf_ffff_ffff_ffffu64
}

/// Whether the sign bit of a float is set.
pub open spec fn sign_bit(b: u64) -> bool {
    (b >> 63u64) == 1u64
}

pub open spec fn is_nan_bits(b: u64) -> bool {
    biased_exponent(b) == 0x7ff && fraction(b) != 0
}

pub open spec fn is_infinite_bits(b: u64) -> bool {
    biased_exponent(b) == 0x7ff && fraction(b) == 0
}

/// The integer significand of a finite float (with the implicit bit of a
/// normal number).
pub open spec fn significand(b: u64) -> nat {
    if biased_exponent(b) == 0 {
        fraction(b) as nat
    } else {
        (fraction(b) as nat + p2(52)) as nat
    }
}

/// The power of two that scales the significand of a finite float, counted
/// from the smallest subnormal, `2^-1074`.
pub open spec fn scale(b: u64) -> nat {
    if biased_exponent(b) == 0 {
        0
    } else {
        (biased_exponent(b) - 1) as nat
    }
}

/// The absolute value of a finite float, in units of `2^-1074`.
pub open spec fn magnitude(b: u64) -> nat {
    significand(b) * p2(scale(b))
}

/// The exact absolute difference of two finite floats, in units of `2^-1074`.
pub open spec fn difference_magnitude(x: u64, y: u64) -> nat {
    if sign_bit(x) == sign_bit(y) {
        if magnitude(x) >= magnitude(y) {
            (magnitude(x) - magnitude(y)) as nat
        } else {
            (magnitude(y) - magnitude(x)) as nat
        }
    } else {
        magnitude(x) + magnitude(y)
    }
}

/// Whether `(x - y).abs() <= tol` holds in IEEE 754 binary64 arithmetic, with
/// the subtraction rounded to nearest, ties to even.
///
/// A NaN anywhere makes it false. With an infinite operand the difference is
/// infinite (or NaN for two infinities of one sign). With finite operands the
/// rounded difference is at most a finite non-negative `tol` exactly when the
/// exact difference lies below the midpoint between `tol` and the next float
/// above it, or on that midpoint when `tol` has an even significand (ties go
/// to even); a negative `tol` accepts only a zero difference, and only when it
/// is a negative zero.
pub open spec fn within_tolerance(x: u64, y: u64, tol: u64) -> bool {
    if is_nan_bits(x) || is_nan_bits(y) || is_nan_bits(tol) {
        false
    } else if is_infinite_bits(x) || is_infinite_bits(y) {
        &&& (!(is_infinite_bits(x) && is_infinite_bits(y)) || sign_bit(x) != sign_bit(y))
        &&& is_infinite_bits(tol)
        &&& !sign_bit(tol)
    } else if is_infinite_bits(tol) {
        !sign_bit(tol)
    } else if sign_bit(tol) {
        difference_magnitude(x, y) == 0 && magnitude(tol) == 0
    } else {
        let twice = 2 * difference_magnitude(x, y);
        let bound = (2 * significand(tol) + 1) * p2(scale(tol));
        twice < bound || (twice == bound && significand(tol) % 2 == 0)
    }
}

/// Whether two numbers, given as float bit patterns, compare equal: with a
/// tolerance, `(x - y).abs() <= tol` must hold in `f64` arithmetic (so a NaN
/// or an infinity is not within any finite tolerance of itself); without one,
/// the floats must be equal, a NaN counting as equal to the identical NaN.
pub open spec fn numbers_equal(x: u64, y: u64, tol: Option<u64>) -> bool {
    match tol {
        Some(t) => within_tolerance(x, y, t),
        None => float_eq_exact(x, y),
    }
}

/// `f64` equality: a NaN equals nothing, the two zeros are equal, and
/// otherwise equal values have identical bits.
pub open spec fn float_eq_ieee(x: u64, y: u64) -> bool {
    !is_nan_bits(x) && !is_nan_bits(y) && float_eq_exact(x, y)
}

/// Whether a bit pattern is a NaN.
pub fn is_nan(b: u64) -> (r: bool)
    ensures
        r == is_nan_bits(b),
{
    (b >> 52u64) & 0x7ffu64 == 0x7ffu64 && b & 0xf_ffff_ffff_ffffu64 != 0
}

pub fn exact_eq(x: u64, y: u64) -> (r: bool)
    ensures
        r == float_eq_exact(x, y),
{
    x == y || (x & 0x7fff_ffff_ffff_ffff == 0 && y & 0x7fff_ffff_ffff_ffff == 0)
}

pub proof fn lemma_p2_values()
    ensures
        p2(0) == 1,
        p2(52) == 0x10_0000_0000_0000,
        p2(53) == 0x20_0000_0000_0000,
        p2(63) == 0x8000_0000_0000_0000,
        p2(64) == 0x1_0000_0000_0000_0000,
{
    reveal_with_fuel(p2, 65);
}

pub proof fn lemma_p2_adds(a: nat, b: nat)
    ensures
        p2(a + b) == p2(a) * p2(b),
    decreases a,
{
    if a > 0 {
        lemma_p2_adds((a - 1) as nat, b);
        let x = p2((a - 1) as nat);
        let y = p2(b);
        assert(p2(a + b) == 2 * p2((a - 1 + b) as nat));
        assert(p2(a) == 2 * x);
        assert(2 * (x * y) == (2 * x) * y) by (nonlinear_arith);
    } else {
        assert(p2(0) == 1);
        assert(p2(b) == 1 * p2(b));
    }
}

pub proof fn lemma_p2_pos(a: nat)
    ensures
        p2(a) >= 1,
    decreases a,
{
    if a > 0 {
        lemma_p2_pos((a - 1) as nat);
    }
}

pub proof fn lemma_p2_mono(a: nat, b: nat)
    requires
        a <= b,
    ensures
        p2(a) <= p2(b),
    decreases b,
{
    if a < b {
        lemma_p2_mono(a, (b - 1) as nat);
        lemma_p2_pos((b - 1) as nat);
    }
}

/// A positive number lies between two consecutive powers of two given by
/// its bit length.
proof fn lemma_bit_length(a: nat)
    requires
        a >= 1,
    ensures
        bit_length(a) >= 1,
        p2((bit_length(a) - 1) as nat) <= a < p2(bit_length(a)),
    decreases a,
{
    if a == 1 {
        assert(bit_length(0) == 0);
        assert(bit_length(1) == 1);
    } else {
        lemma_bit_length(a / 2);
        assert(bit_length(a) == 1 + bit_length(a / 2));
    }
}

/// `2^k` for `k < 64`.
fn pow2_u64(k: u64) -> (r: u64)
    requires
        k < 64,
    ensures
        r == p2(k as nat),
{
    proof {
        lemma_p2_values();
        lemma_p2_mono(k as nat, 63);
    }
    let mut r: u64 = 1;
    let mut j: u64 = 0;
    while j < k
        invariant
            j <= k < 64,
            r == p2(j as nat),
            p2(63) == 0x8000_0000_0000_0000,
        decreases k - j,
    {
        proof {
            lemma_p2_mono(j as nat, 62);
            reveal_with_fuel(p2, 2);
            assert(p2(62) == 0x4000_0000_0000_0000) by {
                assert(p2(63) == 2 * p2(62));
            }
        }
        r = r * 2;
        j = j + 1;
    }
    r
}

/// The bit pattern of `i as f64`.
#[verifier::spinoff_prover]
pub fn int_to_float(i: i64) -> (r: u64)
    ensures
        r == int_float_bits(i),
{
    if i == 0 {
        return 0;
    }
    let neg = i < 0;
    let a: u64 = if neg { ((-(i + 1)) as u64) + 1 } else { i as u64 };
    assert(a as int == if i < 0 { -i } else { i as int });
    let mut v = a;
    let mut len: u64 = 0;
    proof {
        lemma_p2_values();
    }
    while v > 0
        invariant
            bit_length(a as nat) == len + bit_length(v as nat),
            len <= 64,
            v as nat * p2(len as nat) <= a,
            a <= 0xffff_ffff_ffff_ffff,
        decreases v,
    {
        proof {
            lemma_p2_values();
            lemma_p2_pos(len as nat);
            if len >= 64 {
                lemma_p2_mono(64, len as nat);
                assert(v as nat * p2(len as nat) >= p2(len as nat)) by (nonlinear_arith)
                    requires v >= 1;
            }
            assert((v / 2) as nat * p2((len + 1) as nat) <= v as nat * p2(len as nat)) by (nonlinear_arith)
                requires p2((len + 1) as nat) == 2 * p2(len as nat);
        }
        v = v / 2;
        len = len + 1;
    }
    proof {
        lemma_bit_length(a as nat);
        lemma_p2_values();
    }
    let e: u64 = len - 1;
    let body: u64 = if e <= 52 {
        let s = pow2_u64(52 - e);
        proof {
            lemma_p2_pos((52 - e) as nat);
            lemma_p2_adds(e as nat, (52 - e) as nat);
            lemma_p2_mono((e + 1) as nat, 53);
            lemma_p2_adds((e + 1) as nat, (52 - e) as nat);
            assert(p2((e + 1) as nat) * p2((52 - e) as nat) == 2 * p2(52)) by {
                assert(p2((e + 1) as nat) == 2 * p2(e as nat));
                assert(2 * p2(e as nat) * p2((52 - e) as nat) == 2 * (p2(e as nat) * p2((52 - e) as nat))) by (nonlinear_arith);
            }
            assert(p2(e as nat) * s <= a as nat * s) by (nonlinear_arith)
                requires p2(e as nat) <= a;
            assert((a as nat) * s < p2((e + 1) as nat) * s) by (nonlinear_arith)
                requires a < p2((e + 1) as nat), s >= 1;
        }
        let m = a * s;
        (e + 1023) * 0x10_0000_0000_0000 + (m - 0x10_0000_0000_0000)
    } else {
        let k = e - 52;
        let p = pow2_u64(k);
        proof {
            lemma_p2_pos(k as nat);
        }
        let q = a / p;
        let rem = a % p;
        let half = p / 2;
        proof {
            lemma_p2_adds(k as nat, 52);
            lemma_p2_adds(k as nat, 53);
            assert(p2(k as nat) == 2 * p2((k - 1) as nat));
            assert(half == p2((k - 1) as nat));
            assert(p2(52) * p <= a as nat);
            assert((a as nat) < p2(53) * p);
            assert(q >= p2(52)) by (nonlinear_arith)
                requires p2(52) * p <= a, q == a / p, p >= 1;
            assert(q < p2(53)) by (nonlinear_arith)
                requires a < p2(53) * p, q == a / p, p >= 1;
        }
        let q2 = if rem > half || (rem == half && q % 2 == 1) { q + 1 } else { q };
        if q2 == 0x20_0000_0000_0000 {
            (e + 1024) * 0x10_0000_0000_0000
        } else {
            (e + 1023) * 0x10_0000_0000_0000 + (q2 - 0x10_0000_0000_0000)
        }
    };
    assert(body == positive_float_bits(a as nat));
    if neg {
        body + 0x8000_0000_0000_0000
    } else {
        body
    }
}

/// The fields of a finite float: sign, significand and scale.
fn decode(b: u64) -> (r: (bool, u64, usize))
    requires
        biased_exponent(b) != 0x7ff,
    ensures
        r.0 == sign_bit(b),
        r.1 == significand(b),
        r.1 < p2(53),
        r.2 == scale(b),
        r.2 < 2046,
{
    proof {
        lemma_p2_values();
    }
    let e = (b >> 52) & 0x7ff;
    let f = b & 0xf_ffff_ffff_ffff;
    assert(e <= 0x7ff) by (bit_vector)
        requires e == (b >> 52u64) & 0x7ffu64;
    assert(f <= 0xf_ffff_ffff_ffff) by (bit_vector)
        requires f == b & 0xf_ffff_ffff_ffffu64;
    let m = if e == 0 { f } else { f + 0x10_0000_0000_0000 };
    let s: usize = if e == 0 { 0 } else { (e - 1) as usize };
    ((b >> 63) == 1, m, s)
}

/// `m * 2^(s - s0)` scaled back by `2^s0` is `m * 2^s`.
proof fn lemma_rescale(m: nat, s: nat, s0: nat, k: nat)
    requires
        s0 <= s,
    ensures
        (m * p2((s - s0 + k) as nat)) * p2(s0) == m * p2(s + k),
{
    lemma_p2_adds((s - s0 + k) as nat, s0);
    assert((m * p2((s - s0 + k) as nat)) * p2(s0) == m * (p2((s - s0 + k) as nat) * p2(s0))) by (nonlinear_arith);
}

/// Twice the exact difference of two finite floats, divided by `2^s0`, as an
/// `n`-bit vector.
#[verifier::spinoff_prover]
fn twice_difference(x: u64, y: u64, s0: usize, n: usize) -> (d: Vec<bool>)
    requires
        biased_exponent(x) != 0x7ff,
        biased_exponent(y) != 0x7ff,
        s0 <= scale(x),
        s0 <= scale(y),
        scale(x) - s0 + 66 <= n,
        scale(y) - s0 + 66 <= n,
    ensures
        d.len() == n,
        bits_value(d@) * p2(s0 as nat) == 2 * difference_magnitude(x, y),
{
    let (nx, mx, sx) = decode(x);
    let (ny, my, sy) = decode(y);
    let a = crate::wide::shifted_bits(mx, sx - s0 + 1, n);
    let b = crate::wide::shifted_bits(my, sy - s0 + 1, n);
    let ghost p = p2(s0 as nat);
    proof {
        lemma_p2_pos(s0 as nat);
        lemma_rescale(mx as nat, sx as nat, s0 as nat, 1);
        lemma_rescale(my as nat, sy as nat, s0 as nat, 1);
        assert(p2((sx + 1) as nat) == 2 * p2(sx as nat));
        assert(p2((sy + 1) as nat) == 2 * p2(sy as nat));
        assert(bits_value(a@) * p == 2 * magnitude(x)) by (nonlinear_arith)
            requires bits_value(a@) * p == mx * p2((sx + 1) as nat), p2((sx + 1) as nat) == 2 * p2(sx as nat),
                magnitude(x) == mx * p2(sx as nat);
        assert(bits_value(b@) * p == 2 * magnitude(y)) by (nonlinear_arith)
            requires bits_value(b@) * p == my * p2((sy + 1) as nat), p2((sy + 1) as nat) == 2 * p2(sy as nat),
                magnitude(y) == my * p2(sy as nat);
    }
    let d = if nx == ny {
        let (p1, borrowed) = crate::wide::sub_bits(&a, &b);
        if borrowed {
            crate::wide::sub_bits(&b, &a).0
        } else {
            p1
        }
    } else {
        proof {
            lemma_sum_fits(mx as nat, sx as nat, my as nat, sy as nat, s0 as nat, n as nat);
        }
        crate::wide::add_bits(&a, &b)
    };
    proof {
        let va = bits_value(a@);
        let vb = bits_value(b@);
        let vd = bits_value(d@);
        if nx == ny {
            if va >= vb {
                assert(vd * p == va * p - vb * p) by (nonlinear_arith)
                    requires vd == va - vb;
            } else {
                assert(vd * p == vb * p - va * p) by (nonlinear_arith)
                    requires vd == vb - va;
            }
        } else {
            assert(vd * p == va * p + vb * p) by (nonlinear_arith)
                requires vd == va + vb;
        }
    }
    d
}

/// Two shifted significands below `2^53` add up to less than `2^n`.
proof fn lemma_sum_fits(mx: nat, sx: nat, my: nat, sy: nat, s0: nat, n: nat)
    requires
        mx < p2(53),
        my < p2(53),
        s0 <= sx,
        s0 <= sy,
        sx - s0 + 66 <= n,
        sy - s0 + 66 <= n,
    ensures
        mx * p2((sx - s0 + 1) as nat) + my * p2((sy - s0 + 1) as nat) < p2(n),
{
    let top = if sx >= sy { sx } else { sy };
    lemma_p2_adds(53, (sx - s0 + 1) as nat);
    lemma_p2_adds(53, (sy - s0 + 1) as nat);
    lemma_p2_mono((sx - s0 + 54) as nat, (top - s0 + 54) as nat);
    lemma_p2_mono((sy - s0 + 54) as nat, (top - s0 + 54) as nat);
    assert(p2((top - s0 + 55) as nat) == 2 * p2((top - s0 + 54) as nat));
    lemma_p2_mono((top - s0 + 55) as nat, n);
    lemma_p2_pos((sx - s0 + 1) as nat);
    lemma_p2_pos((sy - s0 + 1) as nat);
    assert(mx * p2((sx - s0 + 1) as nat) < p2(53) * p2((sx - s0 + 1) as nat)) by (nonlinear_arith)
        requires mx < p2(53), p2((sx - s0 + 1) as nat) >= 1;
    assert(my * p2((sy - s0 + 1) as nat) < p2(53) * p2((sy - s0 + 1) as nat)) by (nonlinear_arith)
        requires my < p2(53), p2((sy - s0 + 1) as nat) >= 1;
}

/// Whether `(x - y).abs() <= tol` holds for floats given by their bits.
#[verifier::spinoff_prover]
pub fn within(x: u64, y: u64, tol: u64) -> (r: bool)
    ensures
        r == within_tolerance(x, y, tol),
{
    let ex = (x >> 52) & 0x7ff;
    let ey = (y >> 52) & 0x7ff;
    let et = (tol >> 52) & 0x7ff;
    let fx = x & 0xf_ffff_ffff_ffff;
    let fy = y & 0xf_ffff_ffff_ffff;
    let ft = tol & 0xf_ffff_ffff_ffff;
    if (ex == 0x7ff && fx != 0) || (ey == 0x7ff && fy != 0) || (et == 0x7ff && ft != 0) {
        return false;
    }
    let tol_negative = (tol >> 63) == 1;
    if ex == 0x7ff || ey == 0x7ff {
        let infinite = !(ex == 0x7ff && ey == 0x7ff) || ((x >> 63) == 1) != ((y >> 63) == 1);
        return infinite && et == 0x7ff && !tol_negative;
    }
    if et == 0x7ff {
        return !tol_negative;
    }
    let (_, mt, st) = decode(tol);
    let sx = scale_of(x);
    let sy = scale_of(y);
    let s0 = if sx <= sy && sx <= st { sx } else if sy <= st { sy } else { st };
    let top = if sx >= sy && sx >= st { sx } else if sy >= st { sy } else { st };
    let n = top - s0 + 66;
    let d = twice_difference(x, y, s0, n);
    let ghost p = p2(s0 as nat);
    proof {
        lemma_p2_pos(s0 as nat);
        lemma_p2_pos(st as nat);
    }
    if tol_negative {
        let zero = crate::wide::shifted_bits(0, 0, n);
        let (_, positive) = crate::wide::sub_bits(&zero, &d);
        proof {
            assert(bits_value(d@) == 0 <==> bits_value(d@) * p == 0) by (nonlinear_arith)
                requires p >= 1;
            assert(mt == 0 <==> mt * p2(st as nat) == 0) by (nonlinear_arith)
                requires p2(st as nat) >= 1;
        }
        return !positive && mt == 0;
    }
    proof {
        lemma_p2_values();
    }
    let bound = crate::wide::shifted_bits(2 * mt + 1, st - s0, n);
    let below = crate::wide::sub_bits(&d, &bound).1;
    let above = crate::wide::sub_bits(&bound, &d).1;
    proof {
        lemma_rescale((2 * mt + 1) as nat, st as nat, s0 as nat, 0);
        let vd = bits_value(d@);
        let vt = bits_value(bound@);
        assert(vd < vt <==> vd * p < vt * p) by (nonlinear_arith)
            requires p >= 1;
        assert(vt < vd <==> vt * p < vd * p) by (nonlinear_arith)
            requires p >= 1;
    }
    below || (!above && mt % 2 == 0)
}

/// The scale of a finite float.
fn scale_of(b: u64) -> (r: usize)
    requires
        biased_exponent(b) != 0x7ff,
    ensures
        r == scale(b),
        r < 2046,
{
    decode(b).2
}

pub fn compare_numbers(x: u64, y: u64, tol: Option<u64>) -> (r: bool)
    ensures
        r == numbers_equal(x, y, tol),
{
    match tol {
        Some(t) => within(x, y, t),
        None => exact_eq(x, y),
    }
}

/// A finite number is within a non-negative, non-NaN tolerance of itself.
pub proof fn lemma_within_tolerance_reflexive(x: u64, t: u64)
    requires
        !is_nan_bits(x),
        !is_infinite_bits(x),
        !is_nan_bits(t),
        !sign_bit(t),
    ensures
        within_tolerance(x, x, t),
{
    assert(difference_magnitude(x, x) == 0);
    if !is_infinite_bits(t) {
        lemma_p2_pos(scale(t));
        let sg = significand(t);
        let p = p2(scale(t));
        assert((2 * sg + 1) * p > 0) by (nonlinear_arith)
            requires
                p > 0,
        ;
    }
}

} // verus!
