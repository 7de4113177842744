//! IEEE-754 binary64 numbers, carried as their bit patterns.
//!
//! A pattern `b` has a sign bit (bit 63), an 11-bit biased exponent
//! (bits 52..63) and a 52-bit fraction (bits 0..52). Every finite pattern
//! denotes `(-1)^sign * significand(b) * 2^exponent(b)` with the integer
//! significand and exponent below.
use vstd::prelude::*;
use vstd::arithmetic::power2::*;
use vstd::arithmetic::div_mod::*;
use vstd::arithmetic::mul::*;
use vstd::bits::*;

verus! {

/// Bit pattern of the largest finite binary64 number.
pub const MAX_FINITE_BITS: u64 = 0x7fef_ffff_ffff_ffff;

pub open spec fn sign_bit(b: u64) -> u64 {
    b >> 63u64
}

pub open spec fn exponent_field(b: u64) -> u64 {
    (b >> 52u64) & 0x7ffu64
}

pub open spec fn fraction_field(b: u64) -> u64 {
    b & 0xf_ffff_ffff_ffffu64
}

pub open spec fn is_nan(b: u64) -> bool {
    exponent_field(b) == 0x7ff && fraction_field(b) != 0
}

pub open spec fn is_infinite(b: u64) -> bool {
    exponent_field(b) == 0x7ff && fraction_field(b) == 0
}

/// Both zeros, `+0.0` and `-0.0`.
pub open spec fn is_zero(b: u64) -> bool {
    exponent_field(b) == 0 && fraction_field(b) == 0
}

/// The integer significand of a finite pattern (subnormals have no hidden bit).
pub open spec fn significand(b: u64) -> nat {
    if exponent_field(b) == 0 {
        fraction_field(b) as nat
    } else {
        fraction_field(b) as nat + pow2(52)
    }
}

/// The power of two that scales the significand of a finite pattern.
pub open spec fn exponent(b: u64) -> int {
    if exponent_field(b) == 0 {
        1 - 1075
    } else {
        exponent_field(b) - 1075
    }
}

/// `floor(significand(b) * 2^exponent(b))`, the magnitude rounded toward zero.
pub open spec fn truncated_magnitude(b: u64) -> nat {
    if exponent(b) >= 0 {
        significand(b) * pow2(exponent(b) as nat)
    } else {
        significand(b) / pow2((-exponent(b)) as nat)
    }
}

/// What the cast of a binary64 number to `u64` gives: rounding toward zero,
/// NaN to 0, negative numbers to 0, and values above `u64::MAX` (infinity
/// among them) to `u64::MAX`.
pub open spec fn float_to_u64(b: u64) -> u64 {
    if is_nan(b) || sign_bit(b) == 1 {
        0
    } else if is_infinite(b) || truncated_magnitude(b) > u64::MAX {
        u64::MAX
    } else {
        truncated_magnitude(b) as u64
    }
}

/// Equality of two binary64 numbers: NaN equals nothing, the two zeros are
/// equal, and otherwise equal numbers have equal patterns.
pub open spec fn float_eq(a: u64, b: u64) -> bool {
    !is_nan(a) && !is_nan(b) && (a == b || (is_zero(a) && is_zero(b)))
}

pub(crate) proof fn lemma_fields(b: u64)
    ensures
        sign_bit(b) <= 1,
        exponent_field(b) < 2048,
        fraction_field(b) < 0x10_0000_0000_0000,
        is_zero(b) <==> (b & 0x7fff_ffff_ffff_ffffu64) == 0,
{
    assert(sign_bit(b) <= 1) by (bit_vector);
    assert(exponent_field(b) < 2048) by (bit_vector);
    assert(fraction_field(b) < 0x10_0000_0000_0000) by (bit_vector);
    assert(((b >> 52u64) & 0x7ffu64) == 0 && (b & 0xf_ffff_ffff_ffffu64) == 0
        <==> (b & 0x7fff_ffff_ffff_ffffu64) == 0) by (bit_vector);
}

pub(crate) proof fn lemma_pow2_mono(a: nat, b: nat)
    requires
        a <= b,
    ensures
        pow2(a) <= pow2(b),
{
    if a < b {
        lemma_pow2_strictly_increases(a, b);
    }
}

/// Compares two binary64 numbers as `==` on `f64` does.
pub fn float_bits_eq(a: u64, b: u64) -> (r: bool)
    ensures
        r == float_eq(a, b),
{
    proof {
        lemma_fields(a);
        lemma_fields(b);
    }
    let a_nan = (a >> 52u64) & 0x7ffu64 == 0x7ffu64 && a & 0xf_ffff_ffff_ffffu64 != 0;
    let b_nan = (b >> 52u64) & 0x7ffu64 == 0x7ffu64 && b & 0xf_ffff_ffff_ffffu64 != 0;
    if a_nan || b_nan {
        false
    } else {
        a == b || (a & 0x7fff_ffff_ffff_ffffu64 == 0 && b & 0x7fff_ffff_ffff_ffffu64 == 0)
    }
}

/// Casts a binary64 number to `u64` as `as u64` does.
pub fn float_bits_to_u64(b: u64) -> (r: u64)
    ensures
        r == float_to_u64(b),
{
    proof {
        lemma_fields(b);
    }
    let sign = b >> 63u64;
    let exp = (b >> 52u64) & 0x7ffu64;
    let frac = b & 0xf_ffff_ffff_ffffu64;
    if sign == 1 || (exp == 0x7ff && frac != 0) {
        return 0;
    }
    if exp == 0x7ff {
        return u64::MAX;
    }
    let m: u64 = if exp == 0 { frac } else { frac + 0x10_0000_0000_0000u64 };
    let e: u64 = if exp == 0 { 1 } else { exp };
    proof {
        lemma2_to64();
        lemma2_to64_rest();
        assert(significand(b) == m);
        assert(exponent(b) == e - 1075);
        assert(m < 0x20_0000_0000_0000);
    }
    if e < 1075 {
        let sh: u64 = 1075 - e;
        if sh >= 64 {
            proof {
                lemma_pow2_strictly_increases(53, sh as nat);
                lemma_basic_div(m as int, pow2(sh as nat) as int);
                assert(truncated_magnitude(b) == 0);
            }
            0
        } else {
            proof {
                lemma_u64_shr_is_div(m, sh);
                assert(truncated_magnitude(b) == m as nat / pow2(sh as nat));
            }
            m >> sh
        }
    } else {
        let sh: u64 = e - 1075;
        if sh >= 12 {
            proof {
                assert(m >= pow2(52));
                lemma_pow2_pos(sh as nat);
                lemma_pow2_mono(12, sh as nat);
                lemma_mul_inequality(pow2(52) as int, m as int, pow2(sh as nat) as int);
                lemma_mul_inequality(pow2(12) as int, pow2(sh as nat) as int, pow2(52) as int);
                lemma_mul_is_commutative(pow2(12) as int, pow2(52) as int);
                lemma_pow2_adds(52, 12);
                assert(truncated_magnitude(b) == m * pow2(sh as nat));
            }
            u64::MAX
        } else {
            proof {
                lemma_pow2_pos(sh as nat);
                lemma_pow2_mono(sh as nat, 11);
                lemma_mul_inequality(pow2(sh as nat) as int, pow2(11) as int, m as int);
                lemma_mul_strict_inequality(m as int, pow2(53) as int, pow2(11) as int);
                lemma_pow2_adds(53, 11);
                lemma_mul_is_commutative(m as int, pow2(sh as nat) as int);
                lemma_mul_is_commutative(m as int, pow2(11) as int);
                lemma_u64_shl_is_mul(m, sh);
                assert(truncated_magnitude(b) == m * pow2(sh as nat));
            }
            m << sh
        }
    }
}

/// Position of the highest set bit of a positive number.
pub open spec fn top_bit(x: nat) -> nat
    decreases x,
{
    if x < 2 {
        0
    } else {
        1 + top_bit(x / 2)
    }
}

/// `n / 2^s` rounded to the nearest integer, and of two equally near the
/// even one.
pub open spec fn round_shift(n: nat, s: nat) -> nat {
    let q = n / pow2(s);
    let r = n % pow2(s);
    if s > 0 && (r > pow2((s - 1) as nat) || (r == pow2((s - 1) as nat) && q % 2 == 1)) {
        q + 1
    } else {
        q
    }
}

/// What the cast of a `u64` to binary64 gives: the binary64 number nearest to
/// `x`, and of two equally near the one with an even significand. With
/// `e = top_bit(x)`, numbers below `2^53` are exact; above, the `e - 52` low
/// bits are rounded off, and a carry out of the significand raises the
/// exponent.
pub open spec fn u64_to_float(x: u64) -> u64 {
    if x == 0 {
        0
    } else {
        let e = top_bit(x as nat);
        let biased: nat = (e + 1023) * pow2(52);
        if e <= 52 {
            (biased + x * pow2((52 - e) as nat) - pow2(52)) as u64
        } else {
            let rounded = round_shift(x as nat, (e - 52) as nat);
            (biased + rounded - pow2(52)) as u64
        }
    }
}

pub(crate) proof fn lemma_top_bit(x: nat)
    requires
        x >= 1,
    ensures
        pow2(top_bit(x)) <= x < pow2(top_bit(x) + 1),
    decreases x,
{
    if x < 2 {
        lemma2_to64();
    } else {
        lemma_top_bit(x / 2);
        lemma_pow2_unfold(top_bit(x));
        lemma_pow2_unfold(top_bit(x) + 1);
    }
}

/// Casts a `u64` to binary64 as `as f64` does, giving the bit pattern.
pub fn u64_to_float_bits(x: u64) -> (r: u64)
    ensures
        r == u64_to_float(x),
{
    if x == 0 {
        return 0;
    }
    let mut e: u64 = 0;
    let mut y: u64 = x;
    proof {
        lemma2_to64();
    }
    while y >= 2
        invariant
            1 <= y <= x,
            e + top_bit(y as nat) == top_bit(x as nat),
            e < 64,
            y * pow2(e as nat) <= x,
        decreases y,
    {
        proof {
            let h = (y / 2) as int;
            let pe = pow2(e as nat) as int;
            lemma_pow2_unfold((e + 1) as nat);
            assert(pow2((e + 1) as nat) == 2 * pe);
            lemma_mul_is_associative(h, 2, pe);
            lemma_mul_inequality(2 * h, y as int, pe);
            assert(h * pow2((e + 1) as nat) <= x);
            if e + 1 >= 64 {
                lemma_pow2_mono(64, (e + 1) as nat);
                lemma2_to64_rest();
                lemma_mul_increases(h, pow2((e + 1) as nat) as int);
                assert(false);
            }
        }
        y = y / 2;
        e = e + 1;
    }
    proof {
        lemma_top_bit(x as nat);
        lemma2_to64();
        lemma2_to64_rest();
        if e > 63 {
            lemma_pow2_mono(64, e as nat);
        }
    }
    let biased: u64 = (e + 1023) * 0x10_0000_0000_0000u64;
    if e <= 52 {
        let sh: u64 = 52 - e;
        proof {
            lemma_pow2_adds(e as nat + 1, sh as nat);
            lemma_pow2_pos(sh as nat);
            lemma_mul_strict_inequality(x as int, pow2(e as nat + 1) as int, pow2(sh as nat) as int);
            lemma_u64_shl_is_mul(x, sh);
        }
        biased + (x << sh) - 0x10_0000_0000_0000u64
    } else {
        let s: u64 = e - 52;
        proof {
            lemma_u64_pow2_no_overflow(s as nat);
            lemma_u64_shl_is_mul(1, s);
            lemma_pow2_unfold(s as nat);
        }
        let p: u64 = 1u64 << s;
        let q: u64 = x / p;
        let r: u64 = x % p;
        let half: u64 = p / 2;
        proof {
            lemma_pow2_adds(53, s as nat);
            lemma_pow2_pos(s as nat);
            lemma_div_is_ordered(pow2(e as nat) as int, x as int, p as int);
            lemma_div_by_multiple(pow2(52) as int, p as int);
            lemma_div_is_ordered(x as int, pow2(e as nat + 1) as int, p as int);
            lemma_div_by_multiple(pow2(53) as int, p as int);
            assert(q <= pow2(53));
        }
        let rounded: u64 = if r > half || (r == half && q % 2 == 1) { q + 1 } else { q };
        biased + rounded - 0x10_0000_0000_0000u64
    }
}

/// Bit pattern of 1.0.
pub const ONE_BITS: u64 = 0x3ff0_0000_0000_0000;

/// Bit pattern of the NaN that an invalid product gives.
pub const CANONICAL_NAN_BITS: u64 = 0x7ff8_0000_0000_0000;

/// Bit pattern of positive infinity.
pub const INFINITY_BITS: u64 = 0x7ff0_0000_0000_0000;

/// What `*` on two binary64 numbers gives, as a bit pattern. The sign is
/// the exclusive or of the signs; the exact product of two finite nonzero
/// numbers is rounded to binary64 by `rounded_magnitude`. A NaN result (NaN
/// operand, or infinity times zero) is given as the canonical quiet NaN.
pub open spec fn float_mul(a: u64, b: u64) -> u64 {
    let sign: nat = if sign_bit(a) == sign_bit(b) {
        0
    } else {
        0x8000_0000_0000_0000
    };
    if is_nan(a) || is_nan(b) || (is_infinite(a) && is_zero(b)) || (is_zero(a) && is_infinite(b)) {
        CANONICAL_NAN_BITS
    } else if is_infinite(a) || is_infinite(b) {
        (sign + INFINITY_BITS) as u64
    } else if is_zero(a) || is_zero(b) {
        sign as u64
    } else {
        (sign + rounded_magnitude(significand(a) * significand(b), exponent(a) + exponent(b))) as u64
    }
}

/// The magnitude bits of the binary64 number nearest `m * 2^e` (`m > 0`),
/// ties to even; infinity beyond the largest finite number.
pub open spec fn rounded_magnitude(m: nat, e: int) -> nat {
    let mag = (result_exponent(m, e) + 1074) * pow2(52) + result_significand(m, e);
    if mag >= 0x7ff * pow2(52) {
        INFINITY_BITS as nat
    } else {
        mag as nat
    }
}

/// The exponent of the last significand bit of `m * 2^e` rounded to
/// binary64: 52 bits below the leading one, but not below `-1074`.
pub open spec fn result_exponent(m: nat, e: int) -> int {
    if top_bit(m) + e - 52 > -1074 {
        top_bit(m) + e - 52
    } else {
        -1074
    }
}

/// `m * 2^e` as a multiple of `2^result_exponent(m, e)`, rounded to the
/// nearest, ties to even.
pub open spec fn result_significand(m: nat, e: int) -> nat {
    let q_exp = result_exponent(m, e);
    if q_exp >= e {
        round_shift(m, (q_exp - e) as nat)
    } else {
        m * pow2((e - q_exp) as nat)
    }
}

/// `2^s` as a `u128`.
pub(crate) fn pow2_u128(s: u64) -> (r: u128)
    requires
        s < 128,
    ensures
        r == pow2(s as nat),
{
    let mut r: u128 = 1;
    let mut i: u64 = 0;
    proof {
        lemma2_to64();
    }
    while i < s
        invariant
            i <= s < 128,
            r == pow2(i as nat),
        decreases s - i,
    {
        proof {
            lemma_pow2_unfold((i + 1) as nat);
            lemma_pow2_mono((i + 1) as nat, 127);
            lemma_pow2_adds(64, 63);
            lemma2_to64_rest();
        }
        r = r * 2;
        i = i + 1;
    }
    r
}

/// Position of the highest set bit of a positive `u128`.
fn top_bit_u128(x: u128) -> (r: u64)
    requires
        x >= 1,
    ensures
        r == top_bit(x as nat),
        r < 128,
{
    let mut e: u64 = 0;
    let mut y: u128 = x;
    proof {
        lemma2_to64();
    }
    while y >= 2
        invariant
            1 <= y <= x,
            e + top_bit(y as nat) == top_bit(x as nat),
            y * pow2(e as nat) <= x,
            e < 128,
        decreases y,
    {
        proof {
            let h = (y / 2) as int;
            let pe = pow2(e as nat) as int;
            lemma_pow2_unfold((e + 1) as nat);
            lemma_mul_is_associative(h, 2, pe);
            lemma_mul_inequality(2 * h, y as int, pe);
            if e + 1 >= 128 {
                lemma_pow2_mono(128, (e + 1) as nat);
                lemma_pow2_adds(64, 64);
                lemma2_to64_rest();
                lemma_mul_increases(h, pow2((e + 1) as nat) as int);
                assert(false);
            }
        }
        y = y / 2;
        e = e + 1;
    }
    proof {
        lemma_top_bit(x as nat);
    }
    e
}

/// `round_shift` of a value below `2^120`.
pub(crate) fn round_shift_u128(n: u128, s: u64) -> (r: u128)
    requires
        n < 0x100_0000_0000_0000_0000_0000_0000_0000,
    ensures
        r == round_shift(n as nat, s as nat),
        r <= n + 1,
{
    proof {
        lemma2_to64();
        lemma2_to64_rest();
        lemma_pow2_adds(64, 56);
        lemma_pow2_adds(64, 57);
    }
    if s == 0 {
        proof {
            assert(n as nat / pow2(0) == n);
        }
        return n;
    }
    if s > 121 {
        proof {
            lemma_pow2_mono(120, (s - 1) as nat);
            lemma_pow2_mono(120, s as nat);
            lemma_basic_div(n as int, pow2(s as nat) as int);
            lemma_small_mod(n as nat, pow2(s as nat));
        }
        return 0;
    }
    let p = pow2_u128(s);
    proof {
        lemma_pow2_pos(s as nat);
        lemma_div_is_ordered_by_denominator(n as int, 1, p as int);
    }
    let q = n / p;
    let rem = n % p;
    let half = p / 2;
    proof {
        lemma_pow2_unfold(s as nat);
    }
    if rem > half || (rem == half && q % 2 == 1) {
        proof {
            lemma_pow2_pos(s as nat);
            lemma_div_is_ordered(n as int, 0x100_0000_0000_0000_0000_0000_0000_0000, p as int);
        }
        q + 1
    } else {
        q
    }
}

/// Multiplies two binary64 numbers as `*` on `f64` does (a NaN result is
/// the canonical quiet NaN).
pub fn float_bits_mul(a: u64, b: u64) -> (r: u64)
    ensures
        r == float_mul(a, b),
{
    proof {
        lemma_fields(a);
        lemma_fields(b);
        lemma2_to64();
        lemma2_to64_rest();
    }
    let ea = (a >> 52u64) & 0x7ffu64;
    let fa = a & 0xf_ffff_ffff_ffffu64;
    let eb = (b >> 52u64) & 0x7ffu64;
    let fb = b & 0xf_ffff_ffff_ffffu64;
    let sign: u64 = if (a >> 63u64) == (b >> 63u64) { 0 } else { 0x8000_0000_0000_0000 };
    let a_nan = ea == 0x7ff && fa != 0;
    let b_nan = eb == 0x7ff && fb != 0;
    let a_inf = ea == 0x7ff && fa == 0;
    let b_inf = eb == 0x7ff && fb == 0;
    let a_zero = ea == 0 && fa == 0;
    let b_zero = eb == 0 && fb == 0;
    if a_nan || b_nan || (a_inf && b_zero) || (a_zero && b_inf) {
        return CANONICAL_NAN_BITS;
    }
    if a_inf || b_inf {
        return sign + INFINITY_BITS;
    }
    if a_zero || b_zero {
        return sign;
    }
    let ma: u64 = if ea == 0 { fa } else { fa + 0x10_0000_0000_0000u64 };
    let mb: u64 = if eb == 0 { fb } else { fb + 0x10_0000_0000_0000u64 };
    let xa: i64 = if ea == 0 { 1 - 1075 } else { ea as i64 - 1075 };
    let xb: i64 = if eb == 0 { 1 - 1075 } else { eb as i64 - 1075 };
    proof {
        assert(significand(a) == ma);
        assert(significand(b) == mb);
        assert(exponent(a) == xa);
        assert(exponent(b) == xb);
        assert(-1074 <= xa <= 971);
        assert(-1074 <= xb <= 971);
        assert(ma < 0x20_0000_0000_0000);
        assert(mb < 0x20_0000_0000_0000);
        lemma_mul_strict_inequality(ma as int, 0x20_0000_0000_0000, mb as int);
        lemma_mul_strict_inequality(mb as int, 0x20_0000_0000_0000, 0x20_0000_0000_0000);
        lemma_mul_is_commutative(ma as int, mb as int);
        assert(ma >= 1 && mb >= 1);
        lemma_mul_increases(ma as int, mb as int);
    }
    let m: u128 = ma as u128 * mb as u128;
    sign + round_to_binary64(m, xa + xb)
}

/// `rounded_magnitude` of `m * 2^e`.
pub(crate) fn round_to_binary64(m: u128, e: i64) -> (r: u64)
    requires
        1 <= m < 0x40_0000_0000_0000_0000_0000_0000_0000,
        -2148 <= e <= 1942,
    ensures
        r == rounded_magnitude(m as nat, e as int),
        r <= INFINITY_BITS,
{
    proof {
        lemma2_to64();
        lemma2_to64_rest();
    }
    let t: i64 = top_bit_u128(m) as i64;
    proof {
        lemma_top_bit(m as nat);
        if t > 117 {
            lemma_pow2_mono(118, t as nat);
            lemma_pow2_adds(64, 54);
        }
    }
    let q_exp: i64 = if t + e - 52 > -1074 { t + e - 52 } else { -1074 };
    let q: u128 = if q_exp >= e {
        round_shift_u128(m, (q_exp - e) as u64)
    } else {
        let s = (e - q_exp) as u64;
        proof {
            lemma_pow2_adds((t + 1) as nat, s as nat);
            lemma_pow2_mono((t + 1 + s) as nat, 53);
            lemma_pow2_pos(s as nat);
            lemma_mul_strict_inequality(m as int, pow2((t + 1) as nat) as int, pow2(s as nat) as int);
        }
        m * pow2_u128(s)
    };
    proof {
        assert(q <= 0x40_0000_0000_0000_0000_0000_0000_0000);
        assert(q_exp + 1074 < 4096);
    }
    let mag: u128 = (q_exp + 1074) as u128 * 0x10_0000_0000_0000u128 + q;
    if mag >= 0x7ff * 0x10_0000_0000_0000u128 {
        INFINITY_BITS
    } else {
        mag as u64
    }
}

pub(crate) proof fn lemma_fields_of(ex: u64, fr: u64)
    requires
        ex < 2048,
        fr < 0x10_0000_0000_0000,
    ensures
        exponent_field((ex * 0x10_0000_0000_0000 + fr) as u64) == ex,
        fraction_field((ex * 0x10_0000_0000_0000 + fr) as u64) == fr,
        sign_bit((ex * 0x10_0000_0000_0000 + fr) as u64) == 0,
{
    assert(((((ex * 0x10_0000_0000_0000u64 + fr) as u64) >> 52u64) & 0x7ffu64) == ex) by (bit_vector)
        requires
            ex < 2048,
            fr < 0x10_0000_0000_0000,
    ;
    assert((((ex * 0x10_0000_0000_0000u64 + fr) as u64) & 0xf_ffff_ffff_ffffu64) == fr) by (bit_vector)
        requires
            ex < 2048,
            fr < 0x10_0000_0000_0000,
    ;
    assert((((ex * 0x10_0000_0000_0000u64 + fr) as u64) >> 63u64) == 0) by (bit_vector)
        requires
            ex < 2048,
            fr < 0x10_0000_0000_0000,
    ;
}

/// Integers up to `2^53` are exact in binary64: cast to binary64 and back,
/// they are unchanged.
pub proof fn lemma_small_integers_round_trip(x: u64)
    requires
        x <= 0x20_0000_0000_0000,
    ensures
        !is_nan(u64_to_float(x)),
        float_to_u64(u64_to_float(x)) == x,
{
    lemma2_to64();
    lemma2_to64_rest();
    if x == 0 {
        lemma_fields_of(0, 0);
        lemma_pow2_pos(1074);
        assert(0nat / pow2(1074) == 0);
    } else if x == 0x20_0000_0000_0000 {
        lemma_top_bit(x as nat);
        let e = top_bit(x as nat);
        if e < 53 {
            lemma_pow2_mono(e + 1, 53);
        }
        if e > 53 {
            lemma_pow2_mono(54, e);
            lemma2_to64_rest();
        }
        assert(e == 53);
        assert(pow2(1) == 2);
        lemma_fundamental_div_mod(x as int, 2);
        assert(u64_to_float(x) == 1076 * 0x10_0000_0000_0000);
        lemma_fields_of(1076, 0);
        assert(truncated_magnitude((1076 * 0x10_0000_0000_0000) as u64) == pow2(52) * pow2(1));
        lemma_pow2_adds(52, 1);
    } else {
        lemma_top_bit(x as nat);
        let e = top_bit(x as nat);
        if e > 52 {
            lemma_pow2_mono(53, e);
        }
        assert(e <= 52);
        let k = (52 - e) as nat;
        lemma_pow2_adds(e, k);
        lemma_pow2_adds(e + 1, k);
        lemma_pow2_pos(k);
        lemma_mul_inequality(pow2(e) as int, x as int, pow2(k) as int);
        lemma_mul_strict_inequality(x as int, pow2(e + 1) as int, pow2(k) as int);
        let m = x * pow2(k);
        assert(pow2(52) <= m < pow2(53));
        let fr = (m - pow2(52)) as u64;
        let ex = (e + 1023) as u64;
        lemma_fields_of(ex, fr);
        let b = u64_to_float(x);
        assert(b == (ex * 0x10_0000_0000_0000 + fr) as u64);
        assert(significand(b) == m);
        assert(exponent(b) == e - 52);
        if e == 52 {
            assert(m == x * 1);
            assert(truncated_magnitude(b) == m * pow2(0));
        } else {
            assert(truncated_magnitude(b) == m / (pow2(k) as int));
            lemma_div_by_multiple(x as int, pow2(k) as int);
        }
    }
}

/// `top_bit` is the exponent of the power of two a number lies between.
pub(crate) proof fn lemma_top_bit_unique(x: nat, t: nat)
    requires
        pow2(t) <= x < pow2(t + 1),
    ensures
        top_bit(x) == t,
{
    lemma_pow2_pos(t);
    lemma_top_bit(x);
    let u = top_bit(x);
    if u < t {
        lemma_pow2_mono(u + 1, t);
    }
    if u > t {
        lemma_pow2_mono(t + 1, u);
    }
}

/// A pattern is its sign bit, exponent field and fraction field put together.
pub(crate) proof fn lemma_compose(b: u64)
    ensures
        b == sign_bit(b) * 0x8000_0000_0000_0000 + exponent_field(b) * 0x10_0000_0000_0000
            + fraction_field(b),
{
    assert(b == (b >> 63u64) * 0x8000_0000_0000_0000u64 + ((b >> 52u64) & 0x7ffu64)
        * 0x10_0000_0000_0000u64 + (b & 0xf_ffff_ffff_ffffu64)) by (bit_vector);
}

/// Multiplying by 1.0 changes no number but NaN.
pub proof fn lemma_mul_by_one(a: u64)
    requires
        !is_nan(a),
    ensures
        float_mul(a, ONE_BITS) == a,
{
    lemma2_to64();
    lemma2_to64_rest();
    lemma_fields(a);
    lemma_fields_of(1023, 0);
    lemma_compose(a);
    assert(ONE_BITS == 1023 * 0x10_0000_0000_0000u64);
    assert(significand(ONE_BITS) == pow2(52));
    assert(exponent(ONE_BITS) == -52);
    if !is_infinite(a) && !is_zero(a) {
        let sig = significand(a);
        let m = sig * pow2(52);
        let e = exponent(a) - 52;
        lemma_top_bit(sig);
        let ta = top_bit(sig);
        lemma_pow2_adds(ta, 52);
        lemma_pow2_adds(ta + 1, 52);
        lemma_pow2_pos(52);
        lemma_mul_inequality(pow2(ta) as int, sig as int, pow2(52) as int);
        lemma_mul_strict_inequality(sig as int, pow2(ta + 1) as int, pow2(52) as int);
        lemma_top_bit_unique(m, ta + 52);
        if exponent_field(a) != 0 {
            if ta < 52 {
                lemma_pow2_mono(ta + 1, 52);
            }
            if ta > 52 {
                lemma_pow2_mono(53, ta);
            }
            assert(ta == 52);
        } else {
            if ta >= 52 {
                lemma_pow2_mono(52, ta);
            }
            assert(ta < 52);
        }
        lemma_div_by_multiple(sig as int, pow2(52) as int);
        lemma_mod_multiples_basic(sig as int, pow2(52) as int);
        lemma_mul_is_commutative(sig as int, pow2(52) as int);
        assert(round_shift(m, 52) == sig);
        assert(rounded_magnitude(m, e) == (exponent(a) + 1074) * pow2(52) + sig);
    }
}

/// Binary64 multiplication of numbers that are not NaN does not depend on
/// the order of its operands.
pub proof fn lemma_mul_commutative(a: u64, b: u64)
    requires
        !is_nan(a),
        !is_nan(b),
    ensures
        float_mul(a, b) == float_mul(b, a),
{
    assert(significand(a) * significand(b) == significand(b) * significand(a)) by (nonlinear_arith);
}

} // verus!
