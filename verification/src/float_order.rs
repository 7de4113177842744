//! Order properties of binary64 rounding: casting, multiplying and
//! truncating keep nonnegative numbers in order.
use vstd::prelude::*;
use vstd::arithmetic::power2::*;
use vstd::arithmetic::div_mod::*;
use vstd::arithmetic::mul::*;
use crate::float_bits::{
    exponent, exponent_field, float_mul, float_to_u64, fraction_field, is_infinite, is_nan, is_zero,
    lemma_compose, lemma_fields, lemma_pow2_mono, lemma_top_bit, lemma_top_bit_unique,
    result_exponent, result_significand, round_shift, rounded_magnitude, sign_bit, significand,
    top_bit, truncated_magnitude, u64_to_float, CANONICAL_NAN_BITS, INFINITY_BITS,
};

verus! {

/// `top_bit` grows with its argument.
proof fn lemma_top_bit_monotone(x: nat, y: nat)
    requires
        1 <= x <= y,
    ensures
        top_bit(x) <= top_bit(y),
{
    lemma_top_bit(x);
    lemma_top_bit(y);
    if top_bit(x) > top_bit(y) {
        lemma_pow2_mono(top_bit(y) + 1, top_bit(x));
    }
}

/// Rounding off low bits keeps numbers in order.
proof fn lemma_round_shift_monotone(n1: nat, n2: nat, s: nat)
    requires
        n1 <= n2,
    ensures
        round_shift(n1, s) <= round_shift(n2, s),
{
    let p = pow2(s) as int;
    lemma_pow2_pos(s);
    lemma_div_is_ordered(n1 as int, n2 as int, p);
    let q1 = n1 as int / p;
    let q2 = n2 as int / p;
    if q1 == q2 {
        lemma_fundamental_div_mod(n1 as int, p);
        lemma_fundamental_div_mod(n2 as int, p);
    }
}

/// Scaling up by `2^k` before rounding off `k` more bits rounds the same.
proof fn lemma_round_shift_rescale(m: nat, s: nat, k: nat)
    ensures
        round_shift(m * pow2(k), s + k) == round_shift(m, s),
{
    let pk = pow2(k) as int;
    let ps = pow2(s) as int;
    lemma_pow2_pos(k);
    lemma_pow2_pos(s);
    lemma_pow2_adds(s, k);
    let x = m * pk;
    let q = m as int / ps;
    let r = m as int % ps;
    lemma_fundamental_div_mod(m as int, ps);
    assert(x == (q * ps + r) * pk);
    lemma_mul_is_distributive_add(pk, q * ps, r);
    lemma_mul_is_commutative(pk, q * ps + r);
    lemma_mul_is_associative(q, ps, pk);
    lemma_mul_is_commutative(r, pk);
    assert(x == q * (ps * pk) + r * pk);
    lemma_mul_strictly_positive(ps, pk);
    lemma_mul_strict_inequality(r, ps, pk);
    lemma_mul_is_commutative(ps, pk);
    lemma_mul_nonnegative(r, pk);
    lemma_fundamental_div_mod_converse(x as int, ps * pk, q, r * pk);
    if s > 0 {
        lemma_pow2_adds((s - 1) as nat, k);
        let h = pow2((s - 1) as nat) as int;
        assert(pow2((s + k - 1) as nat) == h * pk);
        if r > h {
            lemma_mul_strict_inequality(h, r, pk);
        } else if r < h {
            lemma_mul_strict_inequality(r, h, pk);
        }
    } else if k > 0 {
        lemma2_to64();
        assert(r == 0);
        lemma_pow2_pos((k - 1) as nat);
    }
}

/// Rounding off no bits changes nothing.
proof fn lemma_round_shift_zero(n: nat)
    ensures
        round_shift(n, 0) == n,
{
    lemma2_to64();
}

/// `top_bit(m * 2^k) == top_bit(m) + k`.
pub(crate) proof fn lemma_top_bit_shift(m: nat, k: nat)
    requires
        m >= 1,
    ensures
        top_bit(m * pow2(k)) == top_bit(m) + k,
{
    let t = top_bit(m);
    lemma_top_bit(m);
    lemma_pow2_pos(k);
    lemma_pow2_adds(t, k);
    lemma_pow2_adds(t + 1, k);
    lemma_mul_inequality(pow2(t) as int, m as int, pow2(k) as int);
    lemma_mul_strict_inequality(m as int, pow2(t + 1) as int, pow2(k) as int);
    lemma_top_bit_unique(m * pow2(k), t + k);
}

/// Rounding depends on the value `m * 2^e` only, not on how it is written.
pub(crate) proof fn lemma_rounded_rescale(m: nat, e: int, k: nat)
    requires
        m >= 1,
    ensures
        result_exponent(m * pow2(k), e - k) == result_exponent(m, e),
        result_significand(m * pow2(k), e - k) == result_significand(m, e),
        rounded_magnitude(m * pow2(k), e - k) == rounded_magnitude(m, e),
{
    lemma_top_bit_shift(m, k);
    let q_exp = result_exponent(m, e);
    if q_exp >= e {
        lemma_round_shift_rescale(m, (q_exp - e) as nat, k);
    } else if q_exp < e - k {
        lemma_pow2_adds(k, (e - k - q_exp) as nat);
        lemma_mul_is_associative(m as int, pow2(k) as int, pow2((e - k - q_exp) as nat) as int);
    } else {
        let j = (q_exp - e + k) as nat;
        let y = m * pow2((k - j) as nat);
        lemma_pow2_adds((k - j) as nat, j);
        lemma_mul_is_associative(m as int, pow2((k - j) as nat) as int, pow2(j) as int);
        lemma_round_shift_rescale(y, 0, j);
        lemma_round_shift_zero(y);
    }
}

/// The significand a rounding gives is at most `2^53`, and at least `2^52`
/// unless the result is subnormal.
proof fn lemma_result_significand_bounds(m: nat, e: int)
    requires
        m >= 1,
    ensures
        result_significand(m, e) <= pow2(53),
        top_bit(m) + e - 52 > -1074 ==> result_significand(m, e) >= pow2(52),
{
    let t = top_bit(m);
    lemma_top_bit(m);
    let q_exp = result_exponent(m, e);
    if q_exp >= e {
        let s = (q_exp - e) as nat;
        lemma_pow2_pos(s);
        let q = m / pow2(s);
        if s + 53 >= t + 1 {
            lemma_pow2_mono(t + 1, s + 53);
        } else {
            assert(false);
        }
        lemma_pow2_adds(53, s);
        lemma_mul_is_commutative(pow2(53) as int, pow2(s) as int);
        lemma_multiply_divide_lt(m as int, pow2(s) as int, pow2(53) as int);
        assert(q < pow2(53));
        if top_bit(m) + e - 52 > -1074 {
            assert(s + 52 == t);
            lemma_pow2_adds(52, s);
            lemma_mul_is_commutative(pow2(52) as int, pow2(s) as int);
            lemma_div_is_ordered(pow2(t) as int, m as int, pow2(s) as int);
            lemma_div_by_multiple(pow2(52) as int, pow2(s) as int);
        }
    } else {
        let s = (e - q_exp) as nat;
        assert(t + s <= 52);
        lemma_pow2_adds(t + 1, s);
        lemma_pow2_mono(t + 1 + s, 53);
        lemma_pow2_pos(s);
        lemma_mul_strict_inequality(m as int, pow2(t + 1) as int, pow2(s) as int);
        if top_bit(m) + e - 52 > -1074 {
            assert(t + s == 52);
            lemma_pow2_adds(t, s);
            lemma_mul_inequality(pow2(t) as int, m as int, pow2(s) as int);
        }
    }
}

/// For a fixed exponent, rounding keeps significands in order.
proof fn lemma_rounded_monotone_fixed(n1: nat, n2: nat, e: int)
    requires
        1 <= n1 <= n2,
    ensures
        rounded_magnitude(n1, e) <= rounded_magnitude(n2, e),
{
    lemma2_to64();
    lemma2_to64_rest();
    assert(INFINITY_BITS == 0x7ff * pow2(52));
    lemma_top_bit_monotone(n1, n2);
    let x1 = result_exponent(n1, e);
    let x2 = result_exponent(n2, e);
    lemma_result_significand_bounds(n1, e);
    lemma_result_significand_bounds(n2, e);
    if x1 == x2 {
        if x1 >= e {
            lemma_round_shift_monotone(n1, n2, (x1 - e) as nat);
        } else {
            lemma_mul_inequality(n1 as int, n2 as int, pow2((e - x1) as nat) as int);
        }
    } else {
        assert(x1 < x2);
        lemma_pow2_unfold(53);
        assert(result_significand(n1, e) <= 2 * pow2(52));
        assert(result_significand(n2, e) >= pow2(52));
        assert((x1 + 1074) * pow2(52) + 2 * pow2(52) <= (x2 + 1074) * pow2(52) + pow2(52))
            by (nonlinear_arith)
            requires
                x1 + 1 <= x2,
        ;
    }
}

/// Rounding keeps values in order: if `m1 * 2^e1 <= m2 * 2^e2` (compared at
/// a common exponent `e0`), the rounded results are in order.
pub proof fn lemma_rounded_monotone(m1: nat, e1: int, m2: nat, e2: int, e0: int)
    requires
        m1 >= 1,
        m2 >= 1,
        e0 <= e1,
        e0 <= e2,
        m1 * pow2((e1 - e0) as nat) <= m2 * pow2((e2 - e0) as nat),
    ensures
        rounded_magnitude(m1, e1) <= rounded_magnitude(m2, e2),
{
    let k1 = (e1 - e0) as nat;
    let k2 = (e2 - e0) as nat;
    lemma_rounded_rescale(m1, e1, k1);
    lemma_rounded_rescale(m2, e2, k2);
    lemma_pow2_pos(k1);
    lemma_mul_increases(pow2(k1) as int, m1 as int);
    lemma_mul_is_commutative(pow2(k1) as int, m1 as int);
    lemma_rounded_monotone_fixed(m1 * pow2(k1), m2 * pow2(k2), e0);
}

/// The value of a finite pattern's magnitude in units of the smallest
/// subnormal, `2^-1074`.
pub open spec fn units(b: u64) -> nat {
    significand(b) * pow2((exponent(b) + 1074) as nat)
}

/// Bounds on `units` by the exponent field.
proof fn lemma_units_range(b: u64)
    requires
        exponent_field(b) != 0x7ff,
    ensures
        units(b) < pow2((52 + exponent_field(b)) as nat),
        exponent_field(b) != 0 ==> units(b) >= pow2((51 + exponent_field(b)) as nat),
{
    lemma_fields(b);
    lemma2_to64();
    lemma2_to64_rest();
    let ef = exponent_field(b);
    if ef == 0 {
        assert(units(b) == fraction_field(b) * pow2(0));
    } else {
        let k = (ef - 1) as nat;
        lemma_pow2_pos(k);
        lemma_pow2_adds(52, k);
        lemma_pow2_adds(53, k);
        lemma_mul_inequality(pow2(52) as int, significand(b) as int, pow2(k) as int);
        lemma_mul_strict_inequality(significand(b) as int, pow2(53) as int, pow2(k) as int);
    }
}

/// For nonnegative finite patterns, a larger pattern is a larger number.
pub proof fn lemma_units_monotone(b1: u64, b2: u64)
    requires
        sign_bit(b1) == 0,
        sign_bit(b2) == 0,
        b1 <= b2,
        exponent_field(b2) != 0x7ff,
    ensures
        exponent_field(b1) != 0x7ff,
        units(b1) <= units(b2),
{
    lemma_fields(b1);
    lemma_fields(b2);
    lemma_compose(b1);
    lemma_compose(b2);
    let ef1 = exponent_field(b1);
    let ef2 = exponent_field(b2);
    if ef1 == ef2 {
        lemma_mul_inequality(
            significand(b1) as int,
            significand(b2) as int,
            pow2((exponent(b1) + 1074) as nat) as int,
        );
    } else {
        assert(ef1 < ef2);
        lemma_units_range(b1);
        lemma_units_range(b2);
        lemma_pow2_mono((52 + ef1) as nat, (51 + ef2) as nat);
    }
}

/// The magnitude rounded toward zero is `units` divided by `2^1074`.
proof fn lemma_truncated_units(b: u64)
    requires
        exponent_field(b) != 0x7ff,
    ensures
        truncated_magnitude(b) == units(b) / pow2(1074),
{
    let sig = significand(b) as int;
    let x = exponent(b);
    let k = (x + 1074) as nat;
    lemma_pow2_pos(k);
    lemma_pow2_pos(1074);
    if x >= 0 {
        lemma_pow2_adds(x as nat, 1074);
        lemma_mul_is_associative(sig, pow2(x as nat) as int, pow2(1074) as int);
        lemma_mul_nonnegative(sig, pow2(x as nat) as int);
        lemma_div_by_multiple(sig * pow2(x as nat), pow2(1074) as int);
    } else {
        let j = (-x) as nat;
        lemma_pow2_pos(j);
        lemma_pow2_adds(k, j);
        lemma_div_denominator(sig * pow2(k), pow2(k) as int, pow2(j) as int);
        lemma_mul_nonnegative(sig, pow2(k) as int);
        lemma_div_by_multiple(sig, pow2(k) as int);
    }
}

/// Rounding toward zero and casting to `u64` keeps nonnegative numbers in
/// order.
pub proof fn lemma_float_to_u64_monotone(b1: u64, b2: u64)
    requires
        sign_bit(b1) == 0,
        sign_bit(b2) == 0,
        !is_nan(b1),
        !is_nan(b2),
        b1 <= b2,
    ensures
        float_to_u64(b1) <= float_to_u64(b2),
{
    lemma_fields(b1);
    lemma_fields(b2);
    lemma_compose(b1);
    lemma_compose(b2);
    if !is_infinite(b2) {
        lemma_units_monotone(b1, b2);
        lemma_truncated_units(b1);
        lemma_truncated_units(b2);
        lemma_pow2_pos(1074);
        lemma_div_is_ordered(units(b1) as int, units(b2) as int, pow2(1074) as int);
    }
}

/// The pattern of a cast integer lies between `(e + 1023) * 2^52` and
/// `(e + 1024) * 2^52`, where `e = top_bit(x)`.
proof fn lemma_u64_to_float_range(x: u64)
    requires
        x >= 1,
    ensures
        top_bit(x as nat) <= 63,
        (top_bit(x as nat) + 1023) * pow2(52) <= u64_to_float(x) <= (top_bit(x as nat) + 1024)
            * pow2(52),
        top_bit(x as nat) <= 52 ==> pow2(52) <= x * pow2((52 - top_bit(x as nat)) as nat) < pow2(
            53,
        ),
        top_bit(x as nat) > 52 ==> pow2(52) <= round_shift(x as nat, (top_bit(x as nat) - 52) as nat)
            <= pow2(53),
{
    lemma2_to64();
    lemma2_to64_rest();
    let e = top_bit(x as nat);
    lemma_top_bit(x as nat);
    if e > 63 {
        lemma_pow2_mono(64, e);
    }
    if e <= 52 {
        let k = (52 - e) as nat;
        lemma_pow2_adds(e, k);
        lemma_pow2_adds(e + 1, k);
        lemma_pow2_pos(k);
        lemma_mul_inequality(pow2(e) as int, x as int, pow2(k) as int);
        lemma_mul_strict_inequality(x as int, pow2(e + 1) as int, pow2(k) as int);
    } else {
        let s = (e - 52) as nat;
        lemma_pow2_pos(s);
        lemma_pow2_adds(52, s);
        lemma_pow2_adds(53, s);
        lemma_mul_is_commutative(pow2(52) as int, pow2(s) as int);
        lemma_mul_is_commutative(pow2(53) as int, pow2(s) as int);
        lemma_div_is_ordered(pow2(e) as int, x as int, pow2(s) as int);
        lemma_div_by_multiple(pow2(52) as int, pow2(s) as int);
        lemma_multiply_divide_lt(x as int, pow2(s) as int, pow2(53) as int);
        assert(round_shift(x as nat, s) <= x as nat / pow2(s) + 1);
    }
}

/// A cast integer is a nonnegative finite number, zero exactly for 0.
pub proof fn lemma_u64_to_float_shape(x: u64)
    ensures
        sign_bit(u64_to_float(x)) == 0,
        exponent_field(u64_to_float(x)) < 0x7ff,
        !is_nan(u64_to_float(x)),
        !is_infinite(u64_to_float(x)),
        is_zero(u64_to_float(x)) <==> x == 0,
{
    lemma2_to64();
    lemma2_to64_rest();
    let b = u64_to_float(x);
    if x == 0 {
        assert(b == 0);
        assert(((0u64 >> 63u64) == 0) && (((0u64 >> 52u64) & 0x7ffu64) == 0) && ((0u64
            & 0xf_ffff_ffff_ffffu64) == 0)) by (bit_vector);
    } else {
        lemma_u64_to_float_range(x);
        assert(0x10_0000_0000_0000 <= b <= 1087 * 0x10_0000_0000_0000);
        assert(0x10_0000_0000_0000 <= b <= 1087 * 0x10_0000_0000_0000 ==> ((b >> 63u64) == 0
            && ((b >> 52u64) & 0x7ffu64) < 0x7ff && ((b >> 52u64) & 0x7ffu64) != 0)) by (bit_vector);
    }
}

/// Casting integers to binary64 keeps them in order.
pub proof fn lemma_u64_to_float_monotone(x1: u64, x2: u64)
    requires
        x1 <= x2,
    ensures
        u64_to_float(x1) <= u64_to_float(x2),
{
    lemma2_to64();
    lemma2_to64_rest();
    if x1 >= 1 {
        let e1 = top_bit(x1 as nat);
        let e2 = top_bit(x2 as nat);
        lemma_top_bit_monotone(x1 as nat, x2 as nat);
        lemma_u64_to_float_range(x1);
        lemma_u64_to_float_range(x2);
        if e1 == e2 {
            if e1 <= 52 {
                lemma_mul_inequality(x1 as int, x2 as int, pow2((52 - e1) as nat) as int);
                assert(u64_to_float(x1) == (e1 + 1023) * pow2(52) + x1 * pow2((52 - e1) as nat)
                    - pow2(52));
                assert(u64_to_float(x2) == (e1 + 1023) * pow2(52) + x2 * pow2((52 - e1) as nat)
                    - pow2(52));
            } else {
                lemma_round_shift_monotone(x1 as nat, x2 as nat, (e1 - 52) as nat);
                assert(u64_to_float(x1) == (e1 + 1023) * pow2(52) + round_shift(
                    x1 as nat,
                    (e1 - 52) as nat,
                ) - pow2(52));
                assert(u64_to_float(x2) == (e1 + 1023) * pow2(52) + round_shift(
                    x2 as nat,
                    (e1 - 52) as nat,
                ) - pow2(52));
            }
        } else {
            assert((e1 + 1024) * pow2(52) <= (e2 + 1023) * pow2(52)) by (nonlinear_arith)
                requires
                    e1 + 1 <= e2,
            ;
        }
    }
}

/// A pattern no larger than infinity is nonnegative and not NaN.
proof fn lemma_below_infinity(b: u64)
    requires
        b <= INFINITY_BITS,
    ensures
        sign_bit(b) == 0,
        !is_nan(b),
{
    assert(b <= 0x7ff0_0000_0000_0000u64 ==> (b >> 63u64) == 0 && !(((b >> 52u64) & 0x7ffu64)
        == 0x7ff && (b & 0xf_ffff_ffff_ffffu64) != 0)) by (bit_vector);
}

/// Multiplying by a positive finite number keeps nonnegative finite numbers
/// in order, and gives nonnegative numbers that are not NaN.
pub proof fn lemma_mul_monotone(c1: u64, c2: u64, s: u64)
    requires
        sign_bit(c1) == 0,
        sign_bit(c2) == 0,
        exponent_field(c2) != 0x7ff,
        c1 <= c2,
        sign_bit(s) == 0,
        exponent_field(s) != 0x7ff,
        !is_zero(s),
    ensures
        float_mul(c1, s) <= float_mul(c2, s),
        float_mul(c2, s) <= INFINITY_BITS,
{
    lemma2_to64();
    lemma2_to64_rest();
    lemma_units_monotone(c1, c2);
    lemma_fields(c1);
    lemma_fields(c2);
    lemma_fields(s);
    let ss = significand(s) as int;
    let k = (exponent(s) + 1074) as nat;
    assert(ss >= 1);
    if !is_zero(c2) {
        let e0 = exponent(s) - 1074;
        let k2 = (exponent(c2) + exponent(s) - e0) as nat;
        assert(significand(c2) >= 1);
        lemma_mul_is_associative(significand(c2) as int, ss, pow2(k2) as int);
        lemma_mul_is_commutative(ss, pow2(k2) as int);
        lemma_mul_is_associative(significand(c2) as int, pow2(k2) as int, ss);
        lemma_mul_increases(significand(c2) as int, ss);
        lemma_mul_is_commutative(significand(c2) as int, ss);
        if !is_zero(c1) {
            let k1 = (exponent(c1) + exponent(s) - e0) as nat;
            assert(significand(c1) >= 1);
            lemma_mul_is_associative(significand(c1) as int, ss, pow2(k1) as int);
            lemma_mul_is_commutative(ss, pow2(k1) as int);
            lemma_mul_is_associative(significand(c1) as int, pow2(k1) as int, ss);
            lemma_mul_increases(significand(c1) as int, ss);
            lemma_mul_is_commutative(significand(c1) as int, ss);
            lemma_mul_inequality(units(c1) as int, units(c2) as int, ss);
            lemma_rounded_monotone(
                significand(c1) * significand(s),
                exponent(c1) + exponent(s),
                significand(c2) * significand(s),
                exponent(c2) + exponent(s),
                e0,
            );
            assert(float_mul(c1, s) == rounded_magnitude(significand(c1) * significand(s), exponent(c1) + exponent(s)));
            assert(float_mul(c2, s) == rounded_magnitude(significand(c2) * significand(s), exponent(c2) + exponent(s)));
        } else {
            assert(float_mul(c1, s) == 0);
        }
    } else {
        lemma_compose(c1);
        lemma_compose(c2);
        assert(c2 == 0);
        assert(c1 == 0);
    }
}

/// A rounded magnitude is at most infinity.
proof fn lemma_rounded_below_infinity(m: nat, e: int)
    ensures
        rounded_magnitude(m, e) <= INFINITY_BITS,
{
    lemma2_to64();
    lemma2_to64_rest();
}

/// Facts on the patterns a product can be, by their sign and kind.
proof fn lemma_product_patterns(v: u64)
    requires
        v <= INFINITY_BITS,
    ensures
        float_to_u64(CANONICAL_NAN_BITS) == 0,
        float_to_u64((0x8000_0000_0000_0000u64 + v) as u64) == 0,
        float_to_u64(INFINITY_BITS) == u64::MAX,
        float_to_u64(0) == 0,
{
    assert(((0x7ff8_0000_0000_0000u64 >> 52u64) & 0x7ffu64) == 0x7ff && (0x7ff8_0000_0000_0000u64
        & 0xf_ffff_ffff_ffffu64) != 0) by (bit_vector);
    assert(v <= 0x7ff0_0000_0000_0000u64 ==> ((((0x8000_0000_0000_0000u64 + v) as u64) >> 63u64) == 1))
        by (bit_vector);
    assert(((0x7ff0_0000_0000_0000u64 >> 52u64) & 0x7ffu64) == 0x7ff && (0x7ff0_0000_0000_0000u64
        & 0xf_ffff_ffff_ffffu64) == 0 && (0x7ff0_0000_0000_0000u64 >> 63u64) == 0) by (bit_vector);
    assert(((0u64 >> 63u64) == 0) && (((0u64 >> 52u64) & 0x7ffu64) == 0) && ((0u64
        & 0xf_ffff_ffff_ffffu64) == 0)) by (bit_vector);
    lemma2_to64();
    lemma_pow2_pos(1074);
    assert(0nat / pow2(1074) == 0);
}

/// Casting integers to binary64, multiplying by any scale and casting back
/// keeps them in order.
pub proof fn lemma_scaled_integers_monotone(x1: u64, x2: u64, s: u64)
    requires
        x1 <= x2,
    ensures
        float_to_u64(float_mul(u64_to_float(x1), s)) <= float_to_u64(
            float_mul(u64_to_float(x2), s),
        ),
{
    let c1 = u64_to_float(x1);
    let c2 = u64_to_float(x2);
    lemma_u64_to_float_shape(x1);
    lemma_u64_to_float_shape(x2);
    lemma_u64_to_float_monotone(x1, x2);
    lemma_fields(s);
    lemma_product_patterns(0);
    if is_nan(s) {
    } else if sign_bit(s) == 1 {
        if is_infinite(s) {
            lemma_product_patterns(INFINITY_BITS);
        } else if !is_zero(s) {
            if !is_zero(c1) {
                let r = rounded_magnitude(significand(c1) * significand(s), exponent(c1) + exponent(s));
                lemma_rounded_below_infinity(significand(c1) * significand(s), exponent(c1) + exponent(s));
                lemma_product_patterns(r as u64);
            }
            if !is_zero(c2) {
                let r = rounded_magnitude(significand(c2) * significand(s), exponent(c2) + exponent(s));
                lemma_rounded_below_infinity(significand(c2) * significand(s), exponent(c2) + exponent(s));
                lemma_product_patterns(r as u64);
            }
        }
    } else if is_infinite(s) {
        lemma_product_patterns(INFINITY_BITS);
    } else if !is_zero(s) {
        lemma_mul_monotone(c1, c2, s);
        lemma_below_infinity(float_mul(c1, s));
        lemma_below_infinity(float_mul(c2, s));
        lemma_float_to_u64_monotone(float_mul(c1, s), float_mul(c2, s));
    }
}

} // verus!
