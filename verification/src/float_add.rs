//! Addition of binary64 numbers, carried as their bit patterns.
use vstd::prelude::*;
use vstd::arithmetic::power2::*;
use vstd::arithmetic::div_mod::*;
use vstd::arithmetic::mul::*;
use crate::float_bits::{
    exponent, exponent_field, fraction_field, is_infinite, is_nan, is_zero, lemma_compose, lemma_fields,
    lemma_pow2_mono, lemma_top_bit, lemma_top_bit_unique, pow2_u128, result_exponent,
    result_significand, round_shift, round_to_binary64, rounded_magnitude, sign_bit, significand,
    top_bit, CANONICAL_NAN_BITS, INFINITY_BITS,
};
use crate::float_order::lemma_rounded_rescale;

verus! {

/// Bit pattern of `-0.0`.
pub const NEG_ZERO_BITS: u64 = 0x8000_0000_0000_0000;

/// What `+` on two binary64 numbers gives, as a bit pattern. A finite
/// nonzero sum is the exact sum rounded by `rounded_magnitude`, with the sign
/// of the larger operand; an exact zero sum of nonzero numbers is `+0.0`, and
/// two zeros give `-0.0` only when both are `-0.0`. Infinities win over
/// finite numbers; a NaN result (NaN operand, or infinities of opposite
/// signs) is given as the canonical quiet NaN.
pub open spec fn float_add(a: u64, b: u64) -> u64 {
    if is_nan(a) || is_nan(b) || (is_infinite(a) && is_infinite(b) && sign_bit(a) != sign_bit(b)) {
        CANONICAL_NAN_BITS
    } else if is_infinite(a) {
        a
    } else if is_infinite(b) {
        b
    } else if is_zero(a) && is_zero(b) {
        if sign_bit(a) == 1 && sign_bit(b) == 1 {
            NEG_ZERO_BITS
        } else {
            0
        }
    } else if is_zero(a) {
        b
    } else if is_zero(b) {
        a
    } else {
        let e0 = if exponent(a) <= exponent(b) {
            exponent(a)
        } else {
            exponent(b)
        };
        signed_sum(
            sign_bit(a),
            significand(a) * pow2((exponent(a) - e0) as nat),
            sign_bit(b),
            significand(b) * pow2((exponent(b) - e0) as nat),
            e0,
        )
    }
}

/// The bits of `(-1)^sa * ma * 2^e + (-1)^sb * mb * 2^e` rounded to binary64
/// (`ma, mb >= 1`): the rounded magnitude with the sign of the larger
/// operand, and `+0.0` for an exact zero.
pub open spec fn signed_sum(sa: u64, ma: nat, sb: u64, mb: nat, e: int) -> u64 {
    let va: nat = if sa == 1 {
        0x8000_0000_0000_0000
    } else {
        0
    };
    let vb: nat = if sb == 1 {
        0x8000_0000_0000_0000
    } else {
        0
    };
    if sa == sb {
        (va + rounded_magnitude(ma + mb, e)) as u64
    } else if ma == mb {
        0
    } else if ma > mb {
        (va + rounded_magnitude((ma - mb) as nat, e)) as u64
    } else {
        (vb + rounded_magnitude((mb - ma) as nat, e)) as u64
    }
}

/// Rounding a number with nonzero bits below bit `g` gives the same as
/// rounding it with only the bit just below `g` set there, when at least one
/// more bit is rounded off.
proof fn lemma_sticky(y: nat, g: nat, delta: nat, e: int)
    requires
        g >= 1,
        0 < delta < pow2(g),
        y >= pow2(54),
    ensures
        rounded_magnitude(y * pow2(g) + delta, e) == rounded_magnitude(
            (2 * y + 1) * pow2((g - 1) as nat),
            e,
        ),
{
    let pg = pow2(g) as int;
    let h = pow2((g - 1) as nat) as int;
    lemma_pow2_unfold(g);
    lemma_pow2_pos((g - 1) as nat);
    let x1 = y * pg + delta;
    let x2 = y * pg + h;
    assert((2 * y + 1) * h == y * pg + h) by (nonlinear_arith)
        requires
            pg == 2 * h,
    ;
    lemma_pow2_pos(54);
    // Both lie in [y * 2^g, (y + 1) * 2^g), so they have the same top bit.
    let t = top_bit(y);
    lemma_top_bit(y);
    lemma_pow2_adds(t, g);
    lemma_pow2_adds(t + 1, g);
    lemma_mul_inequality(pow2(t) as int, y as int, pg);
    lemma_mul_inequality(y as int + 1, pow2(t + 1) as int, pg);
    assert((y + 1) * pg == y * pg + pg) by (nonlinear_arith);
    lemma_top_bit_unique(x1 as nat, t + g);
    lemma_top_bit_unique(x2 as nat, t + g);
    if t < 54 {
        lemma_pow2_mono(t + 1, 54);
    }
    let q_exp = result_exponent(x1 as nat, e);
    assert(q_exp == result_exponent(x2 as nat, e));
    let s = (q_exp - e) as nat;
    assert(s >= g + 2);
    // Split y at bit s - g.
    let k = (s - g) as nat;
    let pk = pow2(k) as int;
    lemma_pow2_pos(k);
    let p = y as int / pk;
    let rr = y as int % pk;
    lemma_fundamental_div_mod(y as int, pk);
    lemma_pow2_adds(k, g);
    let ps = pow2(s) as int;
    assert(ps == pk * pg);
    assert(y * pg == p * ps + rr * pg) by (nonlinear_arith)
        requires
            y == pk * p + rr,
            ps == pk * pg,
    ;
    assert(rr * pg + pg <= ps) by (nonlinear_arith)
        requires
            rr + 1 <= pk,
            ps == pk * pg,
            pg > 0,
    ;
    lemma_mul_nonnegative(rr, pg);
    lemma_fundamental_div_mod_converse(x1, ps, p, rr * pg + delta);
    lemma_fundamental_div_mod_converse(x2, ps, p, rr * pg + h);
    // The rounding half, 2^(s - 1), is a multiple of 2^g.
    let hk = pow2((k - 1) as nat) as int;
    lemma_pow2_adds((k - 1) as nat, g);
    assert(pow2((s - 1) as nat) == hk * pg);
    if rr >= hk {
        lemma_mul_inequality(hk, rr, pg);
    } else {
        assert(rr * pg + pg <= hk * pg) by (nonlinear_arith)
            requires
                rr + 1 <= hk,
                pg > 0,
        ;
    }
}

/// Adds two finite nonzero numbers given by sign, significand and exponent,
/// the first with the larger exponent.
fn add_finite(sa: u64, ma: u64, xa: i64, sb: u64, mb: u64, xb: i64) -> (r: u64)
    requires
        sa <= 1,
        sb <= 1,
        1 <= ma < 0x20_0000_0000_0000,
        1 <= mb < 0x20_0000_0000_0000,
        -1074 <= xb <= xa <= 971,
        xa > -1074 ==> ma >= 0x10_0000_0000_0000,
    ensures
        r == signed_sum(sa, ma as nat * pow2((xa - xb) as nat), sb, mb as nat, xb as int),
{
    proof {
        lemma2_to64();
        lemma2_to64_rest();
    }
    let d = xa - xb;
    let sign_a: u64 = if sa == 1 { 0x8000_0000_0000_0000 } else { 0 };
    let sign_b: u64 = if sb == 1 { 0x8000_0000_0000_0000 } else { 0 };
    let ghost exact = ma * pow2(d as nat);
    if d <= 63 {
        let p = pow2_u128(d as u64);
        proof {
            lemma_pow2_mono(d as nat, 63);
            lemma_mul_strict_inequality(ma as int, 0x20_0000_0000_0000, p as int);
            lemma_pow2_adds(53, 63);
            lemma_mul_inequality(p as int, pow2(63) as int, 0x20_0000_0000_0000);
            lemma_pow2_pos(d as nat);
            lemma_mul_increases(p as int, ma as int);
        }
        let big: u128 = ma as u128 * p;
        let small: u128 = mb as u128;
        if sa == sb {
            sign_a + round_to_binary64(big + small, xb)
        } else if big == small {
            0
        } else if big > small {
            sign_a + round_to_binary64(big - small, xb)
        } else {
            sign_b + round_to_binary64(small - big, xb)
        }
    } else {
        let ghost g = (d - 3) as nat;
        proof {
            let y = ma * 8;
            lemma_pow2_adds(3, g);
            lemma_mul_is_associative(ma as int, 8, pow2(g) as int);
            lemma_pow2_mono(53, g);
            lemma_pow2_pos(g);
            lemma_sticky(y as nat, g, mb as nat, xb as int);
            lemma_sticky((y - 1) as nat, g, (pow2(g) - mb) as nat, xb as int);
            assert((y - 1) * pow2(g) + (pow2(g) - mb) == y * pow2(g) - mb) by (nonlinear_arith);
            lemma_rounded_rescale((2 * y + 1) as nat, xa - 4, (g - 1) as nat);
            lemma_rounded_rescale((2 * (y - 1) + 1) as nat, xa - 4, (g - 1) as nat);
            lemma_mul_increases(pow2(g) as int, 2);
            lemma_mul_inequality(2, y as int, pow2(g) as int);
        }
        let y16: u128 = ma as u128 * 16;
        if sa == sb {
            sign_a + round_to_binary64(y16 + 1, xa - 4)
        } else {
            sign_a + round_to_binary64(y16 - 1, xa - 4)
        }
    }
}

/// Adds two binary64 numbers as `+` on `f64` does (a NaN result is the
/// canonical quiet NaN).
pub fn float_bits_add(a: u64, b: u64) -> (r: u64)
    ensures
        r == float_add(a, b),
{
    proof {
        lemma_fields(a);
        lemma_fields(b);
        lemma2_to64();
        lemma2_to64_rest();
    }
    let ea = (a >> 52u64) & 0x7ffu64;
    let fa = a & 0xf_ffff_ffff_ffffu64;
    let eb = (b >> 52u64) & 0x7ffu64;
    let fb = b & 0xf_ffff_ffff_ffffu64;
    let sa = a >> 63u64;
    let sb = b >> 63u64;
    let a_nan = ea == 0x7ff && fa != 0;
    let b_nan = eb == 0x7ff && fb != 0;
    let a_inf = ea == 0x7ff && fa == 0;
    let b_inf = eb == 0x7ff && fb == 0;
    let a_zero = ea == 0 && fa == 0;
    let b_zero = eb == 0 && fb == 0;
    if a_nan || b_nan || (a_inf && b_inf && sa != sb) {
        return CANONICAL_NAN_BITS;
    }
    if a_inf {
        return a;
    }
    if b_inf {
        return b;
    }
    if a_zero && b_zero {
        return if sa == 1 && sb == 1 { NEG_ZERO_BITS } else { 0 };
    }
    if a_zero {
        return b;
    }
    if b_zero {
        return a;
    }
    let ma: u64 = if ea == 0 { fa } else { fa + 0x10_0000_0000_0000u64 };
    let mb: u64 = if eb == 0 { fb } else { fb + 0x10_0000_0000_0000u64 };
    let xa: i64 = if ea == 0 { 1 - 1075 } else { ea as i64 - 1075 };
    let xb: i64 = if eb == 0 { 1 - 1075 } else { eb as i64 - 1075 };
    proof {
        assert(significand(a) == ma);
        assert(significand(b) == mb);
        assert(exponent(a) == xa);
        assert(exponent(b) == xb);
    }
    if xa >= xb {
        proof {
            assert(mb as nat * pow2(0) == mb);
        }
        add_finite(sa, ma, xa, sb, mb, xb)
    } else {
        proof {
            assert(ma as nat * pow2(0) == ma);
        }
        add_finite(sb, mb, xb, sa, ma, xa)
    }
}

/// Binary64 addition of numbers that are not NaN does not depend on the
/// order of its operands.
pub proof fn lemma_add_commutative(a: u64, b: u64)
    requires
        !is_nan(a),
        !is_nan(b),
    ensures
        float_add(a, b) == float_add(b, a),
{
    if is_infinite(a) && is_infinite(b) && sign_bit(a) == sign_bit(b) {
        lemma_compose(a);
        lemma_compose(b);
    }
}

} // verus!
