//! Laws of the numeric order: rounding never turns a comparison around.
use vstd::arithmetic::div_mod::*;
use vstd::arithmetic::power2::*;
use vstd::prelude::*;

use crate::conversion::{lemma_neg_value, single_exponent, single_significand};
use crate::number::{from_sum, nearest_double, nearest_single, Real, INF, SINGLE_INF, UNIT};
use crate::rounding::{
    bit_len, in_units, lemma_bit_len_bounds, lemma_bit_len_unique, lemma_in_units_bounds,
    lemma_nearest_exact, lemma_nearest_monotone, lemma_nearest_scaled, round_half_even,
    unit_exponent,
};

verus! {

/// The exact value of a finite number rounds to the number itself.
pub proof fn lemma_size_code(a: Real)
    requires
        a.finite(),
    ensures
        nearest_double(a.size(), -1074) == a.magnitude(),
        nearest_double(a.significand(), a.exponent()) == a.magnitude(),
{
    lemma2_to64_rest();
    let m: nat = a.significand();
    let e: int = a.exponent();
    let k: nat = (e + 1074) as nat;
    lemma_nearest_scaled(m, k, e, 53, -1074, INF as nat);
    assert(e - k == -1074);
    let u: nat = pow2(52);
    assert(u == UNIT);
    let step: int = e + 1074;
    assert(step * UNIT + m == a.magnitude());
    assert(step * u == step * UNIT) by (nonlinear_arith)
        requires
            u == UNIT,
    ;
    lemma_nearest_exact(m, e, 53, -1074, INF as nat);
    assert(nearest_double(m * pow2(k), -1074) == nearest_double(m, e));
}

proof fn lemma_code_below_inf(m: nat, e: int)
    ensures
        nearest_double(m, e) <= INF,
{
}

/// A greater total rounds to a number that is not smaller.
pub proof fn lemma_sum_monotone(s: int, t: int, x: bool, y: bool)
    requires
        s <= t,
    ensures
        from_sum(s, x).rank() <= from_sum(t, y).rank(),
        !from_sum(s, x).nan(),
{
    let a: nat = (if s < 0 {
        -s
    } else {
        s
    }) as nat;
    let b: nat = (if t < 0 {
        -t
    } else {
        t
    }) as nat;
    lemma_code_below_inf(a, -1074);
    lemma_code_below_inf(b, -1074);
    if a <= b {
        lemma_nearest_monotone(a, b, -1074, 53, -1074, INF as nat);
    } else {
        lemma_nearest_monotone(b, a, -1074, 53, -1074, INF as nat);
    }
}

/// The value of a finite number, taken as a total, ranks like the number.
pub proof fn lemma_value_rank(a: Real, x: bool)
    requires
        a.finite(),
    ensures
        from_sum(a.value(), x).rank() == a.rank(),
{
    lemma_size_code(a);
}

/// Finite numbers rank in the order of their values.
pub proof fn lemma_value_order(a: Real, b: Real)
    requires
        a.finite(),
        b.finite(),
    ensures
        a.value() <= b.value() <==> a.rank() <= b.rank(),
{
    lemma_value_rank(a, false);
    lemma_value_rank(b, false);
    if a.value() <= b.value() {
        lemma_sum_monotone(a.value(), b.value(), false, false);
    } else {
        lemma_sum_monotone(b.value(), a.value(), false, false);
        if a.rank() == b.rank() {
            assert(a.magnitude() == b.magnitude());
            if a.negative() != b.negative() {
                assert(a.magnitude() == 0);
                assert(a.significand() == 0);
                assert(a.size() == 0) by (nonlinear_arith)
                    requires
                        a.size() == a.significand() * pow2((a.exponent() + 1074) as nat),
                        a.significand() == 0,
                ;
                assert(b.size() == 0);
            }
            assert(false);
        }
    }
}

/// Adding something that is not negative does not make a number smaller.
pub proof fn lemma_add_not_smaller(a: Real, s: Real)
    requires
        !a.nan(),
        !s.nan(),
        a.rank() >= 0,
        s.rank() >= 0,
    ensures
        !a.spec_add(s).nan(),
        a.rank() <= a.spec_add(s).rank(),
{
    reveal(Real::spec_add);
    if a.finite() && s.finite() {
        lemma_value_rank(a, false);
        let zero: Real = Real { bits: 0 };
        assert(zero.size() == 0) by (nonlinear_arith)
            requires
                zero.size() == zero.significand() * pow2((zero.exponent() + 1074) as nat),
                zero.significand() == 0,
        ;
        lemma_value_order(zero, s);
        lemma_sum_monotone(
            a.value(),
            a.value() + s.value(),
            false,
            a.negative() && s.negative(),
        );
        lemma_sum_monotone(
            a.value() + s.value(),
            a.value() + s.value(),
            a.negative() && s.negative(),
            false,
        );
    }
}

/// Subtracting something that is not negative does not make a number greater.
pub proof fn lemma_sub_not_greater(a: Real, s: Real)
    requires
        !a.nan(),
        s.finite(),
        s.rank() >= 0,
    ensures
        !a.spec_sub(s).nan(),
        a.spec_sub(s).rank() <= a.rank(),
{
    reveal(Real::spec_add);
    lemma_neg_value(s);
    let n: Real = s.spec_neg();
    if a.finite() {
        lemma_value_rank(a, false);
        let zero: Real = Real { bits: 0 };
        assert(zero.size() == 0) by (nonlinear_arith)
            requires
                zero.size() == zero.significand() * pow2((zero.exponent() + 1074) as nat),
                zero.significand() == 0,
        ;
        lemma_value_order(zero, s);
        lemma_sum_monotone(
            a.value() + n.value(),
            a.value(),
            a.negative() && n.negative(),
            false,
        );
    }
}

/// A number less itself is no positive number.
pub proof fn lemma_sub_self(a: Real)
    ensures
        a.spec_sub(a).nan() || a.spec_sub(a).rank() == 0,
{
    reveal(Real::spec_add);
    lemma_neg_value(a);
}

/// Sums of bounded numbers are bounded: below `2^55`, adding at most two stays
/// below `2^55`, because there the numbers are at least four apart.
pub proof fn lemma_add_bounded(a: Real, s: Real)
    requires
        !a.nan(),
        !s.nan(),
        0 <= a.rank() <= 0x4360_0000_0000_0000,
        0 <= s.rank() <= 0x4000_0000_0000_0000,
    ensures
        a.spec_add(s).rank() <= 0x4360_0000_0000_0000,
{
    reveal(Real::spec_add);
    let top: Real = Real { bits: 0x4360_0000_0000_0000 };
    let two: Real = Real { bits: 0x4000_0000_0000_0000 };
    lemma_value_order(a, top);
    lemma_value_order(s, two);
    assert(top.exponent() == 3 && top.significand() == 0x10_0000_0000_0000);
    assert(two.exponent() == -51 && two.significand() == 0x10_0000_0000_0000);
    lemma2_to64();
    lemma2_to64_rest();
    // both in units of 2^1: 2^54 and 1
    let k: nat = 1075;
    let u: nat = pow2(k);
    lemma_pow2_adds(2, k);
    lemma_pow2_adds(52, 1023);
    assert(top.size() == 0x40_0000_0000_0000 * u) by {
        assert(top.size() == 0x10_0000_0000_0000 * pow2(1077));
        assert(pow2(1077) == 4 * u);
        assert(0x10_0000_0000_0000 * (4 * u) == 0x40_0000_0000_0000 * u) by (nonlinear_arith);
    }
    assert(two.size() == u) by {
        assert(two.size() == 0x10_0000_0000_0000 * pow2(1023));
        assert(u == pow2(52) * pow2(1023));
    }
    let m: nat = 0x40_0000_0000_0001;
    let total: int = top.value() + two.value();
    assert(total == m * u);
    lemma_nearest_scaled(m, k, 1, 53, -1074, INF as nat);
    lemma_bit_len_unique(m, 55);
    assert(round_half_even(m, 4) == 0x10_0000_0000_0000);
    assert(nearest_double(m, 1) == 0x4360_0000_0000_0000);
    lemma_pow2_pos(k);
    assert(total > 0);
    lemma_sum_monotone(a.value() + s.value(), total, a.negative() && s.negative(), false);
}

proof fn lemma_single_parts(code: nat)
    requires
        code < SINGLE_INF,
    ensures
        single_significand(code) < pow2(24),
        single_exponent(code) >= -149,
        single_exponent(code) <= 104,
        single_exponent(code) > -149 ==> single_significand(code) >= pow2(23),
        (single_exponent(code) + 149) * pow2(23) + single_significand(code) == code,
{
    lemma2_to64();
}

proof fn lemma_single_codes_monotone(a: Real, b: Real)
    requires
        a.finite(),
        b.finite(),
        0 <= a.rank() <= b.rank(),
    ensures
        nearest_single(a.significand(), a.exponent()) <= nearest_single(
            b.significand(),
            b.exponent(),
        ),
{
    lemma_value_order(a, b);
    lemma_zero_rank(a);
    lemma_zero_rank(b);
    assert(a.size() <= b.size());
    lemma_nearest_scaled(
        a.significand(),
        (a.exponent() + 1074) as nat,
        a.exponent(),
        24,
        -149,
        SINGLE_INF as nat,
    );
    lemma_nearest_scaled(
        b.significand(),
        (b.exponent() + 1074) as nat,
        b.exponent(),
        24,
        -149,
        SINGLE_INF as nat,
    );
    lemma_nearest_monotone(a.size(), b.size(), -1074, 24, -149, SINGLE_INF as nat);
}

/// Rounding to single precision keeps the order of magnitudes.
#[verifier::rlimit(40)]
pub proof fn lemma_to_single_monotone(a: Real, b: Real)
    requires
        !a.nan(),
        !b.nan(),
        0 <= a.rank() <= b.rank(),
    ensures
        !a.spec_to_single().nan(),
        !b.spec_to_single().nan(),
        0 <= a.spec_to_single().rank() <= b.spec_to_single().rank(),
{
    reveal(Real::spec_to_single);
    if a.finite() {
        let ca: nat = nearest_single(a.significand(), a.exponent());
        lemma_widened_below_inf(ca);
        if b.finite() {
            let cb: nat = nearest_single(b.significand(), b.exponent());
            lemma_widened_below_inf(cb);
            lemma_single_codes_monotone(a, b);
            assert(ca <= cb);
            if cb != SINGLE_INF {
                lemma_widen_monotone(ca, cb);
            }
            if a.negative() {
                lemma_zero_single(a);
            }
            if b.negative() {
                lemma_zero_single(b);
            }
        } else if a.negative() {
            lemma_zero_single(a);
        }
    }
}

/// A number that does not rank below zero is its own size.
pub proof fn lemma_zero_rank(a: Real)
    requires
        a.finite(),
        a.rank() >= 0,
    ensures
        a.negative() ==> a.magnitude() == 0,
        a.value() == a.size(),
{
    if a.negative() {
        assert(a.size() == 0) by (nonlinear_arith)
            requires
                a.size() == a.significand() * pow2((a.exponent() + 1074) as nat),
                a.significand() == 0,
        ;
    }
}

proof fn lemma_zero_single(a: Real)
    requires
        a.finite(),
        a.magnitude() == 0,
    ensures
        nearest_single(a.significand(), a.exponent()) == 0,
        nearest_double(single_significand(0), single_exponent(0)) == 0,
{
}

proof fn lemma_widened_below_inf(code: nat)
    ensures
        nearest_double(single_significand(code), single_exponent(code)) <= INF,
{
}

proof fn lemma_widen_monotone(c: nat, d: nat)
    requires
        c <= d < SINGLE_INF,
    ensures
        nearest_double(single_significand(c), single_exponent(c)) <= nearest_double(
            single_significand(d),
            single_exponent(d),
        ),
{
    lemma_single_parts(c);
    lemma_single_parts(d);
    lemma2_to64();
    let kc: nat = (single_exponent(c) + 149) as nat;
    let kd: nat = (single_exponent(d) + 149) as nat;
    let mc: nat = single_significand(c);
    let md: nat = single_significand(d);
    lemma_nearest_scaled(mc, kc, single_exponent(c), 53, -1074, INF as nat);
    lemma_nearest_scaled(md, kd, single_exponent(d), 53, -1074, INF as nat);
    lemma_pow2_pos(kc);
    if kc == kd {
        assert(mc * pow2(kc) <= md * pow2(kd)) by (nonlinear_arith)
            requires
                mc <= md,
                kc == kd,
        ;
    } else {
        assert(kc < kd);
        let t: nat = (kd - kc - 1) as nat;
        lemma_pow2_pos(t);
        lemma_pow2_adds(kc, t);
        lemma_pow2_unfold(kd);
        assert((kd - 1) as nat == kc + t);
        assert(mc * pow2(kc) <= md * pow2(kd)) by (nonlinear_arith)
            requires
                mc < pow2(24),
                pow2(24) == 2 * pow2(23),
                md >= pow2(23),
                pow2(kd) == 2 * (pow2(kc) * pow2(t)),
                pow2(t) >= 1,
                pow2(kc) > 0,
        ;
    }
    lemma_nearest_monotone(mc * pow2(kc), md * pow2(kd), -149, 53, -1074, INF as nat);
}

/// The product of two finite numbers, from their sizes.
pub proof fn lemma_product_of_sizes(a: Real, b: Real)
    requires
        a.finite(),
        b.finite(),
    ensures
        nearest_double(a.significand() * b.significand(), a.exponent() + b.exponent())
            == nearest_double(a.size() * b.size(), -2148),
{
    let m: nat = a.significand() * b.significand();
    let i: nat = (a.exponent() + 1074) as nat;
    let j: nat = (b.exponent() + 1074) as nat;
    lemma_nearest_scaled(m, i + j, a.exponent() + b.exponent(), 53, -1074, INF as nat);
    lemma_pow2_adds(i, j);
    let p: nat = pow2(i);
    let q: nat = pow2(j);
    let x: nat = a.significand();
    let y: nat = b.significand();
    assert((x * y) * (p * q) == (x * p) * (y * q)) by (nonlinear_arith);
}

/// Greater factors that are not negative give a product that is not smaller.
pub proof fn lemma_mul_monotone(a: Real, b: Real, c: Real, d: Real)
    requires
        0 <= a.rank() <= b.rank(),
        0 <= c.rank() <= d.rank(),
        b.finite(),
        d.finite(),
    ensures
        !a.spec_mul(c).nan(),
        !b.spec_mul(d).nan(),
        0 <= a.spec_mul(c).rank() <= b.spec_mul(d).rank(),
{
    reveal(Real::spec_mul);
    lemma_value_order(a, b);
    lemma_value_order(c, d);
    lemma_zero_rank(a);
    lemma_zero_rank(b);
    lemma_zero_rank(c);
    lemma_zero_rank(d);
    lemma_product_of_sizes(a, c);
    lemma_product_of_sizes(b, d);
    let low: nat = a.size() * c.size();
    let high: nat = b.size() * d.size();
    assert(low <= high) by (nonlinear_arith)
        requires
            low == a.size() * c.size(),
            high == b.size() * d.size(),
            a.size() <= b.size(),
            c.size() <= d.size(),
    ;
    lemma_nearest_monotone(low, high, -2148, 53, -1074, INF as nat);
    lemma_code_below_inf(high, -2148);
    if a.negative() || c.negative() {
        assert(low == 0) by (nonlinear_arith)
            requires
                low == a.size() * c.size(),
                a.size() == 0 || c.size() == 0,
        ;
    }
    if b.negative() || d.negative() {
        assert(high == 0) by (nonlinear_arith)
            requires
                high == b.size() * d.size(),
                b.size() == 0 || d.size() == 0,
        ;
    }
}

/// A number times one is a number of the same size.
pub proof fn lemma_mul_one(a: Real)
    requires
        a.finite(),
    ensures
        a.spec_mul(Real::of(0x3ff0_0000_0000_0000)).rank() == a.rank(),
        a.spec_mul(Real::of(0x3ff0_0000_0000_0000)).finite(),
{
    reveal(Real::spec_mul);
    let one: Real = Real { bits: 0x3ff0_0000_0000_0000 };
    lemma2_to64();
    lemma2_to64_rest();
    lemma_size_code(a);
    assert(one.significand() == UNIT as nat);
    assert(one.exponent() == -52);
    lemma_nearest_scaled(a.significand(), 52, a.exponent(), 53, -1074, INF as nat);
}

/// Nothing plus a number is a number of the same rank.
pub proof fn lemma_zero_plus(a: Real)
    requires
        a.finite(),
    ensures
        Real::of(0).spec_add(a).rank() == a.rank(),
        !Real::of(0).spec_add(a).nan(),
{
    reveal(Real::spec_add);
    let zero: Real = Real { bits: 0 };
    assert(zero.value() == 0) by (nonlinear_arith)
        requires
            zero.value() == zero.size(),
            zero.size() == zero.significand() * pow2((zero.exponent() + 1074) as nat),
            zero.significand() == 0,
    ;
    lemma_value_rank(a, zero.negative() && a.negative());
    lemma_sum_monotone(a.value(), a.value(), false, false);
}

/// Rounding to single precision a second time changes nothing.
pub proof fn lemma_to_single_idempotent(a: Real)
    ensures
        a.spec_to_single().spec_to_single() == a.spec_to_single(),
{
    reveal(Real::spec_to_single);
    if a.finite() {
        let code: nat = nearest_single(a.significand(), a.exponent());
        if code != SINGLE_INF {
            assert(code < SINGLE_INF);
            lemma_single_parts(code);
            let m: nat = single_significand(code);
            let e: int = single_exponent(code);
            let x: Real = a.spec_to_single();
            lemma2_to64();
            lemma2_to64_rest();
            if m == 0 {
                assert(code == 0);
                assert(x.magnitude() == 0);
            } else {
                lemma_bit_len_bounds(m);
                let b: nat = bit_len(m);
                if b > 24 {
                    if 24 < b - 1 {
                        lemma_pow2_strictly_increases(24, (b - 1) as nat);
                    }
                    assert(false);
                }
                let k: nat = (53 - b) as nat;
                let c: nat = pow2(k);
                lemma_pow2_pos(k);
                lemma_pow2_adds((b - 1) as nat, k);
                lemma_pow2_adds(b, k);
                let lo: nat = pow2((b - 1) as nat);
                let hi: nat = pow2(b);
                assert(lo * c <= m * c < hi * c) by (nonlinear_arith)
                    requires
                        lo <= m < hi,
                        c > 0,
                ;
                assert((b - 1) as nat + k == 52);
                assert(b + k == 53);
                lemma_nearest_scaled(m, k, e, 53, -1074, INF as nat);
                lemma_nearest_exact(m * c, e - k, 53, -1074, INF as nat);
                assert(x.magnitude() == (e - k + 1074) * UNIT + m * c);
                assert(x.significand() == m * c);
                assert(x.exponent() == e - k);
                lemma_nearest_scaled(m, k, e, 24, -149, SINGLE_INF as nat);
                lemma_nearest_exact(m, e, 24, -149, SINGLE_INF as nat);
            }
        }
    }
}

/// In single precision too, adding something that is not negative does not
/// make a number smaller.
pub proof fn lemma_single_add_not_smaller(a: Real, s: Real)
    requires
        !a.nan(),
        !s.nan(),
        a.rank() >= 0,
        s.rank() >= 0,
        a.spec_to_single() == a,
    ensures
        !a.spec_add(s).spec_to_single().nan(),
        a.rank() <= a.spec_add(s).spec_to_single().rank(),
{
    lemma_add_not_smaller(a, s);
    lemma_to_single_monotone(a, a.spec_add(s));
}

/// In single precision sums of bounded numbers are bounded: below `2^90`,
/// adding at most `2^60` stays below `2^90`, because there the numbers are much
/// farther apart.
pub proof fn lemma_single_add_bounded(a: Real, s: Real)
    requires
        !a.nan(),
        !s.nan(),
        0 <= a.rank() <= 0x4590_0000_0000_0000,
        0 <= s.rank() <= 0x43b0_0000_0000_0000,
    ensures
        a.spec_add(s).spec_to_single().rank() <= 0x4590_0000_0000_0000,
{
    reveal(Real::spec_add);
    let top: Real = Real { bits: 0x4590_0000_0000_0000 };
    let most: Real = Real { bits: 0x43b0_0000_0000_0000 };
    let both: Real = Real { bits: 0x4590_0000_0040_0000 };
    lemma_value_order(a, top);
    lemma_value_order(s, most);
    lemma_add_not_smaller(a, s);
    assert(top.value() + most.value() == both.value()) by {
        lemma2_to64();
        lemma2_to64_rest();
        assert(top.significand() == UNIT as nat && top.exponent() == 38);
        assert(most.significand() == UNIT as nat && most.exponent() == 8);
        assert(both.significand() == UNIT as nat + 0x40_0000 && both.exponent() == 38);
        lemma_pow2_adds(30, 1082);
        let low: int = pow2(1082) as int;
        let high: int = pow2(1112) as int;
        assert(UNIT * high + UNIT * low == (UNIT + 0x40_0000) * high) by (nonlinear_arith)
            requires
                high == 0x4000_0000 * low,
        ;
    }
    lemma_sum_monotone(a.value() + s.value(), both.value(), false, false);
    lemma_value_rank(both, false);
    lemma_to_single_monotone(a.spec_add(s), both);
    assert(both.spec_to_single().rank() == 0x4590_0000_0000_0000) by {
        reveal(Real::spec_to_single);
        lemma2_to64();
        lemma2_to64_rest();
        let m: nat = UNIT as nat + 0x40_0000;
        lemma_bit_len_unique(m, 53);
        assert(both.significand() == m && both.exponent() == 38);
        lemma_fundamental_div_mod_converse(m as int, 0x2000_0000, 0x80_0000, 0x40_0000);
        let code: nat = nearest_single(m, 38);
        assert(code == 216 * 0x80_0000 + 0x80_0000);
        assert(single_significand(code) == 0x80_0000);
        assert(single_exponent(code) == 67);
        lemma_nearest_scaled(0x80_0000, 29, 67, 53, -1074, INF as nat);
        lemma_nearest_exact(UNIT as nat, 38, 53, -1074, INF as nat);
    }
}

/// The size of a number from its code.
pub proof fn lemma_size_of_code(a: Real, q: int, m: nat)
    requires
        a.finite(),
        q >= -1074,
        pow2(52) <= m <= pow2(53),
        a.magnitude() == (q + 1074) * pow2(52) + m,
    ensures
        a.size() == m * pow2((q + 1074) as nat),
{
    lemma2_to64_rest();
    lemma2_to64();
    if m == pow2(53) {
        assert(a.magnitude() == (q + 1076) * UNIT);
        assert(a.exponent() == q + 1);
        assert(a.significand() == UNIT as nat);
        lemma_pow2_unfold((q + 1075) as nat);
        let c: nat = pow2((q + 1074) as nat);
        assert(UNIT as nat * (2 * c) == m * c) by (nonlinear_arith)
            requires
                m == 2 * UNIT,
        ;
    } else {
        assert(a.exponent() == q);
        assert(a.significand() == m);
    }
}

/// A whole number of fewer than 54 binary digits is represented exactly.
pub proof fn lemma_int_exact(n: isize)
    requires
        0 < n < 0x20_0000_0000_0000,
    ensures
        Real::spec_from_int(n).finite(),
        !Real::spec_from_int(n).negative(),
        Real::spec_from_int(n).size() == n * pow2(1074),
{
    lemma2_to64_rest();
    lemma2_to64();
    let m: nat = n as nat;
    let b: nat = bit_len(m);
    lemma_bit_len_bounds(m);
    if b > 53 {
        if 53 < b - 1 {
            lemma_pow2_strictly_increases(53, (b - 1) as nat);
        }
    }
    let j: nat = (53 - b) as nat;
    let c: nat = pow2(j);
    let full: nat = m * c;
    lemma_pow2_pos(j);
    lemma_pow2_adds((b - 1) as nat, j);
    lemma_pow2_adds(b, j);
    let lo: nat = pow2((b - 1) as nat);
    let hi: nat = pow2(b);
    assert(lo * c <= full < hi * c) by (nonlinear_arith)
        requires
            full == m * c,
            lo <= m < hi,
            c > 0,
    ;
    assert((b - 1) as nat + j == 52);
    assert(b + j == 53);
    lemma_nearest_scaled(m, j, 0, 53, -1074, INF as nat);
    let high: int = 1074 - j;
    assert(high * pow2(52) == high * UNIT) by (nonlinear_arith)
        requires
            pow2(52) == UNIT,
    ;
    lemma_nearest_exact(full, -j, 53, -1074, INF as nat);
    let a: Real = Real::spec_from_int(n);
    assert(a.magnitude() == high * UNIT + full);
    lemma_size_of_code(a, -j, full);
    lemma_pow2_adds(j, (1074 - j) as nat);
    let d: nat = pow2((1074 - j) as nat);
    assert(full * d == n * (c * d)) by (nonlinear_arith)
        requires
            full == m * c,
            m == n,
    ;
}

/// What is no number spreads through sums, differences and products.
pub proof fn lemma_nan_spreads(a: Real, b: Real)
    requires
        a.nan() || b.nan(),
    ensures
        a.spec_add(b).nan(),
        a.spec_sub(b).nan(),
        a.spec_mul(b).nan(),
{
    reveal(Real::spec_add);
    reveal(Real::spec_mul);
    assert(b.spec_neg().magnitude() == b.magnitude());
}

/// Rounding to 53 binary digits changes a sum by at most one part in `2^53`, of
/// the sum or of what it is rounded to.
pub proof fn lemma_sum_error(total: nat)
    requires
        from_sum(total as int, false).finite(),
    ensures
        ({
            let value: int = from_sum(total as int, false).value();
            &&& value >= 0
            &&& pow2(53) * value <= pow2(53) * total + total
            &&& pow2(53) * value <= pow2(53) * total + value
            &&& pow2(53) * total <= pow2(53) * value + value
        }),
{
    let r: Real = from_sum(total as int, false);
    lemma2_to64();
    lemma2_to64_rest();
    if total == 0 {
        lemma_zero_rank(r);
        assert(r.size() == 0) by (nonlinear_arith)
            requires
                r.size() == r.significand() * pow2((r.exponent() + 1074) as nat),
                r.significand() == 0,
        ;
    } else {
        let q: int = unit_exponent(total, -1074, 53, -1074);
        let m: nat = in_units(total, -1074, q);
        lemma_in_units_bounds(total, -1074, 53, -1074);
        let k: nat = (q + 1074) as nat;
        let d: nat = pow2(k);
        lemma_pow2_pos(k);
        assert(r.magnitude() == k * pow2(52) + m);
        if q == -1074 {
            assert(m == total * pow2(0));
            assert(m == total);
            if m >= pow2(52) {
                lemma_size_of_code(r, q, m);
                assert(r.size() == m * 1);
            } else {
                assert(r.significand() == m);
                assert(r.exponent() == -1074);
                assert(r.size() == m * pow2(0));
            }
            assert(r.value() == total);
        } else {
            lemma_size_of_code(r, q, m);
            lemma_bit_len_bounds(total);
            assert(bit_len(total) == k + 53);
            lemma_pow2_adds(k, 52);
            assert(m == round_half_even(total, d));
            lemma_fundamental_div_mod(total as int, d as int);
            let whole: nat = total / d;
            let rest: nat = total % d;
            let size: nat = r.size();
            assert(2 * size <= 2 * total + d && 2 * total <= 2 * size + d) by (nonlinear_arith)
                requires
                    size == m * d,
                    total == d * whole + rest,
                    rest < d,
                    (m == whole && 2 * rest <= d) || (m == whole + 1 && 2 * rest >= d),
            ;
            assert(size >= 0x10_0000_0000_0000 * d) by (nonlinear_arith)
                requires
                    size == m * d,
                    m >= 0x10_0000_0000_0000,
            ;
            assert(d * 0x10_0000_0000_0000 <= total);
        }
    }
}

} // verus!
