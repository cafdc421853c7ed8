//! Turning a direction keeps it no longer than one, up to rounding.
use vstd::arithmetic::power2::*;
use vstd::prelude::*;

use crate::conversion::lemma_neg_value;
use crate::crossing::{cell_unit, lemma_large_unit};
use crate::gate::SLIVER;
use crate::geometry::{Point, HUGE, ONE, ZERO};
use crate::nearness::{
    bounding, lemma_close_product, lemma_close_sum, lemma_modest, lemma_mul_bound,
    lemma_size_scales, lemma_unit_is_nothing, reaches, size_of, within_bound,
};
use crate::number::{from_sum, Real, INF, UNIT};
use crate::ordering::{
    lemma_mul_monotone, lemma_mul_one, lemma_sum_error, lemma_sum_monotone, lemma_value_order,
    lemma_value_rank,
};
use crate::pace::{direction, strode, turned_direction};
use crate::steering::{spec_fan, spec_unit_or, stepped, turned};
use crate::unit::{
    lemma_direction_is_short, lemma_product_error, lemma_scale_is_large, lemma_side_of_short,
    lemma_size_of_zero, no_longer_than_one,
};

verus! {

/// Whether a vector is no longer than one, up to some parts in `2^53` of its
/// square.
pub open spec fn long_by(v: Point, parts: int) -> bool {
    &&& v.x.finite()
    &&& v.z.finite()
    &&& pow2(53) * (v.x.value() * v.x.value() + v.z.value() * v.z.value()) <= (pow2(53) + parts) * (
    pow2(1074) * pow2(1074))
}

/// Size of an integer.
spec fn apart(a: int, b: int) -> int {
    if a < b {
        b - a
    } else {
        a - b
    }
}

/// A coordinate that is at most two, times a share that is at most one.
proof fn lemma_turned_product(h: Real, c: Real)
    requires
        h.magnitude() <= 0x4000_0000_0000_0000,
        c.magnitude() <= ONE,
    ensures
        ({
            let r: Real = h.mul(c);
            let p: int = pow2(53) as int;
            let u: int = pow2(1074) as int;
            &&& r.finite()
            &&& r.size() <= 3 * u
            &&& p * apart(r.value() * u, h.value() * c.value()) <= 4 * (u * u)
        }),
{
    let r: Real = h.mul(c);
    let p: int = pow2(53) as int;
    let u: int = pow2(1074) as int;
    let two: Real = Real { bits: 0x4000_0000_0000_0000 };
    let one: Real = Real::of(ONE);
    let x: Real = h.abs();
    let y: Real = c.abs();
    lemma2_to64_rest();
    lemma_scale_is_large();
    assert(x.magnitude() == h.magnitude() && !x.negative());
    assert(y.magnitude() == c.magnitude() && !y.negative());
    lemma_mul_monotone(x, two, y, one);
    lemma_mul_one(two);
    assert(r.magnitude() == x.mul(y).magnitude() && r.negative() == (h.negative() != c.negative()))
        by {
        reveal(Real::spec_mul);
    }
    assert(r.finite());
    lemma_product_error(h, c);
    lemma_two_and_one();
    lemma_value_order(x, two);
    lemma_value_order(y, one);
    let a: int = r.size() as int;
    let hs: int = h.size() as int;
    let cs: int = c.size() as int;
    let s: int = hs * cs;
    assert(hs <= 2 * u && cs <= u);
    assert(s <= 2 * (u * u)) by (nonlinear_arith)
        requires
            s == hs * cs,
            0 <= hs <= 2 * u,
            0 <= cs <= u,
    ;
    assert(u >= p) by (nonlinear_arith)
        requires
            u >= p * p * p * p,
            p == 0x20_0000_0000_0000,
    ;
    assert(p * u <= u * u) by (nonlinear_arith)
        requires
            u >= p,
            p > 0,
    ;
    assert(a <= 3 * u) by (nonlinear_arith)
        requires
            p * (a * u) <= p * s + a * u + p * u,
            s <= 2 * (u * u),
            p == 0x20_0000_0000_0000,
            u >= p,
            a >= 0,
    ;
    assert(a * u <= 3 * (u * u)) by (nonlinear_arith)
        requires
            a <= 3 * u,
            u > 0,
    ;
    let hv: int = h.value();
    let cv: int = c.value();
    assert(hv * cv == s || hv * cv == -s) by (nonlinear_arith)
        requires
            s == hs * cs,
            hv == hs || hv == -hs,
            cv == cs || cv == -cs,
    ;
    if h.negative() == c.negative() {
        assert(hv * cv == s) by (nonlinear_arith)
            requires
                s == hs * cs,
                (hv == hs && cv == cs) || (hv == -hs && cv == -cs),
        ;
    } else {
        assert(hv * cv == -s) by (nonlinear_arith)
            requires
                s == hs * cs,
                (hv == hs && cv == -cs) || (hv == -hs && cv == cs),
        ;
        assert((-a) * u == -(a * u)) by (nonlinear_arith);
    }
    assert(p * apart(a * u, s) <= a * u + p * u) by (nonlinear_arith)
        requires
            p * (a * u) <= p * s + a * u + p * u,
            p * s <= p * (a * u) + a * u + p * u,
            apart(a * u, s) == a * u - s || apart(a * u, s) == s - a * u,
    ;
}

proof fn lemma_two_and_one()
    ensures
        Real::of(ONE).value() == pow2(1074),
        Real::of(0x4000_0000_0000_0000).value() == 2 * pow2(1074),
        Real::of(0x4020_0000_0000_0000).value() == 8 * pow2(1074),
{
    lemma2_to64();
    lemma2_to64_rest();
    let one: Real = Real::of(ONE);
    let two: Real = Real { bits: 0x4000_0000_0000_0000 };
    let eight: Real = Real { bits: 0x4020_0000_0000_0000 };
    assert(one.significand() == UNIT as nat && one.exponent() == -52);
    assert(two.significand() == UNIT as nat && two.exponent() == -51);
    assert(eight.significand() == UNIT as nat && eight.exponent() == -49);
    lemma_pow2_adds(52, 1022);
    lemma_pow2_adds(52, 1023);
    lemma_pow2_adds(52, 1025);
    lemma_pow2_adds(1, 1074);
    lemma_pow2_adds(3, 1074);
}

/// A sum of two numbers of ordinary size, with its error.
proof fn lemma_turned_sum(a: Real, b: Real)
    requires
        a.finite(),
        b.finite(),
        a.size() <= 3 * pow2(1074),
        b.size() <= 3 * pow2(1074),
    ensures
        a.add(b).finite(),
        pow2(53) * apart(a.add(b).value(), a.value() + b.value()) <= 7 * pow2(1074),
{
    reveal(Real::spec_add);
    let r: Real = a.add(b);
    let p: int = pow2(53) as int;
    let u: int = pow2(1074) as int;
    lemma2_to64_rest();
    lemma_pow2_pos(1074);
    let total: int = a.value() + b.value();
    let t: nat = (if total < 0 {
        -total
    } else {
        total
    }) as nat;
    let eight: Real = Real { bits: 0x4020_0000_0000_0000 };
    lemma_two_and_one();
    lemma_sum_monotone(t as int, eight.value(), false, false);
    lemma_value_rank(eight, false);
    lemma_sum_monotone(0, t as int, false, false);
    let x: Real = from_sum(t as int, false);
    assert(x.finite());
    lemma_sum_error(t);
    if total == 0 {
        assert(r.magnitude() == 0);
        lemma_size_of_zero(r);
    } else {
        assert(r.magnitude() == x.magnitude());
        assert(r.negative() == (total < 0));
        assert(r.size() == x.size());
    }
    let v: int = x.value();
    assert(v <= 7 * u) by (nonlinear_arith)
        requires
            p * v <= p * t + v,
            t <= 6 * u,
            p == 0x20_0000_0000_0000,
            u > 0,
    ;
    assert(p * apart(v, t as int) <= v) by (nonlinear_arith)
        requires
            p * v <= p * t + v,
            p * t <= p * v + v,
            apart(v, t as int) == v - t || apart(v, t as int) == t - v,
    ;
}

/// The square of a coordinate that is off by little.
proof fn lemma_square_off(p: int, u: int, x: int, e: int)
    requires
        p == 0x20_0000_0000_0000,
        u > 0,
        p * apart(x * u, e) <= 15 * (u * u),
        -4 * (u * u) <= e <= 4 * (u * u),
    ensures
        (p * p) * ((x * x) * (u * u)) <= (p * p) * (e * e) + (120 * p + 225) * ((u * u) * (u * u)),
{
    let y: int = x * u;
    let w: int = u * u;
    assert(w > 0) by (nonlinear_arith)
        requires
            w == u * u,
            u > 0,
    ;
    let a: int = if e < 0 {
        -e
    } else {
        e
    };
    let b: int = if y < 0 {
        -y
    } else {
        y
    };
    assert(b <= a + apart(y, e));
    assert(p * b <= p * a + 15 * w) by (nonlinear_arith)
        requires
            b <= a + apart(y, e),
            p * apart(y, e) <= 15 * w,
            p > 0,
    ;
    let l: int = p * b;
    let r: int = p * a + 15 * w;
    assert(l >= 0) by (nonlinear_arith)
        requires
            l == p * b,
            p > 0,
            b >= 0,
    ;
    assert(l * l <= r * r) by (nonlinear_arith)
        requires
            0 <= l <= r,
    ;
    assert(l * l == (p * p) * (b * b)) by (nonlinear_arith)
        requires
            l == p * b,
    ;
    assert(b * b == (x * x) * w) by (nonlinear_arith)
        requires
            b == y || b == -y,
            y == x * u,
            w == u * u,
    ;
    assert(r * r == (p * p) * (a * a) + 30 * (p * (a * w)) + 225 * (w * w)) by (nonlinear_arith)
        requires
            r == p * a + 15 * w,
    ;
    assert(a * a == e * e) by (nonlinear_arith)
        requires
            a == e || a == -e,
    ;
    assert(p * (a * w) <= 4 * (p * (w * w))) by (nonlinear_arith)
        requires
            0 <= a <= 4 * w,
            w > 0,
            p > 0,
    ;
    assert((120 * p + 225) * (w * w) == 120 * (p * (w * w)) + 225 * (w * w)) by (nonlinear_arith);
}

/// Lengths before and after turning.
proof fn lemma_turn_bound(p: int, u: int, h: int, g: int, c: int, s: int, x: int, z: int)
    requires
        p == 0x20_0000_0000_0000,
        u > 0,
        -2 * u <= h <= 2 * u,
        -2 * u <= g <= 2 * u,
        -u <= c <= u,
        -u <= s <= u,
        p * (h * h + g * g) <= (p + 16) * (u * u),
        p * (c * c + s * s) <= (p + 4) * (u * u),
        p * apart(x * u, h * c - g * s) <= 15 * (u * u),
        p * apart(z * u, h * s + g * c) <= 15 * (u * u),
    ensures
        p * (x * x + z * z) <= (p + 261) * (u * u),
{
    let w: int = u * u;
    let e: int = h * c - g * s;
    let f: int = h * s + g * c;
    assert(w > 0) by (nonlinear_arith)
        requires
            w == u * u,
            u > 0,
    ;
    lemma_bounded_product(h, c, u);
    lemma_bounded_product(g, s, u);
    lemma_bounded_product(h, s, u);
    lemma_bounded_product(g, c, u);
    lemma_square_off(p, u, x, e);
    lemma_square_off(p, u, z, f);
    let n: int = h * h + g * g;
    let m: int = c * c + s * s;
    let hc: int = h * c;
    let gs: int = g * s;
    let hs: int = h * s;
    let gc: int = g * c;
    assert(e * e == hc * hc - 2 * (hc * gs) + gs * gs) by (nonlinear_arith)
        requires
            e == hc - gs,
    ;
    assert(f * f == hs * hs + 2 * (hs * gc) + gc * gc) by (nonlinear_arith)
        requires
            f == hs + gc,
    ;
    assert(hc * gs == hs * gc) by (nonlinear_arith)
        requires
            hc == h * c,
            gs == g * s,
            hs == h * s,
            gc == g * c,
    ;
    assert(hc * hc + hs * hs == (h * h) * m) by (nonlinear_arith)
        requires
            hc == h * c,
            hs == h * s,
            m == c * c + s * s,
    ;
    assert(gs * gs + gc * gc == (g * g) * m) by (nonlinear_arith)
        requires
            gs == g * s,
            gc == g * c,
            m == c * c + s * s,
    ;
    assert((h * h) * m + (g * g) * m == n * m) by (nonlinear_arith)
        requires
            n == h * h + g * g,
    ;
    assert(n >= 0) by (nonlinear_arith)
        requires
            n == h * h + g * g,
    ;
    assert(m >= 0) by (nonlinear_arith)
        requires
            m == c * c + s * s,
    ;
    assert(p * n >= 0 && p * m >= 0) by (nonlinear_arith)
        requires
            n >= 0,
            m >= 0,
            p > 0,
    ;
    assert((p * n) * (p * m) <= ((p + 16) * w) * ((p + 4) * w)) by (nonlinear_arith)
        requires
            0 <= p * n <= (p + 16) * w,
            0 <= p * m <= (p + 4) * w,
    ;
    assert((p * n) * (p * m) == (p * p) * (n * m)) by (nonlinear_arith);
    let ww: int = w * w;
    assert(((p + 16) * w) * ((p + 4) * w) == (p * p + 20 * p + 64) * ww) by (nonlinear_arith)
        requires
            ww == w * w,
    ;
    let both: int = x * x + z * z;
    assert((p * p) * (both * w) == (p * p) * ((x * x) * w) + (p * p) * ((z * z) * w))
        by (nonlinear_arith)
        requires
            both == x * x + z * z,
    ;
    assert((p * p) * (e * e) + (p * p) * (f * f) == (p * p) * (e * e + f * f)) by (nonlinear_arith);
    assert((p * p) * (both * w) <= (p * p + 20 * p + 64) * ww + 2 * ((120 * p + 225) * ww));
    assert(ww > 0) by (nonlinear_arith)
        requires
            ww == w * w,
            w > 0,
    ;
    assert((p * p + 20 * p + 64) * ww + 2 * ((120 * p + 225) * ww) <= (p * (p + 261)) * ww)
        by (nonlinear_arith)
        requires
            p == 0x20_0000_0000_0000,
            ww > 0,
    ;
    assert((p * p) * (both * w) == (p * w) * (p * both)) by (nonlinear_arith);
    assert((p * (p + 261)) * ww == (p * w) * ((p + 261) * w)) by (nonlinear_arith)
        requires
            ww == w * w,
    ;
    assert(p * w > 0) by (nonlinear_arith)
        requires
            p > 0,
            w > 0,
    ;
    let k: int = p * w;
    assert(p * both <= (p + 261) * w) by (nonlinear_arith)
        requires
            k * (p * both) <= k * ((p + 261) * w),
            k > 0,
    ;
}

proof fn lemma_bounded_product(a: int, b: int, u: int)
    requires
        -2 * u <= a <= 2 * u,
        -u <= b <= u,
        u > 0,
    ensures
        -2 * (u * u) <= a * b <= 2 * (u * u),
{
    assert(-2 * (u * u) <= a * b <= 2 * (u * u)) by (nonlinear_arith)
        requires
            -2 * u <= a <= 2 * u,
            -u <= b <= u,
            u > 0,
    ;
}

/// The sine and cosine of an angle, given in units of `2^-106`.
proof fn lemma_turn_of(sin: Real, cos: Real, a: nat, b: nat)
    requires
        sin.finite(),
        cos.finite(),
        sin.size() == a * pow2(968),
        cos.size() == b * pow2(968),
        0x20_0000_0000_0000 * (a * a + b * b) <= 0x20_0000_0000_0004 * (pow2(106) * pow2(106)),
    ensures
        is_turn(sin, cos),
{
    lemma2_to64_rest();
    let c: nat = pow2(968);
    let k: nat = pow2(106);
    let u: nat = pow2(1074);
    lemma_pow2_adds(106, 968);
    let x: int = sin.value();
    let y: int = cos.value();
    assert(x * x + y * y == (a * a + b * b) * (c * c)) by (nonlinear_arith)
        requires
            x == a * c || x == -(a * c),
            y == b * c || y == -(b * c),
    ;
    assert(u * u == (k * k) * (c * c)) by (nonlinear_arith)
        requires
            u == k * c,
    ;
    let n: int = (a * a + b * b) as int;
    let m: int = (k * k) as int;
    let cc: int = (c * c) as int;
    assert(0x20_0000_0000_0000 * (n * cc) <= 0x20_0000_0000_0004 * (m * cc)) by (nonlinear_arith)
        requires
            0x20_0000_0000_0000 * n <= 0x20_0000_0000_0004 * m,
            cc >= 0,
    ;
}

/// Whether two numbers are the sine and cosine of some angle, up to rounding.
pub open spec fn is_turn(sin: Real, cos: Real) -> bool {
    &&& sin.finite()
    &&& cos.finite()
    &&& pow2(53) * (cos.value() * cos.value() + sin.value() * sin.value()) <= (pow2(53) + 4) * (
    pow2(1074) * pow2(1074))
}

/// The size of a number given in units of `2^-106`.
proof fn lemma_in_small_units(r: Real, sig: nat, shift: nat)
    requires
        r.finite(),
        r.significand() == sig,
        r.exponent() == shift - 106,
    ensures
        r.size() == (sig * pow2(shift)) * pow2(968),
{
    lemma_pow2_adds(shift, 968);
    let a: nat = pow2(shift);
    let b: nat = pow2(968);
    assert(sig * (a * b) == (sig * a) * b) by (nonlinear_arith);
}

proof fn lemma_small_powers()
    ensures
        pow2(0) == 1,
        pow2(52) == 0x10_0000_0000_0000,
        pow2(53) == 0x20_0000_0000_0000,
        pow2(54) == 0x40_0000_0000_0000,
        pow2(106) == 0x20_0000_0000_0000 * 0x20_0000_0000_0000,
{
    lemma2_to64();
    lemma2_to64_rest();
    lemma_pow2_adds(53, 53);
}

proof fn lemma_turn_half(sin: Real, cos: Real)
    requires
        sin.magnitude() == 0x3fde_aee8_744b_05f0,
        cos.magnitude() == 0x3fec_1528_065b_7d50,
    ensures
        is_turn(sin, cos),
{
    lemma_small_powers();
    lemma_in_small_units(sin, 0x1e_aee8_744b_05f0, 52);
    lemma_in_small_units(cos, 0x1c_1528_065b_7d50, 53);
    let a: nat = 0x1e_aee8_744b_05f0 * pow2(52);
    let b: nat = 0x1c_1528_065b_7d50 * pow2(53);
    assert(0x20_0000_0000_0000 * (a * a + b * b) <= 0x20_0000_0000_0004 * (pow2(106) * pow2(106)))
        by (nonlinear_arith)
        requires
            a == 0x1ea_ee87_44b0_5f00_0000_0000_0000,
            b == 0x382_a500_cb6f_aa00_0000_0000_0000,
            pow2(106) == 0x20_0000_0000_0000 * 0x20_0000_0000_0000,
    ;
    lemma_turn_of(sin, cos, a, b);
}

proof fn lemma_turn_one(sin: Real, cos: Real)
    requires
        sin.magnitude() == 0x3fea_ed54_8f09_0cee,
        cos.magnitude() == 0x3fe1_4a28_0fb5_068c,
    ensures
        is_turn(sin, cos),
{
    lemma_small_powers();
    lemma_in_small_units(sin, 0x1a_ed54_8f09_0cee, 53);
    lemma_in_small_units(cos, 0x11_4a28_0fb5_068c, 53);
    let a: nat = 0x1a_ed54_8f09_0cee * pow2(53);
    let b: nat = 0x11_4a28_0fb5_068c * pow2(53);
    assert(0x20_0000_0000_0000 * (a * a + b * b) <= 0x20_0000_0000_0004 * (pow2(106) * pow2(106)))
        by (nonlinear_arith)
        requires
            a == 0x35d_aa91_e121_9dc0_0000_0000_0000,
            b == 0x229_4501_f6a0_d180_0000_0000_0000,
            pow2(106) == 0x20_0000_0000_0000 * 0x20_0000_0000_0000,
    ;
    lemma_turn_of(sin, cos, a, b);
}

proof fn lemma_turn_steep(sin: Real, cos: Real)
    requires
        sin.magnitude() == 0x3fee_d577_f9c5_1e4b,
        cos.magnitude() == 0x3fd1_1eb3_682a_4c5f,
    ensures
        is_turn(sin, cos),
{
    lemma_small_powers();
    lemma_in_small_units(sin, 0x1e_d577_f9c5_1e4b, 53);
    lemma_in_small_units(cos, 0x11_1eb3_682a_4c5f, 52);
    let a: nat = 0x1e_d577_f9c5_1e4b * pow2(53);
    let b: nat = 0x11_1eb3_682a_4c5f * pow2(52);
    assert(0x20_0000_0000_0000 * (a * a + b * b) <= 0x20_0000_0000_0004 * (pow2(106) * pow2(106)))
        by (nonlinear_arith)
        requires
            a == 0x3da_aeff_38a3_c960_0000_0000_0000,
            b == 0x111_eb36_82a4_c5f0_0000_0000_0000,
            pow2(106) == 0x20_0000_0000_0000 * 0x20_0000_0000_0000,
    ;
    lemma_turn_of(sin, cos, a, b);
}

proof fn lemma_turn_right(sin: Real, cos: Real)
    requires
        sin.magnitude() == 0x3ff0_0000_0000_0000,
        cos.magnitude() == 0x3c91_a626_3314_5c07,
    ensures
        is_turn(sin, cos),
{
    lemma_small_powers();
    lemma_in_small_units(sin, 0x10_0000_0000_0000, 54);
    lemma_in_small_units(cos, 0x11_a626_3314_5c07, 0);
    let a: nat = 0x10_0000_0000_0000 * pow2(54);
    let b: nat = 0x11_a626_3314_5c07 * pow2(0);
    assert(0x20_0000_0000_0000 * (a * a + b * b) <= 0x20_0000_0000_0004 * (pow2(106) * pow2(106)))
        by (nonlinear_arith)
        requires
            a == 0x400_0000_0000_0000_0000_0000_0000,
            b == 0x11_a626_3314_5c07,
            pow2(106) == 0x20_0000_0000_0000 * 0x20_0000_0000_0000,
    ;
    lemma_turn_of(sin, cos, a, b);
}

proof fn lemma_turn_back(sin: Real, cos: Real)
    requires
        sin.magnitude() == 0x3fee_4817_1f1a_3857,
        cos.magnitude() == 0x3fd4_b0c6_b934_45ab,
    ensures
        is_turn(sin, cos),
{
    lemma_small_powers();
    lemma_in_small_units(sin, 0x1e_4817_1f1a_3857, 53);
    lemma_in_small_units(cos, 0x14_b0c6_b934_45ab, 52);
    let a: nat = 0x1e_4817_1f1a_3857 * pow2(53);
    let b: nat = 0x14_b0c6_b934_45ab * pow2(52);
    assert(0x20_0000_0000_0000 * (a * a + b * b) <= 0x20_0000_0000_0004 * (pow2(106) * pow2(106)))
        by (nonlinear_arith)
        requires
            a == 0x3c9_02e3_e347_0ae0_0000_0000_0000,
            b == 0x14b_0c6b_9344_5ab0_0000_0000_0000,
            pow2(106) == 0x20_0000_0000_0000 * 0x20_0000_0000_0000,
    ;
    lemma_turn_of(sin, cos, a, b);
}

proof fn lemma_turn_far(sin: Real, cos: Real)
    requires
        sin.magnitude() == 0x3fe9_df33_d9aa_d708,
        cos.magnitude() == 0x3fe2_d500_4b88_ad70,
    ensures
        is_turn(sin, cos),
{
    lemma_small_powers();
    lemma_in_small_units(sin, 0x19_df33_d9aa_d708, 53);
    lemma_in_small_units(cos, 0x12_d500_4b88_ad70, 53);
    let a: nat = 0x19_df33_d9aa_d708 * pow2(53);
    let b: nat = 0x12_d500_4b88_ad70 * pow2(53);
    assert(0x20_0000_0000_0000 * (a * a + b * b) <= 0x20_0000_0000_0004 * (pow2(106) * pow2(106)))
        by (nonlinear_arith)
        requires
            a == 0x33b_e67b_355a_e100_0000_0000_0000,
            b == 0x25a_a009_7115_ae00_0000_0000_0000,
            pow2(106) == 0x20_0000_0000_0000 * 0x20_0000_0000_0000,
    ;
    lemma_turn_of(sin, cos, a, b);
}

/// The angles of the escape fan.
proof fn lemma_fan_turns(k: usize)
    ensures
        is_turn(spec_fan(k).0, spec_fan(k).1),
        spec_fan(k).0.magnitude() <= ONE,
        spec_fan(k).1.magnitude() <= ONE,
{
    let (sin, cos): (Real, Real) = spec_fan(k);
    if k == 0 {
        lemma_small_powers();
        lemma_size_of_zero(sin);
        lemma_two_and_one();
        let u: int = pow2(1074) as int;
        assert(0x20_0000_0000_0000 * (u * u + 0 * 0) <= 0x20_0000_0000_0004 * (u * u))
            by (nonlinear_arith);
    } else if k <= 2 {
        lemma_turn_half(sin, cos);
    } else if k <= 4 {
        lemma_turn_one(sin, cos);
    } else if k <= 6 {
        lemma_turn_steep(sin, cos);
    } else if k <= 8 {
        lemma_turn_right(sin, cos);
    } else if k <= 10 {
        lemma_turn_back(sin, cos);
    } else {
        lemma_turn_far(sin, cos);
    }
}

/// Turning a direction by an angle keeps it no longer than one.
proof fn lemma_turned_is_short(heading: Point, sin: Real, cos: Real)
    requires
        no_longer_than_one(heading),
        is_turn(sin, cos),
        sin.magnitude() <= ONE,
        cos.magnitude() <= ONE,
    ensures
        long_by(
            Point {
                x: heading.x.mul(cos).sub(heading.z.mul(sin)),
                z: heading.x.mul(sin).add(heading.z.mul(cos)),
            },
            261,
        ),
{
    let p: int = pow2(53) as int;
    let u: int = pow2(1074) as int;
    lemma_small_powers();
    lemma_pow2_pos(1074);
    lemma_side_of_short(heading);
    let h: Real = heading.x;
    let g: Real = heading.z;
    lemma_turned_product(h, cos);
    lemma_turned_product(g, sin);
    lemma_turned_product(h, sin);
    lemma_turned_product(g, cos);
    let hc: Real = h.mul(cos);
    let gs: Real = g.mul(sin);
    let hs: Real = h.mul(sin);
    let gc: Real = g.mul(cos);
    lemma_neg_value(gs);
    assert(gs.neg().magnitude() == gs.magnitude());
    assert(gs.neg().size() == gs.size());
    lemma_turned_sum(hc, gs.neg());
    lemma_turned_sum(hs, gc);
    let x: Real = hc.sub(gs);
    let z: Real = hs.add(gc);
    assert(x == hc.add(gs.neg()));
    lemma_two_and_one();
    lemma_side_sizes(h, 0x4000_0000_0000_0000);
    lemma_side_sizes(g, 0x4000_0000_0000_0000);
    lemma_side_sizes(sin, ONE);
    lemma_side_sizes(cos, ONE);
    let gv: int = gs.value();
    assert((-gv) * u == -(gv * u)) by (nonlinear_arith);
    lemma_errors_add(
        p,
        u,
        x.value(),
        hc.value(),
        -gs.value(),
        h.value() * cos.value(),
        -(g.value() * sin.value()),
    );
    lemma_errors_add(
        p,
        u,
        z.value(),
        hs.value(),
        gc.value(),
        h.value() * sin.value(),
        g.value() * cos.value(),
    );
    lemma_turn_bound(
        p,
        u,
        h.value(),
        g.value(),
        cos.value(),
        sin.value(),
        x.value(),
        z.value(),
    );
}

proof fn lemma_side_sizes(r: Real, bits: u64)
    requires
        r.magnitude() <= bits,
        bits < INF,
    ensures
        -Real::of(bits).value() <= r.value() <= Real::of(bits).value(),
{
    let a: Real = r.abs();
    assert(a.magnitude() == r.magnitude() && !a.negative());
    assert(a.size() == r.size());
    lemma_value_order(a, Real::of(bits));
}

/// The errors of two products and of their sum, together.
proof fn lemma_errors_add(p: int, u: int, x: int, a: int, b: int, e: int, f: int)
    requires
        p > 0,
        u > 0,
        p * apart(x, a + b) <= 7 * u,
        p * apart(a * u, e) <= 4 * (u * u),
        p * apart(b * u, f) <= 4 * (u * u),
    ensures
        p * apart(x * u, e + f) <= 15 * (u * u),
{
    let d: int = apart(x, a + b);
    assert(p * (d * u) <= 7 * (u * u)) by (nonlinear_arith)
        requires
            p * d <= 7 * u,
            u > 0,
    ;
    assert(apart(x * u, (a + b) * u) == d * u) by (nonlinear_arith)
        requires
            (d == x - (a + b) && x >= a + b) || (d == (a + b) - x && x < a + b),
            apart(x * u, (a + b) * u) == if x * u < (a + b) * u {
                (a + b) * u - x * u
            } else {
                x * u - (a + b) * u
            },
            u > 0,
    ;
    assert((a + b) * u == a * u + b * u) by (nonlinear_arith);
    let i: int = apart(a * u, e);
    let j: int = apart(b * u, f);
    assert(apart(x * u, e + f) <= d * u + i + j);
    assert(p * apart(x * u, e + f) <= p * (d * u) + p * i + p * j) by (nonlinear_arith)
        requires
            apart(x * u, e + f) <= d * u + i + j,
            p > 0,
    ;
}

/// A heading of a stride is no longer than one, up to rounding: a direction, or
/// one turned by an angle of the escape fan, of a vector of ordinary length.
pub proof fn lemma_heading_is_short(v: Point, k: usize)
    requires
        v.x.magnitude() < HUGE,
        v.z.magnitude() < HUGE,
    ensures
        Real::of(SLIVER).lt(v.x.hypot(v.z)) ==> no_longer_than_one(direction(v)),
        long_by(turned_direction(v, k), 261),
{
    let ahead: Point = Point { x: Real::of(ONE), z: Real::of(ZERO) };
    if Real::of(SLIVER).lt(v.x.hypot(v.z)) {
        lemma_direction_is_short(v.x, v.z);
    }
    lemma_side_is_short();
    lemma_fan_turns(k);
    lemma_turned_is_short(spec_unit_or(v, ahead), spec_fan(k).0, spec_fan(k).1);
}

proof fn lemma_side_is_short()
    ensures
        no_longer_than_one(Point { x: Real::of(ONE), z: Real::of(ZERO) }),
{
    lemma_two_and_one();
    lemma_small_powers();
    lemma_size_of_zero(Real::of(ZERO));
    let u: int = pow2(1074) as int;
    assert(0x20_0000_0000_0000 * (u * u + 0 * 0) <= 0x20_0000_0000_0010 * (u * u))
        by (nonlinear_arith);
}

/// A coordinate of a vector that is no longer than one is at most two.
proof fn lemma_coordinate_is_small(x: int, z: int, u: int, parts: int)
    requires
        u > 0,
        0 <= parts <= 0x20_0000_0000_0000,
        0x20_0000_0000_0000 * (x * x + z * z) <= (0x20_0000_0000_0000 + parts) * (u * u),
    ensures
        size_of(x) <= 2 * u,
        size_of(z) <= 2 * u,
{
    let uu: int = u * u;
    assert(uu > 0) by (nonlinear_arith)
        requires
            uu == u * u,
            u > 0,
    ;
    assert((0x20_0000_0000_0000 + parts) * uu <= 0x40_0000_0000_0000 * uu) by (nonlinear_arith)
        requires
            parts <= 0x20_0000_0000_0000,
            uu > 0,
    ;
    assert(x * x >= 0 && z * z >= 0) by (nonlinear_arith);
    assert(x * x <= 2 * uu && z * z <= 2 * uu);
    assert(-(2 * u) <= x <= 2 * u) by (nonlinear_arith)
        requires
            x * x <= 2 * (u * u),
            u > 0,
    ;
    assert(-(2 * u) <= z <= 2 * u) by (nonlinear_arith)
        requires
            z * z <= 2 * (u * u),
            u > 0,
    ;
}

/// How far a step leads along one axis: the coordinate of its heading by its length,
/// up to a sliver.
pub proof fn lemma_step_along(from: Real, heading: Real, step: Real, most: int)
    requires
        bounding(most),
        reaches(from, most),
        heading.finite(),
        size_of(heading.value()) <= 2 * cell_unit(),
        reaches(step, most),
    ensures
        ({
            let to: Real = from.add(heading.mul(step));
            let u: int = cell_unit();
            let d: int = (to.value() - from.value()) * u;
            let a: int = heading.value() * step.value();
            &&& to.finite()
            &&& 0x20_0000_0000_0000 * size_of(d - a) <= 8 * (most * u)
            &&& size_of(a) <= 2 * (most * u)
        }),
{
    let u: int = cell_unit();
    let h: int = heading.value();
    let s: int = step.value();
    let m: Real = heading.mul(step);
    let to: Real = from.add(m);
    let v: int = m.value();
    let mu: int = most * u;
    lemma_unit_is_nothing(most);
    lemma_large_unit();
    lemma_modest(from, most);
    lemma_modest(step, most);
    assert(size_of(h) <= 8 * most);
    lemma_modest(heading, most);
    lemma_close_product(heading, step);
    lemma_mul_bound(h, s, 2 * u, most);
    assert((2 * u) * most == 2 * mu) by (nonlinear_arith)
        requires
            mu == most * u,
    ;
    lemma_size_scales(v, u);
    assert(mu > 0) by (nonlinear_arith)
        requires
            mu == most * u,
            most > 0,
            u > 0,
    ;
    assert(0x20_0000_0000_0000 * u <= mu);
    let vu: int = v * u;
    assert(size_of(vu) <= size_of(h * s) + size_of(vu - h * s));
    assert(size_of(vu) <= 3 * mu);
    assert(size_of(v) <= 3 * most) by (nonlinear_arith)
        requires
            size_of(v) * u <= 3 * (most * u),
            u > 0,
    ;
    lemma_modest(m, most);
    lemma_close_sum(from, m);
    let t: int = from.value() + v;
    let e: int = to.value() - t;
    assert(0x20_0000_0000_0000 * size_of(e) <= 4 * most);
    lemma_size_scales(e, u);
    let eu: int = e * u;
    assert(0x20_0000_0000_0000 * size_of(eu) <= 4 * mu) by (nonlinear_arith)
        requires
            0x20_0000_0000_0000 * size_of(e) <= 4 * most,
            size_of(e) * u == size_of(eu),
            mu == most * u,
            u > 0,
    ;
    let d: int = (to.value() - from.value()) * u;
    assert(d == vu + eu) by (nonlinear_arith)
        requires
            d == (to.value() - from.value()) * u,
            vu == v * u,
            eu == e * u,
            e == to.value() - (from.value() + v),
    ;
    assert(0x20_0000_0000_0000 * size_of(vu - h * s) <= 4 * mu);
    assert(size_of(d - h * s) <= size_of(vu - h * s) + size_of(eu));
}

/// The square of a length that differs by a sliver.
proof fn lemma_square_close(d: int, a: int, mu: int)
    requires
        mu > 0,
        size_of(a) <= 2 * mu,
        0x20_0000_0000_0000 * size_of(d - a) <= 8 * mu,
    ensures
        0x20_0000_0000_0000 * (d * d - a * a) <= 40 * (mu * mu),
{
    let e: int = d - a;
    assert(size_of(d + a) <= 5 * mu);
    lemma_mul_bound(0x20_0000_0000_0000 * e, d + a, 8 * mu, 5 * mu);
    assert((0x20_0000_0000_0000 * e) * (d + a) == 0x20_0000_0000_0000 * (d * d - a * a))
        by (nonlinear_arith)
        requires
            e == d - a,
    ;
    assert((8 * mu) * (5 * mu) == 40 * (mu * mu)) by (nonlinear_arith);
}

/// Whether two points are no farther apart than a length, up to 512 parts in `2^53` of
/// the square of a bound.
pub open spec fn no_farther_apart(from: Point, to: Point, length: Real, most: int) -> bool {
    let dx: int = to.x.value() - from.x.value();
    let dz: int = to.z.value() - from.z.value();
    &&& to.x.finite()
    &&& to.z.finite()
    &&& 0x20_0000_0000_0000 * (dx * dx + dz * dz - length.value() * length.value()) <= 512 * (most
        * most)
}

proof fn lemma_stride_ints(u: int, most: int, hx: int, hz: int, s: int, dx: int, dz: int, parts: int)
    requires
        u > 0,
        most > 0,
        0 <= s <= most,
        0 <= parts <= 261,
        0x20_0000_0000_0000 * (hx * hx + hz * hz) <= (0x20_0000_0000_0000 + parts) * (u * u),
        0x20_0000_0000_0000 * ((dx * u) * (dx * u) - (hx * s) * (hx * s)) <= 40 * ((most * u) * (most
            * u)),
        0x20_0000_0000_0000 * ((dz * u) * (dz * u) - (hz * s) * (hz * s)) <= 40 * ((most * u) * (most
            * u)),
    ensures
        0x20_0000_0000_0000 * (dx * dx + dz * dz - s * s) <= 512 * (most * most),
{
    let uu: int = u * u;
    let ss: int = s * s;
    let mm: int = most * most;
    let p: int = 0x20_0000_0000_0000;
    let hh: int = hx * hx + hz * hz;
    assert(uu > 0 && 0 <= ss <= mm) by (nonlinear_arith)
        requires
            uu == u * u,
            ss == s * s,
            mm == most * most,
            u > 0,
            0 <= s <= most,
    ;
    assert((most * u) * (most * u) == mm * uu) by (nonlinear_arith)
        requires
            uu == u * u,
            mm == most * most,
    ;
    assert((dx * u) * (dx * u) == (dx * dx) * uu && (dz * u) * (dz * u) == (dz * dz) * uu)
        by (nonlinear_arith)
        requires
            uu == u * u,
    ;
    assert((hx * s) * (hx * s) + (hz * s) * (hz * s) == hh * ss) by (nonlinear_arith)
        requires
            ss == s * s,
            hh == hx * hx + hz * hz,
    ;
    let k: int = p * hh;
    assert(k * ss <= ((p + parts) * uu) * ss) by (nonlinear_arith)
        requires
            k <= (p + parts) * uu,
            ss >= 0,
    ;
    assert(k * ss == p * (hh * ss)) by (nonlinear_arith)
        requires
            k == p * hh,
    ;
    let us: int = ss * uu;
    assert(((p + parts) * uu) * ss == p * us + parts * us) by (nonlinear_arith)
        requires
            us == ss * uu,
    ;
    let um: int = mm * uu;
    assert(0 <= us <= um) by (nonlinear_arith)
        requires
            us == ss * uu,
            um == mm * uu,
            0 <= ss <= mm,
            uu > 0,
    ;
    assert(parts * us <= 261 * um) by (nonlinear_arith)
        requires
            0 <= parts <= 261,
            0 <= us <= um,
    ;
    let d: int = dx * dx + dz * dz - ss;
    assert(d * uu == (dx * dx) * uu + (dz * dz) * uu - us) by (nonlinear_arith)
        requires
            d == dx * dx + dz * dz - ss,
            us == ss * uu,
    ;
    assert(p * (d * uu) <= 341 * um);
    assert(p * d <= 512 * mm) by (nonlinear_arith)
        requires
            p * (d * uu) <= 341 * um,
            um == mm * uu,
            uu > 0,
            mm >= 0,
    ;
}

/// A step in a heading that is no longer than one leads no farther than its length.
pub proof fn lemma_stride_is_short(from: Point, heading: Point, step: Real, parts: int, most: int)
    requires
        bounding(most),
        within_bound(from, most),
        reaches(step, most),
        step.value() >= 0,
        0 <= parts <= 261,
        long_by(heading, parts),
    ensures
        no_farther_apart(from, strode(from, heading, step), step, most),
{
    let u: int = cell_unit();
    let to: Point = strode(from, heading, step);
    let hx: int = heading.x.value();
    let hz: int = heading.z.value();
    let s: int = step.value();
    lemma2_to64_rest();
    lemma_large_unit();
    lemma_unit_is_nothing(most);
    lemma_coordinate_is_small(hx, hz, u, parts);
    lemma_step_along(from.x, heading.x, step, most);
    lemma_step_along(from.z, heading.z, step, most);
    let dx: int = to.x.value() - from.x.value();
    let dz: int = to.z.value() - from.z.value();
    let mu: int = most * u;
    assert(mu > 0) by (nonlinear_arith)
        requires
            mu == most * u,
            most > 0,
            u > 0,
    ;
    lemma_square_close(dx * u, hx * s, mu);
    lemma_square_close(dz * u, hz * s, mu);
    lemma_stride_ints(u, most, hx, hz, s, dx, dz, parts);
}

/// A step along a vector, and one in a heading of the escape fan, leads no farther than
/// its length, up to a sliver: the exact distance between the two points is meant.
pub proof fn lemma_step_is_no_longer_than_its_length(
    from: Point,
    v: Point,
    step: Real,
    k: usize,
    most: int,
)
    requires
        bounding(most),
        within_bound(from, most),
        reaches(step, most),
        step.value() >= 0,
        v.x.magnitude() < HUGE,
        v.z.magnitude() < HUGE,
    ensures
        Real::of(SLIVER).lt(v.x.hypot(v.z)) ==> no_farther_apart(
            from,
            stepped(from, v, v.x.hypot(v.z), step),
            step,
            most,
        ),
        no_farther_apart(
            from,
            turned(
                from,
                spec_unit_or(v, Point { x: Real::of(ONE), z: Real::of(ZERO) }),
                spec_fan(k),
                step,
            ),
            step,
            most,
        ),
{
    lemma_heading_is_short(v, k);
    if Real::of(SLIVER).lt(v.x.hypot(v.z)) {
        lemma_stride_is_short(from, direction(v), step, 16, most);
    }
    lemma_stride_is_short(from, turned_direction(v, k), step, 261, most);
}

} // verus!
