//! Directions are no longer than one, up to rounding.
use vstd::arithmetic::div_mod::*;
use vstd::arithmetic::power2::*;
use vstd::prelude::*;

use crate::geometry::{plain_hypot, Point, EPSILON, HUGE, ONE, SCALE_DOWN, SCALE_UP, TINY, ZERO};
use crate::number::{
    floor_root, from_sum, full_exponent, full_significand, nearest_double, with_sticky, Real, INF,
    UNIT,
};
use crate::ordering::{
    lemma_mul_monotone, lemma_size_code, lemma_size_of_code, lemma_sum_error, lemma_sum_monotone,
    lemma_value_order, lemma_value_rank, lemma_zero_rank,
};
use crate::roots::{
    lemma_full_significand, lemma_hypot_commutes, lemma_root_exists, lemma_share_of_hypot,
};
use crate::rounding::{
    bit_len, in_units, lemma_bit_len_bounds, lemma_in_units_bounds, lemma_nearest_monotone,
    lemma_nearest_scaled, round_half_even, unit_exponent,
};

verus! {

/// What rounding leaves of a number, in whole units of its last digit: within
/// half a unit of it, and with 53 digits unless it is tiny.
proof fn lemma_rounded(m: nat, e: int, r: Real)
    requires
        m > 0,
        r.finite(),
        r.magnitude() == nearest_double(m, e),
    ensures
        ({
            let q: int = unit_exponent(m, e, 53, -1074);
            let u: nat = in_units(m, e, q);
            let d: nat = pow2((q - e) as nat);
            &&& q >= -1074
            &&& r.size() == u * pow2((q + 1074) as nat)
            &&& q > -1074 ==> u >= pow2(52)
            &&& q <= e ==> u == m * pow2((e - q) as nat)
            &&& q > e ==> 2 * (u * d) <= 2 * m + d && 2 * m <= 2 * (u * d) + d
        }),
{
    lemma2_to64();
    lemma2_to64_rest();
    let q: int = unit_exponent(m, e, 53, -1074);
    let u: nat = in_units(m, e, q);
    lemma_in_units_bounds(m, e, 53, -1074);
    assert(r.magnitude() == (q + 1074) * pow2(52) + u);
    if u >= pow2(52) {
        lemma_size_of_code(r, q, u);
    } else {
        assert(q == -1074);
        assert(r.significand() == u);
        assert(r.exponent() == -1074);
    }
    if q > e {
        let d: nat = pow2((q - e) as nat);
        lemma_pow2_pos((q - e) as nat);
        lemma_fundamental_div_mod(m as int, d as int);
        lemma_mod_bound(m as int, d as int);
        let whole: nat = m / d;
        let rest: nat = m % d;
        assert(u == round_half_even(m, d));
        assert(2 * (u * d) <= 2 * m + d && 2 * m <= 2 * (u * d) + d) by (nonlinear_arith)
            requires
                m == d * whole + rest,
                0 <= rest < d,
                (u == whole && 2 * rest <= d) || (u == whole + 1 && 2 * rest >= d),
        ;
    }
}

/// A product is rounded by at most one part in `2^53`, or half a unit.
pub proof fn lemma_product_error(x: Real, y: Real)
    requires
        x.finite(),
        y.finite(),
        x.spec_mul(y).finite(),
    ensures
        ({
            let s: int = (x.size() * y.size()) as int;
            let a: int = x.spec_mul(y).size() as int;
            let p: int = pow2(53) as int;
            let u: int = pow2(1074) as int;
            &&& p * s <= p * (a * u) + a * u + p * u
            &&& p * (a * u) <= p * s + a * u + p * u
        }),
{
    reveal(Real::spec_mul);
    lemma2_to64_rest();
    let i: nat = x.significand();
    let j: nat = y.significand();
    let r: Real = x.spec_mul(y);
    let p: int = pow2(53) as int;
    let one: nat = pow2(1074);
    lemma_pow2_pos(1074);
    let c: nat = pow2((x.exponent() + 1074) as nat);
    let k: nat = pow2((y.exponent() + 1074) as nat);
    let s: nat = x.size() * y.size();
    let a: nat = r.size();
    let m: nat = i * j;
    let e: int = x.exponent() + y.exponent();
    let base: nat = pow2((e + 2148) as nat);
    lemma_pow2_adds((x.exponent() + 1074) as nat, (y.exponent() + 1074) as nat);
    assert(s == m * base) by (nonlinear_arith)
        requires
            s == (i * c) * (j * k),
            m == i * j,
            c * k == base,
    ;
    if m == 0 {
        assert(s == 0) by (nonlinear_arith)
            requires
                s == m * base,
                m == 0,
        ;
        lemma_size_of_zero(r);
        assert(p * (s as int) == 0 && p * (a * one) == 0 && a * one == 0 && p * one >= 0)
            by (nonlinear_arith)
            requires
                s == 0,
                a == 0,
                p > 0,
        ;
    } else {
        lemma_rounded(m, e, r);
        let q: int = unit_exponent(m, e, 53, -1074);
        let w: nat = in_units(m, e, q);
        let unit: nat = pow2((q + 1074) as nat);
        lemma_pow2_pos((q + 1074) as nat);
        lemma_pow2_adds((q + 1074) as nat, 1074);
        assert(a * one == w * (unit * one)) by (nonlinear_arith)
            requires
                a == w * unit,
        ;
        if q <= e {
            lemma_pow2_adds((e - q) as nat, (q + 2148) as nat);
            let h: nat = pow2((e - q) as nat);
            assert(w * (unit * one) == m * base) by (nonlinear_arith)
                requires
                    w == m * h,
                    h * (unit * one) == base,
            ;
            assert(p * one >= 0) by (nonlinear_arith)
                requires
                    p > 0,
            ;
        } else {
            let d: nat = pow2((q - e) as nat);
            lemma_pow2_adds((q - e) as nat, (e + 2148) as nat);
            assert(d * base == unit * one);
            assert(2 * (m * base) <= 2 * (w * (unit * one)) + unit * one && 2 * (w * (unit * one))
                <= 2 * (m * base) + unit * one) by (nonlinear_arith)
                requires
                    2 * m <= 2 * (w * d) + d,
                    2 * (w * d) <= 2 * m + d,
                    d * base == unit * one,
            ;
            if q > -1074 {
                assert(0x20_0000_0000_0000 * (unit * one) <= 2 * (w * (unit * one)))
                    by (nonlinear_arith)
                    requires
                        w >= 0x10_0000_0000_0000,
                ;
            } else {
                assert(unit == 1) by {
                    lemma2_to64();
                }
                assert(unit * one == one);
            }
            let t: int = (a * one) as int;
            let z: int = (unit * one) as int;
            assert(p * (s as int) <= p * t + t + p * (one as int) && p * t <= p * (s as int) + t + p * (
            one as int)) by (nonlinear_arith)
                requires
                    p == 0x20_0000_0000_0000,
                    2 * (s as int) <= 2 * t + z,
                    2 * t <= 2 * (s as int) + z,
                    0x20_0000_0000_0000 * z <= 2 * t || z == one,
                    t >= 0,
                    one > 0,
            ;
        }
    }
}

/// Rounding a long number changes it by at most one part in `2^53`.
proof fn lemma_long_rounds(m: nat, w: nat, d: nat)
    requires
        w >= 0x10_0000_0000_0000,
        d > 0,
        2 * (w * d) <= 2 * m + d,
        2 * m <= 2 * (w * d) + d,
    ensures
        0x20_0000_0000_0000 * m <= 0x20_0000_0000_0000 * (w * d) + w * d,
        0x20_0000_0000_0000 * (w * d) <= 0x20_0000_0000_0000 * m + w * d,
        w * d <= 2 * m,
        m <= 2 * (w * d),
{
    let v: nat = w * d;
    assert(v >= 0x10_0000_0000_0000 * d) by (nonlinear_arith)
        requires
            v == w * d,
            w >= 0x10_0000_0000_0000,
    ;
}

/// The size of a positive number from its full significand.
proof fn lemma_full_size(x: Real)
    requires
        x.finite(),
        x.magnitude() > 0,
    ensures
        full_exponent(x.significand(), x.exponent()) >= -1126,
        x.size() * pow2(1074) == full_significand(x.significand()) * pow2(
            (full_exponent(x.significand(), x.exponent()) + 2148) as nat,
        ),
{
    lemma_full_significand(x);
    let sig: nat = x.significand();
    let k: nat = (53 - bit_len(sig)) as nat;
    let e: int = x.exponent();
    lemma_pow2_adds(k, (e - k + 2148) as nat);
    lemma_pow2_adds((e + 1074) as nat, 1074);
    let a: nat = pow2(k);
    let b: nat = pow2((e - k + 2148) as nat);
    let c: nat = pow2((e + 1074) as nat);
    let one: nat = pow2(1074);
    assert((sig * c) * one == (sig * a) * b) by (nonlinear_arith)
        requires
            c * one == a * b,
    ;
}

proof fn lemma_root_scales(
    f: nat,
    g: int,
    odd: int,
    h: int,
    w: nat,
    q: int,
)
    requires
        g >= -1126,
        0 <= odd <= 1,
        2 * h == g - odd - 62,
        q > h - 1,
    ensures
        f * pow2((g + 2148) as nat) == (4 * (f * pow2((62 + odd) as nat))) * pow2(
            (2 * (h - 1) + 2148) as nat,
        ),
        ({
            let l: nat = w * pow2((q + 1074) as nat);
            let v: nat = w * pow2((q - (h - 1)) as nat);
            l * l == v * v * pow2((2 * (h - 1) + 2148) as nat)
        }),
{
    lemma2_to64();
    let e: int = h - 1;
    let step: nat = pow2((62 + odd) as nat);
    let base: nat = pow2((2 * e + 2148) as nat);
    lemma_pow2_adds((62 + odd) as nat, (2 * e + 2148) as nat);
    lemma_pow2_adds(2, (62 + odd + 2 * e + 2148) as nat);
    assert(pow2((g + 2148) as nat) == 4 * (step * base));
    assert(f * (4 * (step * base)) == (4 * (f * step)) * base) by (nonlinear_arith);
    let d: nat = pow2((q - e) as nat);
    let c: nat = pow2((e + 1074) as nat);
    lemma_pow2_adds((q - e) as nat, (e + 1074) as nat);
    lemma_pow2_adds((e + 1074) as nat, (e + 1074) as nat);
    let l: nat = w * pow2((q + 1074) as nat);
    let v: nat = w * d;
    assert(l * l == v * v * base) by (nonlinear_arith)
        requires
            l == w * (d * c),
            v == w * d,
            c * c == base,
    ;
}

/// A root is rounded by at most two parts in `2^53`.
pub proof fn lemma_root_error(x: Real)
    requires
        x.finite(),
        !x.negative(),
        x.magnitude() > 0,
        x.spec_sqrt().finite(),
    ensures
        ({
            let s: int = x.size() as int;
            let l: int = x.spec_sqrt().size() as int;
            let p: int = pow2(53) as int;
            let u: int = pow2(1074) as int;
            &&& (p * p) * (s * u) <= ((p + 2) * (p + 2)) * (l * l)
            &&& (p * p) * (l * l) <= ((p + 2) * (p + 2)) * (s * u)
            &&& l * l <= 9 * (s * u)
        }),
{
    reveal(Real::spec_sqrt);
    lemma2_to64();
    lemma2_to64_rest();
    lemma_full_significand(x);
    let f: nat = full_significand(x.significand());
    let g: int = full_exponent(x.significand(), x.exponent());
    let odd: int = g % 2;
    let step: nat = pow2((62 + odd) as nat);
    let n: nat = f * step;
    let root: nat = floor_root(n);
    let m: nat = with_sticky(root, root * root != n);
    let h: int = (g - odd - 62) / 2;
    assert(2 * h == g - odd - 62);
    let e: int = h - 1;
    let r: Real = x.spec_sqrt();
    lemma_root_exists(n);
    if odd == 1 {
        lemma_pow2_strictly_increases(62, 63);
    }
    lemma_pow2_adds(52, 62);
    assert(n >= pow2(114)) by (nonlinear_arith)
        requires
            n == f * step,
            f >= pow2(52),
            step >= pow2(62),
            pow2(114) == pow2(52) * pow2(62),
    ;
    lemma_pow2_adds(57, 57);
    assert(root >= 0x200_0000_0000_0000) by (nonlinear_arith)
        requires
            n >= 0x200_0000_0000_0000 * 0x200_0000_0000_0000,
            n < (root + 1) * (root + 1),
    ;
    assert(m == 2 * root || m == 2 * root + 1);
    assert((m == 2 * root && root * root == n) || m == 2 * root + 1);
    lemma_rounded(m, e, r);
    lemma_bit_len_bounds(m);
    assert(bit_len(m) > 58) by {
        if bit_len(m) < 58 {
            lemma_pow2_strictly_increases(bit_len(m), 58);
        }
    }
    let q: int = unit_exponent(m, e, 53, -1074);
    let w: nat = in_units(m, e, q);
    assert(q > e);
    let d: nat = pow2((q - e) as nat);
    lemma_pow2_pos((q - e) as nat);
    let v: nat = w * d;
    lemma_full_size(x);
    assert(q > -1074);
    lemma_long_rounds(m, w, d);
    let p: int = pow2(53) as int;
    assert(p * (m + 1) <= (p + 2) * v) by (nonlinear_arith)
        requires
            p == 0x20_0000_0000_0000,
            p * m <= p * v + v,
            m >= 2 * p,
            v <= 2 * m,
            v >= p,
    ;
    assert(4 * n <= (m + 1) * (m + 1)) by (nonlinear_arith)
        requires
            n < (root + 1) * (root + 1),
            (m == 2 * root && root * root == n) || m == 2 * root + 1,
    ;
    assert(v * v <= 9 * (4 * n)) by (nonlinear_arith)
        requires
            v <= 2 * m,
            m <= 2 * root + 1,
            root >= 1,
            root * root <= n,
    ;
    // scales
    let s: nat = x.size();
    let l: nat = r.size();
    let one: nat = pow2(1074);
    let base: nat = pow2((2 * e + 2148) as nat);
    lemma_root_scales(f, g, odd, h, w, q);
    let vv: int = (v * v) as int;
    let mm: int = ((m + 1) * (m + 1)) as int;
    assert((p * p) * mm <= ((p + 2) * (p + 2)) * vv) by (nonlinear_arith)
        requires
            p * (m + 1) <= (p + 2) * v,
            mm == (m + 1) * (m + 1),
            vv == v * v,
            p > 0,
    ;
    assert(s * one == (4 * n) * base);
    assert(l * l == v * v * base);
    assert((p * p) * ((s * one) as int) <= ((p + 2) * (p + 2)) * ((l * l) as int))
        by (nonlinear_arith)
        requires
            s * one == (4 * n) * base,
            l * l == v * v * base,
            (p * p) * mm <= ((p + 2) * (p + 2)) * vv,
            mm >= 4 * n,
            vv == v * v,
            p > 0,
    ;
    assert(l * l <= 9 * (s * one)) by (nonlinear_arith)
        requires
            s * one == (4 * n) * base,
            l * l == v * v * base,
            v * v <= 9 * (4 * n),
    ;
    assert(p * v <= (p + 2) * (m - 1)) by (nonlinear_arith)
        requires
            p == 0x20_0000_0000_0000,
            p * v <= p * m + v,
            m >= 8 * p,
            v <= 2 * m,
    ;
    let kk: int = (m - 1) * (m - 1);
    assert(kk <= 4 * n) by (nonlinear_arith)
        requires
            kk == (m - 1) * (m - 1),
            1 <= m <= 2 * root + 1,
            root * root <= n,
    ;
    assert((p * p) * vv <= ((p + 2) * (p + 2)) * kk) by (nonlinear_arith)
        requires
            p * v <= (p + 2) * (m - 1),
            kk == (m - 1) * (m - 1),
            vv == v * v,
            v >= 0,
            p > 0,
    ;
    assert((p * p) * ((l * l) as int) <= ((p + 2) * (p + 2)) * ((s * one) as int))
        by (nonlinear_arith)
        requires
            s * one == (4 * n) * base,
            l * l == v * v * base,
            (p * p) * vv <= ((p + 2) * (p + 2)) * kk,
            kk <= 4 * n,
            vv == v * v,
            p > 0,
    ;
}

/// The root of a finite number is finite.
pub proof fn lemma_root_is_finite(x: Real)
    requires
        x.finite(),
        !x.negative(),
    ensures
        x.spec_sqrt().finite(),
{
    reveal(Real::spec_sqrt);
    if x.magnitude() > 0 {
        lemma2_to64();
        lemma2_to64_rest();
        lemma_full_significand(x);
        let f: nat = full_significand(x.significand());
        let g: int = full_exponent(x.significand(), x.exponent());
        let odd: int = g % 2;
        let step: nat = pow2((62 + odd) as nat);
        let n: nat = f * step;
        let root: nat = floor_root(n);
        let m: nat = with_sticky(root, root * root != n);
        let e: int = (g - odd - 62) / 2 - 1;
        lemma_root_exists(n);
        lemma_pow2_unfold(63);
        assert(n < 0x400_0000_0000_0000 * 0x400_0000_0000_0000) by (nonlinear_arith)
            requires
                n == f * step,
                f < 0x20_0000_0000_0000,
                step <= 0x8000_0000_0000_0000,
        ;
        assert(root < 0x400_0000_0000_0000) by (nonlinear_arith)
            requires
                root * root <= n,
                n < 0x400_0000_0000_0000 * 0x400_0000_0000_0000,
        ;
        assert(m <= 0x1000_0000_0000_0000);
        assert(x.exponent() <= 971);
        assert(e <= 952);
        let k: nat = (952 - e) as nat;
        let c: nat = pow2(k);
        lemma_pow2_pos(k);
        let one: nat = pow2(60);
        assert(m <= one * c) by (nonlinear_arith)
            requires
                m <= one,
                c >= 1,
        ;
        lemma_nearest_scaled(one, k, 952, 53, -1074, INF as nat);
        lemma_nearest_monotone(m, one * c, e, 53, -1074, INF as nat);
        let top: Real = Real { bits: 0x7f30_0000_0000_0000 };
        assert(top.significand() == UNIT as nat);
        assert(top.exponent() == 960);
        lemma_size_code(top);
        lemma_nearest_scaled(UNIT as nat, 8, 960, 53, -1074, INF as nat);
    }
}

/// What a division is rounded from exceeds the exact quotient by little.
proof fn lemma_sticky_quotient(f: nat, dd: nat, m: nat)
    requires
        pow2(52) <= f < pow2(53),
        pow2(52) <= dd < pow2(53),
        m == with_sticky(f * pow2(57) / dd, f * pow2(57) % dd != 0),
    ensures
        m > 0,
        m * dd <= f * pow2(58) + dd,
        f * pow2(58) <= m * dd + dd,
        pow2(53) * dd <= f * pow2(58),
{
    lemma2_to64_rest();
    let n: nat = f * pow2(57);
    let w: nat = n / dd;
    let rest: nat = n % dd;
    lemma_fundamental_div_mod(n as int, dd as int);
    lemma_mod_bound(n as int, dd as int);
    assert(m * dd <= f * 0x400_0000_0000_0000 + dd) by (nonlinear_arith)
        requires
            n == dd * w + rest,
            rest >= 0,
            m <= 2 * w + 1,
            n == f * 0x200_0000_0000_0000,
    ;
    assert(f * 0x400_0000_0000_0000 <= m * dd + dd) by (nonlinear_arith)
        requires
            n == dd * w + rest,
            rest < dd,
            m >= 2 * w,
            m >= 2 * w + 1 || rest == 0,
            n == f * 0x200_0000_0000_0000,
            dd > 0,
    ;
    assert(w > 0) by (nonlinear_arith)
        requires
            n == dd * w + rest,
            rest < dd,
            n == f * 0x200_0000_0000_0000,
            f >= 0x10_0000_0000_0000,
            dd < 0x20_0000_0000_0000,
    ;
    assert(0x20_0000_0000_0000 * dd <= f * 0x400_0000_0000_0000) by (nonlinear_arith)
        requires
            f >= 0x10_0000_0000_0000,
            dd < 0x20_0000_0000_0000,
    ;
}

proof fn lemma_quotient_scales(
    f: nat,
    dd: nat,
    xa: int,
    xb: int,
    q: int,
    w: nat,
    m: nat,
)
    requires
        xa >= -1126,
        xb >= -1126,
        q >= -1074,
    ensures
        ({
            let e: int = xa - xb - 58;
            let c: nat = pow2((xa + 3164) as nat);
            let left: nat = (w * pow2((q + 1074) as nat)) * (dd * pow2((xb + 2148) as nat));
            &&& q > e ==> left == ((w * pow2((q - e) as nat)) * dd) * c
            &&& q <= e && w == m * pow2((e - q) as nat) ==> left == (m * dd) * c
            &&& (f * pow2((xa + 2148) as nat)) * pow2(1074) == (f * pow2(58)) * c
            &&& q == -1074 && q > e ==> (pow2((q - e) as nat) * dd) * c == dd * pow2(
                (xb + 2148) as nat,
            )
        }),
{
    lemma2_to64();
    let e: int = xa - xb - 58;
    let c: nat = pow2((xa + 3164) as nat);
    let y: nat = pow2((q + 1074) as nat);
    let z: nat = pow2((xb + 2148) as nat);
    lemma_pow2_adds((q + 1074) as nat, (xb + 2148) as nat);
    if q > e {
        let d: nat = pow2((q - e) as nat);
        lemma_pow2_adds((q - e) as nat, (xa + 3164) as nat);
        assert(y * z == d * c);
        assert((w * y) * (dd * z) == ((w * d) * dd) * c) by (nonlinear_arith)
            requires
                y * z == d * c,
        ;
        if q == -1074 {
            assert((d * dd) * c == dd * z) by (nonlinear_arith)
                requires
                    1 * z == d * c,
            ;
        }
    } else if w == m * pow2((e - q) as nat) {
        let k: nat = pow2((e - q) as nat);
        lemma_pow2_adds((e - q) as nat, (q + 1074 + xb + 2148) as nat);
        assert(k * (y * z) == c);
        assert(((m * k) * y) * (dd * z) == (m * dd) * (k * (y * z))) by (nonlinear_arith);
    }
    lemma_pow2_adds((xa + 2148) as nat, 1074);
    lemma_pow2_adds(58, (xa + 3164) as nat);
    let g: nat = pow2((xa + 2148) as nat);
    let one: nat = pow2(1074);
    let b: nat = pow2(58);
    assert((f * g) * one == (f * b) * c) by (nonlinear_arith)
        requires
            g * one == b * c,
    ;
}

/// A quotient is rounded up by at most two parts in `2^53`, or a unit.
pub proof fn lemma_quotient_error(a: Real, b: Real)
    requires
        a.finite(),
        b.finite(),
        a.magnitude() > 0,
        b.magnitude() > 0,
        a.spec_div(b).finite(),
    ensures
        ({
            let x: int = a.size() as int;
            let l: int = b.size() as int;
            let d: int = a.spec_div(b).size() as int;
            let p: int = pow2(53) as int;
            let u: int = pow2(1074) as int;
            (p - 1) * (d * l) <= (p + 1) * (x * u) + p * l
        }),
{
    reveal(Real::spec_div);
    lemma2_to64();
    lemma2_to64_rest();
    lemma_full_significand(a);
    lemma_full_significand(b);
    lemma_full_size(a);
    lemma_full_size(b);
    let f: nat = full_significand(a.significand());
    let dd: nat = full_significand(b.significand());
    let xa: int = full_exponent(a.significand(), a.exponent());
    let xb: int = full_exponent(b.significand(), b.exponent());
    let n: nat = f * pow2(57);
    let m: nat = with_sticky(n / dd, n % dd != 0);
    let e: int = xa - xb - 58;
    let r: Real = a.spec_div(b);
    lemma_sticky_quotient(f, dd, m);
    lemma_rounded(m, e, r);
    let q: int = unit_exponent(m, e, 53, -1074);
    let w: nat = in_units(m, e, q);
    lemma_quotient_scales(f, dd, xa, xb, q, w, m);
    let p: int = pow2(53) as int;
    let one: nat = pow2(1074);
    lemma_pow2_pos(1074);
    let c: nat = pow2((xa + 3164) as nat);
    let x: nat = a.size();
    let l: nat = b.size();
    let d: nat = r.size();
    let left: int = (d * (l * one)) as int;
    let right: int = ((x * one) * one) as int;
    let top: int = ((f * pow2(58)) * c) as int;
    assert(right == top);
    let whole: nat = m * dd;
    assert(whole * c <= top + dd * c) by (nonlinear_arith)
        requires
            whole <= f * pow2(58) + dd,
            top == (f * pow2(58)) * c,
    ;
    assert(p * ((dd * c) as int) <= top) by (nonlinear_arith)
        requires
            p * dd <= f * pow2(58),
            top == (f * pow2(58)) * c,
            c >= 0,
    ;
    let slack: int = (l * one) as int;
    if q <= e {
        assert(left == whole * c);
        assert((p - 1) * left <= (p + 1) * top + p * slack) by (nonlinear_arith)
            requires
                left <= top + dd * c,
                p * ((dd * c) as int) <= top,
                p > 1,
                top >= 0,
                slack >= 0,
                left >= 0,
        ;
    } else {
        let k: nat = pow2((q - e) as nat);
        lemma_pow2_pos((q - e) as nat);
        let v: nat = w * k;
        assert(left == (v * dd) * c);
        if q > -1074 {
            lemma_long_rounds(m, w, k);
            assert((p - 1) * ((v * dd) as int) <= p * (whole as int)) by (nonlinear_arith)
                requires
                    p * (v as int) <= p * (m as int) + v,
                    whole == m * dd,
            ;
            assert((p - 1) * left <= p * ((whole * c) as int)) by (nonlinear_arith)
                requires
                    (p - 1) * ((v * dd) as int) <= p * (whole as int),
                    left == (v * dd) * c,
            ;
            assert((p - 1) * left <= (p + 1) * top + p * slack) by (nonlinear_arith)
                requires
                    (p - 1) * left <= p * ((whole * c) as int),
                    whole * c <= top + dd * c,
                    p * ((dd * c) as int) <= top,
                    p > 1,
                    slack >= 0,
            ;
        } else {
            assert((k * dd) * c == slack);
            assert(2 * left <= 2 * ((whole * c) as int) + slack) by (nonlinear_arith)
                requires
                    2 * v <= 2 * m + k,
                    left == (v * dd) * c,
                    whole == m * dd,
                    slack == (k * dd) * c,
            ;
            assert((p - 1) * left <= (p + 1) * top + p * slack) by (nonlinear_arith)
                requires
                    2 * left <= 2 * ((whole * c) as int) + slack,
                    whole * c <= top + dd * c,
                    p * ((dd * c) as int) <= top,
                    p > 1,
                    slack >= 0,
                    left >= 0,
                    top >= 0,
            ;
        }
    }
    let dl: int = (d * l) as int;
    let xu: int = (x * one) as int;
    assert(left == dl * one) by (nonlinear_arith)
        requires
            left == d * (l * one),
            dl == d * l,
    ;
    assert((p - 1) * dl <= (p + 1) * xu + p * l) by (nonlinear_arith)
        requires
            (p - 1) * (dl * one) <= (p + 1) * (xu * one) + p * (l * one),
            one > 0,
    ;
}

/// A quotient is rounded down by at most two parts in `2^53`, or a unit.
pub proof fn lemma_quotient_error_below(a: Real, b: Real)
    requires
        a.finite(),
        b.finite(),
        a.magnitude() > 0,
        b.magnitude() > 0,
        a.spec_div(b).finite(),
    ensures
        ({
            let x: int = a.size() as int;
            let l: int = b.size() as int;
            let d: int = a.spec_div(b).size() as int;
            let p: int = pow2(53) as int;
            let u: int = pow2(1074) as int;
            (p - 1) * (x * u) <= (p + 1) * (d * l) + p * l
        }),
{
    reveal(Real::spec_div);
    lemma2_to64();
    lemma2_to64_rest();
    lemma_full_significand(a);
    lemma_full_significand(b);
    lemma_full_size(a);
    lemma_full_size(b);
    let f: nat = full_significand(a.significand());
    let dd: nat = full_significand(b.significand());
    let xa: int = full_exponent(a.significand(), a.exponent());
    let xb: int = full_exponent(b.significand(), b.exponent());
    let n: nat = f * pow2(57);
    let m: nat = with_sticky(n / dd, n % dd != 0);
    let e: int = xa - xb - 58;
    let r: Real = a.spec_div(b);
    lemma_sticky_quotient(f, dd, m);
    lemma_rounded(m, e, r);
    let q: int = unit_exponent(m, e, 53, -1074);
    let w: nat = in_units(m, e, q);
    lemma_quotient_scales(f, dd, xa, xb, q, w, m);
    let p: int = pow2(53) as int;
    let one: nat = pow2(1074);
    lemma_pow2_pos(1074);
    let c: nat = pow2((xa + 3164) as nat);
    let x: nat = a.size();
    let l: nat = b.size();
    let d: nat = r.size();
    let left: int = (d * (l * one)) as int;
    let right: int = ((x * one) * one) as int;
    let top: int = ((f * pow2(58)) * c) as int;
    assert(right == top);
    let whole: nat = m * dd;
    assert(top <= whole * c + dd * c) by (nonlinear_arith)
        requires
            f * pow2(58) <= whole + dd,
            top == (f * pow2(58)) * c,
    ;
    assert(p * ((dd * c) as int) <= top) by (nonlinear_arith)
        requires
            p * dd <= f * pow2(58),
            top == (f * pow2(58)) * c,
            c >= 0,
    ;
    let slack: int = (l * one) as int;
    if q <= e {
        assert(left == whole * c);
    } else {
        let k: nat = pow2((q - e) as nat);
        lemma_pow2_pos((q - e) as nat);
        let v: nat = w * k;
        assert(left == (v * dd) * c);
        if q > -1074 {
            lemma_long_rounds(m, w, k);
            assert(p * ((whole * c) as int) <= (p + 1) * left) by (nonlinear_arith)
                requires
                    p * (m as int) <= p * (v as int) + v,
                    whole == m * dd,
                    left == (v * dd) * c,
            ;
        } else {
            assert((k * dd) * c == slack);
            assert(2 * ((whole * c) as int) <= 2 * left + slack) by (nonlinear_arith)
                requires
                    2 * m <= 2 * v + k,
                    left == (v * dd) * c,
                    whole == m * dd,
                    slack == (k * dd) * c,
            ;
        }
    }
    let lit: int = 0x20_0000_0000_0000;
    assert(p == lit);
    assert((lit - 1) * top <= (lit + 1) * left + lit * slack);
    let dl: int = (d * l) as int;
    let xu: int = (x * one) as int;
    assert(left == dl * one) by (nonlinear_arith)
        requires
            left == d * (l * one),
            dl == d * l,
    ;
    assert((p - 1) * xu <= (p + 1) * dl + p * l) by (nonlinear_arith)
        requires
            (p - 1) * (xu * one) <= (p + 1) * (dl * one) + p * (l * one),
            one > 0,
    ;
}

/// Whether a number is a power of two.
pub open spec fn is_power(a: Real) -> bool {
    a.finite() && !a.negative() && a.significand() == UNIT
}

/// Powers of two are multiplied exactly.
pub proof fn lemma_power_product(a: Real, b: Real, c: Real)
    requires
        is_power(a),
        is_power(b),
        is_power(c),
        c.exponent() == a.exponent() + b.exponent() + 52,
    ensures
        a.spec_mul(b).rank() == c.rank(),
{
    reveal(Real::spec_mul);
    lemma2_to64_rest();
    lemma_size_code(c);
    lemma_nearest_scaled(UNIT as nat, 52, c.exponent(), 53, -1074, INF as nat);
}

/// The sum of two numbers is at most twice what both are at most.
pub proof fn lemma_power_sum(a: Real, b: Real, half: Real, top: Real)
    requires
        a.finite(),
        b.finite(),
        a.rank() >= 0,
        b.rank() >= 0,
        is_power(half),
        is_power(top),
        top.exponent() == half.exponent() + 1,
        a.rank() <= half.rank(),
        b.rank() <= half.rank(),
    ensures
        a.spec_add(b).finite(),
        0 <= a.spec_add(b).rank() <= top.rank(),
{
    reveal(Real::spec_add);
    lemma_value_order(a, half);
    lemma_value_order(b, half);
    lemma_zero_rank(a);
    lemma_zero_rank(b);
    let e: int = half.exponent();
    lemma_pow2_unfold((e + 1075) as nat);
    let c: nat = pow2((e + 1074) as nat);
    let d: nat = pow2((e + 1075) as nat);
    assert(top.size() == 2 * half.size()) by (nonlinear_arith)
        requires
            top.size() == UNIT as nat * d,
            half.size() == UNIT as nat * c,
            d == 2 * c,
    ;
    let both: bool = a.negative() && b.negative();
    lemma_sum_monotone(a.value() + b.value(), top.value(), both, false);
    lemma_value_rank(top, false);
    lemma_sum_monotone(0, a.value() + b.value(), false, both);
}

/// The squares of a hypotenuse's sides, added.
proof fn lemma_squares(a: Real, b: Real, most: Real, square: Real, sum: Real)
    requires
        a.finite(),
        b.finite(),
        0 <= a.rank() <= most.rank(),
        0 <= b.rank() <= most.rank(),
        is_power(most),
        is_power(square),
        is_power(sum),
        square.exponent() == 2 * most.exponent() + 52,
        sum.exponent() == square.exponent() + 1,
    ensures
        a.spec_mul(a).finite(),
        b.spec_mul(b).finite(),
        a.spec_mul(a).rank() >= 0,
        b.spec_mul(b).rank() >= 0,
        a.spec_mul(a).spec_add(b.spec_mul(b)).finite(),
        0 <= a.spec_mul(a).spec_add(b.spec_mul(b)).rank() <= sum.rank(),
{
    lemma_mul_monotone(a, most, a, most);
    lemma_mul_monotone(b, most, b, most);
    lemma_power_product(most, most, square);
    assert(a.spec_mul(a).rank() < INF);
    assert(b.spec_mul(b).rank() < INF);
    lemma_power_sum(a.spec_mul(a), b.spec_mul(b), square, sum);
}

/// Lengths from the squares of their sides: at most seven parts in `2^53` too
/// short.
proof fn lemma_length_bound(
    p: int,
    u: int,
    x: int,
    z: int,
    a: int,
    b: int,
    s: int,
    l: int,
)
    requires
        p == 0x20_0000_0000_0000,
        u > 0,
        p * (x * x) <= p * (a * u) + a * u + p * u,
        p * (z * z) <= p * (b * u) + b * u + p * u,
        p * (a + b) <= p * s + s,
        (p * p) * (s * u) <= ((p + 2) * (p + 2)) * (l * l),
        2 * (p * p * p * p) * u <= l * l,
    ensures
        p * (x * x + z * z) <= (p + 7) * (l * l),
{
    let n: int = x * x + z * z;
    let t: int = l * l;
    assert(p * n <= (p + 1) * ((a + b) * u) + 2 * (p * u)) by (nonlinear_arith)
        requires
            n == x * x + z * z,
            p * (x * x) <= p * (a * u) + a * u + p * u,
            p * (z * z) <= p * (b * u) + b * u + p * u,
    ;
    assert(p * ((a + b) * u) <= (p + 1) * (s * u)) by (nonlinear_arith)
        requires
            p * (a + b) <= p * s + s,
            u > 0,
    ;
    let su: int = s * u;
    let abu: int = (a + b) * u;
    assert(p * (p * n) <= p * ((p + 1) * abu + 2 * (p * u))) by (nonlinear_arith)
        requires
            p * n <= (p + 1) * abu + 2 * (p * u),
            p > 0,
    ;
    assert(p * ((p + 1) * abu + 2 * (p * u)) == (p + 1) * (p * abu) + 2 * (p * p) * u)
        by (nonlinear_arith);
    assert((p + 1) * (p * abu) <= (p + 1) * ((p + 1) * su)) by (nonlinear_arith)
        requires
            p * abu <= (p + 1) * su,
            p > 0,
    ;
    let k: int = (p + 1) * (p + 1);
    let j: int = (p + 2) * (p + 2);
    assert((p + 1) * ((p + 1) * su) == k * su) by (nonlinear_arith)
        requires
            k == (p + 1) * (p + 1),
    ;
    assert(p * (p * n) <= k * su + 2 * (p * p) * u);
    assert((p * p) * (p * (p * n)) <= (p * p) * (k * su + 2 * (p * p) * u)) by (nonlinear_arith)
        requires
            p * (p * n) <= k * su + 2 * (p * p) * u,
            p > 0,
    ;
    assert((p * p) * (k * su + 2 * (p * p) * u) == k * ((p * p) * su) + 2 * (p * p * p * p) * u)
        by (nonlinear_arith);
    assert(k * ((p * p) * su) <= k * (j * t)) by (nonlinear_arith)
        requires
            (p * p) * su <= j * t,
            k >= 0,
    ;
    assert(k >= 0) by (nonlinear_arith)
        requires
            k == (p + 1) * (p + 1),
            p > 0,
    ;
    assert(t >= 0) by (nonlinear_arith)
        requires
            t == l * l,
    ;
    assert(k * (j * t) + t <= (p * p * p) * ((p + 7) * t)) by (nonlinear_arith)
        requires
            p == 0x20_0000_0000_0000,
            k == (p + 1) * (p + 1),
            j == (p + 2) * (p + 2),
            t >= 0,
    ;
    assert((p * p) * (p * (p * n)) == (p * p * p) * (p * n)) by (nonlinear_arith);
    assert(p * n <= (p + 7) * t) by (nonlinear_arith)
        requires
            (p * p * p) * (p * n) <= (p * p * p) * ((p + 7) * t),
            p > 0,
    ;
}

/// A direction from a vector and its length.
proof fn lemma_unit_bound(
    p: int,
    u: int,
    x: int,
    z: int,
    l: int,
    dx: int,
    dz: int,
)
    requires
        p == 0x20_0000_0000_0000,
        u >= p * p * p * p,
        l > 0,
        x >= 0,
        z >= 0,
        dx >= 0,
        dz >= 0,
        p * (x * x + z * z) <= (p + 7) * (l * l),
        (p - 1) * (dx * l) <= (p + 1) * (x * u) + p * l,
        (p - 1) * (dz * l) <= (p + 1) * (z * u) + p * l,
    ensures
        p * (dx * dx + dz * dz) <= (p + 16) * (u * u),
{
    let q: int = p - 1;
    let t: int = l * l;
    assert(t > 0) by (nonlinear_arith)
        requires
            t == l * l,
            l > 0,
    ;
    assert(x <= 2 * l) by (nonlinear_arith)
        requires
            p == 0x20_0000_0000_0000,
            p * (x * x + z * z) <= (p + 7) * (l * l),
            x >= 0,
            l > 0,
    ;
    assert(z <= 2 * l) by (nonlinear_arith)
        requires
            p == 0x20_0000_0000_0000,
            p * (x * x + z * z) <= (p + 7) * (l * l),
            z >= 0,
            l > 0,
    ;
    lemma_side_bound(p, u, x, l, dx);
    lemma_side_bound(p, u, z, l, dz);
    let n: int = dx * dx + dz * dz;
    let xx: int = x * x + z * z;
    let uu: int = u * u;
    let small: int = 4 * p * (p + 1) * u + p * p;
    assert((q * q) * (n * t) <= ((p + 1) * (p + 1)) * (uu * xx) + 2 * (small * t))
        by (nonlinear_arith)
        requires
            (q * q) * (dx * dx * t) <= ((p + 1) * (p + 1)) * (uu * (x * x)) + small * t,
            (q * q) * (dz * dz * t) <= ((p + 1) * (p + 1)) * (uu * (z * z)) + small * t,
            n == dx * dx + dz * dz,
            xx == x * x + z * z,
    ;
    let k: int = (p + 1) * (p + 1);
    assert(p * ((q * q) * (n * t)) <= p * (k * (uu * xx) + 2 * (small * t))) by (nonlinear_arith)
        requires
            (q * q) * (n * t) <= k * (uu * xx) + 2 * (small * t),
            p > 0,
    ;
    let a1: int = uu * xx;
    let a2: int = small * t;
    assert(p * (k * a1 + 2 * a2) == p * (k * a1) + 2 * p * a2) by (nonlinear_arith);
    assert(p * (k * a1) == (k * uu) * (p * xx)) by (nonlinear_arith)
        requires
            a1 == uu * xx,
    ;
    assert(2 * p * a2 == (2 * p * small) * t) by (nonlinear_arith)
        requires
            a2 == small * t,
    ;
    assert(k * uu >= 0) by (nonlinear_arith)
        requires
            k == (p + 1) * (p + 1),
            uu == u * u,
    ;
    assert((k * uu) * (p * xx) <= (k * uu) * ((p + 7) * t)) by (nonlinear_arith)
        requires
            p * xx <= (p + 7) * t,
            k * uu >= 0,
    ;
    assert(2 * p * small <= uu) by (nonlinear_arith)
        requires
            small == 4 * p * (p + 1) * u + p * p,
            uu == u * u,
            u >= p * p * p * p,
            p == 0x20_0000_0000_0000,
    ;
    let c: int = k * (p + 7) + 1;
    let part: int = k * (p + 7);
    assert((k * uu) * ((p + 7) * t) == (part * uu) * t) by (nonlinear_arith)
        requires
            part == k * (p + 7),
    ;
    assert((2 * p * small) * t <= uu * t) by (nonlinear_arith)
        requires
            2 * p * small <= uu,
            t > 0,
    ;
    assert((c * uu) * t == (part * uu) * t + uu * t) by (nonlinear_arith)
        requires
            c == part + 1,
    ;
    assert(p * ((q * q) * (n * t)) <= (c * uu) * t);
    assert(p * ((q * q) * (n * t)) == (q * q) * (p * n) * t) by (nonlinear_arith);
    assert((q * q) * (p * n) <= c * uu) by (nonlinear_arith)
        requires
            (q * q) * (p * n) * t <= (c * uu) * t,
            t > 0,
    ;
    assert(c <= (q * q) * (p + 16)) by (nonlinear_arith)
        requires
            c == k * (p + 7) + 1,
            k == (p + 1) * (p + 1),
            q == p - 1,
            p == 0x20_0000_0000_0000,
    ;
    assert(uu >= 0) by (nonlinear_arith)
        requires
            uu == u * u,
    ;
    assert(c * uu <= ((q * q) * (p + 16)) * uu) by (nonlinear_arith)
        requires
            c <= (q * q) * (p + 16),
            uu >= 0,
    ;
    assert(((q * q) * (p + 16)) * uu == (q * q) * ((p + 16) * uu)) by (nonlinear_arith);
    assert(p * n <= (p + 16) * uu) by (nonlinear_arith)
        requires
            (q * q) * (p * n) <= (q * q) * ((p + 16) * uu),
            q > 0,
    ;
}

proof fn lemma_side_bound(p: int, u: int, x: int, l: int, d: int)
    requires
        p == 0x20_0000_0000_0000,
        u > 0,
        l > 0,
        0 <= x <= 2 * l,
        d >= 0,
        (p - 1) * (d * l) <= (p + 1) * (x * u) + p * l,
    ensures
        ((p - 1) * (p - 1)) * (d * d * (l * l)) <= ((p + 1) * (p + 1)) * ((u * u) * (x * x)) + (4 * p
            * (p + 1) * u + p * p) * (l * l),
{
    let q: int = p - 1;
    let left: int = q * (d * l);
    let a: int = (p + 1) * (x * u);
    let b: int = p * l;
    assert(left >= 0) by (nonlinear_arith)
        requires
            left == q * (d * l),
            q > 0,
            d >= 0,
            l > 0,
    ;
    assert(left * left <= (a + b) * (a + b)) by (nonlinear_arith)
        requires
            0 <= left <= a + b,
    ;
    assert((a + b) * (a + b) == a * a + 2 * (a * b) + b * b) by (nonlinear_arith);
    assert(left * left == (q * q) * (d * d * (l * l))) by (nonlinear_arith)
        requires
            left == q * (d * l),
    ;
    assert(a * a == ((p + 1) * (p + 1)) * ((u * u) * (x * x))) by (nonlinear_arith)
        requires
            a == (p + 1) * (x * u),
    ;
    assert(b * b == (p * p) * (l * l)) by (nonlinear_arith)
        requires
            b == p * l,
    ;
    let t: int = l * l;
    assert(x * l <= 2 * t) by (nonlinear_arith)
        requires
            0 <= x <= 2 * l,
            l > 0,
            t == l * l,
    ;
    let w: int = p * (p + 1) * u;
    assert(w >= 0) by (nonlinear_arith)
        requires
            w == p * (p + 1) * u,
            p > 0,
            u > 0,
    ;
    assert(2 * (a * b) == 2 * (w * (x * l))) by (nonlinear_arith)
        requires
            a == (p + 1) * (x * u),
            b == p * l,
            w == p * (p + 1) * u,
    ;
    assert(2 * (w * (x * l)) <= 4 * (w * t)) by (nonlinear_arith)
        requires
            x * l <= 2 * t,
            w >= 0,
    ;
    assert(4 * (w * t) + (p * p) * t == (4 * p * (p + 1) * u + p * p) * t) by (nonlinear_arith)
        requires
            w == p * (p + 1) * u,
    ;
}

/// Whether a vector is no longer than one, up to sixteen parts in `2^53` of its
/// square.
pub open spec fn no_longer_than_one(v: Point) -> bool {
    &&& v.x.finite()
    &&& v.z.finite()
    &&& pow2(53) * (v.x.value() * v.x.value() + v.z.value() * v.z.value()) <= (pow2(53) + 16) * (
    pow2(1074) * pow2(1074))
}

/// Tiny sides have a tiny hypotenuse.
pub proof fn lemma_tiny_hypot(a: Real, b: Real)
    requires
        a.finite(),
        b.finite(),
        !a.negative(),
        !b.negative(),
        a.rank() < TINY,
        b.rank() < TINY,
    ensures
        a.spec_hypot(b).finite(),
        0 <= a.spec_hypot(b).rank() <= EPSILON,
{
    let up: Real = Real::of(SCALE_UP);
    let down: Real = Real::of(SCALE_DOWN);
    let tiny: Real = Real::of(TINY);
    // 2^100, 2^200 and 2^201
    let most: Real = Real { bits: 0x4630_0000_0000_0000 };
    let square: Real = Real { bits: 0x4c70_0000_0000_0000 };
    let sum: Real = Real { bits: 0x4c80_0000_0000_0000 };
    assert(a.spec_abs() == a);
    assert(b.spec_abs() == b);
    lemma_mul_monotone(a, tiny, up, up);
    lemma_mul_monotone(b, tiny, up, up);
    lemma_power_product(tiny, up, most);
    let x: Real = a.spec_mul(up);
    let z: Real = b.spec_mul(up);
    lemma_squares(x, z, most, square, sum);
    let s: Real = x.spec_mul(x).spec_add(z.spec_mul(z));
    let r: Real = s.spec_sqrt();
    assert(a.spec_hypot(b) == r.spec_mul(down));
    if s.magnitude() == 0 {
        reveal(Real::spec_sqrt);
        reveal(Real::spec_mul);
        lemma_zero_product(r, down);
    } else {
        lemma_root_is_finite(s);
        lemma_root_is_not_negative(s);
        lemma_root_error(s);
        lemma_root_of_small(s, r, sum);
        // 2^110 and 2^-490
        let high: Real = Real { bits: 0x46d0_0000_0000_0000 };
        let low: Real = Real { bits: 0x2150_0000_0000_0000 };
        lemma_mul_monotone(r, high, down, down);
        lemma_power_product(high, down, low);
    }
}

proof fn lemma_zero_product(r: Real, down: Real)
    requires
        r.magnitude() == 0,
        down.finite(),
    ensures
        r.spec_mul(down).magnitude() == 0,
{
    reveal(Real::spec_mul);
    let a: nat = r.significand();
    let b: nat = down.significand();
    assert(a * b == 0) by (nonlinear_arith)
        requires
            a == 0,
    ;
}

proof fn lemma_root_is_not_negative(s: Real)
    requires
        s.finite(),
        s.rank() > 0,
    ensures
        !s.spec_sqrt().negative(),
        !s.spec_sqrt().nan(),
{
    reveal(Real::spec_sqrt);
}

proof fn lemma_root_of_small(s: Real, r: Real, sum: Real)
    requires
        s.finite(),
        s.rank() > 0,
        sum.bits == 0x4c80_0000_0000_0000,
        s.rank() <= sum.rank(),
        r.finite(),
        !r.negative(),
        r.size() * r.size() <= 9 * (s.size() * pow2(1074)),
    ensures
        r.rank() <= 0x46d0_0000_0000_0000,
{
    let high: Real = Real { bits: 0x46d0_0000_0000_0000 };
    lemma_value_order(s, sum);
    lemma_value_order(r, high);
    if r.size() > high.size() {
        assert(sum.significand() == UNIT as nat && sum.exponent() == 149);
        assert(high.significand() == UNIT as nat && high.exponent() == 58);
        lemma2_to64();
        lemma2_to64_rest();
        let l: nat = r.size();
        let h: nat = high.size();
        let t: nat = sum.size();
        let one: nat = pow2(1074);
        lemma_pow2_adds(52, 1223);
        lemma_pow2_adds(52, 1132);
        lemma_pow2_adds(1184, 1184);
        lemma_pow2_adds(1275, 1074);
        lemma_pow2_adds(19, 2349);
        assert(h == pow2(1184));
        assert(t == pow2(1275));
        let small: nat = pow2(2349);
        lemma_pow2_pos(2349);
        assert(h * h == 0x8_0000 * small);
        assert(l * l > h * h) by (nonlinear_arith)
            requires
                l > h,
        ;
        let ss: nat = s.size();
        assert(ss * one <= t * one) by (nonlinear_arith)
            requires
                ss <= t,
        ;
        assert(false);
    }
}

/// The direction of a vector of ordinary length is no longer than one.
pub proof fn lemma_direction_is_short(x: Real, z: Real)
    requires
        x.finite(),
        z.finite(),
        x.magnitude() < HUGE,
        z.magnitude() < HUGE,
        Real::of(EPSILON).lt(x.hypot(z)),
    ensures
        no_longer_than_one(Point { x: x.div(x.hypot(z)), z: z.div(x.hypot(z)) }),
{
    let length: Real = x.hypot(z);
    let a: Real = x.abs();
    let b: Real = z.abs();
    assert(a.magnitude() == x.magnitude() && !a.negative());
    assert(b.magnitude() == z.magnitude() && !b.negative());
    assert(a.abs() == a && b.abs() == b);
    assert(length == a.hypot(b));
    let p: int = pow2(53) as int;
    let u: int = pow2(1074) as int;
    lemma2_to64_rest();
    lemma_pow2_pos(1074);
    let dx: Real = x.div(length);
    let dz: Real = z.div(length);
    if length.infinite() {
        reveal(Real::spec_div);
        lemma_size_of_zero(dx);
        lemma_size_of_zero(dz);
        assert(pow2(53) * (dx.value() * dx.value() + dz.value() * dz.value()) <= (pow2(53) + 16) * (
        pow2(1074) * pow2(1074))) by (nonlinear_arith)
            requires
                dx.value() == 0,
                dz.value() == 0,
        ;
    } else {
        if a.rank() < TINY && b.rank() < TINY {
            lemma_tiny_hypot(a, b);
        }
        lemma_plain_length(a, b);
        lemma_scale_is_large();
        lemma_share_is_finite(x, z);
        lemma_hypot_commutes(x, z);
        lemma_share_is_finite(z, x);
        lemma_side_of_direction(x, length);
        lemma_side_of_direction(z, length);
        lemma_unit_bound(
            p,
            u,
            a.size() as int,
            b.size() as int,
            length.size() as int,
            dx.size() as int,
            dz.size() as int,
        );
        assert(dx.value() * dx.value() == dx.size() * dx.size()) by (nonlinear_arith)
            requires
                dx.value() == dx.size() || dx.value() == -(dx.size() as int),
        ;
        assert(dz.value() * dz.value() == dz.size() * dz.size()) by (nonlinear_arith)
            requires
                dz.value() == dz.size() || dz.value() == -(dz.size() as int),
        ;
    }
}

pub proof fn lemma_size_of_zero(r: Real)
    requires
        r.magnitude() == 0,
    ensures
        r.size() == 0,
        r.value() == 0,
{
    assert(r.size() == 0) by (nonlinear_arith)
        requires
            r.size() == r.significand() * pow2((r.exponent() + 1074) as nat),
            r.significand() == 0,
    ;
}

pub proof fn lemma_scale_is_large()
    ensures
        ({
            let p: int = pow2(53) as int;
            pow2(1074) >= p * p * p * p
        }),
{
    let p: nat = pow2(53);
    lemma_pow2_adds(53, 53);
    lemma_pow2_adds(106, 53);
    lemma_pow2_adds(159, 53);
    lemma_pow2_strictly_increases(212, 1074);
    assert(p * p * p * p == pow2(212));
}

/// A side of a direction is finite.
proof fn lemma_share_is_finite(x: Real, z: Real)
    requires
        x.finite(),
        z.finite(),
        x.hypot(z).finite(),
        x.hypot(z).rank() > 0,
    ensures
        x.div(x.hypot(z)).finite(),
{
    let length: Real = x.hypot(z);
    assert(!x.div(length).nan()) by {
        reveal(Real::spec_div);
    }
    lemma_share_of_hypot(x, z);
}

/// A side of a direction against the side of its vector.
proof fn lemma_side_of_direction(x: Real, length: Real)
    requires
        x.finite(),
        length.finite(),
        length.rank() > 0,
        x.div(length).finite(),
    ensures
        ({
            let p: int = pow2(53) as int;
            (p - 1) * (x.div(length).size() * length.size()) <= (p + 1) * (x.abs().size() * pow2(
                1074,
            )) + p * length.size()
        }),
{
    let p: int = pow2(53) as int;
    lemma2_to64_rest();
    lemma_pow2_pos(1074);
    assert(x.abs().size() == x.size());
    if x.magnitude() == 0 {
        let d: Real = x.div(length);
        assert(d.magnitude() == 0) by {
            reveal(Real::spec_div);
        }
        lemma_size_of_zero(d);
        lemma_size_of_zero(x);
        let l: int = length.size() as int;
        assert((p - 1) * (0 * l) <= (p + 1) * (0 * (pow2(1074) as int)) + p * l) by (nonlinear_arith)
            requires
                p > 0,
                l >= 0,
        ;
    } else {
        lemma_quotient_error(x, length);
    }
}

/// The length of a hypotenuse over sides of ordinary size.
proof fn lemma_plain_length(a: Real, b: Real)
    requires
        a.finite(),
        b.finite(),
        !a.negative(),
        !b.negative(),
        a.magnitude() < HUGE,
        b.magnitude() < HUGE,
        a.rank() >= TINY || b.rank() >= TINY,
        a.hypot(b).finite(),
        a.hypot(b).rank() > EPSILON,
    ensures
        ({
            let x: int = a.size() as int;
            let z: int = b.size() as int;
            let l: int = a.hypot(b).size() as int;
            let p: int = pow2(53) as int;
            &&& l > 0
            &&& p * (x * x + z * z) <= (p + 7) * (l * l)
        }),
{
    // 2^1000 and 2^1001
    let most: Real = Real::of(HUGE);
    let square: Real = Real { bits: 0x7e70_0000_0000_0000 };
    let sum: Real = Real { bits: 0x7e80_0000_0000_0000 };
    assert(a.abs() == a && b.abs() == b);
    let length: Real = a.hypot(b);
    assert(length == plain_hypot(a, b));
    lemma_squares(a, b, most, square, sum);
    let aa: Real = a.mul(a);
    let bb: Real = b.mul(b);
    let s: Real = aa.add(bb);
    assert(length == s.sqrt());
    assert(s.magnitude() > 0) by {
        reveal(Real::spec_sqrt);
    }
    lemma_product_error(a, a);
    lemma_product_error(b, b);
    assert(!s.negative() && !aa.negative() && !bb.negative()) by {
        reveal(Real::spec_mul);
        reveal(Real::spec_add);
    }
    lemma_root_error(s);
    let total: nat = aa.size() + bb.size();
    assert(s == from_sum(total as int, false)) by {
        reveal(Real::spec_add);
    }
    lemma_sum_error(total);
    lemma_length_is_large(length);
    let p: int = pow2(53) as int;
    lemma2_to64_rest();
    lemma_pow2_pos(1074);
    lemma_length_bound(
        p,
        pow2(1074) as int,
        a.size() as int,
        b.size() as int,
        aa.size() as int,
        bb.size() as int,
        s.size() as int,
        length.size() as int,
    );
}

proof fn lemma_length_is_large(length: Real)
    requires
        length.finite(),
        length.rank() > EPSILON,
    ensures
        length.size() > 0,
        ({
            let p: int = pow2(53) as int;
            let l: int = length.size() as int;
            2 * (p * p * p * p) * pow2(1074) <= l * l
        }),
{
    let small: Real = Real::of(EPSILON);
    lemma_value_order(small, length);
    lemma2_to64();
    lemma2_to64_rest();
    assert(small.significand() == UNIT as nat && small.exponent() == -104);
    lemma_pow2_adds(52, 970);
    assert(small.size() == pow2(1022));
    lemma_pow2_pos(1022);
    lemma_pow2_adds(1022, 1022);
    let p: nat = pow2(53);
    lemma_pow2_adds(53, 53);
    lemma_pow2_adds(106, 53);
    lemma_pow2_adds(159, 53);
    lemma_pow2_adds(1, 212);
    lemma_pow2_adds(213, 1074);
    lemma_pow2_strictly_increases(1287, 2044);
    assert(2 * (p * p * p * p) == pow2(213));
    let l: nat = length.size();
    let e: nat = pow2(1022);
    assert(l * l >= e * e) by (nonlinear_arith)
        requires
            l >= e,
    ;
}

/// A coordinate of a vector no longer than one is at most two.
pub proof fn lemma_side_of_short(v: Point)
    requires
        no_longer_than_one(v),
    ensures
        v.x.magnitude() <= 0x4000_0000_0000_0000,
        v.z.magnitude() <= 0x4000_0000_0000_0000,
{
    lemma_side_below_two(v.x, v.z);
    assert(v.x.value() * v.x.value() + v.z.value() * v.z.value() == v.z.value() * v.z.value()
        + v.x.value() * v.x.value());
    lemma_side_below_two(v.z, v.x);
}

proof fn lemma_side_below_two(x: Real, z: Real)
    requires
        x.finite(),
        pow2(53) * (x.value() * x.value() + z.value() * z.value()) <= (pow2(53) + 16) * (pow2(1074)
            * pow2(1074)),
    ensures
        x.magnitude() <= 0x4000_0000_0000_0000,
{
    let two: Real = Real { bits: 0x4000_0000_0000_0000 };
    let a: Real = x.abs();
    assert(a.magnitude() == x.magnitude() && !a.negative());
    lemma_value_order(a, two);
    lemma2_to64_rest();
    assert(two.significand() == UNIT as nat && two.exponent() == -51);
    lemma_pow2_adds(52, 1023);
    lemma_pow2_unfold(1075);
    let u: int = pow2(1074) as int;
    assert(two.size() == 2 * u);
    let s: int = a.size() as int;
    let v: int = x.value();
    let w: int = z.value();
    assert(v * v == s * s) by (nonlinear_arith)
        requires
            v == s || v == -s,
    ;
    if s > 2 * u {
        lemma_pow2_pos(1074);
        assert(w * w >= 0) by (nonlinear_arith);
        assert(s * s >= 4 * (u * u)) by (nonlinear_arith)
            requires
                s > 2 * u,
                u > 0,
        ;
        assert(u * u > 0) by (nonlinear_arith)
            requires
                u > 0,
        ;
        let p: int = pow2(53) as int;
        let vv: int = v * v;
        let ww: int = w * w;
        let uu: int = u * u;
        assert(false) by (nonlinear_arith)
            requires
                p == 0x20_0000_0000_0000,
                p * (vv + ww) <= (p + 16) * uu,
                vv >= 4 * uu,
                ww >= 0,
                uu > 0,
        ;
    }
}

/// The sum of two numbers that are at most one is at most two.
pub proof fn lemma_sum_below_two(a: Real, b: Real)
    requires
        a.magnitude() <= ONE,
        b.magnitude() <= ONE,
    ensures
        a.add(b).finite(),
        a.add(b).magnitude() <= 0x4000_0000_0000_0000,
{
    reveal(Real::spec_add);
    let one: Real = Real::of(ONE);
    let two: Real = Real { bits: 0x4000_0000_0000_0000 };
    assert(a.abs().magnitude() == a.magnitude() && !a.abs().negative());
    assert(b.abs().magnitude() == b.magnitude() && !b.abs().negative());
    lemma_value_order(a.abs(), one);
    lemma_value_order(b.abs(), one);
    lemma2_to64_rest();
    assert(two.significand() == UNIT as nat && two.exponent() == -51);
    assert(one.significand() == UNIT as nat && one.exponent() == -52);
    lemma_pow2_unfold(1023);
    let c: nat = pow2(1022);
    let d: nat = pow2(1023);
    assert(two.size() == 2 * one.size()) by (nonlinear_arith)
        requires
            two.size() == UNIT as nat * d,
            one.size() == UNIT as nat * c,
            d == 2 * c,
    ;
    let total: int = a.value() + b.value();
    let both: bool = a.negative() && b.negative();
    lemma_sum_monotone(total, two.value(), both, false);
    lemma_sum_monotone(-two.value(), total, false, both);
    lemma_value_rank(two, false);
    lemma_size_code(two);
    assert(from_sum(-two.value(), false).rank() == -two.rank());
}

/// A fourth of a number that is at most two is at most one.
pub proof fn lemma_fourth(c: Real)
    requires
        c.magnitude() <= 0x4000_0000_0000_0000,
    ensures
        c.mul(Real::of(0x3fd0_0000_0000_0000)).magnitude() <= ONE,
{
    let two: Real = Real { bits: 0x4000_0000_0000_0000 };
    let fourth: Real = Real { bits: 0x3fd0_0000_0000_0000 };
    let half: Real = Real { bits: 0x3fe0_0000_0000_0000 };
    let size: Real = c.abs();
    assert(size.magnitude() == c.magnitude() && !size.negative());
    lemma_mul_monotone(size, two, fourth, fourth);
    lemma_power_product(two, fourth, half);
    assert(c.mul(fourth).magnitude() == size.mul(fourth).magnitude()) by {
        reveal(Real::spec_mul);
    }
}

/// Standing still is no longer than one.
pub proof fn lemma_rest_is_short()
    ensures
        no_longer_than_one(Point { x: Real::of(ZERO), z: Real::of(ZERO) }),
{
    let zero: Real = Real::of(ZERO);
    lemma_size_of_zero(zero);
    let u: int = pow2(1074) as int;
    assert(pow2(53) * (0 * 0 + 0 * 0) <= (pow2(53) + 16) * (u * u)) by (nonlinear_arith);
}

/// Straight ahead is no longer than one.
pub proof fn lemma_ahead_is_short()
    ensures
        no_longer_than_one(Point { x: Real::of(ZERO), z: Real::of(ONE) }),
{
    let zero: Real = Real::of(ZERO);
    let one: Real = Real::of(ONE);
    lemma_size_of_zero(zero);
    lemma2_to64_rest();
    lemma_pow2_adds(52, 1022);
    assert(one.significand() == UNIT as nat && one.exponent() == -52);
    let u: int = pow2(1074) as int;
    assert(one.value() == u);
    assert(pow2(53) * (0 * 0 + u * u) <= (pow2(53) + 16) * (u * u)) by (nonlinear_arith);
}

} // verus!
