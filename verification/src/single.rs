//! Rounding errors in single precision.
use vstd::arithmetic::div_mod::*;
use vstd::arithmetic::power2::*;
use vstd::prelude::*;

use crate::conversion::{single_exponent, single_significand};
use crate::geometry::ONE;
use crate::number::{from_sum, nearest_double, nearest_single, Real, INF, SINGLE_INF, UNIT};
use crate::ordering::{
    lemma_mul_monotone, lemma_size_of_code, lemma_sum_error, lemma_sum_monotone,
    lemma_to_single_monotone, lemma_value_order, lemma_value_rank, lemma_zero_rank,
};
use crate::rounding::{
    in_units, lemma_bit_len_unique, lemma_in_units_bounds, lemma_nearest_exact,
    lemma_nearest_scaled, round_half_even, unit_exponent,
};
use crate::unit::{is_power, lemma_power_product, lemma_power_sum, lemma_product_error, lemma_size_of_zero};

verus! {

/// The smallest number that single precision holds with all its digits:
/// `2^-126`.
pub const SMALLEST: u64 = 0x3810_0000_0000_0000;

/// A number below which single precision is far from its limits: `2^126`.
pub const LARGEST: u64 = 0x47d0_0000_0000_0000;

/// Zero, or a positive number that single precision holds with all its digits.
pub open spec fn plain(r: Real) -> bool {
    &&& !r.nan()
    &&& r.rank() == 0 || SMALLEST <= r.rank() <= LARGEST
}

/// The single-precision number next to `m * 2^e`, where `m` has 53 digits.
proof fn lemma_single_code(m: nat, e: int, u: nat)
    requires
        UNIT <= m < 2 * UNIT,
        -178 <= e <= 74,
        u == round_half_even(m, pow2(29)),
    ensures
        pow2(23) <= u <= pow2(24),
        2 * (u * pow2(29)) <= 2 * m + pow2(29),
        2 * m <= 2 * (u * pow2(29)) + pow2(29),
        nearest_single(m, e) == (e + 178) * pow2(23) + u,
        nearest_single(m, e) < SINGLE_INF,
{
    lemma2_to64();
    lemma2_to64_rest();
    lemma_bit_len_unique(m, 53);
    assert(unit_exponent(m, e, 24, -149) == e + 29);
    lemma_in_units_bounds(m, e, 24, -149);
    assert(in_units(m, e, e + 29) == u);
    let d: nat = pow2(29);
    assert(d == 0x2000_0000);
    lemma_fundamental_div_mod(m as int, d as int);
    lemma_mod_bound(m as int, d as int);
    let whole: nat = m / d;
    let rest: nat = m % d;
    let h: nat = pow2(23);
    assert((e + 178) * h <= 252 * 0x80_0000) by (nonlinear_arith)
        requires
            e + 178 <= 252,
            h == 0x80_0000,
    ;
    assert(whole >= 0x80_0000) by (nonlinear_arith)
        requires
            m == d * whole + rest,
            rest < d,
            d == 0x2000_0000,
            m >= 0x10_0000_0000_0000,
    ;
    assert(2 * (u * d) <= 2 * m + d && 2 * m <= 2 * (u * d) + d) by (nonlinear_arith)
        requires
            m == d * whole + rest,
            0 <= rest < d,
            (u == whole && 2 * rest <= d) || (u == whole + 1 && 2 * rest >= d),
    ;
}

/// What a single-precision code stands for.
proof fn lemma_single_size(s: Real, e: int, u: nat)
    requires
        -178 <= e <= 74,
        pow2(23) <= u <= pow2(24),
        s.magnitude() == nearest_double(
            single_significand(((e + 178) * pow2(23) + u) as nat),
            single_exponent(((e + 178) * pow2(23) + u) as nat),
        ),
    ensures
        s.finite(),
        s.size() == (u * pow2(29)) * pow2((e + 1074) as nat),
{
    lemma2_to64();
    lemma2_to64_rest();
    let code: nat = ((e + 178) * pow2(23) + u) as nat;
    let f: int = e + 1074;
    if u < pow2(24) {
        lemma_fundamental_div_mod_converse(
            code as int,
            0x80_0000,
            e + 179,
            u - 0x80_0000,
        );
        assert(single_significand(code) == u);
        assert(single_exponent(code) == e + 29);
        lemma_nearest_scaled(u, 29, e + 29, 53, -1074, INF as nat);
        let n: nat = u * pow2(29);
        assert(UNIT <= n < 2 * UNIT);
        lemma_nearest_exact(n, e, 53, -1074, INF as nat);
        assert(s.magnitude() == f * pow2(52) + n);
        lemma_size_of_code(s, e, n);
    } else {
        lemma_fundamental_div_mod_converse(code as int, 0x80_0000, e + 180, 0);
        assert(single_significand(code) == pow2(23));
        assert(single_exponent(code) == e + 30);
        lemma_nearest_scaled(pow2(23), 29, e + 30, 53, -1074, INF as nat);
        lemma_nearest_exact(UNIT as nat, e + 1, 53, -1074, INF as nat);
        assert(s.magnitude() == (f + 1) * pow2(52) + UNIT);
        assert(u * pow2(29) == pow2(53));
        lemma_size_of_code(s, e, pow2(53));
    }
}

/// Rounding to single precision changes a number by at most one part in `2^24`.
pub proof fn lemma_single_error(r: Real)
    requires
        plain(r),
    ensures
        ({
            let s: Real = r.to_single();
            &&& s.finite()
            &&& s.value() >= 0
            &&& s.rank() >= 0
            &&& r.value() >= 0
            &&& 0x100_0000 * s.value() <= 0x100_0000 * r.value() + r.value()
            &&& 0x100_0000 * r.value() <= 0x100_0000 * s.value() + r.value()
            &&& s.negative() == r.negative()
        }),
{
    reveal(Real::spec_to_single);
    lemma_zero_rank(r);
    let s: Real = r.to_single();
    if r.rank() == 0 {
        assert(r.magnitude() == 0);
        assert(s.magnitude() == 0);
        lemma_size_of_zero(r);
        lemma_size_of_zero(s);
    } else {
        lemma2_to64();
        lemma2_to64_rest();
        let m: nat = r.significand();
        let e: int = r.exponent();
        assert(-178 <= e <= 74);
        let u: nat = round_half_even(m, pow2(29));
        lemma_single_code(m, e, u);
        let code: nat = nearest_single(m, e);
        assert(code != SINGLE_INF);
        let size: nat = nearest_double(single_significand(code), single_exponent(code));
        lemma_single_size(Real { bits: size as u64 }, e, u);
        assert(s.finite());
        let c: nat = pow2((e + 1074) as nat);
        let d: nat = u * pow2(29);
        assert(s.size() == d * c);
        assert(r.size() == m * c);
        assert(0x100_0000 * (d * c) <= 0x100_0000 * (m * c) + m * c && 0x100_0000 * (m * c)
            <= 0x100_0000 * (d * c) + m * c) by (nonlinear_arith)
            requires
                2 * d <= 2 * m + 0x2000_0000,
                2 * m <= 2 * d + 0x2000_0000,
                m >= 0x10_0000_0000_0000,
        ;
    }
}

/// Rounding to single precision leads at most to the next power of two.
pub proof fn lemma_single_below(r: Real, top: Real)
    requires
        plain(r),
        is_power(top),
        top.rank() < LARGEST,
        r.rank() <= top.rank(),
    ensures
        r.to_single().rank() <= top.rank() + UNIT,
{
    let s: Real = r.to_single();
    let next: Real = Real { bits: (top.bits + UNIT) as u64 };
    lemma_single_error(r);
    lemma_value_order(r, top);
    lemma_zero_rank(top);
    assert(next.significand() == UNIT as nat && next.exponent() == top.exponent() + 1);
    lemma_pow2_unfold((next.exponent() + 1074) as nat);
    let x: nat = pow2((top.exponent() + 1074) as nat);
    let y: nat = pow2((next.exponent() + 1074) as nat);
    assert(UNIT as nat * y == 2 * (UNIT as nat * x)) by (nonlinear_arith)
        requires
            y == 2 * x,
    ;
    lemma_value_order(s, next);
}

/// The smallest plain number but zero stays as it is.
proof fn lemma_smallest()
    ensures
        Real::of(SMALLEST).to_single().rank() >= SMALLEST,
{
    reveal(Real::spec_to_single);
    lemma2_to64();
    lemma2_to64_rest();
    let r: Real = Real { bits: SMALLEST };
    assert(r.significand() == UNIT as nat && r.exponent() == -178);
    lemma_fundamental_div_mod_converse(UNIT as int, 0x2000_0000, 0x80_0000, 0);
    let u: nat = round_half_even(UNIT as nat, pow2(29));
    assert(u == 0x80_0000);
    lemma_single_code(UNIT as nat, -178, u);
    let code: nat = nearest_single(UNIT as nat, -178);
    assert(code == 0x80_0000);
    lemma_nearest_scaled(0x80_0000, 29, -149, 53, -1074, INF as nat);
    lemma_nearest_exact(UNIT as nat, -178, 53, -1074, INF as nat);
}

/// A plain number that is not zero is none in single precision either.
pub proof fn lemma_single_stays_plain(r: Real)
    requires
        !r.nan(),
        r.rank() >= SMALLEST,
    ensures
        !r.to_single().nan(),
        r.to_single().rank() >= SMALLEST,
{
    lemma_smallest();
    lemma_to_single_monotone(Real::of(SMALLEST), r);
}

/// The sum of two numbers that are not too large, before it is rounded to single
/// precision, is plain.
proof fn lemma_sum_is_plain(a: Real, b: Real)
    requires
        !a.nan(),
        !b.nan(),
        0 <= a.rank() <= 0x47b0_0000_0000_0000,
        0 <= b.rank() <= 0x47b0_0000_0000_0000,
        (a.rank() == 0 && b.rank() == 0) || a.rank() >= SMALLEST || b.rank() >= SMALLEST,
    ensures
        plain(a.add(b)),
        a.add(b) == from_sum(a.value() + b.value(), a.negative() && b.negative()),
        a.value() >= 0,
        b.value() >= 0,
        a.value() + b.value() > 0 ==> a.add(b) == from_sum(a.value() + b.value(), false),
        a.value() + b.value() == 0 ==> a.add(b).magnitude() == 0,
        !b.negative() ==> !a.add(b).negative(),
        a.rank() >= SMALLEST || b.rank() >= SMALLEST ==> a.add(b).rank() >= SMALLEST,
{
    reveal(Real::spec_add);
    lemma_zero_rank(a);
    lemma_zero_rank(b);
    let half: Real = Real { bits: 0x47b0_0000_0000_0000 };
    let top: Real = Real { bits: 0x47c0_0000_0000_0000 };
    assert(half.significand() == UNIT as nat && half.exponent() == 72);
    assert(top.significand() == UNIT as nat && top.exponent() == 73);
    lemma_power_sum(a, b, half, top);
    let least: Real = Real { bits: SMALLEST };
    if a.rank() >= SMALLEST {
        lemma_value_order(least, a);
    }
    if b.rank() >= SMALLEST {
        lemma_value_order(least, b);
    }
    let total: int = a.value() + b.value();
    let r: Real = a.add(b);
    if a.rank() == 0 && b.rank() == 0 {
        lemma_size_of_zero(a);
        lemma_size_of_zero(b);
        assert(r.magnitude() == 0);
    } else {
        lemma_value_rank(least, false);
        lemma_sum_monotone(least.value(), total, false, a.negative() && b.negative());
        assert(least.value() > 0) by {
            lemma_pow2_pos((least.exponent() + 1074) as nat);
            let c: nat = pow2((least.exponent() + 1074) as nat);
            assert(UNIT as nat * c > 0) by (nonlinear_arith)
                requires
                    c > 0,
            ;
        }
    }
}

/// A sum in single precision is rounded by at most one part in `2^23`.
pub proof fn lemma_single_sum_error(a: Real, b: Real)
    requires
        !a.nan(),
        !b.nan(),
        0 <= a.rank() <= 0x47b0_0000_0000_0000,
        0 <= b.rank() <= 0x47b0_0000_0000_0000,
        (a.rank() == 0 && b.rank() == 0) || a.rank() >= SMALLEST || b.rank() >= SMALLEST,
    ensures
        ({
            let t: int = a.value() + b.value();
            let r: Real = a.single_sum(b);
            let v: int = r.value();
            &&& a.value() >= 0
            &&& b.value() >= 0
            &&& v >= 0
            &&& 0x80_0000 * v <= 0x80_0000 * t + t
            &&& 0x80_0000 * t <= 0x80_0000 * v + t
            &&& r.finite()
            &&& r.rank() >= 0
            &&& !b.negative() ==> !r.negative()
            &&& a.rank() >= SMALLEST || b.rank() >= SMALLEST ==> r.rank() >= SMALLEST
        }),
{
    lemma_sum_is_plain(a, b);
    let w: Real = a.add(b);
    let t: int = a.value() + b.value();
    lemma_single_error(w);
    if t > 0 {
        lemma2_to64_rest();
        lemma_sum_error(t as nat);
        let p: int = 0x20_0000_0000_0000;
        assert(pow2(53) * w.value() <= pow2(53) * t + t);
        assert(p * w.value() <= p * t + t);
        assert(p * t <= p * w.value() + w.value());
    } else {
        lemma_size_of_zero(w);
    }
    if a.rank() >= SMALLEST || b.rank() >= SMALLEST {
        lemma_single_stays_plain(w);
    }
}

/// A product with a length, in single precision, is rounded by at most two
/// parts in three times `2^23`.
pub proof fn lemma_single_product_error(o: Real, c: Real)
    requires
        !o.nan(),
        !c.nan(),
        ONE <= o.rank() <= 0x4400_0000_0000_0000,
        SMALLEST <= c.rank() <= 0x4320_0000_0000_0000,
    ensures
        ({
            let s: int = o.value() * c.value();
            let r: Real = o.single_product(c);
            let v: int = r.value() * pow2(1074);
            &&& s > 0
            &&& v > 0
            &&& 0xc0_0000 * v <= 0xc0_0000 * s + s
            &&& 0xc0_0000 * s <= 0xc0_0000 * v + s
            &&& r.finite()
            &&& !r.negative()
            &&& SMALLEST <= r.rank() <= 0x4740_0000_0000_0000
        }),
{
    lemma2_to64_rest();
    lemma_zero_rank(o);
    lemma_zero_rank(c);
    let low: Real = Real { bits: ONE };
    let high: Real = Real { bits: 0x4400_0000_0000_0000 };
    let most: Real = Real { bits: 0x4320_0000_0000_0000 };
    let top: Real = Real { bits: 0x4730_0000_0000_0000 };
    let small: Real = Real { bits: SMALLEST };
    lemma_power_product(low, small, small);
    lemma_power_product(high, most, top);
    lemma_mul_monotone(low, o, small, c);
    lemma_mul_monotone(o, high, c, most);
    let w: Real = o.mul(c);
    assert(plain(w));
    lemma_single_error(w);
    lemma_single_stays_plain(w);
    lemma_product_error(o, c);
    let u: int = pow2(1074) as int;
    let p: int = 0x20_0000_0000_0000;
    let s: int = (o.size() * c.size()) as int;
    let a: int = w.size() as int;
    let r: Real = o.single_product(c);
    assert(!w.negative()) by {
        reveal(Real::spec_mul);
    }
    assert(w.value() == a);
    lemma_value_order(small, w);
    assert(small.size() >= p) by {
        lemma_pow2_strictly_increases(53, (small.exponent() + 1074) as nat);
        let k: nat = pow2((small.exponent() + 1074) as nat);
        assert(UNIT as nat * k >= p) by (nonlinear_arith)
            requires
                k > p,
        ;
    }
    lemma_pow2_pos(1074);
    assert(p * u <= a * u) by (nonlinear_arith)
        requires
            p <= a,
            u > 0,
    ;
    assert(p * s <= p * (a * u) + 2 * (a * u));
    assert(p * (a * u) <= p * s + 2 * (a * u));
    let v: int = r.value() * u;
    let rv: int = r.value();
    assert(0x100_0000 * v <= 0x100_0000 * (a * u) + a * u && 0x100_0000 * (a * u) <= 0x100_0000 * v
        + a * u) by (nonlinear_arith)
        requires
            v == rv * u,
            0x100_0000 * rv <= 0x100_0000 * a + a,
            0x100_0000 * a <= 0x100_0000 * rv + a,
            u > 0,
    ;
    assert(a * u > 0) by (nonlinear_arith)
        requires
            a >= p,
            p == 0x20_0000_0000_0000,
            u > 0,
    ;
    assert(s == o.value() * c.value());
    lemma_single_below(w, top);
}

} // verus!
