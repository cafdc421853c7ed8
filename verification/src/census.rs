//! How many actors the census of a scene makes one expect where nothing was observed.
use vstd::arithmetic::div_mod::*;
use vstd::arithmetic::power2::*;
use vstd::prelude::*;
use vstd::utf8::encode_utf8;

use crate::crossing::{cell_unit, lemma_large_unit};
use crate::geometry::{distance_sq, Point, ONE};
use crate::lattice::{lemma_quotient_is_finite, SMALLEST_CELL};
use crate::nearness::{
    bounding, lemma_distance_sq, lemma_square_of, lemma_unit_is_nothing, reaches, size_of,
    within_bound,
};
use crate::number::{Real, INF, UNIT};
use crate::ordering::{
    lemma_mul_monotone, lemma_product_of_sizes, lemma_size_code, lemma_value_order,
};
use crate::population::{
    agent_from, cell_place, census, generated_from, known_beyond, populated, sensed_count,
    settles, spec_density, spec_expected, synthetic, target_count, templates_of,
    unobserved_cells, Census, FULL_TURN,
};
use crate::random::{lemma_shuffled_permutes, seed_of, shuffled, unit_of, xorshift};
use crate::roster::views;
use crate::rounding::{lemma_nearest_monotone, lemma_nearest_scaled};
use crate::scene::{EntityView, NavGrid, Scene};
use crate::shortest::{lemma_count, lemma_count_below, lemma_step_lengths};
use crate::unit::{
    lemma_power_product, lemma_product_error, lemma_quotient_error, lemma_quotient_error_below,
};
use crate::walkable::walkable;

verus! {

/// Whether two numbers are equal up to some parts in `2^53` of the second.
pub open spec fn near(a: int, b: int, parts: int) -> bool {
    0x20_0000_0000_0000 * size_of(a - b) <= parts * b
}

proof fn lemma_near_scaled(a: int, b: int, c: int, k: int)
    requires
        near(a, b, k),
        c >= 0,
    ensures
        near(a * c, b * c, k),
        near(c * a, c * b, k),
{
    let d: int = a - b;
    assert(a * c - b * c == d * c && c * a == a * c && c * b == b * c) by (nonlinear_arith)
        requires
            d == a - b,
    ;
    assert(0x20_0000_0000_0000 * (d * c) <= k * (b * c) && -(k * (b * c)) <= 0x20_0000_0000_0000 * (d
        * c)) by (nonlinear_arith)
        requires
            0x20_0000_0000_0000 * d <= k * b,
            -(k * b) <= 0x20_0000_0000_0000 * d,
            c >= 0,
    ;
}

proof fn lemma_near_unscaled(a: int, b: int, c: int, k: int)
    requires
        near(a * c, b * c, k),
        c > 0,
    ensures
        near(a, b, k),
{
    let d: int = a - b;
    assert(a * c - b * c == d * c) by (nonlinear_arith)
        requires
            d == a - b,
    ;
    assert(0x20_0000_0000_0000 * d <= k * b && -(k * b) <= 0x20_0000_0000_0000 * d)
        by (nonlinear_arith)
        requires
            0x20_0000_0000_0000 * (d * c) <= k * (b * c),
            -(k * (b * c)) <= 0x20_0000_0000_0000 * (d * c),
            c > 0,
    ;
}

proof fn lemma_near_chain(a: int, b: int, c: int, j: int, k: int)
    requires
        near(a, b, j),
        near(b, c, k),
        0 <= j <= 64,
        0 <= k <= 64,
        c >= 0,
    ensures
        near(a, c, j + k + 1),
{
    assert(k * c <= 64 * c) by (nonlinear_arith)
        requires
            k <= 64,
            c >= 0,
    ;
    assert(b <= 2 * c);
    let e: int = b - c;
    assert(j * e <= c) by (nonlinear_arith)
        requires
            0x20_0000_0000_0000 * e <= 64 * c,
            0 <= j <= 64,
            c >= 0,
    ;
    assert(j * b == j * c + j * e) by (nonlinear_arith)
        requires
            e == b - c,
    ;
    assert((j + k + 1) * c == j * c + k * c + c) by (nonlinear_arith);
}

proof fn lemma_near_back(a: int, b: int, k: int)
    requires
        near(a, b, k),
        0 <= k <= 64,
        b >= 0,
    ensures
        near(b, a, k + 1),
{
    assert(k * b <= 64 * b) by (nonlinear_arith)
        requires
            k <= 64,
            b >= 0,
    ;
    let e: int = b - a;
    assert(2 * a >= b);
    assert(k * e <= a) by (nonlinear_arith)
        requires
            0x20_0000_0000_0000 * e <= 64 * b,
            b <= 2 * a,
            0 <= k <= 64,
            b >= 0,
    ;
    assert(k * b == k * a + k * e) by (nonlinear_arith)
        requires
            e == b - a,
    ;
    assert((k + 1) * a == k * a + a) by (nonlinear_arith);
}

/// A product of numbers that are not tiny is the product, up to two parts.
proof fn lemma_product_is_near(a: Real, b: Real)
    requires
        a.finite(),
        b.finite(),
        !a.negative(),
        !b.negative(),
        a.mul(b).finite(),
        a.mul(b).value() >= 0x20_0000_0000_0000,
    ensures
        near(a.mul(b).value() * cell_unit(), a.value() * b.value(), 3),
{
    lemma2_to64_rest();
    lemma_large_unit();
    lemma_product_error(a, b);
    let u: int = cell_unit();
    let r: int = a.mul(b).value();
    let ru: int = r * u;
    assert(!a.mul(b).negative()) by {
        reveal(Real::spec_mul);
    }
    assert(0x20_0000_0000_0000 * u <= ru) by (nonlinear_arith)
        requires
            ru == r * u,
            r >= 0x20_0000_0000_0000,
            u > 0,
    ;
}

/// A quotient of numbers that are not tiny, times the divisor, is the dividend.
proof fn lemma_quotient_is_near(a: Real, b: Real)
    requires
        a.finite(),
        b.finite(),
        !a.negative(),
        !b.negative(),
        a.magnitude() > 0,
        b.magnitude() > 0,
        a.div(b).finite(),
        a.div(b).value() >= 0x20_0000_0000_0000,
    ensures
        near(a.div(b).value() * b.value(), a.value() * cell_unit(), 4),
{
    lemma2_to64_rest();
    lemma_large_unit();
    lemma_quotient_error(a, b);
    lemma_quotient_error_below(a, b);
    let u: int = cell_unit();
    let d: int = a.div(b).value();
    let l: int = b.value();
    assert(!a.div(b).negative()) by {
        reveal(Real::spec_div);
    }
    let dl: int = d * l;
    assert(0x20_0000_0000_0000 * l <= dl) by (nonlinear_arith)
        requires
            dl == d * l,
            d >= 0x20_0000_0000_0000,
            l >= 0,
    ;
}

/// A count is represented up to two parts.
proof fn lemma_count_is_near(n: u64)
    ensures
        near(Real::from_count(n).value(), n * cell_unit(), 2),
        Real::from_count(n).finite(),
        !Real::from_count(n).negative(),
{
    lemma2_to64_rest();
    lemma_step_lengths();
    lemma_count(n);
    lemma_large_unit();
    let nu: int = n * cell_unit();
    assert(nu >= 0) by (nonlinear_arith)
        requires
            nu == n * cell_unit(),
            n >= 0,
            cell_unit() > 0,
    ;
}

/// The smallest and the largest size of a cell that the laws on a census speak of:
/// `2^-400` and `2^400`.
pub const NARROW: u64 = 0x26f0_0000_0000_0000;

pub const BROAD: u64 = 0x58f0_0000_0000_0000;

/// Whether a cell is neither tiny nor huge.
pub open spec fn is_ordinary(cell: Real) -> bool {
    !cell.negative() && NARROW <= cell.magnitude() <= BROAD
}

/// Sizes of some powers of two.
proof fn lemma_powers()
    ensures
        Real::of(ONE).value() == cell_unit(),
        Real::of(0x43f0_0000_0000_0000).value() == 0x1_0000_0000_0000_0000 * cell_unit(),
        Real::of(0x0df0_0000_0000_0000).value() >= 0x20_0000_0000_0000,
        Real::of(0x75f0_0000_0000_0000).value() == pow2(864) * cell_unit(),
        cell_unit() >= 0x1_0000_0000_0000_0000 * pow2(864),
        pow2(864) >= 0x20_0000_0000_0000,
{
    lemma2_to64();
    lemma2_to64_rest();
    lemma_step_lengths();
    let many: Real = Real { bits: 0x43f0_0000_0000_0000 };
    let low: Real = Real { bits: 0x0df0_0000_0000_0000 };
    let high: Real = Real { bits: 0x75f0_0000_0000_0000 };
    assert(many.significand() == UNIT as nat && many.exponent() == 12);
    assert(low.significand() == UNIT as nat && low.exponent() == -852);
    assert(high.significand() == UNIT as nat && high.exponent() == 812);
    let u: nat = pow2(1074);
    lemma_pow2_pos(1074);
    lemma_pow2_adds(12, 1074);
    assert(pow2(12) == 0x1000);
    assert(UNIT as nat * (0x1000 * u) == 0x1_0000_0000_0000_0000 * u) by (nonlinear_arith)
        requires
            UNIT == 0x10_0000_0000_0000,
    ;
    lemma_pow2_adds(1, 221);
    lemma_pow2_pos(221);
    assert(pow2(1) == 2);
    assert(low.size() == UNIT as nat * pow2(222));
    assert(UNIT as nat * pow2(222) >= 0x20_0000_0000_0000) by (nonlinear_arith)
        requires
            pow2(222) >= 2,
            UNIT == 0x10_0000_0000_0000,
    ;
    lemma_pow2_adds(52, 1886);
    lemma_pow2_adds(864, 1074);
    assert(high.size() == UNIT as nat * pow2(1886));
    let b: nat = pow2(864);
    lemma_pow2_pos(864);
    lemma_pow2_adds(64, 864);
    lemma_pow2_adds(146, 928);
    lemma_pow2_pos(146);
    let a: nat = pow2(928);
    assert(u >= a) by (nonlinear_arith)
        requires
            u == pow2(146) * a,
            pow2(146) >= 1,
            a >= 0,
    ;
    lemma_pow2_strictly_increases(53, 864);
}

/// A count that is not zero is at least one, and at most `2^64`.
proof fn lemma_count_between(n: u64)
    requires
        n > 0,
    ensures
        ({
            let r: Real = Real::from_count(n);
            &&& r.finite()
            &&& !r.negative()
            &&& ONE <= r.magnitude() <= 0x43f0_0000_0000_0000
            &&& cell_unit() <= r.value() <= 0x1_0000_0000_0000_0000 * cell_unit()
        }),
{
    let r: Real = Real::from_count(n);
    lemma_count(n);
    lemma_count_below(n);
    lemma_powers();
    lemma_value_order(Real::of(ONE), r);
    lemma_value_order(r, Real { bits: 0x43f0_0000_0000_0000 });
}

/// The area of some cells of ordinary size is of ordinary size.
proof fn lemma_area(n: u64, cell: Real)
    requires
        n > 0,
        is_ordinary(cell),
    ensures
        ({
            let square: Real = cell.mul(cell);
            let area: Real = Real::from_count(n).mul(square);
            &&& square.finite()
            &&& !square.negative()
            &&& square.value() >= 0x20_0000_0000_0000
            &&& near(square.value() * cell_unit(), cell.value() * cell.value(), 3)
            &&& area.finite()
            &&& !area.negative()
            &&& SMALLEST_CELL <= area.magnitude()
            &&& 0x20_0000_0000_0000 <= area.value() <= pow2(864) * cell_unit()
            &&& near(area.value() * cell_unit(), Real::from_count(n).value() * square.value(), 3)
        }),
{
    let count: Real = Real::from_count(n);
    let square: Real = cell.mul(cell);
    let area: Real = count.mul(square);
    let narrow: Real = Real { bits: NARROW };
    let broad: Real = Real { bits: BROAD };
    let low: Real = Real { bits: 0x0df0_0000_0000_0000 };
    let large: Real = Real { bits: 0x71f0_0000_0000_0000 };
    let high: Real = Real { bits: 0x75f0_0000_0000_0000 };
    let many: Real = Real { bits: 0x43f0_0000_0000_0000 };
    let one: Real = Real::of(ONE);
    lemma2_to64_rest();
    lemma_powers();
    lemma_count_between(n);
    lemma_power_product(narrow, narrow, low);
    lemma_power_product(broad, broad, large);
    lemma_mul_monotone(narrow, cell, narrow, cell);
    lemma_mul_monotone(cell, broad, cell, broad);
    assert(!square.negative() && (square.finite() ==> !area.negative())) by {
        reveal(Real::spec_mul);
    }
    assert(low.rank() <= square.rank() <= large.rank());
    lemma_value_order(low, square);
    lemma_product_is_near(cell, cell);
    lemma_power_product(one, low, low);
    lemma_power_product(many, large, high);
    lemma_mul_monotone(one, count, low, square);
    lemma_mul_monotone(count, many, square, large);
    assert(low.rank() <= area.rank() <= high.rank());
    lemma_value_order(low, area);
    lemma_value_order(area, high);
    lemma_product_is_near(count, square);
}

/// A quotient of a count by an area is not tiny.
proof fn lemma_quotient_is_not_tiny(u: int, o: int, x: int, d: int, b: int)
    requires
        b >= 1,
        u >= 0x1_0000_0000_0000_0000 * b,
        o >= u,
        d >= 0,
        0 <= x <= b * u,
        0x1f_ffff_ffff_ffff * (o * u) <= 0x20_0000_0000_0001 * (d * x) + 0x20_0000_0000_0000 * x,
    ensures
        d >= 0x20_0000_0000_0000,
{
    if d < 0x20_0000_0000_0000 {
        let bu: int = b * u;
        let uu: int = u * u;
        assert(d * x <= 0x20_0000_0000_0000 * x) by (nonlinear_arith)
            requires
                0 <= d <= 0x20_0000_0000_0000,
                x >= 0,
        ;
        assert(uu <= o * u) by (nonlinear_arith)
            requires
                uu == u * u,
                o >= u,
                u >= 0,
        ;
        assert(uu >= 0x1_0000_0000_0000_0000 * bu) by (nonlinear_arith)
            requires
                uu == u * u,
                bu == b * u,
                u >= 0x1_0000_0000_0000_0000 * b,
                u >= 0,
        ;
        assert(bu > 0) by (nonlinear_arith)
            requires
                bu == b * u,
                b >= 1,
                u >= 1,
        ;
        assert(0x1f_ffff_ffff_ffff * uu <= 0x20_0000_0000_0001 * (0x20_0000_0000_0000 * bu)
            + 0x20_0000_0000_0000 * bu);
    }
}

/// A product that is no greater than `2^140` is finite.
proof fn lemma_product_is_finite(a: Real, b: Real)
    requires
        a.finite(),
        b.finite(),
        a.size() * b.size() <= 0x800_0000_0000_0000_0000_0000_0000_0000_0000int * (cell_unit()
            * cell_unit()),
    ensures
        a.mul(b).finite(),
{
    let top: Real = Real { bits: 0x48b0_0000_0000_0000 };
    lemma2_to64();
    lemma2_to64_rest();
    assert(top.significand() == UNIT as nat && top.exponent() == 88);
    lemma_pow2_adds(88, 1074);
    lemma_pow2_adds(44, 44);
    let u: nat = pow2(1074);
    let many: nat = 0x1000_0000_0000_0000_0000_0000_0000_0000_0000nat;
    assert(top.size() == many * u) by (nonlinear_arith)
        requires
            top.size() == UNIT as nat * (pow2(88) * u),
            pow2(88) == 0x100_0000_0000_0000_0000_0000,
            UNIT == 0x10_0000_0000_0000,
            many == 0x1000_0000_0000_0000_0000_0000_0000_0000_0000int,
    ;
    lemma_size_code(top);
    lemma_nearest_scaled(top.size(), 1074, -1074, 53, -1074, INF as nat);
    lemma_product_of_sizes(a, b);
    let s: nat = a.size() * b.size();
    let t: nat = top.size() * u;
    assert(s <= t) by (nonlinear_arith)
        requires
            s <= 0x800_0000_0000_0000_0000_0000_0000_0000_0000int * (u * u),
            t == top.size() * u,
            top.size() == many * u,
            many == 0x1000_0000_0000_0000_0000_0000_0000_0000_0000int,
    ;
    lemma_nearest_monotone(s, t, -2148, 53, -1074, INF as nat);
    reveal(Real::spec_mul);
}

/// The product of a density and an area, from the counts and the areas.
proof fn lemma_forecast_bounds(u: int, o: int, c: int, n: int, a: int, x: int, y: int, d: int)
    requires
        u > 0,
        a > 0,
        u <= o <= 0x1_0000_0000_0000_0000 * u,
        u <= c <= 0x1_0000_0000_0000_0000 * u,
        u <= n <= 0x1_0000_0000_0000_0000 * u,
        x > 0,
        y > 0,
        d > 0,
        near(x * u, c * a, 3),
        near(y * u, n * a, 3),
        near(d * x, o * u, 4),
    ensures
        d * y <= 0x800_0000_0000_0000_0000_0000_0000_0000_0000int * (u * u),
        u * u <= 0x10_0000_0000_0000_0000 * (d * y),
{
    let xu: int = x * u;
    let yu: int = y * u;
    let ca: int = c * a;
    let na: int = n * a;
    let ua: int = u * a;
    let dx: int = d * x;
    let ou: int = o * u;
    let uu: int = u * u;
    let dy: int = d * y;
    let many: int = 0x1_0000_0000_0000_0000;
    assert(ua > 0 && ua <= ca <= many * ua && ua <= na <= many * ua) by (nonlinear_arith)
        requires
            ca == c * a,
            na == n * a,
            ua == u * a,
            u <= c <= many * u,
            u <= n <= many * u,
            a > 0,
            u > 0,
    ;
    assert(uu <= ou <= many * uu && uu > 0) by (nonlinear_arith)
        requires
            ou == o * u,
            uu == u * u,
            u <= o <= many * u,
            u > 0,
    ;
    assert(ca <= 2 * xu && xu <= 2 * ca && na <= 2 * yu && yu <= 2 * na && ou <= 2 * dx && dx <= 2
        * ou);
    // dy * xu == dx * yu
    let p: int = dx * yu;
    assert(dy * xu == p) by (nonlinear_arith)
        requires
            dy == d * y,
            xu == x * u,
            p == dx * yu,
            dx == d * x,
            yu == y * u,
    ;
    assert(dy > 0) by (nonlinear_arith)
        requires
            dy == d * y,
            d > 0,
            y > 0,
    ;
    let k: int = uu * ua;
    assert(p <= (4 * many * many) * k) by (nonlinear_arith)
        requires
            p == dx * yu,
            0 <= dx <= 2 * many * uu,
            0 <= yu <= 2 * many * ua,
            k == uu * ua,
            many > 0,
    ;
    assert(4 * p >= k) by (nonlinear_arith)
        requires
            p == dx * yu,
            2 * dx >= uu,
            2 * yu >= ua,
            k == uu * ua,
            uu > 0,
            ua > 0,
    ;
    assert(dy * ua <= (8 * many * many) * k) by (nonlinear_arith)
        requires
            dy * xu <= (4 * many * many) * k,
            ua <= 2 * xu,
            dy > 0,
    ;
    assert(dy <= (8 * many * many) * uu) by (nonlinear_arith)
        requires
            dy * ua <= (8 * many * many) * (uu * ua),
            ua > 0,
    ;
    assert(8 * many * many == 0x8_0000_0000_0000_0000_0000_0000_0000_0000int) by (nonlinear_arith)
        requires
            many == 0x1_0000_0000_0000_0000,
    ;
    assert(k <= (8 * many) * (dy * ua)) by (nonlinear_arith)
        requires
            k <= 4 * (dy * xu),
            xu <= 2 * many * ua,
            dy > 0,
    ;
    assert(uu <= (8 * many) * dy) by (nonlinear_arith)
        requires
            uu * ua <= (8 * many) * (dy * ua),
            ua > 0,
    ;
}

/// Products in another order.
proof fn lemma_regroup(a: int, b: int, c: int)
    ensures
        (a * b) * c == a * (b * c),
        (a * b) * c == (a * c) * b,
        (a * b) * c == (b * c) * a,
        a * b == b * a,
{
    assert((a * b) * c == a * (b * c)) by (nonlinear_arith);
    assert((a * b) * c == (a * c) * b) by (nonlinear_arith);
    assert((a * b) * c == (b * c) * a) by (nonlinear_arith);
    assert(a * b == b * a) by (nonlinear_arith);
}

/// What a density makes one expect, from the counts: the area of a cell falls out.
proof fn lemma_forecast_ints(u: int, o: int, c: int, n: int, a: int, x: int, y: int, d: int, e: int)
    requires
        u > 0,
        a > 0,
        o > 0,
        c > 0,
        n > 0,
        x > 0,
        y > 0,
        d > 0,
        e > 0,
        near(x * u, c * a, 3),
        near(y * u, n * a, 3),
        near(d * x, o * u, 4),
        near(e * u, d * y, 3),
    ensures
        near(e * c, o * n, 17),
{
    // e u x, d y x == d x y, o u y
    lemma_near_scaled(e * u, d * y, x, 3);
    lemma_near_scaled(d * x, o * u, y, 4);
    lemma_regroup(d, y, x);
    lemma_regroup(d, x, y);
    assert((d * y) * x == (d * x) * y);
    assert((o * u) * y >= 0) by (nonlinear_arith)
        requires
            o > 0,
            u > 0,
            y > 0,
    ;
    lemma_near_chain((e * u) * x, (d * y) * x, (o * u) * y, 3, 4);
    // (e x) u, (o y) u
    lemma_regroup(e, u, x);
    lemma_regroup(o, u, y);
    assert((e * u) * x == (e * x) * u);
    assert((o * u) * y == (o * y) * u);
    // e (x u) and e (c a)
    assert(c * a > 0 && n * a > 0) by (nonlinear_arith)
        requires
            c > 0,
            n > 0,
            a > 0,
    ;
    lemma_near_back(x * u, c * a, 3);
    lemma_near_scaled(c * a, x * u, e, 4);
    lemma_regroup(e, x, u);
    assert(e * (x * u) == (e * x) * u);
    lemma_near_chain(e * (c * a), (e * x) * u, (o * y) * u, 4, 8);
    // o (y u) and o (n a)
    lemma_near_scaled(y * u, n * a, o, 3);
    lemma_regroup(o, y, u);
    assert(o * (y * u) == (o * y) * u);
    assert(o * (n * a) >= 0) by (nonlinear_arith)
        requires
            o > 0,
            n > 0,
            a > 0,
    ;
    lemma_near_chain(e * (c * a), (o * y) * u, o * (n * a), 13, 3);
    lemma_regroup(e, c, a);
    lemma_regroup(o, n, a);
    lemma_near_unscaled(e * c, o * n, a, 17);
}

/// Counts in place of what represents them.
proof fn lemma_forecast_counts(
    u: int,
    o: int,
    c: int,
    n: int,
    e: int,
    seen: int,
    sensed: int,
    unseen: int,
)
    requires
        u > 0,
        e > 0,
        o > 0,
        n > 0,
        c > 0,
        seen > 0,
        sensed > 0,
        unseen > 0,
        near(e * c, o * n, 17),
        near(o, seen * u, 2),
        near(c, sensed * u, 2),
        near(n, unseen * u, 2),
    ensures
        near(e * sensed, (seen * unseen) * u, 27),
{
    let su: int = sensed * u;
    let ou: int = seen * u;
    let nu: int = unseen * u;
    assert(su > 0 && ou > 0 && nu > 0) by (nonlinear_arith)
        requires
            su == sensed * u,
            ou == seen * u,
            nu == unseen * u,
            u > 0,
            seen > 0,
            sensed > 0,
            unseen > 0,
    ;
    lemma_near_back(c, su, 2);
    lemma_near_scaled(su, c, e, 3);
    assert(o * n > 0 && ou * n > 0 && ou * nu > 0) by (nonlinear_arith)
        requires
            o > 0,
            n > 0,
            ou > 0,
            nu > 0,
    ;
    lemma_near_chain(e * su, e * c, o * n, 3, 17);
    lemma_near_scaled(o, ou, n, 2);
    lemma_near_scaled(n, nu, ou, 2);
    lemma_near_chain(o * n, ou * n, ou * nu, 2, 2);
    lemma_near_chain(e * su, o * n, ou * nu, 21, 5);
    lemma_regroup(e, sensed, u);
    assert(e * su == (e * sensed) * u);
    assert(ou * nu == ((seen * unseen) * u) * u) by (nonlinear_arith)
        requires
            ou == seen * u,
            nu == unseen * u,
    ;
    lemma_near_unscaled(e * sensed, (seen * unseen) * u, u, 27);
}

/// Whether a whole number is as near to a quotient as a whole number can be, up to
/// `64` parts in `2^53` of the quotient. The divisor is on the left.
pub open spec fn is_rounded_share(whole: int, divisor: int, dividend: int) -> bool {
    0x20_0000_0000_0000 * size_of(2 * (whole * divisor) - 2 * dividend) <= 0x20_0000_0000_0000
        * divisor + 64 * dividend
}

proof fn lemma_rounded_forecast(u: int, e: int, whole: int, sensed: int, share: int)
    requires
        u > 0,
        sensed > 0,
        share >= 0,
        2 * (whole * u) <= 2 * e + u,
        2 * e + u < 2 * (whole * u) + 2 * u,
        near(e * sensed, share * u, 27),
    ensures
        is_rounded_share(whole, sensed, share),
{
    let p: int = 0x20_0000_0000_0000;
    let g: int = 2 * (whole * u) - 2 * e;
    let su: int = sensed * u;
    assert(-su <= g * sensed <= su) by (nonlinear_arith)
        requires
            su == sensed * u,
            -u <= g <= u,
            sensed > 0,
    ;
    let k: int = whole * sensed;
    assert(g * sensed == 2 * (k * u) - 2 * (e * sensed)) by (nonlinear_arith)
        requires
            g == 2 * (whole * u) - 2 * e,
            k == whole * sensed,
    ;
    let h: int = 2 * k - 2 * share;
    assert(h * u == 2 * (k * u) - 2 * (share * u)) by (nonlinear_arith)
        requires
            h == 2 * k - 2 * share,
    ;
    assert(p * size_of(h * u) <= p * su + 54 * (share * u));
    assert(share * u >= 0) by (nonlinear_arith)
        requires
            share >= 0,
            u > 0,
    ;
    let m: int = p * sensed + 64 * share;
    assert(m * u == p * su + 64 * (share * u)) by (nonlinear_arith)
        requires
            m == p * sensed + 64 * share,
            su == sensed * u,
    ;
    assert(p * h <= m && -m <= p * h) by (nonlinear_arith)
        requires
            p * (h * u) <= m * u,
            -(m * u) <= p * (h * u),
            u > 0,
    ;
}

/// The density and its product with an area are numbers of ordinary size.
proof fn lemma_density_is_near(observed: u64, sensed: u64, cell: Real)
    requires
        observed > 0,
        sensed > 0,
        is_ordinary(cell),
    ensures
        ({
            let area: Real = Real::from_count(sensed).mul(cell.mul(cell));
            let d: Real = Real::from_count(observed).div(area);
            &&& d.finite()
            &&& !d.negative()
            &&& d.value() >= 0x20_0000_0000_0000
            &&& near(d.value() * area.value(), Real::from_count(observed).value() * cell_unit(), 4)
        }),
{
    let o: Real = Real::from_count(observed);
    let area: Real = Real::from_count(sensed).mul(cell.mul(cell));
    let d: Real = o.div(area);
    lemma_count_between(observed);
    lemma_area(sensed, cell);
    lemma_powers();
    lemma2_to64_rest();
    lemma_quotient_is_finite(o, area);
    assert(!d.negative()) by {
        reveal(Real::spec_div);
    }
    lemma_quotient_error_below(o, area);
    lemma_quotient_is_not_tiny(
        cell_unit(),
        o.value(),
        area.value(),
        d.value(),
        pow2(864) as int,
    );
    lemma_quotient_is_near(o, area);
}

/// The number of actors expected on unobserved ground does not depend on the size of a
/// cell: it is the number of actors observed, by the number of unobserved cells, over the
/// number of sensed cells, rounded to the nearest whole number.
pub proof fn lemma_expected_is_the_share(
    observed: usize,
    sensed: usize,
    unobserved: usize,
    cell: Real,
)
    requires
        observed > 0,
        sensed > 0,
        unobserved > 0,
        is_ordinary(cell),
        spec_expected(spec_density(observed, sensed, cell), unobserved, cell) < usize::MAX,
    ensures
        is_rounded_share(
            spec_expected(spec_density(observed, sensed, cell), unobserved, cell) as int,
            sensed as int,
            observed * unobserved,
        ),
{
    let o: Real = Real::from_count(observed as u64);
    let c: Real = Real::from_count(sensed as u64);
    let n: Real = Real::from_count(unobserved as u64);
    let square: Real = cell.mul(cell);
    let x: Real = c.mul(square);
    let y: Real = n.mul(square);
    let d: Real = o.div(x);
    let e: Real = d.mul(y);
    let u: int = cell_unit();
    lemma_large_unit();
    lemma_count_between(observed as u64);
    lemma_count_between(sensed as u64);
    lemma_count_between(unobserved as u64);
    lemma_area(sensed as u64, cell);
    lemma_area(unobserved as u64, cell);
    lemma_density_is_near(observed as u64, sensed as u64, cell);
    lemma_forecast_bounds(
        u,
        o.value(),
        c.value(),
        n.value(),
        square.value(),
        x.value(),
        y.value(),
        d.value(),
    );
    lemma_product_is_finite(d, y);
    assert(!e.negative()) by {
        reveal(Real::spec_mul);
    }
    lemma_forecast_is_not_tiny(d, y);
    lemma_product_is_near(d, y);
    lemma_forecast_ints(
        u,
        o.value(),
        c.value(),
        n.value(),
        square.value(),
        x.value(),
        y.value(),
        d.value(),
        e.value(),
    );
    lemma_count_is_near(observed as u64);
    lemma_count_is_near(sensed as u64);
    lemma_count_is_near(unobserved as u64);
    lemma_forecast_counts(
        u,
        o.value(),
        c.value(),
        n.value(),
        e.value(),
        observed as int,
        sensed as int,
        unobserved as int,
    );
    let share: int = observed * unobserved;
    assert(share >= 0) by (nonlinear_arith)
        requires
            share == observed * unobserved,
    ;
    lemma_nearest_whole(e.value(), u);
    lemma_rounded_forecast(u, e.value(), e.nearest_integer(), sensed as int, share);
}

/// The whole number nearest to a number.
proof fn lemma_nearest_whole(v: int, u: int)
    requires
        v >= 0,
        u > 0,
    ensures
        ({
            let whole: int = (2 * v + u) / (2 * u);
            &&& whole >= 0
            &&& 2 * (whole * u) <= 2 * v + u
            &&& 2 * v + u < 2 * (whole * u) + 2 * u
        }),
{
    lemma_fundamental_div_mod(2 * v + u, 2 * u);
    lemma_mod_bound(2 * v + u, 2 * u);
    let whole: int = (2 * v + u) / (2 * u);
    assert((2 * u) * whole == 2 * (whole * u)) by (nonlinear_arith);
    lemma_div_pos_is_pos(2 * v + u, 2 * u);
}

proof fn lemma_forecast_is_not_tiny(d: Real, y: Real)
    requires
        d.finite(),
        y.finite(),
        !d.negative(),
        !y.negative(),
        d.mul(y).finite(),
        cell_unit() * cell_unit() <= 0x10_0000_0000_0000_0000 * (d.value() * y.value()),
    ensures
        d.mul(y).value() >= 0x20_0000_0000_0000,
{
    lemma2_to64_rest();
    lemma_powers();
    lemma_product_error(d, y);
    assert(!d.mul(y).negative()) by {
        reveal(Real::spec_mul);
    }
    let u: int = cell_unit();
    let e: int = d.mul(y).value();
    let s: int = d.value() * y.value();
    let b: int = pow2(864) as int;
    if e < 0x20_0000_0000_0000 {
        assert(e * u <= 0x20_0000_0000_0000 * u) by (nonlinear_arith)
            requires
                e <= 0x20_0000_0000_0000,
                u > 0,
        ;
        assert(u * u >= (0x1_0000_0000_0000_0000 * b) * u) by (nonlinear_arith)
            requires
                u >= 0x1_0000_0000_0000_0000 * b,
                u > 0,
        ;
        lemma_pow2_strictly_increases(64, 864);
        lemma_pow2_adds(64, 800);
        assert((0x1_0000_0000_0000_0000 * b) * u >= 0x1_0000_0000_0000_0000
            * (0x1_0000_0000_0000_0000 * u)) by (nonlinear_arith)
            requires
                b >= 0x1_0000_0000_0000_0000,
                u > 0,
        ;
        assert(s == (d.size() * y.size()) as int);
        assert(s <= 0x40_0000_0000_0000 * u);
        assert(u * u <= 0x10_0000_0000_0000_0000 * s);
        assert(false);
    }
}

/// The density that is reported is the number of actors observed over the area of the
/// sensed cells, up to rounding.
pub proof fn lemma_density_is_actors_by_area(observed: usize, sensed: usize, cell: Real)
    requires
        observed > 0,
        sensed > 0,
        is_ordinary(cell),
    ensures
        ({
            let d: Real = spec_density(observed, sensed, cell);
            let u: int = cell_unit();
            &&& d.finite()
            &&& near(
                d.value() * (sensed * (cell.value() * cell.value())),
                observed * (u * u * u),
                21,
            )
        }),
{
    let o: Real = Real::from_count(observed as u64);
    let c: Real = Real::from_count(sensed as u64);
    let square: Real = cell.mul(cell);
    let x: Real = c.mul(square);
    let d: Real = o.div(x);
    lemma_large_unit();
    lemma_count_between(observed as u64);
    lemma_count_between(sensed as u64);
    lemma_count_is_near(observed as u64);
    lemma_count_is_near(sensed as u64);
    lemma_area(sensed as u64, cell);
    lemma_density_is_near(observed as u64, sensed as u64, cell);
    let s: int = cell.value() * cell.value();
    assert(s >= 0) by (nonlinear_arith)
        requires
            s == cell.value() * cell.value(),
    ;
    lemma_density_ints(
        cell_unit(),
        o.value(),
        c.value(),
        square.value(),
        s,
        x.value(),
        d.value(),
        observed as int,
        sensed as int,
    );
}

proof fn lemma_density_ints(
    u: int,
    o: int,
    c: int,
    a: int,
    s: int,
    x: int,
    d: int,
    seen: int,
    sensed: int,
)
    requires
        u > 0,
        o > 0,
        c > 0,
        a > 0,
        s >= 0,
        x > 0,
        d > 0,
        seen > 0,
        sensed > 0,
        near(x * u, c * a, 3),
        near(a * u, s, 3),
        near(d * x, o * u, 4),
        near(o, seen * u, 2),
        near(c, sensed * u, 2),
    ensures
        near(d * (sensed * s), seen * (u * u * u), 21),
{
    let uu: int = u * u;
    let uuu: int = u * u * u;
    let su: int = sensed * u;
    let ou: int = seen * u;
    assert(su > 0 && ou > 0 && uu > 0 && uuu > 0 && c * a > 0 && d * c > 0 && o * uuu > 0)
        by (nonlinear_arith)
        requires
            su == sensed * u,
            ou == seen * u,
            uu == u * u,
            uuu == u * u * u,
            u > 0,
            seen > 0,
            sensed > 0,
            c > 0,
            a > 0,
            d > 0,
            o > 0,
    ;
    // d (c a) and d (x u) == (d x) u and (o u) u
    lemma_near_back(x * u, c * a, 3);
    lemma_near_scaled(c * a, x * u, d, 4);
    lemma_near_scaled(d * x, o * u, u, 4);
    lemma_regroup(d, x, u);
    lemma_regroup(o, u, u);
    assert(o * uu > 0) by (nonlinear_arith)
        requires
            o > 0,
            uu > 0,
    ;
    lemma_near_chain(d * (c * a), d * (x * u), o * uu, 4, 4);
    // by u: (d c) (a u)
    lemma_near_scaled(d * (c * a), o * uu, u, 9);
    let dc: int = d * c;
    assert((d * (c * a)) * u == dc * (a * u)) by (nonlinear_arith)
        requires
            dc == d * c,
    ;
    assert((o * uu) * u == o * uuu) by (nonlinear_arith)
        requires
            uu == u * u,
            uuu == u * u * u,
    ;
    lemma_near_back(a * u, s, 3);
    lemma_near_scaled(s, a * u, dc, 4);
    lemma_near_chain(dc * s, dc * (a * u), o * uuu, 4, 9);
    // counts
    lemma_near_back(c, su, 2);
    let ds: int = d * s;
    assert(ds >= 0) by (nonlinear_arith)
        requires
            ds == d * s,
            d > 0,
            s >= 0,
    ;
    lemma_near_scaled(su, c, ds, 3);
    assert(c * ds == dc * s) by (nonlinear_arith)
        requires
            ds == d * s,
            dc == d * c,
    ;
    lemma_near_chain(su * ds, dc * s, o * uuu, 3, 14);
    lemma_near_scaled(o, ou, uuu, 2);
    assert(ou * uuu > 0) by (nonlinear_arith)
        requires
            ou > 0,
            uuu > 0,
    ;
    lemma_near_chain(su * ds, o * uuu, ou * uuu, 18, 2);
    let l: int = d * (sensed * s);
    let r: int = seen * uuu;
    assert(su * ds == l * u) by (nonlinear_arith)
        requires
            su == sensed * u,
            ds == d * s,
            l == d * (sensed * s),
    ;
    assert(ou * uuu == r * u) by (nonlinear_arith)
        requires
            ou == seen * u,
            r == seen * uuu,
    ;
    lemma_near_unscaled(l, r, u, 21);
}

/// Whether the body of every observed actor fits in the middle of every unobserved cell.
pub open spec fn fits_everywhere(grid: &NavGrid, templates: Seq<EntityView>, cells: Seq<usize>) -> bool {
    forall|t: int, i: int|
        0 <= t < templates.len() && 0 <= i < cells.len() ==> #[trigger] walkable(
            grid,
            cell_place(grid, #[trigger] cells[i] as int),
            (#[trigger] templates[t]).collider,
        )
}

/// Where every body fits, every cell that is looked at gets an actor, until there are
/// enough.
proof fn lemma_every_cell_is_used(
    grid: &NavGrid,
    templates: Seq<EntityView>,
    cells: Seq<usize>,
    i: int,
    target: int,
    made: Seq<EntityView>,
    state: u64,
)
    requires
        0 <= i <= cells.len(),
        templates.len() > 0,
        fits_everywhere(grid, templates, cells),
        made.len() <= target <= made.len() + (cells.len() - i),
    ensures
        generated_from(grid, templates, cells, i, target, made, state).len() == target,
    decreases cells.len() - i,
{
    if i < cells.len() && made.len() != target {
        let drawn: u64 = xorshift(state);
        let t: int = drawn as int % templates.len() as int;
        let template: EntityView = templates[t];
        let position: Point = cell_place(grid, cells[i] as int);
        lemma_mod_bound(drawn as int, templates.len() as int);
        assert(walkable(grid, position, template.collider));
        let turned: u64 = xorshift(drawn);
        lemma_every_cell_is_used(
            grid,
            templates,
            cells,
            i + 1,
            target,
            made.push(
                synthetic(
                    template,
                    made.len(),
                    position,
                    unit_of(turned).mul(Real::of(FULL_TURN)),
                ),
            ),
            turned,
        );
    }
}

/// Never more actors are generated than are to be.
proof fn lemma_no_more_than_target(
    grid: &NavGrid,
    templates: Seq<EntityView>,
    cells: Seq<usize>,
    i: int,
    target: int,
    made: Seq<EntityView>,
    state: u64,
)
    requires
        made.len() <= target,
    ensures
        generated_from(grid, templates, cells, i, target, made, state).len() <= target,
    decreases cells.len() - i,
{
    if i < cells.len() && made.len() != target {
        let drawn: u64 = xorshift(state);
        let template: EntityView = templates[drawn as int % templates.len() as int];
        let position: Point = cell_place(grid, cells[i] as int);
        let turned: u64 = xorshift(drawn);
        if walkable(grid, position, template.collider) {
            lemma_no_more_than_target(
                grid,
                templates,
                cells,
                i + 1,
                target,
                made.push(
                    synthetic(
                        template,
                        made.len(),
                        position,
                        unit_of(turned).mul(Real::of(FULL_TURN)),
                    ),
                ),
                turned,
            );
        } else {
            lemma_no_more_than_target(grid, templates, cells, i + 1, target, made, drawn);
        }
    }
}

/// What bodies fit on some cells fits on the same cells in another order.
proof fn lemma_order_does_not_matter(
    grid: &NavGrid,
    templates: Seq<EntityView>,
    cells: Seq<usize>,
    others: Seq<usize>,
)
    requires
        fits_everywhere(grid, templates, cells),
        cells.to_multiset() == others.to_multiset(),
    ensures
        fits_everywhere(grid, templates, others),
        others.len() == cells.len(),
{
    cells.to_multiset_ensures();
    others.to_multiset_ensures();
    assert forall|t: int, i: int|
        0 <= t < templates.len() && 0 <= i < others.len() implies #[trigger] walkable(
        grid,
        cell_place(grid, #[trigger] others[i] as int),
        (#[trigger] templates[t]).collider,
    ) by {
        assert(others.contains(others[i]));
        assert(others.to_multiset().count(others[i]) > 0);
        assert(cells.to_multiset().count(others[i]) > 0);
        assert(cells.contains(others[i]));
        let j: int = cells.index_of(others[i]);
        assert(walkable(grid, cell_place(grid, cells[j] as int), templates[t].collider));
    }
}

/// Whether a number of generated actors is what is expected beyond those known: the
/// rounded share of the observed ones, unless that cannot be counted; no more, nor more
/// than there are cells, and no fewer where all bodies fit.
pub open spec fn is_due(made: int, expected: int, c: Census, fits: bool) -> bool {
    &&& expected < usize::MAX ==> is_rounded_share(
        expected,
        c.sensed as int,
        (c.templates.len() * c.unobserved.len()) as int,
    )
    &&& made <= c.unobserved.len()
    &&& made == 0 || made <= expected - c.known
    &&& fits ==> made == c.unobserved.len() || made >= expected - c.known
}

/// As many actors are generated as the actors observed, by the unobserved cells over the
/// sensed ones, exceed those known beyond the sensed circle; never more, nor more than
/// there are unobserved cells, and no fewer where every body fits in every one of them.
pub proof fn lemma_population_is_the_share(scene: &Scene, radius: Real)
    requires
        settles(scene, radius),
        is_ordinary(scene.grid.cell_size),
        scene.grid.blocked@.len() <= usize::MAX,
        scene.entities@.len() <= usize::MAX,
    ensures
        ({
            let agent: Point = agent_from(views(scene.entities@), 0).unwrap();
            let c: Census = census(scene, agent, radius.mul(radius));
            let made: int = populated(scene, radius).0.len() as int;
            exists|expected: int| #[trigger]
                is_due(
                    made,
                    expected,
                    c,
                    fits_everywhere(&scene.grid, c.templates, c.unobserved),
                )
        }),
{
    let agent: Point = agent_from(views(scene.entities@), 0).unwrap();
    let c: Census = census(scene, agent, radius.mul(radius));
    let cell: Real = scene.grid.cell_size;
    let entities: Seq<EntityView> = views(scene.entities@);
    lemma_census_is_countable(&scene.grid, entities, entities.len() as int, agent, radius.mul(radius));
    let observed: usize = c.templates.len() as usize;
    let sensed: usize = c.sensed as usize;
    let unobserved: usize = c.unobserved.len() as usize;
    let density: Real = spec_density(observed, sensed, cell);
    let expected: int = spec_expected(density, unobserved, cell) as int;
    if expected < usize::MAX {
        lemma_expected_is_the_share(observed, sensed, unobserved, cell);
    }
    let target: int = target_count(expected, c.known as int, c.unobserved.len() as int);
    let (cells, state): (Seq<usize>, u64) = shuffled(
        c.unobserved,
        c.unobserved.len() - 1,
        seed_of(encode_utf8(scene.metadata.scene_id@)),
    );
    lemma_shuffled_permutes(
        c.unobserved,
        c.unobserved.len() - 1,
        seed_of(encode_utf8(scene.metadata.scene_id@)),
    );
    lemma_no_more_than_target(
        &scene.grid,
        c.templates,
        cells,
        0,
        target,
        Seq::empty(),
        state,
    );
    if fits_everywhere(&scene.grid, c.templates, c.unobserved) {
        lemma_order_does_not_matter(&scene.grid, c.templates, c.unobserved, cells);
        lemma_every_cell_is_used(
            &scene.grid,
            c.templates,
            cells,
            0,
            target,
            Seq::empty(),
            state,
        );
    }
    let made: int = populated(scene, radius).0.len() as int;
    assert(made <= target);
    assert(fits_everywhere(&scene.grid, c.templates, c.unobserved) ==> made == target);
    assert(observed * unobserved == (c.templates.len() * c.unobserved.len()) as int);
    assert(expected < usize::MAX ==> is_rounded_share(
        expected,
        c.sensed as int,
        (c.templates.len() * c.unobserved.len()) as int,
    ));
    assert(is_due(
        made,
        expected,
        c,
        fits_everywhere(&scene.grid, c.templates, c.unobserved),
    ));
}

/// Whether something is one of the entities that a census counts as actors.
pub open spec fn is_actor(entity: EntityView) -> bool {
    entity.category == "actor"@
}

/// Number of actors among the first `n` entities.
pub open spec fn actors_among(entities: Seq<EntityView>, n: int) -> nat {
    entities.take(n).filter(|e: EntityView| is_actor(e)).len()
}

/// Number of cells among the first `n` that are not blocked.
pub open spec fn open_among(grid: &NavGrid, n: int) -> nat {
    grid.blocked@.take(n).filter(|b: u8| b == 0).len()
}

/// The unobserved cells are fewer than the cells, and the observed actors fewer than the
/// entities.
proof fn lemma_census_is_countable(
    grid: &NavGrid,
    entities: Seq<EntityView>,
    n: int,
    agent: Point,
    radius_sq: Real,
)
    requires
        0 <= n <= entities.len(),
    ensures
        templates_of(entities, n, agent, radius_sq).len() <= n,
        sensed_count(grid, grid.blocked@.len() as int, agent, radius_sq) + unobserved_cells(
            grid,
            grid.blocked@.len() as int,
            agent,
            radius_sq,
        ).len() == open_among(grid, grid.blocked@.len() as int),
        open_among(grid, grid.blocked@.len() as int) <= grid.blocked@.len(),
    decreases n,
{
    if n > 0 {
        lemma_census_is_countable(grid, entities, n - 1, agent, radius_sq);
    } else {
        lemma_cells_are_parted(grid, grid.blocked@.len() as int, agent, radius_sq);
    }
}

/// Every cell that is not blocked is either sensed or unobserved: the two counts make up
/// all of them.
pub proof fn lemma_cells_are_parted(grid: &NavGrid, n: int, agent: Point, radius_sq: Real)
    requires
        0 <= n <= grid.blocked@.len(),
    ensures
        sensed_count(grid, n, agent, radius_sq) + unobserved_cells(grid, n, agent, radius_sq).len()
            == open_among(grid, n),
        open_among(grid, n) <= n,
    decreases n,
{
    let is_open: spec_fn(u8) -> bool = |b: u8| b == 0;
    reveal(Seq::filter);
    if n > 0 {
        lemma_cells_are_parted(grid, n - 1, agent, radius_sq);
        let first: Seq<u8> = grid.blocked@.take(n);
        assert(first.drop_last() =~= grid.blocked@.take(n - 1));
        assert(first.last() == grid.blocked@[n - 1]);
    } else {
        assert(grid.blocked@.take(0) =~= Seq::empty());
    }
}

/// Every actor whose distance from the agent is a number is either observed or known
/// beyond the circle: the two counts make up all of them.
pub proof fn lemma_actors_are_parted(
    entities: Seq<EntityView>,
    n: int,
    agent: Point,
    radius_sq: Real,
)
    requires
        0 <= n <= entities.len(),
        !radius_sq.nan(),
        forall|i: int|
            0 <= i < n && is_actor(#[trigger] entities[i]) ==> !distance_sq(
                entities[i].position,
                agent,
            ).nan(),
    ensures
        templates_of(entities, n, agent, radius_sq).len() + known_beyond(
            entities,
            n,
            agent,
            radius_sq,
        ) == actors_among(entities, n),
    decreases n,
{
    let wanted: spec_fn(EntityView) -> bool = |e: EntityView| is_actor(e);
    reveal(Seq::filter);
    if n > 0 {
        lemma_actors_are_parted(entities, n - 1, agent, radius_sq);
        let first: Seq<EntityView> = entities.take(n);
        assert(first.drop_last() =~= entities.take(n - 1));
        assert(first.last() == entities[n - 1]);
    } else {
        assert(entities.take(0) =~= Seq::empty());
    }
}

/// Whether two points are no farther apart than a radius, up to 512 parts in `2^53` of
/// the square of a bound.
pub open spec fn lies_within(point: Point, center: Point, radius: Real, most: int) -> bool {
    let dx: int = point.x.value() - center.x.value();
    let dz: int = point.z.value() - center.z.value();
    0x20_0000_0000_0000 * (dx * dx + dz * dz - radius.value() * radius.value()) <= 512 * (most
        * most)
}

/// Whether two points are no nearer than a radius, up to the same sliver.
pub open spec fn lies_beyond(point: Point, center: Point, radius: Real, most: int) -> bool {
    let dx: int = point.x.value() - center.x.value();
    let dz: int = point.z.value() - center.z.value();
    0x20_0000_0000_0000 * (radius.value() * radius.value() - (dx * dx + dz * dz)) <= 512 * (most
        * most)
}

/// What is sensed lies in a circle of the sensing radius around the agent, and what is
/// not lies outside, up to a sliver.
pub proof fn lemma_sensed_is_within_the_radius(
    point: Point,
    agent: Point,
    radius: Real,
    most: int,
)
    requires
        bounding(most),
        within_bound(point, most),
        within_bound(agent, most),
        reaches(radius, most),
    ensures
        distance_sq(point, agent).le(radius.mul(radius)) ==> lies_within(
            point,
            agent,
            radius,
            most,
        ),
        !distance_sq(point, agent).le(radius.mul(radius)) ==> lies_beyond(
            point,
            agent,
            radius,
            most,
        ),
{
    let d: Real = distance_sq(point, agent);
    let q: Real = radius.mul(radius);
    let u: int = cell_unit();
    lemma_large_unit();
    lemma_unit_is_nothing(most);
    lemma_distance_sq(point, agent, most);
    lemma_square_of(radius, most);
    lemma_value_order(d, q);
    assert(d.value() <= q.value() ==> d.value() * u <= q.value() * u) by (nonlinear_arith)
        requires
            u > 0,
    ;
    assert(d.value() >= q.value() ==> d.value() * u >= q.value() * u) by (nonlinear_arith)
        requires
            u > 0,
    ;
    assert(most * most >= 0) by (nonlinear_arith);
}

} // verus!
