//! No point of a segment is nearer than the computed distance to the segment,
//! but for a sliver.
use vstd::arithmetic::power2::*;
use vstd::prelude::*;

use crate::conversion::lemma_neg_value;
use crate::crossing::{cell_unit, lemma_large_unit};
use crate::geometry::{
    distance, distance_sq, nearest_share, plain_hypot, spec_segment_distance_sq, Point, EPSILON, HUGE, ONE, TINY, ZERO,
};
use crate::number::{from_sum, Real, UNIT};
use crate::ordering::{
    lemma_mul_monotone, lemma_nan_spreads, lemma_sum_error, lemma_sum_monotone, lemma_value_order,
    lemma_value_rank,
};
use crate::passage::along;
use crate::roots::lemma_quotient_at_most_one;
use crate::shortest::lemma_step_lengths;
use crate::unit::{
    lemma_power_product, lemma_product_error, lemma_quotient_error, lemma_quotient_error_below,
    lemma_root_error, lemma_root_is_finite, lemma_size_of_zero, lemma_tiny_hypot,
};

verus! {

/// Size of a number that is not negative or negative.
pub open spec fn size_of(x: int) -> int {
    if x < 0 {
        -x
    } else {
        x
    }
}

/// A number far from the limits: at most `2^110`, whatever its sign.
pub open spec fn modest(r: Real) -> bool {
    r.magnitude() <= 0x46d0_0000_0000_0000
}

/// A sum of any signs is rounded by at most one part in `2^53`.
pub proof fn lemma_close_sum(x: Real, y: Real)
    requires
        x.finite(),
        y.finite(),
        x.magnitude() <= 0x4db0_0000_0000_0000,
        y.magnitude() <= 0x4db0_0000_0000_0000,
    ensures
        ({
            let t: int = x.value() + y.value();
            let r: Real = x.add(y);
            &&& r.finite()
            &&& 0x20_0000_0000_0000 * size_of(r.value() - t) <= size_of(t)
        }),
{
    reveal(Real::spec_add);
    lemma2_to64_rest();
    let t: int = x.value() + y.value();
    let r: Real = x.add(y);
    let n: int = size_of(t);
    let s: Real = from_sum(n, false);
    let half: Real = Real { bits: 0x4db0_0000_0000_0000 };
    let top: Real = Real { bits: 0x4dc0_0000_0000_0000 };
    assert(half.significand() == UNIT as nat && half.exponent() == 168);
    assert(top.significand() == UNIT as nat && top.exponent() == 169);
    let ax: Real = x.abs();
    let ay: Real = y.abs();
    lemma_value_order(ax, half);
    lemma_value_order(ay, half);
    assert(ax.value() == size_of(x.value()));
    assert(ay.value() == size_of(y.value()));
    lemma_pow2_unfold(1243);
    let c: nat = pow2(1242);
    let d: nat = pow2(1243);
    assert(UNIT as nat * d == 2 * (UNIT as nat * c)) by (nonlinear_arith)
        requires
            d == 2 * c,
    ;
    lemma_sum_monotone(n, top.value(), false, false);
    lemma_value_rank(top, false);
    lemma_sum_monotone(0, n, false, false);
    assert(s.finite());
    lemma_sum_error(n as nat);
    if t == 0 {
        lemma_size_of_zero(r);
    } else {
        assert(r.magnitude() == s.magnitude());
        assert(r.size() == s.size());
    }
}

/// A difference of any signs is rounded by at most one part in `2^53`.
pub proof fn lemma_close_difference(x: Real, y: Real)
    requires
        x.finite(),
        y.finite(),
        modest(x),
        modest(y),
    ensures
        ({
            let t: int = x.value() - y.value();
            let r: Real = x.sub(y);
            &&& r.finite()
            &&& 0x20_0000_0000_0000 * size_of(r.value() - t) <= size_of(t)
        }),
{
    lemma_neg_value(y);
    lemma_close_sum(x, y.spec_neg());
}

/// A product of any signs is rounded by at most one part in `2^53`, or half a
/// unit.
pub proof fn lemma_close_product(x: Real, y: Real)
    requires
        modest(x),
        modest(y),
    ensures
        ({
            let t: int = x.value() * y.value();
            let r: Real = x.mul(y);
            let u: int = cell_unit();
            let p: int = 0x20_0000_0000_0000;
            &&& r.finite()
            &&& r.magnitude() <= 0x4db0_0000_0000_0000
            &&& p * size_of(r.value() * u - t) <= size_of(r.value()) * u + p * u
        }),
{
    lemma2_to64_rest();
    let r: Real = x.mul(y);
    let u: int = cell_unit();
    let ax: Real = x.abs();
    let ay: Real = y.abs();
    let most: Real = Real { bits: 0x46d0_0000_0000_0000 };
    let top: Real = Real { bits: 0x4db0_0000_0000_0000 };
    lemma_power_product(most, most, top);
    lemma_mul_monotone(ax, most, ay, most);
    assert(r.magnitude() == ax.mul(ay).magnitude()) by {
        reveal(Real::spec_mul);
    }
    lemma_product_error(x, y);
    assert(r.magnitude() > 0 ==> r.negative() == (x.negative() != y.negative())) by {
        reveal(Real::spec_mul);
    }
    lemma_large_unit();
    if r.magnitude() == 0 {
        lemma_size_of_zero(r);
    }
    lemma_signed_product(
        x.size() as int,
        y.size() as int,
        r.size() as int,
        x.value(),
        y.value(),
        r.value(),
        u,
    );
}

/// A product of any signs, from the sizes.
proof fn lemma_signed_product(i: int, j: int, a: int, x: int, y: int, r: int, u: int)
    requires
        u > 0,
        x == i || x == -i,
        y == j || y == -j,
        a > 0 && x == i && y == j && i > 0 && j > 0 ==> r == a,
        a > 0 && x == -i && y == -j && i > 0 && j > 0 ==> r == a,
        a > 0 && x == -i && y == j && i > 0 && j > 0 ==> r == -a,
        a > 0 && x == i && y == -j && i > 0 && j > 0 ==> r == -a,
        r == a || r == -a,
        i >= 0,
        j >= 0,
        a >= 0,
        0x20_0000_0000_0000 * (i * j) <= 0x20_0000_0000_0000 * (a * u) + a * u + 0x20_0000_0000_0000
            * u,
        0x20_0000_0000_0000 * (a * u) <= 0x20_0000_0000_0000 * (i * j) + a * u + 0x20_0000_0000_0000
            * u,
    ensures
        0x20_0000_0000_0000 * size_of(r * u - x * y) <= size_of(r) * u + 0x20_0000_0000_0000 * u,
{
    let s: int = i * j;
    let au: int = a * u;
    assert(au >= 0 && s >= 0) by (nonlinear_arith)
        requires
            au == a * u,
            s == i * j,
            a >= 0,
            i >= 0,
            j >= 0,
            u > 0,
    ;
    assert((-a) * u == -au) by (nonlinear_arith)
        requires
            au == a * u,
    ;
    assert(size_of(r) == a);
    assert((-i) * j == -s && i * (-j) == -s && (-i) * (-j) == s) by (nonlinear_arith)
        requires
            s == i * j,
    ;
    assert(i == 0 || j == 0 ==> s == 0) by (nonlinear_arith)
        requires
            s == i * j,
    ;
}

/// A bound on coordinates: at least one, and at most `2^100`.
pub open spec fn bounding(most: int) -> bool {
    cell_unit() <= most <= pow2(1174)
}

/// Whether a number is finite and no larger than a bound.
pub open spec fn reaches(r: Real, most: int) -> bool {
    r.finite() && size_of(r.value()) <= most
}

pub proof fn lemma_modest(r: Real, most: int)
    requires
        bounding(most),
        r.finite(),
        size_of(r.value()) <= 8 * most,
    ensures
        modest(r),
{
    let top: Real = Real { bits: 0x46d0_0000_0000_0000 };
    assert(top.significand() == UNIT as nat && top.exponent() == 58);
    lemma2_to64();
    lemma2_to64_rest();
    lemma_pow2_adds(52, 1132);
    lemma_pow2_adds(10, 1174);
    let c: int = pow2(1174) as int;
    lemma_pow2_pos(1174);
    assert(top.value() == 0x400 * c);
    let a: Real = r.abs();
    assert(a.value() == size_of(r.value()));
    lemma_value_order(a, top);
}

pub proof fn lemma_mul_bound(a: int, b: int, p: int, q: int)
    requires
        size_of(a) <= p,
        size_of(b) <= q,
    ensures
        size_of(a * b) <= p * q,
{
    assert(a * b <= p * q && -(p * q) <= a * b) by (nonlinear_arith)
        requires
            -p <= a <= p,
            -q <= b <= q,
            p >= 0,
            q >= 0,
    ;
}

/// Half a unit in a product is nothing beside the square of a bound.
pub proof fn lemma_unit_is_nothing(most: int)
    requires
        bounding(most),
    ensures
        0x20_0000_0000_0000 * cell_unit() <= most * most,
        most > 0x100_0000_0000_0000,
        0x20_0000_0000_0000 * cell_unit() <= most * cell_unit(),
{
    lemma_large_unit();
    let u: int = cell_unit();
    assert(0x20_0000_0000_0000 * u <= most * u) by (nonlinear_arith)
        requires
            most >= u,
            u >= 0x100_0000_0000_0000,
    ;
    assert(most * u <= most * most) by (nonlinear_arith)
        requires
            most >= u,
            u > 0,
    ;
    lemma2_to64();
    assert(u > 0x100_0000_0000_0000) by {
        lemma2_to64_rest();
        lemma_pow2_strictly_increases(57, 1074);
        assert(pow2(57) == 0x200_0000_0000_0000);
    }
}

/// The product of two rounded differences is the product of the differences, up
/// to sixteen parts in `2^53` of the square of a bound.
proof fn lemma_product_of_rounded(u: int, m: int, ex: int, ey: int, x: int, y: int, v: int)
    requires
        u > 0,
        m > 0x100_0000_0000_0000,
        0x20_0000_0000_0000 * u <= m * m,
        size_of(ex) <= 2 * m,
        size_of(ey) <= 2 * m,
        0x20_0000_0000_0000 * size_of(x - ex) <= 2 * m,
        0x20_0000_0000_0000 * size_of(y - ey) <= 2 * m,
        0x20_0000_0000_0000 * size_of(v * u - x * y) <= size_of(v) * u + 0x20_0000_0000_0000 * u,
    ensures
        0x20_0000_0000_0000 * size_of(v * u - ex * ey) <= 16 * (m * m),
        size_of(v * u) <= 5 * (m * m),
        size_of(x * y) <= 5 * (m * m),
{
    let p: int = 0x20_0000_0000_0000;
    let dx: int = x - ex;
    let dy: int = y - ey;
    let s: int = m * m;
    lemma_mul_bound(ex, p * dy, 2 * m, 2 * m);
    lemma_mul_bound(ey, p * dx, 2 * m, 2 * m);
    lemma_mul_bound(dx, p * dy, m, 2 * m);
    lemma_mul_bound(ex, ey, 2 * m, 2 * m);
    assert((2 * m) * (2 * m) == 4 * s && m * (2 * m) == 2 * s) by (nonlinear_arith)
        requires
            s == m * m,
    ;
    assert(x * y == ex * ey + ex * dy + ey * dx + dx * dy) by (nonlinear_arith)
        requires
            dx == x - ex,
            dy == y - ey,
    ;
    assert(ex * (p * dy) == p * (ex * dy) && ey * (p * dx) == p * (ey * dx) && dx * (p * dy) == p
        * (dx * dy)) by (nonlinear_arith);
    assert(p * size_of(x * y - ex * ey) <= 10 * s);
    // the third product is smaller still
    lemma_mul_bound(p * dx, p * dy, 2 * m, 2 * m);
    assert((p * dx) * (p * dy) == p * (p * (dx * dy))) by (nonlinear_arith);
    assert(p * size_of(x * y - ex * ey) <= 9 * s);
    assert(size_of(v) * u == size_of(v * u)) by {
        if v < 0 {
            assert((-v) * u == -(v * u)) by (nonlinear_arith);
            assert(v * u <= 0) by (nonlinear_arith)
                requires
                    v < 0,
                    u > 0,
            ;
        } else {
            assert(v * u >= 0) by (nonlinear_arith)
                requires
                    v >= 0,
                    u > 0,
            ;
        }
    }
    assert(s > 0) by (nonlinear_arith)
        requires
            s == m * m,
            m > 0,
    ;
}

/// Squares and products of the differences along one axis.
proof fn lemma_axis_products(f: Real, t: Real, c: Real, most: int)
    requires
        bounding(most),
        reaches(f, most),
        reaches(t, most),
        reaches(c, most),
    ensures
        ({
            let d: Real = t.sub(f);
            let w: Real = c.sub(f);
            let x: int = t.value() - f.value();
            let y: int = c.value() - f.value();
            let u: int = cell_unit();
            let p: int = 0x20_0000_0000_0000;
            let b: Real = d.mul(d);
            let a: Real = w.mul(d);
            &&& d.finite()
            &&& p * size_of(d.value() - x) <= 2 * most
            &&& size_of(x) <= 2 * most
            &&& b.finite() && b.magnitude() <= 0x4db0_0000_0000_0000
            &&& a.finite() && a.magnitude() <= 0x4db0_0000_0000_0000
            &&& b.value() >= 0
            &&& p * size_of(b.value() * u - x * x) <= 16 * (most * most)
            &&& size_of(b.value() * u) <= 5 * (most * most)
            &&& p * size_of(a.value() * u - y * x) <= 16 * (most * most)
            &&& size_of(a.value() * u) <= 5 * (most * most)
        }),
{
    let d: Real = t.sub(f);
    let w: Real = c.sub(f);
    let x: int = t.value() - f.value();
    let y: int = c.value() - f.value();
    lemma_unit_is_nothing(most);
    lemma_pow2_pos(1074);
    lemma_modest(f, most);
    lemma_modest(t, most);
    lemma_modest(c, most);
    lemma_close_difference(t, f);
    lemma_close_difference(c, f);
    lemma_modest(d, most);
    lemma_modest(w, most);
    lemma_close_product(d, d);
    lemma_close_product(w, d);
    lemma_product_of_rounded(
        cell_unit(),
        most,
        x,
        x,
        d.value(),
        d.value(),
        d.mul(d).value(),
    );
    lemma_product_of_rounded(
        cell_unit(),
        most,
        y,
        x,
        w.value(),
        d.value(),
        w.mul(d).value(),
    );
    let b: Real = d.mul(d);
    assert(b.value() >= 0) by {
        reveal(Real::spec_mul);
        if b.negative() {
            assert(false);
        }
    }
}

/// The errors of the nearest point of a segment, along one axis, added up.
proof fn lemma_gap_sum(
    mu: int,
    fu: int,
    cu: int,
    xt: int,
    dt: int,
    vu: int,
    nu: int,
    gu: int,
)
    requires
        mu > 0,
        size_of(cu) <= mu,
        size_of(fu + xt) <= mu,
        size_of(fu) <= mu,
        0x20_0000_0000_0000 * size_of(dt - xt) <= 2 * mu,
        0x20_0000_0000_0000 * size_of(vu - dt) <= size_of(vu) + mu,
        0x20_0000_0000_0000 * size_of(nu - (fu + vu)) <= size_of(fu + vu),
        0x20_0000_0000_0000 * size_of(gu - (cu - nu)) <= size_of(cu - nu),
    ensures
        0x20_0000_0000_0000 * size_of(gu - (cu - fu - xt)) <= 16 * mu,
        size_of(cu - fu - xt) <= 2 * mu,
{
    assert(size_of(xt) <= 2 * mu);
    lemma_near_size(dt, xt, mu);
    lemma_self_error(vu, dt, mu);
    lemma_chain(vu, dt, xt, 5 * mu, 2 * mu);
    lemma_chain(fu + vu, fu + xt, fu + xt, 7 * mu, 0);
    lemma_near_size(fu + vu, fu + xt, mu);
    lemma_chain(nu, fu + vu, fu + xt, 2 * mu, 7 * mu);
    lemma_near_size(nu, fu + xt, mu);
    assert(size_of(cu - nu) <= 3 * mu);
    lemma_chain(gu, cu - nu, cu - fu - xt, 3 * mu, 9 * mu);
}

pub proof fn lemma_chain(a: int, b: int, c: int, e: int, f: int)
    requires
        0x20_0000_0000_0000 * size_of(a - b) <= e,
        0x20_0000_0000_0000 * size_of(b - c) <= f,
    ensures
        0x20_0000_0000_0000 * size_of(a - c) <= e + f,
{
    assert(size_of(a - c) <= size_of(a - b) + size_of(b - c));
}

proof fn lemma_near_size(a: int, b: int, m: int)
    requires
        m >= 0,
        0x20_0000_0000_0000 * size_of(a - b) <= 16 * m,
    ensures
        size_of(a) <= size_of(b) + m,
{
    assert(size_of(a) <= size_of(b) + size_of(a - b));
    assert(size_of(a - b) <= m);
}

proof fn lemma_self_error(v: int, d: int, m: int)
    requires
        m >= 0,
        size_of(d) <= 3 * m,
        0x20_0000_0000_0000 * size_of(v - d) <= size_of(v) + m,
    ensures
        size_of(v) <= 4 * m,
        0x20_0000_0000_0000 * size_of(v - d) <= 5 * m,
{
    assert(size_of(v) <= size_of(d) + size_of(v - d));
}

/// The nearest point of a segment, along one axis, when it is rounded.
proof fn lemma_rounded_gap(
    u: int,
    m: int,
    f: int,
    c: int,
    x: int,
    d: int,
    t: int,
    v: int,
    n: int,
    g: int,
)
    requires
        u > 0,
        m > 0x100_0000_0000_0000,
        0x20_0000_0000_0000 * u <= m * u,
        size_of(f) <= m,
        size_of(c) <= m,
        size_of(f + x) <= m,
        0 <= t <= u,
        0x20_0000_0000_0000 * size_of(d - x) <= 2 * m,
        0x20_0000_0000_0000 * size_of(v * u - d * t) <= size_of(v) * u + 0x20_0000_0000_0000 * u,
        0x20_0000_0000_0000 * size_of(n - (f + v)) <= size_of(f + v),
        0x20_0000_0000_0000 * size_of(g - (c - n)) <= size_of(c - n),
    ensures
        ({
            let e: int = (c - f) * u - x * t;
            &&& 0x20_0000_0000_0000 * size_of(g * u - e) <= 16 * (m * u)
            &&& size_of(e) <= 2 * (m * u)
        }),
{
    let p: int = 0x20_0000_0000_0000;
    let mu: int = m * u;
    assert(mu > 0) by (nonlinear_arith)
        requires
            mu == m * u,
            m > 0,
            u > 0,
    ;
    lemma_mul_bound(f, u, m, u);
    lemma_mul_bound(c, u, m, u);
    lemma_between(f, x, t, u, m);
    let z: int = p * (d - x);
    lemma_mul_bound(z, t, 2 * m, u);
    assert(z * t == p * (d * t - x * t)) by (nonlinear_arith)
        requires
            z == p * (d - x),
    ;
    assert((2 * m) * u == 2 * mu) by (nonlinear_arith)
        requires
            mu == m * u,
    ;
    lemma_size_scales(v, u);
    lemma_scaled_error(n, f + v, u);
    assert((f + v) * u == f * u + v * u) by (nonlinear_arith);
    lemma_scaled_error(g, c - n, u);
    assert((c - n) * u == c * u - n * u) by (nonlinear_arith);
    assert((c - f) * u == c * u - f * u) by (nonlinear_arith);
    lemma_gap_sum(mu, f * u, c * u, x * t, d * t, v * u, n * u, g * u);
}

/// A point of a segment is no farther out than its ends.
proof fn lemma_between(f: int, x: int, t: int, u: int, m: int)
    requires
        0 <= t <= u,
        size_of(f) <= m,
        size_of(f + x) <= m,
    ensures
        size_of(f * u + x * t) <= m * u,
{
    let y: int = f + x;
    let q: int = f * u + x * t;
    assert(q == f * (u - t) + y * t) by (nonlinear_arith)
        requires
            q == f * u + x * t,
            y == f + x,
    ;
    lemma_mul_bound(f, u - t, m, u - t);
    lemma_mul_bound(y, t, m, t);
    assert(m * (u - t) + m * t == m * u) by (nonlinear_arith);
}

proof fn lemma_scaled_error(a: int, b: int, u: int)
    requires
        u > 0,
        0x20_0000_0000_0000 * size_of(a - b) <= size_of(b),
    ensures
        0x20_0000_0000_0000 * size_of(a * u - b * u) <= size_of(b * u),
{
    let p: int = 0x20_0000_0000_0000;
    let d: int = a - b;
    assert(a * u - b * u == d * u) by (nonlinear_arith)
        requires
            d == a - b,
    ;
    assert(size_of(d) * u == size_of(d * u) && size_of(b) * u == size_of(b * u)) by {
        lemma_size_scales(d, u);
        lemma_size_scales(b, u);
    }
    let x: int = size_of(d);
    let y: int = size_of(b);
    assert(p * (x * u) <= y * u) by (nonlinear_arith)
        requires
            p * x <= y,
            u > 0,
    ;
}

pub proof fn lemma_size_scales(v: int, u: int)
    requires
        u > 0,
    ensures
        size_of(v) * u == size_of(v * u),
{
    if v < 0 {
        assert((-v) * u == -(v * u)) by (nonlinear_arith);
        assert(v * u <= 0) by (nonlinear_arith)
            requires
                v < 0,
                u > 0,
        ;
    } else {
        assert(v * u >= 0) by (nonlinear_arith)
            requires
                v >= 0,
                u > 0,
        ;
    }
}

/// The square of a rounded gap.
proof fn lemma_square_of_gap(u: int, m: int, e: int, g: int, h: int)
    requires
        u > 0,
        m > 0x100_0000_0000_0000,
        0x20_0000_0000_0000 * u <= m * m,
        size_of(e) <= 2 * (m * u),
        0x20_0000_0000_0000 * size_of(g * u - e) <= 16 * (m * u),
        h >= 0,
        0x20_0000_0000_0000 * size_of(h * u - g * g) <= h * u + 0x20_0000_0000_0000 * u,
    ensures
        h * u <= 10 * (m * m),
        0x20_0000_0000_0000 * ((h * u) * (u * u)) <= 0x20_0000_0000_0000 * (e * e) + 80 * ((m * m)
            * (u * u)),
{
    let p: int = 0x20_0000_0000_0000;
    let mu: int = m * u;
    let gu: int = g * u;
    let d: int = gu - e;
    let s: int = mu * mu;
    let mm: int = m * m;
    let uu: int = u * u;
    assert(mu > 0 && mm > 0 && uu > 0) by (nonlinear_arith)
        requires
            mu == m * u,
            mm == m * m,
            uu == u * u,
            m > 0,
            u > 0,
    ;
    assert(s == mm * uu) by (nonlinear_arith)
        requires
            s == mu * mu,
            mu == m * u,
            mm == m * m,
            uu == u * u,
    ;
    // the gap itself
    lemma_near_size(gu, e, mu);
    assert(g <= 3 * m && -(3 * m) <= g) by (nonlinear_arith)
        requires
            gu == g * u,
            mu == m * u,
            -(3 * mu) <= gu <= 3 * mu,
            u > 0,
    ;
    lemma_mul_bound(g, g, 3 * m, 3 * m);
    assert((3 * m) * (3 * m) == 9 * mm) by (nonlinear_arith)
        requires
            mm == m * m,
    ;
    // its square, against the exact one
    lemma_mul_bound(e, p * d, 2 * mu, 16 * mu);
    lemma_mul_bound(d, p * d, mu, 16 * mu);
    lemma_mul_bound(p * d, p * d, 16 * mu, 16 * mu);
    assert((2 * mu) * (16 * mu) == 32 * s && (16 * mu) * (16 * mu) == 256 * s) by (nonlinear_arith)
        requires
            s == mu * mu,
    ;
    assert(e * (p * d) == p * (e * d) && (p * d) * (p * d) == p * (p * (d * d))) by (nonlinear_arith);
    assert(gu * gu == e * e + 2 * (e * d) + d * d) by (nonlinear_arith)
        requires
            d == gu - e,
    ;
    assert(p * (gu * gu) <= p * (e * e) + 65 * s);
    assert(gu * gu == (g * g) * uu) by (nonlinear_arith)
        requires
            gu == g * u,
            uu == u * u,
    ;
    // and rounded
    let hu: int = h * u;
    let gg: int = g * g;
    assert(hu >= 0) by (nonlinear_arith)
        requires
            hu == h * u,
            h >= 0,
            u > 0,
    ;
    assert(hu <= 10 * mm);
    assert(p * hu <= p * gg + 11 * mm);
    let k: int = p * gg + 11 * mm - p * hu;
    assert(k * uu >= 0) by (nonlinear_arith)
        requires
            k >= 0,
            uu > 0,
    ;
    assert(k * uu == p * (gg * uu) + 11 * (mm * uu) - p * (hu * uu)) by (nonlinear_arith)
        requires
            k == p * gg + 11 * mm - p * hu,
    ;
}

/// The rounded nearest point along one axis.
proof fn lemma_axis_nearest(f: Real, t: Real, c: Real, share: Real, most: int)
    requires
        bounding(most),
        reaches(f, most),
        reaches(t, most),
        reaches(c, most),
        share.finite(),
        0 <= share.value() <= cell_unit(),
    ensures
        ({
            let g: Real = c.sub(f.add(t.sub(f).mul(share)));
            let h: Real = g.mul(g);
            let u: int = cell_unit();
            let e: int = (c.value() - f.value()) * u - (t.value() - f.value()) * share.value();
            &&& h.finite() && h.magnitude() <= 0x4db0_0000_0000_0000
            &&& h.value() >= 0
            &&& h.value() * u <= 10 * (most * most)
            &&& 0x20_0000_0000_0000 * ((h.value() * u) * (u * u)) <= 0x20_0000_0000_0000 * (e * e)
                + 80 * ((most * most) * (u * u))
        }),
{
    let u: int = cell_unit();
    lemma_pow2_pos(1074);
    lemma_unit_is_nothing(most);
    lemma_axis_products(f, t, c, most);
    lemma_modest(f, most);
    lemma_modest(c, most);
    lemma_modest(share, most);
    let d: Real = t.sub(f);
    let x: int = t.value() - f.value();
    lemma_near_size(d.value(), x, most);
    lemma_modest(d, most);
    lemma_close_product(d, share);
    let v: Real = d.mul(share);
    lemma_step_is_bounded(u, most, d.value(), share.value(), v.value());
    lemma_modest(v, most);
    lemma_close_sum(f, v);
    let n: Real = f.add(v);
    lemma_sum_bound(n.value(), f.value() + v.value(), most);
    lemma_modest(n, most);
    lemma_close_difference(c, n);
    let g: Real = c.sub(n);
    lemma_rounded_gap(
        u,
        most,
        f.value(),
        c.value(),
        x,
        d.value(),
        share.value(),
        v.value(),
        n.value(),
        g.value(),
    );
    let e: int = (c.value() - f.value()) * u - x * share.value();
    lemma_gap_is_bounded(u, most, e, g.value());
    lemma_modest(g, most);
    lemma_close_product(g, g);
    let h: Real = g.mul(g);
    assert(h.value() >= 0) by {
        reveal(Real::spec_mul);
        if h.negative() {
            assert(false);
        }
    }
    lemma_square_of_gap(u, most, e, g.value(), h.value());
}

proof fn lemma_gap_is_bounded(u: int, m: int, e: int, g: int)
    requires
        u > 0,
        m > 0,
        size_of(e) <= 2 * (m * u),
        0x20_0000_0000_0000 * size_of(g * u - e) <= 16 * (m * u),
    ensures
        size_of(g) <= 3 * m,
{
    let mu: int = m * u;
    let gu: int = g * u;
    assert(mu > 0) by (nonlinear_arith)
        requires
            mu == m * u,
            m > 0,
            u > 0,
    ;
    lemma_near_size(gu, e, mu);
    assert(g <= 3 * m && -(3 * m) <= g) by (nonlinear_arith)
        requires
            gu == g * u,
            mu == m * u,
            -(3 * mu) <= gu <= 3 * mu,
            u > 0,
    ;
}

proof fn lemma_sum_bound(n: int, t: int, m: int)
    requires
        0x20_0000_0000_0000 * size_of(n - t) <= size_of(t),
        size_of(t) <= 6 * m,
        m >= 0,
    ensures
        size_of(n) <= 7 * m,
{
    assert(size_of(n) <= size_of(t) + size_of(n - t));
}

/// A share of a difference is no longer than the difference, but for rounding.
proof fn lemma_step_is_bounded(u: int, m: int, d: int, t: int, v: int)
    requires
        u > 0,
        m > 0x100_0000_0000_0000,
        size_of(d) <= 3 * m,
        0 <= t <= u,
        0x20_0000_0000_0000 * size_of(v * u - d * t) <= size_of(v) * u + 0x20_0000_0000_0000 * u,
    ensures
        size_of(v) <= 4 * m,
{
    let mu: int = m * u;
    lemma_mul_bound(d, t, 3 * m, u);
    assert((3 * m) * u == 3 * mu) by (nonlinear_arith)
        requires
            mu == m * u,
    ;
    lemma_size_scales(v, u);
    assert(0x20_0000_0000_0000 * u <= mu) by (nonlinear_arith)
        requires
            mu == m * u,
            m > 0x20_0000_0000_0000,
            u > 0,
    ;
    lemma_self_error(v * u, d * t, mu);
    let vu: int = v * u;
    assert(v <= 4 * m && -(4 * m) <= v) by (nonlinear_arith)
        requires
            vu == v * u,
            mu == m * u,
            -(4 * mu) <= vu <= 4 * mu,
            u > 0,
    ;
}

/// How a gap along one axis changes from one point of a segment to another.
proof fn lemma_axis_quadratic(u: int, w: int, t: int, part: int, y: int, x: int)
    ensures
        ({
            let e: int = y * u - x * t;
            let l: int = y * w - x * part;
            let a: int = t * w - part * u;
            (l * l) * (u * u) == (e * e) * (w * w) + 2 * ((w * a) * (e * x)) + (a * a) * (x * x)
        }),
{
    let e: int = y * u - x * t;
    let l: int = y * w - x * part;
    let a: int = t * w - part * u;
    let lu: int = l * u;
    let ew: int = e * w;
    let xa: int = x * a;
    assert(lu == ew + xa) by (nonlinear_arith)
        requires
            lu == l * u,
            ew == e * w,
            xa == x * a,
            e == y * u - x * t,
            l == y * w - x * part,
            a == t * w - part * u,
    ;
    assert(lu * lu == ew * ew + 2 * (ew * xa) + xa * xa) by (nonlinear_arith)
        requires
            lu == ew + xa,
    ;
    assert(lu * lu == (l * l) * (u * u)) by (nonlinear_arith)
        requires
            lu == l * u,
    ;
    assert(ew * ew == (e * e) * (w * w)) by (nonlinear_arith)
        requires
            ew == e * w,
    ;
    assert(ew * xa == (w * a) * (e * x)) by (nonlinear_arith)
        requires
            ew == e * w,
            xa == x * a,
    ;
    assert(xa * xa == (a * a) * (x * x)) by (nonlinear_arith)
        requires
            xa == x * a,
    ;
}

proof fn lemma_slope(u: int, t: int, y: int, x: int)
    ensures
        (y * u - x * t) * x == u * (y * x) - t * (x * x),
{
    assert((y * u - x * t) * x == (y * u) * x - (x * t) * x) by (nonlinear_arith);
    assert((y * u) * x == u * (y * x)) by (nonlinear_arith);
    assert((x * t) * x == t * (x * x)) by (nonlinear_arith);
}

/// The squared distance at one share of a segment exceeds that at any other by
/// no more than the residual of the share allows.
proof fn lemma_quadratic(
    u: int,
    w: int,
    t: int,
    part: int,
    y1: int,
    x1: int,
    y2: int,
    x2: int,
)
    ensures
        ({
            let e1: int = y1 * u - x1 * t;
            let e2: int = y2 * u - x2 * t;
            let l1: int = y1 * w - x1 * part;
            let l2: int = y2 * w - x2 * part;
            let a: int = t * w - part * u;
            let r: int = t * (x1 * x1 + x2 * x2) - u * (y1 * x1 + y2 * x2);
            (e1 * e1 + e2 * e2) * (w * w) <= (l1 * l1 + l2 * l2) * (u * u) + 2 * (w * (a * r))
        }),
{
    let e1: int = y1 * u - x1 * t;
    let e2: int = y2 * u - x2 * t;
    let l1: int = y1 * w - x1 * part;
    let l2: int = y2 * w - x2 * part;
    let a: int = t * w - part * u;
    let r: int = t * (x1 * x1 + x2 * x2) - u * (y1 * x1 + y2 * x2);
    lemma_axis_quadratic(u, w, t, part, y1, x1);
    lemma_axis_quadratic(u, w, t, part, y2, x2);
    lemma_slope(u, t, y1, x1);
    lemma_slope(u, t, y2, x2);
    let g1: int = x1 * x1;
    let g2: int = x2 * x2;
    let d1: int = y1 * x1;
    let d2: int = y2 * x2;
    assert(t * (g1 + g2) == t * g1 + t * g2 && u * (d1 + d2) == u * d1 + u * d2) by (nonlinear_arith);
    assert(e1 * x1 + e2 * x2 == -r);
    let wa: int = w * a;
    let f: int = e1 * x1;
    let g: int = e2 * x2;
    assert(wa * f + wa * g == -(wa * r)) by (nonlinear_arith)
        requires
            f + g == -r,
    ;
    assert(wa * r == w * (a * r)) by (nonlinear_arith)
        requires
            wa == w * a,
    ;
    let aa: int = a * a;
    let p: int = x1 * x1;
    let q: int = x2 * x2;
    assert(aa * p >= 0 && aa * q >= 0) by (nonlinear_arith)
        requires
            aa == a * a,
            p == x1 * x1,
            q == x2 * x2,
    ;
    let ww: int = w * w;
    let uu: int = u * u;
    let m1: int = e1 * e1;
    let m2: int = e2 * e2;
    let n1: int = l1 * l1;
    let n2: int = l2 * l2;
    assert((m1 + m2) * ww == m1 * ww + m2 * ww && (n1 + n2) * uu == n1 * uu + n2 * uu)
        by (nonlinear_arith);
}

/// A rounded sum of two rounded terms.
proof fn lemma_sum_of_terms(u: int, s: int, a: int, b: int, r: int, x: int, y: int)
    requires
        u > 0,
        s >= 0,
        0x20_0000_0000_0000 * size_of(r - (a + b)) <= size_of(a + b),
        0x20_0000_0000_0000 * size_of(a * u - x) <= 16 * s,
        0x20_0000_0000_0000 * size_of(b * u - y) <= 16 * s,
        size_of(a * u) <= 5 * s,
        size_of(b * u) <= 5 * s,
    ensures
        0x20_0000_0000_0000 * size_of(r * u - (x + y)) <= 42 * s,
        size_of(r * u) <= 11 * s,
{
    lemma_scaled_error(r, a + b, u);
    let au: int = a * u;
    let bu: int = b * u;
    let ru: int = r * u;
    assert((a + b) * u == au + bu) by (nonlinear_arith)
        requires
            au == a * u,
            bu == b * u,
    ;
    lemma_chain(au + bu, x + bu, x + y, 16 * s, 16 * s);
    lemma_chain(ru, au + bu, x + y, 10 * s, 32 * s);
    assert(size_of(ru) <= size_of(au + bu) + size_of(ru - (au + bu)));
}

/// The squared length of a segment and the product of its direction with that to
/// a point, both rounded.
proof fn lemma_terms(from: Point, to: Point, point: Point, most: int)
    requires
        bounding(most),
        within_bound(from, most),
        within_bound(to, most),
        within_bound(point, most),
    ensures
        ({
            let dx: Real = to.x.sub(from.x);
            let dz: Real = to.z.sub(from.z);
            let len: Real = dx.mul(dx).add(dz.mul(dz));
            let dot: Real = point.x.sub(from.x).mul(dx).add(point.z.sub(from.z).mul(dz));
            let u: int = cell_unit();
            let s: int = most * most;
            &&& len.finite()
            &&& len.value() >= 0
            &&& dot.finite()
            &&& 0x20_0000_0000_0000 * size_of(len.value() * u - length_sq_of(from, to)) <= 42 * s
            &&& len.value() * u <= 11 * s
            &&& 0x20_0000_0000_0000 * size_of(dot.value() * u - product_of(from, to, point)) <= 42
                * s
            &&& size_of(dot.value() * u) <= 11 * s
        }),
{
    let u: int = cell_unit();
    let s: int = most * most;
    lemma_pow2_pos(1074);
    lemma_unit_is_nothing(most);
    lemma_axis_products(from.x, to.x, point.x, most);
    lemma_axis_products(from.z, to.z, point.z, most);
    let dx: Real = to.x.sub(from.x);
    let dz: Real = to.z.sub(from.z);
    let b1: Real = dx.mul(dx);
    let b2: Real = dz.mul(dz);
    let a1: Real = point.x.sub(from.x).mul(dx);
    let a2: Real = point.z.sub(from.z).mul(dz);
    lemma_close_sum(b1, b2);
    lemma_close_sum(a1, a2);
    let len: Real = b1.add(b2);
    let dot: Real = a1.add(a2);
    let x: int = to.x.value() - from.x.value();
    let z: int = to.z.value() - from.z.value();
    let y: int = point.x.value() - from.x.value();
    let v: int = point.z.value() - from.z.value();
    lemma_sum_of_terms(u, s, b1.value(), b2.value(), len.value(), x * x, z * z);
    lemma_sum_of_terms(u, s, a1.value(), a2.value(), dot.value(), y * x, v * z);
    assert(len.value() >= 0);
    lemma_size_scales(len.value(), u);
}

/// Whether both coordinates of a point are finite and no larger than a bound.
pub open spec fn within_bound(p: Point, most: int) -> bool {
    reaches(p.x, most) && reaches(p.z, most)
}

/// Exact square of the length of a segment.
pub open spec fn length_sq_of(from: Point, to: Point) -> int {
    let x: int = to.x.value() - from.x.value();
    let z: int = to.z.value() - from.z.value();
    x * x + z * z
}

/// Exact product of the direction of a segment with that to a point.
pub open spec fn product_of(from: Point, to: Point, point: Point) -> int {
    let x: int = to.x.value() - from.x.value();
    let z: int = to.z.value() - from.z.value();
    (point.x.value() - from.x.value()) * x + (point.z.value() - from.z.value()) * z
}

/// The residual of a share, from the rounded terms.
proof fn lemma_residual(u: int, s: int, t: int, g: int, d: int, len: int, dot: int, e: int)
    requires
        u > 0,
        s >= 0,
        0 <= t <= u,
        0x20_0000_0000_0000 * size_of(len * u - g) <= 42 * s,
        0x20_0000_0000_0000 * size_of(dot * u - d) <= 42 * s,
        0x20_0000_0000_0000 * (t * len - dot * u) <= e,
    ensures
        0x20_0000_0000_0000 * (t * g - u * d) <= u * (84 * s + e),
{
    let p: int = 0x20_0000_0000_0000;
    let x: int = p * (g - len * u);
    let y: int = p * (dot * u - d);
    assert(x * t <= (42 * s) * u) by {
        lemma_mul_bound(x, t, 42 * s, u);
    }
    assert(u * y <= u * (42 * s)) by (nonlinear_arith)
        requires
            y <= 42 * s,
            u > 0,
    ;
    let z: int = p * (t * len - dot * u);
    assert(u * z <= u * e) by (nonlinear_arith)
        requires
            z <= e,
            u > 0,
    ;
    assert(x * t == p * (t * g) - p * ((t * len) * u)) by (nonlinear_arith)
        requires
            x == p * (g - len * u),
    ;
    assert(u * y == p * ((dot * u) * u) - p * (u * d)) by (nonlinear_arith)
        requires
            y == p * (dot * u - d),
    ;
    assert(u * z == p * ((t * len) * u) - p * ((dot * u) * u)) by (nonlinear_arith)
        requires
            z == p * (t * len - dot * u),
    ;
    assert(u * (84 * s + e) == (42 * s) * u + u * (42 * s) + u * e) by (nonlinear_arith);
}

/// The same from below.
proof fn lemma_residual_below(
    u: int,
    s: int,
    t: int,
    g: int,
    d: int,
    len: int,
    dot: int,
    e: int,
)
    requires
        u > 0,
        s >= 0,
        0 <= t <= u,
        0x20_0000_0000_0000 * size_of(len * u - g) <= 42 * s,
        0x20_0000_0000_0000 * size_of(dot * u - d) <= 42 * s,
        0x20_0000_0000_0000 * (dot * u - t * len) <= e,
    ensures
        0x20_0000_0000_0000 * (u * d - t * g) <= u * (84 * s + e),
{
    let p: int = 0x20_0000_0000_0000;
    let x: int = p * (len * u - g);
    let y: int = p * (d - dot * u);
    assert(x * t <= (42 * s) * u) by {
        lemma_mul_bound(x, t, 42 * s, u);
    }
    assert(u * y <= u * (42 * s)) by (nonlinear_arith)
        requires
            y <= 42 * s,
            u > 0,
    ;
    let z: int = p * (dot * u - t * len);
    assert(u * z <= u * e) by (nonlinear_arith)
        requires
            z <= e,
            u > 0,
    ;
    assert(x * t == p * ((t * len) * u) - p * (t * g)) by (nonlinear_arith)
        requires
            x == p * (len * u - g),
    ;
    assert(u * y == p * (u * d) - p * ((dot * u) * u)) by (nonlinear_arith)
        requires
            y == p * (d - dot * u),
    ;
    assert(u * z == p * ((dot * u) * u) - p * ((t * len) * u)) by (nonlinear_arith)
        requires
            z == p * (dot * u - t * len),
    ;
    assert(u * (84 * s + e) == (42 * s) * u + u * (42 * s) + u * e) by (nonlinear_arith);
}

/// Whether a share of a segment is the nearest one to a point, up to an error:
/// no other share is nearer by more than its residual allows.
spec fn nearly_nearest(t: int, u: int, g: int, d: int, error: int) -> bool {
    let r: int = 0x20_0000_0000_0000 * (t * g - u * d);
    &&& 0 <= t <= u
    &&& r <= u * error || t == 0
    &&& -(u * error) <= r || t == u
}

/// A share that is nearly the nearest comes, against any other, out ahead up to
/// its error.
proof fn lemma_ahead(t: int, u: int, g: int, d: int, error: int, part: int, w: int)
    requires
        u > 0,
        w > 0,
        error >= 0,
        0 <= part <= w,
        nearly_nearest(t, u, g, d, error),
    ensures
        0x20_0000_0000_0000 * ((t * w - part * u) * (t * g - u * d)) <= (u * u) * (w * error),
{
    let p: int = 0x20_0000_0000_0000;
    let a: int = t * w - part * u;
    let q: int = t * g - u * d;
    let r: int = p * q;
    assert(p * (a * q) == a * r) by (nonlinear_arith)
        requires
            r == p * q,
    ;
    assert(-(u * w) <= a <= u * w) by (nonlinear_arith)
        requires
            a == t * w - part * u,
            0 <= t <= u,
            0 <= part <= w,
            u > 0,
            w > 0,
    ;
    let ue: int = u * error;
    let uw: int = u * w;
    assert(ue >= 0 && uw > 0) by (nonlinear_arith)
        requires
            ue == u * error,
            uw == u * w,
            u > 0,
            w > 0,
            error >= 0,
    ;
    assert(uw * ue == (u * u) * (w * error)) by (nonlinear_arith)
        requires
            ue == u * error,
            uw == u * w,
    ;
    if a >= 0 {
        if t == 0 {
            assert(a <= 0) by (nonlinear_arith)
                requires
                    a == t * w - part * u,
                    t == 0,
                    part >= 0,
                    u > 0,
            ;
            assert(0 * r == 0);
            assert(uw * ue >= 0) by (nonlinear_arith)
                requires
                    ue >= 0,
                    uw > 0,
            ;
        } else {
            assert(a * r <= uw * ue) by (nonlinear_arith)
                requires
                    0 <= a <= uw,
                    r <= ue,
                    ue >= 0,
            ;
        }
    } else {
        if t == u {
            assert(a >= 0) by (nonlinear_arith)
                requires
                    a == t * w - part * u,
                    t == u,
                    part <= w,
                    u > 0,
            ;
        } else {
            assert(a * r <= uw * ue) by (nonlinear_arith)
                requires
                    -uw <= a < 0,
                    -ue <= r,
                    ue >= 0,
            ;
        }
    }
}

/// Whether a segment counts as a point: its squared length is at most
/// `2^-52`.
pub open spec fn is_short(from: Point, to: Point) -> bool {
    let dx: Real = to.x.sub(from.x);
    let dz: Real = to.z.sub(from.z);
    dx.mul(dx).add(dz.mul(dz)).le(Real::of(EPSILON))
}

/// What a quotient is off by, on either side.
proof fn lemma_quotient_off(u: int, s: int, t: int, len: int, dot: int)
    requires
        u >= 0x100_0000_0000_0000,
        0 <= t,
        len >= 0,
        dot >= 0,
        s >= 0,
        len * u <= 11 * s,
        dot * u <= 11 * s,
        0x1f_ffff_ffff_ffff * (t * len) <= 0x20_0000_0000_0001 * (dot * u) + 0x20_0000_0000_0000
            * len,
        0x1f_ffff_ffff_ffff * (dot * u) <= 0x20_0000_0000_0001 * (t * len) + 0x20_0000_0000_0000
            * len,
    ensures
        t >= u ==> 0x20_0000_0000_0000 * (u * len - dot * u) <= 24 * s,
        t <= u ==> 0x20_0000_0000_0000 * (t * len - dot * u) <= 24 * s,
        t <= u ==> 0x20_0000_0000_0000 * (dot * u - t * len) <= 24 * s,
{
    assert(0x100_0000_0000_0000 * len <= len * u) by (nonlinear_arith)
        requires
            u >= 0x100_0000_0000_0000,
            len >= 0,
    ;
    let a: int = t * len;
    let b: int = u * len;
    assert(b == len * u) by (nonlinear_arith)
        requires
            b == u * len,
    ;
    if t >= u {
        assert(b <= a) by (nonlinear_arith)
            requires
                a == t * len,
                b == u * len,
                t >= u,
                len >= 0,
        ;
    }
    if t <= u {
        assert(a <= b) by (nonlinear_arith)
            requires
                a == t * len,
                b == u * len,
                t <= u,
                len >= 0,
        ;
    }
    assert(a >= 0) by (nonlinear_arith)
        requires
            a == t * len,
            t >= 0,
            len >= 0,
    ;
}

/// A share below the segment's start is cut off there.
proof fn lemma_share_low(u: int, s: int, g: int, d: int, l: int, w: int)
    requires
        u > 0,
        s >= 0,
        w <= 0,
        0x20_0000_0000_0000 * size_of(l * u - g) <= 42 * s,
        0x20_0000_0000_0000 * size_of(w * u - d) <= 42 * s,
    ensures
        nearly_nearest(0, u, g, d, 108 * s),
{
    assert(w * u <= 0) by (nonlinear_arith)
        requires
            w <= 0,
            u > 0,
    ;
    assert(0 * l == 0 && 0 * g == 0);
    lemma_residual_below(u, s, 0, g, d, l, w, 0);
    assert(u * (84 * s + 0) <= u * (108 * s)) by (nonlinear_arith)
        requires
            s >= 0,
            u > 0,
    ;
}

/// A share beyond the segment's end is cut off there.
proof fn lemma_share_high(u: int, s: int, g: int, d: int, l: int, w: int)
    requires
        u > 0,
        s >= 0,
        0x20_0000_0000_0000 * size_of(l * u - g) <= 42 * s,
        0x20_0000_0000_0000 * size_of(w * u - d) <= 42 * s,
        0x20_0000_0000_0000 * (u * l - w * u) <= 24 * s,
    ensures
        nearly_nearest(u, u, g, d, 108 * s),
{
    lemma_residual(u, s, u, g, d, l, w, 24 * s);
}

/// A share between the two ends.
proof fn lemma_share_between(u: int, s: int, t: int, g: int, d: int, l: int, w: int)
    requires
        u > 0,
        s >= 0,
        0 <= t <= u,
        0x20_0000_0000_0000 * size_of(l * u - g) <= 42 * s,
        0x20_0000_0000_0000 * size_of(w * u - d) <= 42 * s,
        0x20_0000_0000_0000 * (t * l - w * u) <= 24 * s,
        0x20_0000_0000_0000 * (w * u - t * l) <= 24 * s,
    ensures
        nearly_nearest(t, u, g, d, 108 * s),
{
    lemma_residual(u, s, t, g, d, l, w, 24 * s);
    lemma_residual_below(u, s, t, g, d, l, w, 24 * s);
}

/// What is known of a quotient by a positive number.
proof fn lemma_quotient_sign(dot: Real, len: Real)
    requires
        dot.finite(),
        len.finite(),
        len.rank() > 0,
    ensures
        ({
            let q: Real = dot.div(len);
            &&& !q.nan()
            &&& q.magnitude() > 0 ==> q.negative() == dot.negative()
            &&& dot.magnitude() == 0 ==> q.magnitude() == 0
            &&& q.infinite() ==> dot.magnitude() > len.magnitude()
        }),
{
    let q: Real = dot.div(len);
    assert(!q.nan() && (q.magnitude() > 0 ==> q.negative() == dot.negative()) && (dot.magnitude()
        == 0 ==> q.magnitude() == 0)) by {
        reveal(Real::spec_div);
    }
    if dot.magnitude() <= len.magnitude() {
        lemma_quotient_at_most_one(dot, len);
    }
}

/// The share, cut off at the segment's ends, from the rounded terms.
proof fn lemma_cut_off_share(dot: Real, len: Real, s: int, g: int, d: int)
    requires
        dot.finite(),
        len.finite(),
        len.rank() > 0,
        s >= 0,
        0x20_0000_0000_0000 * size_of(len.value() * cell_unit() - g) <= 42 * s,
        len.value() * cell_unit() <= 11 * s,
        0x20_0000_0000_0000 * size_of(dot.value() * cell_unit() - d) <= 42 * s,
        size_of(dot.value() * cell_unit()) <= 11 * s,
    ensures
        ({
            let t: Real = dot.div(len).clamp(Real::of(ZERO), Real::of(ONE));
            t.finite() && nearly_nearest(t.value(), cell_unit(), g, d, 108 * s)
        }),
{
    let u: int = cell_unit();
    lemma_pow2_pos(1074);
    lemma_large_unit();
    lemma2_to64_rest();
    lemma_step_lengths();
    lemma_quotient_sign(dot, len);
    let q: Real = dot.div(len);
    let zero: Real = Real::of(ZERO);
    let one: Real = Real::of(ONE);
    let t: Real = q.clamp(zero, one);
    lemma_size_of_zero(zero);
    let l: int = len.value();
    let w: int = dot.value();
    if dot.magnitude() == 0 || dot.negative() {
        assert(t.magnitude() == 0);
        lemma_size_of_zero(t);
        if dot.magnitude() == 0 {
            lemma_size_of_zero(dot);
        }
        lemma_share_low(u, s, g, d, l, w);
    } else if q.infinite() {
        lemma_value_order(len, dot);
        assert(t == one);
        assert(u * l - w * u <= 0) by (nonlinear_arith)
            requires
                l <= w,
                u > 0,
        ;
        lemma_share_high(u, s, g, d, l, w);
    } else {
        lemma_quotient_error(dot, len);
        lemma_quotient_error_below(dot, len);
        lemma_size_scales(w, u);
        lemma_quotient_off(u, s, q.value(), l, w);
        lemma_value_order(q, one);
        lemma_value_order(one, q);
        if one.lt(q) {
            assert(t == one);
            lemma_share_high(u, s, g, d, l, w);
        } else {
            assert(t == q);
            lemma_share_between(u, s, q.value(), g, d, l, w);
        }
    }
}

/// The share that is computed is nearly the nearest.
proof fn lemma_share_is_nearest(from: Point, to: Point, point: Point, most: int)
    requires
        bounding(most),
        within_bound(from, most),
        within_bound(to, most),
        within_bound(point, most),
        !is_short(from, to),
    ensures
        nearest_share(from, to, point).finite(),
        nearly_nearest(
            nearest_share(from, to, point).value(),
            cell_unit(),
            length_sq_of(from, to),
            product_of(from, to, point),
            108 * (most * most),
        ),
{
    lemma_terms(from, to, point, most);
    let dx: Real = to.x.sub(from.x);
    let dz: Real = to.z.sub(from.z);
    let len: Real = dx.mul(dx).add(dz.mul(dz));
    let dot: Real = point.x.sub(from.x).mul(dx).add(point.z.sub(from.z).mul(dz));
    assert(most * most >= 0) by (nonlinear_arith);
    lemma_cut_off_share(
        dot,
        len,
        most * most,
        length_sq_of(from, to),
        product_of(from, to, point),
    );
}

/// A difference along one axis of a segment that counts as a point.
proof fn lemma_short_side(u: int, x: int, d: int, b: int)
    requires
        u == pow2(1074),
        0x20_0000_0000_0000 * size_of(d - x) <= size_of(x),
        0 <= b <= pow2(1023),
        0x20_0000_0000_0000 * size_of(b * u - d * d) <= b * u + 0x20_0000_0000_0000 * u,
    ensures
        size_of(x) <= pow2(1051),
{
    lemma2_to64();
    lemma2_to64_rest();
    let c: int = pow2(1050) as int;
    let k: int = pow2(1023) as int;
    lemma_pow2_pos(1050);
    lemma_pow2_pos(1023);
    lemma_pow2_pos(1074);
    lemma_pow2_adds(1050, 1050);
    lemma_pow2_adds(1023, 1074);
    lemma_pow2_adds(3, 2097);
    lemma_pow2_unfold(1051);
    let ku: int = k * u;
    let bu: int = b * u;
    assert(c * c == 8 * ku);
    assert(0 <= bu <= ku && u <= ku) by (nonlinear_arith)
        requires
            bu == b * u,
            ku == k * u,
            0 <= b <= k,
            k >= 1,
            u > 0,
    ;
    assert(d * d <= 4 * ku);
    assert(size_of(d) <= c) by (nonlinear_arith)
        requires
            d * d <= 4 * ku,
            c * c == 8 * ku,
            c > 0,
            ku > 0,
            size_of(d) == d || size_of(d) == -d,
    ;
    assert(size_of(x) <= size_of(d) + size_of(d - x));
}

/// A difference along one axis, and its square, as they are rounded.
proof fn lemma_side_terms(f: Real, t: Real, most: int)
    requires
        bounding(most),
        reaches(f, most),
        reaches(t, most),
    ensures
        ({
            let d: Real = t.sub(f);
            let x: int = t.value() - f.value();
            let b: Real = d.mul(d);
            let u: int = cell_unit();
            let p: int = 0x20_0000_0000_0000;
            &&& p * size_of(d.value() - x) <= size_of(x)
            &&& b.finite()
            &&& b.magnitude() <= 0x4db0_0000_0000_0000
            &&& b.value() >= 0
            &&& p * size_of(b.value() * u - d.value() * d.value()) <= b.value() * u + p * u
        }),
{
    lemma_pow2_pos(1074);
    lemma_unit_is_nothing(most);
    lemma_axis_products(f, t, f, most);
    lemma_modest(f, most);
    lemma_modest(t, most);
    lemma_close_difference(t, f);
    let d: Real = t.sub(f);
    lemma_near_size(d.value(), t.value() - f.value(), most);
    lemma_modest(d, most);
    lemma_close_product(d, d);
}

/// The sides of a segment that counts as a point.
proof fn lemma_short_sides(from: Point, to: Point, most: int)
    requires
        bounding(most),
        within_bound(from, most),
        within_bound(to, most),
        is_short(from, to),
    ensures
        size_of(to.x.value() - from.x.value()) <= pow2(1051),
        size_of(to.z.value() - from.z.value()) <= pow2(1051),
{
    let u: int = cell_unit();
    lemma2_to64();
    lemma2_to64_rest();
    lemma_side_terms(from.x, to.x, most);
    lemma_side_terms(from.z, to.z, most);
    let dx: Real = to.x.sub(from.x);
    let dz: Real = to.z.sub(from.z);
    let b1: Real = dx.mul(dx);
    let b2: Real = dz.mul(dz);
    let len: Real = b1.add(b2);
    lemma_close_sum(b1, b2);
    let eps: Real = Real::of(EPSILON);
    lemma_value_order(len, eps);
    assert(eps.value() == pow2(1022)) by {
        assert(eps.significand() == UNIT as nat && eps.exponent() == -104);
        lemma_pow2_adds(52, 970);
    }
    lemma_pow2_unfold(1023);
    assert(b1.value() + b2.value() <= pow2(1023));
    lemma_short_side(u, to.x.value() - from.x.value(), dx.value(), b1.value());
    lemma_short_side(u, to.z.value() - from.z.value(), dz.value(), b2.value());
}

/// From a segment that counts as a point, its start is nearly the nearest point.
proof fn lemma_start_is_nearest(from: Point, to: Point, point: Point, most: int)
    requires
        bounding(most),
        within_bound(from, most),
        within_bound(to, most),
        within_bound(point, most),
        is_short(from, to),
    ensures
        nearest_share(from, to, point) == Real::of(ZERO),
        nearly_nearest(
            0,
            cell_unit(),
            length_sq_of(from, to),
            product_of(from, to, point),
            0x1_0000_0000 * (most * cell_unit()),
        ),
{
    let u: int = cell_unit();
    lemma2_to64();
    lemma_pow2_pos(1074);
    lemma_short_sides(from, to, most);
    let x: int = to.x.value() - from.x.value();
    let z: int = to.z.value() - from.z.value();
    let y: int = point.x.value() - from.x.value();
    let v: int = point.z.value() - from.z.value();
    let c: int = pow2(1051) as int;
    lemma_mul_bound(y, x, 2 * most, c);
    lemma_mul_bound(v, z, 2 * most, c);
    let d: int = product_of(from, to, point);
    assert((2 * most) * c == 2 * (most * c)) by (nonlinear_arith);
    lemma_pow2_adds(23, 1051);
    assert(u == 0x80_0000 * c);
    assert(most * u == 0x80_0000 * (most * c)) by (nonlinear_arith)
        requires
            u == 0x80_0000 * c,
    ;
    let e: int = 0x1_0000_0000 * (most * u);
    assert(0x20_0000_0000_0000 * d <= e);
    assert(0x20_0000_0000_0000 * (u * d) <= u * e) by (nonlinear_arith)
        requires
            0x20_0000_0000_0000 * d <= e,
            u > 0,
    ;
    let g: int = length_sq_of(from, to);
    assert(0 * g == 0);
}

/// How much nearer a point of a segment may be than computed, in parts of `2^53`
/// of a squared unit: little, unless the segment counts as a point.
pub open spec fn stray(from: Point, to: Point, most: int) -> int {
    512 * (most * most) + if is_short(from, to) {
        0x2_0000_0000 * (most * cell_unit())
    } else {
        0
    }
}

/// Exact square of the distance, `whole` times over, between a point and the one
/// that lies `part` of `whole` along a segment.
pub open spec fn gap_sq(from: Point, to: Point, part: int, whole: int, point: Point) -> int {
    let x: int = point.x.value() * whole - along(from.x, to.x, part, whole);
    let z: int = point.z.value() * whole - along(from.z, to.z, part, whole);
    x * x + z * z
}

/// No point of a segment is nearer to a place than `segment_distance_sq` says,
/// but for a sliver, where all coordinates are within a bound.
pub proof fn lemma_no_point_is_nearer(
    from: Point,
    to: Point,
    point: Point,
    part: int,
    whole: int,
    most: int,
)
    requires
        bounding(most),
        within_bound(from, most),
        within_bound(to, most),
        within_bound(point, most),
        0 <= part <= whole,
        whole > 0,
    ensures
        ({
            let r: Real = spec_segment_distance_sq(from, to, point);
            &&& r.finite()
            &&& r.rank() >= 0
            &&& 0x20_0000_0000_0000 * ((r.value() * cell_unit()) * (whole * whole))
                <= 0x20_0000_0000_0000 * gap_sq(from, to, part, whole, point) + stray(
                from,
                to,
                most,
            ) * (whole * whole)
        }),
{
    let u: int = cell_unit();
    let s: int = most * most;
    let share: Real = nearest_share(from, to, point);
    lemma_pow2_pos(1074);
    let error: int = if is_short(from, to) {
        0x1_0000_0000 * (most * u)
    } else {
        108 * s
    };
    lemma_unit_is_nothing(most);
    assert(most * u >= 0) by (nonlinear_arith)
        requires
            most > 0,
            u > 0,
    ;
    if is_short(from, to) {
        lemma_start_is_nearest(from, to, point, most);
        lemma_size_of_zero(share);
    } else {
        lemma_share_is_nearest(from, to, point, most);
    }
    let t: int = share.value();
    let g: int = length_sq_of(from, to);
    let d: int = product_of(from, to, point);
    let x1: int = to.x.value() - from.x.value();
    let x2: int = to.z.value() - from.z.value();
    let y1: int = point.x.value() - from.x.value();
    let y2: int = point.z.value() - from.z.value();
    lemma_ahead(t, u, g, d, error, part, whole);
    lemma_quadratic(u, whole, t, part, y1, x1, y2, x2);
    lemma_axis_nearest(from.x, to.x, point.x, share, most);
    lemma_axis_nearest(from.z, to.z, point.z, share, most);
    let e1: int = y1 * u - x1 * t;
    let e2: int = y2 * u - x2 * t;
    let l1: int = y1 * whole - x1 * part;
    let l2: int = y2 * whole - x2 * part;
    lemma_gap_along(from.x.value(), to.x.value(), point.x.value(), part, whole);
    lemma_gap_along(from.z.value(), to.z.value(), point.z.value(), part, whole);
    let gx: Real = point.x.sub(from.x.add(to.x.sub(from.x).mul(share)));
    let gz: Real = point.z.sub(from.z.add(to.z.sub(from.z).mul(share)));
    let h1: Real = gx.mul(gx);
    let h2: Real = gz.mul(gz);
    let r: Real = h1.add(h2);
    assert(r == spec_segment_distance_sq(from, to, point));
    lemma_close_sum(h1, h2);
    assert(r.value() >= 0);
    let zero: Real = Real { bits: 0 };
    lemma_size_of_zero(zero);
    lemma_value_order(zero, r);
    lemma_total(
        u,
        s,
        h1.value(),
        h2.value(),
        r.value(),
        e1 * e1,
        e2 * e2,
    );
    let a: int = t * whole - part * u;
    let q: int = t * g - u * d;
    lemma_combine(
        u,
        whole,
        s,
        error,
        r.value(),
        e1 * e1 + e2 * e2,
        l1 * l1 + l2 * l2,
        a * q,
    );
    let ww: int = whole * whole;
    assert(ww > 0) by (nonlinear_arith)
        requires
            ww == whole * whole,
            whole > 0,
    ;
    assert((200 * s + 2 * error) * ww <= stray(from, to, most) * ww) by (nonlinear_arith)
        requires
            200 * s + 2 * error <= stray(from, to, most),
            ww > 0,
    ;
}

proof fn lemma_gap_along(f: int, t: int, c: int, part: int, whole: int)
    ensures
        (c - f) * whole - (t - f) * part == c * whole - (f * (whole - part) + t * part),
{
    assert((c - f) * whole == c * whole - f * whole) by (nonlinear_arith);
    assert((t - f) * part == t * part - f * part) by (nonlinear_arith);
    assert(f * (whole - part) == f * whole - f * part) by (nonlinear_arith);
}

/// The computed distance, from the squares along both axes.
proof fn lemma_total(u: int, s: int, h1: int, h2: int, r: int, e1: int, e2: int)
    requires
        u > 0,
        s >= 0,
        h1 >= 0,
        h2 >= 0,
        h1 * u <= 10 * s,
        h2 * u <= 10 * s,
        0x20_0000_0000_0000 * size_of(r - (h1 + h2)) <= size_of(h1 + h2),
        0x20_0000_0000_0000 * ((h1 * u) * (u * u)) <= 0x20_0000_0000_0000 * e1 + 80 * (s * (u * u)),
        0x20_0000_0000_0000 * ((h2 * u) * (u * u)) <= 0x20_0000_0000_0000 * e2 + 80 * (s * (u * u)),
    ensures
        0x20_0000_0000_0000 * ((r * u) * (u * u)) <= 0x20_0000_0000_0000 * (e1 + e2) + 200 * (s * (u
            * u)),
{
    let p: int = 0x20_0000_0000_0000;
    let uu: int = u * u;
    assert(uu > 0) by (nonlinear_arith)
        requires
            uu == u * u,
            u > 0,
    ;
    lemma_scaled_error(r, h1 + h2, u);
    let a: int = h1 * u;
    let b: int = h2 * u;
    let c: int = r * u;
    assert((h1 + h2) * u == a + b) by (nonlinear_arith)
        requires
            a == h1 * u,
            b == h2 * u,
    ;
    let k: int = p * (a + b) + 20 * s - p * c;
    assert(k >= 0);
    assert(k * uu >= 0) by (nonlinear_arith)
        requires
            k >= 0,
            uu > 0,
    ;
    assert(k * uu == p * (a * uu) + p * (b * uu) + 20 * (s * uu) - p * (c * uu)) by (nonlinear_arith)
        requires
            k == p * (a + b) + 20 * s - p * c,
    ;
    assert(s * uu >= 0) by (nonlinear_arith)
        requires
            s >= 0,
            uu > 0,
    ;
}

/// Both estimates together.
proof fn lemma_combine(u: int, w: int, s: int, error: int, r: int, e: int, l: int, aq: int)
    requires
        u > 0,
        w > 0,
        0x20_0000_0000_0000 * ((r * u) * (u * u)) <= 0x20_0000_0000_0000 * e + 200 * (s * (u * u)),
        e * (w * w) <= l * (u * u) + 2 * (w * aq),
        0x20_0000_0000_0000 * aq <= (u * u) * (w * error),
    ensures
        0x20_0000_0000_0000 * ((r * u) * (w * w)) <= 0x20_0000_0000_0000 * l + (200 * s + 2 * error)
            * (w * w),
{
    let p: int = 0x20_0000_0000_0000;
    let uu: int = u * u;
    let ww: int = w * w;
    let ru: int = r * u;
    assert(uu > 0 && ww > 0) by (nonlinear_arith)
        requires
            uu == u * u,
            ww == w * w,
            u > 0,
            w > 0,
    ;
    let k: int = p * e + 200 * (s * uu) - p * (ru * uu);
    assert(k * ww >= 0) by (nonlinear_arith)
        requires
            k >= 0,
            ww > 0,
    ;
    assert(k * ww == p * (e * ww) + 200 * ((s * uu) * ww) - p * ((ru * uu) * ww)) by (nonlinear_arith)
        requires
            k == p * e + 200 * (s * uu) - p * (ru * uu),
    ;
    let z: int = uu * (w * error) - p * aq;
    assert(w * z >= 0) by (nonlinear_arith)
        requires
            z >= 0,
            w > 0,
    ;
    assert(w * z == w * (uu * (w * error)) - p * (w * aq)) by (nonlinear_arith)
        requires
            z == uu * (w * error) - p * aq,
    ;
    assert(w * (uu * (w * error)) == uu * (error * ww)) by (nonlinear_arith)
        requires
            ww == w * w,
    ;
    assert((s * uu) * ww == uu * (s * ww) && (ru * uu) * ww == uu * (ru * ww)) by (nonlinear_arith);
    assert(l * uu == uu * l) by (nonlinear_arith);
    let left: int = p * (ru * ww);
    let right: int = p * l + 200 * (s * ww) + 2 * (error * ww);
    assert(uu * left == p * (uu * (ru * ww))) by (nonlinear_arith)
        requires
            left == p * (ru * ww),
    ;
    assert(uu * right == p * (uu * l) + 200 * (uu * (s * ww)) + 2 * (uu * (error * ww)))
        by (nonlinear_arith)
        requires
            right == p * l + 200 * (s * ww) + 2 * (error * ww),
    ;
    assert(uu * left <= uu * right);
    assert(left <= right) by (nonlinear_arith)
        requires
            uu * left <= uu * right,
            uu > 0,
    ;
    assert((200 * s + 2 * error) * ww == 200 * (s * ww) + 2 * (error * ww)) by (nonlinear_arith);
}

/// Whether the ends of a segment and a place are within a bound.
pub open spec fn in_bounds(from: Point, to: Point, point: Point, most: int) -> bool {
    &&& bounding(most)
    &&& within_bound(from, most)
    &&& within_bound(to, most)
    &&& within_bound(point, most)
}

/// Whether no point of a segment has a squared distance to a place below `least`,
/// but for a sliver.
pub open spec fn nowhere_nearer(
    from: Point,
    to: Point,
    point: Point,
    least: Real,
    most: int,
) -> bool {
    forall|part: int, whole: int|
        0 <= part <= whole && whole > 0 ==> 0x20_0000_0000_0000 * ((least.value() * cell_unit()) * (
        whole * whole)) <= 0x20_0000_0000_0000 * (#[trigger] gap_sq(from, to, part, whole, point))
            + stray(from, to, most) * (whole * whole)
}

/// What the computed distance is not below bounds that of every point of the
/// segment.
pub proof fn lemma_nowhere_nearer(from: Point, to: Point, point: Point, least: Real, most: int)
    requires
        in_bounds(from, to, point, most),
        !least.nan(),
        least.rank() >= 0,
        !spec_segment_distance_sq(from, to, point).lt(least),
    ensures
        nowhere_nearer(from, to, point, least, most),
{
    let r: Real = spec_segment_distance_sq(from, to, point);
    lemma_no_point_is_nearer(from, to, point, 0, 1, most);
    let u: int = cell_unit();
    lemma_pow2_pos(1074);
    assert forall|part: int, whole: int| 0 <= part <= whole && whole > 0 implies 0x20_0000_0000_0000
        * ((least.value() * cell_unit()) * (whole * whole)) <= 0x20_0000_0000_0000
        * (#[trigger] gap_sq(from, to, part, whole, point)) + stray(from, to, most) * (whole
        * whole) by {
        lemma_no_point_is_nearer(from, to, point, part, whole, most);
        lemma_value_order(least, r);
        let a: int = least.value();
        let b: int = r.value();
        let ww: int = whole * whole;
        assert((a * u) * ww <= (b * u) * ww) by (nonlinear_arith)
            requires
                a <= b,
                u > 0,
                ww == whole * whole,
        ;
    }
}

/// A computed square is the square, up to 64 parts in `2^53` of the square of a
/// bound.
pub proof fn lemma_square_of(r: Real, most: int)
    requires
        bounding(most),
        reaches(r, 4 * most),
    ensures
        ({
            let s: Real = r.mul(r);
            &&& s.finite()
            &&& s.magnitude() <= 0x4db0_0000_0000_0000
            &&& 0x20_0000_0000_0000 * size_of(s.value() * cell_unit() - r.value() * r.value())
                <= 64 * (most * most)
            &&& size_of(s.value() * cell_unit()) <= 20 * (most * most)
        }),
{
    let x: int = r.value();
    let m: int = 2 * most;
    lemma_modest(r, most);
    lemma_close_product(r, r);
    lemma_unit_is_nothing(most);
    lemma_large_unit();
    assert(m * m == 4 * (most * most)) by (nonlinear_arith)
        requires
            m == 2 * most,
    ;
    assert(most * most >= 0) by (nonlinear_arith);
    lemma_product_of_rounded(cell_unit(), m, x, x, x, x, r.mul(r).value());
}

/// The computed square of a difference is its square, up to 64 parts in `2^53` of the
/// square of a bound.
proof fn lemma_squared_difference(a: Real, b: Real, most: int)
    requires
        bounding(most),
        reaches(a, 4 * most),
        reaches(b, 4 * most),
        size_of(a.value() - b.value()) <= 4 * most,
    ensures
        ({
            let d: Real = a.sub(b);
            let s: Real = d.mul(d);
            let e: int = a.value() - b.value();
            &&& s.finite()
            &&& s.magnitude() <= 0x4db0_0000_0000_0000
            &&& 0x20_0000_0000_0000 * size_of(s.value() * cell_unit() - e * e) <= 64 * (most * most)
            &&& size_of(s.value() * cell_unit()) <= 20 * (most * most)
        }),
{
    let d: Real = a.sub(b);
    let e: int = a.value() - b.value();
    let m: int = 2 * most;
    lemma_modest(a, most);
    lemma_modest(b, most);
    lemma_close_difference(a, b);
    lemma_unit_is_nothing(most);
    lemma_modest(d, most);
    lemma_close_product(d, d);
    lemma_large_unit();
    assert(m * m == 4 * (most * most)) by (nonlinear_arith)
        requires
            m == 2 * most,
    ;
    assert(most * most >= 0) by (nonlinear_arith);
    lemma_product_of_rounded(cell_unit(), m, e, e, d.value(), d.value(), d.mul(d).value());
}

/// The computed square of a distance is its square, up to 168 parts in `2^53` of the
/// square of a bound.
pub proof fn lemma_distance_sq(a: Point, b: Point, most: int)
    requires
        bounding(most),
        reaches(a.x, 4 * most),
        reaches(a.z, 4 * most),
        reaches(b.x, 4 * most),
        reaches(b.z, 4 * most),
        size_of(a.x.value() - b.x.value()) <= 4 * most,
        size_of(a.z.value() - b.z.value()) <= 4 * most,
    ensures
        ({
            let d: Real = distance_sq(a, b);
            let dx: int = a.x.value() - b.x.value();
            let dz: int = a.z.value() - b.z.value();
            &&& d.finite()
            &&& 0x20_0000_0000_0000 * size_of(d.value() * cell_unit() - (dx * dx + dz * dz)) <= 168
                * (most * most)
        }),
{
    let sx: Real = a.x.sub(b.x).mul(a.x.sub(b.x));
    let sz: Real = a.z.sub(b.z).mul(a.z.sub(b.z));
    let d: Real = sx.add(sz);
    let dx: int = a.x.value() - b.x.value();
    let dz: int = a.z.value() - b.z.value();
    let u: int = cell_unit();
    lemma_squared_difference(a.x, b.x, most);
    lemma_squared_difference(a.z, b.z, most);
    lemma_close_sum(sx, sz);
    lemma_large_unit();
    let t: int = sx.value() + sz.value();
    lemma_scaled_error(d.value(), t, u);
    assert(t * u == sx.value() * u + sz.value() * u) by (nonlinear_arith)
        requires
            t == sx.value() + sz.value(),
    ;
    let s: int = most * most;
    assert(size_of(t * u) <= 40 * s);
    lemma_chain(d.value() * u, t * u, dx * dx + dz * dz, 40 * s, 128 * s);
}

/// A computed root is the root, up to five parts in `2^53` of its square.
proof fn lemma_root_is_near(x: Real)
    requires
        x.finite(),
        !x.negative(),
        x.sqrt().finite(),
    ensures
        ({
            let l: int = x.sqrt().value();
            let s: int = x.value() * cell_unit();
            &&& l >= 0
            &&& 0x20_0000_0000_0000 * size_of(l * l - s) <= 5 * s
        }),
{
    let u: int = cell_unit();
    let r: Real = x.sqrt();
    lemma2_to64_rest();
    lemma_large_unit();
    if x.magnitude() == 0 {
        assert(r == x) by {
            reveal(Real::spec_sqrt);
        }
        lemma_size_of_zero(x);
        assert(0 * u == 0);
        assert(x.value() * x.value() == 0) by (nonlinear_arith)
            requires
                x.value() == 0,
        ;
    } else {
        assert(!r.negative()) by {
            reveal(Real::spec_sqrt);
        }
        lemma_root_error(x);
        let p: int = 0x20_0000_0000_0000;
        let l: int = r.value();
        let ll: int = l * l;
        let s: int = x.value() * u;
        assert(s >= 0) by (nonlinear_arith)
            requires
                s == x.value() * u,
                x.value() >= 0,
                u > 0,
        ;
        assert(ll >= 0) by (nonlinear_arith)
            requires
                ll == l * l,
        ;
        assert(p * s <= p * ll + 5 * ll && p * ll <= p * s + 5 * s) by {
            assert(((p + 2) * (p + 2)) * ll <= (p * (p + 5)) * ll) by (nonlinear_arith)
                requires
                    ll >= 0,
                    p == 0x20_0000_0000_0000,
            ;
            assert(((p + 2) * (p + 2)) * s <= (p * (p + 5)) * s) by (nonlinear_arith)
                requires
                    s >= 0,
                    p == 0x20_0000_0000_0000,
            ;
            assert(p * s <= (p + 5) * ll) by (nonlinear_arith)
                requires
                    (p * p) * s <= (p * (p + 5)) * ll,
                    p > 0,
            ;
            assert(p * ll <= (p + 5) * s) by (nonlinear_arith)
                requires
                    (p * p) * ll <= (p * (p + 5)) * s,
                    p > 0,
            ;
        }
        if ll <= s {
            assert(5 * ll <= 5 * s);
        }
    }
}

/// The square of a computed distance is the square of the distance, up to 512 parts in
/// `2^53` of the square of a bound.
pub proof fn lemma_distance(a: Point, b: Point, most: int)
    requires
        bounding(most),
        reaches(a.x, 4 * most),
        reaches(a.z, 4 * most),
        reaches(b.x, 4 * most),
        reaches(b.z, 4 * most),
        size_of(a.x.value() - b.x.value()) <= 4 * most,
        size_of(a.z.value() - b.z.value()) <= 4 * most,
    ensures
        ({
            let l: Real = distance(a, b);
            let dx: int = a.x.value() - b.x.value();
            let dz: int = a.z.value() - b.z.value();
            &&& l.finite()
            &&& l.value() >= 0
            &&& 0x20_0000_0000_0000 * size_of(l.value() * l.value() - (dx * dx + dz * dz)) <= 512
                * (most * most)
        }),
{
    let s: Real = distance_sq(a, b);
    let dx: int = a.x.value() - b.x.value();
    let dz: int = a.z.value() - b.z.value();
    lemma_distance_sq(a, b, most);
    lemma_sum_of_squares_is_positive(a.x.sub(b.x), a.z.sub(b.z));
    lemma_root_is_finite(s);
    lemma_root_is_near(s);
    lemma_squares_are_bounded(dx, dz, most);
}

proof fn lemma_sum_of_squares_is_positive(p: Real, q: Real)
    requires
        p.mul(p).add(q.mul(q)).finite(),
    ensures
        !p.mul(p).add(q.mul(q)).negative(),
{
    let a: Real = p.mul(p);
    let b: Real = q.mul(q);
    assert(a.nan() || !a.negative()) by {
        reveal(Real::spec_mul);
    }
    assert(b.nan() || !b.negative()) by {
        reveal(Real::spec_mul);
    }
    if a.nan() || b.nan() {
        lemma_nan_spreads(a, b);
    }
    reveal(Real::spec_add);
}

proof fn lemma_squares_are_bounded(dx: int, dz: int, most: int)
    requires
        size_of(dx) <= 4 * most,
        size_of(dz) <= 4 * most,
    ensures
        0 <= dx * dx + dz * dz <= 32 * (most * most),
        most * most >= 0,
{
    let m: int = most * most;
    lemma_mul_bound(dx, dx, 4 * most, 4 * most);
    lemma_mul_bound(dz, dz, 4 * most, 4 * most);
    assert((4 * most) * (4 * most) == 16 * m) by (nonlinear_arith)
        requires
            m == most * most,
    ;
    assert(dx * dx >= 0 && dz * dz >= 0 && m >= 0) by (nonlinear_arith)
        requires
            m == most * most,
    ;
}

/// The square of a computed hypotenuse is the sum of the squares of its sides, up to 512
/// parts in `2^53` of the square of a bound.
pub proof fn lemma_hypot(p: Real, q: Real, most: int)
    requires
        bounding(most),
        reaches(p, 4 * most),
        reaches(q, 4 * most),
    ensures
        ({
            let l: Real = p.hypot(q);
            let x: int = p.value();
            let z: int = q.value();
            &&& l.finite()
            &&& l.value() >= 0
            &&& 0x20_0000_0000_0000 * size_of(l.value() * l.value() - (x * x + z * z)) <= 512 * (most
                * most)
        }),
{
    let x: int = p.value();
    let z: int = q.value();
    lemma_modest(p, most);
    lemma_modest(q, most);
    lemma_squares_are_bounded(x, z, most);
    if p.abs().rank() < TINY && q.abs().rank() < TINY {
        lemma_tiny_hypot(p.abs(), q.abs());
        lemma_hypot_of_sizes(p, q);
        lemma_tiny_length(p.hypot(q), most);
        lemma_tiny_side(p, most);
        lemma_tiny_side(q, most);
    } else {
        lemma_plain_distance(p, q);
        let sp: Real = p.mul(p);
        let sq: Real = q.mul(q);
        let s: Real = sp.add(sq);
        let u: int = cell_unit();
        lemma_square_of(p, most);
        lemma_square_of(q, most);
        lemma_close_sum(sp, sq);
        lemma_large_unit();
        let t: int = sp.value() + sq.value();
        lemma_scaled_error(s.value(), t, u);
        assert(t * u == sp.value() * u + sq.value() * u) by (nonlinear_arith)
            requires
                t == sp.value() + sq.value(),
        ;
        let m: int = most * most;
        lemma_chain(s.value() * u, t * u, x * x + z * z, 40 * m, 128 * m);
        lemma_sum_of_squares_is_positive(p, q);
        lemma_root_is_finite(s);
        lemma_root_is_near(s);
    }
}

proof fn lemma_hypot_of_sizes(p: Real, q: Real)
    ensures
        p.hypot(q) == p.abs().hypot(q.abs()),
{
    let a: Real = p.abs();
    let b: Real = q.abs();
    assert(a.magnitude() == p.magnitude() && !a.negative());
    assert(b.magnitude() == q.magnitude() && !b.negative());
    assert(a.abs() == a && b.abs() == b);
}

/// The length of a hypotenuse over sides that are neither tiny nor huge.
proof fn lemma_plain_distance(p: Real, q: Real)
    requires
        modest(p),
        modest(q),
        !(p.abs().rank() < TINY && q.abs().rank() < TINY),
    ensures
        p.hypot(q) == p.mul(p).add(q.mul(q)).sqrt(),
{
    let a: Real = p.abs();
    let b: Real = q.abs();
    lemma_square_of_size(p);
    lemma_square_of_size(q);
    assert(a.magnitude() == p.magnitude() && !a.negative());
    assert(b.magnitude() == q.magnitude() && !b.negative());
    assert(!Real::of(HUGE).le(a) && !Real::of(HUGE).le(b));
    assert(p.hypot(q) == plain_hypot(a, b));
}

proof fn lemma_square_of_size(p: Real)
    ensures
        p.abs().mul(p.abs()) == p.mul(p),
{
    let a: Real = p.abs();
    assert(a.magnitude() == p.magnitude() && !a.negative());
    reveal(Real::spec_mul);
}

/// A number that is not above `2^-52` has a square that is nothing.
proof fn lemma_tiny_length(l: Real, most: int)
    requires
        bounding(most),
        l.finite(),
        0 <= l.rank() <= EPSILON,
    ensures
        l.value() >= 0,
        0x20_0000_0000_0000 * (l.value() * l.value()) <= most * most,
{
    let eps: Real = Real::of(EPSILON);
    let zero: Real = Real::of(ZERO);
    lemma2_to64();
    lemma2_to64_rest();
    assert(zero.magnitude() == 0);
    lemma_size_of_zero(zero);
    lemma_value_order(zero, l);
    lemma_value_order(l, eps);
    assert(eps.significand() == UNIT as nat && eps.exponent() == -104);
    lemma_pow2_adds(52, 970);
    lemma_pow2_adds(52, 1022);
    let e: int = eps.value();
    assert(e == pow2(1022));
    let u: int = cell_unit();
    assert(u == 0x10_0000_0000_0000 * e);
    let v: int = l.value();
    assert(v * v <= e * e) by (nonlinear_arith)
        requires
            0 <= v <= e,
    ;
    assert(0x20_0000_0000_0000 * (e * e) <= u * u) by (nonlinear_arith)
        requires
            u == 0x10_0000_0000_0000 * e,
            e >= 0,
    ;
    assert(u * u <= most * most) by (nonlinear_arith)
        requires
            0 <= u <= most,
    ;
}

proof fn lemma_tiny_side(p: Real, most: int)
    requires
        bounding(most),
        p.finite(),
        p.abs().rank() < TINY,
    ensures
        0x20_0000_0000_0000 * (p.value() * p.value()) <= most * most,
{
    let a: Real = p.abs();
    assert(a.value() == size_of(p.value()));
    lemma_tiny_length(a, most);
    let v: int = a.value();
    let d: int = p.value();
    assert(d * d == v * v) by (nonlinear_arith)
        requires
            d == v || d == -v,
    ;
}

} // verus!
