//! That an agent flees away from the discs that hold it.
use vstd::arithmetic::power2::*;
use vstd::prelude::*;

use crate::config::Threat;
use crate::course::lemma_part_along;
use crate::crossing::{cell_unit, lemma_large_unit};
use crate::gate::SLIVER;
use crate::geometry::{distance, distance_sq, Point, ONE, ZERO};
use crate::lattice::{lemma_quotient_is_finite, lemma_sign};
use crate::nearness::{
    bounding, lemma_close_difference, lemma_close_product, lemma_close_sum, lemma_distance,
    lemma_distance_sq, lemma_modest, lemma_size_scales, lemma_square_of, lemma_unit_is_nothing,
    modest, reaches, size_of, within_bound,
};
use crate::number::Real;
use crate::ordering::lemma_value_order;
use crate::roots::{lemma_hypot_commutes, lemma_share_of_hypot};
use crate::shortest::lemma_step_lengths;
use crate::steering::{escape_heading, repulsion, DEPTH_WEIGHT, NEAREST};
use crate::unit::lemma_size_of_zero;

verus! {

/// Whether a threat is a disc within a bound, and no small one beside it.
pub open spec fn plain_disc(threat: Threat, most: int) -> bool {
    &&& within_bound(threat.center, most)
    &&& reaches(threat.radius, most)
    &&& most <= 0x1_0000 * threat.radius.value()
}

/// Whether a disc holds a point: the point lies no farther from its center than its radius.
pub open spec fn holds_point(threat: Threat, point: Point) -> bool {
    !threat.radius.mul(threat.radius).lt(distance_sq(point, threat.center))
}

/// The distance from a center by which a push is told, and how far inside a disc it is.
spec fn told_by(threat: Threat, position: Point) -> Real {
    distance_sq(position, threat.center).sqrt().max(Real::of(NEAREST))
}

spec fn weight_of(threat: Threat, position: Point) -> Real {
    Real::of(ONE).add(
        threat.radius.sub(told_by(threat, position)).div(threat.radius).mul(Real::of(DEPTH_WEIGHT)),
    )
}

proof fn lemma_push_numbers()
    ensures
        modest(Real::of(DEPTH_WEIGHT)),
        modest(Real::of(ONE)),
        Real::of(DEPTH_WEIGHT).value() == 4 * cell_unit(),
        Real::of(ONE).value() == cell_unit(),
        Real::of(NEAREST).finite(),
        0 < Real::of(NEAREST).value(),
        0x1_0000 * Real::of(NEAREST).value() <= cell_unit(),
        cell_unit() <= 0x10_0000 * Real::of(NEAREST).value(),
{
    let four: Real = Real::of(DEPTH_WEIGHT);
    let least: Real = Real::of(NEAREST);
    let small: Real = Real { bits: 0x3ef0_0000_0000_0000 };
    let smaller: Real = Real { bits: 0x3eb0_0000_0000_0000 };
    let u: int = cell_unit();
    lemma2_to64();
    lemma2_to64_rest();
    lemma_step_lengths();
    assert(four.significand() == 0x10_0000_0000_0000 && four.exponent() == -50);
    assert(small.significand() == 0x10_0000_0000_0000 && small.exponent() == -68);
    lemma_pow2_adds(50, 1024);
    lemma_pow2_adds(52, 1006);
    lemma_pow2_adds(16, 1058);
    let a: int = pow2(1024) as int;
    assert(u == 0x4_0000_0000_0000 * a);
    assert(four.value() == 0x10_0000_0000_0000 * a);
    assert(small.value() == pow2(1058));
    assert(u == 0x1_0000 * small.value());
    assert(smaller.significand() == 0x10_0000_0000_0000 && smaller.exponent() == -72);
    lemma_pow2_adds(52, 1002);
    lemma_pow2_adds(20, 1054);
    assert(smaller.value() == pow2(1054));
    assert(u == 0x10_0000 * smaller.value());
    lemma_value_order(least, small);
    lemma_value_order(smaller, least);
    lemma_sign(least);
}

proof fn lemma_disc_reach(most: int, r: int, l: int, n: int, s: int, d: int)
    requires
        r > 0,
        l >= 0,
        0 < most <= 0x1_0000 * r,
        d <= s,
        0x20_0000_0000_0000 * size_of(l * l - n) <= 512 * (most * most),
        0x20_0000_0000_0000 * size_of(d - n) <= 168 * (most * most),
        0x20_0000_0000_0000 * size_of(s - r * r) <= 64 * (most * most),
    ensures
        64 * l <= 65 * r,
{
    let rr: int = r * r;
    let mm: int = most * most;
    assert(mm <= 0x1_0000_0000 * rr) by (nonlinear_arith)
        requires
            mm == most * most,
            rr == r * r,
            0 < most <= 0x1_0000 * r,
    ;
    assert(rr > 0) by (nonlinear_arith)
        requires
            rr == r * r,
            r > 0,
    ;
    assert(0x400 * (l * l) <= 0x401 * rr);
    assert(64 * l <= 65 * r) by (nonlinear_arith)
        requires
            0x400 * (l * l) <= 0x401 * rr,
            rr == r * r,
            r > 0,
            l >= 0,
    ;
}

/// Where a disc holds a point, the distance from its center is told to be hardly more than
/// its radius.
proof fn lemma_told_by(threat: Threat, position: Point, most: int)
    requires
        bounding(most),
        plain_disc(threat, most),
        within_bound(position, most),
        holds_point(threat, position),
    ensures
        ({
            let w: Real = told_by(threat, position);
            &&& w.finite()
            &&& 0 < w.value()
            &&& 64 * w.value() <= 65 * threat.radius.value()
            &&& Real::of(NEAREST).rank() <= w.rank()
            &&& 0 < threat.radius.value()
        }),
{
    let u: int = cell_unit();
    let c: Point = threat.center;
    let l: Real = distance(position, c);
    let d: Real = distance_sq(position, c);
    let s: Real = threat.radius.mul(threat.radius);
    let least: Real = Real::of(NEAREST);
    lemma_large_unit();
    lemma_push_numbers();
    lemma_distance(position, c, most);
    lemma_distance_sq(position, c, most);
    lemma_square_of(threat.radius, most);
    lemma_value_order(d, s);
    assert(d.value() * u <= s.value() * u) by (nonlinear_arith)
        requires
            d.value() <= s.value(),
            u > 0,
    ;
    let dx: int = position.x.value() - c.x.value();
    let dz: int = position.z.value() - c.z.value();
    lemma_disc_reach(
        most,
        threat.radius.value(),
        l.value(),
        dx * dx + dz * dz,
        s.value() * u,
        d.value() * u,
    );
    lemma_value_order(least, l);
    lemma_value_order(l, least);
}

proof fn lemma_depth_ints(u: int, most: int, r: int, w: int, x: int, q: int)
    requires
        u >= 0x100_0000_0000_0000,
        0 < most <= 0x1_0000 * r,
        0 < w,
        64 * w <= 65 * r,
        0x20_0000_0000_0000 * size_of(x - (r - w)) <= size_of(r - w),
        0x20_0000_0000_0000 * size_of(q * r - x * u) <= 32 * (most * u),
    ensures
        -u <= 32 * q,
        q <= 2 * u,
{
    let p: int = 0x20_0000_0000_0000;
    let ru: int = r * u;
    assert(-r <= 63 * x);
    assert(2 * x <= 3 * r);
    assert(most * u <= 0x1_0000 * ru && ru > 0) by (nonlinear_arith)
        requires
            most <= 0x1_0000 * r,
            ru == r * u,
            u > 0,
            r > 0,
    ;
    assert(-ru <= 63 * (x * u)) by (nonlinear_arith)
        requires
            -r <= 63 * x,
            ru == r * u,
            u > 0,
    ;
    assert(2 * (x * u) <= 3 * ru) by (nonlinear_arith)
        requires
            2 * x <= 3 * r,
            ru == r * u,
            u > 0,
    ;
    assert(-ru <= 32 * (q * r));
    assert(-u <= 32 * q) by (nonlinear_arith)
        requires
            -ru <= 32 * (q * r),
            ru == r * u,
            r > 0,
    ;
    assert(q * r <= 2 * ru);
    assert(q <= 2 * u) by (nonlinear_arith)
        requires
            q * r <= 2 * ru,
            ru == r * u,
            r > 0,
    ;
}

/// A push has a weight: about one at the rim of a disc, and more inside.
proof fn lemma_weight(threat: Threat, position: Point, most: int)
    requires
        bounding(most),
        plain_disc(threat, most),
        within_bound(position, most),
        holds_point(threat, position),
    ensures
        ({
            let w: Real = weight_of(threat, position);
            &&& w.finite()
            &&& cell_unit() <= 2 * w.value()
            &&& w.value() <= 16 * cell_unit()
        }),
{
    let u: int = cell_unit();
    let r: Real = threat.radius;
    let w: Real = told_by(threat, position);
    let x: Real = r.sub(w);
    let q: Real = x.div(r);
    let four: Real = Real::of(DEPTH_WEIGHT);
    lemma_large_unit();
    lemma_unit_is_nothing(most);
    lemma_push_numbers();
    lemma_told_by(threat, position, most);
    lemma_modest(r, most);
    lemma_modest(w, most);
    lemma_close_difference(r, w);
    lemma_modest(x, most);
    lemma_value_order(Real::of(NEAREST), r);
    assert(0x1_0000 * Real::of(NEAREST).value() <= 0x1_0000 * r.value());
    lemma_quotient_is_finite(x, r);
    lemma_part_along(x, r, most);
    lemma_depth_ints(u, most, r.value(), w.value(), x.value(), q.value());
    lemma_unit_bounds();
    lemma_modest(q, u);
    lemma_close_product(q, four);
    let t: int = q.mul(four).value();
    assert(four.value() == 4 * u);
    lemma_fourfold(u, q.value(), four.value(), t);
    lemma_close_sum(Real::of(ONE), q.mul(four));
}

proof fn lemma_unit_bounds()
    ensures
        bounding(cell_unit()),
{
    lemma_pow2_strictly_increases(1074, 1174);
}

proof fn lemma_fourfold(u: int, q: int, f: int, t: int)
    requires
        u >= 0x100_0000_0000_0000,
        f == 4 * u,
        -u <= 32 * q,
        q <= 2 * u,
        0x20_0000_0000_0000 * size_of(t * u - q * f) <= size_of(t) * u + 0x20_0000_0000_0000 * u,
    ensures
        -u <= 7 * t,
        t <= 9 * u,
{
    let p: int = 0x20_0000_0000_0000;
    let e: int = t - 4 * q;
    assert(e * u == t * u - q * f) by (nonlinear_arith)
        requires
            e == t - 4 * q,
            f == 4 * u,
    ;
    lemma_size_scales(e, u);
    let x: int = size_of(e);
    let n: int = size_of(t);
    assert(p * x <= n + p) by (nonlinear_arith)
        requires
            p * (x * u) <= n * u + p * u,
            u > 0,
    ;
}

/// What one disc adds to the push along one axis.
spec fn pushed(from: Real, center: Real, told: Real, weight: Real) -> Real {
    from.sub(center).div(told).mul(weight)
}

proof fn lemma_pushed(from: Real, center: Real, told: Real, weight: Real, most: int)
    requires
        bounding(0x100_0000_0000_0000 * most),
        bounding(most),
        reaches(from, most),
        reaches(center, most),
        told.finite(),
        0 < told.value() <= 2 * most,
        Real::of(NEAREST).rank() <= told.rank(),
        weight.finite(),
        cell_unit() <= 2 * weight.value(),
        weight.value() <= 16 * cell_unit(),
    ensures
        ({
            let push: int = pushed(from, center, told, weight).value();
            let d: int = from.value() - center.value();
            &&& reaches(pushed(from, center, told, weight), 0x1_0000_0000 * most)
            &&& d >= 0 ==> push >= 0
            &&& d <= 0 ==> push <= 0
            &&& 0x1_0000 * d >= most ==> cell_unit() <= 0x100_0000 * push
            &&& 0x1_0000 * d <= -most ==> 0x100_0000 * push <= -cell_unit()
        }),
{
    let u: int = cell_unit();
    let big: int = 0x100_0000_0000_0000 * most;
    let a: Real = from.sub(center);
    let q: Real = a.div(told);
    let m: Real = q.mul(weight);
    lemma_large_unit();
    lemma_unit_is_nothing(most);
    lemma_push_numbers();
    lemma_modest(from, most);
    lemma_modest(center, most);
    lemma_close_difference(from, center);
    lemma_modest(a, most);
    lemma_value_order(Real::of(NEAREST), told);
    lemma_quotient_is_finite(a, told);
    lemma_part_along(a, told, most);
    lemma_part_ints(u, most, a.value(), told.value(), q.value(), Real::of(NEAREST).value());
    lemma_modest(q, big);
    lemma_modest(weight, 16 * most);
    lemma_close_product(q, weight);
    if q.magnitude() == 0 {
        lemma_size_of_zero(q);
    } else {
        lemma_sign(q);
    }
    if weight.magnitude() == 0 {
        lemma_size_of_zero(weight);
    }
    lemma_sign(weight);
    if m.magnitude() == 0 {
        lemma_size_of_zero(m);
    } else {
        lemma_sign(m);
    }
    assert(m.magnitude() > 0 ==> q.magnitude() > 0 && m.negative() == q.negative()) by {
        reveal(Real::spec_mul);
    }
    lemma_weighted_ints(u, most, q.value(), weight.value(), m.value());
}

proof fn lemma_part_ints(u: int, most: int, a: int, w: int, q: int, least: int)
    requires
        u >= 0x100_0000_0000_0000,
        most >= u,
        u <= 0x10_0000 * least,
        0 < least <= w,
        w <= 2 * most,
        size_of(a) <= 4 * most,
        0x20_0000_0000_0000 * size_of(q * w - a * u) <= 32 * (most * u),
    ensures
        size_of(q) <= 0x100_0000 * most,
        0x2_0000 * a >= most ==> u <= 0x10_0000 * q,
        0x2_0000 * a <= -most ==> 0x10_0000 * q <= -u,
{
    let p: int = 0x20_0000_0000_0000;
    let mu: int = most * u;
    let n: int = size_of(q);
    assert(mu > 0) by (nonlinear_arith)
        requires
            mu == most * u,
            most > 0,
            u > 0,
    ;
    assert(size_of(a * u) <= 4 * mu) by {
        assert(-(4 * mu) <= a * u <= 4 * mu) by (nonlinear_arith)
            requires
                -(4 * most) <= a <= 4 * most,
                mu == most * u,
                u > 0,
        ;
    }
    assert(size_of(q * w) <= 5 * mu);
    lemma_size_scales(q, w);
    assert(n * u <= 0x10_0000 * (n * w)) by (nonlinear_arith)
        requires
            u <= 0x10_0000 * w,
            n >= 0,
    ;
    assert(n <= 0x50_0000 * most) by (nonlinear_arith)
        requires
            n * u <= 0x50_0000 * mu,
            mu == most * u,
            u > 0,
    ;
    if 0x2_0000 * a >= most {
        assert(0x2_0000 * (a * u) >= mu) by (nonlinear_arith)
            requires
                0x2_0000 * a >= most,
                mu == most * u,
                u > 0,
        ;
        assert(0x4_0000 * (q * w) >= mu);
        assert(u <= 0x10_0000 * q) by (nonlinear_arith)
            requires
                0x4_0000 * (q * w) >= mu,
                mu == most * u,
                0 < w <= 2 * most,
                most > 0,
                u > 0,
        ;
    }
    if 0x2_0000 * a <= -most {
        assert(0x2_0000 * (a * u) <= -mu) by (nonlinear_arith)
            requires
                0x2_0000 * a <= -most,
                mu == most * u,
                u > 0,
        ;
        let k: int = -q;
        assert(q * w == -(k * w)) by (nonlinear_arith)
            requires
                k == -q,
        ;
        assert(0x4_0000 * (k * w) >= mu);
        assert(u <= 0x10_0000 * k) by (nonlinear_arith)
            requires
                0x4_0000 * (k * w) >= mu,
                mu == most * u,
                0 < w <= 2 * most,
                most > 0,
                u > 0,
        ;
    }
}

proof fn lemma_weighted_ints(u: int, most: int, q: int, w: int, m: int)
    requires
        u >= 0x100_0000_0000_0000,
        most >= u,
        u <= 2 * w,
        w <= 16 * u,
        size_of(q) <= 0x100_0000 * most,
        q >= 0 ==> m >= 0,
        q <= 0 ==> m <= 0,
        0x20_0000_0000_0000 * size_of(m * u - q * w) <= size_of(m) * u + 0x20_0000_0000_0000 * u,
    ensures
        size_of(m) <= 0x1_0000_0000 * most,
        u <= 0x10_0000 * q ==> u <= 0x100_0000 * m,
        0x10_0000 * q <= -u ==> 0x100_0000 * m <= -u,
{
    let p: int = 0x20_0000_0000_0000;
    let k: int = size_of(q);
    let n: int = size_of(m);
    lemma_size_scales(m, u);
    lemma_size_scales(q, w);
    let nu: int = n * u;
    let kw: int = k * w;
    assert(kw <= 16 * (k * u)) by (nonlinear_arith)
        requires
            kw == k * w,
            w <= 16 * u,
            k >= 0,
    ;
    assert(q >= 0 ==> m * u == nu && q * w == kw);
    assert(q < 0 ==> m * u == -nu && q * w == -kw) by (nonlinear_arith)
        requires
            nu == n * u,
            kw == k * w,
            q < 0 ==> n == -m && k == -q,
    ;
    assert(p * size_of(nu - kw) <= nu + p * u);
    assert(nu <= 32 * (k * u) + 2 * u);
    assert(n <= 32 * k + 2) by (nonlinear_arith)
        requires
            nu == n * u,
            nu <= 32 * (k * u) + 2 * u,
            u > 0,
    ;
    if u <= 0x10_0000 * k {
        assert(u * u <= 0x20_0000 * kw) by (nonlinear_arith)
            requires
                u <= 0x10_0000 * k,
                u <= 2 * w,
                kw == k * w,
                u > 0,
        ;
        assert(kw <= 2 * nu + u);
        assert(u <= 0x40_0000 * n + 0x20_0000) by (nonlinear_arith)
            requires
                u * u <= 0x20_0000 * kw,
                kw <= 2 * nu + u,
                nu == n * u,
                u > 0,
        ;
    }
}

/// Whether a number is not negative, or not positive.
pub open spec fn is_on(up: bool, v: int) -> bool {
    if up {
        v >= 0
    } else {
        v <= 0
    }
}

/// Whether every one of the first discs that hold a point has its center on one side of it
/// along the first axis: below it, or above it.
pub open spec fn all_behind_x(discs: Seq<Threat>, n: int, point: Point, up: bool) -> bool {
    forall|k: int|
        0 <= k < n && holds_point(#[trigger] discs[k], point) ==> is_on(
            up,
            point.x.value() - discs[k].center.x.value(),
        )
}

/// The same along the second axis.
pub open spec fn all_behind_z(discs: Seq<Threat>, n: int, point: Point, up: bool) -> bool {
    forall|k: int|
        0 <= k < n && holds_point(#[trigger] discs[k], point) ==> is_on(
            up,
            point.z.value() - discs[k].center.z.value(),
        )
}

/// Whether one of the first discs holds a point that lies well off its center along the
/// first axis.
pub open spec fn one_behind_x(discs: Seq<Threat>, n: int, point: Point, most: int) -> bool {
    exists|k: int|
        0 <= k < n && holds_point(#[trigger] discs[k], point) && 0x1_0000 * size_of(
            point.x.value() - discs[k].center.x.value(),
        ) >= most
}

/// The same along the second axis.
pub open spec fn one_behind_z(discs: Seq<Threat>, n: int, point: Point, most: int) -> bool {
    exists|k: int|
        0 <= k < n && holds_point(#[trigger] discs[k], point) && 0x1_0000 * size_of(
            point.z.value() - discs[k].center.z.value(),
        ) >= most
}

/// How far the first discs may push at most.
pub open spec fn push_limit(n: int, most: int) -> int {
    0x2_0000_0000 * (most * n)
}

/// What one more disc does to a push along one axis.
spec fn goes_on(rest: int, push: int, d: int, most: int, up: bool) -> bool {
    &&& is_on(up, rest) && is_on(up, d) ==> is_on(up, push)
    &&& is_on(up, rest) && is_on(up, d) && (rest != 0 || 0x1_0000 * size_of(d) >= most) ==> push
        != 0
}

proof fn lemma_one_more_push(
    disc: Threat,
    position: Point,
    rest: Point,
    limit: int,
    up_x: bool,
    up_z: bool,
    most: int,
)
    requires
        bounding(most),
        bounding(0x100_0000_0000_0000 * most),
        plain_disc(disc, most),
        within_bound(position, most),
        holds_point(disc, position),
        0 <= limit <= 0x20_0000_0000_0000 * most,
        reaches(rest.x, limit),
        reaches(rest.z, limit),
    ensures
        ({
            let w: Real = told_by(disc, position);
            let weight: Real = weight_of(disc, position);
            let x: Real = rest.x.add(pushed(position.x, disc.center.x, w, weight));
            let z: Real = rest.z.add(pushed(position.z, disc.center.z, w, weight));
            let dx: int = position.x.value() - disc.center.x.value();
            let dz: int = position.z.value() - disc.center.z.value();
            &&& reaches(x, limit + 0x2_0000_0000 * most)
            &&& reaches(z, limit + 0x2_0000_0000 * most)
            &&& goes_on(rest.x.value(), x.value(), dx, most, up_x)
            &&& goes_on(rest.z.value(), z.value(), dz, most, up_z)
        }),
{
    let w: Real = told_by(disc, position);
    let weight: Real = weight_of(disc, position);
    lemma_large_unit();
    lemma_told_by(disc, position, most);
    lemma_weight(disc, position, most);
    lemma_pushed(position.x, disc.center.x, w, weight, most);
    lemma_pushed(position.z, disc.center.z, w, weight, most);
    lemma_added(rest.x, pushed(position.x, disc.center.x, w, weight), limit, most);
    lemma_added(rest.z, pushed(position.z, disc.center.z, w, weight), limit, most);
}

/// An agent is pushed away from the discs that hold it: where all of them have their
/// centers on one side of it along an axis, it is not pushed to that side, and it is pushed
/// to the other one if it lies well off the center of one of them.
pub proof fn lemma_pushes_lead_away(
    discs: Seq<Threat>,
    n: int,
    position: Point,
    up_x: bool,
    up_z: bool,
    most: int,
)
    requires
        bounding(most),
        bounding(0x100_0000_0000_0000 * most),
        0 <= n <= discs.len(),
        n <= 0x10_0000,
        within_bound(position, most),
        forall|k: int| 0 <= k < n ==> plain_disc(#[trigger] discs[k], most),
    ensures
        ({
            let push: Point = repulsion(discs, n, position);
            &&& reaches(push.x, push_limit(n, most))
            &&& reaches(push.z, push_limit(n, most))
            &&& all_behind_x(discs, n, position, up_x) ==> is_on(up_x, push.x.value())
            &&& all_behind_z(discs, n, position, up_z) ==> is_on(up_z, push.z.value())
            &&& all_behind_x(discs, n, position, up_x) && one_behind_x(discs, n, position, most)
                ==> push.x.value() != 0
            &&& all_behind_z(discs, n, position, up_z) && one_behind_z(discs, n, position, most)
                ==> push.z.value() != 0
        }),
    decreases n,
{
    lemma_large_unit();
    if n == 0 {
        let zero: Real = Real::of(ZERO);
        assert(zero.magnitude() == 0);
        lemma_size_of_zero(zero);
        assert(push_limit(0, most) == 0);
    } else {
        lemma_pushes_lead_away(discs, n - 1, position, up_x, up_z, most);
        let rest: Point = repulsion(discs, n - 1, position);
        let push: Point = repulsion(discs, n, position);
        let disc: Threat = discs[n - 1];
        let limit: int = push_limit(n - 1, most);
        lemma_push_limit(n, most);
        assert(plain_disc(disc, most));
        lemma_one_fewer(discs, n, position, up_x, up_z, most);
        if holds_point(disc, position) {
            lemma_one_more_push(disc, position, rest, limit, up_x, up_z, most);
            let w: Real = told_by(disc, position);
            let weight: Real = weight_of(disc, position);
            assert(push.x == rest.x.add(pushed(position.x, disc.center.x, w, weight)));
            assert(push.z == rest.z.add(pushed(position.z, disc.center.z, w, weight)));
        } else {
            assert(push == rest);
        }
    }
}

proof fn lemma_quotient_keeps_sign(x: Real, length: Real)
    requires
        x.finite(),
        !length.nan(),
        length.rank() > 0,
    ensures
        !x.div(length).nan(),
        x.div(length).magnitude() > 0 ==> x.magnitude() > 0 && x.div(length).negative()
            == x.negative(),
{
    assert(!length.negative() && length.magnitude() > 0);
    reveal(Real::spec_div);
}

/// A vector scaled to unit length keeps to the side of each axis on which it lies.
proof fn lemma_scaled_keeps_side(x: Real, z: Real, up: bool)
    requires
        x.finite(),
        z.finite(),
        Real::of(SLIVER).lt(x.hypot(z)),
        is_on(up, x.value()),
    ensures
        x.div(x.hypot(z)).finite(),
        is_on(up, x.div(x.hypot(z)).value()),
{
    let length: Real = x.hypot(z);
    let q: Real = x.div(length);
    assert(length.rank() > 0) by {
        assert(Real::of(SLIVER).rank() > 0);
    }
    lemma_quotient_keeps_sign(x, length);
    lemma_share_of_hypot(x, z);
    if q.magnitude() == 0 {
        lemma_size_of_zero(q);
    } else {
        lemma_sign(q);
        lemma_sign(x);
    }
}

/// An agent heads away from the discs that hold it: where all of them have their centers on
/// one side of it along an axis, it does not head to that side.
pub proof fn lemma_escape_leads_away(
    discs: Seq<Threat>,
    position: Point,
    up_x: bool,
    up_z: bool,
    most: int,
)
    requires
        bounding(most),
        bounding(0x100_0000_0000_0000 * most),
        discs.len() <= 0x10_0000,
        within_bound(position, most),
        forall|k: int| 0 <= k < discs.len() ==> plain_disc(#[trigger] discs[k], most),
        ({
            let push: Point = repulsion(discs, discs.len() as int, position);
            Real::of(SLIVER).lt(push.x.hypot(push.z))
        }),
    ensures
        ({
            let heading: Point = escape_heading(discs, position);
            let n: int = discs.len() as int;
            &&& heading.x.finite()
            &&& heading.z.finite()
            &&& all_behind_x(discs, n, position, up_x) ==> is_on(up_x, heading.x.value())
            &&& all_behind_z(discs, n, position, up_z) ==> is_on(up_z, heading.z.value())
        }),
{
    let n: int = discs.len() as int;
    let push: Point = repulsion(discs, n, position);
    lemma_pushes_lead_away(discs, n, position, up_x, up_z, most);
    lemma_hypot_commutes(push.x, push.z);
    lemma_scaled_keeps_side(push.x, push.z, push.x.value() >= 0);
    lemma_scaled_keeps_side(push.z, push.x, push.z.value() >= 0);
    if is_on(up_x, push.x.value()) {
        lemma_scaled_keeps_side(push.x, push.z, up_x);
    }
    if is_on(up_z, push.z.value()) {
        lemma_scaled_keeps_side(push.z, push.x, up_z);
    }
}

proof fn lemma_push_limit(n: int, most: int)
    requires
        1 <= n <= 0x10_0000,
        most > 0,
    ensures
        push_limit(n, most) == push_limit(n - 1, most) + 0x2_0000_0000 * most,
        0 <= push_limit(n - 1, most) <= 0x20_0000_0000_0000 * most,
{
    let k: int = n - 1;
    assert(most * n == most * k + most) by (nonlinear_arith)
        requires
            n == k + 1,
    ;
    assert(0 <= most * k <= 0x10_0000 * most) by (nonlinear_arith)
        requires
            0 <= k <= 0x10_0000,
            most > 0,
    ;
}

/// What holds of the first discs, told by the last of them and those before it.
proof fn lemma_one_fewer(
    discs: Seq<Threat>,
    n: int,
    position: Point,
    up_x: bool,
    up_z: bool,
    most: int,
)
    requires
        1 <= n <= discs.len(),
    ensures
        ({
            let disc: Threat = discs[n - 1];
            let held: bool = holds_point(disc, position);
            let dx: int = position.x.value() - disc.center.x.value();
            let dz: int = position.z.value() - disc.center.z.value();
            &&& all_behind_x(discs, n, position, up_x) ==> all_behind_x(
                discs,
                n - 1,
                position,
                up_x,
            ) && (held ==> is_on(up_x, dx))
            &&& all_behind_z(discs, n, position, up_z) ==> all_behind_z(
                discs,
                n - 1,
                position,
                up_z,
            ) && (held ==> is_on(up_z, dz))
            &&& one_behind_x(discs, n, position, most) ==> one_behind_x(
                discs,
                n - 1,
                position,
                most,
            ) || (held && 0x1_0000 * size_of(dx) >= most)
            &&& one_behind_z(discs, n, position, most) ==> one_behind_z(
                discs,
                n - 1,
                position,
                most,
            ) || (held && 0x1_0000 * size_of(dz) >= most)
        }),
{
}

/// A sum of two numbers of one sign has that sign.
proof fn lemma_added(a: Real, b: Real, limit: int, most: int)
    requires
        bounding(0x100_0000_0000_0000 * most),
        0 <= limit <= 0x20_0000_0000_0000 * most,
        reaches(a, limit),
        reaches(b, 0x1_0000_0000 * most),
        most > 0,
    ensures
        reaches(a.add(b), limit + 0x2_0000_0000 * most),
        a.value() >= 0 && b.value() >= 0 ==> a.add(b).value() >= 0,
        a.value() <= 0 && b.value() <= 0 ==> a.add(b).value() <= 0,
        a.value() >= 0 && b.value() >= 0 && a.value() + b.value() > 0 ==> a.add(b).value() > 0,
        a.value() <= 0 && b.value() <= 0 && a.value() + b.value() < 0 ==> a.add(b).value() < 0,
{
    lemma_modest(a, 0x100_0000_0000_0000 * most);
    lemma_modest(b, 0x100_0000_0000_0000 * most);
    lemma_close_sum(a, b);
}

} // verus!
