//! Which way steps lead, and that an agent walks as far as it may.
use vstd::arithmetic::power2::*;
use vstd::prelude::*;

use crate::config::{NavConfig, Threat};
use crate::crossing::{cell_unit, lemma_large_unit};
use crate::gate::{may_move, SLIVER};
use crate::geometry::{Point, ONE};
use crate::lattice::lemma_sign;
use crate::nearness::{
    bounding, lemma_close_difference, lemma_close_sum, lemma_hypot, lemma_modest,
    lemma_mul_bound, lemma_unit_is_nothing, reaches, size_of, within_bound,
};
use crate::number::Real;
use crate::ordering::{lemma_sub_not_greater, lemma_value_order};
use crate::roots::{lemma_hypot_commutes, lemma_share_of_hypot};
use crate::shortest::lemma_step_lengths;
use crate::steering::{difference, steered, stepped, Stride};
use crate::turning::lemma_step_along;
use crate::unit::{lemma_quotient_error, lemma_quotient_error_below, lemma_size_of_zero};
use crate::walk::WalkView;

verus! {

/// A quotient, told by its product with what it was divided by. It has the sign of what was
/// divided.
pub proof fn lemma_part_along(x: Real, length: Real, most: int)
    requires
        bounding(most),
        reaches(x, 4 * most),
        reaches(length, 8 * most),
        length.value() > 0,
        x.div(length).finite(),
    ensures
        ({
            let q: int = x.div(length).value();
            let u: int = cell_unit();
            &&& x.value() >= 0 ==> q >= 0
            &&& x.value() <= 0 ==> q <= 0
            &&& 0x20_0000_0000_0000 * size_of(q * length.value() - x.value() * u) <= 32 * (most * u)
        }),
{
    let q: Real = x.div(length);
    let u: int = cell_unit();
    lemma_large_unit();
    lemma_unit_is_nothing(most);
    lemma2_to64_rest();
    if length.magnitude() == 0 {
        lemma_size_of_zero(length);
    }
    assert(!length.negative());
    if x.magnitude() == 0 {
        lemma_size_of_zero(x);
        assert(q.magnitude() == 0) by {
            reveal(Real::spec_div);
        }
        lemma_size_of_zero(q);
    } else {
        lemma_sign(x);
        lemma_quotient_error(x, length);
        lemma_quotient_error_below(x, length);
        assert(q.magnitude() > 0 ==> q.negative() == x.negative()) by {
            reveal(Real::spec_div);
        }
        if q.magnitude() == 0 {
            lemma_size_of_zero(q);
        }
    }
    lemma_share_ints(
        u,
        most,
        x.value(),
        length.value(),
        q.value(),
        x.size() as int,
        q.size() as int,
    );
}

/// Which share of its length a vector has along one axis.
pub proof fn lemma_share_along(x: Real, length: Real, most: int)
    requires
        bounding(most),
        reaches(x, 4 * most),
        reaches(length, 8 * most),
        length.value() > 0,
        x.div(length).magnitude() <= ONE,
    ensures
        ({
            let q: Real = x.div(length);
            let u: int = cell_unit();
            &&& q.finite()
            &&& size_of(q.value()) <= u
            &&& 0x20_0000_0000_0000 * size_of(q.value() * length.value() - x.value() * u) <= 32 * (
            most * u)
        }),
{
    let q: Real = x.div(length);
    let one: Real = Real::of(ONE);
    lemma_step_lengths();
    let a: Real = q.abs();
    assert(a.value() == size_of(q.value()));
    lemma_value_order(a, one);
    lemma_part_along(x, length, most);
}

proof fn lemma_share_ints(u: int, most: int, x: int, l: int, q: int, xs: int, qs: int)
    requires
        u >= 0x100_0000_0000_0000,
        most > 0,
        0 < l <= 8 * most,
        xs == size_of(x),
        qs == size_of(q),
        xs <= 4 * most,
        x > 0 ==> q >= 0,
        x < 0 ==> q <= 0,
        x == 0 ==> q == 0,
        x != 0 ==> 0x1f_ffff_ffff_ffff * (qs * l) <= 0x20_0000_0000_0001 * (xs * u)
            + 0x20_0000_0000_0000 * l,
        x != 0 ==> 0x1f_ffff_ffff_ffff * (xs * u) <= 0x20_0000_0000_0001 * (qs * l)
            + 0x20_0000_0000_0000 * l,
    ensures
        0x20_0000_0000_0000 * size_of(q * l - x * u) <= 32 * (most * u),
{
    let mu: int = most * u;
    let ql: int = qs * l;
    let xu: int = xs * u;
    let lu: int = l * u;
    assert(mu > 0 && 0 <= xu <= 4 * mu && ql >= 0 && lu <= 8 * mu) by (nonlinear_arith)
        requires
            mu == most * u,
            xu == xs * u,
            ql == qs * l,
            lu == l * u,
            0 <= xs <= 4 * most,
            qs >= 0,
            0 < l <= 8 * most,
            most > 0,
            u > 0,
    ;
    assert(0x20_0000_0000_0000 * l <= lu) by (nonlinear_arith)
        requires
            lu == l * u,
            u >= 0x20_0000_0000_0000,
            l > 0,
    ;
    if x == 0 {
        assert(q * l == 0 && x * u == 0) by (nonlinear_arith)
            requires
                q == 0,
                x == 0,
        ;
    } else {
        assert(q * l - x * u == ql - xu || q * l - x * u == xu - ql) by (nonlinear_arith)
            requires
                ql == qs * l,
                xu == xs * u,
                (q == qs && x == xs) || (q == -qs && x == -xs),
        ;
    }
}

proof fn lemma_course_ints(u: int, most: int, d: int, q: int, s: int, l: int, x: int)
    requires
        u > 0,
        most > 0,
        0 < l <= 8 * most,
        0 <= s <= most,
        0x20_0000_0000_0000 * size_of(d * u - q * s) <= 8 * (most * u),
        0x20_0000_0000_0000 * size_of(q * l - x * u) <= 32 * (most * u),
    ensures
        0x20_0000_0000_0000 * size_of(d * l - x * s) <= 128 * (most * most),
{
    let p: int = 0x20_0000_0000_0000;
    let mu: int = most * u;
    let mm: int = most * most;
    let mmu: int = mm * u;
    let a: int = d * u - q * s;
    let b: int = q * l - x * u;
    lemma_mul_bound(p * a, l, 8 * mu, 8 * most);
    lemma_mul_bound(p * b, s, 32 * mu, most);
    assert((8 * mu) * (8 * most) == 64 * mmu && (32 * mu) * most == 32 * mmu) by (nonlinear_arith)
        requires
            mu == most * u,
            mm == most * most,
            mmu == mm * u,
    ;
    let dl: int = d * l;
    let xs: int = x * s;
    let qls: int = (q * l) * s;
    assert(a * l == dl * u - qls) by (nonlinear_arith)
        requires
            a == d * u - q * s,
            dl == d * l,
            qls == (q * l) * s,
    ;
    assert(b * s == qls - xs * u) by (nonlinear_arith)
        requires
            b == q * l - x * u,
            xs == x * s,
            qls == (q * l) * s,
    ;
    let g: int = d * l - x * s;
    assert(g * u == dl * u - xs * u) by (nonlinear_arith)
        requires
            g == dl - xs,
    ;
    assert((p * a) * l == p * (a * l) && (p * b) * s == p * (b * s)) by (nonlinear_arith);
    assert(p * g <= 128 * mm && -(128 * mm) <= p * g) by (nonlinear_arith)
        requires
            p * (g * u) <= 96 * mmu,
            -(96 * mmu) <= p * (g * u),
            mmu == mm * u,
            u > 0,
            mm >= 0,
    ;
    assert(mm >= 0) by (nonlinear_arith)
        requires
            mm == most * most,
    ;
}

/// A step along a vector leads along it: as far in each coordinate as the step takes of the
/// vector's length. A step as long as the vector leads to its end. This holds up to 128
/// parts in `2^53` of the square of a bound.
pub proof fn lemma_step_leads_along(from: Point, delta: Point, step: Real, most: int)
    requires
        bounding(most),
        within_bound(from, most),
        reaches(delta.x, 4 * most),
        reaches(delta.z, 4 * most),
        reaches(step, most),
        step.value() >= 0,
        delta.x.hypot(delta.z).value() > 0,
    ensures
        ({
            let length: Real = delta.x.hypot(delta.z);
            let to: Point = stepped(from, delta, length, step);
            let l: int = length.value();
            let s: int = step.value();
            &&& to.x.finite()
            &&& to.z.finite()
            &&& 0x20_0000_0000_0000 * size_of(
                (to.x.value() - from.x.value()) * l - delta.x.value() * s,
            ) <= 128 * (most * most)
            &&& 0x20_0000_0000_0000 * size_of(
                (to.z.value() - from.z.value()) * l - delta.z.value() * s,
            ) <= 128 * (most * most)
        }),
{
    let length: Real = delta.x.hypot(delta.z);
    let u: int = cell_unit();
    lemma_large_unit();
    lemma_unit_is_nothing(most);
    lemma_hypot(delta.x, delta.z, most);
    lemma_length_is_bounded(delta.x.value(), delta.z.value(), length.value(), most);
    lemma_number_share(delta.x, length);
    lemma_number_share(delta.z, length);
    lemma_share_of_hypot(delta.x, delta.z);
    lemma_hypot_commutes(delta.x, delta.z);
    lemma_share_of_hypot(delta.z, delta.x);
    lemma_share_along(delta.x, length, most);
    lemma_share_along(delta.z, length, most);
    lemma_step_along(from.x, delta.x.div(length), step, most);
    lemma_step_along(from.z, delta.z.div(length), step, most);
    let to: Point = stepped(from, delta, length, step);
    lemma_course_ints(
        u,
        most,
        to.x.value() - from.x.value(),
        delta.x.div(length).value(),
        step.value(),
        length.value(),
        delta.x.value(),
    );
    lemma_course_ints(
        u,
        most,
        to.z.value() - from.z.value(),
        delta.z.div(length).value(),
        step.value(),
        length.value(),
        delta.z.value(),
    );
}

pub proof fn lemma_number_share(x: Real, length: Real)
    requires
        x.finite(),
        length.finite(),
        length.value() > 0,
    ensures
        !x.div(length).nan(),
        length.rank() > 0,
{
    if length.magnitude() == 0 {
        lemma_size_of_zero(length);
    }
    reveal(Real::spec_div);
}

pub proof fn lemma_length_is_bounded(x: int, z: int, l: int, most: int)
    requires
        most > 0,
        size_of(x) <= 4 * most,
        size_of(z) <= 4 * most,
        l >= 0,
        0x20_0000_0000_0000 * size_of(l * l - (x * x + z * z)) <= 512 * (most * most),
    ensures
        l <= 8 * most,
{
    let m: int = most * most;
    lemma_mul_bound(x, x, 4 * most, 4 * most);
    lemma_mul_bound(z, z, 4 * most, 4 * most);
    assert((4 * most) * (4 * most) == 16 * m) by (nonlinear_arith)
        requires
            m == most * most,
    ;
    assert(m > 0) by (nonlinear_arith)
        requires
            m == most * most,
            most > 0,
    ;
    assert(l * l <= 33 * m);
    assert(l <= 8 * most) by (nonlinear_arith)
        requires
            l * l <= 33 * m,
            m == most * most,
            most > 0,
            l >= 0,
    ;
}

/// One step of a walk takes from what remains what it adds to what is walked.
proof fn lemma_step_is_accounted(remaining: Real, moved: Real, step: Real, most: int)
    requires
        bounding(most),
        remaining.finite(),
        moved.finite(),
        step.finite(),
        0 <= step.value() <= remaining.value(),
        0 <= moved.value(),
        moved.value() + remaining.value() <= 3 * most,
    ensures
        ({
            let left: Real = remaining.sub(step);
            let walked: Real = moved.add(step);
            let before: int = moved.value() + remaining.value();
            &&& left.finite()
            &&& walked.finite()
            &&& 0 <= left.value()
            &&& 0 <= walked.value()
            &&& 0x20_0000_0000_0000 * size_of(walked.value() + left.value() - before) <= 8 * most
            &&& 0x20_0000_0000_0000 * size_of(walked.value() - (moved.value() + step.value())) <= 4
                * most
        }),
{
    lemma_modest(remaining, most);
    lemma_modest(moved, most);
    lemma_modest(step, most);
    lemma_close_difference(remaining, step);
    lemma_close_sum(moved, step);
}

/// Steering walks as far as it may: where the path still stands and is not walked to its
/// end, all of the distance allowed is used up but for a sliver. In no case is more walked.
/// What is walked is meant as it is reported; this holds up to rounding.
pub proof fn lemma_steering_uses_the_distance(
    sensed: &WalkView,
    config: NavConfig,
    guarded: Seq<Threat>,
    path: Seq<Point>,
    position: Point,
    next: int,
    remaining: Real,
    moved: Real,
    most: int,
)
    requires
        bounding(most),
        0 <= next <= path.len() <= usize::MAX,
        remaining.finite(),
        moved.finite(),
        remaining.value() >= 0,
        moved.value() >= 0,
        0x20_0000_0000_0000 * (moved.value() + remaining.value()) + 8 * ((path.len() - next) * most)
            <= 3 * (0x20_0000_0000_0000 * most),
    ensures
        ({
            let r: Stride = steered(
                sensed,
                config,
                guarded,
                path,
                position,
                next,
                remaining,
                moved,
            );
            let whole: int = moved.value() + remaining.value();
            let slack: int = 8 * ((path.len() - next) * most);
            &&& r.moved.finite()
            &&& r.kept && r.next < path.len() ==> 0x20_0000_0000_0000 * (whole - r.moved.value())
                <= 0x20_0000_0000_0000 * Real::of(SLIVER).value() + slack
            &&& 0x20_0000_0000_0000 * (r.moved.value() - whole) <= slack
        }),
    decreases path.len() - next,
{
    let sliver: Real = Real::of(SLIVER);
    let n: int = path.len() - next;
    assert(SLIVER < 0x7ff0_0000_0000_0000u64);
    lemma_unit_is_nothing(most);
    assert(n * most >= 0) by (nonlinear_arith)
        requires
            n >= 0,
            most > 0,
    ;
    assert((n - 1) * most == n * most - most) by (nonlinear_arith);
    lemma_value_order(remaining, sliver);
    lemma_value_order(sliver, remaining);
    lemma_sliver_is_positive();
    if Real::of(SLIVER).lt(remaining) && next < path.len() {
        let delta: Point = difference(path[next], position);
        let length: Real = delta.x.hypot(delta.z);
        let step: Real = remaining.min(length);
        let target: Point = stepped(position, delta, length, step);
        if length.le(sliver) {
            lemma_steering_uses_the_distance(
                sensed,
                config,
                guarded,
                path,
                position,
                next + 1,
                remaining,
                moved,
                most,
            );
        } else if may_move(sensed, config, guarded, position, target) {
            lemma_chosen_step(remaining, length);
            lemma_step_is_accounted(remaining, moved, step, most);
            if length.sub(sliver).le(step) {
                lemma_steering_uses_the_distance(
                    sensed,
                    config,
                    guarded,
                    path,
                    target,
                    next + 1,
                    remaining.sub(step),
                    moved.add(step),
                    most,
                );
            } else {
                lemma_short_step_takes_all(remaining, length);
            }
        }
    }
}

proof fn lemma_sliver_is_positive()
    ensures
        Real::of(SLIVER).finite(),
        Real::of(SLIVER).value() > 0,
{
    let sliver: Real = Real::of(SLIVER);
    lemma_sign(sliver);
}

/// The step towards a point is a part of what remains.
proof fn lemma_chosen_step(remaining: Real, length: Real)
    requires
        remaining.finite(),
        remaining.value() >= 0,
        Real::of(SLIVER).lt(remaining),
        !length.le(Real::of(SLIVER)),
    ensures
        remaining.min(length).finite(),
        0 <= remaining.min(length).value() <= remaining.value(),
{
    let sliver: Real = Real::of(SLIVER);
    let step: Real = remaining.min(length);
    lemma_sliver_is_positive();
    if step != remaining {
        assert(step == length && !length.nan());
        assert(length.rank() < remaining.rank());
        lemma_value_order(length, remaining);
        lemma_value_order(sliver, length);
    }
}

/// A step that stops short of its point takes all that remains.
proof fn lemma_short_step_takes_all(remaining: Real, length: Real)
    requires
        !length.sub(Real::of(SLIVER)).le(remaining.min(length)),
        remaining.finite(),
    ensures
        remaining.min(length) == remaining,
{
    let sliver: Real = Real::of(SLIVER);
    let step: Real = remaining.min(length);
    if step != remaining {
        assert(step == length && !length.nan());
        lemma_sub_not_greater(length, sliver);
    }
}

} // verus!
