//! How far an agent gets: the strides of a walk against the distance allowed.
use vstd::arithmetic::power2::*;
use vstd::prelude::*;

use crate::conversion::lemma_neg_value;
use crate::geometry::{Point, ONE, ZERO};
use crate::number::{from_sum, Real};
use crate::ordering::{
    lemma_sub_not_greater, lemma_sum_error, lemma_sum_monotone, lemma_value_order, lemma_zero_rank,
};
use crate::steering::{spec_fan, spec_unit_or};

verus! {

/// Sum of the exact lengths of strides.
pub open spec fn total_length(pace: Seq<Real>) -> int
    decreases pace.len(),
{
    if pace.len() == 0 {
        0
    } else {
        pace[0].value() + total_length(pace.skip(1))
    }
}

/// Whether strides are together no longer than a distance, up to rounding: each
/// stride may add one part in `2^53`.
pub open spec fn within_budget(pace: Seq<Real>, budget: Real) -> bool {
    &&& forall|i: int| 0 <= i < pace.len() ==> (#[trigger] pace[i]).finite() && pace[i].rank() >= 0
    &&& pow2(53) * total_length(pace) <= (pow2(53) + pace.len()) * budget.value()
}

/// What is left of a distance is one.
pub proof fn lemma_difference_is_not_negative(budget: Real, step: Real)
    requires
        budget.finite(),
        !step.nan(),
        0 <= step.rank() <= budget.rank(),
    ensures
        budget.sub(step).finite(),
        0 <= budget.sub(step).rank() <= budget.rank(),
{
    reveal(Real::spec_add);
    lemma_value_order(step, budget);
    lemma_neg_value(step);
    lemma_sub_not_greater(budget, step);
    lemma_sum_monotone(
        0,
        budget.value() - step.value(),
        false,
        budget.negative() && !step.negative(),
    );
}

/// Strides that keep to what a first stride leaves keep, with it, to the whole.
pub proof fn lemma_budget_split(step: Real, rest: Seq<Real>, budget: Real)
    requires
        budget.finite(),
        !step.nan(),
        0 <= step.rank() <= budget.rank(),
        within_budget(rest, budget.sub(step)),
    ensures
        within_budget(seq![step] + rest, budget),
{
    reveal(Real::spec_add);
    let left: Real = budget.sub(step);
    let pace: Seq<Real> = seq![step] + rest;
    lemma_difference_is_not_negative(budget, step);
    lemma_value_order(step, budget);
    lemma_zero_rank(step);
    lemma_zero_rank(budget);
    lemma_neg_value(step);
    let total: int = budget.value() - step.value();
    assert(left == from_sum(total, budget.negative() && !step.negative()));
    lemma_value_order(left, budget);
    lemma_zero_rank(left);
    if total > 0 {
        assert(left == from_sum(total, false));
        lemma_sum_error(total as nat);
    } else {
        lemma_sum_error(0);
        assert(left.size() == 0) by (nonlinear_arith)
            requires
                left.size() == left.significand() * pow2((left.exponent() + 1074) as nat),
                left.significand() == 0,
        ;
    }
    assert(pace.skip(1) =~= rest);
    assert(pace[0] == step);
    lemma_pow2_pos(53);
    let p: int = pow2(53) as int;
    let n: int = rest.len() as int;
    let r: int = left.value();
    let b: int = budget.value();
    let s: int = step.value();
    let sum: int = total_length(rest);
    assert((p + n) * r <= p * (b - s) + b + n * b) by (nonlinear_arith)
        requires
            p * r <= p * (b - s) + (b - s),
            0 <= s <= b,
            0 <= r <= b,
            n >= 0,
            p > 0,
    ;
    assert(p * (s + sum) <= (p + (n + 1)) * b) by (nonlinear_arith)
        requires
            p * sum <= (p + n) * r,
            (p + n) * r <= p * (b - s) + b + n * b,
    ;
    assert forall|i: int| 0 <= i < pace.len() implies (#[trigger] pace[i]).finite()
        && pace[i].rank() >= 0 by {
        if i > 0 {
            assert(pace[i] == rest[i - 1]);
        }
    }
}

/// No strides, and one that is not longer than a distance, keep to it.
pub proof fn lemma_budget_of_one(step: Real, budget: Real)
    requires
        budget.finite(),
        !step.nan(),
        0 <= step.rank() <= budget.rank(),
    ensures
        within_budget(Seq::empty(), budget),
        within_budget(seq![step], budget),
{
    lemma_value_order(step, budget);
    lemma_zero_rank(step);
    lemma_zero_rank(budget);
    lemma2_to64_rest();
    let pace: Seq<Real> = seq![step];
    assert(pace.skip(1) =~= Seq::empty());
    assert(total_length(pace) == step.value() + total_length(pace.skip(1)));
    let b: int = budget.value();
    let s: int = step.value();
    let p: int = pow2(53) as int;
    assert(p * s <= (p + 1) * b && 0 <= p * b) by (nonlinear_arith)
        requires
            0 <= s <= b,
            p > 0,
    ;
    assert((p + 0) * b == p * b);
}

/// A vector divided by its length.
pub open spec fn direction(v: Point) -> Point {
    let length: Real = v.x.hypot(v.z);
    Point { x: v.x.div(length), z: v.z.div(length) }
}

/// A vector divided by its length, turned by an angle of the escape fan.
pub open spec fn turned_direction(v: Point, k: usize) -> Point {
    let heading: Point = spec_unit_or(v, Point { x: Real::of(ONE), z: Real::of(ZERO) });
    let (sin, cos): (Real, Real) = spec_fan(k);
    Point {
        x: heading.x.mul(cos).sub(heading.z.mul(sin)),
        z: heading.x.mul(sin).add(heading.z.mul(cos)),
    }
}

/// Whether a vector is a direction, or one turned by an angle of the escape fan.
pub open spec fn is_heading(heading: Point) -> bool {
    ||| exists|v: Point| heading == #[trigger] direction(v)
    ||| exists|v: Point, k: usize| heading == #[trigger] turned_direction(v, k)
}

/// The point a stride further in some direction.
pub open spec fn strode(from: Point, heading: Point, step: Real) -> Point {
    Point { x: from.x.add(heading.x.mul(step)), z: from.z.add(heading.z.mul(step)) }
}

/// Whether one point is a stride of the given length away from another.
pub open spec fn is_stride(from: Point, to: Point, step: Real) -> bool {
    exists|heading: Point| #[trigger] is_heading(heading) && to == strode(from, heading, step)
}

} // verus!
