//! Steering: following a planned path, and fleeing out of threat discs.
use vstd::prelude::*;

use crate::config::{NavConfig, Threat};
use crate::gate::{may_move, move_allowed, SLIVER};
use crate::geometry::{distance_sq, Point, ONE, ZERO};
use crate::number::Real;
use crate::ordering::{lemma_sub_not_greater, lemma_sub_self};
use crate::pace::{
    direction, is_heading, is_stride, lemma_budget_of_one, lemma_budget_split,
    lemma_difference_is_not_negative, turned_direction, within_budget,
};
use crate::walk::WalkView;

verus! {

/// Distances to a threat's centre count as at least this: `1e-6`.
pub const NEAREST: u64 = 0x3eb0_c6f7_a0b5_ed8d;

/// Weight of the penetration depth while fleeing: `4`.
pub const DEPTH_WEIGHT: u64 = 0x4010_0000_0000_0000;

/// Number of directions tried while fleeing.
pub const FAN: usize = 13;

/// Where an agent has got to along its path.
#[derive(Clone, Copy, PartialEq, Eq, Structural, Debug)]
pub struct Stride {
    pub position: Point,
    /// The next point of the path to walk to.
    pub next: usize,
    /// Whether the path still stands; false when the guard refused a step.
    pub kept: bool,
    /// Distance walked.
    pub moved: Real,
}

pub open spec fn spec_stepped(from: Point, delta: Point, length: Real, step: Real) -> Point {
    Point {
        x: from.x.add(delta.x.div(length).mul(step)),
        z: from.z.add(delta.z.div(length).mul(step)),
    }
}

/// The point `step` further along a vector of the given length.
#[verifier::when_used_as_spec(spec_stepped)]
pub fn stepped(from: Point, delta: Point, length: Real, step: Real) -> (r: Point)
    ensures
        r == spec_stepped(from, delta, length, step),
{
    Point {
        x: from.x.add(delta.x.div(length).mul(step)),
        z: from.z.add(delta.z.div(length).mul(step)),
    }
}

pub open spec fn spec_difference(to: Point, from: Point) -> Point {
    Point { x: to.x.sub(from.x), z: to.z.sub(from.z) }
}

/// The vector from one point to another.
#[verifier::when_used_as_spec(spec_difference)]
pub fn difference(to: Point, from: Point) -> (r: Point)
    ensures
        r == spec_difference(to, from),
{
    Point { x: to.x.sub(from.x), z: to.z.sub(from.z) }
}

/// Walks up to `remaining` further along a path, point by point, as far as the
/// guard admits each step.
pub open spec fn steered(
    sensed: &WalkView,
    config: NavConfig,
    guarded: Seq<Threat>,
    path: Seq<Point>,
    position: Point,
    next: int,
    remaining: Real,
    moved: Real,
) -> Stride
    decreases path.len() - next,
{
    if !Real::of(SLIVER).lt(remaining) || next >= path.len() {
        Stride { position, next: next as usize, kept: true, moved }
    } else {
        let delta: Point = difference(path[next], position);
        let length: Real = delta.x.hypot(delta.z);
        if length.le(Real::of(SLIVER)) {
            steered(sensed, config, guarded, path, position, next + 1, remaining, moved)
        } else {
            let step: Real = remaining.min(length);
            let target: Point = stepped(position, delta, length, step);
            if !may_move(sensed, config, guarded, position, target) {
                Stride { position, next: 0, kept: false, moved }
            } else if length.sub(Real::of(SLIVER)).le(step) {
                steered(
                    sensed,
                    config,
                    guarded,
                    path,
                    target,
                    next + 1,
                    remaining.sub(step),
                    moved.add(step),
                )
            } else {
                Stride { position: target, next: next as usize, kept: true, moved: moved.add(step) }
            }
        }
    }
}

/// A step that stops short of its target uses up all that remained.
pub proof fn lemma_short_step_is_last(remaining: Real, length: Real)
    requires
        Real::of(SLIVER).lt(remaining),
        !length.sub(Real::of(SLIVER)).le(remaining.min(length)),
    ensures
        !Real::of(SLIVER).lt(remaining.sub(remaining.min(length))),
{
    let sliver: Real = Real::of(SLIVER);
    let step: Real = remaining.min(length);
    assert(SLIVER < 0x7ff0_0000_0000_0000u64);
    if step == remaining {
        lemma_sub_self(remaining);
    } else {
        assert(step == length && !length.nan());
        lemma_sub_not_greater(length, sliver);
    }
}

/// Walks along a path for as long as `remaining` lasts.
pub fn steer_along(
    sensed: &WalkView,
    config: &NavConfig,
    guarded: &Vec<Threat>,
    path: &Vec<Point>,
    position: Point,
    next: usize,
    budget: Real,
) -> (r: Stride)
    requires
        sensed.wf(),
    ensures
        r == steered(
            sensed,
            *config,
            guarded@,
            path@,
            position,
            next as int,
            budget,
            Real::of(ZERO),
        ),
{
    let ghost goal: Stride = steered(
        sensed,
        *config,
        guarded@,
        path@,
        position,
        next as int,
        budget,
        Real::of(ZERO),
    );
    let mut here: Point = position;
    let mut index: usize = next;
    let mut remaining: Real = budget;
    let mut moved: Real = Real::of(ZERO);
    while Real::of(SLIVER).lt(remaining) && index < path.len()
        invariant
            sensed.wf(),
            goal == steered(
                sensed,
                *config,
                guarded@,
                path@,
                position,
                next as int,
                budget,
                Real::of(ZERO),
            ),
            goal == steered(
                sensed,
                *config,
                guarded@,
                path@,
                here,
                index as int,
                remaining,
                moved,
            ),
        decreases path@.len() - index,
    {
        let delta: Point = difference(path[index], here);
        let length: Real = delta.x.hypot(delta.z);
        if length.le(Real::of(SLIVER)) {
            index = index + 1;
            continue;
        }
        let step: Real = remaining.min(length);
        let target: Point = stepped(here, delta, length, step);
        if !move_allowed(sensed, config, guarded, here, target) {
            // The plan was invalidated by a streamed obstacle or a threat that
            // moved in.
            return Stride { position: here, next: 0, kept: false, moved };
        }
        here = target;
        moved = moved.add(step);
        if length.sub(Real::of(SLIVER)).le(step) {
            remaining = remaining.sub(step);
            index = index + 1;
        } else {
            return Stride { position: here, next: index, kept: true, moved };
        }
    }
    Stride { position: here, next: index, kept: true, moved }
}

pub open spec fn spec_fan(k: usize) -> (Real, Real) {
    if k == 0 {
        (Real { bits: 0 }, Real { bits: 0x3ff0_0000_0000_0000 })
    } else if k == 1 {
        (Real { bits: 0x3fde_aee8_744b_05f0 }, Real { bits: 0x3fec_1528_065b_7d50 })
    } else if k == 2 {
        (Real { bits: 0xbfde_aee8_744b_05f0 }, Real { bits: 0x3fec_1528_065b_7d50 })
    } else if k == 3 {
        (Real { bits: 0x3fea_ed54_8f09_0cee }, Real { bits: 0x3fe1_4a28_0fb5_068c })
    } else if k == 4 {
        (Real { bits: 0xbfea_ed54_8f09_0cee }, Real { bits: 0x3fe1_4a28_0fb5_068c })
    } else if k == 5 {
        (Real { bits: 0x3fee_d577_f9c5_1e4b }, Real { bits: 0x3fd1_1eb3_682a_4c5f })
    } else if k == 6 {
        (Real { bits: 0xbfee_d577_f9c5_1e4b }, Real { bits: 0x3fd1_1eb3_682a_4c5f })
    } else if k == 7 {
        (Real { bits: 0x3ff0_0000_0000_0000 }, Real { bits: 0x3c91_a626_3314_5c07 })
    } else if k == 8 {
        (Real { bits: 0xbff0_0000_0000_0000 }, Real { bits: 0x3c91_a626_3314_5c07 })
    } else if k == 9 {
        (Real { bits: 0x3fee_4817_1f1a_3857 }, Real { bits: 0xbfd4_b0c6_b934_45ab })
    } else if k == 10 {
        (Real { bits: 0xbfee_4817_1f1a_3857 }, Real { bits: 0xbfd4_b0c6_b934_45ab })
    } else if k == 11 {
        (Real { bits: 0x3fe9_df33_d9aa_d708 }, Real { bits: 0xbfe2_d500_4b88_ad70 })
    } else {
        (Real { bits: 0xbfe9_df33_d9aa_d708 }, Real { bits: 0xbfe2_d500_4b88_ad70 })
    }
}

/// Sine and cosine of the angles by which the escape heading is turned, in the
/// order in which they are tried: 0, ±0.5, ±1, ±1.3, ±π/2, ±1.9 and ±2.2. The
/// fan includes the exact tangents, so a wall-pinned agent can slide out
/// sideways along the shell of the pinning disc.
#[verifier::when_used_as_spec(spec_fan)]
pub fn fan(k: usize) -> (r: (Real, Real))
    ensures
        r == spec_fan(k),
{
    if k == 0 {
        (Real { bits: 0 }, Real { bits: 0x3ff0_0000_0000_0000 })
    } else if k == 1 {
        (Real { bits: 0x3fde_aee8_744b_05f0 }, Real { bits: 0x3fec_1528_065b_7d50 })
    } else if k == 2 {
        (Real { bits: 0xbfde_aee8_744b_05f0 }, Real { bits: 0x3fec_1528_065b_7d50 })
    } else if k == 3 {
        (Real { bits: 0x3fea_ed54_8f09_0cee }, Real { bits: 0x3fe1_4a28_0fb5_068c })
    } else if k == 4 {
        (Real { bits: 0xbfea_ed54_8f09_0cee }, Real { bits: 0x3fe1_4a28_0fb5_068c })
    } else if k == 5 {
        (Real { bits: 0x3fee_d577_f9c5_1e4b }, Real { bits: 0x3fd1_1eb3_682a_4c5f })
    } else if k == 6 {
        (Real { bits: 0xbfee_d577_f9c5_1e4b }, Real { bits: 0x3fd1_1eb3_682a_4c5f })
    } else if k == 7 {
        (Real { bits: 0x3ff0_0000_0000_0000 }, Real { bits: 0x3c91_a626_3314_5c07 })
    } else if k == 8 {
        (Real { bits: 0xbff0_0000_0000_0000 }, Real { bits: 0x3c91_a626_3314_5c07 })
    } else if k == 9 {
        (Real { bits: 0x3fee_4817_1f1a_3857 }, Real { bits: 0xbfd4_b0c6_b934_45ab })
    } else if k == 10 {
        (Real { bits: 0xbfee_4817_1f1a_3857 }, Real { bits: 0xbfd4_b0c6_b934_45ab })
    } else if k == 11 {
        (Real { bits: 0x3fe9_df33_d9aa_d708 }, Real { bits: 0xbfe2_d500_4b88_ad70 })
    } else {
        (Real { bits: 0xbfe9_df33_d9aa_d708 }, Real { bits: 0xbfe2_d500_4b88_ad70 })
    }
}

/// Sum of the pushes away from those of the first `n` discs that hold the
/// agent; deeper discs push harder.
pub open spec fn repulsion(nearby: Seq<Threat>, n: int, position: Point) -> Point
    decreases n,
{
    if n <= 0 {
        Point { x: Real::of(ZERO), z: Real::of(ZERO) }
    } else {
        let rest: Point = repulsion(nearby, n - 1, position);
        let threat: Threat = nearby[n - 1];
        let away_sq: Real = distance_sq(position, threat.center);
        if threat.radius.mul(threat.radius).lt(away_sq) {
            rest
        } else {
            let away: Real = away_sq.sqrt().max(Real::of(NEAREST));
            let depth: Real = threat.radius.sub(away).div(threat.radius);
            let weight: Real = Real::of(ONE).add(depth.mul(Real::of(DEPTH_WEIGHT)));
            Point {
                x: rest.x.add(position.x.sub(threat.center.x).div(away).mul(weight)),
                z: rest.z.add(position.z.sub(threat.center.z).div(away).mul(weight)),
            }
        }
    }
}

pub open spec fn spec_unit_or(v: Point, otherwise: Point) -> Point {
    let length: Real = v.x.hypot(v.z);
    if Real::of(SLIVER).lt(length) {
        Point { x: v.x.div(length), z: v.z.div(length) }
    } else {
        otherwise
    }
}

/// A vector scaled to unit length, or another one where it has no length.
#[verifier::when_used_as_spec(spec_unit_or)]
pub fn unit_or(v: Point, otherwise: Point) -> (r: Point)
    ensures
        r == spec_unit_or(v, otherwise),
{
    let length: Real = v.x.hypot(v.z);
    if Real::of(SLIVER).lt(length) {
        Point { x: v.x.div(length), z: v.z.div(length) }
    } else {
        otherwise
    }
}

pub open spec fn spec_turned(position: Point, heading: Point, turn: (Real, Real), step: Real) -> Point {
    let (sin, cos): (Real, Real) = turn;
    Point {
        x: position.x.add(heading.x.mul(cos).sub(heading.z.mul(sin)).mul(step)),
        z: position.z.add(heading.x.mul(sin).add(heading.z.mul(cos)).mul(step)),
    }
}

/// The point one step away in a turned heading.
#[verifier::when_used_as_spec(spec_turned)]
pub fn turned(position: Point, heading: Point, turn: (Real, Real), step: Real) -> (r: Point)
    ensures
        r == spec_turned(position, heading, turn, step),
{
    let (sin, cos): (Real, Real) = turn;
    Point {
        x: position.x.add(heading.x.mul(cos).sub(heading.z.mul(sin)).mul(step)),
        z: position.z.add(heading.x.mul(sin).add(heading.z.mul(cos)).mul(step)),
    }
}

/// The heading straight away from the discs that hold the agent.
pub open spec fn escape_heading(nearby: Seq<Threat>, position: Point) -> Point {
    unit_or(
        repulsion(nearby, nearby.len() as int, position),
        Point { x: Real::of(ONE), z: Real::of(ZERO) },
    )
}

/// The first step of the fan, away from the threats noticed and from the `k`-th
/// on, that the guard admits, and its length; no step where it admits none.
pub open spec fn fled_from(
    sensed: &WalkView,
    config: NavConfig,
    nearby: Seq<Threat>,
    guarded: Seq<Threat>,
    position: Point,
    step: Real,
    k: int,
) -> (Point, Real)
    decreases FAN - k,
{
    let target: Point = turned(position, escape_heading(nearby, position), fan(k as usize), step);
    if k >= FAN {
        (position, Real::of(ZERO))
    } else if may_move(sensed, config, guarded, position, target) {
        (target, step)
    } else {
        fled_from(sensed, config, nearby, guarded, position, step, k + 1)
    }
}

/// Reactive escape while inside one or more threat discs: steer directly away
/// from the containing discs, rotating the heading until the movement guard
/// accepts a step.
pub fn flee_from(
    sensed: &WalkView,
    config: &NavConfig,
    nearby: &Vec<Threat>,
    guarded: &Vec<Threat>,
    position: Point,
    step: Real,
) -> (r: (Point, Real))
    requires
        sensed.wf(),
    ensures
        r == fled_from(sensed, *config, nearby@, guarded@, position, step, 0),
{
    let mut away: Point = Point { x: Real::of(ZERO), z: Real::of(ZERO) };
    let mut i: usize = 0;
    while i < nearby.len()
        invariant
            i <= nearby@.len(),
            away == repulsion(nearby@, i as int, position),
        decreases nearby@.len() - i,
    {
        let threat: Threat = nearby[i];
        let away_sq: Real = distance_sq(position, threat.center);
        if !threat.radius.mul(threat.radius).lt(away_sq) {
            let apart: Real = away_sq.sqrt().max(Real::of(NEAREST));
            let depth: Real = threat.radius.sub(apart).div(threat.radius);
            let weight: Real = Real::of(ONE).add(depth.mul(Real::of(DEPTH_WEIGHT)));
            away = Point {
                x: away.x.add(position.x.sub(threat.center.x).div(apart).mul(weight)),
                z: away.z.add(position.z.sub(threat.center.z).div(apart).mul(weight)),
            };
        }
        i = i + 1;
    }
    let heading: Point = unit_or(away, Point { x: Real::of(ONE), z: Real::of(ZERO) });
    let mut k: usize = 0;
    while k < FAN
        invariant
            sensed.wf(),
            k <= FAN,
            heading == escape_heading(nearby@, position),
            fled_from(sensed, *config, nearby@, guarded@, position, step, 0) == fled_from(
                sensed,
                *config,
                nearby@,
                guarded@,
                position,
                step,
                k as int,
            ),
        decreases FAN - k,
    {
        let target: Point = turned(position, heading, fan(k), step);
        if move_allowed(sensed, config, guarded, position, target) {
            return (target, step);
        }
        k = k + 1;
    }
    (position, Real::of(ZERO))
}

/// Whether every step of a walk is one that the guard admits, of the length
/// given for it.
pub open spec fn gated_walk(
    sensed: &WalkView,
    config: NavConfig,
    guarded: Seq<Threat>,
    walk: Seq<Point>,
    pace: Seq<Real>,
) -> bool {
    &&& walk.len() == pace.len() + 1
    &&& forall|i: int|
        0 <= i < pace.len() ==> may_move(sensed, config, guarded, #[trigger] walk[i], walk[i + 1])
            && is_stride(walk[i], walk[i + 1], pace[i])
}

/// Whether the guard admits a way from one point to another, step by step, that
/// is no longer than the distance allowed.
pub open spec fn walks_to(
    sensed: &WalkView,
    config: NavConfig,
    guarded: Seq<Threat>,
    from: Point,
    to: Point,
    budget: Real,
) -> bool {
    exists|walk: Seq<Point>, pace: Seq<Real>|
        {
            &&& #[trigger] gated_walk(sensed, config, guarded, walk, pace)
            &&& walk[0] == from
            &&& walk.last() == to
            &&& budget.finite() && budget.rank() >= 0 ==> within_budget(pace, budget)
        }
}

/// Staying where one is is a way.
pub proof fn lemma_staying_is_gated(
    sensed: &WalkView,
    config: NavConfig,
    guarded: Seq<Threat>,
    position: Point,
    budget: Real,
)
    ensures
        walks_to(sensed, config, guarded, position, position, budget),
{
    if budget.finite() && budget.rank() >= 0 {
        lemma_budget_of_one(budget, budget);
    }
    assert(gated_walk(sensed, config, guarded, seq![position], Seq::empty()));
}

/// One step that the guard admits is a way.
proof fn lemma_step_is_gated(
    sensed: &WalkView,
    config: NavConfig,
    guarded: Seq<Threat>,
    from: Point,
    to: Point,
    step: Real,
    budget: Real,
)
    requires
        may_move(sensed, config, guarded, from, to),
        is_stride(from, to, step),
        !step.nan(),
        step.rank() <= budget.rank(),
        step.rank() >= 0 || step == budget,
    ensures
        walks_to(sensed, config, guarded, from, to, budget),
{
    if budget.finite() && budget.rank() >= 0 {
        lemma_budget_of_one(step, budget);
    }
    assert(gated_walk(sensed, config, guarded, seq![from, to], seq![step]));
}

/// A step and a way on with what it leaves are a way.
proof fn lemma_step_and_on_is_gated(
    sensed: &WalkView,
    config: NavConfig,
    guarded: Seq<Threat>,
    from: Point,
    to: Point,
    end: Point,
    step: Real,
    budget: Real,
)
    requires
        may_move(sensed, config, guarded, from, to),
        is_stride(from, to, step),
        !step.nan(),
        0 <= step.rank() <= budget.rank(),
        walks_to(sensed, config, guarded, to, end, budget.sub(step)),
    ensures
        walks_to(sensed, config, guarded, from, end, budget),
{
    let left: Real = budget.sub(step);
    let (walk, pace): (Seq<Point>, Seq<Real>) = choose|walk: Seq<Point>, pace: Seq<Real>|
        {
            &&& #[trigger] gated_walk(sensed, config, guarded, walk, pace)
            &&& walk[0] == to
            &&& walk.last() == end
            &&& left.finite() && left.rank() >= 0 ==> within_budget(pace, left)
        };
    let whole: Seq<Point> = seq![from] + walk;
    let strides: Seq<Real> = seq![step] + pace;
    if budget.finite() {
        lemma_difference_is_not_negative(budget, step);
        lemma_budget_split(step, pace, budget);
    }
    assert forall|i: int| 0 <= i < strides.len() implies may_move(
        sensed,
        config,
        guarded,
        #[trigger] whole[i],
        whole[i + 1],
    ) && is_stride(whole[i], whole[i + 1], strides[i]) by {
        if i > 0 {
            assert(whole[i] == walk[i - 1]);
            assert(whole[i + 1] == walk[i]);
            assert(strides[i] == pace[i - 1]);
        }
    }
    assert(gated_walk(sensed, config, guarded, whole, strides));
    assert(whole.last() == end);
}

/// Steering moves the agent only over steps that the guard admits, and no
/// farther than the distance allowed.
pub proof fn lemma_steering_is_gated(
    sensed: &WalkView,
    config: NavConfig,
    guarded: Seq<Threat>,
    path: Seq<Point>,
    position: Point,
    next: int,
    remaining: Real,
    moved: Real,
)
    ensures
        walks_to(
            sensed,
            config,
            guarded,
            position,
            steered(sensed, config, guarded, path, position, next, remaining, moved).position,
            remaining,
        ),
    decreases path.len() - next,
{
    lemma_staying_is_gated(sensed, config, guarded, position, remaining);
    if Real::of(SLIVER).lt(remaining) && next < path.len() {
        let delta: Point = difference(path[next], position);
        let length: Real = delta.x.hypot(delta.z);
        let step: Real = remaining.min(length);
        let target: Point = stepped(position, delta, length, step);
        if length.le(Real::of(SLIVER)) {
            lemma_steering_is_gated(
                sensed,
                config,
                guarded,
                path,
                position,
                next + 1,
                remaining,
                moved,
            );
        } else if may_move(sensed, config, guarded, position, target) {
            assert(is_heading(direction(delta)));
            assert(is_stride(position, target, step));
            assert(SLIVER < 0x7ff0_0000_0000_0000u64);
            lemma_step_is_gated(sensed, config, guarded, position, target, step, remaining);
            if length.sub(Real::of(SLIVER)).le(step) {
                lemma_steering_is_gated(
                    sensed,
                    config,
                    guarded,
                    path,
                    target,
                    next + 1,
                    remaining.sub(step),
                    moved.add(step),
                );
                let end: Point = steered(
                    sensed,
                    config,
                    guarded,
                    path,
                    target,
                    next + 1,
                    remaining.sub(step),
                    moved.add(step),
                ).position;
                lemma_step_and_on_is_gated(
                    sensed,
                    config,
                    guarded,
                    position,
                    target,
                    end,
                    step,
                    remaining,
                );
            }
        }
    }
}

/// Fleeing moves the agent only over a step that the guard admits.
pub proof fn lemma_fleeing_is_gated(
    sensed: &WalkView,
    config: NavConfig,
    nearby: Seq<Threat>,
    guarded: Seq<Threat>,
    position: Point,
    step: Real,
    k: int,
)
    requires
        0 <= k,
        !step.nan(),
    ensures
        walks_to(
            sensed,
            config,
            guarded,
            position,
            fled_from(sensed, config, nearby, guarded, position, step, k).0,
            step,
        ),
        ({
            let (target, length): (Point, Real) = fled_from(
                sensed,
                config,
                nearby,
                guarded,
                position,
                step,
                k,
            );
            length == step || (target == position && length == Real::of(ZERO))
        }),
    decreases FAN - k,
{
    lemma_staying_is_gated(sensed, config, guarded, position, step);
    if k < FAN {
        let away: Point = repulsion(nearby, nearby.len() as int, position);
        let target: Point = turned(
            position,
            escape_heading(nearby, position),
            fan(k as usize),
            step,
        );
        if may_move(sensed, config, guarded, position, target) {
            assert(is_heading(turned_direction(away, k as usize)));
            assert(is_stride(position, target, step));
            lemma_step_is_gated(sensed, config, guarded, position, target, step, step);
        } else {
            lemma_fleeing_is_gated(sensed, config, nearby, guarded, position, step, k + 1);
        }
    }
}

} // verus!
