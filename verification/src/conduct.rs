//! What holds of every simulation step of a navigator.
use vstd::arithmetic::power2::*;
use vstd::prelude::*;

use crate::config::{NavConfig, NavShared, Threat};
use crate::crossing::{cell_unit, lemma_large_unit};
use crate::dilation::gap;
use crate::gate::{
    escaping, gate_holds, gate_touched, held_by_any, keeps_out, lemma_move_enters_no_disc,
    lemma_untouched_is_kept_out, may_move, nearby_of, widened_of, SLIVER,
};
use crate::geometry::{Point, HUGE, ZERO};
use crate::navigator::{
    accounted, cleared, driven, has_arrived, replanned, replanned_and_steered,
    spec_walking_distance, steered_state, ticked, NavState, NavStatus,
};
use crate::nearness::{lemma_close_product, modest, size_of};
use crate::number::Real;
use crate::ordering::{lemma_mul_monotone, lemma_value_order, lemma_value_rank};
use crate::pace::{total_length, turned_direction, within_budget};
use crate::passage::{
    is_number, lemma_clear_segment_keeps_clearance, lemma_clear_segment_touches_no_blocked_cell,
    lies_well_inside, point_near, side, sliver, start_cell,
};
use crate::raycast::{is_trail, lemma_clear_segment_is_a_walk, lemma_clear_segment_ends_in_the_open};
use crate::steering::{
    escape_heading, fled_from, gated_walk, lemma_fleeing_is_gated, lemma_staying_is_gated, lemma_steering_is_gated,
    repulsion, spec_fan, turned, walks_to, FAN,
};
use crate::turning::lemma_heading_is_short;
use crate::unit::lemma_size_of_zero;
use crate::walk::WalkView;

verus! {

/// The distance that an agent can walk in a positive time is one.
proof fn lemma_walking_distance(config: NavConfig, dt: Real)
    requires
        dt.is_finite(),
        !dt.le(Real::of(ZERO)),
    ensures
        !spec_walking_distance(config, dt).nan(),
        spec_walking_distance(config, dt).rank() >= 0,
{
    let speed: Real = config.speed.max(Real::of(ZERO));
    if speed.finite() {
        lemma_mul_monotone(speed, speed, dt, dt);
    } else {
        reveal(Real::spec_mul);
    }
}

proof fn lemma_steered_state_is_gated(
    s: NavState,
    shared: &NavShared,
    sensed: &WalkView,
    threats: Seq<Threat>,
    dt: Real,
)
    ensures
        ({
            let after: NavState = steered_state(s, shared, sensed, threats, dt).0;
            &&& after.goal == s.goal
            &&& walks_to(
                sensed,
                shared.config,
                widened_of(threats, shared.config),
                s.position,
                after.position,
                spec_walking_distance(shared.config, dt),
            )
        }),
{
    lemma_steering_is_gated(
        sensed,
        shared.config,
        widened_of(threats, shared.config),
        s.local,
        s.position,
        s.local_next,
        spec_walking_distance(shared.config, dt),
        Real::of(ZERO),
    );
}

proof fn lemma_replanned_and_steered_is_gated(
    s: NavState,
    shared: &NavShared,
    sensed: &WalkView,
    threats: Seq<Threat>,
    nearby: Seq<Threat>,
    goal: Point,
    dt: Real,
)
    ensures
        ({
            let after: NavState = replanned_and_steered(
                s,
                shared,
                sensed,
                threats,
                nearby,
                goal,
                dt,
            ).0;
            &&& after.goal == s.goal
            &&& walks_to(
                sensed,
                shared.config,
                widened_of(threats, shared.config),
                s.position,
                after.position,
                spec_walking_distance(shared.config, dt),
            )
            &&& !Real::of(SLIVER).lt(spec_walking_distance(shared.config, dt))
                ==> after.position == s.position
        }),
{
    let planned: NavState = replanned(s, shared, sensed, threats, nearby, goal);
    assert(planned.position == s.position);
    assert(planned.goal == s.goal);
    lemma_staying_is_gated(
        sensed,
        shared.config,
        widened_of(threats, shared.config),
        s.position,
        spec_walking_distance(shared.config, dt),
    );
    lemma_steered_state_is_gated(planned, shared, sensed, threats, dt);
}

/// Moving follows one way that the guard admits, fleeing or not: an escape that
/// is too short to count leaves nothing to steer with.
proof fn lemma_driving_is_gated(
    s: NavState,
    shared: &NavShared,
    sensed: &WalkView,
    threats: Seq<Threat>,
    nearby: Seq<Threat>,
    goal: Point,
    dt: Real,
)
    requires
        dt.is_finite(),
        !dt.le(Real::of(ZERO)),
    ensures
        ({
            let after: NavState = driven(s, shared, sensed, threats, nearby, goal, dt).0;
            &&& after.goal == s.goal
            &&& walks_to(
                sensed,
                shared.config,
                widened_of(threats, shared.config),
                s.position,
                after.position,
                spec_walking_distance(shared.config, dt),
            )
        }),
{
    let guarded: Seq<Threat> = widened_of(threats, shared.config);
    let step: Real = spec_walking_distance(shared.config, dt);
    lemma_walking_distance(shared.config, dt);
    if held_by_any(nearby, s.position) {
        lemma_fleeing_is_gated(sensed, shared.config, nearby, guarded, s.position, step, 0);
        let (position, fled): (Point, Real) = fled_from(
            sensed,
            shared.config,
            nearby,
            guarded,
            s.position,
            step,
            0,
        );
        let fleeing: NavState = NavState {
            position,
            local: Seq::empty(),
            local_next: 0,
            replan_in: Real::of(ZERO),
            ..s
        };
        lemma_replanned_and_steered_is_gated(
            fleeing,
            shared,
            sensed,
            threats,
            nearby,
            goal,
            dt,
        );
    } else {
        let waiting: NavState = NavState { replan_in: s.replan_in.sub(dt), ..s };
        lemma_replanned_and_steered_is_gated(
            waiting,
            shared,
            sensed,
            threats,
            nearby,
            goal,
            dt,
        );
        lemma_steered_state_is_gated(waiting, shared, sensed, threats, dt);
    }
}

/// A simulation step leaves the agent where it is, or where moving takes it.
#[verifier::rlimit(30)]
proof fn lemma_tick_stays_or_drives(
    s: NavState,
    shared: &NavShared,
    sensed: &WalkView,
    threats: Seq<Threat>,
    dt: Real,
)
    ensures
        ({
            let after: NavState = ticked(s, shared, sensed, threats, dt);
            let nearby: Seq<Threat> = nearby_of(
                threats,
                threats.len() as int,
                shared.config,
                s.position,
            );
            ||| after.position == s.position && after.goal == s.goal
            ||| {
                &&& dt.is_finite()
                &&& !dt.le(Real::of(ZERO))
                &&& s.goal is Some
                &&& ({
                    let moved: NavState = driven(
                        s,
                        shared,
                        sensed,
                        threats,
                        nearby,
                        s.goal.unwrap(),
                        dt,
                    ).0;
                    after.position == moved.position && after.goal == moved.goal
                })
            }
        }),
{
    if dt.is_finite() && !dt.le(Real::of(ZERO)) && s.goal is Some {
        let nearby: Seq<Threat> = nearby_of(
            threats,
            threats.len() as int,
            shared.config,
            s.position,
        );
        let (walked, moved): (NavState, Option<Real>) = driven(
            s,
            shared,
            sensed,
            threats,
            nearby,
            s.goal.unwrap(),
            dt,
        );
        if let Some(moved) = moved {
            assert(accounted(walked, shared, moved, dt).position == walked.position);
            assert(accounted(walked, shared, moved, dt).goal == walked.goal);
        }
    }
}

/// A simulation step moves the agent only over straight strides that the guard
/// admits against the sensed grid and every threat, whatever plan it follows.
/// Together they are no longer than the speed allows, up to rounding. It never
/// changes the goal.
#[verifier::rlimit(30)]
pub proof fn lemma_tick_is_gated(
    s: NavState,
    shared: &NavShared,
    sensed: &WalkView,
    threats: Seq<Threat>,
    dt: Real,
)
    ensures
        ticked(s, shared, sensed, threats, dt).goal == s.goal,
        walks_to(
            sensed,
            shared.config,
            widened_of(threats, shared.config),
            s.position,
            ticked(s, shared, sensed, threats, dt).position,
            spec_walking_distance(shared.config, dt),
        ),
        dt.is_finite() && !dt.le(Real::of(ZERO)) ==> !spec_walking_distance(shared.config, dt).nan()
            && spec_walking_distance(shared.config, dt).rank() >= 0,
{
    let guarded: Seq<Threat> = widened_of(threats, shared.config);
    let budget: Real = spec_walking_distance(shared.config, dt);
    lemma_staying_is_gated(sensed, shared.config, guarded, s.position, budget);
    lemma_tick_stays_or_drives(s, shared, sensed, threats, dt);
    if dt.is_finite() && !dt.le(Real::of(ZERO)) {
        lemma_walking_distance(shared.config, dt);
        if let Some(goal) = s.goal {
            let nearby: Seq<Threat> = nearby_of(
                threats,
                threats.len() as int,
                shared.config,
                s.position,
            );
            lemma_driving_is_gated(s, shared, sensed, threats, nearby, goal, dt);
        }
    }
}

/// The distance that an agent can walk in some time is its speed by the time, up to one
/// part in `2^53` and half a unit; an agent whose speed is not positive cannot walk.
pub proof fn lemma_distance_is_speed_by_time(config: NavConfig, dt: Real)
    requires
        modest(config.speed),
        modest(dt),
        dt.value() > 0,
    ensures
        ({
            let distance: Real = spec_walking_distance(config, dt);
            let u: int = cell_unit();
            &&& distance.finite()
            &&& distance.value() >= 0
            &&& config.speed.value() >= 0 ==> 0x20_0000_0000_0000 * size_of(
                distance.value() * u - config.speed.value() * dt.value(),
            ) <= distance.value() * u + 0x20_0000_0000_0000 * u
            &&& config.speed.value() <= 0 ==> distance.value() == 0
        }),
{
    let zero: Real = Real::of(ZERO);
    let speed: Real = config.speed.max(zero);
    assert(zero.magnitude() == 0);
    lemma_size_of_zero(zero);
    lemma_value_order(zero, config.speed);
    lemma_value_order(config.speed, zero);
    lemma_close_product(speed, dt);
    lemma_value_order(zero, speed);
    lemma_value_order(zero, dt);
    lemma_mul_monotone(speed, speed, dt, dt);
    lemma_value_order(zero, speed.mul(dt));
    if config.speed.value() <= 0 {
        lemma_value_order(speed, zero);
        assert(speed.rank() == 0);
        lemma_nothing_times(speed, dt);
        lemma_size_of_zero(speed.mul(dt));
    }
}

proof fn lemma_nothing_times(a: Real, b: Real)
    requires
        a.magnitude() == 0,
        b.finite(),
    ensures
        a.mul(b).magnitude() == 0,
        b.mul(a).magnitude() == 0,
{
    reveal(Real::spec_mul);
    let m: nat = a.significand() * b.significand();
    let n: nat = b.significand() * a.significand();
    assert(m == 0 && n == 0) by (nonlinear_arith)
        requires
            m == a.significand() * b.significand(),
            n == b.significand() * a.significand(),
            a.significand() == 0,
    ;
}

/// Whether strides of the given lengths are together no longer than a speed by a time,
/// up to one part in `2^53` for each stride and two more, and a unit.
pub open spec fn keeps_to_speed(pace: Seq<Real>, speed: Real, dt: Real) -> bool {
    &&& forall|i: int| 0 <= i < pace.len() ==> (#[trigger] pace[i]).finite() && pace[i].value() >= 0
    &&& 0x1f_ffff_ffff_ffff * (total_length(pace) * cell_unit()) <= (0x20_0000_0000_0000
        + pace.len()) * (speed.value() * dt.value() + cell_unit())
}

proof fn lemma_speed_bound(p: int, n: int, u: int, total: int, b: int, v: int)
    requires
        p > 1,
        n >= 0,
        u > 0,
        b >= 0,
        v >= 0,
        p * total <= (p + n) * b,
        p * (b * u - v) <= b * u + p * u,
    ensures
        (p - 1) * (total * u) <= (p + n) * (v + u),
{
    let bu: int = b * u;
    let tu: int = total * u;
    assert(p * tu <= (p + n) * bu) by (nonlinear_arith)
        requires
            p * total <= (p + n) * b,
            tu == total * u,
            bu == b * u,
            u > 0,
    ;
    assert((p - 1) * bu <= p * (v + u)) by (nonlinear_arith)
        requires
            p * (bu - v) <= bu + p * u,
    ;
    assert((p - 1) * (p * tu) <= (p + n) * ((p - 1) * bu)) by (nonlinear_arith)
        requires
            p * tu <= (p + n) * bu,
            p > 1,
    ;
    assert((p + n) * ((p - 1) * bu) <= (p + n) * (p * (v + u))) by (nonlinear_arith)
        requires
            (p - 1) * bu <= p * (v + u),
            p + n >= 0,
    ;
    assert((p - 1) * tu <= (p + n) * (v + u)) by (nonlinear_arith)
        requires
            (p - 1) * (p * tu) <= (p + n) * (p * (v + u)),
            p > 1,
    ;
}

/// In one simulation step the agent moves over straight strides that the guard admits
/// and that are together no longer than the speed by the time, up to rounding.
pub proof fn lemma_tick_keeps_to_speed(
    s: NavState,
    shared: &NavShared,
    sensed: &WalkView,
    threats: Seq<Threat>,
    dt: Real,
)
    requires
        modest(shared.config.speed),
        modest(dt),
        dt.value() > 0,
        shared.config.speed.value() >= 0,
    ensures
        exists|walk: Seq<Point>, pace: Seq<Real>|
            {
                &&& #[trigger] gated_walk(
                    sensed,
                    shared.config,
                    widened_of(threats, shared.config),
                    walk,
                    pace,
                )
                &&& walk[0] == s.position
                &&& walk.last() == ticked(s, shared, sensed, threats, dt).position
                &&& keeps_to_speed(pace, shared.config.speed, dt)
            },
{
    let guarded: Seq<Threat> = widened_of(threats, shared.config);
    let budget: Real = spec_walking_distance(shared.config, dt);
    let after: Point = ticked(s, shared, sensed, threats, dt).position;
    lemma_tick_is_gated(s, shared, sensed, threats, dt);
    lemma_distance_is_speed_by_time(shared.config, dt);
    lemma_size_is_rank(budget);
    let (walk, pace): (Seq<Point>, Seq<Real>) = choose|walk: Seq<Point>, pace: Seq<Real>|
        {
            &&& #[trigger] gated_walk(sensed, shared.config, guarded, walk, pace)
            &&& walk[0] == s.position
            &&& walk.last() == after
            &&& budget.finite() && budget.rank() >= 0 ==> within_budget(pace, budget)
        };
    lemma2_to64_rest();
    lemma_large_unit();
    let u: int = cell_unit();
    let v: int = shared.config.speed.value() * dt.value();
    assert(v >= 0) by (nonlinear_arith)
        requires
            v == shared.config.speed.value() * dt.value(),
            shared.config.speed.value() >= 0,
            dt.value() > 0,
    ;
    lemma_speed_bound(
        0x20_0000_0000_0000,
        pace.len() as int,
        u,
        total_length(pace),
        budget.value(),
        v,
    );
    assert forall|i: int| 0 <= i < pace.len() implies (#[trigger] pace[i]).finite()
        && pace[i].value() >= 0 by {
        lemma_size_is_rank(pace[i]);
    }
}

proof fn lemma_size_is_rank(r: Real)
    requires
        r.finite(),
    ensures
        r.value() >= 0 <==> r.rank() >= 0,
{
    let zero: Real = Real::of(ZERO);
    assert(zero.magnitude() == 0);
    lemma_size_of_zero(zero);
    lemma_value_order(zero, r);
}

/// A step of no length leads to the same coordinates.
proof fn lemma_step_of_nothing(position: Point, heading: Point, turn: (Real, Real), step: Real)
    requires
        position.x.finite(),
        position.z.finite(),
        step.magnitude() == 0,
        heading.x.mul(turn.1).sub(heading.z.mul(turn.0)).finite(),
        heading.x.mul(turn.0).add(heading.z.mul(turn.1)).finite(),
    ensures
        same_place(turned(position, heading, turn, step), position),
{
    let x: Real = heading.x.mul(turn.1).sub(heading.z.mul(turn.0));
    let z: Real = heading.x.mul(turn.0).add(heading.z.mul(turn.1));
    lemma_nothing_times(step, x);
    lemma_nothing_times(step, z);
    lemma_plus_nothing(position.x, x.mul(step));
    lemma_plus_nothing(position.z, z.mul(step));
}

proof fn lemma_plus_nothing(a: Real, b: Real)
    requires
        a.finite(),
        b.magnitude() == 0,
    ensures
        a.add(b).finite(),
        a.add(b).value() == a.value(),
{
    reveal(Real::spec_add);
    lemma_size_of_zero(b);
    let r: Real = a.add(b);
    lemma_value_rank(a, a.negative() && b.negative());
    lemma_value_order(a, r);
    lemma_value_order(r, a);
}

/// Whether two points have the same coordinates.
pub open spec fn same_place(a: Point, b: Point) -> bool {
    &&& a.x.finite()
    &&& a.z.finite()
    &&& a.x.value() == b.x.value()
    &&& a.z.value() == b.z.value()
}

proof fn lemma_fleeing_without_speed_stays(
    sensed: &WalkView,
    config: NavConfig,
    nearby: Seq<Threat>,
    guarded: Seq<Threat>,
    position: Point,
    step: Real,
    k: int,
)
    requires
        0 <= k,
        position.x.finite(),
        position.z.finite(),
        step.magnitude() == 0,
        ordinary_push(nearby, position),
    ensures
        same_place(fled_from(sensed, config, nearby, guarded, position, step, k).0, position),
        fled_from(sensed, config, nearby, guarded, position, step, k).1.magnitude() == 0,
    decreases FAN - k,
{
    if k < FAN {
        let away: Point = repulsion(nearby, nearby.len() as int, position);
        let heading: Point = escape_heading(nearby, position);
        lemma_heading_is_short(away, k as usize);
        let turned_to: Point = turned_direction(away, k as usize);
        assert(turned_to.x.finite() && turned_to.z.finite());
        lemma_step_of_nothing(position, heading, spec_fan(k as usize), step);
        lemma_fleeing_without_speed_stays(
            sensed,
            config,
            nearby,
            guarded,
            position,
            step,
            k + 1,
        );
    }
}

/// Whether the push away from the discs that hold an agent is of ordinary size.
pub open spec fn ordinary_push(nearby: Seq<Threat>, position: Point) -> bool {
    let away: Point = repulsion(nearby, nearby.len() as int, position);
    away.x.magnitude() < HUGE && away.z.magnitude() < HUGE
}

proof fn lemma_driving_without_speed_stays(
    s: NavState,
    shared: &NavShared,
    sensed: &WalkView,
    threats: Seq<Threat>,
    nearby: Seq<Threat>,
    goal: Point,
    dt: Real,
)
    requires
        spec_walking_distance(shared.config, dt).magnitude() == 0,
        s.position.x.finite(),
        s.position.z.finite(),
        ordinary_push(nearby, s.position),
    ensures
        same_place(driven(s, shared, sensed, threats, nearby, goal, dt).0.position, s.position),
{
    let guarded: Seq<Threat> = widened_of(threats, shared.config);
    let step: Real = spec_walking_distance(shared.config, dt);
    assert(SLIVER < 0x7ff0_0000_0000_0000u64);
    assert(!Real::of(SLIVER).lt(step));
    if held_by_any(nearby, s.position) {
        lemma_fleeing_without_speed_stays(
            sensed,
            shared.config,
            nearby,
            guarded,
            s.position,
            step,
            0,
        );
        let (position, fled): (Point, Real) = fled_from(
            sensed,
            shared.config,
            nearby,
            guarded,
            s.position,
            step,
            0,
        );
        let fleeing: NavState = NavState {
            position,
            local: Seq::empty(),
            local_next: 0,
            replan_in: Real::of(ZERO),
            ..s
        };
        assert(!Real::of(SLIVER).lt(fled));
        lemma_replanned_and_steered_is_gated(
            fleeing,
            shared,
            sensed,
            threats,
            nearby,
            goal,
            dt,
        );
    } else {
        let waiting: NavState = NavState { replan_in: s.replan_in.sub(dt), ..s };
        lemma_replanned_and_steered_is_gated(
            waiting,
            shared,
            sensed,
            threats,
            nearby,
            goal,
            dt,
        );
    }
}

proof fn lemma_no_speed_no_distance(config: NavConfig, dt: Real)
    requires
        modest(config.speed),
        config.speed.value() <= 0,
        modest(dt),
        !dt.le(Real::of(ZERO)),
    ensures
        spec_walking_distance(config, dt).magnitude() == 0,
{
    let zero: Real = Real::of(ZERO);
    let step: Real = spec_walking_distance(config, dt);
    assert(zero.magnitude() == 0);
    lemma_size_of_zero(zero);
    lemma_value_order(dt, zero);
    lemma_distance_is_speed_by_time(config, dt);
    lemma_value_order(step, zero);
    lemma_value_order(zero, step);
}

/// An agent whose speed is not positive does not change its place, whatever it plans
/// and whatever it would flee from.
#[verifier::rlimit(30)]
pub proof fn lemma_agent_without_speed_stays(
    s: NavState,
    shared: &NavShared,
    sensed: &WalkView,
    threats: Seq<Threat>,
    dt: Real,
)
    requires
        modest(shared.config.speed),
        shared.config.speed.value() <= 0,
        modest(dt),
        s.position.x.finite(),
        s.position.z.finite(),
        ordinary_push(
            nearby_of(threats, threats.len() as int, shared.config, s.position),
            s.position,
        ),
    ensures
        same_place(ticked(s, shared, sensed, threats, dt).position, s.position),
{
    lemma_tick_stays_or_drives(s, shared, sensed, threats, dt);
    let nearby: Seq<Threat> = nearby_of(
        threats,
        threats.len() as int,
        shared.config,
        s.position,
    );
    if dt.is_finite() && !dt.le(Real::of(ZERO)) && s.goal is Some {
        lemma_no_speed_no_distance(shared.config, dt);
        lemma_driving_without_speed_stays(
            s,
            shared,
            sensed,
            threats,
            nearby,
            s.goal.unwrap(),
            dt,
        );
    }
}

/// Whether no point of a straight stride lies in a blocked cell, but for a sliver
/// at the cell's edges and for a blocked cell that the stride starts in. What lies
/// outside the grid counts as blocked.
pub open spec fn runs_free(sensed: &WalkView, from: Point, to: Point) -> bool {
    let a: Point = sensed.spec_in_cells(from);
    let b: Point = sensed.spec_in_cells(to);
    is_number(a) && is_number(b) ==> forall|part: int, whole: int, cell: (int, int)|
        0 <= part <= whole && whole > 0 && sensed.blocked_at(cell.0, cell.1) && (escaping(
            sensed,
            from,
        ) ==> cell != start_cell(sensed, from)) ==> !#[trigger] lies_well_inside(
            a,
            b,
            part,
            whole,
            cell,
            sliver(side(sensed)),
        )
}

proof fn lemma_clear_stride_runs_free(sensed: &WalkView, from: Point, to: Point)
    requires
        sensed.clear_between(from, to, escaping(sensed, from)),
    ensures
        runs_free(sensed, from, to),
{
    let a: Point = sensed.spec_in_cells(from);
    let b: Point = sensed.spec_in_cells(to);
    if is_number(a) && is_number(b) {
        assert forall|part: int, whole: int, cell: (int, int)|
            0 <= part <= whole && whole > 0 && sensed.blocked_at(cell.0, cell.1) && (escaping(
                sensed,
                from,
            ) ==> cell != start_cell(sensed, from)) implies !#[trigger] lies_well_inside(
            a,
            b,
            part,
            whole,
            cell,
            sliver(side(sensed)),
        ) by {
            lemma_clear_segment_touches_no_blocked_cell(
                sensed,
                from,
                to,
                escaping(sensed, from),
                part,
                whole,
                cell,
            );
        }
    }
}

/// Every stride of a walk that the guard admits is clear, keeps at every point out
/// of the threat discs but those that hold its start, and runs straight through no
/// blocked cell but
/// one that it starts in, nor out of the grid. Unless it starts in a blocked
/// cell, it also starts and ends in open ones that a trail of open cells joins.
pub proof fn lemma_gated_walk_is_safe(
    sensed: &WalkView,
    config: NavConfig,
    guarded: Seq<Threat>,
    walk: Seq<Point>,
    pace: Seq<Real>,
    i: int,
)
    requires
        gated_walk(sensed, config, guarded, walk, pace),
        0 <= i < walk.len() - 1,
    ensures
        sensed.clear_between(walk[i], walk[i + 1], escaping(sensed, walk[i])),
        runs_free(sensed, walk[i], walk[i + 1]),
        forall|k: int|
            0 <= k < guarded.len() ==> gate_holds(#[trigger] guarded[k], config, walk[i])
                || (!gate_touched(guarded[k], config, walk[i], walk[i + 1]) && keeps_out(
                guarded[k],
                config,
                walk[i],
                walk[i + 1],
            )),
        !escaping(sensed, walk[i]) ==> ({
            let a: Point = sensed.spec_in_cells(walk[i]);
            let b: Point = sensed.spec_in_cells(walk[i + 1]);
            let first: (int, int) = (a.x.floor_int() as int, a.z.floor_int() as int);
            let last: (int, int) = (b.x.floor_int() as int, b.z.floor_int() as int);
            &&& !sensed.blocked_at(first.0, first.1)
            &&& !sensed.blocked_at(last.0, last.1)
            &&& exists|trail: Seq<(int, int)>| #[trigger] is_trail(sensed, trail, first, last)
        }),
{
    assert(may_move(sensed, config, guarded, walk[i], walk[i + 1]));
    lemma_clear_stride_runs_free(sensed, walk[i], walk[i + 1]);
    assert forall|k: int| 0 <= k < guarded.len() implies gate_holds(
        #[trigger] guarded[k],
        config,
        walk[i],
    ) || (!gate_touched(guarded[k], config, walk[i], walk[i + 1]) && keeps_out(
        guarded[k],
        config,
        walk[i],
        walk[i + 1],
    )) by {
        lemma_move_enters_no_disc(sensed, config, guarded, walk[i], walk[i + 1], k);
        if !gate_holds(guarded[k], config, walk[i]) {
            lemma_untouched_is_kept_out(guarded[k], config, walk[i], walk[i + 1]);
        }
    }
    if !escaping(sensed, walk[i]) {
        lemma_clear_segment_is_a_walk(sensed, walk[i], walk[i + 1]);
    }
}

/// A simulation step never crosses a blocked cell: the agent goes from where it
/// stood to where it then stands over straight strides, and no point of any of
/// them lies in a blocked cell but one that the stride starts in, but for a
/// sliver.
pub proof fn lemma_tick_crosses_no_blocked_cell(
    s: NavState,
    shared: &NavShared,
    sensed: &WalkView,
    threats: Seq<Threat>,
    dt: Real,
) -> (walk: Seq<Point>)
    ensures
        walk.len() > 0,
        walk[0] == s.position,
        walk.last() == ticked(s, shared, sensed, threats, dt).position,
        forall|i: int|
            0 <= i < walk.len() - 1 ==> runs_free(sensed, #[trigger] walk[i], walk[i + 1]),
{
    lemma_tick_is_gated(s, shared, sensed, threats, dt);
    let guarded: Seq<Threat> = widened_of(threats, shared.config);
    let to: Point = ticked(s, shared, sensed, threats, dt).position;
    let budget: Real = spec_walking_distance(shared.config, dt);
    let (walk, pace): (Seq<Point>, Seq<Real>) = choose|walk: Seq<Point>, pace: Seq<Real>|
        {
            &&& #[trigger] gated_walk(sensed, shared.config, guarded, walk, pace)
            &&& walk[0] == s.position
            &&& walk.last() == to
            &&& budget.finite() && budget.rank() >= 0 ==> within_budget(pace, budget)
        };
    assert forall|i: int| 0 <= i < walk.len() - 1 implies runs_free(
        sensed,
        #[trigger] walk[i],
        walk[i + 1],
    ) by {
        lemma_gated_walk_is_safe(sensed, shared.config, guarded, walk, pace, i);
    }
    walk
}

/// A walk over a view with clearance keeps the clearance: every point of a stride
/// from an open cell lies, but for a sliver, in a cell that comes no closer than
/// the radius to any cell that was blocked before.
pub proof fn lemma_gated_walk_keeps_clearance(
    base: &WalkView,
    radius: Real,
    sensed: &WalkView,
    config: NavConfig,
    guarded: Seq<Threat>,
    walk: Seq<Point>,
    pace: Seq<Real>,
    i: int,
    part: int,
    whole: int,
) -> (cell: (int, int))
    requires
        gated_walk(sensed, config, guarded, walk, pace),
        0 <= i < walk.len() - 1,
        !escaping(sensed, walk[i]),
        base.wf(),
        sensed.same_geometry(base),
        forall|col: int, row: int|
            sensed.within(col, row) ==> #[trigger] sensed.blocked_at(col, row) == base.dilated_at(
                radius,
                col,
                row,
            ),
        base.cell_size.finite(),
        base.cell_size.rank() > 0,
        !radius.nan(),
        radius.rank() > 0,
        side(sensed) <= 0x4000_0000,
        is_number(sensed.spec_in_cells(walk[i])),
        is_number(sensed.spec_in_cells(walk[i + 1])),
        0 <= part <= whole,
        whole > 0,
    ensures
        point_near(
            sensed.spec_in_cells(walk[i]),
            sensed.spec_in_cells(walk[i + 1]),
            part,
            whole,
            cell,
            sliver(side(sensed)),
        ),
        sensed.within(cell.0, cell.1),
        forall|c: int, r: int|
            base.within(c, r) && #[trigger] base.blocked_at(c, r) ==> !gap(
                (cell.0 - c) as isize,
                base.cell_size,
            ).hypot(gap((cell.1 - r) as isize, base.cell_size)).lt(radius),
{
    assert(may_move(sensed, config, guarded, walk[i], walk[i + 1]));
    lemma_clear_segment_keeps_clearance(base, radius, sensed, walk[i], walk[i + 1], part, whole)
}

/// The cell that a point lies in, whether the grid has it or not.
pub open spec fn cell_under(sensed: &WalkView, point: Point) -> (int, int) {
    let place: Point = sensed.spec_in_cells(point);
    (place.x.floor_int() as int, place.z.floor_int() as int)
}

proof fn lemma_walk_stays_out(
    sensed: &WalkView,
    config: NavConfig,
    guarded: Seq<Threat>,
    walk: Seq<Point>,
    pace: Seq<Real>,
    n: int,
)
    requires
        gated_walk(sensed, config, guarded, walk, pace),
        0 <= n < walk.len(),
    ensures
        forall|k: int|
            0 <= k < guarded.len() && !gate_holds(#[trigger] guarded[k], config, walk[0])
                ==> !gate_holds(guarded[k], config, walk[n]),
        cell_under(sensed, walk[n]) == cell_under(sensed, walk[0]) || !sensed.blocked_at(
            cell_under(sensed, walk[n]).0,
            cell_under(sensed, walk[n]).1,
        ),
    decreases n,
{
    if n > 0 {
        let from: Point = walk[n - 1];
        lemma_walk_stays_out(sensed, config, guarded, walk, pace, n - 1);
        assert(may_move(sensed, config, guarded, walk[n - 1], walk[n - 1 + 1]));
        lemma_clear_segment_ends_in_the_open(sensed, from, walk[n], escaping(sensed, from));
        assert forall|k: int|
            0 <= k < guarded.len() && !gate_holds(
                #[trigger] guarded[k],
                config,
                walk[0],
            ) implies !gate_holds(guarded[k], config, walk[n]) by {
            lemma_move_enters_no_disc(sensed, config, guarded, from, walk[n], k);
        }
    }
}

/// A threat disc that does not hold the agent before a simulation step does not
/// hold it afterwards, whatever the goal, the other discs and the plan.
pub proof fn lemma_tick_enters_no_disc(
    s: NavState,
    shared: &NavShared,
    sensed: &WalkView,
    threats: Seq<Threat>,
    dt: Real,
    k: int,
)
    requires
        0 <= k < threats.len(),
        !gate_holds(widened_of(threats, shared.config)[k], shared.config, s.position),
    ensures
        !gate_holds(
            widened_of(threats, shared.config)[k],
            shared.config,
            ticked(s, shared, sensed, threats, dt).position,
        ),
{
    lemma_tick_stays_out(s, shared, sensed, threats, dt);
}

/// After a simulation step the agent stands in an open cell or still in the cell
/// it stood in before.
pub proof fn lemma_tick_ends_in_the_open(
    s: NavState,
    shared: &NavShared,
    sensed: &WalkView,
    threats: Seq<Threat>,
    dt: Real,
)
    ensures
        ({
            let cell: (int, int) = cell_under(
                sensed,
                ticked(s, shared, sensed, threats, dt).position,
            );
            cell == cell_under(sensed, s.position) || !sensed.blocked_at(cell.0, cell.1)
        }),
{
    lemma_tick_stays_out(s, shared, sensed, threats, dt);
}

proof fn lemma_tick_stays_out(
    s: NavState,
    shared: &NavShared,
    sensed: &WalkView,
    threats: Seq<Threat>,
    dt: Real,
)
    ensures
        ({
            let guarded: Seq<Threat> = widened_of(threats, shared.config);
            let after: Point = ticked(s, shared, sensed, threats, dt).position;
            let cell: (int, int) = cell_under(sensed, after);
            &&& forall|k: int|
                0 <= k < guarded.len() && !gate_holds(
                    #[trigger] guarded[k],
                    shared.config,
                    s.position,
                ) ==> !gate_holds(guarded[k], shared.config, after)
            &&& cell == cell_under(sensed, s.position) || !sensed.blocked_at(cell.0, cell.1)
        }),
{
    let guarded: Seq<Threat> = widened_of(threats, shared.config);
    let after: Point = ticked(s, shared, sensed, threats, dt).position;
    let budget: Real = spec_walking_distance(shared.config, dt);
    lemma_tick_is_gated(s, shared, sensed, threats, dt);
    let (walk, pace): (Seq<Point>, Seq<Real>) = choose|walk: Seq<Point>, pace: Seq<Real>|
        {
            &&& #[trigger] gated_walk(sensed, shared.config, guarded, walk, pace)
            &&& walk[0] == s.position
            &&& walk.last() == after
            &&& budget.finite() && budget.rank() >= 0 ==> within_budget(pace, budget)
        };
    lemma_walk_stays_out(sensed, shared.config, guarded, walk, pace, walk.len() - 1);
}

/// A time that is not positive and finite changes nothing, and neither does any
/// time while the agent is idle or has arrived.
pub proof fn lemma_tick_changes_nothing(
    s: NavState,
    shared: &NavShared,
    sensed: &WalkView,
    threats: Seq<Threat>,
    dt: Real,
)
    requires
        !dt.is_finite() || dt.le(Real::of(ZERO)) || s.status == NavStatus::Idle || s.status
            == NavStatus::Arrived,
    ensures
        ticked(s, shared, sensed, threats, dt) == s,
{
}

/// An agent reports that it has arrived exactly where it stands at its stop.
pub proof fn lemma_arrival(
    s: NavState,
    shared: &NavShared,
    sensed: &WalkView,
    threats: Seq<Threat>,
    dt: Real,
)
    requires
        dt.is_finite(),
        !dt.le(Real::of(ZERO)),
        s.status == NavStatus::Moving,
        s.goal is Some,
    ensures
        ticked(s, shared, sensed, threats, dt).status == NavStatus::Arrived ==> has_arrived(
            ticked(s, shared, sensed, threats, dt),
            shared,
        ),
        has_arrived(s, shared) ==> ticked(s, shared, sensed, threats, dt) == (NavState {
            status: NavStatus::Arrived,
            ..s
        }),
        ticked(s, shared, sensed, threats, dt).status != NavStatus::Idle,
{
    let nearby: Seq<Threat> = nearby_of(
        threats,
        threats.len() as int,
        shared.config,
        s.position,
    );
    let goal: Point = s.goal.unwrap();
    let (walked, moved): (NavState, Option<Real>) = driven(
        s,
        shared,
        sensed,
        threats,
        nearby,
        goal,
        dt,
    );
    assert(walked.status != NavStatus::Arrived && walked.status != NavStatus::Idle);
}

/// `Blocked` is a report, not an end: while its goal stands, the agent stays
/// where it is until the cooldown is over and then plans afresh.
pub proof fn lemma_blocked_probes_again(
    s: NavState,
    shared: &NavShared,
    sensed: &WalkView,
    threats: Seq<Threat>,
    dt: Real,
)
    requires
        dt.is_finite(),
        !dt.le(Real::of(ZERO)),
        s.status == NavStatus::Blocked,
        s.goal is Some,
    ensures
        ({
            let left: NavState = NavState { retry_in: s.retry_in.sub(dt), ..s };
            ticked(s, shared, sensed, threats, dt) == if left.retry_in.le(Real::of(ZERO)) {
                NavState { status: NavStatus::Moving, ..cleared(left) }
            } else {
                left
            }
        }),
{
}

} // verus!
