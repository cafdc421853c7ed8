//! How long a navigator waits: before it reports that it is blocked, before it probes
//! again, and after a plan has failed; and which cells a failed plan is charged to.
use vstd::arithmetic::power2::*;
use vstd::prelude::*;

use crate::config::{NavConfig, NavShared, Threat};
use crate::corridor::entry;
use crate::crossing::{cell_unit, lemma_large_unit};
use crate::gate::{held_by_any, SLIVER};
use crate::geometry::{Point, ZERO};
use crate::nearness::{
    bounding, lemma_close_difference, lemma_close_product, lemma_close_sum, lemma_modest,
    lemma_size_scales, lemma_unit_is_nothing, modest, reaches, size_of,
};
use crate::navigator::{
    accounted, charged, coarse_number, driven, has_arrived, refinement_failed, spec_patience, waited,
    NavState, NavStatus, FAILED_SHARE, LEAST_REPLAN_SECONDS, RETRY_INTERVALS, STALL_INTERVALS,
};
use crate::number::Real;
use crate::ordering::lemma_value_order;
use crate::unit::lemma_size_of_zero;
use crate::walk::WalkView;

verus! {

/// Twenty replan intervals, of a twentieth of a second each or more.
pub open spec fn twenty_intervals(config: NavConfig) -> int {
    if 20 * config.replan_seconds.value() < cell_unit() {
        cell_unit()
    } else {
        20 * config.replan_seconds.value()
    }
}

proof fn lemma_intervals()
    ensures
        modest(Real::of(RETRY_INTERVALS)),
        modest(Real::of(STALL_INTERVALS)),
        modest(Real::of(FAILED_SHARE)),
        modest(Real::of(LEAST_REPLAN_SECONDS)),
        Real::of(RETRY_INTERVALS).value() == 10 * cell_unit(),
        Real::of(STALL_INTERVALS).value() == 20 * cell_unit(),
        4 * Real::of(FAILED_SHARE).value() == cell_unit(),
        cell_unit() <= 20 * Real::of(LEAST_REPLAN_SECONDS).value(),
        0x20_0000_0000_0000 * (20 * Real::of(LEAST_REPLAN_SECONDS).value() - cell_unit())
            <= cell_unit(),
{
    let ten: Real = Real::of(RETRY_INTERVALS);
    let twenty: Real = Real::of(STALL_INTERVALS);
    let quarter: Real = Real::of(FAILED_SHARE);
    let least: Real = Real::of(LEAST_REPLAN_SECONDS);
    let u: int = cell_unit();
    lemma2_to64();
    lemma2_to64_rest();
    assert(ten.significand() == 0x14_0000_0000_0000 && ten.exponent() == -49);
    assert(twenty.significand() == 0x14_0000_0000_0000 && twenty.exponent() == -48);
    assert(quarter.significand() == 0x10_0000_0000_0000 && quarter.exponent() == -54);
    assert(least.significand() == 0x19_9999_9999_999a && least.exponent() == -57);
    lemma_pow2_adds(49, 1025);
    lemma_pow2_adds(48, 1026);
    lemma_pow2_adds(54, 1020);
    lemma_pow2_adds(57, 1017);
    lemma_pow2_pos(1017);
    let a: int = pow2(1025) as int;
    let b: int = pow2(1026) as int;
    let c: int = pow2(1020) as int;
    let d: int = pow2(1017) as int;
    assert(u == 0x2_0000_0000_0000 * a);
    assert(u == 0x1_0000_0000_0000 * b);
    assert(u == 0x40_0000_0000_0000 * c);
    assert(u == 0x200_0000_0000_0000 * d);
    assert(ten.value() == 0x14_0000_0000_0000 * a);
    assert(twenty.value() == 0x14_0000_0000_0000 * b);
    assert(quarter.value() == 0x10_0000_0000_0000 * c);
    assert(least.value() == 0x19_9999_9999_999a * d);
}

/// The product of a time and a number of intervals.
proof fn lemma_times(u: int, w: int, k: int, h: int, m: int)
    requires
        u > 0,
        h == k * u,
        0x20_0000_0000_0000 * size_of(m * u - w * h) <= size_of(m) * u + 0x20_0000_0000_0000 * u,
    ensures
        0x20_0000_0000_0000 * size_of(m - k * w) <= size_of(m) + 0x20_0000_0000_0000,
{
    let p: int = 0x20_0000_0000_0000;
    let e: int = m - k * w;
    assert(w * h == (k * w) * u) by (nonlinear_arith)
        requires
            h == k * u,
    ;
    assert(e * u == m * u - (k * w) * u) by (nonlinear_arith)
        requires
            e == m - k * w,
    ;
    lemma_size_scales(e, u);
    let x: int = size_of(e);
    let n: int = size_of(m);
    assert(p * x <= n + p) by (nonlinear_arith)
        requires
            p * (x * u) <= n * u + p * u,
            u > 0,
    ;
}

proof fn lemma_patience(config: NavConfig, most: int)
    requires
        bounding(most),
        reaches(config.replan_seconds, most),
    ensures
        ({
            let short: Real = spec_patience(config, Real::of(RETRY_INTERVALS));
            let long: Real = spec_patience(config, Real::of(STALL_INTERVALS));
            let whole: int = twenty_intervals(config);
            &&& short.finite()
            &&& long.finite()
            &&& 0x20_0000_0000_0000 * size_of(2 * short.value() - whole) <= 64 * most
            &&& 0x20_0000_0000_0000 * size_of(long.value() - whole) <= 64 * most
        }),
{
    let u: int = cell_unit();
    let r: Real = config.replan_seconds;
    let least: Real = Real::of(LEAST_REPLAN_SECONDS);
    let ten: Real = Real::of(RETRY_INTERVALS);
    let twenty: Real = Real::of(STALL_INTERVALS);
    lemma_large_unit();
    lemma_unit_is_nothing(most);
    lemma_intervals();
    lemma_value_order(least, r);
    let w: Real = r.max(least);
    lemma_modest(w, most);
    lemma_close_product(w, ten);
    lemma_close_product(w, twenty);
    lemma_times(u, w.value(), 10, ten.value(), w.mul(ten).value());
    lemma_times(u, w.value(), 20, twenty.value(), w.mul(twenty).value());
}

/// A navigator that stands still for longer than twenty replan intervals reports that it
/// is blocked, and then waits for ten more; until then it goes on. One that moves has
/// stood still for no time. Times are told apart up to a sliver.
pub proof fn lemma_agent_gives_up_in_time(
    s: NavState,
    shared: &NavShared,
    moved: Real,
    dt: Real,
    most: int,
)
    requires
        bounding(most),
        reaches(shared.config.replan_seconds, most),
        reaches(s.stall_time, most),
        reaches(dt, most),
        s.status == NavStatus::Moving,
        !has_arrived(s, shared),
    ensures
        ({
            let after: NavState = accounted(s, shared, moved, dt);
            let stood: int = s.stall_time.value() + dt.value();
            let whole: int = twenty_intervals(shared.config);
            let p: int = 0x20_0000_0000_0000;
            if moved.le(Real::of(SLIVER)) {
                &&& after.stall_time.finite()
                &&& p * size_of(after.stall_time.value() - stood) <= 2 * most
                &&& p * (stood - whole) > 80 * most ==> {
                    &&& after.status == NavStatus::Blocked
                    &&& after.retry_in.finite()
                    &&& p * size_of(2 * after.retry_in.value() - whole) <= 64 * most
                }
                &&& p * (stood - whole) < -(80 * most) ==> after.status == NavStatus::Moving
            } else {
                &&& after.stall_time == Real::of(ZERO)
                &&& after.status == NavStatus::Moving
            }
        }),
{
    let long: Real = spec_patience(shared.config, Real::of(STALL_INTERVALS));
    let stood: Real = s.stall_time.add(dt);
    lemma_large_unit();
    lemma_modest(s.stall_time, most);
    lemma_modest(dt, most);
    lemma_close_sum(s.stall_time, dt);
    lemma_patience(shared.config, most);
    lemma_value_order(long, stood);
    lemma_value_order(stood, long);
}

/// A blocked navigator with a goal moves again, with every plan and charge forgotten, as
/// soon as the time that it has to wait is over, and not before.
pub proof fn lemma_blocked_agent_probes_again(s: NavState, dt: Real)
    requires
        modest(s.retry_in),
        modest(dt),
        s.status == NavStatus::Blocked,
        s.goal is Some,
    ensures
        ({
            let after: NavState = waited(s, dt);
            &&& after.goal == s.goal
            &&& after.position == s.position
            &&& s.retry_in.value() <= dt.value() ==> {
                &&& after.status == NavStatus::Moving
                &&& after.corridor.len() == 0
                &&& after.local.len() == 0
                &&& after.penalties.dom().is_empty()
            }
            &&& s.retry_in.value() > dt.value() ==> {
                &&& after.status == NavStatus::Blocked
                &&& after.corridor == s.corridor
                &&& after.penalties == s.penalties
                &&& 0 < after.retry_in.value()
            }
        }),
{
    let left: Real = s.retry_in.sub(dt);
    let zero: Real = Real::of(ZERO);
    assert(zero.magnitude() == 0);
    lemma_size_of_zero(zero);
    lemma_close_difference(s.retry_in, dt);
    lemma_value_order(left, zero);
}

/// A navigator whose plan has failed plans anew after a quarter of the replan interval.
/// It gives up after as many failures in a row as it may have, and no sooner.
pub proof fn lemma_failure_is_counted(s: NavState, shared: &NavShared, span_end: int, most: int)
    requires
        bounding(most),
        reaches(shared.config.replan_seconds, most),
        s.status == NavStatus::Moving,
        s.fail_streak < u32::MAX,
    ensures
        ({
            let after: NavState = refinement_failed(s, shared, span_end);
            &&& after.fail_streak == s.fail_streak + 1
            &&& after.corridor.len() == 0
            &&& after.local.len() == 0
            &&& after.replan_in.finite()
            &&& 0x20_0000_0000_0000 * size_of(
                4 * after.replan_in.value() - shared.config.replan_seconds.value(),
            ) <= 16 * most
            &&& after.status == NavStatus::Blocked <==> s.fail_streak + 1
                >= shared.config.max_fail_streak
        }),
{
    let u: int = cell_unit();
    let r: Real = shared.config.replan_seconds;
    let quarter: Real = Real::of(FAILED_SHARE);
    lemma_large_unit();
    lemma_unit_is_nothing(most);
    lemma_intervals();
    lemma_modest(r, most);
    lemma_close_product(r, quarter);
    let m: int = r.mul(quarter).value();
    let h: int = quarter.value();
    let w: int = r.value();
    assert(w * u == 4 * (w * h)) by (nonlinear_arith)
        requires
            u == 4 * h,
    ;
    let e: int = 4 * m - w;
    assert(e * u == 4 * (m * u) - w * u) by (nonlinear_arith)
        requires
            e == 4 * m - w,
    ;
    lemma_size_scales(e, u);
    let p: int = 0x20_0000_0000_0000;
    let x: int = size_of(e);
    let n: int = size_of(m);
    assert(p * x <= 4 * n + 4 * p) by (nonlinear_arith)
        requires
            p * (x * u) <= 4 * (n * u) + 4 * p * u,
            u > 0,
    ;
}

/// An agent that no disc holds keeps its plan for as long as it lasts: while the path is not
/// used up and the replan interval is not over, it neither plans nor gives up.
pub proof fn lemma_plan_is_kept(
    s: NavState,
    shared: &NavShared,
    sensed: &WalkView,
    threats: Seq<Threat>,
    nearby: Seq<Threat>,
    goal: Point,
    dt: Real,
)
    requires
        !held_by_any(nearby, s.position),
        s.local_next < s.local.len(),
        modest(s.replan_in),
        modest(dt),
        s.replan_in.value() > dt.value(),
    ensures
        ({
            let (after, moved): (NavState, Option<Real>) = driven(
                s,
                shared,
                sensed,
                threats,
                nearby,
                goal,
                dt,
            );
            &&& moved is Some
            &&& after.status == s.status
            &&& after.goal == s.goal
            &&& after.snapped == s.snapped
            &&& after.corridor == s.corridor
            &&& after.corridor_next == s.corridor_next
            &&& after.penalties == s.penalties
            &&& after.fail_streak == s.fail_streak
            &&& after.local == s.local || after.local.len() == 0
        }),
{
    let left: Real = s.replan_in.sub(dt);
    let zero: Real = Real::of(ZERO);
    assert(zero.magnitude() == 0);
    lemma_size_of_zero(zero);
    lemma_close_difference(s.replan_in, dt);
    lemma_value_order(left, zero);
}

/// Whether a span of a corridor comes through a coarse cell.
pub open spec fn comes_through(
    shared: &NavShared,
    corridor: Seq<Point>,
    from: int,
    to: int,
    cell: int,
) -> bool {
    exists|k: int|
        from <= k < to && #[trigger] coarse_number(&shared.coarse, corridor[k]) == Some(cell)
}

/// What a cell is charged after one more failure.
pub open spec fn raised(shared: &NavShared, charge: Option<Real>) -> Option<Real> {
    Some(charge.unwrap_or(Real::of(ZERO)).single_sum(shared.config.fail_penalty.to_single()))
}

/// A failed plan is charged to the cells that its span comes through and to no others. A
/// cell that the span comes through at one point is charged once.
pub proof fn lemma_failure_is_charged_to_the_span(
    shared: &NavShared,
    penalties: Map<int, Real>,
    corridor: Seq<Point>,
    from: int,
    to: int,
    cell: int,
)
    ensures
        ({
            let after: Map<int, Real> = charged(shared, penalties, corridor, from, to);
            &&& !comes_through(shared, corridor, from, to, cell) ==> entry(after, cell) == entry(
                penalties,
                cell,
            )
            &&& comes_through(shared, corridor, from, to, cell) ==> after.dom().contains(cell)
            &&& forall|k: int|
                from <= k < to && !comes_through(shared, corridor, from, k, cell)
                    && !comes_through(shared, corridor, k + 1, to, cell) && #[trigger] coarse_number(
                    &shared.coarse,
                    corridor[k],
                ) == Some(cell) ==> entry(after, cell) == raised(shared, entry(penalties, cell))
        }),
    decreases to - from,
{
    if from < to {
        lemma_failure_is_charged_to_the_span(shared, penalties, corridor, from, to - 1, cell);
        let last: Option<int> = coarse_number(&shared.coarse, corridor[to - 1]);
        let before: Map<int, Real> = charged(shared, penalties, corridor, from, to - 1);
        let after: Map<int, Real> = charged(shared, penalties, corridor, from, to);
        if last == Some(cell) {
            assert(comes_through(shared, corridor, from, to, cell));
        } else {
            assert(entry(after, cell) == entry(before, cell));
            assert(comes_through(shared, corridor, from, to, cell) ==> comes_through(
                shared,
                corridor,
                from,
                to - 1,
                cell,
            ));
        }
        assert forall|k: int|
            from <= k < to && !comes_through(shared, corridor, from, k, cell) && !comes_through(
                shared,
                corridor,
                k + 1,
                to,
                cell,
            ) && #[trigger] coarse_number(&shared.coarse, corridor[k]) == Some(
                cell,
            ) implies entry(after, cell) == raised(shared, entry(penalties, cell)) by {
            if k < to - 1 {
                if comes_through(shared, corridor, k + 1, to - 1, cell) {
                    let j: int = choose|j: int|
                        k + 1 <= j < to - 1 && #[trigger] coarse_number(
                            &shared.coarse,
                            corridor[j],
                        ) == Some(cell);
                    assert(comes_through(shared, corridor, k + 1, to, cell));
                }
                if last == Some(cell) {
                    assert(comes_through(shared, corridor, k + 1, to, cell));
                }
            }
        }
    }
}

} // verus!
