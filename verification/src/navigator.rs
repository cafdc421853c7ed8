//! Hierarchical navigation of one agent.
//!
//! A [`Navigator`] plans a global corridor on the coarse view, refines it with
//! a windowed fine search around the agent (the sensed neighbourhood),
//! string-pulls the window path, and steers along it. Every movement step has
//! to pass the movement guard, and threat discs are hard obstacles for both the
//! refinement and the guard. When the optimistic coarse view promised a passage
//! the fine grid does not deliver, the failed corridor cells are penalized and
//! the global route is rebuilt around them.
use vstd::prelude::*;
use vstd::slice::*;

use crate::coarse::CoarseView;
use crate::config::{NavConfig, NavShared, Threat};
use crate::corridor::{corridor_between, entry, plan_global};
use crate::gate::{held_by_any, is_held, nearby_of, notice, widen, widened_of, SLIVER};
use crate::geometry::{distance, Point, ZERO};
use crate::number::Real;
use crate::refine::{fine_path, heading_for, plan_local, progress_along, Refinement};
use crate::scratch::Scratch;
use crate::search::lemma_number;
use crate::snap::{snap_goal, snapped_goal};
use crate::stamped::StampedMap;
use crate::steering::{fled_from, flee_from, steer_along, steered, Stride};
use crate::walk::WalkView;

verus! {

/// Shortest time between replans that waiting times are counted in: `0.05`.
pub const LEAST_REPLAN_SECONDS: u64 = 0x3fa9_9999_9999_999a;

/// Replan intervals until a blocked navigator probes again: `10`.
pub const RETRY_INTERVALS: u64 = 0x4024_0000_0000_0000;

/// Replan intervals without movement until a navigator reports `Blocked`: `20`.
pub const STALL_INTERVALS: u64 = 0x4034_0000_0000_0000;

/// Share of a cell within which a goal counts as reached: `0.05`.
pub const ARRIVAL_SHARE: u64 = 0x3fa9_9999_9999_999a;

/// Least distance within which a goal counts as reached: `0.001`.
pub const ARRIVAL_LEAST: u64 = 0x3f50_624d_d2f1_a9fc;

/// Share of the replan interval to wait after a failed refinement: `0.25`.
pub const FAILED_SHARE: u64 = 0x3fd0_0000_0000_0000;

/// What a navigator reports after a step.
#[derive(Clone, Copy, PartialEq, Eq, Structural, Debug)]
pub enum NavStatus {
    Idle,
    Moving,
    Arrived,
    Blocked,
}

/// Everything that a navigator goes by.
pub struct NavState {
    pub position: Point,
    pub goal: Option<Point>,
    /// The ordered goal resolved to the nearest legal stopping point.
    pub snapped: Point,
    pub status: NavStatus,
    pub corridor: Seq<Point>,
    pub corridor_next: int,
    pub local: Seq<Point>,
    pub local_next: int,
    pub replan_in: Real,
    pub fail_streak: u32,
    pub stall_time: Real,
    pub retry_in: Real,
    /// What failed refinements have charged for coarse cells.
    pub penalties: Map<int, Real>,
}

/// An agent without orders.
pub open spec fn at_rest(position: Point) -> NavState {
    NavState {
        position,
        goal: None,
        snapped: position,
        status: NavStatus::Idle,
        corridor: Seq::empty(),
        corridor_next: 0,
        local: Seq::empty(),
        local_next: 0,
        replan_in: Real::of(ZERO),
        fail_streak: 0,
        stall_time: Real::of(ZERO),
        retry_in: Real::of(ZERO),
        penalties: Map::empty(),
    }
}

/// The state with every plan dropped.
pub open spec fn unplanned(s: NavState) -> NavState {
    NavState {
        corridor: Seq::empty(),
        corridor_next: 0,
        local: Seq::empty(),
        local_next: 0,
        replan_in: Real::of(ZERO),
        fail_streak: 0,
        stall_time: Real::of(ZERO),
        ..s
    }
}

/// The state with every plan dropped and every charge forgotten.
pub open spec fn cleared(s: NavState) -> NavState {
    NavState { penalties: Map::empty(), ..unplanned(s) }
}

pub open spec fn spec_patience(config: NavConfig, intervals: Real) -> Real {
    config.replan_seconds.max(Real::of(LEAST_REPLAN_SECONDS)).mul(intervals)
}

/// A waiting time, counted in replan intervals.
#[verifier::when_used_as_spec(spec_patience)]
fn patience(config: NavConfig, intervals: Real) -> (r: Real)
    ensures
        r == spec_patience(config, intervals),
{
    config.replan_seconds.max(Real::of(LEAST_REPLAN_SECONDS)).mul(intervals)
}

/// The state that reports `Blocked` and waits before it probes again.
pub open spec fn given_up(s: NavState, config: NavConfig) -> NavState {
    NavState {
        status: NavStatus::Blocked,
        retry_in: spec_patience(config, Real::of(RETRY_INTERVALS)),
        ..s
    }
}

/// The state of an agent that is not moving, after some time. `Blocked` is a
/// report, not an end: with a standing goal the agent probes again when the
/// cooldown is over.
pub open spec fn waited(s: NavState, dt: Real) -> NavState {
    if s.status == NavStatus::Blocked && s.goal is Some {
        let left: NavState = NavState { retry_in: s.retry_in.sub(dt), ..s };
        if left.retry_in.le(Real::of(ZERO)) {
            NavState { status: NavStatus::Moving, ..cleared(left) }
        } else {
            left
        }
    } else {
        s
    }
}

/// Number of the coarse cell that a point falls into.
pub open spec fn coarse_number(coarse: &CoarseView, point: Point) -> Option<int> {
    match coarse.cell_at(point) {
        Some((col, row)) => Some(row * coarse.width + col),
        None => None,
    }
}

/// The charges after the corridor points from `from` up to but without `to`
/// have each been charged a failure.
pub open spec fn charged(
    shared: &NavShared,
    penalties: Map<int, Real>,
    corridor: Seq<Point>,
    from: int,
    to: int,
) -> Map<int, Real>
    decreases to - from,
{
    if to <= from {
        penalties
    } else {
        let before: Map<int, Real> = charged(shared, penalties, corridor, from, to - 1);
        match coarse_number(&shared.coarse, corridor[to - 1]) {
            Some(cell) => before.insert(
                cell,
                entry(before, cell).unwrap_or(Real::of(ZERO)).single_sum(
                    shared.config.fail_penalty.to_single(),
                ),
            ),
            None => before,
        }
    }
}

/// The state after a failed refinement: the corridor span up to `span_end` is
/// charged, so the next global plan routes around it.
pub open spec fn refinement_failed(s: NavState, shared: &NavShared, span_end: int) -> NavState {
    let streak: u32 = if s.fail_streak < u32::MAX {
        (s.fail_streak + 1) as u32
    } else {
        s.fail_streak
    };
    let end: int = if span_end < s.corridor.len() - 1 {
        span_end
    } else {
        s.corridor.len() - 1
    };
    let dropped: NavState = NavState {
        fail_streak: streak,
        penalties: if s.corridor.len() == 0 {
            s.penalties
        } else {
            charged(shared, s.penalties, s.corridor, s.corridor_next, end + 1)
        },
        corridor: Seq::empty(),
        corridor_next: 0,
        local: Seq::empty(),
        local_next: 0,
        replan_in: shared.config.replan_seconds.mul(Real::of(FAILED_SHARE)),
        ..s
    };
    if streak >= shared.config.max_fail_streak {
        given_up(dropped, shared.config)
    } else {
        dropped
    }
}

/// The state after its corridor has been refined for the given stop.
pub open spec fn refined(
    s: NavState,
    shared: &NavShared,
    sensed: &WalkView,
    nearby: Seq<Threat>,
    stop: Point,
) -> NavState {
    if sensed.cell_at(s.position) is None {
        refinement_failed(s, shared, s.corridor_next)
    } else {
        let next: int = progress_along(s.corridor, s.corridor_next, s.position);
        let (target, span_end): (Point, int) = heading_for(
            s.corridor,
            next,
            shared.config,
            s.position,
            stop,
        );
        let advanced: NavState = NavState { corridor_next: next, ..s };
        match fine_path(sensed, shared.config, nearby, s.position, target) {
            Some(path) => NavState {
                local: path,
                local_next: 1,
                fail_streak: 0,
                replan_in: shared.config.replan_seconds,
                ..advanced
            },
            None => refinement_failed(advanced, shared, span_end),
        }
    }
}

/// The state after planning anew: the goal is resolved to a legal stop, a
/// corridor is planned where there is none, and the corridor is refined.
pub open spec fn replanned(
    s: NavState,
    shared: &NavShared,
    sensed: &WalkView,
    threats: Seq<Threat>,
    nearby: Seq<Threat>,
    goal: Point,
) -> NavState {
    match snapped_goal(sensed, shared.config, threats, goal) {
        None => given_up(s, shared.config),
        Some(stop) => {
            let aimed: NavState = NavState { snapped: stop, ..s };
            if aimed.corridor.len() > 0 {
                refined(aimed, shared, sensed, nearby, stop)
            } else {
                match corridor_between(shared, threats, aimed.penalties, aimed.position, stop) {
                    None => given_up(aimed, shared.config),
                    Some(corridor) => refined(
                        NavState { corridor, corridor_next: 0, ..aimed },
                        shared,
                        sensed,
                        nearby,
                        stop,
                    ),
                }
            }
        },
    }
}

/// Distance that the agent can walk in some time.
pub open spec fn spec_walking_distance(config: NavConfig, dt: Real) -> Real {
    config.speed.max(Real::of(ZERO)).mul(dt)
}

#[verifier::when_used_as_spec(spec_walking_distance)]
fn walking_distance(config: NavConfig, dt: Real) -> (r: Real)
    ensures
        r == spec_walking_distance(config, dt),
{
    config.speed.max(Real::of(ZERO)).mul(dt)
}

/// The state after steering along the local path, and the distance walked.
pub open spec fn steered_state(
    s: NavState,
    shared: &NavShared,
    sensed: &WalkView,
    threats: Seq<Threat>,
    dt: Real,
) -> (NavState, Real) {
    let stride: Stride = steered(
        sensed,
        shared.config,
        widened_of(threats, shared.config),
        s.local,
        s.position,
        s.local_next,
        spec_walking_distance(shared.config, dt),
        Real::of(ZERO),
    );
    if stride.kept {
        (
            NavState { position: stride.position, local_next: stride.next as int, ..s },
            stride.moved,
        )
    } else {
        (
            NavState {
                position: stride.position,
                local: Seq::empty(),
                local_next: 0,
                replan_in: Real::of(ZERO),
                ..s
            },
            stride.moved,
        )
    }
}

/// The state after planning anew and, unless that gave up, steering; and the
/// distance walked.
pub open spec fn replanned_and_steered(
    s: NavState,
    shared: &NavShared,
    sensed: &WalkView,
    threats: Seq<Threat>,
    nearby: Seq<Threat>,
    goal: Point,
    dt: Real,
) -> (NavState, Option<Real>) {
    let planned: NavState = replanned(s, shared, sensed, threats, nearby, goal);
    if planned.status != NavStatus::Moving {
        (planned, None)
    } else {
        let (walked, moved): (NavState, Real) = steered_state(planned, shared, sensed, threats, dt);
        (walked, Some(moved))
    }
}

/// The state after moving for some time, and the distance walked unless
/// planning gave up. Inside a threat disc the agent flees, and plans an escape
/// where the fan has no admissible step; else it follows its path and plans
/// anew when that is used up or the interval is over.
pub open spec fn driven(
    s: NavState,
    shared: &NavShared,
    sensed: &WalkView,
    threats: Seq<Threat>,
    nearby: Seq<Threat>,
    goal: Point,
    dt: Real,
) -> (NavState, Option<Real>) {
    if held_by_any(nearby, s.position) {
        let (position, fled): (Point, Real) = fled_from(
            sensed,
            shared.config,
            nearby,
            widened_of(threats, shared.config),
            s.position,
            spec_walking_distance(shared.config, dt),
            0,
        );
        let fleeing: NavState = NavState {
            position,
            local: Seq::empty(),
            local_next: 0,
            replan_in: Real::of(ZERO),
            ..s
        };
        if Real::of(SLIVER).lt(fled) {
            (fleeing, Some(fled))
        } else {
            replanned_and_steered(fleeing, shared, sensed, threats, nearby, goal, dt)
        }
    } else {
        let waiting: NavState = NavState { replan_in: s.replan_in.sub(dt), ..s };
        if waiting.local_next >= waiting.local.len() || waiting.replan_in.le(Real::of(ZERO)) {
            replanned_and_steered(waiting, shared, sensed, threats, nearby, goal, dt)
        } else {
            let (walked, moved): (NavState, Real) = steered_state(
                waiting,
                shared,
                sensed,
                threats,
                dt,
            );
            (walked, Some(moved))
        }
    }
}

pub open spec fn spec_arrival_distance(shared: &NavShared) -> Real {
    shared.fine.cell_size.mul(Real::of(ARRIVAL_SHARE)).max(Real::of(ARRIVAL_LEAST))
}

/// Distance within which a stop counts as reached. Snapped goals are exactly
/// reachable points, so it can be tight.
#[verifier::when_used_as_spec(spec_arrival_distance)]
fn arrival_distance(shared: &NavShared) -> (r: Real)
    ensures
        r == spec_arrival_distance(shared),
{
    shared.fine.cell_size.mul(Real::of(ARRIVAL_SHARE)).max(Real::of(ARRIVAL_LEAST))
}

/// Whether the agent stands at its stop.
pub open spec fn has_arrived(s: NavState, shared: &NavShared) -> bool {
    distance(s.position, s.snapped).le(spec_arrival_distance(shared))
}

/// The state after the distance walked has been accounted for.
pub open spec fn accounted(s: NavState, shared: &NavShared, moved: Real, dt: Real) -> NavState {
    let stalled: NavState = if moved.le(Real::of(SLIVER)) {
        let longer: NavState = NavState { stall_time: s.stall_time.add(dt), ..s };
        if spec_patience(shared.config, Real::of(STALL_INTERVALS)).lt(longer.stall_time) {
            given_up(longer, shared.config)
        } else {
            longer
        }
    } else {
        NavState { stall_time: Real::of(ZERO), ..s }
    };
    if has_arrived(stalled, shared) {
        NavState { status: NavStatus::Arrived, ..stalled }
    } else {
        stalled
    }
}

/// The state after one simulation step.
pub open spec fn ticked(
    s: NavState,
    shared: &NavShared,
    sensed: &WalkView,
    threats: Seq<Threat>,
    dt: Real,
) -> NavState {
    if !dt.is_finite() || dt.le(Real::of(ZERO)) {
        s
    } else if s.status != NavStatus::Moving {
        waited(s, dt)
    } else {
        match s.goal {
            None => NavState { status: NavStatus::Idle, ..s },
            Some(goal) => {
                if has_arrived(s, shared) {
                    NavState { status: NavStatus::Arrived, ..s }
                } else {
                    let nearby: Seq<Threat> = nearby_of(
                        threats,
                        threats.len() as int,
                        shared.config,
                        s.position,
                    );
                    match driven(s, shared, sensed, threats, nearby, goal, dt) {
                        (stopped, None) => stopped,
                        (walked, Some(moved)) => accounted(walked, shared, moved, dt),
                    }
                }
            },
        }
    }
}

/// Plans and steers one agent.
pub struct Navigator {
    position: Point,
    goal: Option<Point>,
    snapped: Point,
    status: NavStatus,
    corridor: Vec<Point>,
    corridor_next: usize,
    local: Vec<Point>,
    local_next: usize,
    replan_in: Real,
    fail_streak: u32,
    stall_time: Real,
    retry_in: Real,
    penalties: StampedMap<Real>,
    scratch: Scratch,
}

impl View for Navigator {
    type V = NavState;

    closed spec fn view(&self) -> NavState {
        NavState {
            position: self.position,
            goal: self.goal,
            snapped: self.snapped,
            status: self.status,
            corridor: self.corridor@,
            corridor_next: self.corridor_next as int,
            local: self.local@,
            local_next: self.local_next as int,
            replan_in: self.replan_in,
            fail_streak: self.fail_streak,
            stall_time: self.stall_time,
            retry_in: self.retry_in,
            penalties: self.penalties@,
        }
    }
}

impl Navigator {
    /// Progress along a corridor is one of its points.
    pub closed spec fn wf(&self) -> bool {
        &&& self.corridor@.len() > 0 ==> self.corridor_next < self.corridor@.len()
        &&& self.penalties.wf()
        &&& self.scratch.wf()
    }

    pub fn new(position: Point) -> (r: Navigator)
        ensures
            r.wf(),
            r@ == at_rest(position),
    {
        let r: Navigator = Navigator {
            position,
            goal: None,
            snapped: position,
            status: NavStatus::Idle,
            corridor: Vec::new(),
            corridor_next: 0,
            local: Vec::new(),
            local_next: 0,
            replan_in: Real::of(ZERO),
            fail_streak: 0,
            stall_time: Real::of(ZERO),
            retry_in: Real::of(ZERO),
            penalties: StampedMap::new(),
            scratch: Scratch::new(),
        };
        assert(r@.corridor =~= Seq::empty());
        assert(r@.local =~= Seq::empty());
        r
    }

    pub fn position(&self) -> (r: Point)
        ensures
            r == self@.position,
    {
        self.position
    }

    pub fn goal(&self) -> (r: Option<Point>)
        ensures
            r == self@.goal,
    {
        self.goal
    }

    pub fn status(&self) -> (r: NavStatus)
        ensures
            r == self@.status,
    {
        self.status
    }

    pub fn corridor(&self) -> (r: &[Point])
        ensures
            r@ == self@.corridor,
    {
        self.corridor.as_slice()
    }

    /// The points of the local path that are still to be walked to.
    pub fn local_remaining(&self) -> (r: &[Point])
        ensures
            r@ == (if self@.local_next < self@.local.len() {
                self@.local.skip(self@.local_next)
            } else {
                Seq::empty()
            }),
    {
        let from: usize = if self.local_next < self.local.len() {
            self.local_next
        } else {
            self.local.len()
        };
        let r: &[Point] = slice_subrange(self.local.as_slice(), from, self.local.len());
        proof {
            if self@.local_next < self@.local.len() {
                assert(r@ =~= self@.local.skip(self@.local_next));
            } else {
                assert(r@ =~= Seq::empty());
            }
        }
        r
    }

    fn reset_plans(&mut self)
        requires
            old(self).wf(),
        ensures
            final(self).wf(),
            final(self)@ == unplanned(old(self)@),
    {
        self.corridor.clear();
        self.corridor_next = 0;
        self.local.clear();
        self.local_next = 0;
        self.replan_in = Real::of(ZERO);
        self.fail_streak = 0;
        self.stall_time = Real::of(ZERO);
        assert(self@.corridor =~= Seq::empty());
        assert(self@.local =~= Seq::empty());
    }

    fn clear_penalties(&mut self)
        requires
            old(self).wf(),
        ensures
            final(self).wf(),
            final(self)@ == (NavState { penalties: Map::empty(), ..old(self)@ }),
    {
        self.penalties.reset(0, Real::of(ZERO));
    }

    /// Orders the agent to a goal.
    pub fn set_goal(&mut self, goal: Point)
        requires
            old(self).wf(),
        ensures
            final(self).wf(),
            final(self)@ == (NavState {
                goal: Some(goal),
                snapped: goal,
                status: NavStatus::Moving,
                ..cleared(old(self)@)
            }),
    {
        self.goal = Some(goal);
        self.snapped = goal;
        self.status = NavStatus::Moving;
        self.reset_plans();
        self.clear_penalties();
    }

    /// Moves the agent elsewhere; a standing goal is pursued from there.
    pub fn set_position(&mut self, position: Point)
        requires
            old(self).wf(),
        ensures
            final(self).wf(),
            final(self)@ == (NavState {
                position,
                status: if old(self)@.goal is Some {
                    NavStatus::Moving
                } else {
                    old(self)@.status
                },
                ..cleared(old(self)@)
            }),
    {
        self.position = position;
        self.reset_plans();
        self.clear_penalties();
        if self.goal.is_some() {
            self.status = NavStatus::Moving;
        }
    }

    /// Cancels the agent's orders.
    pub fn stop(&mut self)
        requires
            old(self).wf(),
        ensures
            final(self).wf(),
            final(self)@ == (NavState {
                goal: None,
                status: NavStatus::Idle,
                ..unplanned(old(self)@)
            }),
    {
        self.goal = None;
        self.status = NavStatus::Idle;
        self.reset_plans();
    }

    /// Reports `Blocked` and arms the re-probe cooldown.
    fn block(&mut self, config: &NavConfig)
        requires
            old(self).wf(),
        ensures
            final(self).wf(),
            final(self)@ == given_up(old(self)@, *config),
    {
        self.status = NavStatus::Blocked;
        self.retry_in = patience(*config, Real::of(RETRY_INTERVALS));
    }

    /// Charges the corridor points from `from` up to but without `to`.
    fn charge(&mut self, shared: &NavShared, from: usize, to: usize)
        requires
            old(self).wf(),
            shared.wf(),
            from <= to <= old(self)@.corridor.len(),
            old(self).penalties.capacity() >= shared.coarse.width * shared.coarse.height,
        ensures
            final(self).wf(),
            final(self)@ == (NavState {
                penalties: charged(
                    shared,
                    old(self)@.penalties,
                    old(self)@.corridor,
                    from as int,
                    to as int,
                ),
                ..old(self)@
            }),
    {
        let amount: Real = shared.config.fail_penalty.to_single();
        let mut index: usize = from;
        while index < to
            invariant
                self.wf(),
                shared.wf(),
                from <= index <= to <= self.corridor@.len(),
                self.penalties.capacity() >= shared.coarse.width * shared.coarse.height,
                amount == shared.config.fail_penalty.to_single(),
                self@ == (NavState {
                    penalties: charged(
                        shared,
                        old(self)@.penalties,
                        old(self)@.corridor,
                        from as int,
                        index as int,
                    ),
                    ..old(self)@
                }),
            decreases to - index,
        {
            if let Some((col, row)) = shared.coarse.cell_of(self.corridor[index]) {
                proof {
                    lemma_number(
                        shared.coarse.width as int,
                        shared.coarse.height as int,
                        col as int,
                        row as int,
                    );
                    assert(row * shared.coarse.width >= 0) by (nonlinear_arith)
                        requires
                            row >= 0,
                    ;
                }
                let cell: usize = row * shared.coarse.width + col;
                let sum: Real = match self.penalties.get(cell) {
                    Some(sum) => sum,
                    None => Real::of(ZERO),
                };
                self.penalties.set(cell, sum.single_sum(amount));
            }
            index = index + 1;
        }
    }

    /// Charges a failed corridor span and drops the plans.
    fn fail_refinement(&mut self, shared: &NavShared, span_end: usize)
        requires
            old(self).wf(),
            shared.wf(),
            old(self)@.corridor.len() > 0 ==> old(self)@.corridor_next <= span_end,
            old(self).penalties.capacity() >= shared.coarse.width * shared.coarse.height,
        ensures
            final(self).wf(),
            final(self)@ == refinement_failed(old(self)@, shared, span_end as int),
    {
        if self.fail_streak < u32::MAX {
            self.fail_streak = self.fail_streak + 1;
        }
        if self.corridor.len() > 0 {
            let last: usize = self.corridor.len() - 1;
            let end: usize = if span_end < last {
                span_end
            } else {
                last
            };
            self.charge(shared, self.corridor_next, end + 1);
        }
        self.corridor.clear();
        self.corridor_next = 0;
        self.local.clear();
        self.local_next = 0;
        self.replan_in = shared.config.replan_seconds.mul(Real::of(FAILED_SHARE));
        assert(self@.corridor =~= Seq::empty());
        assert(self@.local =~= Seq::empty());
        if self.fail_streak >= shared.config.max_fail_streak {
            self.block(&shared.config);
        }
    }

    /// Refines the corridor for a stop.
    fn refine(&mut self, shared: &NavShared, sensed: &WalkView, nearby: &Vec<Threat>, stop: Point)
        requires
            old(self).wf(),
            shared.wf(),
            sensed.wf(),
            old(self).penalties.capacity() >= shared.coarse.width * shared.coarse.height,
        ensures
            final(self).wf(),
            final(self)@ == refined(old(self)@, shared, sensed, nearby@, stop),
    {
        let refinement: Refinement = plan_local(
            sensed,
            &shared.config,
            nearby,
            self.position,
            &self.corridor,
            self.corridor_next,
            stop,
            &mut self.scratch,
        );
        self.corridor_next = refinement.next;
        match refinement.path {
            Some(path) => {
                self.local = path;
                self.local_next = 1;
                self.fail_streak = 0;
                self.replan_in = shared.config.replan_seconds;
            },
            None => {
                self.fail_refinement(shared, refinement.span_end);
            },
        }
    }

    /// Plans anew.
    fn replan(
        &mut self,
        shared: &NavShared,
        sensed: &WalkView,
        threats: &[Threat],
        nearby: &Vec<Threat>,
        goal: Point,
    )
        requires
            old(self).wf(),
            shared.wf(),
            sensed.wf(),
        ensures
            final(self).wf(),
            final(self)@ == replanned(old(self)@, shared, sensed, threats@, nearby@, goal),
    {
        match snap_goal(sensed, &shared.config, threats, goal) {
            None => {
                self.block(&shared.config);
            },
            Some(stop) => {
                self.snapped = stop;
                let cells: usize = shared.coarse.width * shared.coarse.height;
                self.penalties.make_room(cells, Real::of(ZERO));
                if self.corridor.len() == 0 {
                    match plan_global(
                        shared,
                        threats,
                        &self.penalties,
                        self.position,
                        stop,
                        &mut self.scratch,
                    ) {
                        None => {
                            self.block(&shared.config);
                            return;
                        },
                        Some(corridor) => {
                            self.corridor = corridor;
                            self.corridor_next = 0;
                        },
                    }
                }
                self.refine(shared, sensed, nearby, stop);
            },
        }
    }

    /// Steers along the local path.
    fn steer(&mut self, shared: &NavShared, sensed: &WalkView, threats: &[Threat], dt: Real) -> (moved:
        Real)
        requires
            old(self).wf(),
            sensed.wf(),
        ensures
            final(self).wf(),
            (final(self)@, moved) == steered_state(old(self)@, shared, sensed, threats@, dt),
    {
        let guarded: Vec<Threat> = widen(threats, &shared.config);
        let stride: Stride = steer_along(
            sensed,
            &shared.config,
            &guarded,
            &self.local,
            self.position,
            self.local_next,
            walking_distance(shared.config, dt),
        );
        self.position = stride.position;
        if stride.kept {
            self.local_next = stride.next;
        } else {
            self.local.clear();
            self.local_next = 0;
            self.replan_in = Real::of(ZERO);
            assert(self@.local =~= Seq::empty());
        }
        stride.moved
    }

    /// Moves the agent for some time.
    fn drive(
        &mut self,
        shared: &NavShared,
        sensed: &WalkView,
        threats: &[Threat],
        nearby: &Vec<Threat>,
        goal: Point,
        dt: Real,
    ) -> (moved: Option<Real>)
        requires
            old(self).wf(),
            shared.wf(),
            sensed.wf(),
        ensures
            final(self).wf(),
            (final(self)@, moved) == driven(
                old(self)@,
                shared,
                sensed,
                threats@,
                nearby@,
                goal,
                dt,
            ),
    {
        if is_held(nearby, self.position) {
            // A disc swept over the agent: a goal-directed plan is stale against
            // a moving threat within a tick.
            let guarded: Vec<Threat> = widen(threats, &shared.config);
            let (position, fled): (Point, Real) = flee_from(
                sensed,
                &shared.config,
                nearby,
                &guarded,
                self.position,
                walking_distance(shared.config, dt),
            );
            self.position = position;
            self.local.clear();
            self.local_next = 0;
            self.replan_in = Real::of(ZERO);
            assert(self@.local =~= Seq::empty());
            if Real::of(SLIVER).lt(fled) {
                return Some(fled);
            }
        } else {
            self.replan_in = self.replan_in.sub(dt);
            if self.local_next < self.local.len() && !self.replan_in.le(Real::of(ZERO)) {
                return Some(self.steer(shared, sensed, threats, dt));
            }
        }
        self.replan(shared, sensed, threats, nearby, goal);
        if self.status != NavStatus::Moving {
            return None;
        }
        Some(self.steer(shared, sensed, threats, dt))
    }

    /// Advances one simulation step. `sensed` is the caller's current best
    /// knowledge of the fine grid (streamed obstacles included as they are
    /// discovered); only the neighbourhood within the sensing radius of the
    /// agent needs to be accurate. Plans go around the threats within that
    /// radius, and the guard lets no step into any.
    pub fn tick(&mut self, shared: &NavShared, sensed: &WalkView, threats: &[Threat], dt: Real) -> (r:
        NavStatus)
        requires
            old(self).wf(),
            shared.wf(),
            sensed.wf(),
        ensures
            final(self).wf(),
            final(self)@ == ticked(old(self)@, shared, sensed, threats@, dt),
            r == final(self)@.status,
    {
        if !dt.is_finite() || dt.le(Real::of(ZERO)) {
            return self.status;
        }
        if self.status != NavStatus::Moving {
            if self.status == NavStatus::Blocked && self.goal.is_some() {
                self.retry_in = self.retry_in.sub(dt);
                if self.retry_in.le(Real::of(ZERO)) {
                    self.reset_plans();
                    self.clear_penalties();
                    self.status = NavStatus::Moving;
                }
            }
            return self.status;
        }
        let goal: Point = match self.goal {
            None => {
                self.status = NavStatus::Idle;
                return self.status;
            },
            Some(goal) => goal,
        };
        let arrival: Real = arrival_distance(shared);
        if distance(self.position, self.snapped).le(arrival) {
            self.status = NavStatus::Arrived;
            return self.status;
        }
        let nearby: Vec<Threat> = notice(threats, &shared.config, self.position);
        let moved: Real = match self.drive(shared, sensed, threats, &nearby, goal, dt) {
            None => {
                return self.status;
            },
            Some(moved) => moved,
        };
        if moved.le(Real::of(SLIVER)) {
            self.stall_time = self.stall_time.add(dt);
            if patience(shared.config, Real::of(STALL_INTERVALS)).lt(self.stall_time) {
                self.block(&shared.config);
            }
        } else {
            self.stall_time = Real::of(ZERO);
        }
        if distance(self.position, self.snapped).le(arrival) {
            self.status = NavStatus::Arrived;
        }
        self.status
    }
}

} // verus!
