//! Local planning: refining a corridor in the sensed window around the agent.
use vstd::prelude::*;

use crate::config::{NavConfig, Threat};
use crate::corridor::lemma_labels_inside;
use crate::gate::{
    gate_entered, gate_holds, holds, lemma_clear_step_is_admitted, lemma_guard_is_narrower,
    may_move,
};
use crate::geometry::{
    cell_coordinate, clamp_index, distance, distance_sq, segment_distance_sq, Point, INFINITY,
};
use crate::number::Real;
use crate::ring::{
    first_accepted, first_offset, lemma_first_unique, lemma_first_within, ring_of, Probe,
};
use crate::scratch::Scratch;
use crate::search::{cell_count, is_route, Label, Model, Terrain};
use crate::settle::{
    finish, lemma_search_ends, lemma_way_back_is_route, settle, trace_back, way_back, Phase,
    Progress, Settled,
};
use crate::walk::WalkView;
use crate::window::{
    hemmed_in, lemma_window_number, mark_threats, passable, window_model, Window, WindowTerrain,
};

verus! {

/// How many corridor points ahead progress is looked for.
pub const LOOKAHEAD: usize = 48;

/// How many points a string-pulled jump spans at most.
pub const LONGEST_JUMP: usize = 40;

/// Share of the sensing radius within which corridor points are targets:
/// `0.95`.
pub const TRUSTED_SHARE: u64 = 0x3fee_6666_6666_6666;

/// Squared distances up to this count as none: `1e-12`.
pub const SAME_POINT: u64 = 0x3d71_9799_812d_ea11;

/// The cells around the agent whose geometry is trusted point by point.
pub open spec fn window_around(sensed: &WalkView, config: NavConfig, col: int, row: int) -> Window {
    let sight: isize = config.sense_radius.div(sensed.cell_size).floor_int();
    let half: int = if sight < 2 {
        2
    } else {
        sight as int
    };
    let min_col: int = if col < half {
        0
    } else {
        col - half
    };
    let min_row: int = if row < half {
        0
    } else {
        row - half
    };
    let max_col: int = if col + half < sensed.width - 1 {
        col + half
    } else {
        sensed.width - 1
    };
    let max_row: int = if row + half < sensed.height - 1 {
        row + half
    } else {
        sensed.height - 1
    };
    Window {
        min_col: min_col as usize,
        min_row: min_row as usize,
        width: (max_col - min_col + 1) as usize,
        height: (max_row - min_row + 1) as usize,
    }
}

fn window_for(sensed: &WalkView, config: &NavConfig, col: usize, row: usize) -> (r: Window)
    requires
        sensed.wf(),
        sensed.within(col as int, row as int),
    ensures
        r == window_around(sensed, *config, col as int, row as int),
        r.wf(),
        r.holds_cell(col as int, row as int),
        r.min_col + r.width <= sensed.width,
        r.min_row + r.height <= sensed.height,
{
    let sight: isize = config.sense_radius.div(sensed.cell_size).floor_int();
    let half: usize = if sight < 2 {
        2
    } else {
        sight as usize
    };
    let min_col: usize = if col < half {
        0
    } else {
        col - half
    };
    let min_row: usize = if row < half {
        0
    } else {
        row - half
    };
    let max_col: usize = if half < sensed.width - 1 - col {
        col + half
    } else {
        sensed.width - 1
    };
    let max_row: usize = if half < sensed.height - 1 - row {
        row + half
    } else {
        sensed.height - 1
    };
    let r: Window = Window {
        min_col,
        min_row,
        width: max_col - min_col + 1,
        height: max_row - min_row + 1,
    };
    proof {
        assert(r.width * r.height <= sensed.width * sensed.height) by (nonlinear_arith)
            requires
                r.width <= sensed.width,
                r.height <= sensed.height,
        ;
    }
    r
}

/// The first corridor point of least distance to the agent, from `from` up to
/// but without `to`, and its squared distance.
pub open spec fn closest(corridor: Seq<Point>, from: int, to: int, position: Point) -> (int, Real)
    decreases to - from,
{
    if to <= from {
        (from, Real::of(INFINITY))
    } else {
        let (best, least): (int, Real) = closest(corridor, from, to - 1, position);
        let d: Real = distance_sq(corridor[to - 1], position);
        if d.lt(least) {
            (to - 1, d)
        } else {
            (best, least)
        }
    }
}

/// Monotonic corridor progress: the closest of the next few points, so that
/// the far side of a switchback can never yank progress across a wall.
pub open spec fn progress_along(corridor: Seq<Point>, next: int, position: Point) -> int {
    if corridor.len() == 0 {
        next
    } else {
        closest(
            corridor,
            next,
            if next + LOOKAHEAD < corridor.len() {
                next + LOOKAHEAD
            } else {
                corridor.len() as int
            },
            position,
        ).0
    }
}

fn advance(corridor: &Vec<Point>, next: usize, position: Point) -> (r: usize)
    requires
        corridor@.len() > 0 ==> next < corridor@.len(),
    ensures
        r == progress_along(corridor@, next as int, position),
        next <= r,
        corridor@.len() > 0 ==> r < corridor@.len(),
{
    if corridor.len() == 0 {
        return next;
    }
    let limit: usize = if LOOKAHEAD < corridor.len() - next {
        next + LOOKAHEAD
    } else {
        corridor.len()
    };
    let mut best: usize = next;
    let mut least: Real = Real::of(INFINITY);
    let mut index: usize = next;
    while index < limit
        invariant
            next <= index <= limit <= corridor@.len(),
            next <= best,
            best < corridor@.len(),
            (best as int, least) == closest(corridor@, next as int, index as int, position),
        decreases limit - index,
    {
        let d: Real = distance_sq(corridor[index], position);
        if d.lt(least) {
            least = d;
            best = index;
        }
        index = index + 1;
    }
    best
}

/// The last of the corridor points in sight, one after the other from `index`
/// on.
pub open spec fn last_in_sight(
    corridor: Seq<Point>,
    index: int,
    config: NavConfig,
    position: Point,
) -> int
    decreases corridor.len() - index,
{
    if index + 1 < corridor.len() && distance(corridor[index + 1], position).le(
        config.sense_radius.mul(Real::of(TRUSTED_SHARE)),
    ) {
        last_in_sight(corridor, index + 1, config, position)
    } else {
        index
    }
}

/// What the agent heads for, and the corridor point that stands for it: the
/// goal where it is in sight, else the last corridor point that is.
pub open spec fn heading_for(
    corridor: Seq<Point>,
    next: int,
    config: NavConfig,
    position: Point,
    goal: Point,
) -> (Point, int) {
    if corridor.len() == 0 {
        (goal, next)
    } else {
        let index: int = last_in_sight(corridor, next, config, position);
        if index + 1 == corridor.len() && distance(goal, position).le(config.sense_radius) {
            (goal, index)
        } else {
            (corridor[index], index)
        }
    }
}

fn choose_target(
    corridor: &Vec<Point>,
    next: usize,
    config: &NavConfig,
    position: Point,
    goal: Point,
) -> (r: (Point, usize))
    requires
        corridor@.len() > 0 ==> next < corridor@.len(),
    ensures
        (r.0, r.1 as int) == heading_for(corridor@, next as int, *config, position, goal),
        next <= r.1,
        corridor@.len() > 0 ==> r.1 < corridor@.len(),
{
    if corridor.len() == 0 {
        return (goal, next);
    }
    let sight: Real = config.sense_radius.mul(Real::of(TRUSTED_SHARE));
    let mut index: usize = next;
    while corridor.len() - index > 1 && distance(corridor[index + 1], position).le(sight)
        invariant
            next <= index < corridor@.len(),
            sight == config.sense_radius.mul(Real::of(TRUSTED_SHARE)),
            last_in_sight(corridor@, next as int, *config, position) == last_in_sight(
                corridor@,
                index as int,
                *config,
                position,
            ),
        decreases corridor@.len() - index,
    {
        index = index + 1;
    }
    if corridor.len() - index == 1 && distance(goal, position).le(config.sense_radius) {
        (goal, index)
    } else {
        (corridor[index], index)
    }
}

/// The passable cells around a cell, by their offsets.
pub open spec fn passable_offsets(
    sensed: &WalkView,
    nearby: Seq<Threat>,
    position: Point,
    window: Window,
    demote: bool,
    col: int,
    row: int,
) -> spec_fn(int, int) -> bool {
    |dx: int, dz: int| passable(sensed, nearby, position, window, demote, col + dx, row + dz)
}

/// How far a target may be nudged: at least across one coarse cell, because a
/// corridor point can sit well inside blocked fine terrain.
pub open spec fn nudge_reach(config: NavConfig) -> int {
    if config.coarse_factor + 4 < 6 {
        6
    } else {
        config.coarse_factor + 4
    }
}

/// The cell of the window nearest to a point, by its column and row in the
/// grid.
pub open spec fn nearest_in_window(sensed: &WalkView, window: Window, point: Point) -> (isize, isize) {
    (
        clamp_index(
            cell_coordinate(point.x, sensed.origin.x, sensed.cell_size),
            window.min_col as isize,
            (window.min_col + window.width - 1) as isize,
        ),
        clamp_index(
            cell_coordinate(point.z, sensed.origin.z, sensed.cell_size),
            window.min_row as isize,
            (window.min_row + window.height - 1) as isize,
        ),
    )
}

/// Whether a point falls into a cell of the window.
pub open spec fn falls_into_window(sensed: &WalkView, window: Window, point: Point) -> bool {
    window.holds_cell(
        cell_coordinate(point.x, sensed.origin.x, sensed.cell_size) as int,
        cell_coordinate(point.z, sensed.origin.z, sensed.cell_size) as int,
    )
}

struct PassableProbe<'a, 'b> {
    terrain: &'b WindowTerrain<'a>,
    demote: bool,
    col: isize,
    row: isize,
}

impl<'a, 'b> Probe for PassableProbe<'a, 'b> {
    closed spec fn accepts(&self) -> spec_fn(int, int) -> bool {
        passable_offsets(
            self.terrain.sensed,
            self.terrain.nearby@,
            self.terrain.position,
            self.terrain.window,
            self.demote,
            self.col as int,
            self.row as int,
        )
    }

    closed spec fn ready(&self) -> bool {
        self.terrain.marked()
    }

    fn accept(&self, dx: isize, dz: isize) -> (r: bool) {
        let col: i128 = self.col as i128 + dx as i128;
        let row: i128 = self.row as i128 + dz as i128;
        if col < 0 || row < 0 || col > isize::MAX as i128 || row > isize::MAX as i128 {
            return false;
        }
        self.terrain.is_passable(self.demote, col as isize, row as isize)
    }
}

/// Finds the passable cell nearest to a cell of the window.
fn nudge(terrain: &WindowTerrain, config: &NavConfig, demote: bool, col: isize, row: isize) -> (r:
    Option<(isize, isize)>)
    requires
        terrain.marked(),
        terrain.window.holds_cell(col as int, row as int),
    ensures
        ({
            let accepts: spec_fn(int, int) -> bool = passable_offsets(
                terrain.sensed,
                terrain.nearby@,
                terrain.position,
                terrain.window,
                demote,
                col as int,
                row as int,
            );
            match r {
                None => first_accepted(accepts, nudge_reach(*config)) is None,
                Some((dx, dz)) => {
                    &&& first_accepted(accepts, nudge_reach(*config)) == Some(
                        (dx as int, dz as int),
                    )
                    &&& accepts(dx as int, dz as int)
                },
            }
        }),
{
    let probe: PassableProbe = PassableProbe { terrain, demote, col, row };
    let window: Window = terrain.window;
    let across: usize = if window.width < window.height {
        window.height - 1
    } else {
        window.width - 1
    };
    let reach: isize = if config.coarse_factor < 2 {
        if across < 6 {
            across as isize
        } else {
            6
        }
    } else if across < 4 || across - 4 < config.coarse_factor {
        across as isize
    } else {
        config.coarse_factor as isize + 4
    };
    let r: Option<(isize, isize)> = first_offset(&probe, reach);
    proof {
        let accepts: spec_fn(int, int) -> bool = probe.accepts();
        let found: Option<(int, int)> = match r {
            None => None,
            Some((dx, dz)) => Some((dx as int, dz as int)),
        };
        assert forall|x: int, z: int| #[trigger] accepts(x, z) && ring_of(x, z) <= nudge_reach(
            *config,
        ) implies ring_of(x, z) <= reach by {
            assert(window.holds_cell(col + x, row + z));
        }
        lemma_first_within(accepts, nudge_reach(*config), reach as int, found);
        lemma_first_unique(accepts, nudge_reach(*config), found);
    }
    r
}

/// Where a window search ends: at its target or, short of it, at the cell that
/// came nearest, where that gains at least one cell.
pub open spec fn fine_end(model: Model, start: int, target: int, cap: nat, cell: Real) -> Option<
    int,
> {
    let p: Progress = finish(model, start, target, cap);
    if p.phase == Phase::Found {
        Some(target)
    } else if p.best_estimate.le(model.estimate(start).single_difference(cell)) {
        Some(p.best)
    } else {
        None
    }
}

/// The cells, last first, that a window search leads over.
pub open spec fn fine_way(model: Model, start: int, target: int, cap: nat, cell: Real) -> Option<
    Seq<int>,
> {
    match fine_end(model, start, target, cap, cell) {
        None => None,
        Some(end) => way_back(
            finish(model, start, target, cap).frontier.labels,
            start,
            end,
            cell_count(model) as nat,
        ),
    }
}

/// Searches the window.
fn search_window(
    terrain: &WindowTerrain,
    start: usize,
    target: usize,
    cap: usize,
    labels: &mut crate::stamped::StampedMap<Label>,
    closed: &mut crate::stamped::StampedMap<bool>,
    queue: &mut crate::queue::Queue,
) -> (r: Option<(bool, Vec<usize>)>)
    requires
        terrain.ready(),
        start < terrain.window.width * terrain.window.height,
        target < terrain.window.width * terrain.window.height,
        old(labels).wf(),
        old(closed).wf(),
    ensures
        final(labels).wf(),
        final(closed).wf(),
        final(queue).wf(),
        ({
            let way: Option<Seq<int>> = fine_way(
                terrain.model(),
                start as int,
                target as int,
                cap as nat,
                terrain.sensed.cell_size.to_single(),
            );
            match r {
                None => way is None,
                Some((found, cells)) => {
                    &&& way == Some(cells@.map_values(|i: usize| i as int))
                    &&& found == (finish(
                        terrain.model(),
                        start as int,
                        target as int,
                        cap as nat,
                    ).phase == Phase::Found)
                },
            }
        }),
{
    let outcome: Settled = settle(terrain, start, target, cap, labels, closed, queue);
    let gain: Real = terrain.estimate_at(start).single_difference(
        terrain.sensed.cell_size.to_single(),
    );
    let end: usize = if outcome.found {
        target
    } else if outcome.best_estimate.le(gain) {
        outcome.best
    } else {
        return None;
    };
    let cells: usize = terrain.window.width * terrain.window.height;
    proof {
        lemma_labels_inside(terrain.model(), labels@, queue@, cells as int);
        assert(labels@.dom().contains(end as int));
    }
    match trace_back(labels, start, end, cells) {
        None => None,
        Some(way) => Some((outcome.found, way)),
    }
}

/// The points of a plan: the agent, the middles of the cells after its own,
/// and the target where it was reached exactly.
pub open spec fn plan_points(
    sensed: &WalkView,
    window: Window,
    position: Point,
    way: Seq<int>,
    target: Option<Point>,
) -> Seq<Point> {
    let cells: Seq<Point> = seq![position] + Seq::new(
        (way.len() - 1) as nat,
        |i: int|
            {
                let cell: int = way[way.len() - 2 - i];
                sensed.center(
                    (window.min_col + cell % (window.width as int)) as usize,
                    (window.min_row + cell / (window.width as int)) as usize,
                )
            },
    );
    match target {
        Some(point) => if Real::of(SAME_POINT).lt(distance_sq(cells.last(), point)) {
            cells.push(point)
        } else {
            cells
        },
        None => cells,
    }
}

fn lay_points(
    sensed: &WalkView,
    window: &Window,
    position: Point,
    way: &Vec<usize>,
    target: Option<Point>,
) -> (r: Vec<Point>)
    requires
        window.wf(),
        way@.len() > 0,
        forall|i: int| 0 <= i < way@.len() ==> #[trigger] way@[i] < window.width * window.height,
    ensures
        r@ == plan_points(
            sensed,
            *window,
            position,
            way@.map_values(|i: usize| i as int),
            target,
        ),
        r@.len() > 0,
{
    let mut r: Vec<Point> = Vec::new();
    r.push(position);
    let ghost whole: Seq<int> = way@.map_values(|i: usize| i as int);
    let ghost cells: Seq<Point> = plan_points(sensed, *window, position, whole, None);
    let mut left: usize = way.len() - 1;
    while left > 0
        invariant
            window.wf(),
            left < way@.len(),
            forall|i: int| 0 <= i < way@.len() ==> #[trigger] way@[i] < window.width * window.height,
            whole == way@.map_values(|i: usize| i as int),
            cells == plan_points(sensed, *window, position, whole, None),
            cells.len() == way@.len(),
            r@.len() == way@.len() - left,
            forall|i: int| 0 <= i < r@.len() ==> #[trigger] r@[i] == cells[i],
        decreases left,
    {
        left = left - 1;
        let cell: usize = way[left];
        proof {
            assert(way@[left as int] < window.width * window.height);
            crate::search::lemma_place(
                window.width as int,
                window.height as int,
                cell as int,
            );
        }
        r.push(
            sensed.center(window.min_col + cell % window.width, window.min_row + cell / window.width),
        );
        proof {
            assert(whole[left as int] == cell);
        }
    }
    assert(r@ =~= cells);
    if let Some(point) = target {
        let last: Point = r[r.len() - 1];
        if Real::of(SAME_POINT).lt(distance_sq(last, point)) {
            r.push(point);
        }
    }
    r
}

/// Whether a jump passes the terrain raycast and stays clear of every threat
/// disc but those that hold the agent.
pub open spec fn jump_clear(
    sensed: &WalkView,
    nearby: Seq<Threat>,
    position: Point,
    from: Point,
    to: Point,
) -> bool {
    &&& sensed.clear_between(from, to, false)
    &&& forall|i: int|
        0 <= i < nearby.len() ==> (holds(#[trigger] nearby[i], position) || nearby[i].radius.mul(
            nearby[i].radius,
        ).lt(segment_distance_sq(from, to, nearby[i].center)))
}

fn jump_is_clear(
    sensed: &WalkView,
    nearby: &Vec<Threat>,
    position: Point,
    from: Point,
    to: Point,
) -> (r: bool)
    requires
        sensed.wf(),
    ensures
        r == jump_clear(sensed, nearby@, position, from, to),
{
    if !sensed.segment_is_clear(from, to) {
        return false;
    }
    let mut i: usize = 0;
    while i < nearby.len()
        invariant
            i <= nearby@.len(),
            forall|j: int|
                0 <= j < i ==> (holds(#[trigger] nearby@[j], position) || nearby@[j].radius.mul(
                    nearby@[j].radius,
                ).lt(segment_distance_sq(from, to, nearby@[j].center))),
        decreases nearby@.len() - i,
    {
        let threat: Threat = nearby[i];
        if !holds(threat, position) && !threat.radius.mul(threat.radius).lt(
            segment_distance_sq(from, to, threat.center),
        ) {
            return false;
        }
        i = i + 1;
    }
    true
}

/// The farthest point up to `jump` that can be jumped to from `index`; the
/// next point always can.
pub open spec fn landing(
    sensed: &WalkView,
    nearby: Seq<Threat>,
    position: Point,
    points: Seq<Point>,
    index: int,
    jump: int,
) -> int
    decreases jump - index,
{
    if jump <= index + 1 || jump_clear(sensed, nearby, position, points[index], points[jump]) {
        jump
    } else {
        landing(sensed, nearby, position, points, index, jump - 1)
    }
}

/// Where the string is pulled to from `index`.
pub open spec fn pulled_to(
    sensed: &WalkView,
    nearby: Seq<Threat>,
    position: Point,
    points: Seq<Point>,
    index: int,
) -> int {
    landing(
        sensed,
        nearby,
        position,
        points,
        index,
        if index + LONGEST_JUMP < points.len() - 1 {
            index + LONGEST_JUMP
        } else {
            points.len() - 1
        },
    )
}

proof fn lemma_landing(
    sensed: &WalkView,
    nearby: Seq<Threat>,
    position: Point,
    points: Seq<Point>,
    index: int,
    jump: int,
)
    requires
        index < jump,
    ensures
        index < landing(sensed, nearby, position, points, index, jump) <= jump,
    decreases jump - index,
{
    if jump > index + 1 {
        lemma_landing(sensed, nearby, position, points, index, jump - 1);
    }
}

/// The path from the `index`-th point on, string-pulled.
pub open spec fn pulled_from(
    sensed: &WalkView,
    nearby: Seq<Threat>,
    position: Point,
    points: Seq<Point>,
    index: int,
) -> Seq<Point>
    decreases points.len() - index,
{
    if index + 1 < points.len() {
        let next: int = pulled_to(sensed, nearby, position, points, index);
        if index < next < points.len() {
            seq![points[index]] + pulled_from(sensed, nearby, position, points, next)
        } else {
            seq![points[index]]
        }
    } else {
        seq![points[index]]
    }
}

/// String pulling: consecutive points are safe by construction, longer jumps
/// must be clear.
fn pull_string(sensed: &WalkView, nearby: &Vec<Threat>, position: Point, points: &Vec<Point>) -> (r:
    Vec<Point>)
    requires
        sensed.wf(),
        points@.len() > 0,
    ensures
        r@ == pulled_from(sensed, nearby@, position, points@, 0),
        r@.len() > 0,
{
    let mut r: Vec<Point> = Vec::new();
    r.push(points[0]);
    let mut index: usize = 0;
    let ghost whole: Seq<Point> = pulled_from(sensed, nearby@, position, points@, 0);
    assert(r@.drop_last() + whole =~= whole);
    while points.len() - index > 1
        invariant
            sensed.wf(),
            index < points@.len(),
            r@.len() > 0,
            r@.last() == points@[index as int],
            whole == pulled_from(sensed, nearby@, position, points@, 0),
            whole == r@.drop_last() + pulled_from(
                sensed,
                nearby@,
                position,
                points@,
                index as int,
            ),
        decreases points@.len() - index,
    {
        let last: usize = points.len() - 1;
        let mut jump: usize = if LONGEST_JUMP < last - index {
            index + LONGEST_JUMP
        } else {
            last
        };
        let ghost first: int = jump as int;
        proof {
            lemma_landing(sensed, nearby@, position, points@, index as int, jump as int);
        }
        while jump > index + 1 && !jump_is_clear(
            sensed,
            nearby,
            position,
            points[index],
            points[jump],
        )
            invariant
                sensed.wf(),
                index < jump < points@.len(),
                landing(sensed, nearby@, position, points@, index as int, first) == landing(
                    sensed,
                    nearby@,
                    position,
                    points@,
                    index as int,
                    jump as int,
                ),
            decreases jump,
        {
            jump = jump - 1;
        }
        let ghost before: Seq<Point> = r@;
        r.push(points[jump]);
        proof {
            let rest: Seq<Point> = pulled_from(sensed, nearby@, position, points@, jump as int);
            assert(r@.drop_last() =~= before);
            assert(before =~= before.drop_last() + seq![points@[index as int]]);
            assert(before.drop_last() + (seq![points@[index as int]] + rest) =~= before + rest);
        }
        index = jump;
    }
    assert(r@ =~= whole);
    r
}

/// The path that an agent in the given cell plans for a target in its window,
/// if there is one. It ends at the target itself only where the target falls
/// into a passable cell of the window.
pub open spec fn window_path(
    sensed: &WalkView,
    config: NavConfig,
    nearby: Seq<Threat>,
    position: Point,
    window: Window,
    col: int,
    row: int,
    target: Point,
) -> Option<Seq<Point>> {
    let demote: bool = hemmed_in(sensed, nearby, position, window, col, row);
    let (tcol, trow): (isize, isize) = nearest_in_window(sensed, window, target);
    match first_accepted(
        passable_offsets(sensed, nearby, position, window, demote, tcol as int, trow as int),
        nudge_reach(config),
    ) {
        None => None,
        Some((dx, dz)) => path_to_cell(
            sensed,
            config,
            nearby,
            position,
            window,
            demote,
            window.number(col, row),
            ((tcol + dx - window.min_col) as usize, (trow + dz - window.min_row) as usize),
            if dx == 0 && dz == 0 && falls_into_window(sensed, window, target) {
                Some(target)
            } else {
                None
            },
        ),
    }
}

/// The path that the agent plans for a target in its window, if there is one.
pub open spec fn fine_path(
    sensed: &WalkView,
    config: NavConfig,
    nearby: Seq<Threat>,
    position: Point,
    target: Point,
) -> Option<Seq<Point>> {
    match sensed.cell_at(position) {
        None => None,
        Some((col, row)) => window_path(
            sensed,
            config,
            nearby,
            position,
            window_around(sensed, config, col as int, row as int),
            col as int,
            row as int,
            target,
        ),
    }
}

/// The path that the agent plans to a cell of its window. `exact` is the point
/// to end at where the search reaches the cell.
pub open spec fn path_to_cell(
    sensed: &WalkView,
    config: NavConfig,
    nearby: Seq<Threat>,
    position: Point,
    window: Window,
    demote: bool,
    start: int,
    cell: (usize, usize),
    exact: Option<Point>,
) -> Option<Seq<Point>> {
    let model: Model = window_model(sensed, nearby, position, window, demote, cell);
    let target: int = cell.1 * window.width + cell.0;
    let cap: nat = config.local_expansion_cap as nat;
    match fine_way(model, start, target, cap, sensed.cell_size.to_single()) {
        None => None,
        Some(way) => Some(
            pulled_from(
                sensed,
                nearby,
                position,
                plan_points(
                    sensed,
                    window,
                    position,
                    way,
                    if finish(model, start, target, cap).phase == Phase::Found {
                        exact
                    } else {
                        None
                    },
                ),
                0,
            ),
        ),
    }
}

/// The cells of a window search's way lie in the window.
pub proof fn lemma_fine_way(model: Model, start: int, target: int, cap: nat, cell: Real)
    requires
        model.valid(),
        0 <= start < cell_count(model),
    ensures
        fine_way(model, start, target, cap, cell) matches Some(way) ==> {
            &&& way.len() > 0
            &&& way.last() == start
            &&& is_route(model, way.reverse())
            &&& forall|i: int| 0 <= i < way.len() ==> 0 <= #[trigger] way[i] < cell_count(model)
            &&& finish(model, start, target, cap).phase == Phase::Found ==> way[0] == target
        },
{
    lemma_search_ends(model, start, target, cap);
    let p: Progress = finish(model, start, target, cap);
    if let Some(way) = fine_way(model, start, target, cap, cell) {
        let end: int = fine_end(model, start, target, cap, cell).unwrap();
        assert(p.frontier.labels.dom().contains(start));
        assert(p.frontier.labels.dom().contains(end));
        lemma_way_back_is_route(model, p.frontier, start, end, cell_count(model) as nat);
        assert forall|i: int| 0 <= i < way.len() implies 0 <= #[trigger] way[i] < cell_count(
            model,
        ) by {
            assert(p.frontier.labels.dom().contains(way[i]));
        }
    }
}

/// Plans a path to a cell of the window.
fn plan_to_cell(
    terrain: &WindowTerrain,
    config: &NavConfig,
    nearby: &Vec<Threat>,
    start: usize,
    exact: Option<Point>,
    labels: &mut crate::stamped::StampedMap<Label>,
    closed: &mut crate::stamped::StampedMap<bool>,
    queue: &mut crate::queue::Queue,
) -> (r: Option<Vec<Point>>)
    requires
        terrain.ready(),
        terrain.nearby@ == nearby@,
        start < terrain.window.width * terrain.window.height,
        old(labels).wf(),
        old(closed).wf(),
    ensures
        final(labels).wf(),
        final(closed).wf(),
        final(queue).wf(),
        ({
            let path: Option<Seq<Point>> = path_to_cell(
                terrain.sensed,
                *config,
                nearby@,
                terrain.position,
                terrain.window,
                terrain.demote,
                start as int,
                terrain.target,
                exact,
            );
            match r {
                None => path is None,
                Some(points) => path == Some(points@),
            }
        }),
        r matches Some(points) ==> points@.len() > 0,
{
    let window: Window = terrain.window;
    proof {
        crate::search::lemma_number(
            window.width as int,
            window.height as int,
            terrain.target.0 as int,
            terrain.target.1 as int,
        );
        let a: int = terrain.target.1 as int;
        assert(a * window.width >= 0) by (nonlinear_arith)
            requires
                a >= 0,
        ;
        terrain.lemma_ready();
    }
    let target: usize = terrain.target.1 * window.width + terrain.target.0;
    let ghost model: Model = terrain.model();
    let ghost cap: nat = config.local_expansion_cap as nat;
    match search_window(terrain, start, target, config.local_expansion_cap, labels, closed, queue) {
        None => None,
        Some((found, way)) => {
            proof {
                let cells: Seq<int> = way@.map_values(|i: usize| i as int);
                lemma_fine_way(
                    model,
                    start as int,
                    target as int,
                    cap,
                    terrain.sensed.cell_size.to_single(),
                );
                assert forall|i: int| 0 <= i < way@.len() implies #[trigger] way@[i]
                    < window.width * window.height by {
                    assert(0 <= cells[i] < cell_count(model));
                }
            }
            let points: Vec<Point> = lay_points(
                terrain.sensed,
                &window,
                terrain.position,
                &way,
                if found {
                    exact
                } else {
                    None
                },
            );
            Some(pull_string(terrain.sensed, nearby, terrain.position, &points))
        },
    }
}

/// Plans the path of an agent in a cell of a marked window.
fn plan_in_window(
    unaimed: WindowTerrain,
    config: &NavConfig,
    nearby: &Vec<Threat>,
    col: usize,
    row: usize,
    target: Point,
    labels: &mut crate::stamped::StampedMap<Label>,
    closed: &mut crate::stamped::StampedMap<bool>,
    queue: &mut crate::queue::Queue,
) -> (r: Option<Vec<Point>>)
    requires
        unaimed.marked(),
        unaimed.nearby@ == nearby@,
        unaimed.window.holds_cell(col as int, row as int),
        old(labels).wf(),
        old(closed).wf(),
        old(queue).wf(),
    ensures
        final(labels).wf(),
        final(closed).wf(),
        final(queue).wf(),
        ({
            let path: Option<Seq<Point>> = window_path(
                unaimed.sensed,
                *config,
                nearby@,
                unaimed.position,
                unaimed.window,
                col as int,
                row as int,
                target,
            );
            match r {
                None => path is None,
                Some(points) => path == Some(points@),
            }
        }),
        r matches Some(points) ==> points@.len() > 0,
{
    let sensed: &WalkView = unaimed.sensed;
    let window: Window = unaimed.window;
    let demote: bool = unaimed.is_hemmed_in(col as isize, row as isize);
    let own_col: isize = cell_coordinate(target.x, sensed.origin.x, sensed.cell_size);
    let own_row: isize = cell_coordinate(target.z, sensed.origin.z, sensed.cell_size);
    let tcol: isize = clamp_index(
        own_col,
        window.min_col as isize,
        (window.min_col + window.width - 1) as isize,
    );
    let trow: isize = clamp_index(
        own_row,
        window.min_row as isize,
        (window.min_row + window.height - 1) as isize,
    );
    match nudge(&unaimed, config, demote, tcol, trow) {
        None => None,
        Some((dx, dz)) => {
            proof {
                assert(window.holds_cell(tcol + dx, trow + dz));
                lemma_window_number(window, col as int, row as int);
            }
            let open_col: usize = (tcol as i128 + dx as i128) as usize - window.min_col;
            let open_row: usize = (trow as i128 + dz as i128) as usize - window.min_row;
            let terrain: WindowTerrain = WindowTerrain {
                sensed,
                window,
                hard: unaimed.hard,
                soft: unaimed.soft,
                nearby: unaimed.nearby,
                position: unaimed.position,
                demote,
                target: (open_col, open_row),
            };
            let start: usize = window.index(col as isize, row as isize);
            let exact: Option<Point> = if dx == 0 && dz == 0 && tcol == own_col && trow == own_row {
                Some(target)
            } else {
                None
            };
            plan_to_cell(&terrain, config, nearby, start, exact, labels, closed, queue)
        },
    }
}

/// Plans the path of an agent in a cell of the sensed grid.
fn plan_path(
    sensed: &WalkView,
    config: &NavConfig,
    nearby: &Vec<Threat>,
    position: Point,
    cell: (usize, usize),
    target: Point,
    scratch: &mut Scratch,
) -> (r: Option<Vec<Point>>)
    requires
        sensed.wf(),
        sensed.cell_at(position) == Some(cell),
        old(scratch).wf(),
    ensures
        final(scratch).wf(),
        match r {
            None => fine_path(sensed, *config, nearby@, position, target) is None,
            Some(points) => fine_path(sensed, *config, nearby@, position, target) == Some(points@),
        },
        r matches Some(points) ==> points@.len() > 0,
{
    let (col, row): (usize, usize) = cell;
    let window: Window = window_for(sensed, config, col, row);
    mark_threats(sensed, &window, nearby, position, &mut scratch.hard, &mut scratch.soft);
    let terrain: WindowTerrain = WindowTerrain {
        sensed,
        window,
        hard: &scratch.hard,
        soft: &scratch.soft,
        nearby: Ghost(nearby@),
        position,
        demote: false,
        target: (0, 0),
    };
    plan_in_window(
        terrain,
        config,
        nearby,
        col,
        row,
        target,
        &mut scratch.labels,
        &mut scratch.closed,
        &mut scratch.queue,
    )
}

/// What refining a corridor gives.
pub struct Refinement {
    /// The corridor point that the agent has got to.
    pub next: usize,
    /// The corridor point that was planned for.
    pub span_end: usize,
    /// The path, unless the window does not deliver the promised passage.
    pub path: Option<Vec<Point>>,
}

/// Refines a corridor with a windowed fine search around the agent.
pub fn plan_local(
    sensed: &WalkView,
    config: &NavConfig,
    nearby: &Vec<Threat>,
    position: Point,
    corridor: &Vec<Point>,
    next: usize,
    goal: Point,
    scratch: &mut Scratch,
) -> (r: Refinement)
    requires
        sensed.wf(),
        corridor@.len() > 0 ==> next < corridor@.len(),
        old(scratch).wf(),
    ensures
        final(scratch).wf(),
        corridor@.len() > 0 ==> r.next <= r.span_end < corridor@.len(),
        r.path matches Some(points) ==> points@.len() > 0,
        ({
            let got_to: int = progress_along(corridor@, next as int, position);
            let (target, span_end): (Point, int) = heading_for(
                corridor@,
                got_to,
                *config,
                position,
                goal,
            );
            if sensed.cell_at(position) is None {
                r.next == next && r.span_end == next && r.path is None
            } else {
                &&& r.next == got_to
                &&& r.span_end == span_end
                &&& match r.path {
                    None => fine_path(sensed, *config, nearby@, position, target) is None,
                    Some(points) => fine_path(sensed, *config, nearby@, position, target) == Some(
                        points@,
                    ),
                }
            }
        }),
{
    match sensed.cell_of(position) {
        None => Refinement { next, span_end: next, path: None },
        Some(cell) => {
            let got_to: usize = advance(corridor, next, position);
            let (target, span_end): (Point, usize) = choose_target(
                corridor,
                got_to,
                config,
                position,
                goal,
            );
            let path: Option<Vec<Point>> = plan_path(
                sensed,
                config,
                nearby,
                position,
                cell,
                target,
                scratch,
            );
            Refinement { next: got_to, span_end, path }
        },
    }
}

pub proof fn lemma_window_around(sensed: &WalkView, config: NavConfig, col: int, row: int)
    requires
        sensed.wf(),
        sensed.within(col, row),
    ensures
        window_around(sensed, config, col, row).wf(),
        window_around(sensed, config, col, row).holds_cell(col, row),
{
    let window: Window = window_around(sensed, config, col, row);
    assert(window.width * window.height <= sensed.width * sensed.height) by (nonlinear_arith)
        requires
            window.width <= sensed.width,
            window.height <= sensed.height,
    ;
}

/// Whether a path is pulled taut over a way, last cell first, that starts in
/// the given cell of a window and enters only passable cells without cutting a
/// corner. It may end at the target itself where the target falls into the
/// window and the way ends in the target's cell.
pub open spec fn follows(
    sensed: &WalkView,
    nearby: Seq<Threat>,
    position: Point,
    window: Window,
    start: int,
    path: Seq<Point>,
    target: Point,
    way: Seq<int>,
    cell: (usize, usize),
    exact: Option<Point>,
    demote: bool,
) -> bool {
    &&& way.len() > 0
    &&& way.last() == start
    &&& forall|i: int| 0 <= i < way.len() ==> 0 <= #[trigger] way[i] < window.width * window.height
    &&& exact is None || {
        &&& exact == Some(target)
        &&& falls_into_window(sensed, window, target)
        &&& way[0] == window.number(
            nearest_in_window(sensed, window, target).0 as int,
            nearest_in_window(sensed, window, target).1 as int,
        )
    }
    &&& is_route(
        window_model(sensed, nearby, position, window, demote, cell),
        way.reverse(),
    )
    &&& path == pulled_from(
        sensed,
        nearby,
        position,
        plan_points(sensed, window, position, way, exact),
        0,
    )
}

proof fn lemma_path_to_cell_follows(
    sensed: &WalkView,
    config: NavConfig,
    nearby: Seq<Threat>,
    position: Point,
    window: Window,
    demote: bool,
    start: int,
    cell: (usize, usize),
    wanted: Option<Point>,
    target: Point,
)
    requires
        window.wf(),
        0 <= start < window.width * window.height,
        path_to_cell(
            sensed,
            config,
            nearby,
            position,
            window,
            demote,
            start,
            cell,
            wanted,
        ) is Some,
        wanted is None || {
            &&& wanted == Some(target)
            &&& falls_into_window(sensed, window, target)
            &&& cell.1 * window.width + cell.0 == window.number(
                nearest_in_window(sensed, window, target).0 as int,
                nearest_in_window(sensed, window, target).1 as int,
            )
        },
    ensures
        exists|way: Seq<int>, exact: Option<Point>| #[trigger]
            follows(
                sensed,
                nearby,
                position,
                window,
                start,
                path_to_cell(
                    sensed,
                    config,
                    nearby,
                    position,
                    window,
                    demote,
                    start,
                    cell,
                    wanted,
                ).unwrap(),
                target,
                way,
                cell,
                exact,
                demote,
            ),
{
    let model: Model = window_model(sensed, nearby, position, window, demote, cell);
    let goal: int = cell.1 * window.width + cell.0;
    let cap: nat = config.local_expansion_cap as nat;
    assert(model.valid());
    lemma_fine_way(model, start, goal, cap, sensed.cell_size.to_single());
    let way: Seq<int> = fine_way(model, start, goal, cap, sensed.cell_size.to_single()).unwrap();
    let exact: Option<Point> = if finish(model, start, goal, cap).phase == Phase::Found {
        wanted
    } else {
        None
    };
    assert(follows(
        sensed,
        nearby,
        position,
        window,
        start,
        path_to_cell(
            sensed,
            config,
            nearby,
            position,
            window,
            demote,
            start,
            cell,
            wanted,
        ).unwrap(),
        target,
        way,
        cell,
        exact,
        demote,
    ));
}

/// A local plan follows a way over the passable cells of the agent's window:
/// open terrain and, unless the agent is hemmed in, outside every disc that
/// does not hold it.
pub proof fn lemma_local_plan_is_route(
    sensed: &WalkView,
    config: NavConfig,
    nearby: Seq<Threat>,
    position: Point,
    target: Point,
)
    requires
        sensed.wf(),
        fine_path(sensed, config, nearby, position, target) is Some,
    ensures
        sensed.cell_at(position) is Some,
        ({
            let (col, row): (usize, usize) = sensed.cell_at(position).unwrap();
            let window: Window = window_around(sensed, config, col as int, row as int);
            exists|way: Seq<int>, cell: (usize, usize), exact: Option<Point>| #[trigger]
                follows(
                    sensed,
                    nearby,
                    position,
                    window,
                    window.number(col as int, row as int),
                    fine_path(sensed, config, nearby, position, target).unwrap(),
                    target,
                    way,
                    cell,
                    exact,
                    hemmed_in(sensed, nearby, position, window, col as int, row as int),
                )
        }),
{
    let (col, row): (usize, usize) = sensed.cell_at(position).unwrap();
    let window: Window = window_around(sensed, config, col as int, row as int);
    lemma_window_around(sensed, config, col as int, row as int);
    let demote: bool = hemmed_in(sensed, nearby, position, window, col as int, row as int);
    let (tcol, trow): (isize, isize) = nearest_in_window(sensed, window, target);
    let (dx, dz): (int, int) = first_accepted(
        passable_offsets(sensed, nearby, position, window, demote, tcol as int, trow as int),
        nudge_reach(config),
    ).unwrap();
    let cell: (usize, usize) = (
        (tcol + dx - window.min_col) as usize,
        (trow + dz - window.min_row) as usize,
    );
    let wanted: Option<Point> = if dx == 0 && dz == 0 && falls_into_window(
        sensed,
        window,
        target,
    ) {
        Some(target)
    } else {
        None
    };
    lemma_window_number(window, col as int, row as int);
    lemma_path_to_cell_follows(
        sensed,
        config,
        nearby,
        position,
        window,
        demote,
        window.number(col as int, row as int),
        cell,
        wanted,
        target,
    );
}

/// A jump that string pulling accepts, between points outside the discs, is one
/// that the guard admits: a legally planned path does not chatter against it.
pub proof fn lemma_planned_jump_is_admitted(
    sensed: &WalkView,
    config: NavConfig,
    nearby: Seq<Threat>,
    position: Point,
    from: Point,
    to: Point,
)
    requires
        jump_clear(sensed, nearby, position, from, to),
        config.threat_margin.finite(),
        config.threat_margin.rank() >= 0,
        forall|i: int|
            0 <= i < nearby.len() ==> {
                let threat: Threat = #[trigger] nearby[i];
                &&& threat.radius.finite()
                &&& threat.radius.rank() >= 0
                &&& !holds(threat, position)
                &&& !gate_holds(threat, config, from)
                &&& !gate_holds(threat, config, to)
            },
    ensures
        may_move(sensed, config, nearby, from, to),
{
    assert forall|i: int| 0 <= i < nearby.len() implies !gate_holds(
        #[trigger] nearby[i],
        config,
        from,
    ) && !gate_entered(nearby[i], config, from, to) by {
        lemma_guard_is_narrower(nearby[i], config);
        assert(!holds(nearby[i], position));
    }
    lemma_clear_step_is_admitted(sensed, config, nearby, from, to);
}

} // verus!
