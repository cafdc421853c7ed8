//! The legs of a planned path are clear.
use vstd::prelude::*;

use crate::config::{NavConfig, Threat};
use crate::gate::escaping;
use crate::geometry::Point;
use crate::raycast::{
    lemma_cell_step_is_clear, lemma_open_box_is_clear, lies_in, open_beyond, passes, spec_on_corner,
};
use crate::refine::{
    falls_into_window, fine_path, follows, jump_clear, landing, lemma_local_plan_is_route,
    lemma_window_around, nearest_in_window, plan_points, pulled_from, pulled_to, window_around,
    LONGEST_JUMP,
};
use crate::search::{adjoins, is_route, lemma_place, may_step, neighbour, step_col, step_row, Model};
use crate::walk::WalkView;
use crate::window::{hemmed_in, lemma_window_number, window_model, Window};

verus! {

/// Whether the middle of a cell lies in that cell, off its corners, as it does
/// unless coordinates are too coarse for cells of that size.
pub open spec fn middle_in_place(view: &WalkView, col: int, row: int) -> bool {
    let middle: Point = view.spec_in_cells(view.center(col as usize, row as usize));
    lies_in(middle, (col, row)) && !spec_on_corner(middle)
}

/// The cell of the grid that has a number in a window.
pub open spec fn numbered(window: Window, number: int) -> (int, int) {
    (
        window.min_col + number % (window.width as int),
        window.min_row + number / (window.width as int),
    )
}

/// Whether a leg of a pulled string leads from one point to the next, or is a
/// jump that was found clear.
spec fn is_leg(
    sensed: &WalkView,
    nearby: Seq<Threat>,
    position: Point,
    points: Seq<Point>,
    i: int,
    j: int,
) -> bool {
    &&& 0 <= i < j < points.len()
    &&& j == i + 1 || jump_clear(sensed, nearby, position, points[i], points[j])
}

proof fn lemma_landing_is_clear(
    sensed: &WalkView,
    nearby: Seq<Threat>,
    position: Point,
    points: Seq<Point>,
    index: int,
    jump: int,
)
    requires
        0 <= index < jump < points.len(),
    ensures
        is_leg(
            sensed,
            nearby,
            position,
            points,
            index,
            landing(sensed, nearby, position, points, index, jump),
        ),
    decreases jump - index,
{
    if jump > index + 1 && !jump_clear(sensed, nearby, position, points[index], points[jump]) {
        lemma_landing_is_clear(sensed, nearby, position, points, index, jump - 1);
    }
}

proof fn lemma_pulled_legs(
    sensed: &WalkView,
    nearby: Seq<Threat>,
    position: Point,
    points: Seq<Point>,
    index: int,
    k: int,
) -> (leg: (int, int))
    requires
        0 <= index < points.len(),
        0 <= k < pulled_from(sensed, nearby, position, points, index).len() - 1,
    ensures
        is_leg(sensed, nearby, position, points, leg.0, leg.1),
        pulled_from(sensed, nearby, position, points, index)[k] == points[leg.0],
        pulled_from(sensed, nearby, position, points, index)[k + 1] == points[leg.1],
    decreases k,
{
    let next: int = pulled_to(sensed, nearby, position, points, index);
    let rest: Seq<Point> = pulled_from(sensed, nearby, position, points, next);
    lemma_landing_is_clear(
        sensed,
        nearby,
        position,
        points,
        index,
        if index + LONGEST_JUMP < points.len() - 1 {
            index + LONGEST_JUMP
        } else {
            points.len() - 1
        },
    );
    let whole: Seq<Point> = pulled_from(sensed, nearby, position, points, index);
    assert(whole == seq![points[index]] + rest);
    assert(rest[0] == points[next]);
    if k == 0 {
        assert(whole[1] == rest[0]);
        (index, next)
    } else {
        assert(whole[k] == rest[k - 1]);
        assert(whole[k + 1] == rest[k]);
        lemma_pulled_legs(sensed, nearby, position, points, next, k - 1)
    }
}

/// An allowed step of the window search is one step of a ray.
proof fn lemma_step_passes(
    sensed: &WalkView,
    nearby: Seq<Threat>,
    position: Point,
    window: Window,
    demote: bool,
    cell: (usize, usize),
    from: int,
    to: int,
)
    requires
        window.wf(),
        0 <= from < window.width * window.height,
        adjoins(window_model(sensed, nearby, position, window, demote, cell), from, to),
    ensures
        passes(sensed, numbered(window, from), numbered(window, to)),
{
    let model: Model = window_model(sensed, nearby, position, window, demote, cell);
    let k: int = choose|k: int|
        0 <= k < 8 && #[trigger] may_step(model, from, k) && neighbour(model, from, k) == to;
    let (col, row): (int, int) = numbered(window, from);
    lemma_place(window.width as int, window.height as int, from);
    assert(model.open_at(
        col - window.min_col + step_col(k),
        row - window.min_row + step_row(k),
    ));
    assert(window.holds_cell(col + step_col(k), row + step_row(k)));
    lemma_window_number(window, col + step_col(k), row + step_row(k));
    assert(to == window.number(col + step_col(k), row + step_row(k)));
    assert(numbered(window, to) == (col + step_col(k), row + step_row(k)));
}

/// What a plan is made of: a window of the grid, the agent in one of its cells,
/// and cells whose middles lie in them.
spec fn laid_out(
    sensed: &WalkView,
    window: Window,
    position: Point,
    start: (int, int),
) -> bool {
    &&& window.wf()
    &&& window.min_col + window.width <= sensed.width
    &&& window.min_row + window.height <= sensed.height
    &&& window.holds_cell(start.0, start.1)
    &&& sensed.cell_at(position) == Some((start.0 as usize, start.1 as usize))
    &&& lies_in(sensed.spec_in_cells(position), start)
    &&& forall|c: int, r: int|
        #![trigger sensed.within(c, r)]
        sensed.within(c, r) ==> middle_in_place(sensed, c, r)
}

/// The `i`-th point of a plan before its exact target.
spec fn plan_point(sensed: &WalkView, window: Window, position: Point, way: Seq<int>, i: int) -> Point {
    let cell: (int, int) = numbered(window, way[way.len() - 1 - i]);
    if i == 0 {
        position
    } else {
        sensed.center(cell.0 as usize, cell.1 as usize)
    }
}

/// Every point of a plan lies in its cell of the way, which is open unless the
/// agent starts in it.
proof fn lemma_plan_point(
    sensed: &WalkView,
    nearby: Seq<Threat>,
    position: Point,
    window: Window,
    way: Seq<int>,
    cell: (usize, usize),
    demote: bool,
    start: (int, int),
    i: int,
)
    requires
        laid_out(sensed, window, position, start),
        is_route(window_model(sensed, nearby, position, window, demote, cell), way.reverse()),
        way.last() == window.number(start.0, start.1),
        forall|j: int| 0 <= j < way.len() ==> 0 <= #[trigger] way[j] < window.width * window.height,
        0 <= i < way.len(),
    ensures
        ({
            let a: (int, int) = numbered(window, way[way.len() - 1 - i]);
            let point: Point = plan_point(sensed, window, position, way, i);
            &&& sensed.within(a.0, a.1)
            &&& lies_in(sensed.spec_in_cells(point), a)
            &&& escaping(sensed, point) || !sensed.blocked_at(a.0, a.1)
            &&& i > 0 ==> !spec_on_corner(sensed.spec_in_cells(point))
        }),
{
    let model: Model = window_model(sensed, nearby, position, window, demote, cell);
    let n: int = way.len() as int;
    let forward: Seq<int> = way.reverse();
    let here: int = way[n - 1 - i];
    lemma_window_number(window, start.0, start.1);
    lemma_place(window.width as int, window.height as int, here);
    let a: (int, int) = numbered(window, here);
    assert(sensed.within(a.0, a.1));
    if i > 0 {
        assert(forward[i - 1] == way[n - i]);
        assert(forward[i] == here);
        assert(adjoins(model, forward[i - 1], forward[i - 1 + 1]));
        lemma_step_passes(sensed, nearby, position, window, demote, cell, way[n - i], here);
        assert(middle_in_place(sensed, a.0, a.1));
    } else {
        assert(a == start);
    }
}

proof fn lemma_plan_points_at(
    sensed: &WalkView,
    window: Window,
    position: Point,
    way: Seq<int>,
    exact: Option<Point>,
    i: int,
)
    requires
        way.len() > 0,
        0 <= i < plan_points(sensed, window, position, way, exact).len(),
    ensures
        i < way.len() ==> plan_points(sensed, window, position, way, exact)[i] == plan_point(
            sensed,
            window,
            position,
            way,
            i,
        ),
        i >= way.len() ==> i == way.len() && exact == Some(
            plan_points(sensed, window, position, way, exact)[i],
        ),
{
}

/// A leg of a plan from one cell to the next is clear.
proof fn lemma_step_of_plan_is_clear(
    sensed: &WalkView,
    nearby: Seq<Threat>,
    position: Point,
    window: Window,
    way: Seq<int>,
    cell: (usize, usize),
    demote: bool,
    start: (int, int),
    i: int,
)
    requires
        laid_out(sensed, window, position, start),
        is_route(window_model(sensed, nearby, position, window, demote, cell), way.reverse()),
        way.last() == window.number(start.0, start.1),
        forall|j: int| 0 <= j < way.len() ==> 0 <= #[trigger] way[j] < window.width * window.height,
        0 <= i < way.len() - 1,
    ensures
        ({
            let from: Point = plan_point(sensed, window, position, way, i);
            let to: Point = plan_point(sensed, window, position, way, i + 1);
            sensed.clear_between(from, to, escaping(sensed, from))
        }),
{
    let model: Model = window_model(sensed, nearby, position, window, demote, cell);
    let n: int = way.len() as int;
    let forward: Seq<int> = way.reverse();
    let here: int = way[n - 1 - i];
    let next: int = way[n - 2 - i];
    let from: Point = plan_point(sensed, window, position, way, i);
    let to: Point = plan_point(sensed, window, position, way, i + 1);
    lemma_plan_point(sensed, nearby, position, window, way, cell, demote, start, i);
    lemma_plan_point(sensed, nearby, position, window, way, cell, demote, start, i + 1);
    assert(forward[i] == here);
    assert(forward[i + 1] == next);
    assert(adjoins(model, forward[i], forward[i + 1]));
    lemma_step_passes(sensed, nearby, position, window, demote, cell, here, next);
    lemma_cell_step_is_clear(
        sensed,
        from,
        to,
        numbered(window, here),
        numbered(window, next),
        escaping(sensed, from),
    );
}

/// A target that falls into the window lies in the cell of the window nearest to
/// it.
proof fn lemma_target_lies_in_cell(sensed: &WalkView, window: Window, target: Point)
    requires
        window.wf(),
        !sensed.spec_in_cells(target).x.nan(),
        !sensed.spec_in_cells(target).z.nan(),
        falls_into_window(sensed, window, target),
    ensures
        ({
            let (col, row): (isize, isize) = nearest_in_window(sensed, window, target);
            &&& window.holds_cell(col as int, row as int)
            &&& lies_in(sensed.spec_in_cells(target), (col as int, row as int))
        }),
{
}

/// The last leg of a plan, to the target in the cell where the way ends, is
/// clear.
proof fn lemma_last_leg_is_clear(
    sensed: &WalkView,
    nearby: Seq<Threat>,
    position: Point,
    window: Window,
    target: Point,
    way: Seq<int>,
    cell: (usize, usize),
    demote: bool,
    start: (int, int),
)
    requires
        laid_out(sensed, window, position, start),
        !sensed.spec_in_cells(target).x.nan(),
        !sensed.spec_in_cells(target).z.nan(),
        falls_into_window(sensed, window, target),
        is_route(window_model(sensed, nearby, position, window, demote, cell), way.reverse()),
        way.len() > 0,
        way.last() == window.number(start.0, start.1),
        forall|j: int| 0 <= j < way.len() ==> 0 <= #[trigger] way[j] < window.width * window.height,
        way[0] == window.number(
            nearest_in_window(sensed, window, target).0 as int,
            nearest_in_window(sensed, window, target).1 as int,
        ),
    ensures
        ({
            let from: Point = plan_point(sensed, window, position, way, way.len() - 1);
            sensed.clear_between(from, target, escaping(sensed, from))
        }),
{
    let last: int = way.len() - 1;
    let from: Point = plan_point(sensed, window, position, way, last);
    let (tcol, trow): (isize, isize) = nearest_in_window(sensed, window, target);
    let a: (int, int) = numbered(window, way[0]);
    lemma_target_lies_in_cell(sensed, window, target);
    lemma_plan_point(sensed, nearby, position, window, way, cell, demote, start, last);
    lemma_window_number(window, tcol as int, trow as int);
    assert(a == (tcol as int, trow as int));
    assert(open_beyond(sensed, a, a));
    lemma_open_box_is_clear(sensed, from, target, a, a, escaping(sensed, from));
}

/// Every leg of a planned path is clear in the sensed view, whether string
/// pulling shortened it or not: where the middles of cells lie in their cells,
/// the raycast that guards the agent's steps finds nothing in the way of the
/// plan.
#[verifier::rlimit(30)]
pub proof fn lemma_planned_legs_are_clear(
    sensed: &WalkView,
    config: NavConfig,
    nearby: Seq<Threat>,
    position: Point,
    target: Point,
    k: int,
)
    requires
        sensed.wf(),
        fine_path(sensed, config, nearby, position, target) is Some,
        0 <= k < fine_path(sensed, config, nearby, position, target).unwrap().len() - 1,
        !sensed.spec_in_cells(position).x.nan(),
        !sensed.spec_in_cells(position).z.nan(),
        forall|c: int, r: int|
            #![trigger sensed.within(c, r)]
            sensed.within(c, r) ==> middle_in_place(sensed, c, r),
        !sensed.spec_in_cells(target).x.nan(),
        !sensed.spec_in_cells(target).z.nan(),
    ensures
        ({
            let path: Seq<Point> = fine_path(sensed, config, nearby, position, target).unwrap();
            sensed.clear_between(path[k], path[k + 1], escaping(sensed, path[k]))
        }),
{
    let path: Seq<Point> = fine_path(sensed, config, nearby, position, target).unwrap();
    let (col, row): (usize, usize) = sensed.cell_at(position).unwrap();
    let window: Window = window_around(sensed, config, col as int, row as int);
    let demote: bool = hemmed_in(sensed, nearby, position, window, col as int, row as int);
    lemma_window_around(sensed, config, col as int, row as int);
    lemma_local_plan_is_route(sensed, config, nearby, position, target);
    let (way, cell, exact): (Seq<int>, (usize, usize), Option<Point>) = choose|
        way: Seq<int>,
        cell: (usize, usize),
        exact: Option<Point>,
    | #[trigger]
        follows(
            sensed,
            nearby,
            position,
            window,
            window.number(col as int, row as int),
            path,
            target,
            way,
            cell,
            exact,
            demote,
        );
    let points: Seq<Point> = plan_points(sensed, window, position, way, exact);
    let (i, j): (int, int) = lemma_pulled_legs(sensed, nearby, position, points, 0, k);
    if j == i + 1 {
        let start: (int, int) = (col as int, row as int);
        assert(laid_out(sensed, window, position, start));
        lemma_plan_points_at(sensed, window, position, way, exact, i);
        lemma_plan_points_at(sensed, window, position, way, exact, j);
        if j < way.len() {
            lemma_step_of_plan_is_clear(
                sensed,
                nearby,
                position,
                window,
                way,
                cell,
                demote,
                start,
                i,
            );
        } else {
            lemma_last_leg_is_clear(
                sensed,
                nearby,
                position,
                window,
                target,
                way,
                cell,
                demote,
                start,
            );
        }
    } else {
        assert(!escaping(sensed, points[i]));
    }
}

} // verus!
