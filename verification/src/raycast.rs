//! The conservative raycast: which cells a segment passes, and whether all of
//! them are open.
use vstd::arithmetic::div_mod::*;
use vstd::arithmetic::power2::*;
use vstd::prelude::*;

use crate::conversion::lemma_neg_value;
use crate::geometry::{Point, INFINITY, ONE, ZERO};
use crate::number::{from_sum, nearest_double, Real, INF};
use crate::ordering::lemma_value_order;
use crate::rounding::{bit_len, lemma_nearest_monotone};
use crate::walk::{WalkView, CORNER_TOLERANCE};

verus! {

/// What stays fixed along a ray: the cell it ends in, the direction of its
/// steps, the share of the segment between two boundaries, and whether it ends
/// exactly where four cells meet.
pub struct Course {
    pub end_col: int,
    pub end_row: int,
    pub step_col: int,
    pub step_row: int,
    pub delta_col: Real,
    pub delta_row: Real,
    pub ends_on_corner: bool,
}

/// Whether a cell of the grid is blocked; what lies outside obstructs nothing
/// that stays inside.
pub open spec fn obstructs(view: &WalkView, col: int, row: int) -> bool {
    view.within(col, row) && view.blocked_at(col, row)
}

/// Whether a ray that stands in a cell goes on over open cells to its end.
///
/// `t_col` and `t_row` are the shares of the segment at which it crosses the
/// next boundary of either kind. Where they coincide the ray passes a corner,
/// and both cells beside the corner have to be open. A ray never leaves the
/// column or the row that it ends in; where it ends on a corner, neither the
/// cell beside that corner nor the one across it may be blocked. A ray that has
/// not arrived after `guard` steps is not clear.
pub open spec fn runs_clear(
    view: &WalkView,
    course: Course,
    col: int,
    row: int,
    t_col: Real,
    t_row: Real,
    guard: int,
) -> bool
    decreases guard,
{
    let next_col: int = col + course.step_col;
    let next_row: int = row + course.step_row;
    let corner: bool = t_col.sub(t_row).abs().lt(Real::of(CORNER_TOLERANCE));
    if (col == course.end_col && row == course.end_row) || guard <= 0 {
        guard > 0
    } else if col == course.end_col {
        &&& corner && course.ends_on_corner ==> {
            &&& !obstructs(view, next_col, row)
            &&& !obstructs(view, next_col, next_row)
        }
        &&& !view.blocked_at(col, next_row)
        &&& runs_clear(
            view,
            course,
            col,
            next_row,
            t_col,
            t_row.add(course.delta_row),
            guard - 1,
        )
    } else if row == course.end_row {
        &&& corner && course.ends_on_corner ==> {
            &&& !obstructs(view, col, next_row)
            &&& !obstructs(view, next_col, next_row)
        }
        &&& !view.blocked_at(next_col, row)
        &&& runs_clear(
            view,
            course,
            next_col,
            row,
            t_col.add(course.delta_col),
            t_row,
            guard - 1,
        )
    } else if corner {
        &&& !view.blocked_at(next_col, row)
        &&& !view.blocked_at(col, next_row)
        &&& !view.blocked_at(next_col, next_row)
        &&& runs_clear(
            view,
            course,
            next_col,
            next_row,
            t_col.add(course.delta_col),
            t_row.add(course.delta_row),
            guard - 1,
        )
    } else if t_col.lt(t_row) {
        &&& !view.blocked_at(next_col, row)
        &&& runs_clear(
            view,
            course,
            next_col,
            row,
            t_col.add(course.delta_col),
            t_row,
            guard - 1,
        )
    } else {
        &&& !view.blocked_at(col, next_row)
        &&& runs_clear(
            view,
            course,
            col,
            next_row,
            t_col,
            t_row.add(course.delta_row),
            guard - 1,
        )
    }
}

pub open spec fn spec_on_corner(end: Point) -> bool {
    end.x.num_eq(Real::from_int(end.x.floor_int())) && end.z.num_eq(
        Real::from_int(end.z.floor_int()),
    )
}

/// Whether a place, counted in cells, is one where four cells meet.
#[verifier::when_used_as_spec(spec_on_corner)]
fn on_corner(end: Point) -> (r: bool)
    ensures
        r == spec_on_corner(end),
{
    end.x.num_eq(Real::from_int(end.x.floor_int())) && end.z.num_eq(
        Real::from_int(end.z.floor_int()),
    )
}

pub open spec fn spec_first_crossing(start: Real, delta: Real, cell: isize) -> Real {
    if delta.num_eq(Real::of(ZERO)) {
        Real::of(INFINITY)
    } else {
        let boundary: Real = if Real::of(ZERO).lt(delta) {
            Real::from_int(cell).add(Real::of(ONE))
        } else {
            Real::from_int(cell)
        };
        boundary.sub(start).div(delta)
    }
}

/// Share of a segment at which it leaves its first column (or row) of cells.
#[verifier::when_used_as_spec(spec_first_crossing)]
pub fn first_crossing(start: Real, delta: Real, cell: isize) -> (r: Real)
    ensures
        r == spec_first_crossing(start, delta, cell),
{
    if delta.num_eq(Real::of(ZERO)) {
        Real::of(INFINITY)
    } else {
        let boundary: Real = if Real::of(ZERO).lt(delta) {
            Real::from_int(cell).add(Real::of(ONE))
        } else {
            Real::from_int(cell)
        };
        boundary.sub(start).div(delta)
    }
}

pub open spec fn spec_crossing_step(delta: Real) -> Real {
    if delta.num_eq(Real::of(ZERO)) {
        Real::of(INFINITY)
    } else {
        Real::of(ONE).div(delta).abs()
    }
}

/// Share of a segment between two boundaries of the same kind.
#[verifier::when_used_as_spec(spec_crossing_step)]
pub fn crossing_step(delta: Real) -> (r: Real)
    ensures
        r == spec_crossing_step(delta),
{
    if delta.num_eq(Real::of(ZERO)) {
        Real::of(INFINITY)
    } else {
        Real::of(ONE).div(delta).abs()
    }
}

pub open spec fn spec_towards(delta: Real) -> isize {
    if Real::of(ZERO).lt(delta) {
        1isize
    } else {
        -1isize
    }
}

/// Direction of the steps along one axis.
#[verifier::when_used_as_spec(spec_towards)]
pub fn towards(delta: Real) -> (r: isize)
    ensures
        r == spec_towards(delta),
{
    if Real::of(ZERO).lt(delta) {
        1
    } else {
        -1
    }
}

/// Distance between two integers.
pub open spec fn apart(a: int, b: int) -> int {
    if a < b {
        b - a
    } else {
        a - b
    }
}

/// The cell `step` further on, as far as it can be counted.
fn beyond(cell: isize, step: isize) -> (r: isize)
    requires
        step == 1 || step == -1,
    ensures
        isize::MIN <= cell + step <= isize::MAX ==> r == cell + step,
        cell + step > isize::MAX ==> r == isize::MAX,
        cell + step < isize::MIN ==> r == isize::MIN,
{
    if step == 1 {
        if cell == isize::MAX {
            cell
        } else {
            cell + 1
        }
    } else if cell == isize::MIN {
        cell
    } else {
        cell - 1
    }
}

impl WalkView {
    /// Coordinates of a point, counted in cells from the origin.
    pub open spec fn spec_in_cells(&self, world: Point) -> Point {
        Point {
            x: world.x.sub(self.origin.x).div(self.cell_size),
            z: world.z.sub(self.origin.z).div(self.cell_size),
        }
    }

    #[verifier::when_used_as_spec(spec_in_cells)]
    fn in_cells(&self, world: Point) -> (r: Point)
        ensures
            r == self.spec_in_cells(world),
    {
        Point {
            x: world.x.sub(self.origin.x).div(self.cell_size),
            z: world.z.sub(self.origin.z).div(self.cell_size),
        }
    }

    /// Whether the segment stays inside the grid and touches no blocked cell, as
    /// a walk along it from cell to cell finds. `ignore_start_cell` exempts the
    /// cell that `from` lies in from being open, though not from lying in the
    /// grid.
    ///
    /// No point of a clear segment lies in a blocked cell, but for a sliver
    /// ([`crate::passage::lemma_clear_segment_touches_no_blocked_cell`]), and a
    /// segment whose box of cells is open is clear ([`lemma_open_box_is_clear`]).
    pub open spec fn clear_between(&self, from: Point, to: Point, ignore_start_cell: bool) -> bool {
        let start: Point = self.spec_in_cells(from);
        let end: Point = self.spec_in_cells(to);
        let col: isize = start.x.floor_int();
        let row: isize = start.z.floor_int();
        let dx: Real = end.x.sub(start.x);
        let dz: Real = end.z.sub(start.z);
        let course: Course = Course {
            end_col: end.x.floor_int() as int,
            end_row: end.z.floor_int() as int,
            step_col: towards(dx) as int,
            step_row: towards(dz) as int,
            delta_col: crossing_step(dx),
            delta_row: crossing_step(dz),
            ends_on_corner: spec_on_corner(end),
        };
        &&& if ignore_start_cell {
            self.within(col as int, row as int)
        } else {
            !self.blocked_at(col as int, row as int)
        }
        &&& runs_clear(
            self,
            course,
            col as int,
            row as int,
            first_crossing(start.x, dx, col),
            first_crossing(start.z, dz, row),
            apart(col as int, course.end_col) + apart(row as int, course.end_row) + 4,
        )
    }

    fn holds_cell(&self, col: isize, row: isize) -> (r: bool)
        ensures
            r == self.within(col as int, row as int),
    {
        col >= 0 && row >= 0 && (col as usize) < self.width && (row as usize) < self.height
    }

    fn obstructed(&self, col: isize, row: isize) -> (r: bool)
        requires
            self.wf(),
        ensures
            r == obstructs(self, col as int, row as int),
    {
        self.holds_cell(col, row) && self.blocked(col, row)
    }

    /// Conservative supercover raycast: true when the segment stays inside the
    /// grid and never touches a blocked cell. Exact corner crossings require
    /// both adjacent cells to be open.
    pub fn segment_is_clear(&self, from: Point, to: Point) -> (r: bool)
        requires
            self.wf(),
        ensures
            r == self.clear_between(from, to, false),
    {
        self.segment_clear_from(from, to, false)
    }

    /// Like [`WalkView::segment_is_clear`], but `ignore_start_cell` exempts the
    /// cell containing `from`, which lets an agent escape a cell that a
    /// clearance dilation closed underneath it.
    pub fn segment_clear_from(&self, from: Point, to: Point, ignore_start_cell: bool) -> (r: bool)
        requires
            self.wf(),
        ensures
            r == self.clear_between(from, to, ignore_start_cell),
    {
        let start: Point = self.in_cells(from);
        let end: Point = self.in_cells(to);
        let mut col: isize = start.x.floor_int();
        let mut row: isize = start.z.floor_int();
        let end_col: isize = end.x.floor_int();
        let end_row: isize = end.z.floor_int();
        if !ignore_start_cell && self.blocked(col, row) {
            return false;
        }
        if ignore_start_cell && !self.holds_cell(col, row) {
            return false;
        }
        let dx: Real = end.x.sub(start.x);
        let dz: Real = end.z.sub(start.z);
        let step_col: isize = towards(dx);
        let step_row: isize = towards(dz);
        let mut t_col: Real = first_crossing(start.x, dx, col);
        let mut t_row: Real = first_crossing(start.z, dz, row);
        let delta_col: Real = crossing_step(dx);
        let delta_row: Real = crossing_step(dz);
        let ends_on_corner: bool = on_corner(end);
        let across: i128 = end_col as i128 - col as i128;
        let along: i128 = end_row as i128 - row as i128;
        let mut guard: i128 = (if across < 0 {
            -across
        } else {
            across
        }) + (if along < 0 {
            -along
        } else {
            along
        }) + 4;
        let ghost course: Course = Course {
            end_col: end_col as int,
            end_row: end_row as int,
            step_col: step_col as int,
            step_row: step_row as int,
            delta_col,
            delta_row,
            ends_on_corner,
        };
        let ghost verdict: bool = runs_clear(
            self,
            course,
            col as int,
            row as int,
            t_col,
            t_row,
            guard as int,
        );
        while (col != end_col || row != end_row) && guard > 0
            invariant
                self.wf(),
                step_col == 1 || step_col == -1,
                step_row == 1 || step_row == -1,
                col >= 0,
                row >= 0,
                guard >= 0,
                course == (Course {
                    end_col: end_col as int,
                    end_row: end_row as int,
                    step_col: step_col as int,
                    step_row: step_row as int,
                    delta_col,
                    delta_row,
                    ends_on_corner,
                }),
                verdict == self.clear_between(from, to, ignore_start_cell),
                verdict == runs_clear(
                    self,
                    course,
                    col as int,
                    row as int,
                    t_col,
                    t_row,
                    guard as int,
                ),
            decreases guard,
        {
            guard = guard - 1;
            let corner: bool = t_col.sub(t_row).abs().lt(Real::of(CORNER_TOLERANCE));
            let next_col: isize = beyond(col, step_col);
            let next_row: isize = beyond(row, step_row);
            if col == end_col {
                if corner && ends_on_corner && (self.obstructed(next_col, row)
                    || self.obstructed(next_col, next_row)) {
                    return false;
                }
                row = next_row;
                t_row = t_row.add(delta_row);
            } else if row == end_row {
                if corner && ends_on_corner && (self.obstructed(col, next_row)
                    || self.obstructed(next_col, next_row)) {
                    return false;
                }
                col = next_col;
                t_col = t_col.add(delta_col);
            } else if corner {
                if self.blocked(next_col, row) || self.blocked(col, next_row) {
                    return false;
                }
                col = next_col;
                row = next_row;
                t_col = t_col.add(delta_col);
                t_row = t_row.add(delta_row);
            } else if t_col.lt(t_row) {
                col = next_col;
                t_col = t_col.add(delta_col);
            } else {
                row = next_row;
                t_row = t_row.add(delta_row);
            }
            if self.blocked(col, row) {
                return false;
            }
        }
        guard > 0
    }
}

/// Whether one step of a ray leads from `a` to `b`: to a neighbouring cell and,
/// past a corner, only where both cells beside it are open.
pub open spec fn passes(view: &WalkView, a: (int, int), b: (int, int)) -> bool {
    &&& apart(a.0, b.0) <= 1
    &&& apart(a.1, b.1) <= 1
    &&& !view.blocked_at(b.0, b.1)
    &&& a.0 != b.0 && a.1 != b.1 ==> !view.blocked_at(b.0, a.1) && !view.blocked_at(a.0, b.1)
}

/// Whether `trail` leads over open cells, without cutting a corner, from the
/// cell `a` to the cell `b`.
pub open spec fn is_trail(view: &WalkView, trail: Seq<(int, int)>, a: (int, int), b: (int, int)) -> bool {
    &&& trail.len() > 0
    &&& trail[0] == a
    &&& trail.last() == b
    &&& forall|i: int| 0 <= i < trail.len() - 1 ==> passes(view, #[trigger] trail[i], trail[i + 1])
}

/// A ray that runs clear leaves a trail of open cells.
proof fn lemma_runs_clear_trail(
    view: &WalkView,
    course: Course,
    col: int,
    row: int,
    t_col: Real,
    t_row: Real,
    guard: int,
)
    requires
        runs_clear(view, course, col, row, t_col, t_row, guard),
        course.step_col == 1 || course.step_col == -1,
        course.step_row == 1 || course.step_row == -1,
    ensures
        exists|trail: Seq<(int, int)>| #[trigger]
            is_trail(view, trail, (col, row), (course.end_col, course.end_row)),
    decreases guard,
{
    let end: (int, int) = (course.end_col, course.end_row);
    if col == course.end_col && row == course.end_row {
        assert(is_trail(view, seq![(col, row)], (col, row), end));
    } else {
        let next_col: int = col + course.step_col;
        let next_row: int = row + course.step_row;
        let later_col: Real = t_col.add(course.delta_col);
        let later_row: Real = t_row.add(course.delta_row);
        let corner: bool = t_col.sub(t_row).abs().lt(Real::of(CORNER_TOLERANCE));
        let next: (int, int) = if col == course.end_col {
            (col, next_row)
        } else if row == course.end_row {
            (next_col, row)
        } else if corner {
            (next_col, next_row)
        } else if t_col.lt(t_row) {
            (next_col, row)
        } else {
            (col, next_row)
        };
        lemma_runs_clear_trail(
            view,
            course,
            next.0,
            next.1,
            if next.0 == col {
                t_col
            } else {
                later_col
            },
            if next.1 == row {
                t_row
            } else {
                later_row
            },
            guard - 1,
        );
        let rest: Seq<(int, int)> = choose|trail: Seq<(int, int)>| #[trigger]
            is_trail(view, trail, next, end);
        let trail: Seq<(int, int)> = seq![(col, row)] + rest;
        assert forall|i: int| 0 <= i < trail.len() - 1 implies passes(
            view,
            #[trigger] trail[i],
            trail[i + 1],
        ) by {
            if i > 0 {
                assert(trail[i] == rest[i - 1]);
                assert(trail[i + 1] == rest[i]);
            }
        }
        assert(is_trail(view, trail, (col, row), end));
    }
}

/// The cells of a clear segment's first and last point are open, and a trail of
/// open cells that cuts no corner joins them.
pub proof fn lemma_clear_segment_is_a_walk(view: &WalkView, from: Point, to: Point)
    requires
        view.clear_between(from, to, false),
    ensures
        ({
            let a: Point = view.spec_in_cells(from);
            let b: Point = view.spec_in_cells(to);
            let first: (int, int) = (a.x.floor_int() as int, a.z.floor_int() as int);
            let last: (int, int) = (b.x.floor_int() as int, b.z.floor_int() as int);
            &&& !view.blocked_at(first.0, first.1)
            &&& !view.blocked_at(last.0, last.1)
            &&& exists|trail: Seq<(int, int)>| #[trigger] is_trail(view, trail, first, last)
        }),
{
    let a: Point = view.spec_in_cells(from);
    let b: Point = view.spec_in_cells(to);
    let first: (int, int) = (a.x.floor_int() as int, a.z.floor_int() as int);
    let last: (int, int) = (b.x.floor_int() as int, b.z.floor_int() as int);
    let dx: Real = b.x.sub(a.x);
    let dz: Real = b.z.sub(a.z);
    let course: Course = Course {
        end_col: last.0,
        end_row: last.1,
        step_col: towards(dx) as int,
        step_row: towards(dz) as int,
        delta_col: crossing_step(dx),
        delta_row: crossing_step(dz),
        ends_on_corner: spec_on_corner(b),
    };
    lemma_runs_clear_trail(
        view,
        course,
        first.0,
        first.1,
        first_crossing(a.x, dx, a.x.floor_int()),
        first_crossing(a.z, dz, a.z.floor_int()),
        apart(first.0, last.0) + apart(first.1, last.1) + 4,
    );
    let trail: Seq<(int, int)> = choose|trail: Seq<(int, int)>| #[trigger]
        is_trail(view, trail, first, last);
    if trail.len() > 1 {
        assert(passes(view, trail[trail.len() - 2], trail[trail.len() - 2 + 1]));
    }
}

/// A coordinate in an earlier cell is smaller.
proof fn lemma_earlier_cell(a: Real, b: Real)
    requires
        !a.nan(),
        !b.nan(),
        a.floor_int() < b.floor_int(),
    ensures
        a.rank() < b.rank(),
{
    if b.rank() <= a.rank() && a.finite() && b.finite() {
        lemma_value_order(b, a);
        lemma_pow2_pos(1074);
        lemma_div_is_ordered(b.value(), a.value(), pow2(1074) as int);
    }
}

/// What is positive rounds to something positive.
pub proof fn lemma_positive_sum(total: int)
    requires
        total > 0,
    ensures
        from_sum(total, false).rank() > 0,
        !from_sum(total, false).nan(),
{
    lemma2_to64();
    assert(bit_len(1) == 1) by {
        assert(bit_len(0) == 0);
        assert(bit_len(1) == 1 + bit_len(0));
    }
    assert(nearest_double(1, -1074) == 1) by {
        assert(1nat * pow2(0) == 1);
    }
    lemma_nearest_monotone(1, total as nat, -1074, 53, -1074, INF as nat);
}

/// Steps lead towards the cell that a ray ends in.
proof fn lemma_towards_end(a: Real, b: Real)
    requires
        !a.nan(),
        !b.nan(),
    ensures
        a.floor_int() < b.floor_int() ==> towards(b.sub(a)) == 1,
        b.floor_int() < a.floor_int() ==> towards(b.sub(a)) == -1,
{
    reveal(Real::spec_add);
    lemma_neg_value(a);
    if a.floor_int() < b.floor_int() {
        lemma_earlier_cell(a, b);
        if a.finite() && b.finite() {
            lemma_value_order(b, a);
            lemma_positive_sum(b.value() - a.value());
        }
    }
    if b.floor_int() < a.floor_int() {
        lemma_earlier_cell(b, a);
        if a.finite() && b.finite() {
            lemma_value_order(a, b);
        }
    }
}

/// Whether every cell of the box between two cells is open, whatever the first
/// of the two is.
pub open spec fn open_beyond(view: &WalkView, a: (int, int), b: (int, int)) -> bool {
    forall|c: int, r: int|
        (a.0 <= c <= b.0 || b.0 <= c <= a.0) && (a.1 <= r <= b.1 || b.1 <= r <= a.1) && (c, r) != a
            ==> !#[trigger] view.blocked_at(c, r)
}

/// Whether no cell of the grid is blocked.
pub open spec fn open_everywhere(view: &WalkView) -> bool {
    forall|c: int, r: int| #[trigger] view.within(c, r) ==> !view.blocked_at(c, r)
}

proof fn lemma_runs_through_box(
    view: &WalkView,
    course: Course,
    col: int,
    row: int,
    t_col: Real,
    t_row: Real,
    guard: int,
)
    requires
        open_beyond(view, (col, row), (course.end_col, course.end_row)),
        !course.ends_on_corner || open_everywhere(view) || (col == course.end_col && row
            == course.end_row),
        col < course.end_col ==> course.step_col == 1,
        col > course.end_col ==> course.step_col == -1,
        row < course.end_row ==> course.step_row == 1,
        row > course.end_row ==> course.step_row == -1,
        guard > apart(col, course.end_col) + apart(row, course.end_row),
    ensures
        runs_clear(view, course, col, row, t_col, t_row, guard),
    decreases guard,
{
    let next_col: int = col + course.step_col;
    let next_row: int = row + course.step_row;
    let later_col: Real = t_col.add(course.delta_col);
    let later_row: Real = t_row.add(course.delta_row);
    let corner: bool = t_col.sub(t_row).abs().lt(Real::of(CORNER_TOLERANCE));
    if col == course.end_col && row == course.end_row {
    } else if col == course.end_col {
        assert(!view.blocked_at(col, next_row));
        lemma_runs_through_box(view, course, col, next_row, t_col, later_row, guard - 1);
    } else if row == course.end_row {
        assert(!view.blocked_at(next_col, row));
        lemma_runs_through_box(view, course, next_col, row, later_col, t_row, guard - 1);
    } else if corner {
        assert(!view.blocked_at(next_col, row));
        assert(!view.blocked_at(col, next_row));
        assert(!view.blocked_at(next_col, next_row));
        lemma_runs_through_box(
            view,
            course,
            next_col,
            next_row,
            later_col,
            later_row,
            guard - 1,
        );
    } else if t_col.lt(t_row) {
        assert(!view.blocked_at(next_col, row));
        lemma_runs_through_box(view, course, next_col, row, later_col, t_row, guard - 1);
    } else {
        assert(!view.blocked_at(col, next_row));
        lemma_runs_through_box(view, course, col, next_row, t_col, later_row, guard - 1);
    }
}

/// Whether a place, counted in cells, lies in the given cell.
pub open spec fn lies_in(place: Point, cell: (int, int)) -> bool {
    &&& !place.x.nan()
    &&& !place.z.nan()
    &&& place.x.floor_int() == cell.0
    &&& place.z.floor_int() == cell.1
}

/// A segment through open cells only is clear: where every cell of the box
/// between its ends is open, the one that it starts in unless that is exempt,
/// and it does not leave that cell, does not end on a corner, or no cell at all
/// is blocked.
pub proof fn lemma_open_box_is_clear(
    view: &WalkView,
    from: Point,
    to: Point,
    a: (int, int),
    b: (int, int),
    ignore_start_cell: bool,
)
    requires
        lies_in(view.spec_in_cells(from), a),
        lies_in(view.spec_in_cells(to), b),
        view.within(a.0, a.1),
        ignore_start_cell || !view.blocked_at(a.0, a.1),
        open_beyond(view, a, b),
        a == b || !spec_on_corner(view.spec_in_cells(to)) || open_everywhere(view),
    ensures
        view.clear_between(from, to, ignore_start_cell),
{
    let start: Point = view.spec_in_cells(from);
    let end: Point = view.spec_in_cells(to);
    let dx: Real = end.x.sub(start.x);
    let dz: Real = end.z.sub(start.z);
    lemma_towards_end(start.x, end.x);
    lemma_towards_end(start.z, end.z);
    let course: Course = Course {
        end_col: b.0,
        end_row: b.1,
        step_col: towards(dx) as int,
        step_row: towards(dz) as int,
        delta_col: crossing_step(dx),
        delta_row: crossing_step(dz),
        ends_on_corner: spec_on_corner(end),
    };
    lemma_runs_through_box(
        view,
        course,
        a.0,
        a.1,
        first_crossing(start.x, dx, start.x.floor_int()),
        first_crossing(start.z, dz, start.z.floor_int()),
        apart(a.0, b.0) + apart(a.1, b.1) + 4,
    );
}

/// Without blocked cells every segment between two points of the grid is clear.
pub proof fn lemma_open_view_is_clear(
    view: &WalkView,
    from: Point,
    to: Point,
    a: (int, int),
    b: (int, int),
)
    requires
        open_everywhere(view),
        view.within(a.0, a.1),
        view.within(b.0, b.1),
        lies_in(view.spec_in_cells(from), a),
        lies_in(view.spec_in_cells(to), b),
    ensures
        view.clear_between(from, to, false),
        view.clear_between(from, to, true),
{
    assert forall|c: int, r: int|
        (a.0 <= c <= b.0 || b.0 <= c <= a.0) && (a.1 <= r <= b.1 || b.1 <= r <= a.1) && (c, r)
            != a implies !#[trigger] view.blocked_at(c, r) by {
        assert(view.within(c, r));
    }
    lemma_open_box_is_clear(view, from, to, a, b, false);
    lemma_open_box_is_clear(view, from, to, a, b, true);
}

/// What is validated cell by cell is also validated here: a segment from one
/// cell to the next is clear where it cuts no corner and does not end on one.
pub proof fn lemma_cell_step_is_clear(
    view: &WalkView,
    from: Point,
    to: Point,
    a: (int, int),
    b: (int, int),
    ignore_start_cell: bool,
)
    requires
        lies_in(view.spec_in_cells(from), a),
        lies_in(view.spec_in_cells(to), b),
        !spec_on_corner(view.spec_in_cells(to)),
        view.within(a.0, a.1),
        ignore_start_cell || !view.blocked_at(a.0, a.1),
        passes(view, a, b),
    ensures
        view.clear_between(from, to, ignore_start_cell),
{
    lemma_open_box_is_clear(view, from, to, a, b, ignore_start_cell);
}

proof fn lemma_runs_clear_end(
    view: &WalkView,
    course: Course,
    col: int,
    row: int,
    t_col: Real,
    t_row: Real,
    guard: int,
)
    requires
        runs_clear(view, course, col, row, t_col, t_row, guard),
    ensures
        (col == course.end_col && row == course.end_row) || !view.blocked_at(
            course.end_col,
            course.end_row,
        ),
    decreases guard,
{
    if (col != course.end_col || row != course.end_row) && guard > 0 {
        let next_col: int = col + course.step_col;
        let next_row: int = row + course.step_row;
        let later_col: Real = t_col.add(course.delta_col);
        let later_row: Real = t_row.add(course.delta_row);
        let corner: bool = t_col.sub(t_row).abs().lt(Real::of(CORNER_TOLERANCE));
        if col == course.end_col || (row != course.end_row && !corner && !t_col.lt(t_row)) {
            lemma_runs_clear_end(view, course, col, next_row, t_col, later_row, guard - 1);
        } else if row == course.end_row || !corner {
            lemma_runs_clear_end(view, course, next_col, row, later_col, t_row, guard - 1);
        } else {
            lemma_runs_clear_end(
                view,
                course,
                next_col,
                next_row,
                later_col,
                later_row,
                guard - 1,
            );
        }
    }
}

/// A clear segment ends in an open cell, or in the cell that it starts in.
pub proof fn lemma_clear_segment_ends_in_the_open(
    view: &WalkView,
    from: Point,
    to: Point,
    ignore_start_cell: bool,
)
    requires
        view.clear_between(from, to, ignore_start_cell),
    ensures
        ({
            let a: Point = view.spec_in_cells(from);
            let b: Point = view.spec_in_cells(to);
            ||| a.x.floor_int() == b.x.floor_int() && a.z.floor_int() == b.z.floor_int()
            ||| !view.blocked_at(b.x.floor_int() as int, b.z.floor_int() as int)
        }),
{
    let start: Point = view.spec_in_cells(from);
    let end: Point = view.spec_in_cells(to);
    let dx: Real = end.x.sub(start.x);
    let dz: Real = end.z.sub(start.z);
    let col: isize = start.x.floor_int();
    let row: isize = start.z.floor_int();
    let end_col: isize = end.x.floor_int();
    let end_row: isize = end.z.floor_int();
    let course: Course = Course {
        end_col: end_col as int,
        end_row: end_row as int,
        step_col: towards(dx) as int,
        step_row: towards(dz) as int,
        delta_col: crossing_step(dx),
        delta_row: crossing_step(dz),
        ends_on_corner: spec_on_corner(end),
    };
    lemma_runs_clear_end(
        view,
        course,
        col as int,
        row as int,
        first_crossing(start.x, dx, col),
        first_crossing(start.z, dz, row),
        apart(col as int, end_col as int) + apart(row as int, end_row as int) + 4,
    );
}

/// A segment that starts outside the grid is not clear, whatever is exempt.
pub proof fn lemma_clear_segment_starts_inside(
    view: &WalkView,
    from: Point,
    to: Point,
    ignore_start_cell: bool,
)
    requires
        view.clear_between(from, to, ignore_start_cell),
    ensures
        view.within(
            view.spec_in_cells(from).x.floor_int() as int,
            view.spec_in_cells(from).z.floor_int() as int,
        ),
{
}

} // verus!
