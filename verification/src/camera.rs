//! The camera over a scene: where things stand on the screen, and which cells
//! are in view.
use vstd::prelude::*;

use crate::geometry::{cell_coordinate, clamp_index, Point, ONE, ZERO};
use crate::number::Real;
use crate::scene::{has_category, Entity, NavGrid};
use crate::text::same_text;
use crate::workbench::middle_of;

verus! {

/// Share of the screen that a fitted scene takes: `0.94`.
pub const FIT_SHARE: u64 = 0x3fee_147a_e000_0000;

/// Least zoom of a fitted scene: `0.08`.
pub const FIT_LEAST: u64 = 0x3fb4_7ae1_4000_0000;

/// Greatest zoom of a fitted scene: `80`.
pub const FIT_GREATEST: u64 = 0x4054_0000_0000_0000;

/// Least zoom: `0.04`.
pub const ZOOM_LEAST: u64 = 0x3fa4_7ae1_4000_0000;

/// Greatest zoom: `100`.
pub const ZOOM_GREATEST: u64 = 0x4059_0000_0000_0000;

/// Zoom from which entities are labelled: `0.45`.
pub const LABEL_ZOOM: u64 = 0x3fdc_cccc_c000_0000;

/// Zoom from which synthetic entities are labelled: `4`.
pub const SYNTHETIC_LABEL_ZOOM: u64 = 0x4010_0000_0000_0000;

/// Distance on the screen that coordinate lines aim at: `72`.
pub const LINE_SPACING: u64 = 0x4052_0000_0000_0000;

/// Least zoom that counts for coordinate lines: `0.001`.
pub const LINE_ZOOM_LEAST: u64 = 0x3f50_624d_e000_0000;

/// Steps between coordinate lines, in units of a power of ten.
pub const TWO: u64 = 0x4000_0000_0000_0000;

pub const FIVE: u64 = 0x4014_0000_0000_0000;

pub const TEN: u64 = 0x4024_0000_0000_0000;

/// Most coordinate lines across the screen, but for the first.
pub const MOST_LINES: usize = 256;

impl Real {
    pub open spec fn spec_rounded_down(self) -> Real {
        let whole: isize = self.floor_int();
        if !self.is_finite() || self.num_eq(Real::of(ZERO)) || whole == isize::MIN || whole
            == isize::MAX {
            self
        } else {
            Real::from_int(whole)
        }
    }

    /// The number rounded down; one beyond the machine integers stays as it is.
    #[verifier::when_used_as_spec(spec_rounded_down)]
    pub fn rounded_down(self) -> (r: Real)
        ensures
            r == self.spec_rounded_down(),
    {
        let whole: isize = self.floor_int();
        if !self.is_finite() || self.num_eq(Real::of(ZERO)) || whole == isize::MIN || whole
            == isize::MAX {
            self
        } else {
            Real::from_int(whole)
        }
    }
}

/// A place on the screen; `y` grows downwards.
#[derive(Clone, Copy, PartialEq, Eq, Structural, Debug)]
pub struct Spot {
    pub x: Real,
    pub y: Real,
}

/// What part of the world is on the screen: the point in its middle, and how
/// many pixels a unit takes.
#[derive(Clone, Copy, PartialEq, Eq, Structural, Debug)]
pub struct Camera {
    pub center: Point,
    pub zoom: Real,
}

impl Camera {
    pub open spec fn spec_to_screen(self, world: Point, middle: Spot) -> Spot {
        Spot {
            x: middle.x.single_sum(
                world.x.sub(self.center.x).to_single().single_product(self.zoom),
            ),
            y: middle.y.single_difference(
                world.z.sub(self.center.z).to_single().single_product(self.zoom),
            ),
        }
    }

    /// Where a point of the world is on the screen.
    #[verifier::when_used_as_spec(spec_to_screen)]
    pub fn to_screen(self, world: Point, middle: Spot) -> (r: Spot)
        ensures
            r == self.spec_to_screen(world, middle),
    {
        Spot {
            x: middle.x.single_sum(
                world.x.sub(self.center.x).to_single().single_product(self.zoom),
            ),
            y: middle.y.single_difference(
                world.z.sub(self.center.z).to_single().single_product(self.zoom),
            ),
        }
    }

    pub open spec fn spec_to_world(self, screen: Spot, middle: Spot) -> Point {
        Point {
            x: self.center.x.add(screen.x.single_difference(middle.x).single_quotient(self.zoom)),
            z: self.center.z.sub(screen.y.single_difference(middle.y).single_quotient(self.zoom)),
        }
    }

    /// The point of the world at a place on the screen.
    #[verifier::when_used_as_spec(spec_to_world)]
    pub fn to_world(self, screen: Spot, middle: Spot) -> (r: Point)
        ensures
            r == self.spec_to_world(screen, middle),
    {
        Point {
            x: self.center.x.add(screen.x.single_difference(middle.x).single_quotient(self.zoom)),
            z: self.center.z.sub(screen.y.single_difference(middle.y).single_quotient(self.zoom)),
        }
    }

    pub open spec fn spec_fitted(grid: &NavGrid, width: Real, height: Real) -> Camera {
        let (low, high): (Point, Point) = grid.bounds();
        let across: Real = high.x.sub(low.x).max(Real::of(ONE)).to_single();
        let along: Real = high.z.sub(low.z).max(Real::of(ONE)).to_single();
        Camera {
            center: middle_of(grid),
            zoom: width.single_quotient(across).min(height.single_quotient(along)).mul(
                Real::of(FIT_SHARE),
            ).add(Real::of(ZERO)).to_single().clamp(Real::of(FIT_LEAST), Real::of(FIT_GREATEST)),
        }
    }

    /// The camera that shows a whole grid on a screen of some size.
    #[verifier::when_used_as_spec(spec_fitted)]
    pub fn fitted(grid: &NavGrid, width: Real, height: Real) -> (r: Camera)
        ensures
            r == Camera::spec_fitted(grid, width, height),
    {
        let (low, high): (Point, Point) = grid.bounds();
        let across: Real = high.x.sub(low.x).max(Real::of(ONE)).to_single();
        let along: Real = high.z.sub(low.z).max(Real::of(ONE)).to_single();
        Camera {
            center: middle_of(grid),
            zoom: width.single_quotient(across).min(height.single_quotient(along)).mul(
                Real::of(FIT_SHARE),
            ).add(Real::of(ZERO)).to_single().clamp(Real::of(FIT_LEAST), Real::of(FIT_GREATEST)),
        }
    }

    pub open spec fn spec_zoomed(
        self,
        factor: Real,
        pointer: Option<Spot>,
        middle: Spot,
    ) -> Camera {
        let zoom: Real = self.zoom.single_product(factor).clamp(
            Real::of(ZOOM_LEAST),
            Real::of(ZOOM_GREATEST),
        );
        match pointer {
            Some(pointer) => {
                let before: Point = self.to_world(pointer, middle);
                let after: Point = Camera { zoom, ..self }.to_world(pointer, middle);
                Camera {
                    center: Point {
                        x: self.center.x.add(before.x.sub(after.x)),
                        z: self.center.z.add(before.z.sub(after.z)),
                    },
                    zoom,
                }
            },
            None => Camera { zoom, ..self },
        }
    }

    /// Zooms by a factor and keeps what is under the pointer there.
    #[verifier::when_used_as_spec(spec_zoomed)]
    pub fn zoomed(self, factor: Real, pointer: Option<Spot>, middle: Spot) -> (r: Camera)
        ensures
            r == self.spec_zoomed(factor, pointer, middle),
    {
        let zoom: Real = self.zoom.single_product(factor).clamp(
            Real::of(ZOOM_LEAST),
            Real::of(ZOOM_GREATEST),
        );
        match pointer {
            Some(pointer) => {
                let before: Point = self.to_world(pointer, middle);
                let closer: Camera = Camera { zoom, ..self };
                let after: Point = closer.to_world(pointer, middle);
                Camera {
                    center: Point {
                        x: self.center.x.add(before.x.sub(after.x)),
                        z: self.center.z.add(before.z.sub(after.z)),
                    },
                    zoom,
                }
            },
            None => Camera { zoom, ..self },
        }
    }

    pub open spec fn spec_dragged(self, across: Real, down: Real) -> Camera {
        Camera {
            center: Point {
                x: self.center.x.sub(across.single_quotient(self.zoom)),
                z: self.center.z.add(down.single_quotient(self.zoom)),
            },
            zoom: self.zoom,
        }
    }

    /// Moves along with the pointer.
    #[verifier::when_used_as_spec(spec_dragged)]
    pub fn dragged(self, across: Real, down: Real) -> (r: Camera)
        ensures
            r == self.spec_dragged(across, down),
    {
        Camera {
            center: Point {
                x: self.center.x.sub(across.single_quotient(self.zoom)),
                z: self.center.z.add(down.single_quotient(self.zoom)),
            },
            zoom: self.zoom,
        }
    }

    pub open spec fn spec_labels(self, entity: &Entity) -> bool {
        let from: u64 = if entity.attributes@.dom().contains("synthetic"@)
            && entity.attributes@["synthetic"@] == "true"@ {
            SYNTHETIC_LABEL_ZOOM
        } else {
            LABEL_ZOOM
        };
        Real::of(from).le(self.zoom)
    }

    /// Whether an entity is labelled at this zoom.
    #[verifier::when_used_as_spec(spec_labels)]
    pub fn labels(self, entity: &Entity) -> (r: bool)
        ensures
            r == self.spec_labels(entity),
    {
        let synthetic: bool = match entity.attributes.get("synthetic") {
            Some(value) => same_text(value, "true"),
            None => false,
        };
        let from: u64 = if synthetic {
            SYNTHETIC_LABEL_ZOOM
        } else {
            LABEL_ZOOM
        };
        Real::of(from).le(self.zoom)
    }

    pub open spec fn spec_line_target(self) -> Real {
        Real::of(LINE_SPACING).single_quotient(self.zoom.max(Real::of(LINE_ZOOM_LEAST)))
    }

    /// Distance in the world that coordinate lines aim at.
    #[verifier::when_used_as_spec(spec_line_target)]
    pub fn line_target(self) -> (r: Real)
        ensures
            r == self.spec_line_target(),
    {
        Real::of(LINE_SPACING).single_quotient(self.zoom.max(Real::of(LINE_ZOOM_LEAST)))
    }
}

pub open spec fn spec_line_step(target: Real, base: Real) -> Real {
    let scaled: Real = target.single_quotient(base);
    base.single_product(
        Real::of(
            if scaled.le(Real::of(TWO)) {
                TWO
            } else if scaled.le(Real::of(FIVE)) {
                FIVE
            } else {
                TEN
            },
        ),
    )
}

/// Distance between coordinate lines: two, five or ten times a power of ten.
#[verifier::when_used_as_spec(spec_line_step)]
pub fn line_step(target: Real, base: Real) -> (r: Real)
    ensures
        r == spec_line_step(target, base),
{
    let scaled: Real = target.single_quotient(base);
    let times: u64 = if scaled.le(Real::of(TWO)) {
        TWO
    } else if scaled.le(Real::of(FIVE)) {
        FIVE
    } else {
        TEN
    };
    base.single_product(Real::of(times))
}

pub open spec fn spec_first_line(from: Real, step: Real) -> Real {
    from.div(step).rounded_down().mul(step)
}

/// The last coordinate line that is not past a coordinate.
#[verifier::when_used_as_spec(spec_first_line)]
pub fn first_line(from: Real, step: Real) -> (r: Real)
    ensures
        r == spec_first_line(from, step),
{
    from.div(step).rounded_down().mul(step)
}

pub open spec fn spec_line_count(first: Real, to: Real, step: Real) -> usize {
    clamp_index(to.sub(first).div(step).ceil_int(), 0, MOST_LINES as isize) as usize
}

/// How many coordinate lines follow the first one up to a coordinate.
#[verifier::when_used_as_spec(spec_line_count)]
pub fn line_count(first: Real, to: Real, step: Real) -> (r: usize)
    ensures
        r == spec_line_count(first, to, step),
        r <= MOST_LINES,
{
    clamp_index(to.sub(first).div(step).ceil_int(), 0, MOST_LINES as isize) as usize
}

/// Whether an entity is drawn.
pub open spec fn drawn(entity: &Entity, resources: bool, actors: bool) -> bool {
    &&& entity.category@ == "resource"@ ==> resources
    &&& entity.category@ == "actor"@ ==> actors
}

/// Whether an entity is drawn.
pub fn is_drawn(entity: &Entity, resources: bool, actors: bool) -> (r: bool)
    ensures
        r == drawn(entity, resources, actors),
{
    if has_category(entity, "resource") && !resources {
        return false;
    }
    !has_category(entity, "actor") || actors
}

/// A block of cells, both ends included.
#[derive(Clone, Copy, PartialEq, Eq, Structural, Debug)]
pub struct CellRange {
    pub min_col: usize,
    pub max_col: usize,
    pub min_row: usize,
    pub max_row: usize,
}

/// The cells of a grid between two corners; the cells of its border where a
/// corner is beyond it.
pub open spec fn cells_between(grid: &NavGrid, lower: Point, upper: Point) -> CellRange {
    let last_col: isize = (grid.width - 1) as isize;
    let last_row: isize = (grid.height - 1) as isize;
    CellRange {
        min_col: clamp_index(
            cell_coordinate(lower.x, grid.origin.x, grid.cell_size),
            0,
            last_col,
        ) as usize,
        max_col: clamp_index(
            upper.x.sub(grid.origin.x).div(grid.cell_size).ceil_int(),
            0,
            last_col,
        ) as usize,
        min_row: clamp_index(
            cell_coordinate(lower.z, grid.origin.z, grid.cell_size),
            0,
            last_row,
        ) as usize,
        max_row: clamp_index(
            upper.z.sub(grid.origin.z).div(grid.cell_size).ceil_int(),
            0,
            last_row,
        ) as usize,
    }
}

/// The cells of a grid that are in view between two corners.
pub fn visible_cells(grid: &NavGrid, lower: Point, upper: Point) -> (r: CellRange)
    requires
        0 < grid.width <= isize::MAX,
        0 < grid.height <= isize::MAX,
    ensures
        r == cells_between(grid, lower, upper),
        r.min_col < grid.width,
        r.max_col < grid.width,
        r.min_row < grid.height,
        r.max_row < grid.height,
{
    let last_col: isize = (grid.width - 1) as isize;
    let last_row: isize = (grid.height - 1) as isize;
    let min_col: isize = cell_coordinate(lower.x, grid.origin.x, grid.cell_size);
    let max_col: isize = upper.x.sub(grid.origin.x).div(grid.cell_size).ceil_int();
    let min_row: isize = cell_coordinate(lower.z, grid.origin.z, grid.cell_size);
    let max_row: isize = upper.z.sub(grid.origin.z).div(grid.cell_size).ceil_int();
    CellRange {
        min_col: clamp_index(min_col, 0, last_col) as usize,
        max_col: clamp_index(max_col, 0, last_col) as usize,
        min_row: clamp_index(min_row, 0, last_row) as usize,
        max_row: clamp_index(max_row, 0, last_row) as usize,
    }
}

/// A stretch of cells along a row, the end excluded.
#[derive(Clone, Copy, PartialEq, Eq, Structural, Debug)]
pub struct Run {
    pub start: usize,
    pub past: usize,
}

/// Whether a stretch is blocked throughout and cannot be made longer between
/// two columns, both included.
pub open spec fn is_run(blocked: Seq<bool>, first: int, last: int, run: Run) -> bool {
    &&& first <= run.start < run.past <= last + 1
    &&& forall|i: int| run.start <= i < run.past ==> #[trigger] blocked[i]
    &&& run.start == first || !blocked[run.start - 1]
    &&& run.past == last + 1 || !blocked[run.past as int]
}

/// A row of a grid: which of its cells are blocked.
pub open spec fn row_of(grid: &NavGrid, row: int) -> Seq<bool> {
    Seq::new(grid.width as nat, |col: int| grid.blocked@[row * grid.width + col] != 0)
}

/// The longest blocked stretches of a row between two columns, both included,
/// from left to right.
pub fn blocked_runs(grid: &NavGrid, row: usize, first: usize, last: usize) -> (r: Vec<Run>)
    requires
        row < grid.height,
        last < grid.width,
        grid.blocked@.len() == grid.width * grid.height,
    ensures
        forall|k: int|
            0 <= k < r@.len() ==> is_run(
                row_of(grid, row as int),
                first as int,
                last as int,
                #[trigger] r@[k],
            ),
        forall|j: int, k: int| 0 <= j < k < r@.len() ==> r@[j].past < r@[k].start,
        forall|i: int|
            first <= i <= last && #[trigger] row_of(grid, row as int)[i] ==> exists|k: int|
                0 <= k < r@.len() && (#[trigger] r@[k]).start <= i < r@[k].past,
{
    let ghost cells: Seq<bool> = row_of(grid, row as int);
    let size: usize = grid.blocked.len();
    let mut runs: Vec<Run> = Vec::new();
    let mut start: usize = first;
    let mut col: usize = first;
    // The cells from `start` to `col` are a run that may go on.
    while col <= last
        invariant
            row < grid.height,
            last < grid.width,
            grid.blocked@.len() == grid.width * grid.height,
            size == grid.blocked@.len(),
            cells == row_of(grid, row as int),
            first <= start <= col,
            col <= last + 1 || col == first,
            forall|i: int| start <= i < col ==> #[trigger] cells[i],
            start == first || !cells[start - 1],
            forall|k: int|
                0 <= k < runs@.len() ==> is_run(
                    cells,
                    first as int,
                    last as int,
                    #[trigger] runs@[k],
                ) && runs@[k].past < start,
            forall|j: int, k: int| 0 <= j < k < runs@.len() ==> runs@[j].past < runs@[k].start,
            forall|i: int|
                first <= i < start && #[trigger] cells[i] ==> exists|k: int|
                    0 <= k < runs@.len() && (#[trigger] runs@[k]).start <= i < runs@[k].past,
        decreases last + 1 - col,
    {
        proof {
            assert(row * grid.width + grid.width <= grid.width * grid.height)
                by (nonlinear_arith)
                requires
                    row < grid.height,
            ;
        }
        let open: bool = grid.blocked[row * grid.width + col] == 0;
        assert(cells[col as int] == !open);
        if open {
            if start < col {
                let ghost before: Seq<Run> = runs@;
                runs.push(Run { start, past: col });
                proof {
                    assert(is_run(cells, first as int, last as int, runs@[before.len() as int]));
                    assert forall|i: int| first <= i < col + 1 && #[trigger] cells[i] implies exists|
                        k: int,
                    |
                        0 <= k < runs@.len() && (#[trigger] runs@[k]).start <= i < runs@[k].past by {
                        if i < start {
                            let k: int = choose|k: int|
                                0 <= k < before.len() && (#[trigger] before[k]).start <= i
                                    < before[k].past;
                            assert(runs@[k] == before[k]);
                        } else {
                            assert(runs@[before.len() as int].start <= i);
                        }
                    }
                }
            }
            start = col + 1;
        }
        col = col + 1;
    }
    if start < col {
        let ghost before: Seq<Run> = runs@;
        runs.push(Run { start, past: col });
        proof {
            assert forall|i: int| first <= i <= last && #[trigger] cells[i] implies exists|k: int|
                0 <= k < runs@.len() && (#[trigger] runs@[k]).start <= i < runs@[k].past by {
                if i < start {
                    let k: int = choose|k: int|
                        0 <= k < before.len() && (#[trigger] before[k]).start <= i
                            < before[k].past;
                    assert(runs@[k] == before[k]);
                } else {
                    assert(runs@[before.len() as int].start <= i);
                }
            }
        }
    }
    runs
}

pub open spec fn spec_run_corners(grid: &NavGrid, run: Run, row: usize) -> (Point, Point) {
    let low: Point = Point {
        x: grid.origin.x.add(Real::from_count(run.start as u64).mul(grid.cell_size)),
        z: grid.origin.z.add(Real::from_count(row as u64).mul(grid.cell_size)),
    };
    (
        low,
        Point {
            x: grid.origin.x.add(Real::from_count(run.past as u64).mul(grid.cell_size)),
            z: low.z.add(grid.cell_size),
        },
    )
}

/// The least and the greatest corner of a stretch of cells.
#[verifier::when_used_as_spec(spec_run_corners)]
pub fn run_corners(grid: &NavGrid, run: Run, row: usize) -> (r: (Point, Point))
    ensures
        r == spec_run_corners(grid, run, row),
{
    let low: Point = Point {
        x: grid.origin.x.add(Real::from_count(run.start as u64).mul(grid.cell_size)),
        z: grid.origin.z.add(Real::from_count(row as u64).mul(grid.cell_size)),
    };
    (
        low,
        Point {
            x: grid.origin.x.add(Real::from_count(run.past as u64).mul(grid.cell_size)),
            z: low.z.add(grid.cell_size),
        },
    )
}

} // verus!
