//! The sensed window around an agent as a terrain: which of its cells are
//! open, closed by a threat, or expensive.
use vstd::prelude::*;

use crate::config::Threat;
use crate::corridor::{remaining, stride};
use crate::gate::holds;
use crate::geometry::{cell_coordinate, Point, HALF};
use crate::number::Real;
use crate::search::{lemma_number, lemma_place, step_col, step_row, Model, Terrain};
use crate::stamped::StampedMap;
use crate::walk::WalkView;

verus! {

/// Discs smaller than this many cells are marked by touch: `1.5`.
pub const TINY_DISC: u64 = 0x3ff8_0000_0000_0000;

/// Cost of entering a soft threat cell, in cells: `12`.
pub const SOFT_COST: u64 = 0x4028_0000_0000_0000;

/// A rectangle of fine cells.
#[derive(Clone, Copy, PartialEq, Eq, Structural, Debug)]
pub struct Window {
    pub min_col: usize,
    pub min_row: usize,
    pub width: usize,
    pub height: usize,
}

impl Window {
    pub open spec fn wf(&self) -> bool {
        &&& 0 < self.width
        &&& 0 < self.height
        &&& self.min_col + self.width <= isize::MAX
        &&& self.min_row + self.height <= isize::MAX
        &&& self.width * self.height <= usize::MAX
    }

    pub open spec fn holds_cell(&self, col: int, row: int) -> bool {
        &&& self.min_col <= col < self.min_col + self.width
        &&& self.min_row <= row < self.min_row + self.height
    }

    /// Number of a cell within the window, row by row.
    pub open spec fn number(&self, col: int, row: int) -> int {
        (row - self.min_row) * self.width + (col - self.min_col)
    }

    /// Whether a cell of the grid lies in the window.
    pub fn contains(&self, col: isize, row: isize) -> (r: bool)
        requires
            self.min_col + self.width <= isize::MAX,
            self.min_row + self.height <= isize::MAX,
        ensures
            r == self.holds_cell(col as int, row as int),
    {
        col >= self.min_col as isize && row >= self.min_row as isize && col < (self.min_col
            + self.width) as isize && row < (self.min_row + self.height) as isize
    }

    /// Number of a cell of the grid within the window.
    pub fn index(&self, col: isize, row: isize) -> (r: usize)
        requires
            self.min_col <= col,
            self.min_row <= row,
            self.number(col as int, row as int) <= usize::MAX,
        ensures
            r == self.number(col as int, row as int),
    {
        proof {
            let a: int = row - self.min_row;
            let b: int = col - self.min_col;
            assert(a * self.width >= 0) by (nonlinear_arith)
                requires
                    a >= 0,
            ;
        }
        (row as usize - self.min_row) * self.width + (col as usize - self.min_col)
    }
}

/// The cells of a window are numbered without gaps.
pub proof fn lemma_window_number(window: Window, col: int, row: int)
    requires
        window.wf(),
        window.holds_cell(col, row),
    ensures
        0 <= window.number(col, row) < window.width * window.height,
        window.number(col, row) % (window.width as int) == col - window.min_col,
        window.number(col, row) / (window.width as int) == row - window.min_row,
{
    lemma_number(
        window.width as int,
        window.height as int,
        col - window.min_col,
        row - window.min_row,
    );
}

/// The point of a column (or row) of cells by which a threat is judged: its
/// middle or, for a tiny disc, its point nearest to the disc's centre.
pub open spec fn spec_probe_at(cell: isize, origin: Real, cell_size: Real, center: Real, tiny: bool) -> Real {
    let low: Real = origin.add(Real::from_int(cell).mul(cell_size));
    if tiny {
        center.clamp(low, low.add(cell_size))
    } else {
        low.add(cell_size.mul(Real::of(HALF)))
    }
}

#[verifier::when_used_as_spec(spec_probe_at)]
fn probe_at(cell: isize, origin: Real, cell_size: Real, center: Real, tiny: bool) -> (r: Real)
    ensures
        r == spec_probe_at(cell, origin, cell_size, center, tiny),
{
    let low: Real = origin.add(Real::from_int(cell).mul(cell_size));
    if tiny {
        center.clamp(low, low.add(cell_size))
    } else {
        low.add(cell_size.mul(Real::of(HALF)))
    }
}

/// Whether a threat's disc covers a cell: the cell's middle lies in it or, for
/// a tiny disc, any point of the cell does.
pub open spec fn shadows(sensed: &WalkView, threat: Threat, col: int, row: int) -> bool {
    let cell: Real = sensed.cell_size;
    let tiny: bool = threat.radius.lt(cell.mul(Real::of(TINY_DISC)));
    let probe: Point = Point {
        x: spec_probe_at(col as isize, sensed.origin.x, cell, threat.center.x, tiny),
        z: spec_probe_at(row as isize, sensed.origin.z, cell, threat.center.z, tiny),
    };
    &&& cell_coordinate(threat.center.x.sub(threat.radius), sensed.origin.x, cell) <= col
        <= cell_coordinate(threat.center.x.add(threat.radius), sensed.origin.x, cell)
    &&& cell_coordinate(threat.center.z.sub(threat.radius), sensed.origin.z, cell) <= row
        <= cell_coordinate(threat.center.z.add(threat.radius), sensed.origin.z, cell)
    &&& holds(threat, probe)
}

/// Whether one of the first `n` threats covers a cell; of those that hold the
/// agent, or of those that do not.
pub open spec fn shadowed(
    sensed: &WalkView,
    nearby: Seq<Threat>,
    n: int,
    position: Point,
    holding: bool,
    col: int,
    row: int,
) -> bool {
    exists|i: int|
        0 <= i < n && holds(nearby[i], position) == holding && #[trigger] shadows(
            sensed,
            nearby[i],
            col,
            row,
        )
}

/// Whether a disc that does not hold the agent covers a cell.
pub open spec fn hard_at(
    sensed: &WalkView,
    nearby: Seq<Threat>,
    position: Point,
    col: int,
    row: int,
) -> bool {
    shadowed(sensed, nearby, nearby.len() as int, position, false, col, row)
}

/// Whether a disc that swept over the agent covers a cell.
pub open spec fn soft_at(
    sensed: &WalkView,
    nearby: Seq<Threat>,
    position: Point,
    col: int,
    row: int,
) -> bool {
    shadowed(sensed, nearby, nearby.len() as int, position, true, col, row)
}

/// Whether a scan row by row has passed a cell when it stands at `col` and
/// `row`.
spec fn passed(c: int, r: int, col: int, row: int) -> bool {
    r < row || (r == row && c < col)
}

/// Whether a cell is marked while the `n`-th threat is being scanned.
spec fn partly_shadowed(
    sensed: &WalkView,
    nearby: Seq<Threat>,
    n: int,
    position: Point,
    holding: bool,
    c: int,
    r: int,
    col: int,
    row: int,
) -> bool {
    shadowed(
        sensed,
        nearby,
        if passed(c, r, col, row) {
            n + 1
        } else {
            n
        },
        position,
        holding,
        c,
        r,
    )
}

proof fn lemma_shadowed_step(
    sensed: &WalkView,
    nearby: Seq<Threat>,
    n: int,
    position: Point,
    holding: bool,
    col: int,
    row: int,
)
    requires
        0 <= n < nearby.len(),
    ensures
        shadowed(sensed, nearby, n + 1, position, holding, col, row) == (shadowed(
            sensed,
            nearby,
            n,
            position,
            holding,
            col,
            row,
        ) || (holds(nearby[n], position) == holding && shadows(sensed, nearby[n], col, row))),
{
    if shadowed(sensed, nearby, n, position, holding, col, row) {
        let i: int = choose|i: int|
            0 <= i < n && holds(nearby[i], position) == holding && #[trigger] shadows(
                sensed,
                nearby[i],
                col,
                row,
            );
        assert(0 <= i < n + 1 && shadows(sensed, nearby[i], col, row));
    }
    if holds(nearby[n], position) == holding && shadows(sensed, nearby[n], col, row) {
        assert(shadowed(sensed, nearby, n + 1, position, holding, col, row));
    }
}

/// Whether the marks of a window are those of the first `n` threats.
spec fn marks(
    map: Map<int, bool>,
    window: Window,
    sensed: &WalkView,
    nearby: Seq<Threat>,
    n: int,
    position: Point,
    holding: bool,
) -> bool {
    forall|c: int, r: int|
        window.holds_cell(c, r) ==> map.dom().contains(window.number(c, r))
            == #[trigger] shadowed(sensed, nearby, n, position, holding, c, r)
}

/// Whether the marks of a window are those of the first `n` threats and, up to
/// a cell, of the next one.
spec fn partial_marks(
    map: Map<int, bool>,
    window: Window,
    sensed: &WalkView,
    nearby: Seq<Threat>,
    n: int,
    position: Point,
    holding: bool,
    col: int,
    row: int,
) -> bool {
    forall|c: int, r: int|
        window.holds_cell(c, r) ==> map.dom().contains(window.number(c, r))
            == #[trigger] partly_shadowed(sensed, nearby, n, position, holding, c, r, col, row)
}

/// Marks the cells of a window that one more threat covers, on the map that
/// the threat belongs to.
fn mark_threat(
    sensed: &WalkView,
    window: &Window,
    nearby: &Vec<Threat>,
    n: usize,
    position: Point,
    holding: bool,
    map: &mut StampedMap<bool>,
)
    requires
        window.wf(),
        n < nearby@.len(),
        holding == holds(nearby@[n as int], position),
        old(map).wf(),
        old(map).capacity() >= window.width * window.height,
        marks(old(map)@, *window, sensed, nearby@, n as int, position, holding),
    ensures
        final(map).wf(),
        final(map).capacity() == old(map).capacity(),
        marks(final(map)@, *window, sensed, nearby@, n + 1, position, holding),
{
    let threat: Threat = nearby[n];
    let cell: Real = sensed.cell_size;
    let tiny: bool = threat.radius.lt(cell.mul(Real::of(TINY_DISC)));
    let left: isize = cell_coordinate(threat.center.x.sub(threat.radius), sensed.origin.x, cell);
    let right: isize = cell_coordinate(threat.center.x.add(threat.radius), sensed.origin.x, cell);
    let low: isize = cell_coordinate(threat.center.z.sub(threat.radius), sensed.origin.z, cell);
    let high: isize = cell_coordinate(threat.center.z.add(threat.radius), sensed.origin.z, cell);
    let end_col: isize = (window.min_col + window.width) as isize;
    let end_row: isize = (window.min_row + window.height) as isize;
    let first_col: isize = if left < window.min_col as isize {
        window.min_col as isize
    } else {
        left
    };
    let first_row: isize = if low < window.min_row as isize {
        window.min_row as isize
    } else {
        low
    };
    let mut row: isize = first_row;
    proof {
        assert forall|c: int, r: int| window.holds_cell(c, r) implies map@.dom().contains(
            window.number(c, r),
        ) == #[trigger] partly_shadowed(
            sensed,
            nearby@,
            n as int,
            position,
            holding,
            c,
            r,
            first_col as int,
            first_row as int,
        ) by {
            lemma_shadowed_step(sensed, nearby@, n as int, position, holding, c, r);
            assert(map@.dom().contains(window.number(c, r)) == shadowed(
                sensed,
                nearby@,
                n as int,
                position,
                holding,
                c,
                r,
            ));
        }
    }
    while row <= high && row < end_row
        invariant
            window.wf(),
            n < nearby@.len(),
            threat == nearby@[n as int],
            holding == holds(threat, position),
            map.wf(),
            map.capacity() == old(map).capacity(),
            map.capacity() >= window.width * window.height,
            cell == sensed.cell_size,
            tiny == threat.radius.lt(cell.mul(Real::of(TINY_DISC))),
            left == cell_coordinate(threat.center.x.sub(threat.radius), sensed.origin.x, cell),
            right == cell_coordinate(threat.center.x.add(threat.radius), sensed.origin.x, cell),
            low == cell_coordinate(threat.center.z.sub(threat.radius), sensed.origin.z, cell),
            high == cell_coordinate(threat.center.z.add(threat.radius), sensed.origin.z, cell),
            end_col == window.min_col + window.width,
            end_row == window.min_row + window.height,
            first_col == (if left < window.min_col {
                window.min_col as int
            } else {
                left as int
            }),
            row >= window.min_row,
            row >= low,
            partial_marks(
                map@,
                *window,
                sensed,
                nearby@,
                n as int,
                position,
                holding,
                first_col as int,
                row as int,
            ),
        decreases end_row - row,
    {
        let mut col: isize = first_col;
        while col <= right && col < end_col
            invariant
                window.wf(),
                n < nearby@.len(),
                threat == nearby@[n as int],
                holding == holds(threat, position),
                map.wf(),
                map.capacity() == old(map).capacity(),
                map.capacity() >= window.width * window.height,
                cell == sensed.cell_size,
                tiny == threat.radius.lt(cell.mul(Real::of(TINY_DISC))),
                left == cell_coordinate(threat.center.x.sub(threat.radius), sensed.origin.x, cell),
                right == cell_coordinate(threat.center.x.add(threat.radius), sensed.origin.x, cell),
                low == cell_coordinate(threat.center.z.sub(threat.radius), sensed.origin.z, cell),
                high == cell_coordinate(threat.center.z.add(threat.radius), sensed.origin.z, cell),
                end_col == window.min_col + window.width,
                end_row == window.min_row + window.height,
                window.min_row <= row < end_row,
                low <= row <= high,
                col >= window.min_col,
                col >= left,
                partial_marks(
                    map@,
                    *window,
                    sensed,
                    nearby@,
                    n as int,
                    position,
                    holding,
                    col as int,
                    row as int,
                ),
            decreases end_col - col,
        {
            let ghost before: Map<int, bool> = map@;
            let probe: Point = Point {
                x: probe_at(col, sensed.origin.x, cell, threat.center.x, tiny),
                z: probe_at(row, sensed.origin.z, cell, threat.center.z, tiny),
            };
            proof {
                lemma_window_number(*window, col as int, row as int);
                assert(shadows(sensed, threat, col as int, row as int) == holds(threat, probe));
            }
            if holds(threat, probe) {
                let index: usize = window.index(col, row);
                map.set(index, true);
            }
            proof {
                assert forall|c: int, r: int| window.holds_cell(c, r) implies map@.dom().contains(
                    window.number(c, r),
                ) == #[trigger] partly_shadowed(
                    sensed,
                    nearby@,
                    n as int,
                    position,
                    holding,
                    c,
                    r,
                    col + 1,
                    row as int,
                ) by {
                    lemma_window_number(*window, c, r);
                    lemma_shadowed_step(sensed, nearby@, n as int, position, holding, c, r);
                    assert(before.dom().contains(window.number(c, r)) == partly_shadowed(
                        sensed,
                        nearby@,
                        n as int,
                        position,
                        holding,
                        c,
                        r,
                        col as int,
                        row as int,
                    ));
                }
            }
            col = col + 1;
        }
        proof {
            assert forall|c: int, r: int| window.holds_cell(c, r) implies map@.dom().contains(
                window.number(c, r),
            ) == #[trigger] partly_shadowed(
                sensed,
                nearby@,
                n as int,
                position,
                holding,
                c,
                r,
                first_col as int,
                row + 1,
            ) by {
                lemma_shadowed_step(sensed, nearby@, n as int, position, holding, c, r);
                assert(map@.dom().contains(window.number(c, r)) == partly_shadowed(
                    sensed,
                    nearby@,
                    n as int,
                    position,
                    holding,
                    c,
                    r,
                    col as int,
                    row as int,
                ));
            }
        }
        row = row + 1;
    }
    proof {
        assert forall|c: int, r: int| window.holds_cell(c, r) implies map@.dom().contains(
            window.number(c, r),
        ) == #[trigger] shadowed(sensed, nearby@, n + 1, position, holding, c, r) by {
            lemma_shadowed_step(sensed, nearby@, n as int, position, holding, c, r);
            assert(map@.dom().contains(window.number(c, r)) == partly_shadowed(
                sensed,
                nearby@,
                n as int,
                position,
                holding,
                c,
                r,
                first_col as int,
                row as int,
            ));
        }
    }
}

/// Rasterizes threat discs into the window. A disc that holds the agent is
/// marked soft, so an escape plan always exists; all others are hard, so a
/// route is never planned through them.
pub fn mark_threats(
    sensed: &WalkView,
    window: &Window,
    nearby: &Vec<Threat>,
    position: Point,
    hard: &mut StampedMap<bool>,
    soft: &mut StampedMap<bool>,
)
    requires
        window.wf(),
        old(hard).wf(),
        old(soft).wf(),
    ensures
        final(hard).wf(),
        final(soft).wf(),
        final(hard).capacity() >= window.width * window.height,
        final(soft).capacity() >= window.width * window.height,
        forall|c: int, r: int|
            window.holds_cell(c, r) ==> final(hard)@.dom().contains(window.number(c, r))
                == #[trigger] hard_at(sensed, nearby@, position, c, r),
        forall|c: int, r: int|
            window.holds_cell(c, r) ==> final(soft)@.dom().contains(window.number(c, r))
                == #[trigger] soft_at(sensed, nearby@, position, c, r),
{
    let cells: usize = window.width * window.height;
    hard.reset(cells, false);
    soft.reset(cells, false);
    let mut n: usize = 0;
    while n < nearby.len()
        invariant
            window.wf(),
            n <= nearby@.len(),
            hard.wf(),
            soft.wf(),
            hard.capacity() >= window.width * window.height,
            soft.capacity() >= window.width * window.height,
            marks(hard@, *window, sensed, nearby@, n as int, position, false),
            marks(soft@, *window, sensed, nearby@, n as int, position, true),
        decreases nearby@.len() - n,
    {
        if holds(nearby[n], position) {
            mark_threat(sensed, window, nearby, n, position, true, soft);
            proof {
                lemma_marks_unchanged(hard@, *window, sensed, nearby@, n as int, position, false);
            }
        } else {
            mark_threat(sensed, window, nearby, n, position, false, hard);
            proof {
                lemma_marks_unchanged(soft@, *window, sensed, nearby@, n as int, position, true);
            }
        }
        n = n + 1;
    }
    proof {
        assert forall|c: int, r: int| window.holds_cell(c, r) implies hard@.dom().contains(
            window.number(c, r),
        ) == #[trigger] hard_at(sensed, nearby@, position, c, r) by {
            assert(hard@.dom().contains(window.number(c, r)) == shadowed(
                sensed,
                nearby@,
                n as int,
                position,
                false,
                c,
                r,
            ));
        }
        assert forall|c: int, r: int| window.holds_cell(c, r) implies soft@.dom().contains(
            window.number(c, r),
        ) == #[trigger] soft_at(sensed, nearby@, position, c, r) by {
            assert(soft@.dom().contains(window.number(c, r)) == shadowed(
                sensed,
                nearby@,
                n as int,
                position,
                true,
                c,
                r,
            ));
        }
    }
}

proof fn lemma_marks_unchanged(
    map: Map<int, bool>,
    window: Window,
    sensed: &WalkView,
    nearby: Seq<Threat>,
    n: int,
    position: Point,
    holding: bool,
)
    requires
        0 <= n < nearby.len(),
        holding != holds(nearby[n], position),
        marks(map, window, sensed, nearby, n, position, holding),
    ensures
        marks(map, window, sensed, nearby, n + 1, position, holding),
{
    assert forall|c: int, r: int| window.holds_cell(c, r) implies map.dom().contains(
        window.number(c, r),
    ) == #[trigger] shadowed(sensed, nearby, n + 1, position, holding, c, r) by {
        lemma_shadowed_step(sensed, nearby, n, position, holding, c, r);
        assert(map.dom().contains(window.number(c, r)) == shadowed(
            sensed,
            nearby,
            n,
            position,
            holding,
            c,
            r,
        ));
    }
}

/// Whether a cell of the window can be entered: it is open terrain and,
/// unless hard marks are demoted, no disc that does not hold the agent covers
/// it.
pub open spec fn passable(
    sensed: &WalkView,
    nearby: Seq<Threat>,
    position: Point,
    window: Window,
    demote: bool,
    col: int,
    row: int,
) -> bool {
    &&& window.holds_cell(col, row)
    &&& !sensed.blocked_at(col, row)
    &&& demote || !hard_at(sensed, nearby, position, col, row)
}

/// Whether every orthogonal step out of a cell is closed, so that hard marks
/// become soft for this plan and a way out always exists.
pub open spec fn hemmed_in(
    sensed: &WalkView,
    nearby: Seq<Threat>,
    position: Point,
    window: Window,
    col: int,
    row: int,
) -> bool {
    forall|k: int|
        0 <= k < 4 ==> !passable(
            sensed,
            nearby,
            position,
            window,
            false,
            col + #[trigger] step_col(k),
            row + step_row(k),
        )
}

/// Cost of a step onto a cell of the window.
pub open spec fn window_step(
    sensed: &WalkView,
    nearby: Seq<Threat>,
    position: Point,
    window: Window,
    demote: bool,
    to: int,
    diagonal: bool,
) -> Real {
    let col: int = window.min_col + to % (window.width as int);
    let row: int = window.min_row + to / (window.width as int);
    let cell: Real = sensed.cell_size.to_single();
    let plain: Real = stride(diagonal).to_single().single_product(cell);
    if soft_at(sensed, nearby, position, col, row) || (demote && hard_at(
        sensed,
        nearby,
        position,
        col,
        row,
    )) {
        plain.single_sum(Real::of(SOFT_COST).single_product(cell))
    } else {
        plain
    }
}

/// The window as a terrain to be searched for one of its cells.
pub open spec fn window_model(
    sensed: &WalkView,
    nearby: Seq<Threat>,
    position: Point,
    window: Window,
    demote: bool,
    target: (usize, usize),
) -> Model {
    let estimate: spec_fn(int) -> Real = |index: int|
        remaining(index as usize, window.width, target.0, target.1, sensed.cell_size);
    Model {
        columns: window.width as int,
        rows: window.height as int,
        open: |col: int, row: int|
            passable(
                sensed,
                nearby,
                position,
                window,
                demote,
                window.min_col + col,
                window.min_row + row,
            ),
        extended: |cost: Real, to: int, diagonal: bool|
            cost.single_sum(
                window_step(sensed, nearby, position, window, demote, to, diagonal),
            ),
        estimate,
        score: |cost: Real, index: int| cost.single_sum(estimate(index)),
    }
}

/// The sensed window with its marks.
pub struct WindowTerrain<'a> {
    pub sensed: &'a WalkView,
    pub window: Window,
    pub hard: &'a StampedMap<bool>,
    pub soft: &'a StampedMap<bool>,
    pub nearby: Ghost<Seq<Threat>>,
    pub position: Point,
    pub demote: bool,
    /// The cell searched for, by its column and row within the window.
    pub target: (usize, usize),
}

impl<'a> WindowTerrain<'a> {
    /// The marks are those of the threats around.
    pub open spec fn marked(&self) -> bool {
        &&& self.sensed.wf()
        &&& self.window.wf()
        &&& self.hard.wf()
        &&& self.soft.wf()
        &&& self.hard.capacity() >= self.window.width * self.window.height
        &&& self.soft.capacity() >= self.window.width * self.window.height
        &&& forall|c: int, r: int|
            self.window.holds_cell(c, r) ==> self.hard@.dom().contains(self.window.number(c, r))
                == #[trigger] hard_at(self.sensed, self.nearby@, self.position, c, r)
        &&& forall|c: int, r: int|
            self.window.holds_cell(c, r) ==> self.soft@.dom().contains(self.window.number(c, r))
                == #[trigger] soft_at(self.sensed, self.nearby@, self.position, c, r)
    }

    /// Whether a cell of the grid can be entered.
    pub fn is_passable(&self, demote: bool, col: isize, row: isize) -> (r: bool)
        requires
            self.marked(),
        ensures
            r == passable(
                self.sensed,
                self.nearby@,
                self.position,
                self.window,
                demote,
                col as int,
                row as int,
            ),
    {
        if !self.window.contains(col, row) || self.sensed.blocked(col, row) {
            return false;
        }
        if demote {
            return true;
        }
        proof {
            lemma_window_number(self.window, col as int, row as int);
            assert(self.hard@.dom().contains(self.window.number(col as int, row as int)) == hard_at(
                self.sensed,
                self.nearby@,
                self.position,
                col as int,
                row as int,
            ));
        }
        !self.hard.contains(self.window.index(col, row))
    }

    /// Whether every orthogonal step out of a cell of the window is closed.
    pub fn is_hemmed_in(&self, col: isize, row: isize) -> (r: bool)
        requires
            self.marked(),
            0 <= col < isize::MAX,
            0 <= row < isize::MAX,
        ensures
            r == hemmed_in(
                self.sensed,
                self.nearby@,
                self.position,
                self.window,
                col as int,
                row as int,
            ),
    {
        proof {
            assert(step_col(0) == -1 && step_col(1) == 1 && step_col(2) == 0 && step_col(3) == 0);
        }
        !self.is_passable(false, col - 1, row) && !self.is_passable(false, col + 1, row)
            && !self.is_passable(false, col, row - 1) && !self.is_passable(false, col, row + 1)
    }
}

impl<'a> Terrain for WindowTerrain<'a> {
    open spec fn model(&self) -> Model {
        window_model(
            self.sensed,
            self.nearby@,
            self.position,
            self.window,
            self.demote,
            self.target,
        )
    }

    open spec fn ready(&self) -> bool {
        &&& self.marked()
        &&& self.target.0 < self.window.width
        &&& self.target.1 < self.window.height
    }

    proof fn lemma_ready(&self) {
    }

    fn width(&self) -> (r: usize) {
        self.window.width
    }

    fn height(&self) -> (r: usize) {
        self.window.height
    }

    fn is_open(&self, col: isize, row: isize) -> (r: bool) {
        if col < 0 || row < 0 || col as usize >= self.window.width || row as usize
            >= self.window.height {
            return false;
        }
        self.is_passable(
            self.demote,
            self.window.min_col as isize + col,
            self.window.min_row as isize + row,
        )
    }

    fn extend(&self, cost: Real, to: usize, diagonal: bool) -> (r: Real) {
        proof {
            let w: int = self.window.width as int;
            lemma_place(w, self.window.height as int, to as int);
            let col: int = self.window.min_col + to as int % w;
            let row: int = self.window.min_row + to as int / w;
            assert(self.window.number(col, row) == to);
            assert(self.hard@.dom().contains(self.window.number(col, row)) == hard_at(
                self.sensed,
                self.nearby@,
                self.position,
                col,
                row,
            ));
            assert(self.soft@.dom().contains(self.window.number(col, row)) == soft_at(
                self.sensed,
                self.nearby@,
                self.position,
                col,
                row,
            ));
        }
        let cell: Real = self.sensed.cell_size.to_single();
        let mut step: Real = stride(diagonal).to_single().single_product(cell);
        if self.soft.contains(to) || (self.demote && self.hard.contains(to)) {
            // Soft threat cells stay traversable but expensive, so the shortest
            // way out of a disc that swept over the agent wins.
            step = step.single_sum(Real::of(SOFT_COST).single_product(cell));
        }
        cost.single_sum(step)
    }

    fn estimate_at(&self, index: usize) -> (r: Real) {
        proof {
            lemma_place(self.window.width as int, self.window.height as int, index as int);
        }
        remaining(
            index,
            self.window.width,
            self.target.0,
            self.target.1,
            self.sensed.cell_size,
        )
    }

    fn score_at(&self, cost: Real, index: usize) -> (r: Real) {
        let h: Real = self.estimate_at(index);
        cost.single_sum(h)
    }
}

} // verus!
