//! Resolving an ordered goal to a legal stopping point.
use vstd::prelude::*;

use crate::config::{NavConfig, Threat};
use crate::geometry::{cell_coordinate, cell_middle, clamp_index, distance_sq, Point};
use crate::number::Real;
use crate::ordering::lemma_add_not_smaller;
use crate::walk::WalkView;

verus! {

pub open spec fn spec_outside(threat: Threat, inflation: Real, point: Point) -> bool {
    let radius: Real = threat.radius.add(inflation);
    radius.mul(radius).lt(distance_sq(point, threat.center))
}

/// Whether a point lies outside a threat's widened disc.
#[verifier::when_used_as_spec(spec_outside)]
pub fn outside(threat: Threat, inflation: Real, point: Point) -> (r: bool)
    ensures
        r == spec_outside(threat, inflation, point),
{
    let radius: Real = threat.radius.add(inflation);
    radius.mul(radius).lt(distance_sq(point, threat.center))
}

/// Whether a point lies in an open cell and outside every widened disc.
pub open spec fn legal_stop(
    sensed: &WalkView,
    config: NavConfig,
    threats: Seq<Threat>,
    point: Point,
) -> bool {
    &&& match sensed.cell_at(point) {
        Some((col, row)) => !sensed.blocked_at(col as int, row as int),
        None => false,
    }
    &&& forall|i: int|
        0 <= i < threats.len() ==> outside(#[trigger] threats[i], config.inflation(), point)
}

pub fn is_legal_stop(sensed: &WalkView, config: &NavConfig, threats: &[Threat], point: Point) -> (r:
    bool)
    requires
        sensed.wf(),
    ensures
        r == legal_stop(sensed, *config, threats@, point),
{
    let open: bool = match sensed.cell_of(point) {
        Some((col, row)) => !sensed.blocked(col as isize, row as isize),
        None => false,
    };
    if !open {
        return false;
    }
    let inflation: Real = config.inflation();
    let mut i: usize = 0;
    while i < threats.len()
        invariant
            i <= threats@.len(),
            inflation == config.inflation(),
            forall|j: int| 0 <= j < i ==> outside(#[trigger] threats@[j], inflation, point),
        decreases threats@.len() - i,
    {
        if !outside(threats[i], inflation, point) {
            return false;
        }
        i = i + 1;
    }
    true
}

pub open spec fn spec_remoteness(length_sq: Real) -> i64 {
    if length_sq.nan() {
        i64::MAX
    } else {
        length_sq.rank() as i64
    }
}

/// A number that orders squared distances; what is no number comes last.
#[verifier::when_used_as_spec(spec_remoteness)]
fn remoteness(length_sq: Real) -> (r: i64)
    ensures
        r == spec_remoteness(length_sq),
{
    if length_sq.is_nan() {
        return i64::MAX;
    }
    let key: i64 = length_sq.total_key();
    if key < 0 {
        key + 1
    } else {
        key
    }
}

/// How far the middle of a cell lies from a point.
pub open spec fn apart_from(sensed: &WalkView, goal: Point, cell: (int, int)) -> i64 {
    spec_remoteness(distance_sq(sensed.center(cell.0 as usize, cell.1 as usize), goal))
}

/// Whether the middle of one cell is preferred to that of another: the nearer
/// one, and of two equally near the one in the earlier row or column.
pub open spec fn preferred(sensed: &WalkView, goal: Point, a: (int, int), b: (int, int)) -> bool {
    let near: i64 = apart_from(sensed, goal, a);
    let far: i64 = apart_from(sensed, goal, b);
    near < far || (near == far && (a.1 < b.1 || (a.1 == b.1 && a.0 < b.0)))
}

/// Whether the middle of a cell is a legal stop.
pub open spec fn legal_cell(
    sensed: &WalkView,
    config: NavConfig,
    threats: Seq<Threat>,
    cell: (int, int),
) -> bool {
    sensed.within(cell.0, cell.1) && legal_stop(
        sensed,
        config,
        threats,
        sensed.center(cell.0 as usize, cell.1 as usize),
    )
}

/// Whether a cell is the legal one nearest to a point.
pub open spec fn nearest_legal(
    sensed: &WalkView,
    config: NavConfig,
    threats: Seq<Threat>,
    goal: Point,
    cell: (int, int),
) -> bool {
    &&& legal_cell(sensed, config, threats, cell)
    &&& forall|other: (int, int)| #[trigger]
        legal_cell(sensed, config, threats, other) ==> !preferred(sensed, goal, other, cell)
}

/// The legal stopping point for an ordered goal: the goal itself where it is
/// legal, else the middle of the nearest legal cell.
pub open spec fn snapped_goal(
    sensed: &WalkView,
    config: NavConfig,
    threats: Seq<Threat>,
    goal: Point,
) -> Option<Point> {
    if legal_stop(sensed, config, threats, goal) {
        Some(goal)
    } else if exists|cell: (int, int)| #[trigger]
        nearest_legal(sensed, config, threats, goal, cell) {
        let cell: (int, int) = choose|cell: (int, int)| #[trigger]
            nearest_legal(sensed, config, threats, goal, cell);
        Some(sensed.center(cell.0 as usize, cell.1 as usize))
    } else {
        None
    }
}

/// Whether a cell lies in the rows from `lo` up to `hi`, or among the first `n`
/// cells of another row.
pub open spec fn looked_at(cell: (int, int), lo: int, hi: int, row: int, n: int) -> bool {
    lo <= cell.1 < hi || (cell.1 == row && cell.0 < n)
}

/// Whether a cell is the nearest legal one among those looked at.
pub open spec fn best_seen(
    sensed: &WalkView,
    config: NavConfig,
    threats: Seq<Threat>,
    goal: Point,
    seen: (int, int, int, int),
    best: Option<(usize, usize)>,
) -> bool {
    match best {
        None => forall|other: (int, int)| #[trigger]
            legal_cell(sensed, config, threats, other) ==> !looked_at(
                other,
                seen.0,
                seen.1,
                seen.2,
                seen.3,
            ),
        Some((col, row)) => {
            &&& legal_cell(sensed, config, threats, (col as int, row as int))
            &&& forall|other: (int, int)| #[trigger]
                legal_cell(sensed, config, threats, other) && looked_at(
                    other,
                    seen.0,
                    seen.1,
                    seen.2,
                    seen.3,
                ) ==> !preferred(sensed, goal, other, (col as int, row as int))
        },
    }
}

proof fn lemma_square_is_not_negative(x: Real)
    ensures
        !x.mul(x).nan() ==> x.mul(x).rank() >= 0,
{
    reveal(Real::spec_mul);
}

/// A distance is at least that along either axis.
proof fn lemma_remoteness_grows(x: Real, z: Real)
    ensures
        remoteness(x.mul(x)) <= remoteness(x.mul(x).add(z.mul(z))),
        remoteness(z.mul(z)) <= remoteness(x.mul(x).add(z.mul(z))),
{
    let a: Real = x.mul(x);
    let b: Real = z.mul(z);
    lemma_square_is_not_negative(x);
    lemma_square_is_not_negative(z);
    reveal(Real::spec_add);
    assert(a.add(b) == b.add(a));
    if a.nan() || b.nan() {
        assert(a.add(b).nan());
    } else {
        lemma_add_not_smaller(a, b);
        lemma_add_not_smaller(b, a);
    }
}

/// The nearest legal cell among those of one more row and those looked at
/// before. Cells too far off along an axis are passed over.
fn nearest_in_row(
    sensed: &WalkView,
    config: &NavConfig,
    threats: &[Threat],
    goal: Point,
    row: usize,
    before: Option<(usize, usize)>,
    Ghost(rows): Ghost<(int, int)>,
) -> (best: Option<(usize, usize)>)
    requires
        sensed.wf(),
        row < sensed.height,
        best_seen(sensed, *config, threats@, goal, (rows.0, rows.1, row as int, 0), before),
    ensures
        best_seen(
            sensed,
            *config,
            threats@,
            goal,
            (rows.0, rows.1, row as int, sensed.width as int),
            best,
        ),
{
    let mut best: Option<(usize, usize)> = before;
    let mut least: i64 = match best {
        None => i64::MAX,
        Some((col, row)) => remoteness(distance_sq(sensed.center(col, row), goal)),
    };
    let dz: Real = cell_middle(row, sensed.origin.z, sensed.cell_size).sub(goal.z);
    if least < remoteness(dz.mul(dz)) {
        proof {
            assert forall|other: (int, int)| #[trigger]
                legal_cell(sensed, *config, threats@, other) && looked_at(
                    other,
                    rows.0,
                    rows.1,
                    row as int,
                    sensed.width as int,
                ) implies best is Some && !preferred(
                sensed,
                goal,
                other,
                (best.unwrap().0 as int, best.unwrap().1 as int),
            ) by {
                let center: Point = sensed.center(other.0 as usize, other.1 as usize);
                lemma_remoteness_grows(center.x.sub(goal.x), center.z.sub(goal.z));
            }
        }
        return best;
    }
    let mut col: usize = 0;
    while col < sensed.width
        invariant
            sensed.wf(),
            row < sensed.height,
            col <= sensed.width,
            best_seen(
                sensed,
                *config,
                threats@,
                goal,
                (rows.0, rows.1, row as int, col as int),
                best,
            ),
            least == match best {
                None => i64::MAX,
                Some((c, r)) => apart_from(sensed, goal, (c as int, r as int)),
            },
        decreases sensed.width - col,
    {
        let center: Point = sensed.center(col, row);
        let away: i64 = remoteness(distance_sq(center, goal));
        let better: bool = match best {
            None => true,
            Some((c, r)) => away < least || (away == least && (row < r || (row == r && col < c))),
        };
        if better && is_legal_stop(sensed, config, threats, center) {
            proof {
                assert(legal_cell(sensed, *config, threats@, (col as int, row as int)));
            }
            best = Some((col, row));
            least = away;
        }
        col = col + 1;
    }
    best
}

/// Resolves the ordered goal to the nearest legal stopping point: an open cell
/// of the sensed view outside every (margin-inflated) threat disc. A goal on a
/// wall, inside clearance dilation, off the grid, or inside an enemy shell thus
/// means "walk as close as safely possible" instead of refusing to move.
pub fn snap_goal(sensed: &WalkView, config: &NavConfig, threats: &[Threat], goal: Point) -> (r:
    Option<Point>)
    requires
        sensed.wf(),
    ensures
        r == snapped_goal(sensed, *config, threats@, goal),
{
    if is_legal_stop(sensed, config, threats, goal) {
        return Some(goal);
    }
    if sensed.height == 0 {
        return None;
    }
    let middle: usize = clamp_index(
        cell_coordinate(goal.z, sensed.origin.z, sensed.cell_size),
        0,
        sensed.height as isize - 1,
    ) as usize;
    let mut best: Option<(usize, usize)> = None;
    let mut hi: usize = middle;
    while hi < sensed.height
        invariant
            sensed.wf(),
            middle < sensed.height,
            middle <= hi <= sensed.height,
            best_seen(sensed, *config, threats@, goal, (middle as int, hi as int, hi as int, 0), best),
        decreases sensed.height - hi,
    {
        best = nearest_in_row(
            sensed,
            config,
            threats,
            goal,
            hi,
            best,
            Ghost((middle as int, hi as int)),
        );
        hi = hi + 1;
    }
    let mut lo: usize = middle;
    while lo > 0
        invariant
            sensed.wf(),
            lo <= middle < sensed.height,
            best_seen(
                sensed,
                *config,
                threats@,
                goal,
                (lo as int, sensed.height as int, lo - 1, 0),
                best,
            ),
        decreases lo,
    {
        lo = lo - 1;
        best = nearest_in_row(
            sensed,
            config,
            threats,
            goal,
            lo,
            best,
            Ghost((lo + 1, sensed.height as int)),
        );
    }
    proof {
        lemma_best_is_nearest(sensed, *config, threats@, goal, best);
    }
    match best {
        None => None,
        Some((col, row)) => Some(sensed.center(col, row)),
    }
}

proof fn lemma_best_is_nearest(
    sensed: &WalkView,
    config: NavConfig,
    threats: Seq<Threat>,
    goal: Point,
    best: Option<(usize, usize)>,
)
    requires
        best_seen(sensed, config, threats, goal, (0, sensed.height as int, -1, 0), best),
        !legal_stop(sensed, config, threats, goal),
    ensures
        snapped_goal(sensed, config, threats, goal) == match best {
            None => None,
            Some((col, row)) => Some(sensed.center(col, row)),
        },
{
    if let Some((col, row)) = best {
        assert(nearest_legal(sensed, config, threats, goal, (col as int, row as int)));
        let cell: (int, int) = choose|cell: (int, int)| #[trigger]
            nearest_legal(sensed, config, threats, goal, cell);
        assert(legal_cell(sensed, config, threats, cell));
        assert(legal_cell(sensed, config, threats, (col as int, row as int)));
        assert(cell == (col as int, row as int));
    }
}

/// Among the cells of some rows one is the nearest legal one, unless none is
/// legal.
proof fn lemma_best_exists(
    sensed: &WalkView,
    config: NavConfig,
    threats: Seq<Threat>,
    goal: Point,
    row: int,
    n: int,
) -> (best: Option<(usize, usize)>)
    requires
        0 <= row <= sensed.height,
        0 <= n <= sensed.width,
    ensures
        best_seen(sensed, config, threats, goal, (0, row, row, n), best),
    decreases row, n,
{
    if n > 0 {
        let before: Option<(usize, usize)> = lemma_best_exists(
            sensed,
            config,
            threats,
            goal,
            row,
            n - 1,
        );
        let cell: (int, int) = (n - 1, row);
        if legal_cell(sensed, config, threats, cell) && (before is None || preferred(
            sensed,
            goal,
            cell,
            (before.unwrap().0 as int, before.unwrap().1 as int),
        )) {
            Some((cell.0 as usize, cell.1 as usize))
        } else {
            before
        }
    } else if row > 0 {
        lemma_best_exists(sensed, config, threats, goal, row - 1, sensed.width as int)
    } else {
        None
    }
}

/// A snapped goal is the ordered goal where that is legal, and otherwise the
/// middle of a legal cell to which no other legal cell's middle is nearer. It is
/// refused only where no cell of the grid is legal.
pub proof fn lemma_snapped_goal_is_nearest(
    sensed: &WalkView,
    config: NavConfig,
    threats: Seq<Threat>,
    goal: Point,
)
    ensures
        legal_stop(sensed, config, threats, goal) ==> snapped_goal(sensed, config, threats, goal)
            == Some(goal),
        snapped_goal(sensed, config, threats, goal) matches Some(stop) ==> {
            &&& legal_stop(sensed, config, threats, stop)
            &&& !legal_stop(sensed, config, threats, goal) ==> forall|cell: (int, int)|
                #![trigger legal_cell(sensed, config, threats, cell)]
                legal_cell(sensed, config, threats, cell) ==> {
                    let other: Real = distance_sq(
                        sensed.center(cell.0 as usize, cell.1 as usize),
                        goal,
                    );
                    &&& !other.lt(distance_sq(stop, goal))
                    &&& !other.nan() ==> distance_sq(stop, goal).le(other)
                }
        },
        snapped_goal(sensed, config, threats, goal) is None ==> forall|cell: (int, int)|
            !#[trigger] legal_cell(sensed, config, threats, cell),
{
    if !legal_stop(sensed, config, threats, goal) {
        let best: Option<(usize, usize)> = lemma_best_exists(
            sensed,
            config,
            threats,
            goal,
            sensed.height as int,
            0,
        );
        lemma_best_is_nearest(sensed, config, threats, goal, best);
        if let Some((col, row)) = best {
            let nearest: (int, int) = (col as int, row as int);
            assert(nearest_legal(sensed, config, threats, goal, nearest));
            assert forall|cell: (int, int)| #[trigger]
                legal_cell(sensed, config, threats, cell) implies apart_from(sensed, goal, nearest)
                <= apart_from(sensed, goal, cell) by {
                assert(!preferred(sensed, goal, cell, nearest));
            }
        }
    }
}

} // verus!
