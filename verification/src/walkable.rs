//! Whether a body fits at a place of the grid.
use vstd::prelude::*;

use crate::crossing::{cell_unit, lemma_large_unit};
use crate::geometry::{cell_coordinate, clamp_index, distance_sq, Point, ZERO};
use crate::lattice::{edge, laid_out, lemma_cell_coordinate, lemma_cell_is_modest, lemma_edge};
use crate::nearness::{
    bounding, lemma_close_difference, lemma_close_sum, lemma_distance_sq, lemma_modest, lemma_mul_bound,
    lemma_square_of, lemma_unit_is_nothing, reaches, size_of, within_bound,
};
use crate::number::Real;
use crate::ordering::lemma_value_order;
use crate::pathfinding::{covered, half_extents_of, nearest_col, nearest_row};
use crate::scene::{Collider, NavGrid};
use crate::search::lemma_number;
use crate::unit::lemma_size_of_zero;

verus! {

/// Half the width and height of a body; none without a collider.
pub open spec fn spec_body(collider: Option<Collider>) -> Point {
    match collider {
        Some(shape) => half_extents_of(shape),
        None => Point { x: Real::of(ZERO), z: Real::of(ZERO) },
    }
}

fn body_of(collider: Option<Collider>) -> (r: Point)
    ensures
        r == spec_body(collider),
{
    match collider {
        Some(shape) => half_extents_of(shape),
        None => Point { x: Real::of(ZERO), z: Real::of(ZERO) },
    }
}

pub open spec fn spec_inside(grid: &NavGrid, position: Point, half: Point) -> bool {
    let (low, high): (Point, Point) = grid.bounds();
    &&& !position.x.sub(half.x).lt(low.x)
    &&& !high.x.lt(position.x.add(half.x))
    &&& !position.z.sub(half.z).lt(low.z)
    &&& !high.z.lt(position.z.add(half.z))
}

/// Whether a body does not reach out of the grid.
#[verifier::when_used_as_spec(spec_inside)]
fn is_inside(grid: &NavGrid, position: Point, half: Point) -> (r: bool)
    ensures
        r == spec_inside(grid, position, half),
{
    let (low, high): (Point, Point) = grid.bounds();
    !position.x.sub(half.x).lt(low.x) && !high.x.lt(position.x.add(half.x))
        && !position.z.sub(half.z).lt(low.z) && !high.z.lt(position.z.add(half.z))
}

pub open spec fn spec_cell_corner(grid: &NavGrid, col: usize, row: usize) -> Point {
    Point {
        x: grid.origin.x.add(Real::from_count(col as u64).mul(grid.cell_size)),
        z: grid.origin.z.add(Real::from_count(row as u64).mul(grid.cell_size)),
    }
}

/// The least corner of a cell.
#[verifier::when_used_as_spec(spec_cell_corner)]
pub fn cell_corner(grid: &NavGrid, col: usize, row: usize) -> (r: Point)
    ensures
        r == spec_cell_corner(grid, col, row),
{
    Point {
        x: grid.origin.x.add(Real::from_count(col as u64).mul(grid.cell_size)),
        z: grid.origin.z.add(Real::from_count(row as u64).mul(grid.cell_size)),
    }
}

pub open spec fn spec_overlaps(
    low: Point,
    cell_size: Real,
    position: Point,
    collider: Option<Collider>,
) -> bool {
    let high: Point = Point { x: low.x.add(cell_size), z: low.z.add(cell_size) };
    match collider {
        Some(Collider::Circle { radius }) => {
            let nearest: Point = Point {
                x: position.x.clamp(low.x, high.x),
                z: position.z.clamp(low.z, high.z),
            };
            distance_sq(position, nearest).le(radius.mul(radius))
        },
        Some(Collider::Box { half_extents }) => {
            &&& low.x.lt(position.x.add(half_extents.x))
            &&& position.x.sub(half_extents.x).lt(high.x)
            &&& low.z.lt(position.z.add(half_extents.z))
            &&& position.z.sub(half_extents.z).lt(high.z)
        },
        None => true,
    }
}

/// Whether a body overlaps the cell with the given least corner.
#[verifier::when_used_as_spec(spec_overlaps)]
fn overlaps(low: Point, cell_size: Real, position: Point, collider: Option<Collider>) -> (r: bool)
    ensures
        r == spec_overlaps(low, cell_size, position, collider),
{
    let high: Point = Point { x: low.x.add(cell_size), z: low.z.add(cell_size) };
    match collider {
        Some(Collider::Circle { radius }) => {
            let nearest: Point = Point {
                x: position.x.clamp(low.x, high.x),
                z: position.z.clamp(low.z, high.z),
            };
            distance_sq(position, nearest).le(radius.mul(radius))
        },
        Some(Collider::Box { half_extents }) => {
            low.x.lt(position.x.add(half_extents.x)) && position.x.sub(half_extents.x).lt(high.x)
                && low.z.lt(position.z.add(half_extents.z)) && position.z.sub(
                half_extents.z,
            ).lt(high.z)
        },
        None => true,
    }
}

/// Whether a cell is blocked and a body at the position overlaps it.
pub open spec fn hinders(
    grid: &NavGrid,
    position: Point,
    collider: Option<Collider>,
    col: int,
    row: int,
) -> bool {
    let half: Point = spec_body(collider);
    &&& nearest_col(grid, position.x.sub(half.x)) <= col <= nearest_col(
        grid,
        position.x.add(half.x),
    )
    &&& nearest_row(grid, position.z.sub(half.z)) <= row <= nearest_row(
        grid,
        position.z.add(half.z),
    )
    &&& grid.blocked@[row * grid.width + col] != 0
    &&& spec_overlaps(
        cell_corner(grid, col as usize, row as usize),
        grid.cell_size,
        position,
        collider,
    )
}

/// Whether a body fits: it does not reach out of the grid and overlaps no
/// blocked cell.
pub open spec fn walkable(grid: &NavGrid, position: Point, collider: Option<Collider>) -> bool {
    &&& spec_inside(grid, position, spec_body(collider))
    &&& forall|col: int, row: int| !#[trigger] hinders(grid, position, collider, col, row)
}

/// Whether a body fits at a place of the grid.
pub fn position_is_walkable(grid: &NavGrid, position: Point, collider: Option<Collider>) -> (r: bool)
    requires
        spec_inside(grid, position, spec_body(collider)) ==> covered(grid) && grid.width > 0
            && grid.height > 0,
    ensures
        r == walkable(grid, position, collider),
{
    let half: Point = body_of(collider);
    if !is_inside(grid, position, half) {
        return false;
    }
    let left: isize = nearest_col(grid, position.x.sub(half.x));
    let right: isize = nearest_col(grid, position.x.add(half.x));
    let low: isize = nearest_row(grid, position.z.sub(half.z));
    let high: isize = nearest_row(grid, position.z.add(half.z));
    let mut row: isize = low;
    while row <= high
        invariant
            covered(grid),
            spec_inside(grid, position, spec_body(collider)),
            half == spec_body(collider),
            left == nearest_col(grid, position.x.sub(half.x)),
            right == nearest_col(grid, position.x.add(half.x)),
            low == nearest_row(grid, position.z.sub(half.z)),
            high == nearest_row(grid, position.z.add(half.z)),
            0 <= left < grid.width,
            0 <= right < grid.width,
            0 <= low <= row,
            0 <= high < grid.height,
            forall|c: int, r: int| #[trigger]
                hinders(grid, position, collider, c, r) ==> r >= row,
        decreases high + 1 - row,
    {
        let mut col: isize = left;
        while col <= right
            invariant
                covered(grid),
                spec_inside(grid, position, spec_body(collider)),
                half == spec_body(collider),
                left == nearest_col(grid, position.x.sub(half.x)),
                right == nearest_col(grid, position.x.add(half.x)),
                low == nearest_row(grid, position.z.sub(half.z)),
                high == nearest_row(grid, position.z.add(half.z)),
                0 <= left <= col,
                0 <= right < grid.width,
                0 <= low <= row <= high < grid.height,
                forall|c: int, r: int| #[trigger]
                    hinders(grid, position, collider, c, r) ==> r > row || (r == row && c >= col),
            decreases right + 1 - col,
        {
            proof {
                lemma_number(grid.width as int, grid.height as int, col as int, row as int);
            }
            if grid.blocked[grid.index(col as usize, row as usize)] != 0 && overlaps(
                cell_corner(grid, col as usize, row as usize),
                grid.cell_size,
                position,
                collider,
            ) {
                assert(hinders(grid, position, collider, col as int, row as int));
                return false;
            }
            col = col + 1;
        }
        row = row + 1;
    }
    assert forall|c: int, r: int| !#[trigger] hinders(grid, position, collider, c, r) by {}
    true
}

/// Whether the columns and rows of a grid lie within a bound.
pub open spec fn grid_within(grid: &NavGrid, most: int) -> bool {
    &&& 0 < grid.width <= isize::MAX
    &&& 0 < grid.height <= isize::MAX
    &&& laid_out(grid.origin.x, grid.cell_size, grid.width as int, most)
    &&& laid_out(grid.origin.z, grid.cell_size, grid.height as int, most)
}

/// Whether the sizes of a body are numbers within a bound.
pub open spec fn body_within(collider: Option<Collider>, most: int) -> bool {
    match collider {
        Some(Collider::Circle { radius }) => reaches(radius, most) && radius.value() >= 0,
        Some(Collider::Box { half_extents }) => within_bound(half_extents, most),
        None => true,
    }
}

/// Distance from a coordinate to an interval.
pub open spec fn gap_to(p: int, low: int, high: int) -> int {
    if p < low {
        low - p
    } else if p > high {
        p - high
    } else {
        0
    }
}

/// Whether a stretch around a coordinate reaches no farther into a column (or row)
/// than a sliver.
pub open spec fn apart(origin: Real, cell: Real, n: int, p: int, half: int, most: int) -> bool {
    ||| 0x20_0000_0000_0000 * (p + half - edge(origin, cell, n)) <= 32 * most
    ||| 0x20_0000_0000_0000 * (edge(origin, cell, n + 1) - (p - half)) <= 32 * most
}

/// Whether a stretch around a coordinate comes as near to a column (or row) as a
/// sliver.
pub open spec fn touching(origin: Real, cell: Real, n: int, p: int, half: int, most: int) -> bool {
    &&& 0x20_0000_0000_0000 * (edge(origin, cell, n) - (p + half)) <= 32 * most
    &&& 0x20_0000_0000_0000 * ((p - half) - edge(origin, cell, n + 1)) <= 32 * most
}

/// Whether the point with the coordinates `x / whole` and `z / whole` lies in a cell.
pub open spec fn lies_in_cell(
    grid: &NavGrid,
    col: int,
    row: int,
    x: int,
    z: int,
    whole: int,
) -> bool {
    &&& edge(grid.origin.x, grid.cell_size, col) * whole <= x <= edge(
        grid.origin.x,
        grid.cell_size,
        col + 1,
    ) * whole
    &&& edge(grid.origin.z, grid.cell_size, row) * whole <= z <= edge(
        grid.origin.z,
        grid.cell_size,
        row + 1,
    ) * whole
}

/// Whether the point with the coordinates `x / whole` and `z / whole` lies in a body,
/// but for a sliver along its outline: of a disc, 512 parts in `2^53` of the square of
/// a bound; of a box, 32 parts of the bound.
pub open spec fn lies_in_body(
    position: Point,
    collider: Collider,
    x: int,
    z: int,
    whole: int,
    most: int,
) -> bool {
    let dx: int = x - position.x.value() * whole;
    let dz: int = z - position.z.value() * whole;
    match collider {
        Collider::Circle { radius } => 0x20_0000_0000_0000 * (dx * dx + dz * dz) < (
        0x20_0000_0000_0000 * (radius.value() * radius.value()) - 512 * (most * most)) * (whole
            * whole),
        Collider::Box { half_extents } => {
            &&& 0x20_0000_0000_0000 * size_of(dx) < (0x20_0000_0000_0000 * half_extents.x.value()
                - 32 * most) * whole
            &&& 0x20_0000_0000_0000 * size_of(dz) < (0x20_0000_0000_0000 * half_extents.z.value()
                - 32 * most) * whole
        },
    }
}

/// The edges of a cell, and how they compare with the ends of a stretch.
proof fn lemma_stretch(origin: Real, cell: Real, cells: usize, n: usize, p: Real, half: Real, most: int)
    requires
        laid_out(origin, cell, cells as int, most),
        n < cells <= isize::MAX,
        reaches(p, most),
        reaches(half, most),
    ensures
        ({
            let low: Real = origin.add(Real::from_count(n as u64).mul(cell));
            let high: Real = low.add(cell);
            let first: int = clamp_index(
                cell_coordinate(p.sub(half), origin, cell),
                0,
                (cells - 1) as isize,
            ) as int;
            let last: int = clamp_index(
                cell_coordinate(p.add(half), origin, cell),
                0,
                (cells - 1) as isize,
            ) as int;
            &&& low.finite()
            &&& high.finite()
            &&& 0x20_0000_0000_0000 * size_of(low.value() - edge(origin, cell, n as int)) <= 8 * most
            &&& 0x20_0000_0000_0000 * size_of(high.value() - edge(origin, cell, n + 1)) <= 11 * most
            &&& !(first <= n <= last) ==> apart(
                origin,
                cell,
                n as int,
                p.value(),
                half.value(),
                most,
            )
            &&& !(low.lt(p.add(half)) && p.sub(half).lt(high)) ==> apart(
                origin,
                cell,
                n as int,
                p.value(),
                half.value(),
                most,
            )
            &&& low.lt(p.add(half)) && p.sub(half).lt(high) ==> touching(
                origin,
                cell,
                n as int,
                p.value(),
                half.value(),
                most,
            )
        }),
{
    let low: Real = origin.add(Real::from_count(n as u64).mul(cell));
    let high: Real = low.add(cell);
    let right: Real = p.add(half);
    let left: Real = p.sub(half);
    lemma_cell_is_modest(origin, cell, cells as int, most);
    lemma_unit_is_nothing(most);
    lemma_edge(origin, cell, cells as int, n, most);
    lemma_modest(low, most);
    lemma_close_sum(low, cell);
    lemma_modest(p, most);
    lemma_modest(half, most);
    lemma_close_sum(p, half);
    lemma_close_difference(p, half);
    lemma_next_edge(origin, cell, cells as int, n as int, most);
    let e: int = edge(origin, cell, n as int);
    let f: int = edge(origin, cell, n + 1);
    assert(size_of(e) <= 2 * most && size_of(f) <= 2 * most && f == e + cell.value());
    assert(size_of(low.value() - e) <= most / 1024);
    assert(0x20_0000_0000_0000 * size_of(right.value() - (p.value() + half.value())) <= 2 * most);
    assert(0x20_0000_0000_0000 * size_of(left.value() - (p.value() - half.value())) <= 2 * most);
    assert(0x20_0000_0000_0000 * size_of(high.value() - f) <= 11 * most);
    lemma_value_order(right, low);
    lemma_value_order(low, right);
    lemma_value_order(high, left);
    lemma_value_order(left, high);
    lemma_cell_coordinate(left, origin, cell, cells as int, n + 1, most);
    lemma_cell_coordinate(right, origin, cell, cells as int, n as int, most);
}

proof fn lemma_next_edge(origin: Real, cell: Real, cells: int, n: int, most: int)
    requires
        laid_out(origin, cell, cells, most),
        0 <= n < cells,
    ensures
        edge(origin, cell, n + 1) == edge(origin, cell, n) + cell.value(),
        size_of(edge(origin, cell, n)) <= 2 * most,
        size_of(edge(origin, cell, n + 1)) <= 2 * most,
{
    let s: int = cell.value();
    lemma_cell_is_modest(origin, cell, cells, most);
    assert((n + 1) * s == n * s + s) by (nonlinear_arith);
    assert(0 <= n * s && (n + 1) * s <= cells * s) by (nonlinear_arith)
        requires
            0 <= n,
            n + 1 <= cells,
            s > 0,
    ;
}

/// The distance to an interval whose ends are known up to a sliver.
proof fn lemma_clamped_gap(p: int, low: int, high: int, l: int, h: int, n: int, most: int)
    requires
        most > 0,
        low <= high,
        size_of(p) <= most,
        size_of(low) <= 2 * most,
        size_of(high) <= 2 * most,
        0x20_0000_0000_0000 * size_of(l - low) <= 11 * most,
        0x20_0000_0000_0000 * size_of(h - high) <= 11 * most,
        n == (if p < l {
            l
        } else if h < p {
            h
        } else {
            p
        }),
    ensures
        0x20_0000_0000_0000 * size_of(size_of(p - n) - gap_to(p, low, high)) <= 11 * most,
        0 <= gap_to(p, low, high) <= 3 * most,
        size_of(p - n) <= 4 * most,
        size_of(n) <= 4 * most,
{
}

/// Squares of distances that differ by a sliver.
proof fn lemma_squares_of_gaps(a: int, b: int, most: int)
    requires
        most > 0,
        0 <= a <= 4 * most,
        0 <= b <= 3 * most,
        0x20_0000_0000_0000 * size_of(a - b) <= 11 * most,
    ensures
        0x20_0000_0000_0000 * size_of(a * a - b * b) <= 77 * (most * most),
{
    let d: int = a - b;
    lemma_mul_bound(0x20_0000_0000_0000 * d, a + b, 11 * most, 7 * most);
    assert((0x20_0000_0000_0000 * d) * (a + b) == 0x20_0000_0000_0000 * (a * a - b * b))
        by (nonlinear_arith)
        requires
            d == a - b,
    ;
    assert((11 * most) * (7 * most) == 77 * (most * most)) by (nonlinear_arith);
}

/// How far a position is from a cell, exactly, against the computed distance from it
/// to the nearest point of the cell.
proof fn lemma_distance_to_cell(grid: &NavGrid, position: Point, radius: Real, col: usize, row: usize, most: int)
    requires
        grid_within(grid, most),
        within_bound(position, most),
        reaches(radius, most),
        grid.within(col as int, row as int),
    ensures
        ({
            let gx: int = gap_to(
                position.x.value(),
                edge(grid.origin.x, grid.cell_size, col as int),
                edge(grid.origin.x, grid.cell_size, col + 1),
            );
            let gz: int = gap_to(
                position.z.value(),
                edge(grid.origin.z, grid.cell_size, row as int),
                edge(grid.origin.z, grid.cell_size, row + 1),
            );
            let r: int = radius.value();
            let reached: bool = spec_overlaps(
                cell_corner(grid, col, row),
                grid.cell_size,
                position,
                Some(Collider::Circle { radius }),
            );
            &&& !reached ==> 0x20_0000_0000_0000 * (r * r - (gx * gx + gz * gz)) <= 512 * (most
                * most)
            &&& reached ==> 0x20_0000_0000_0000 * ((gx * gx + gz * gz) - r * r) <= 512 * (most
                * most)
        }),
{
    let low: Point = cell_corner(grid, col, row);
    let high: Point = Point { x: low.x.add(grid.cell_size), z: low.z.add(grid.cell_size) };
    let nearest: Point = Point {
        x: position.x.clamp(low.x, high.x),
        z: position.z.clamp(low.z, high.z),
    };
    let s: int = most * most;
    lemma_nearest_coordinate(grid.origin.x, grid.cell_size, grid.width, col, position.x, most);
    lemma_nearest_coordinate(grid.origin.z, grid.cell_size, grid.height, row, position.z, most);
    lemma_distance_sq(position, nearest, most);
    lemma_square_of(radius, most);
    let d: Real = distance_sq(position, nearest);
    let q: Real = radius.mul(radius);
    lemma_value_order(d, q);
    lemma_large_unit();
    let u: int = cell_unit();
    assert(d.value() <= q.value() ==> d.value() * u <= q.value() * u) by (nonlinear_arith)
        requires
            u > 0,
    ;
    assert(d.value() >= q.value() ==> d.value() * u >= q.value() * u) by (nonlinear_arith)
        requires
            u > 0,
    ;
}

/// The nearest coordinate of a column (or row) lies as far away as the column, up to a
/// sliver.
proof fn lemma_nearest_coordinate(origin: Real, cell: Real, cells: usize, n: usize, p: Real, most: int)
    requires
        laid_out(origin, cell, cells as int, most),
        n < cells <= isize::MAX,
        reaches(p, most),
    ensures
        ({
            let low: Real = origin.add(Real::from_count(n as u64).mul(cell));
            let nearest: Real = p.clamp(low, low.add(cell));
            let g: int = gap_to(p.value(), edge(origin, cell, n as int), edge(origin, cell, n + 1));
            let d: int = p.value() - nearest.value();
            &&& reaches(nearest, 4 * most)
            &&& size_of(d) <= 4 * most
            &&& 0x20_0000_0000_0000 * size_of(d * d - g * g) <= 77 * (most * most)
        }),
{
    let low: Real = origin.add(Real::from_count(n as u64).mul(cell));
    let high: Real = low.add(cell);
    let nearest: Real = p.clamp(low, high);
    let e: int = edge(origin, cell, n as int);
    let f: int = edge(origin, cell, n + 1);
    lemma_stretch(origin, cell, cells, n, p, p, most);
    lemma_next_edge(origin, cell, cells as int, n as int, most);
    lemma_cell_is_modest(origin, cell, cells as int, most);
    lemma_value_order(low, p);
    lemma_value_order(p, low);
    lemma_value_order(p, high);
    lemma_value_order(high, p);
    lemma_clamped_gap(p.value(), e, f, low.value(), high.value(), nearest.value(), most);
    let d: int = p.value() - nearest.value();
    lemma_squares_of_gaps(size_of(d), gap_to(p.value(), e, f), most);
    assert(size_of(d) * size_of(d) == d * d) by (nonlinear_arith)
        requires
            size_of(d) == d || size_of(d) == -d,
    ;
}

/// A point of a cell is no nearer than the cell.
proof fn lemma_point_of_cell(p: int, low: int, high: int, x: int, whole: int)
    requires
        whole > 0,
        low * whole <= x <= high * whole,
    ensures
        ({
            let g: int = gap_to(p, low, high);
            let d: int = x - p * whole;
            &&& g >= 0 && low <= high ==> g * whole <= size_of(d)
            &&& low <= high ==> (g * g) * (whole * whole) <= d * d
        }),
{
    let g: int = gap_to(p, low, high);
    let d: int = x - p * whole;
    assert(low <= high ==> g * whole <= size_of(d)) by (nonlinear_arith)
        requires
            whole > 0,
            low * whole <= x <= high * whole,
            d == x - p * whole,
            (p < low && g == low - p) || (p > high && g == p - high) || g == 0,
            size_of(d) >= d,
            size_of(d) >= -d,
    ;
    let e: int = size_of(d);
    assert(g >= 0 && g * whole <= e ==> (g * g) * (whole * whole) <= e * e) by (nonlinear_arith)
        requires
            whole > 0,
            e >= 0,
    ;
    assert(e * e == d * d) by (nonlinear_arith)
        requires
            e == d || e == -d,
    ;
}

/// Which of the cells of a column (or row) lie apart from a body that does not overlap
/// them.
proof fn lemma_unhindered(grid: &NavGrid, position: Point, collider: Collider, col: int, row: int, most: int)
    requires
        grid_within(grid, most),
        within_bound(position, most),
        body_within(Some(collider), most),
        grid.within(col, row),
        grid.blocked@[row * grid.width + col] != 0,
        !hinders(grid, position, Some(collider), col, row),
    ensures
        ({
            let half: Point = half_extents_of(collider);
            ||| apart(
                grid.origin.x,
                grid.cell_size,
                col,
                position.x.value(),
                half.x.value(),
                most,
            )
            ||| apart(
                grid.origin.z,
                grid.cell_size,
                row,
                position.z.value(),
                half.z.value(),
                most,
            )
            ||| collider is Circle && !spec_overlaps(
                cell_corner(grid, col as usize, row as usize),
                grid.cell_size,
                position,
                Some(collider),
            )
        }),
{
    let half: Point = half_extents_of(collider);
    lemma_stretch(
        grid.origin.x,
        grid.cell_size,
        grid.width,
        col as usize,
        position.x,
        half.x,
        most,
    );
    lemma_stretch(
        grid.origin.z,
        grid.cell_size,
        grid.height,
        row as usize,
        position.z,
        half.z,
        most,
    );
}

/// A stretch that lies apart from a column (or row) holds none of its points.
proof fn lemma_apart_holds_none(origin: Real, cell: Real, n: int, p: int, half: int, x: int, whole: int, most: int)
    requires
        apart(origin, cell, n, p, half, most),
        whole > 0,
        edge(origin, cell, n) * whole <= x <= edge(origin, cell, n + 1) * whole,
    ensures
        !(0x20_0000_0000_0000 * size_of(x - p * whole) < (0x20_0000_0000_0000 * half - 32 * most)
            * whole),
{
    let d: int = x - p * whole;
    let e: int = edge(origin, cell, n);
    let f: int = edge(origin, cell, n + 1);
    let k: int = (0x20_0000_0000_0000 * half - 32 * most) * whole;
    if 0x20_0000_0000_0000 * (p + half - e) <= 32 * most {
        assert(0x20_0000_0000_0000 * d >= k) by (nonlinear_arith)
            requires
                0x20_0000_0000_0000 * (p + half - e) <= 32 * most,
                whole > 0,
                e * whole <= x,
                d == x - p * whole,
                k == (0x20_0000_0000_0000 * half - 32 * most) * whole,
        ;
    } else {
        assert(0x20_0000_0000_0000 * (-d) >= k) by (nonlinear_arith)
            requires
                0x20_0000_0000_0000 * (f - (p - half)) <= 32 * most,
                whole > 0,
                x <= f * whole,
                d == x - p * whole,
                k == (0x20_0000_0000_0000 * half - 32 * most) * whole,
        ;
    }
}

/// A disc that reaches no farther into a column (or row) than a sliver.
proof fn lemma_apart_from_disc(origin: Real, cell: Real, n: int, p: int, r: int, most: int)
    requires
        apart(origin, cell, n, p, r, most),
        0 <= r <= most,
        edge(origin, cell, n) <= edge(origin, cell, n + 1),
    ensures
        ({
            let g: int = gap_to(p, edge(origin, cell, n), edge(origin, cell, n + 1));
            0x20_0000_0000_0000 * (r * r - g * g) <= 512 * (most * most)
        }),
{
    let g: int = gap_to(p, edge(origin, cell, n), edge(origin, cell, n + 1));
    let d: int = 0x20_0000_0000_0000 * (r - g);
    assert(d <= 32 * most);
    if g >= r {
        assert(r * r <= g * g) by (nonlinear_arith)
            requires
                0 <= r <= g,
        ;
        assert(most * most >= 0) by (nonlinear_arith);
    } else {
        assert(d * (r + g) <= (32 * most) * (2 * most)) by (nonlinear_arith)
            requires
                0 <= d <= 32 * most,
                0 <= r + g <= 2 * most,
        ;
        assert(d * (r + g) == 0x20_0000_0000_0000 * (r * r - g * g)) by (nonlinear_arith)
            requires
                d == 0x20_0000_0000_0000 * (r - g),
        ;
        assert((32 * most) * (2 * most) == 64 * (most * most)) by (nonlinear_arith);
    }
}

/// Where a body fits, no point of it lies in a blocked cell, but for a sliver along its
/// outline: no point of a box, of its whole width and depth, and no point of a disc.
pub proof fn lemma_fitting_body_lies_in_the_open(
    grid: &NavGrid,
    position: Point,
    collider: Collider,
    col: int,
    row: int,
    x: int,
    z: int,
    whole: int,
    most: int,
)
    requires
        grid_within(grid, most),
        within_bound(position, most),
        body_within(Some(collider), most),
        walkable(grid, position, Some(collider)),
        grid.within(col, row),
        grid.blocked@[row * grid.width + col] != 0,
        whole > 0,
        lies_in_cell(grid, col, row, x, z, whole),
    ensures
        !lies_in_body(position, collider, x, z, whole, most),
{
    lemma_unhindered(grid, position, collider, col, row, most);
    let ox: Real = grid.origin.x;
    let oz: Real = grid.origin.z;
    let s: Real = grid.cell_size;
    let px: int = position.x.value();
    let pz: int = position.z.value();
    lemma_next_edge(ox, s, grid.width as int, col, most);
    lemma_next_edge(oz, s, grid.height as int, row, most);
    lemma_cell_is_modest(ox, s, grid.width as int, most);
    match collider {
        Collider::Circle { radius } => {
            let r: int = radius.value();
            let gx: int = gap_to(px, edge(ox, s, col), edge(ox, s, col + 1));
            let gz: int = gap_to(pz, edge(oz, s, row), edge(oz, s, row + 1));
            if apart(ox, s, col, px, r, most) {
                lemma_apart_from_disc(ox, s, col, px, r, most);
            }
            if apart(oz, s, row, pz, r, most) {
                lemma_apart_from_disc(oz, s, row, pz, r, most);
            }
            lemma_distance_to_cell(grid, position, radius, col as usize, row as usize, most);
            assert(gx * gx >= 0 && gz * gz >= 0) by (nonlinear_arith);
            let m: int = 512 * (most * most);
            let k: int = 0x20_0000_0000_0000 * (r * r) - m;
            let g: int = gx * gx + gz * gz;
            assert(k <= 0x20_0000_0000_0000 * g);
            lemma_point_of_cell(px, edge(ox, s, col), edge(ox, s, col + 1), x, whole);
            lemma_point_of_cell(pz, edge(oz, s, row), edge(oz, s, row + 1), z, whole);
            let w: int = whole * whole;
            assert(g * w == (gx * gx) * w + (gz * gz) * w) by (nonlinear_arith)
                requires
                    g == gx * gx + gz * gz,
            ;
            assert(k * w <= 0x20_0000_0000_0000 * (g * w)) by (nonlinear_arith)
                requires
                    k <= 0x20_0000_0000_0000 * g,
                    w == whole * whole,
                    whole > 0,
            ;
        },
        Collider::Box { half_extents } => {
            if apart(ox, s, col, px, half_extents.x.value(), most) {
                lemma_apart_holds_none(ox, s, col, px, half_extents.x.value(), x, whole, most);
            } else {
                lemma_apart_holds_none(oz, s, row, pz, half_extents.z.value(), z, whole, most);
            }
        },
    }
}

/// Whether a stretch around a coordinate stays between the first and the last edge of
/// a grid, but for a sliver.
pub open spec fn stays_between(origin: Real, cell: Real, cells: int, p: int, half: int, most: int) -> bool {
    &&& 0x20_0000_0000_0000 * (origin.value() - (p - half)) <= 32 * most
    &&& 0x20_0000_0000_0000 * ((p + half) - edge(origin, cell, cells)) <= 32 * most
}

/// Whether a stretch around a coordinate comes as near to the first or the last edge
/// of a grid, from inside, as a sliver.
pub open spec fn comes_to_border(origin: Real, cell: Real, cells: int, p: int, half: int, most: int) -> bool {
    ||| 0x20_0000_0000_0000 * ((p - half) - origin.value()) <= 32 * most
    ||| 0x20_0000_0000_0000 * (edge(origin, cell, cells) - (p + half)) <= 32 * most
}

proof fn lemma_border(origin: Real, cell: Real, cells: usize, p: Real, half: Real, most: int)
    requires
        laid_out(origin, cell, cells as int, most),
        0 < cells,
        reaches(p, most),
        reaches(half, most),
    ensures
        ({
            let end: Real = origin.add(Real::from_count(cells as u64).mul(cell));
            let kept: bool = !p.sub(half).lt(origin) && !end.lt(p.add(half));
            &&& kept ==> stays_between(
                origin,
                cell,
                cells as int,
                p.value(),
                half.value(),
                most,
            )
            &&& !kept ==> comes_to_border(
                origin,
                cell,
                cells as int,
                p.value(),
                half.value(),
                most,
            )
        }),
{
    let end: Real = origin.add(Real::from_count(cells as u64).mul(cell));
    lemma_edge(origin, cell, cells as int, cells, most);
    lemma_modest(p, most);
    lemma_modest(half, most);
    lemma_close_sum(p, half);
    lemma_close_difference(p, half);
    lemma_value_order(origin, p.sub(half));
    lemma_value_order(p.sub(half), origin);
    lemma_value_order(p.add(half), end);
    lemma_value_order(end, p.add(half));
}

proof fn lemma_body_is_within(collider: Option<Collider>, most: int)
    requires
        body_within(collider, most),
        bounding(most),
    ensures
        within_bound(spec_body(collider), most),
        collider is None ==> spec_body(collider).x.value() == 0 && spec_body(collider).z.value()
            == 0,
{
    let zero: Real = Real::of(ZERO);
    assert(zero.magnitude() == 0);
    lemma_size_of_zero(zero);
    lemma_large_unit();
}

/// Where a body fits, it does not reach out of the grid, but for a sliver.
pub proof fn lemma_fitting_body_stays_in_the_grid(
    grid: &NavGrid,
    position: Point,
    collider: Option<Collider>,
    most: int,
)
    requires
        grid_within(grid, most),
        within_bound(position, most),
        body_within(collider, most),
        walkable(grid, position, collider),
    ensures
        ({
            let half: Point = spec_body(collider);
            &&& stays_between(
                grid.origin.x,
                grid.cell_size,
                grid.width as int,
                position.x.value(),
                half.x.value(),
                most,
            )
            &&& stays_between(
                grid.origin.z,
                grid.cell_size,
                grid.height as int,
                position.z.value(),
                half.z.value(),
                most,
            )
        }),
{
    let half: Point = spec_body(collider);
    lemma_body_is_within(collider, most);
    lemma_border(grid.origin.x, grid.cell_size, grid.width, position.x, half.x, most);
    lemma_border(grid.origin.z, grid.cell_size, grid.height, position.z, half.z, most);
}

/// Where something without a body fits, it lies no deeper in a blocked cell than a
/// sliver.
pub proof fn lemma_fitting_point_lies_in_the_open(
    grid: &NavGrid,
    position: Point,
    col: int,
    row: int,
    most: int,
)
    requires
        grid_within(grid, most),
        within_bound(position, most),
        walkable(grid, position, None),
        grid.within(col, row),
        grid.blocked@[row * grid.width + col] != 0,
    ensures
        apart(grid.origin.x, grid.cell_size, col, position.x.value(), 0, most) || apart(
            grid.origin.z,
            grid.cell_size,
            row,
            position.z.value(),
            0,
            most,
        ),
{
    let half: Point = spec_body(None);
    lemma_body_is_within(None, most);
    assert(!hinders(grid, position, None, col, row));
    lemma_stretch(
        grid.origin.x,
        grid.cell_size,
        grid.width,
        col as usize,
        position.x,
        half.x,
        most,
    );
    lemma_stretch(
        grid.origin.z,
        grid.cell_size,
        grid.height,
        row as usize,
        position.z,
        half.z,
        most,
    );
}

/// A coordinate in a column (or row) that is limited to the grid.
proof fn lemma_limited_column(origin: Real, cell: Real, cells: usize, n: usize, p: Real, half: Real, most: int)
    requires
        laid_out(origin, cell, cells as int, most),
        n < cells <= isize::MAX,
        reaches(p, most),
        reaches(half, most),
        half.value() == 0,
        clamp_index(cell_coordinate(p.sub(half), origin, cell), 0, (cells - 1) as isize) <= n,
        n <= clamp_index(cell_coordinate(p.add(half), origin, cell), 0, (cells - 1) as isize),
    ensures
        touching(origin, cell, n as int, p.value(), 0, most) || comes_to_border(
            origin,
            cell,
            cells as int,
            p.value(),
            0,
            most,
        ),
{
    let right: Real = p.add(half);
    let left: Real = p.sub(half);
    lemma_modest(p, most);
    lemma_modest(half, most);
    lemma_unit_is_nothing(most);
    lemma_close_sum(p, half);
    lemma_close_difference(p, half);
    lemma_cell_coordinate(left, origin, cell, cells as int, n + 1, most);
    lemma_cell_coordinate(left, origin, cell, cells as int, cells as int, most);
    lemma_cell_coordinate(right, origin, cell, cells as int, n as int, most);
    lemma_cell_coordinate(right, origin, cell, cells as int, 0, most);
    assert(0 * cell.value() == 0);
}

/// Whether a body comes as near to a cell as a sliver.
pub open spec fn meets(
    grid: &NavGrid,
    position: Point,
    collider: Option<Collider>,
    col: int,
    row: int,
    most: int,
) -> bool {
    let half: Point = spec_body(collider);
    let px: int = position.x.value();
    let pz: int = position.z.value();
    match collider {
        Some(Collider::Circle { radius }) => {
            let gx: int = gap_to(
                px,
                edge(grid.origin.x, grid.cell_size, col),
                edge(grid.origin.x, grid.cell_size, col + 1),
            );
            let gz: int = gap_to(
                pz,
                edge(grid.origin.z, grid.cell_size, row),
                edge(grid.origin.z, grid.cell_size, row + 1),
            );
            0x20_0000_0000_0000 * ((gx * gx + gz * gz) - radius.value() * radius.value()) <= 512 * (
            most * most)
        },
        _ => {
            &&& touching(grid.origin.x, grid.cell_size, col, px, half.x.value(), most)
            &&& touching(grid.origin.z, grid.cell_size, row, pz, half.z.value(), most)
        },
    }
}

/// Where a body does not fit, it comes to the border of the grid or to a blocked cell,
/// at least as near as a sliver.
pub proof fn lemma_unfit_body_meets_something(
    grid: &NavGrid,
    position: Point,
    collider: Option<Collider>,
    most: int,
)
    requires
        grid_within(grid, most),
        within_bound(position, most),
        body_within(collider, most),
        !walkable(grid, position, collider),
    ensures
        ({
            let half: Point = spec_body(collider);
            ||| comes_to_border(
                grid.origin.x,
                grid.cell_size,
                grid.width as int,
                position.x.value(),
                half.x.value(),
                most,
            )
            ||| comes_to_border(
                grid.origin.z,
                grid.cell_size,
                grid.height as int,
                position.z.value(),
                half.z.value(),
                most,
            )
            ||| exists|col: int, row: int|
                grid.within(col, row) && grid.blocked@[row * grid.width + col] != 0
                    && #[trigger] meets(grid, position, collider, col, row, most)
        }),
{
    let half: Point = spec_body(collider);
    lemma_body_is_within(collider, most);
    lemma_border(grid.origin.x, grid.cell_size, grid.width, position.x, half.x, most);
    lemma_border(grid.origin.z, grid.cell_size, grid.height, position.z, half.z, most);
    if spec_inside(grid, position, half) {
        let (col, row): (int, int) = choose|col: int, row: int| #[trigger]
            hinders(grid, position, collider, col, row);
        assert(grid.within(col, row));
        match collider {
            Some(Collider::Circle { radius }) => {
                lemma_distance_to_cell(grid, position, radius, col as usize, row as usize, most);
            },
            Some(Collider::Box { half_extents }) => {
                lemma_stretch(
                    grid.origin.x,
                    grid.cell_size,
                    grid.width,
                    col as usize,
                    position.x,
                    half.x,
                    most,
                );
                lemma_stretch(
                    grid.origin.z,
                    grid.cell_size,
                    grid.height,
                    row as usize,
                    position.z,
                    half.z,
                    most,
                );
            },
            None => {
                lemma_limited_column(
                    grid.origin.x,
                    grid.cell_size,
                    grid.width,
                    col as usize,
                    position.x,
                    half.x,
                    most,
                );
                lemma_limited_column(
                    grid.origin.z,
                    grid.cell_size,
                    grid.height,
                    row as usize,
                    position.z,
                    half.z,
                    most,
                );
            },
        }
        if !meets(grid, position, collider, col, row, most) {
            assert(collider is None);
            assert(comes_to_border(
                grid.origin.x,
                grid.cell_size,
                grid.width as int,
                position.x.value(),
                half.x.value(),
                most,
            ) || comes_to_border(
                grid.origin.z,
                grid.cell_size,
                grid.height as int,
                position.z.value(),
                half.z.value(),
                most,
            ));
        } else {
            assert(grid.blocked@[row * grid.width + col] != 0);
        }
    } else {
        assert(grid.bounds().0 == grid.origin);
    }
}

} // verus!
