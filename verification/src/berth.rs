//! How wide a berth the routes over a scene give to what stands in their way.
use vstd::arithmetic::div_mod::*;
use vstd::arithmetic::power2::*;
use vstd::prelude::*;

use crate::crossing::{cell_unit, lemma_large_unit};
use crate::geometry::{cell_coordinate, cell_middle, clamp_index, distance_sq, Point, HALF, ZERO};
use crate::lattice::{
    edge, laid_out, lemma_cell_coordinate, lemma_cell_is_modest, lemma_half, lemma_middle,
    lemma_quotient_is_finite, lemma_scaled_ints,
};
use crate::nearness::{
    bounding, lemma_close_difference, lemma_close_product, lemma_close_sum, lemma_distance_sq,
    lemma_modest, lemma_mul_bound, lemma_square_of, lemma_unit_is_nothing, reaches, size_of,
    within_bound,
};
use crate::number::{Real, INF};
use crate::ordering::{lemma_int_exact, lemma_value_order};
use crate::pathfinding::{
    clearance_reach, closed_ground, closes, collides, countable, covered, found_path, found_way,
    half_extents_of, in_disc, lemma_path_found_iff_route_exists, near_blocked, obstructed,
    obstructs, path_model, spec_touches_cell, PathOptions,
};
use crate::rounding::lemma_nearest_monotone;
use crate::scene::{Collider, Entity, NavGrid, Scene};
use crate::search::{
    adjoins, col_of, lemma_number, may_step, neighbour, row_of, step_col, step_row, Model,
};
use crate::unit::{lemma_quotient_error, lemma_quotient_error_below, lemma_size_of_zero};
use crate::walkable::grid_within;

verus! {

/// Twice the size of a collider, widened by the clearance and half a cell.
pub open spec fn doubled_reach(size: Real, clearance: Real, cell: Real) -> int {
    2 * (size.value() + clearance.value()) + cell.value()
}

/// Whether a point lies outside of a collider that is widened by the clearance and half
/// a cell, but for a sliver: of a disc, 2048 parts in `2^53` of the square of a bound;
/// of a box, 128 parts of the bound along one axis. Lengths are doubled.
pub open spec fn keeps_off(
    point: Point,
    position: Point,
    collider: Collider,
    clearance: Real,
    cell: Real,
    most: int,
) -> bool {
    let dx: int = 2 * (point.x.value() - position.x.value());
    let dz: int = 2 * (point.z.value() - position.z.value());
    match collider {
        Collider::Circle { radius } => {
            let reach: int = doubled_reach(radius, clearance, cell);
            0x20_0000_0000_0000 * (reach * reach - (dx * dx + dz * dz)) <= 2048 * (most * most)
        },
        Collider::Box { half_extents } => {
            ||| 0x20_0000_0000_0000 * (doubled_reach(half_extents.x, clearance, cell) - size_of(dx))
                <= 128 * most
            ||| 0x20_0000_0000_0000 * (doubled_reach(half_extents.z, clearance, cell) - size_of(dz))
                <= 128 * most
        },
    }
}

/// Whether a point lies in a collider that is widened by the clearance, half a cell and
/// the same sliver.
pub open spec fn comes_near(
    point: Point,
    position: Point,
    collider: Collider,
    clearance: Real,
    cell: Real,
    most: int,
) -> bool {
    let dx: int = 2 * (point.x.value() - position.x.value());
    let dz: int = 2 * (point.z.value() - position.z.value());
    match collider {
        Collider::Circle { radius } => {
            let reach: int = doubled_reach(radius, clearance, cell);
            0x20_0000_0000_0000 * ((dx * dx + dz * dz) - reach * reach) <= 2048 * (most * most)
        },
        Collider::Box { half_extents } => {
            &&& 0x20_0000_0000_0000 * (size_of(dx) - doubled_reach(half_extents.x, clearance, cell))
                <= 128 * most
            &&& 0x20_0000_0000_0000 * (size_of(dz) - doubled_reach(half_extents.z, clearance, cell))
                <= 128 * most
        },
    }
}

/// Whether the sizes of a collider are numbers within a bound, and a disc that is
/// widened by the clearance and half a cell is one.
pub open spec fn collider_within(collider: Collider, clearance: Real, cell: Real, most: int) -> bool {
    &&& reaches(clearance, most)
    &&& match collider {
        Collider::Circle { radius } => reaches(radius, most) && 0 <= doubled_reach(
            radius,
            clearance,
            cell,
        ),
        Collider::Box { half_extents } => within_bound(half_extents, most),
    }
}

/// The computed reach of a collider is its reach, up to a sliver.
proof fn lemma_reach(size: Real, clearance: Real, cell: Real, most: int)
    requires
        bounding(most),
        reaches(size, most),
        reaches(clearance, most),
        reaches(cell, most),
        cell.value() > 0,
        !cell.negative(),
    ensures
        ({
            let wide: Real = size.add(clearance);
            let reach: Real = wide.add(cell.mul(Real::of(HALF)));
            &&& reaches(wide, 2 * most + most / 1024)
            &&& 0x20_0000_0000_0000 * size_of(
                wide.value() - (size.value() + clearance.value()),
            ) <= 2 * most
            &&& reaches(reach, 4 * most)
            &&& 0x20_0000_0000_0000 * size_of(
                2 * reach.value() - doubled_reach(size, clearance, cell),
            ) <= 24 * most
        }),
{
    let half: Real = Real::of(HALF);
    let wide: Real = size.add(clearance);
    let h: Real = cell.mul(half);
    let u: int = cell_unit();
    lemma_unit_is_nothing(most);
    lemma_large_unit();
    lemma_half();
    lemma_modest(size, most);
    lemma_modest(clearance, most);
    lemma_modest(cell, most);
    lemma_close_sum(size, clearance);
    lemma_close_product(cell, half);
    assert(!h.negative()) by {
        reveal(Real::spec_mul);
    }
    let s: int = cell.value();
    let r: int = half.value();
    assert(r * s == s * r) by (nonlinear_arith);
    assert(1 * s == s && 1 * u == u);
    lemma_scaled_ints(u, most, r, 1, s, h.value());
    lemma_modest(wide, most);
    lemma_modest(h, most);
    lemma_close_sum(wide, h);
    let t: int = wide.value() + h.value();
    assert(h.value() <= most / 2 + most / 1024 + 1);
    assert(size_of(wide.value()) <= 2 * most + most / 1024);
    assert(size_of(t) <= 3 * most);
}

/// The columns (or rows) that a collider is compared with hold every middle that it
/// reaches, up to a sliver.
proof fn lemma_range(
    origin: Real,
    cell: Real,
    cells: usize,
    n: usize,
    p: Real,
    size: Real,
    clearance: Real,
    most: int,
)
    requires
        laid_out(origin, cell, cells as int, most),
        n < cells <= isize::MAX,
        reaches(p, most),
        reaches(size, most),
        reaches(clearance, most),
    ensures
        ({
            let wide: Real = size.add(clearance);
            let first: int = clamp_index(
                cell_coordinate(p.sub(wide).sub(cell), origin, cell),
                0,
                (cells - 1) as isize,
            ) as int;
            let last: int = clamp_index(
                cell_coordinate(p.add(wide).add(cell), origin, cell),
                0,
                (cells - 1) as isize,
            ) as int;
            let d: int = 2 * (cell_middle(n, origin, cell).value() - p.value());
            !(first <= n <= last) ==> 0x20_0000_0000_0000 * (doubled_reach(size, clearance, cell)
                - size_of(d)) <= 128 * most
        }),
{
    let wide: Real = size.add(clearance);
    let left: Real = p.sub(wide).sub(cell);
    let right: Real = p.add(wide).add(cell);
    let c: Real = cell_middle(n, origin, cell);
    let s: int = cell.value();
    lemma_cell_is_modest(origin, cell, cells as int, most);
    lemma_reach(size, clearance, cell, most);
    lemma_middle(origin, cell, cells as int, n, most);
    lemma_left_end(p, wide, cell, most);
    lemma_right_end(p, wide, cell, most);
    lemma_cell_coordinate(left, origin, cell, cells as int, n + 1, most);
    lemma_cell_coordinate(right, origin, cell, cells as int, n as int, most);
    assert((n + 1) * s == n * s + s) by (nonlinear_arith);
    assert((2 * n + 1) * s == 2 * (n * s) + s) by (nonlinear_arith);
    lemma_far_along(
        edge(origin, cell, n as int),
        s,
        c.value(),
        p.value(),
        size.value() + clearance.value(),
        wide.value(),
        left.value(),
        right.value(),
        most,
    );
}

proof fn lemma_left_end(p: Real, wide: Real, cell: Real, most: int)
    requires
        bounding(most),
        reaches(p, most),
        reaches(wide, 2 * most + most / 1024),
        reaches(cell, most),
    ensures
        ({
            let left: Real = p.sub(wide).sub(cell);
            &&& reaches(left, 5 * most)
            &&& 0x20_0000_0000_0000 * size_of(left.value() - (p.value() - wide.value() - cell.value()))
                <= 10 * most
        }),
{
    lemma_unit_is_nothing(most);
    lemma_modest(p, most);
    lemma_modest(wide, most);
    lemma_modest(cell, most);
    lemma_close_difference(p, wide);
    lemma_modest(p.sub(wide), most);
    lemma_close_difference(p.sub(wide), cell);
}

proof fn lemma_right_end(p: Real, wide: Real, cell: Real, most: int)
    requires
        bounding(most),
        reaches(p, most),
        reaches(wide, 2 * most + most / 1024),
        reaches(cell, most),
    ensures
        ({
            let right: Real = p.add(wide).add(cell);
            &&& reaches(right, 5 * most)
            &&& 0x20_0000_0000_0000 * size_of(
                right.value() - (p.value() + wide.value() + cell.value()),
            ) <= 10 * most
        }),
{
    lemma_unit_is_nothing(most);
    lemma_modest(p, most);
    lemma_modest(wide, most);
    lemma_modest(cell, most);
    lemma_close_sum(p, wide);
    lemma_modest(p.add(wide), most);
    lemma_close_sum(p.add(wide), cell);
}

/// A middle beyond the ends of a stretch is as far away as the stretch is long.
proof fn lemma_far_along(
    e: int,
    s: int,
    c: int,
    p: int,
    wanted: int,
    wide: int,
    left: int,
    right: int,
    most: int,
)
    requires
        most > 0,
        s > 0,
        0x20_0000_0000_0000 * size_of(2 * c - (2 * e + s)) <= 16 * most,
        0x20_0000_0000_0000 * size_of(wide - wanted) <= 2 * most,
        0x20_0000_0000_0000 * size_of(left - (p - wide - s)) <= 10 * most,
        0x20_0000_0000_0000 * size_of(right - (p + wide + s)) <= 10 * most,
    ensures
        0x20_0000_0000_0000 * (e + s - left) <= 16 * most ==> 0x20_0000_0000_0000 * (2 * wanted + s
            - size_of(2 * (c - p))) <= 128 * most,
        0x20_0000_0000_0000 * (right - e) <= 16 * most ==> 0x20_0000_0000_0000 * (2 * wanted + s
            - size_of(2 * (c - p))) <= 128 * most,
{
}

/// Comparing the distance along one axis with a reach decides, up to a sliver, whether
/// the middle of a column (or row) lies within it.
proof fn lemma_side(
    origin: Real,
    cell: Real,
    cells: usize,
    n: usize,
    p: Real,
    size: Real,
    clearance: Real,
    most: int,
)
    requires
        laid_out(origin, cell, cells as int, most),
        n < cells <= isize::MAX,
        reaches(p, most),
        reaches(size, most),
        reaches(clearance, most),
    ensures
        ({
            let c: Real = cell_middle(n, origin, cell);
            let reach: Real = size.add(clearance).add(cell.mul(Real::of(HALF)));
            let d: int = 2 * (c.value() - p.value());
            let wanted: int = doubled_reach(size, clearance, cell);
            &&& !c.sub(p).abs().le(reach) ==> 0x20_0000_0000_0000 * (wanted - size_of(d)) <= 128
                * most
            &&& c.sub(p).abs().le(reach) ==> 0x20_0000_0000_0000 * (size_of(d) - wanted) <= 128
                * most
        }),
{
    let c: Real = cell_middle(n, origin, cell);
    let reach: Real = size.add(clearance).add(cell.mul(Real::of(HALF)));
    lemma_cell_is_modest(origin, cell, cells as int, most);
    lemma_reach(size, clearance, cell, most);
    lemma_middle(origin, cell, cells as int, n, most);
    lemma_compared(c, p, reach, doubled_reach(size, clearance, cell), most);
}

proof fn lemma_compared(c: Real, p: Real, reach: Real, wanted: int, most: int)
    requires
        bounding(most),
        reaches(c, 3 * most),
        reaches(p, most),
        reach.finite(),
        0x20_0000_0000_0000 * size_of(2 * reach.value() - wanted) <= 24 * most,
    ensures
        ({
            let d: int = 2 * (c.value() - p.value());
            &&& !c.sub(p).abs().le(reach) ==> 0x20_0000_0000_0000 * (wanted - size_of(d)) <= 128
                * most
            &&& c.sub(p).abs().le(reach) ==> 0x20_0000_0000_0000 * (size_of(d) - wanted) <= 128
                * most
        }),
{
    lemma_modest(c, most);
    lemma_modest(p, most);
    lemma_close_difference(c, p);
    let a: Real = c.sub(p);
    assert(a.abs().finite() && a.abs().value() == size_of(a.value()));
    lemma_value_order(a.abs(), reach);
    let d: int = c.value() - p.value();
    assert(size_of(d) <= 4 * most);
    assert(0x20_0000_0000_0000 * (size_of(a.value()) - size_of(d)) <= 4 * most);
    assert(0x20_0000_0000_0000 * (size_of(d) - size_of(a.value())) <= 4 * most);
    assert(size_of(2 * d) == 2 * size_of(d));
}

/// Squares of lengths that differ by a sliver.
proof fn lemma_squares(a: int, b: int, e: int, most: int)
    requires
        most > 0,
        e >= 0,
        size_of(a) <= 6 * most,
        size_of(b) <= 5 * most,
        0x20_0000_0000_0000 * size_of(a - b) <= e * most,
    ensures
        0x20_0000_0000_0000 * size_of(a * a - b * b) <= (11 * e) * (most * most),
{
    let d: int = a - b;
    lemma_mul_bound(0x20_0000_0000_0000 * d, a + b, e * most, 11 * most);
    assert((0x20_0000_0000_0000 * d) * (a + b) == 0x20_0000_0000_0000 * (a * a - b * b))
        by (nonlinear_arith)
        requires
            d == a - b,
    ;
    assert((e * most) * (11 * most) == (11 * e) * (most * most)) by (nonlinear_arith);
}

/// Comparing the squares of distance and reach decides, up to a sliver, whether the
/// middle of a cell lies within the reach of a disc.
proof fn lemma_disc(grid: &NavGrid, col: usize, row: usize, position: Point, radius: Real, clearance: Real, most: int)
    requires
        grid_within(grid, most),
        grid.within(col as int, row as int),
        within_bound(position, most),
        collider_within(Collider::Circle { radius }, clearance, grid.cell_size, most),
    ensures
        ({
            let collider: Collider = Collider::Circle { radius };
            let center: Point = grid.center(col, row);
            let touched: bool = spec_touches_cell(
                grid.cell_size,
                center,
                position,
                collider,
                clearance,
            );
            &&& !touched ==> keeps_off(
                center,
                position,
                collider,
                clearance,
                grid.cell_size,
                most,
            )
            &&& touched ==> comes_near(
                center,
                position,
                collider,
                clearance,
                grid.cell_size,
                most,
            )
        }),
{
    let s: Real = grid.cell_size;
    let center: Point = grid.center(col, row);
    let reach: Real = radius.add(clearance).add(s.mul(Real::of(HALF)));
    let wanted: int = doubled_reach(radius, clearance, s);
    let m: int = most * most;
    let u: int = cell_unit();
    lemma_unit_is_nothing(most);
    lemma_large_unit();
    lemma_cell_is_modest(grid.origin.x, s, grid.width as int, most);
    lemma_reach(radius, clearance, s, most);
    lemma_middle(grid.origin.x, s, grid.width as int, col, most);
    lemma_middle(grid.origin.z, s, grid.height as int, row, most);
    lemma_distance_sq(center, position, most);
    lemma_square_of(reach, most);
    let d: Real = distance_sq(center, position);
    let q: Real = reach.mul(reach);
    lemma_value_order(d, q);
    assert(d.value() <= q.value() ==> d.value() * u <= q.value() * u) by (nonlinear_arith)
        requires
            u > 0,
    ;
    assert(d.value() >= q.value() ==> d.value() * u >= q.value() * u) by (nonlinear_arith)
        requires
            u > 0,
    ;
    let r: int = reach.value();
    lemma_squares(2 * r, wanted, 24, most);
    assert((2 * r) * (2 * r) == 4 * (r * r)) by (nonlinear_arith);
    let ex: int = center.x.value() - position.x.value();
    let ez: int = center.z.value() - position.z.value();
    assert((2 * ex) * (2 * ex) == 4 * (ex * ex)) by (nonlinear_arith);
    assert((2 * ez) * (2 * ez) == 4 * (ez * ez)) by (nonlinear_arith);
    assert((11 * 24) * m == 264 * m);
}

/// A disc that is farther away along one axis.
proof fn lemma_far_from_disc(reach: int, d: int, e: int, most: int)
    requires
        0 <= reach <= 5 * most,
        0x20_0000_0000_0000 * (reach - size_of(d)) <= 128 * most,
        most > 0,
    ensures
        0x20_0000_0000_0000 * (reach * reach - (d * d + e * e)) <= 2048 * (most * most),
{
    let a: int = size_of(d);
    let g: int = 0x20_0000_0000_0000 * (reach - a);
    assert(a * a == d * d) by (nonlinear_arith)
        requires
            a == d || a == -d,
    ;
    assert(e * e >= 0 && most * most >= 0) by (nonlinear_arith);
    if a >= reach {
        assert(reach * reach <= a * a) by (nonlinear_arith)
            requires
                0 <= reach <= a,
        ;
    } else {
        assert(g * (reach + a) <= (128 * most) * (10 * most)) by (nonlinear_arith)
            requires
                0 <= g <= 128 * most,
                0 <= reach + a <= 10 * most,
        ;
        assert(g * (reach + a) == 0x20_0000_0000_0000 * (reach * reach - a * a)) by (nonlinear_arith)
            requires
                g == 0x20_0000_0000_0000 * (reach - a),
        ;
        assert((128 * most) * (10 * most) == 1280 * (most * most)) by (nonlinear_arith);
    }
}

/// A collider closes the cells whose middles lie within its size, the clearance and half
/// a cell, and no others, but for a sliver either way: of a disc, by the distance; of a
/// box, along each axis.
pub proof fn lemma_collider_closes_what_is_near(
    grid: &NavGrid,
    position: Point,
    collider: Collider,
    clearance: Real,
    col: int,
    row: int,
    most: int,
)
    requires
        grid_within(grid, most),
        grid.within(col, row),
        within_bound(position, most),
        collider_within(collider, clearance, grid.cell_size, most),
    ensures
        ({
            let center: Point = grid.center(col as usize, row as usize);
            &&& !keeps_off(center, position, collider, clearance, grid.cell_size, most)
                ==> collides(grid, position, collider, clearance, col, row)
            &&& !comes_near(center, position, collider, clearance, grid.cell_size, most)
                ==> !collides(grid, position, collider, clearance, col, row)
        }),
{
    let half: Point = half_extents_of(collider);
    let s: Real = grid.cell_size;
    let c: usize = col as usize;
    let r: usize = row as usize;
    let center: Point = grid.center(c, r);
    lemma_range(grid.origin.x, s, grid.width, c, position.x, half.x, clearance, most);
    lemma_range(grid.origin.z, s, grid.height, r, position.z, half.z, clearance, most);
    let dx: int = 2 * (center.x.value() - position.x.value());
    let dz: int = 2 * (center.z.value() - position.z.value());
    match collider {
        Collider::Circle { radius } => {
            let reach: int = doubled_reach(radius, clearance, s);
            lemma_cell_is_modest(grid.origin.x, s, grid.width as int, most);
            lemma_disc(grid, c, r, position, radius, clearance, most);
            if 0x20_0000_0000_0000 * (reach - size_of(dx)) <= 128 * most {
                lemma_far_from_disc(reach, dx, dz, most);
            }
            if 0x20_0000_0000_0000 * (reach - size_of(dz)) <= 128 * most {
                lemma_far_from_disc(reach, dz, dx, most);
            }
        },
        Collider::Box { half_extents } => {
            lemma_side(grid.origin.x, s, grid.width, c, position.x, half.x, clearance, most);
            lemma_side(grid.origin.z, s, grid.height, r, position.z, half.z, clearance, most);
        },
    }
}

/// Square of the distance between the middles of two cells, in cells.
pub open spec fn cells_apart_sq(col: int, row: int, c: int, r: int) -> int {
    (col - c) * (col - c) + (row - r) * (row - r)
}

proof fn lemma_counts_in_order(a: int, b: int)
    requires
        0 <= a <= b <= isize::MAX,
    ensures
        !Real::from_int(b as isize).lt(Real::from_int(a as isize)),
        b < 0x20_0000_0000_0000 && a < b ==> Real::from_int(a as isize).lt(
            Real::from_int(b as isize),
        ),
{
    lemma_nearest_monotone(a as nat, b as nat, 0, 53, -1074, INF as nat);
    if b < 0x20_0000_0000_0000 && a < b {
        let x: Real = Real::from_int(a as isize);
        let y: Real = Real::from_int(b as isize);
        let u: int = cell_unit();
        lemma_large_unit();
        lemma_int_exact(b as isize);
        if a > 0 {
            lemma_int_exact(a as isize);
        } else {
            assert(x.magnitude() == 0);
            lemma_size_of_zero(x);
            assert(a * u == 0) by (nonlinear_arith)
                requires
                    a == 0,
            ;
        }
        assert(a * u < b * u) by (nonlinear_arith)
            requires
                a < b,
                u > 0,
        ;
        lemma_value_order(y, x);
    }
}

/// How many cells a clearance is, up to a sliver and one cell more.
proof fn lemma_cells_of_clearance(u: int, most: int, c: int, d: int, l: int, n: int)
    requires
        u >= 0x20_0000_0000_0000,
        0 < l <= most,
        0 <= c <= most,
        d >= 0,
        n >= 0,
        d <= n * u,
        (n - 1) * u < d || n == 0,
        0x1f_ffff_ffff_ffff * (c * u) <= 0x20_0000_0000_0001 * (d * l) + 0x20_0000_0000_0000 * l,
        0x1f_ffff_ffff_ffff * (d * l) <= 0x20_0000_0000_0001 * (c * u) + 0x20_0000_0000_0000 * l,
    ensures
        0x20_0000_0000_0000 * (c - n * l) <= 5 * most,
        0x20_0000_0000_0000 * (n * l - l - c) <= 5 * most,
        0 <= n * l <= 3 * most,
{
    let nl: int = n * l;
    let lu: int = l * u;
    let dl: int = d * l;
    assert(0x20_0000_0000_0000 * l <= lu) by (nonlinear_arith)
        requires
            lu == l * u,
            u >= 0x20_0000_0000_0000,
            l > 0,
    ;
    assert(0 <= nl && dl <= nl * u) by (nonlinear_arith)
        requires
            nl == n * l,
            dl == d * l,
            d <= n * u,
            n >= 0,
            l > 0,
    ;
    assert(nl * u - lu <= dl) by (nonlinear_arith)
        requires
            nl == n * l,
            lu == l * u,
            dl == d * l,
            (n - 1) * u < d || n == 0,
            d >= 0,
            l > 0,
            u > 0,
    ;
    assert(0x1f_ffff_ffff_ffff * c <= 0x20_0000_0000_0001 * nl + l) by (nonlinear_arith)
        requires
            0x1f_ffff_ffff_ffff * (c * u) <= 0x20_0000_0000_0001 * (nl * u) + lu,
            lu == l * u,
            u > 0,
    ;
    assert(0x1f_ffff_ffff_ffff * (nl - l) <= 0x20_0000_0000_0001 * c + l) by (nonlinear_arith)
        requires
            0x1f_ffff_ffff_ffff * (nl * u - lu) <= 0x20_0000_0000_0001 * (c * u) + lu,
            lu == l * u,
            u > 0,
    ;
}

proof fn lemma_ceiling(v: int, u: int)
    requires
        u > 0,
        v >= 0,
    ensures
        ({
            let n: int = -((-v) / u);
            &&& n >= 0
            &&& v <= n * u
            &&& (n - 1) * u < v || n == 0
        }),
{
    lemma_fundamental_div_mod(-v, u);
    lemma_mod_bound(-v, u);
    let f: int = (-v) / u;
    let r: int = (-v) % u;
    let n: int = -f;
    assert(u * f == -(n * u)) by (nonlinear_arith)
        requires
            n == -f,
    ;
    assert((n - 1) * u == n * u - u) by (nonlinear_arith);
    assert(n >= 0) by (nonlinear_arith)
        requires
            v == n * u - r,
            v >= 0,
            r >= 0,
            u > 0,
    ;
}

/// The reach of a clearance in cells: all that it covers, and not a cell more, up to a
/// sliver.
proof fn lemma_clearance_reach(grid: &NavGrid, clearance: Real, most: int)
    requires
        grid_within(grid, most),
        reaches(clearance, most),
        clearance.value() > 0,
    ensures
        ({
            let n: int = clearance_reach(grid, clearance) as int;
            let nl: int = n * grid.cell_size.value();
            &&& 0 <= n
            &&& n < isize::MAX ==> {
                &&& 0x20_0000_0000_0000 * (clearance.value() - nl) <= 5 * most
                &&& 0x20_0000_0000_0000 * (nl - grid.cell_size.value() - clearance.value()) <= 5
                    * most
                &&& 0 <= nl <= 3 * most
            }
        }),
{
    let s: Real = grid.cell_size;
    let q: Real = clearance.div(s);
    let u: int = cell_unit();
    lemma_cell_is_modest(grid.origin.x, s, grid.width as int, most);
    lemma_modest(clearance, most);
    lemma_quotient_is_finite(clearance, s);
    lemma_large_unit();
    lemma2_to64_rest();
    if clearance.magnitude() == 0 {
        lemma_size_of_zero(clearance);
    }
    if s.magnitude() == 0 {
        lemma_size_of_zero(s);
    }
    assert(!q.negative()) by {
        reveal(Real::spec_div);
    }
    lemma_quotient_error(clearance, s);
    lemma_quotient_error_below(clearance, s);
    lemma_ceiling(q.value(), u);
    let n: int = q.ceiling();
    lemma_cells_of_clearance(u, most, clearance.value(), q.value(), s.value(), n);
}

/// A clearance closes a cell where a blocked one lies so near that their middles are no
/// farther apart than the clearance; a cell that it closes has a blocked one whose
/// middle is no farther away than the clearance and one cell more. Both hold up to a
/// sliver; the second for clearances of less than `2^15` cells.
pub proof fn lemma_clearance_closes_what_is_near(
    grid: &NavGrid,
    clearance: Real,
    col: int,
    row: int,
    most: int,
)
    requires
        grid_within(grid, most),
        grid.within(col, row),
        reaches(clearance, most),
        clearance.value() > 0,
    ensures
        ({
            let s: int = grid.cell_size.value();
            let k: int = clearance.value();
            &&& !near_blocked(grid, clearance, col, row) ==> forall|c: int, r: int|
                #[trigger] grid.within(c, r) && grid.blocked@[r * grid.width + c] != 0
                    ==> 0x20_0000_0000_0000 * (k * k - cells_apart_sq(col, row, c, r) * (s * s))
                    <= 32 * (most * most)
            &&& near_blocked(grid, clearance, col, row) && clearance_reach(grid, clearance)
                < 0x8000 ==> exists|c: int, r: int|
                #[trigger] grid.within(c, r) && grid.blocked@[r * grid.width + c] != 0
                    && 0x20_0000_0000_0000 * (cells_apart_sq(col, row, c, r) * (s * s) - (k + s) * (k
                    + s)) <= 64 * (most * most)
        }),
{
    let n: isize = clearance_reach(grid, clearance);
    let s: int = grid.cell_size.value();
    let k: int = clearance.value();
    let nl: int = n * s;
    lemma_clearance_reach(grid, clearance, most);
    lemma_cell_is_modest(grid.origin.x, grid.cell_size, grid.width as int, most);
    assert((n * n) * (s * s) == nl * nl) by (nonlinear_arith)
        requires
            nl == n * s,
    ;
    if !near_blocked(grid, clearance, col, row) {
        assert forall|c: int, r: int| #[trigger]
            grid.within(c, r) && grid.blocked@[r * grid.width + c] != 0 implies 0x20_0000_0000_0000
            * (k * k - cells_apart_sq(col, row, c, r) * (s * s)) <= 32 * (most * most) by {
            assert(!closes(grid, n, col, row, c, r));
            lemma_beyond(n, col - c, row - r);
            lemma_not_nearer(k, nl, n as int, s, cells_apart_sq(col, row, c, r), most);
        }
    } else if n < 0x8000 {
        let (c, r): (int, int) = choose|c: int, r: int| #[trigger]
            closes(grid, n, col, row, c, r);
        lemma_within(n, col - c, row - r);
        lemma_not_farther(k, nl, n as int, s, cells_apart_sq(col, row, c, r), most);
        assert(grid.within(c, r));
    }
}

/// What lies outside of a disc of cells.
proof fn lemma_beyond(reach: isize, dx: int, dz: int)
    requires
        0 <= reach,
        !in_disc(reach, dx, dz),
        -isize::MAX <= dx <= isize::MAX,
        -isize::MAX <= dz <= isize::MAX,
    ensures
        reach < isize::MAX,
        reach * reach < dx * dx + dz * dz,
{
    let a: int = reach * reach;
    let b: int = dx * dx + dz * dz;
    assert(dx * dx >= 0 && dz * dz >= 0 && a >= 0) by (nonlinear_arith)
        requires
            a == reach * reach,
    ;
    if -reach <= dx <= reach && -reach <= dz <= reach {
        if b <= a {
            lemma_counts_in_order(countable(b) as int, countable(a) as int);
        }
        if reach == isize::MAX {
            assert(a >= isize::MAX) by (nonlinear_arith)
                requires
                    a == reach * reach,
                    reach == isize::MAX,
                    isize::MAX >= 1,
            ;
            lemma_counts_in_order(countable(b) as int, countable(a) as int);
        }
    } else if !(-reach <= dx <= reach) {
        assert(dx * dx > a) by (nonlinear_arith)
            requires
                a == reach * reach,
                dx > reach || dx < -reach,
                reach >= 0,
        ;
    } else {
        assert(dz * dz > a) by (nonlinear_arith)
            requires
                a == reach * reach,
                dz > reach || dz < -reach,
                reach >= 0,
        ;
    }
}

/// What lies in a disc of cells.
proof fn lemma_within(reach: isize, dx: int, dz: int)
    requires
        in_disc(reach, dx, dz),
        reach < 0x8000,
    ensures
        dx * dx + dz * dz <= reach * reach,
{
    let a: int = reach * reach;
    let b: int = dx * dx + dz * dz;
    assert(0 <= a <= 0x3fff_0001) by (nonlinear_arith)
        requires
            a == reach * reach,
            0 <= reach < 0x8000,
    ;
    assert(0 <= b <= 2 * a) by (nonlinear_arith)
        requires
            a == reach * reach,
            b == dx * dx + dz * dz,
            -reach <= dx <= reach,
            -reach <= dz <= reach,
    ;
    if a < b {
        lemma_counts_in_order(countable(a) as int, countable(b) as int);
    }
}

proof fn lemma_not_nearer(k: int, nl: int, n: int, s: int, d: int, most: int)
    requires
        0 < k <= most,
        0 <= nl <= 3 * most,
        s > 0,
        n * n < d,
        (n * n) * (s * s) == nl * nl,
        0x20_0000_0000_0000 * (k - nl) <= 5 * most,
    ensures
        0x20_0000_0000_0000 * (k * k - d * (s * s)) <= 32 * (most * most),
{
    assert(nl * nl <= d * (s * s)) by (nonlinear_arith)
        requires
            (n * n) * (s * s) == nl * nl,
            n * n < d,
            s > 0,
    ;
    let g: int = 0x20_0000_0000_0000 * (k - nl);
    assert(most * most >= 0) by (nonlinear_arith);
    if k <= nl {
        assert(k * k <= nl * nl) by (nonlinear_arith)
            requires
                0 <= k <= nl,
        ;
    } else {
        assert(g * (k + nl) <= (5 * most) * (4 * most)) by (nonlinear_arith)
            requires
                0 <= g <= 5 * most,
                0 <= k + nl <= 4 * most,
        ;
        assert(g * (k + nl) == 0x20_0000_0000_0000 * (k * k - nl * nl)) by (nonlinear_arith)
            requires
                g == 0x20_0000_0000_0000 * (k - nl),
        ;
        assert((5 * most) * (4 * most) == 20 * (most * most)) by (nonlinear_arith);
    }
}

proof fn lemma_not_farther(k: int, nl: int, n: int, s: int, d: int, most: int)
    requires
        0 < k <= most,
        0 < s <= most,
        0 <= nl <= 3 * most,
        d <= n * n,
        (n * n) * (s * s) == nl * nl,
        0x20_0000_0000_0000 * (nl - s - k) <= 5 * most,
    ensures
        0x20_0000_0000_0000 * (d * (s * s) - (k + s) * (k + s)) <= 64 * (most * most),
{
    assert(d * (s * s) <= nl * nl) by (nonlinear_arith)
        requires
            (n * n) * (s * s) == nl * nl,
            d <= n * n,
            s > 0,
    ;
    let e: int = k + s;
    let g: int = 0x20_0000_0000_0000 * (nl - e);
    assert(most * most >= 0) by (nonlinear_arith);
    if nl <= e {
        assert(nl * nl <= e * e) by (nonlinear_arith)
            requires
                0 <= nl <= e,
        ;
    } else {
        assert(g * (nl + e) <= (5 * most) * (5 * most)) by (nonlinear_arith)
            requires
                0 <= g <= 5 * most,
                0 <= nl + e <= 5 * most,
        ;
        assert(g * (nl + e) == 0x20_0000_0000_0000 * (nl * nl - e * e)) by (nonlinear_arith)
            requires
                g == 0x20_0000_0000_0000 * (nl - e),
        ;
        assert((5 * most) * (5 * most) == 25 * (most * most)) by (nonlinear_arith);
    }
}

/// Whether an entity is one that routes go around, with numbers within a bound.
pub open spec fn stands_in_the_way(scene: &Scene, options: PathOptions, k: int, most: int) -> bool {
    &&& 0 <= k < scene.entities@.len()
    &&& scene.entities@[k].category@ != "agent"@
    &&& within_bound(scene.entities@[k].position, most)
    &&& scene.entities@[k].collider matches Some(collider) && collider_within(
        collider,
        options.clearance,
        scene.grid.cell_size,
        most,
    )
}

/// Whether a point of a route keeps off an entity that stands in the way.
pub open spec fn gives_berth(
    scene: &Scene,
    options: PathOptions,
    k: int,
    point: Point,
    most: int,
) -> bool {
    scene.entities@[k].collider matches Some(collider) && keeps_off(
        point,
        scene.entities@[k].position,
        collider,
        options.clearance,
        scene.grid.cell_size,
        most,
    )
}

/// Every cell of a route that is found lies in the grid and is not obstructed.
proof fn lemma_route_is_open(scene: &Scene, start: Point, goal: Point, options: PathOptions, i: int)
    requires
        covered(&scene.grid),
        found_path(scene, start, goal, options) is Some,
        0 <= i < found_path(scene, start, goal, options).unwrap().len(),
    ensures
        exists|col: int, row: int|
            {
                &&& #[trigger] scene.grid.within(col, row)
                &&& !obstructed(scene, options, col, row)
                &&& found_path(scene, start, goal, options).unwrap()[i] == scene.grid.center(
                    col as usize,
                    row as usize,
                )
            },
{
    lemma_path_found_iff_route_exists(scene, start, goal, options);
    let from: (usize, usize) = scene.grid.cell_at(start).unwrap();
    let to: (usize, usize) = scene.grid.cell_at(goal).unwrap();
    let way: Seq<int> = found_way(scene, options, from, to).unwrap();
    let model: Model = path_model(scene, options, to);
    let route: Seq<int> = way.reverse();
    let w: int = scene.grid.width as int;
    let h: int = scene.grid.height as int;
    if i > 0 {
        assert(adjoins(model, route[i - 1], route[i - 1 + 1]));
        lemma_step_leads_into_the_open(scene, options, to, route[i - 1], route[i]);
    } else {
        lemma_number(w, h, from.0 as int, from.1 as int);
    }
    let cell: int = route[i];
    assert(way[way.len() - 1 - i] == cell);
    assert(scene.grid.within(cell % w, cell / w));
}

/// A step leads into a cell of the grid that is not obstructed.
proof fn lemma_step_leads_into_the_open(
    scene: &Scene,
    options: PathOptions,
    goal: (usize, usize),
    a: int,
    b: int,
)
    requires
        adjoins(path_model(scene, options, goal), a, b),
    ensures
        ({
            let w: int = scene.grid.width as int;
            &&& scene.grid.within(b % w, b / w)
            &&& !obstructed(scene, options, b % w, b / w)
        }),
{
    let t: Model = path_model(scene, options, goal);
    let k: int = choose|k: int|
        0 <= k < 8 && #[trigger] may_step(t, a, k) && neighbour(t, a, k) == b;
    let col: int = col_of(t, a) + step_col(k);
    let row: int = row_of(t, a) + step_row(k);
    assert(t.open_at(col, row));
    lemma_number(t.columns, t.rows, col, row);
}

/// A route keeps off everything that stands in the way, where asked to, and off the
/// blocked cells. Every point of it is the middle of a cell that is not blocked. Its
/// distance from an actor or object with a disc for a body exceeds the radius, the
/// clearance and half a cell together; so does, along one axis, the distance from one
/// with a box. The middles of blocked cells are farther away than the clearance. All of
/// it holds up to a sliver.
pub proof fn lemma_route_gives_a_berth(
    scene: &Scene,
    start: Point,
    goal: Point,
    options: PathOptions,
    i: int,
    most: int,
)
    requires
        covered(&scene.grid),
        grid_within(&scene.grid, most),
        found_path(scene, start, goal, options) is Some,
        0 <= i < found_path(scene, start, goal, options).unwrap().len(),
    ensures
        ({
            let grid: &NavGrid = &scene.grid;
            let point: Point = found_path(scene, start, goal, options).unwrap()[i];
            let s: int = grid.cell_size.value();
            let c: int = options.clearance.value();
            &&& options.include_dynamic_colliders ==> forall|k: int| #[trigger]
                stands_in_the_way(scene, options, k, most) ==> gives_berth(
                    scene,
                    options,
                    k,
                    point,
                    most,
                )
            &&& exists|col: int, row: int|
                {
                    &&& #[trigger] grid.within(col, row)
                    &&& point == grid.center(col as usize, row as usize)
                    &&& grid.blocked@[row * grid.width + col] == 0
                    &&& reaches(options.clearance, most) && c > 0 ==> forall|bc: int, br: int|
                        #[trigger] grid.within(bc, br) && grid.blocked@[br * grid.width + bc] != 0
                            ==> 0x20_0000_0000_0000 * (c * c - cells_apart_sq(col, row, bc, br) * (s
                            * s)) <= 32 * (most * most)
                }
        }),
{
    let grid: &NavGrid = &scene.grid;
    lemma_route_is_open(scene, start, goal, options, i);
    let point: Point = found_path(scene, start, goal, options).unwrap()[i];
    let (col, row): (int, int) = choose|col: int, row: int|
        {
            &&& #[trigger] grid.within(col, row)
            &&& !obstructed(scene, options, col, row)
            &&& point == grid.center(col as usize, row as usize)
        };
    if options.include_dynamic_colliders {
        assert forall|k: int| #[trigger]
            stands_in_the_way(scene, options, k, most) implies gives_berth(
            scene,
            options,
            k,
            point,
            most,
        ) by {
            let entity: Entity = scene.entities@[k];
            assert(!obstructs(grid, entity, options.clearance, col, row));
            lemma_collider_closes_what_is_near(
                grid,
                entity.position,
                entity.collider.unwrap(),
                options.clearance,
                col,
                row,
                most,
            );
        }
    }
    if reaches(options.clearance, most) && options.clearance.value() > 0 {
        lemma_zero_is_less(options.clearance);
        lemma_clearance_closes_what_is_near(grid, options.clearance, col, row, most);
    }
}

proof fn lemma_zero_is_less(r: Real)
    requires
        r.finite(),
    ensures
        Real::of(ZERO).lt(r) <==> r.value() > 0,
{
    let zero: Real = Real::of(ZERO);
    assert(zero.magnitude() == 0);
    lemma_size_of_zero(zero);
    lemma_value_order(r, zero);
    lemma_value_order(zero, r);
}

/// A cell of the grid is closed for a reason: it is blocked, a blocked cell lies no
/// farther away than the clearance and one cell more, or something stands so near that
/// its body, the clearance and half a cell reach the middle of the cell. This holds up
/// to a sliver, and for clearances of less than `2^15` cells.
pub proof fn lemma_closed_cell_has_a_reason(
    scene: &Scene,
    options: PathOptions,
    col: int,
    row: int,
    most: int,
)
    requires
        grid_within(&scene.grid, most),
        scene.grid.within(col, row),
        reaches(options.clearance, most),
        clearance_reach(&scene.grid, options.clearance) < 0x8000,
        forall|k: int|
            0 <= k < scene.entities@.len() && #[trigger] scene.entities@[k].category@ != "agent"@
                && scene.entities@[k].collider is Some ==> stands_in_the_way(
                scene,
                options,
                k,
                most,
            ),
        obstructed(scene, options, col, row),
    ensures
        ({
            let grid: &NavGrid = &scene.grid;
            let s: int = grid.cell_size.value();
            let c: int = options.clearance.value();
            ||| grid.blocked@[row * grid.width + col] != 0
            ||| c > 0 && exists|bc: int, br: int|
                #[trigger] grid.within(bc, br) && grid.blocked@[br * grid.width + bc] != 0
                    && 0x20_0000_0000_0000 * (cells_apart_sq(col, row, bc, br) * (s * s) - (c + s)
                    * (c + s)) <= 64 * (most * most)
            ||| options.include_dynamic_colliders && exists|k: int|
                #[trigger] stands_in_the_way(scene, options, k, most) && comes_near(
                    grid.center(col as usize, row as usize),
                    scene.entities@[k].position,
                    scene.entities@[k].collider.unwrap(),
                    options.clearance,
                    grid.cell_size,
                    most,
                )
        }),
{
    let grid: &NavGrid = &scene.grid;
    if closed_ground(grid, options, col, row) {
        lemma_zero_is_less(options.clearance);
        if options.clearance.value() > 0 {
            lemma_clearance_closes_what_is_near(grid, options.clearance, col, row, most);
        }
    } else {
        let k: int = choose|k: int|
            0 <= k < scene.entities@.len() && #[trigger] obstructs(
                grid,
                scene.entities@[k],
                options.clearance,
                col,
                row,
            );
        let entity: Entity = scene.entities@[k];
        assert(stands_in_the_way(scene, options, k, most));
        lemma_collider_closes_what_is_near(
            grid,
            entity.position,
            entity.collider.unwrap(),
            options.clearance,
            col,
            row,
            most,
        );
    }
}

} // verus!
