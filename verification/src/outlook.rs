//! What a viewer shows: which cells are in view and where they lie, and what moves.
use vstd::arithmetic::div_mod::*;
use vstd::prelude::*;

use crate::awareness::{agent_moved, category_count, first_agent};
use crate::camera::{cells_between, spec_run_corners, CellRange, Run};
use crate::crossing::{cell_unit, lemma_large_unit};
use crate::geometry::{cell_coordinate, clamp_index, Point, HALF};
use crate::lattice::{
    edge, laid_out, lemma_cell_coordinate, lemma_cell_is_modest, lemma_edge, lemma_half,
};
use crate::nearness::{
    lemma_close_product, lemma_close_sum, lemma_modest, lemma_size_scales,
    lemma_unit_is_nothing, reaches, size_of,
};
use crate::number::Real;
use crate::scene::{Entity, NavGrid};
use crate::walkable::grid_within;
use crate::workbench::spec_middle;

verus! {

/// A number rounded up is not below the number rounded down, and less than one above it.
proof fn lemma_up_and_down(r: Real)
    ensures
        r.floor_int() <= r.ceil_int() <= r.floor_int() + 1,
{
    let u: int = cell_unit();
    lemma_large_unit();
    if r.finite() {
        let v: int = r.value();
        lemma_fundamental_div_mod(v, u);
        lemma_mod_bound(v, u);
        lemma_fundamental_div_mod(-v, u);
        lemma_mod_bound(-v, u);
        let a: int = v / u;
        let b: int = (-v) / u;
        assert(a <= -b <= a + 1) by (nonlinear_arith)
            requires
                v == u * a + v % u,
                -v == u * b + (-v) % u,
                0 <= v % u < u,
                0 <= (-v) % u < u,
                u > 0,
        ;
    }
}

/// The columns (or rows) between two coordinates.
proof fn lemma_columns_in_view(
    origin: Real,
    cell: Real,
    cells: usize,
    lower: Real,
    upper: Real,
    n: int,
    most: int,
)
    requires
        laid_out(origin, cell, cells as int, most),
        0 < cells <= isize::MAX,
        reaches(lower, most),
        reaches(upper, most),
        0 <= n < cells,
    ensures
        ({
            let first: int = clamp_index(
                cell_coordinate(lower, origin, cell),
                0,
                (cells - 1) as isize,
            ) as int;
            let last: int = clamp_index(
                upper.sub(origin).div(cell).ceil_int(),
                0,
                (cells - 1) as isize,
            ) as int;
            &&& n < first ==> 0x20_0000_0000_0000 * (edge(origin, cell, n + 1) - lower.value()) <= 16
                * most
            &&& last < n ==> 0x20_0000_0000_0000 * (upper.value() - edge(origin, cell, n)) <= 16
                * most
            &&& 0 < n <= last ==> 0x20_0000_0000_0000 * (edge(origin, cell, n - 1) - upper.value())
                <= 16 * most
            &&& first <= n < cells - 1 ==> 0x20_0000_0000_0000 * (lower.value() - edge(
                origin,
                cell,
                n + 1,
            )) <= 16 * most
        }),
{
    lemma_unit_is_nothing(most);
    lemma_cell_coordinate(lower, origin, cell, cells as int, n + 1, most);
    lemma_cell_coordinate(upper, origin, cell, cells as int, n, most);
    if n > 0 {
        lemma_cell_coordinate(upper, origin, cell, cells as int, n - 1, most);
    }
    lemma_up_and_down(upper.sub(origin).div(cell));
}

/// The cells that are in view between two corners are all that the corners enclose a part
/// of, but for a sliver, and at most one column and row more beyond the upper corner.
pub proof fn lemma_cells_in_view(
    grid: &NavGrid,
    lower: Point,
    upper: Point,
    col: int,
    row: int,
    most: int,
)
    requires
        grid_within(grid, most),
        reaches(lower.x, most),
        reaches(lower.z, most),
        reaches(upper.x, most),
        reaches(upper.z, most),
        grid.within(col, row),
    ensures
        ({
            let r: CellRange = cells_between(grid, lower, upper);
            let ox: Real = grid.origin.x;
            let oz: Real = grid.origin.z;
            let s: Real = grid.cell_size;
            let p: int = 0x20_0000_0000_0000;
            &&& !(r.min_col <= col <= r.max_col && r.min_row <= row <= r.max_row) ==> {
                ||| p * (edge(ox, s, col + 1) - lower.x.value()) <= 16 * most
                ||| p * (upper.x.value() - edge(ox, s, col)) <= 16 * most
                ||| p * (edge(oz, s, row + 1) - lower.z.value()) <= 16 * most
                ||| p * (upper.z.value() - edge(oz, s, row)) <= 16 * most
            }
            &&& 0 < col <= r.max_col ==> p * (edge(ox, s, col - 1) - upper.x.value()) <= 16 * most
            &&& 0 < row <= r.max_row ==> p * (edge(oz, s, row - 1) - upper.z.value()) <= 16 * most
            &&& r.min_col <= col < grid.width - 1 ==> p * (lower.x.value() - edge(ox, s, col + 1))
                <= 16 * most
            &&& r.min_row <= row < grid.height - 1 ==> p * (lower.z.value() - edge(oz, s, row + 1))
                <= 16 * most
        }),
{
    lemma_columns_in_view(
        grid.origin.x,
        grid.cell_size,
        grid.width,
        lower.x,
        upper.x,
        col,
        most,
    );
    lemma_columns_in_view(
        grid.origin.z,
        grid.cell_size,
        grid.height,
        lower.z,
        upper.z,
        row,
        most,
    );
}

/// A stretch of cells is drawn from the edge that it begins at to the edge that it ends at,
/// one row deep, up to a sliver.
pub proof fn lemma_run_is_drawn_where_it_lies(grid: &NavGrid, run: Run, row: usize, most: int)
    requires
        grid_within(grid, most),
        run.start < run.past <= grid.width,
        row < grid.height,
    ensures
        ({
            let (low, high): (Point, Point) = spec_run_corners(grid, run, row);
            let s: Real = grid.cell_size;
            let p: int = 0x20_0000_0000_0000;
            &&& p * size_of(low.x.value() - edge(grid.origin.x, s, run.start as int)) <= 8 * most
            &&& p * size_of(high.x.value() - edge(grid.origin.x, s, run.past as int)) <= 8 * most
            &&& p * size_of(low.z.value() - edge(grid.origin.z, s, row as int)) <= 8 * most
            &&& p * size_of(high.z.value() - edge(grid.origin.z, s, row + 1)) <= 12 * most
        }),
{
    let s: Real = grid.cell_size;
    let (low, high): (Point, Point) = spec_run_corners(grid, run, row);
    lemma_unit_is_nothing(most);
    lemma_edge(grid.origin.x, s, grid.width as int, run.start, most);
    lemma_edge(grid.origin.x, s, grid.width as int, run.past, most);
    lemma_edge(grid.origin.z, s, grid.height as int, row, most);
    lemma_cell_is_modest(grid.origin.z, s, grid.height as int, most);
    lemma_modest(low.z, most);
    lemma_close_sum(low.z, s);
    let k: int = s.value();
    assert((row + 1) * k == row * k + k) by (nonlinear_arith);
    assert(size_of(low.z.value() + k) <= 4 * most);
}

/// The middle of a grid lies halfway between its first and its last edge, up to a sliver.
pub proof fn lemma_middle_is_halfway(grid: &NavGrid, most: int)
    requires
        grid_within(grid, most),
    ensures
        ({
            let middle: Point = spec_middle(grid);
            let s: Real = grid.cell_size;
            let p: int = 0x20_0000_0000_0000;
            &&& middle.x.finite()
            &&& middle.z.finite()
            &&& p * size_of(
                2 * middle.x.value() - (grid.origin.x.value() + edge(
                    grid.origin.x,
                    s,
                    grid.width as int,
                )),
            ) <= 64 * most
            &&& p * size_of(
                2 * middle.z.value() - (grid.origin.z.value() + edge(
                    grid.origin.z,
                    s,
                    grid.height as int,
                )),
            ) <= 64 * most
        }),
{
    lemma_middle_of_axis(grid.origin.x, grid.cell_size, grid.width, most);
    lemma_middle_of_axis(grid.origin.z, grid.cell_size, grid.height, most);
}

proof fn lemma_middle_of_axis(origin: Real, cell: Real, cells: usize, most: int)
    requires
        laid_out(origin, cell, cells as int, most),
        0 < cells,
    ensures
        ({
            let end: Real = origin.add(Real::from_count(cells as u64).mul(cell));
            let middle: Real = origin.add(end).mul(Real::of(HALF));
            &&& middle.finite()
            &&& 0x20_0000_0000_0000 * size_of(
                2 * middle.value() - (origin.value() + edge(origin, cell, cells as int)),
            ) <= 64 * most
        }),
{
    let end: Real = origin.add(Real::from_count(cells as u64).mul(cell));
    let half: Real = Real::of(HALF);
    let t: Real = origin.add(end);
    let m: Real = t.mul(half);
    let u: int = cell_unit();
    lemma_unit_is_nothing(most);
    lemma_large_unit();
    lemma_half();
    lemma_edge(origin, cell, cells as int, cells, most);
    lemma_modest(origin, most);
    lemma_modest(end, most);
    lemma_close_sum(origin, end);
    lemma_modest(t, most);
    lemma_close_product(t, half);
    lemma_halved(u, most, t.value(), half.value(), m.value());
}

proof fn lemma_halved(u: int, most: int, t: int, h: int, m: int)
    requires
        u > 0,
        most > 0,
        2 * h == u,
        size_of(t) <= 5 * most,
        0x20_0000_0000_0000 * u <= most * u,
        0x20_0000_0000_0000 * size_of(m * u - t * h) <= size_of(m) * u + 0x20_0000_0000_0000 * u,
    ensures
        0x20_0000_0000_0000 * size_of(2 * m - t) <= 16 * most,
{
    let mu: int = m * u;
    let tu: int = t * u;
    let mo: int = most * u;
    assert(2 * (t * h) == tu) by (nonlinear_arith)
        requires
            2 * h == u,
            tu == t * u,
    ;
    lemma_size_scales(m, u);
    lemma_size_scales(t, u);
    assert(size_of(t) * u <= 5 * mo) by (nonlinear_arith)
        requires
            size_of(t) <= 5 * most,
            mo == most * u,
            u > 0,
    ;
    assert(mo > 0) by (nonlinear_arith)
        requires
            mo == most * u,
            most > 0,
            u > 0,
    ;
    assert(size_of(mu) <= 3 * mo);
    assert(0x20_0000_0000_0000 * size_of(2 * mu - tu) <= 16 * mo);
    let g: int = 2 * m - t;
    assert(g * u == 2 * mu - tu) by (nonlinear_arith)
        requires
            g == 2 * m - t,
            mu == m * u,
            tu == t * u,
    ;
    assert(0x20_0000_0000_0000 * g <= 16 * most && -(16 * most) <= 0x20_0000_0000_0000 * g)
        by (nonlinear_arith)
        requires
            0x20_0000_0000_0000 * (g * u) <= 16 * mo,
            -(16 * mo) <= 0x20_0000_0000_0000 * (g * u),
            mo == most * u,
            u > 0,
    ;
}

/// Moving the agent puts the first of the agents at the place, changes nothing else of it,
/// and leaves every other entity as it is.
pub proof fn lemma_only_the_agent_moves(entities: Seq<Entity>, position: Point)
    ensures
        ({
            let moved: Seq<Entity> = agent_moved(entities, position);
            &&& moved.len() == entities.len()
            &&& forall|i: int|
                0 <= i < entities.len() ==> {
                    let first: bool = entities[i].category@ == "agent"@ && forall|j: int|
                        0 <= j < i ==> (#[trigger] entities[j]).category@ != "agent"@;
                    #[trigger] moved[i] == (if first {
                        Entity { position, ..entities[i] }
                    } else {
                        entities[i]
                    })
                }
        }),
{
    lemma_first_agent(entities, 0);
}

proof fn lemma_first_agent(entities: Seq<Entity>, from: int)
    requires
        0 <= from,
    ensures
        match first_agent(entities, from) {
            Some(i) => {
                &&& from <= i < entities.len()
                &&& entities[i].category@ == "agent"@
                &&& forall|j: int| from <= j < i ==> (#[trigger] entities[j]).category@ != "agent"@
            },
            None => forall|j: int|
                from <= j < entities.len() ==> (#[trigger] entities[j]).category@ != "agent"@,
        },
    decreases entities.len() - from,
{
    if from < entities.len() && entities[from].category@ != "agent"@ {
        lemma_first_agent(entities, from + 1);
    }
}

/// As many entities are counted for a category as have it.
pub proof fn lemma_count_is_of_the_category(entities: Seq<Entity>, n: int, category: Seq<char>)
    requires
        0 <= n <= entities.len(),
    ensures
        category_count(entities, n, category) == entities.take(n).filter(
            |e: Entity| e.category@ == category,
        ).len(),
    decreases n,
{
    let wanted: spec_fn(Entity) -> bool = |e: Entity| e.category@ == category;
    reveal(Seq::filter);
    if n > 0 {
        lemma_count_is_of_the_category(entities, n - 1, category);
        let first: Seq<Entity> = entities.take(n);
        assert(first.drop_last() =~= entities.take(n - 1));
        assert(first.last() == entities[n - 1]);
    } else {
        assert(entities.take(0) =~= Seq::empty());
    }
}

} // verus!
