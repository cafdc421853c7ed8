//! Routes over a scene's grid.
use vstd::prelude::*;

use crate::corridor::{lemma_labels_inside, stride};
use crate::geometry::{
    cell_coordinate, clamp_index, distance_sq, octile, Point, HALF, ZERO,
};
use crate::number::Real;
use crate::ordering::{lemma_add_bounded, lemma_add_not_smaller};
use crate::queue::Queue;
use crate::reopen::{
    lemma_search_decides, reachable, spread_out, steady, wave_finish, Wave,
};
use crate::scene::{has_category, Collider, Entity, NavGrid, Scene};
use crate::search::{
    is_route, lemma_number, lemma_place, Label, Model, Terrain,
};
use crate::settle::{lemma_way_back_is_route, trace_back, way_back};
use crate::stamped::StampedMap;

verus! {

#[derive(Clone, Copy, PartialEq, Eq, Structural, Debug)]
pub struct PathOptions {
    pub include_dynamic_colliders: bool,
    pub clearance: Real,
}

impl Default for PathOptions {
    fn default() -> (r: PathOptions)
        ensures
            r == (PathOptions { include_dynamic_colliders: true, clearance: Real::of(ZERO) }),
    {
        PathOptions { include_dynamic_colliders: true, clearance: Real::of(ZERO) }
    }
}

/// A whole number, as far as it can be counted.
pub open spec fn countable(n: int) -> isize {
    if n < isize::MAX {
        n as isize
    } else {
        isize::MAX
    }
}

/// How many cells away a clearance is felt.
pub open spec fn clearance_reach(grid: &NavGrid, clearance: Real) -> isize {
    clearance.div(grid.cell_size).ceil_int()
}

/// Whether an offset lies in a disc of cells.
pub open spec fn in_disc(reach: isize, dx: int, dz: int) -> bool {
    &&& -reach <= dx <= reach
    &&& -reach <= dz <= reach
    &&& !Real::from_int(countable(reach * reach)).lt(Real::from_int(countable(dx * dx + dz * dz)))
}

/// Whether a blocked cell of the grid lies so near that it closes another.
pub open spec fn closes(grid: &NavGrid, reach: isize, col: int, row: int, c: int, r: int) -> bool {
    &&& grid.within(c, r)
    &&& grid.blocked@[r * grid.width + c] != 0
    &&& in_disc(reach, col - c, row - r)
}

/// Whether a blocked cell lies within the clearance of a cell.
pub open spec fn near_blocked(grid: &NavGrid, clearance: Real, col: int, row: int) -> bool {
    exists|c: int, r: int| #[trigger]
        closes(grid, clearance_reach(grid, clearance), col, row, c, r)
}

pub open spec fn spec_half_extents(collider: Collider) -> Point {
    match collider {
        Collider::Circle { radius } => Point { x: radius, z: radius },
        Collider::Box { half_extents } => half_extents,
    }
}

/// Half the width and height of a collider.
#[verifier::when_used_as_spec(spec_half_extents)]
pub fn half_extents_of(collider: Collider) -> (r: Point)
    ensures
        r == spec_half_extents(collider),
{
    match collider {
        Collider::Circle { radius } => Point { x: radius, z: radius },
        Collider::Box { half_extents } => half_extents,
    }
}

/// The column of cells nearest to a coordinate.
pub open spec fn spec_nearest_col(grid: &NavGrid, x: Real) -> isize {
    clamp_index(
        cell_coordinate(x, grid.origin.x, grid.cell_size),
        0,
        (grid.width - 1) as isize,
    )
}

#[verifier::when_used_as_spec(spec_nearest_col)]
pub fn nearest_col(grid: &NavGrid, x: Real) -> (r: isize)
    requires
        grid.width <= isize::MAX,
    ensures
        r == spec_nearest_col(grid, x),
{
    clamp_index(
        cell_coordinate(x, grid.origin.x, grid.cell_size),
        0,
        grid.width as isize - 1,
    )
}

/// The row of cells nearest to a coordinate.
pub open spec fn spec_nearest_row(grid: &NavGrid, z: Real) -> isize {
    clamp_index(
        cell_coordinate(z, grid.origin.z, grid.cell_size),
        0,
        (grid.height - 1) as isize,
    )
}

#[verifier::when_used_as_spec(spec_nearest_row)]
pub fn nearest_row(grid: &NavGrid, z: Real) -> (r: isize)
    requires
        grid.height <= isize::MAX,
    ensures
        r == spec_nearest_row(grid, z),
{
    clamp_index(
        cell_coordinate(z, grid.origin.z, grid.cell_size),
        0,
        grid.height as isize - 1,
    )
}

pub open spec fn spec_touches_cell(
    cell_size: Real,
    center: Point,
    position: Point,
    collider: Collider,
    clearance: Real,
) -> bool {
    let half: Real = cell_size.mul(Real::of(HALF));
    match collider {
        Collider::Circle { radius } => {
            let reach: Real = radius.add(clearance).add(half);
            distance_sq(center, position).le(reach.mul(reach))
        },
        Collider::Box { half_extents } => {
            &&& center.x.sub(position.x).abs().le(half_extents.x.add(clearance).add(half))
            &&& center.z.sub(position.z).abs().le(half_extents.z.add(clearance).add(half))
        },
    }
}

/// Whether a collider, widened by the clearance and half a cell, reaches the
/// middle of a cell.
#[verifier::when_used_as_spec(spec_touches_cell)]
fn touches_cell(
    cell_size: Real,
    center: Point,
    position: Point,
    collider: Collider,
    clearance: Real,
) -> (r: bool)
    ensures
        r == spec_touches_cell(cell_size, center, position, collider, clearance),
{
    let half: Real = cell_size.mul(Real::of(HALF));
    match collider {
        Collider::Circle { radius } => {
            let reach: Real = radius.add(clearance).add(half);
            distance_sq(center, position).le(reach.mul(reach))
        },
        Collider::Box { half_extents } => {
            center.x.sub(position.x).abs().le(half_extents.x.add(clearance).add(half))
                && center.z.sub(position.z).abs().le(half_extents.z.add(clearance).add(half))
        },
    }
}

/// Whether an entity's collider obstructs a cell.
pub open spec fn collides(
    grid: &NavGrid,
    position: Point,
    collider: Collider,
    clearance: Real,
    col: int,
    row: int,
) -> bool {
    let half: Point = half_extents_of(collider);
    let cell: Real = grid.cell_size;
    &&& nearest_col(grid, position.x.sub(half.x.add(clearance)).sub(cell)) <= col <= nearest_col(
        grid,
        position.x.add(half.x.add(clearance)).add(cell),
    )
    &&& nearest_row(grid, position.z.sub(half.z.add(clearance)).sub(cell)) <= row <= nearest_row(
        grid,
        position.z.add(half.z.add(clearance)).add(cell),
    )
    &&& spec_touches_cell(
        cell,
        grid.center(col as usize, row as usize),
        position,
        collider,
        clearance,
    )
}

/// Whether an entity obstructs a cell. Agents obstruct none.
pub open spec fn obstructs(
    grid: &NavGrid,
    entity: Entity,
    clearance: Real,
    col: int,
    row: int,
) -> bool {
    &&& entity.category@ != "agent"@
    &&& entity.collider matches Some(collider) && collides(
        grid,
        entity.position,
        collider,
        clearance,
        col,
        row,
    )
}

/// Whether one of the first `n` entities obstructs a cell.
pub open spec fn obstructed_by(
    grid: &NavGrid,
    entities: Seq<Entity>,
    n: int,
    clearance: Real,
    col: int,
    row: int,
) -> bool {
    exists|i: int| 0 <= i < n && #[trigger] obstructs(grid, entities[i], clearance, col, row)
}

/// Whether a cell is closed before the entities are looked at.
pub open spec fn closed_ground(grid: &NavGrid, options: PathOptions, col: int, row: int) -> bool {
    ||| grid.blocked@[row * grid.width + col] != 0
    ||| Real::of(ZERO).lt(options.clearance) && near_blocked(grid, options.clearance, col, row)
}

/// Whether a route may not lead over a cell of the grid.
pub open spec fn obstructed(scene: &Scene, options: PathOptions, col: int, row: int) -> bool {
    ||| closed_ground(&scene.grid, options, col, row)
    ||| options.include_dynamic_colliders && obstructed_by(
        &scene.grid,
        scene.entities@,
        scene.entities@.len() as int,
        options.clearance,
        col,
        row,
    )
}

/// Whether a grid has a byte for every cell and can be counted.
pub open spec fn covered(grid: &NavGrid) -> bool {
    &&& grid.width <= isize::MAX
    &&& grid.height <= isize::MAX
    &&& grid.cells() <= usize::MAX
    &&& grid.cells() <= grid.blocked@.len()
}

/// Whether an offset lies in a disc of cells.
fn is_in_disc(reach: isize, dx: isize, dz: isize) -> (r: bool)
    requires
        -reach <= dx <= reach,
        -reach <= dz <= reach,
        dx > isize::MIN,
        dz > isize::MIN,
    ensures
        r == in_disc(reach, dx as int, dz as int),
{
    proof {
        lemma_square(dx as int, isize::MAX as int);
        lemma_square(dz as int, isize::MAX as int);
        lemma_square(reach as int, isize::MAX as int);
    }
    let limit: i128 = reach as i128 * reach as i128;
    let away: i128 = dx as i128 * dx as i128 + dz as i128 * dz as i128;
    let most: isize = if limit < isize::MAX as i128 {
        limit as isize
    } else {
        isize::MAX
    };
    let square: isize = if away < isize::MAX as i128 {
        away as isize
    } else {
        isize::MAX
    };
    !Real::from_int(most).lt(Real::from_int(square))
}

proof fn lemma_square(d: int, limit: int)
    requires
        -limit <= d <= limit,
        limit <= 0x7fff_ffff_ffff_ffff,
    ensures
        0 <= d * d <= 0x3fff_ffff_ffff_ffff_0000_0000_0000_0001,
{
    assert(d * d <= limit * limit) by (nonlinear_arith)
        requires
            -limit <= d <= limit,
    ;
    assert(limit * limit <= 0x7fff_ffff_ffff_ffff * 0x7fff_ffff_ffff_ffff) by (nonlinear_arith)
        requires
            0 <= limit <= 0x7fff_ffff_ffff_ffff,
    ;
    assert(d * d >= 0) by (nonlinear_arith);
}

/// Whether a blocked cell lies within the clearance of a cell.
fn is_near_blocked(grid: &NavGrid, clearance: Real, col: usize, row: usize) -> (r: bool)
    requires
        covered(grid),
        grid.within(col as int, row as int),
    ensures
        r == near_blocked(grid, clearance, col as int, row as int),
{
    let reach: isize = clearance.div(grid.cell_size).ceil_int();
    if reach < 0 {
        return false;
    }
    let span: usize = reach as usize;
    let first_col: usize = if col < span {
        0
    } else {
        col - span
    };
    let first_row: usize = if row < span {
        0
    } else {
        row - span
    };
    let mut r: usize = first_row;
    while r < grid.height && (r <= row || r - row <= span)
        invariant
            covered(grid),
            grid.within(col as int, row as int),
            reach == clearance_reach(grid, clearance),
            span == reach,
            first_col == (if col < span {
                0
            } else {
                col - span
            }),
            first_row == (if row < span {
                0
            } else {
                row - span
            }),
            first_row <= r <= grid.height,
            forall|x: int, z: int| #[trigger]
                closes(grid, reach, col as int, row as int, x, z) ==> z >= r,
        decreases grid.height - r,
    {
        let mut c: usize = first_col;
        while c < grid.width && (c <= col || c - col <= span)
            invariant
                covered(grid),
                grid.within(col as int, row as int),
                reach == clearance_reach(grid, clearance),
                span == reach,
                first_col == (if col < span {
                    0
                } else {
                    col - span
                }),
                first_row == (if row < span {
                    0
                } else {
                    row - span
                }),
                first_row <= r < grid.height,
                r <= row || r - row <= span,
                first_col <= c <= grid.width,
                forall|x: int, z: int| #[trigger]
                    closes(grid, reach, col as int, row as int, x, z) ==> z > r || (z == r && x
                        >= c),
            decreases grid.width - c,
        {
            proof {
                lemma_number(grid.width as int, grid.height as int, c as int, r as int);
            }
            if grid.blocked[grid.index(c, r)] != 0 && is_in_disc(
                reach,
                col as isize - c as isize,
                row as isize - r as isize,
            ) {
                assert(closes(grid, reach, col as int, row as int, c as int, r as int));
                return true;
            }
            c = c + 1;
        }
        r = r + 1;
    }
    false
}

/// What the first `n` entities, and the next one as far as a scan has passed,
/// leave closed.
spec fn closed_so_far(
    scene: &Scene,
    options: PathOptions,
    n: int,
    c: int,
    r: int,
    col: int,
    row: int,
) -> bool {
    closed_ground(&scene.grid, options, c, r) || obstructed_by(
        &scene.grid,
        scene.entities@,
        if r < row || (r == row && c < col) {
            n + 1
        } else {
            n
        },
        options.clearance,
        c,
        r,
    )
}

spec fn marks_closed(
    result: Seq<bool>,
    scene: &Scene,
    options: PathOptions,
    n: int,
    col: int,
    row: int,
) -> bool {
    &&& result.len() == scene.grid.cells()
    &&& forall|c: int, r: int|
        scene.grid.within(c, r) ==> result[r * scene.grid.width + c] == #[trigger] closed_so_far(
            scene,
            options,
            n,
            c,
            r,
            col,
            row,
        )
}

proof fn lemma_obstructed_step(
    grid: &NavGrid,
    entities: Seq<Entity>,
    n: int,
    clearance: Real,
    col: int,
    row: int,
)
    requires
        0 <= n < entities.len(),
    ensures
        obstructed_by(grid, entities, n + 1, clearance, col, row) == (obstructed_by(
            grid,
            entities,
            n,
            clearance,
            col,
            row,
        ) || obstructs(grid, entities[n], clearance, col, row)),
{
    if obstructed_by(grid, entities, n, clearance, col, row) {
        let i: int = choose|i: int|
            0 <= i < n && #[trigger] obstructs(grid, entities[i], clearance, col, row);
        assert(0 <= i < n + 1 && obstructs(grid, entities[i], clearance, col, row));
    }
    if obstructs(grid, entities[n], clearance, col, row) {
        assert(obstructed_by(grid, entities, n + 1, clearance, col, row));
    }
}

/// Closes the cells that one more entity obstructs.
fn rasterize_entity(
    scene: &Scene,
    options: PathOptions,
    n: usize,
    collider: Collider,
    blocked: &mut Vec<bool>,
)
    requires
        covered(&scene.grid),
        scene.grid.width > 0,
        scene.grid.height > 0,
        n < scene.entities@.len(),
        scene.entities@[n as int].category@ != "agent"@,
        scene.entities@[n as int].collider == Some(collider),
        marks_closed(old(blocked)@, scene, options, n as int, 0, 0),
    ensures
        marks_closed(final(blocked)@, scene, options, n + 1, 0, 0),
{
    let grid: &NavGrid = &scene.grid;
    let position: Point = scene.entities[n].position;
    let half: Point = half_extents_of(collider);
    let cell: Real = grid.cell_size;
    let half_x: Real = half.x.add(options.clearance);
    let half_z: Real = half.z.add(options.clearance);
    let left: isize = nearest_col(grid, position.x.sub(half_x).sub(cell));
    let right: isize = nearest_col(grid, position.x.add(half_x).add(cell));
    let low: isize = nearest_row(grid, position.z.sub(half_z).sub(cell));
    let high: isize = nearest_row(grid, position.z.add(half_z).add(cell));
    let mut row: isize = low;
    proof {
        assert forall|c: int, r: int| grid.within(c, r) implies blocked@[r * grid.width + c]
            == #[trigger] closed_so_far(scene, options, n as int, c, r, left as int, low as int) by {
            assert(blocked@[r * grid.width + c] == closed_so_far(
                scene,
                options,
                n as int,
                c,
                r,
                0,
                0,
            ));
            lemma_obstructed_step(grid, scene.entities@, n as int, options.clearance, c, r);
        }
    }
    while row <= high
        invariant
            grid == &scene.grid,
            covered(grid),
            n < scene.entities@.len(),
            scene.entities@[n as int].category@ != "agent"@,
            scene.entities@[n as int].collider == Some(collider),
            position == scene.entities@[n as int].position,
            half == half_extents_of(collider),
            cell == grid.cell_size,
            half_x == half.x.add(options.clearance),
            half_z == half.z.add(options.clearance),
            left == nearest_col(grid, position.x.sub(half_x).sub(cell)),
            right == nearest_col(grid, position.x.add(half_x).add(cell)),
            low == nearest_row(grid, position.z.sub(half_z).sub(cell)),
            high == nearest_row(grid, position.z.add(half_z).add(cell)),
            0 <= left < grid.width,
            0 <= right < grid.width,
            0 <= low < grid.height,
            0 <= high < grid.height,
            low <= row,
            marks_closed(blocked@, scene, options, n as int, left as int, row as int),
        decreases high + 1 - row,
    {
        let mut col: isize = left;
        while col <= right
            invariant
                grid == &scene.grid,
                covered(grid),
                n < scene.entities@.len(),
                scene.entities@[n as int].category@ != "agent"@,
                scene.entities@[n as int].collider == Some(collider),
                position == scene.entities@[n as int].position,
                half == half_extents_of(collider),
                cell == grid.cell_size,
                half_x == half.x.add(options.clearance),
                half_z == half.z.add(options.clearance),
                left == nearest_col(grid, position.x.sub(half_x).sub(cell)),
                right == nearest_col(grid, position.x.add(half_x).add(cell)),
                low == nearest_row(grid, position.z.sub(half_z).sub(cell)),
                high == nearest_row(grid, position.z.add(half_z).add(cell)),
                0 <= left < grid.width,
                0 <= right < grid.width,
                0 <= low <= row <= high < grid.height,
                left <= col,
                marks_closed(blocked@, scene, options, n as int, col as int, row as int),
            decreases right + 1 - col,
        {
            let ghost before: Seq<bool> = blocked@;
            proof {
                lemma_number(grid.width as int, grid.height as int, col as int, row as int);
            }
            let center: Point = grid.center(col as usize, row as usize);
            let hit: bool = touches_cell(cell, center, position, collider, options.clearance);
            if hit {
                let index: usize = grid.index(col as usize, row as usize);
                blocked.set(index, true);
            }
            proof {
                assert(obstructs(
                    grid,
                    scene.entities@[n as int],
                    options.clearance,
                    col as int,
                    row as int,
                ) == hit);
                assert forall|c: int, r: int| grid.within(c, r) implies blocked@[r * grid.width + c]
                    == #[trigger] closed_so_far(
                    scene,
                    options,
                    n as int,
                    c,
                    r,
                    col + 1,
                    row as int,
                ) by {
                    lemma_number(grid.width as int, grid.height as int, c, r);
                    lemma_obstructed_step(
                        grid,
                        scene.entities@,
                        n as int,
                        options.clearance,
                        c,
                        r,
                    );
                    assert(before[r * grid.width + c] == closed_so_far(
                        scene,
                        options,
                        n as int,
                        c,
                        r,
                        col as int,
                        row as int,
                    ));
                }
            }
            col = col + 1;
        }
        proof {
            assert forall|c: int, r: int| grid.within(c, r) implies blocked@[r * grid.width + c]
                == #[trigger] closed_so_far(
                scene,
                options,
                n as int,
                c,
                r,
                left as int,
                row + 1,
            ) by {
                lemma_obstructed_step(grid, scene.entities@, n as int, options.clearance, c, r);
                assert(blocked@[r * grid.width + c] == closed_so_far(
                    scene,
                    options,
                    n as int,
                    c,
                    r,
                    col as int,
                    row as int,
                ));
            }
        }
        row = row + 1;
    }
    proof {
        assert forall|c: int, r: int| grid.within(c, r) implies blocked@[r * grid.width + c]
            == #[trigger] closed_so_far(scene, options, n + 1, c, r, 0, 0) by {
            lemma_obstructed_step(grid, scene.entities@, n as int, options.clearance, c, r);
            assert(blocked@[r * grid.width + c] == closed_so_far(
                scene,
                options,
                n as int,
                c,
                r,
                left as int,
                row as int,
            ));
        }
    }
}

/// Which cells a route may not lead over.
fn effective_blocked(scene: &Scene, options: PathOptions) -> (r: Vec<bool>)
    requires
        covered(&scene.grid),
        scene.grid.width > 0,
        scene.grid.height > 0,
    ensures
        r@.len() == scene.grid.cells(),
        forall|col: int, row: int|
            scene.grid.within(col, row) ==> r@[row * scene.grid.width + col]
                == #[trigger] obstructed(scene, options, col, row),
{
    let grid: &NavGrid = &scene.grid;
    let cells: usize = grid.width * grid.height;
    let clears: bool = Real::of(ZERO).lt(options.clearance);
    let mut result: Vec<bool> = Vec::new();
    while result.len() < cells
        invariant
            grid == &scene.grid,
            covered(grid),
            grid.width > 0,
            cells == grid.cells(),
            clears == Real::of(ZERO).lt(options.clearance),
            result@.len() <= cells,
            forall|i: int|
                0 <= i < result@.len() ==> #[trigger] result@[i] == closed_ground(
                    grid,
                    options,
                    i % (grid.width as int),
                    i / (grid.width as int),
                ),
        decreases cells - result@.len(),
    {
        let i: usize = result.len();
        proof {
            lemma_place(grid.width as int, grid.height as int, i as int);
        }
        let closed: bool = grid.blocked[i] != 0 || (clears && is_near_blocked(
            grid,
            options.clearance,
            i % grid.width,
            i / grid.width,
        ));
        result.push(closed);
    }
    proof {
        assert forall|c: int, r: int| grid.within(c, r) implies result@[r * grid.width + c]
            == #[trigger] closed_so_far(scene, options, 0, c, r, 0, 0) by {
            lemma_number(grid.width as int, grid.height as int, c, r);
            assert(!obstructed_by(grid, scene.entities@, 0, options.clearance, c, r));
        }
    }
    if options.include_dynamic_colliders {
        let mut n: usize = 0;
        while n < scene.entities.len()
            invariant
                grid == &scene.grid,
                covered(grid),
                grid.width > 0,
                grid.height > 0,
                n <= scene.entities@.len(),
                marks_closed(result@, scene, options, n as int, 0, 0),
            decreases scene.entities@.len() - n,
        {
            let ghost before: Seq<bool> = result@;
            let mut skip: bool = true;
            if !has_category(&scene.entities[n], "agent") {
                if let Some(collider) = scene.entities[n].collider {
                    rasterize_entity(scene, options, n, collider, &mut result);
                    skip = false;
                }
            }
            proof {
                if skip {
                    assert forall|c: int, r: int| grid.within(c, r) implies result@[r * grid.width
                        + c] == #[trigger] closed_so_far(scene, options, n + 1, c, r, 0, 0) by {
                        lemma_obstructed_step(
                            grid,
                            scene.entities@,
                            n as int,
                            options.clearance,
                            c,
                            r,
                        );
                        assert(before[r * grid.width + c] == closed_so_far(
                            scene,
                            options,
                            n as int,
                            c,
                            r,
                            0,
                            0,
                        ));
                    }
                }
            }
            n = n + 1;
        }
        proof {
            assert forall|c: int, r: int| grid.within(c, r) implies result@[r * grid.width + c]
                == #[trigger] obstructed(scene, options, c, r) by {
                assert(result@[r * grid.width + c] == closed_so_far(
                    scene,
                    options,
                    n as int,
                    c,
                    r,
                    0,
                    0,
                ));
            }
        }
    } else {
        proof {
            assert forall|c: int, r: int| grid.within(c, r) implies result@[r * grid.width + c]
                == #[trigger] obstructed(scene, options, c, r) by {
                assert(result@[r * grid.width + c] == closed_so_far(
                    scene,
                    options,
                    0,
                    c,
                    r,
                    0,
                    0,
                ));
                assert(!obstructed_by(grid, scene.entities@, 0, options.clearance, c, r));
            }
        }
    }
    result
}

pub open spec fn spec_heuristic(index: usize, width: usize, goal: (usize, usize)) -> Real {
    let col: int = index as int % width as int;
    let row: int = index as int / width as int;
    octile(
        Real::from_count(
            (if col < goal.0 {
                goal.0 - col
            } else {
                col - goal.0
            }) as u64,
        ),
        Real::from_count(
            (if row < goal.1 {
                goal.1 - row
            } else {
                row - goal.1
            }) as u64,
        ),
    )
}

/// Length of the shortest way from a numbered cell to the goal, over an open
/// grid.
#[verifier::when_used_as_spec(spec_heuristic)]
fn heuristic(index: usize, width: usize, goal: (usize, usize)) -> (r: Real)
    requires
        width > 0,
    ensures
        r == spec_heuristic(index, width, goal),
{
    let col: usize = index % width;
    let row: usize = index / width;
    let dx: usize = if col < goal.0 {
        goal.0 - col
    } else {
        col - goal.0
    };
    let dz: usize = if row < goal.1 {
        goal.1 - row
    } else {
        row - goal.1
    };
    octile(Real::from_count(dx as u64), Real::from_count(dz as u64))
}

/// The scene's grid as a terrain to be searched for a cell.
pub open spec fn path_model(scene: &Scene, options: PathOptions, goal: (usize, usize)) -> Model {
    let grid: &NavGrid = &scene.grid;
    Model {
        columns: grid.width as int,
        rows: grid.height as int,
        open: |col: int, row: int|
            grid.within(col, row) && !obstructed(scene, options, col, row),
        extended: |cost: Real, to: int, diagonal: bool| cost.add(stride(diagonal)),
        estimate: |index: int| spec_heuristic(index as usize, grid.width, goal),
        score: |cost: Real, index: int|
            cost.add(spec_heuristic(index as usize, grid.width, goal)),
    }
}

struct Ground<'a> {
    scene: &'a Scene,
    options: PathOptions,
    blocked: &'a Vec<bool>,
    goal: (usize, usize),
}

impl<'a> Terrain for Ground<'a> {
    closed spec fn model(&self) -> Model {
        path_model(self.scene, self.options, self.goal)
    }

    closed spec fn ready(&self) -> bool {
        let grid: &NavGrid = &self.scene.grid;
        &&& covered(grid)
        &&& grid.width > 0
        &&& grid.height > 0
        &&& self.blocked@.len() == grid.cells()
        &&& forall|col: int, row: int|
            grid.within(col, row) ==> self.blocked@[row * grid.width + col]
                == #[trigger] obstructed(self.scene, self.options, col, row)
    }

    proof fn lemma_ready(&self) {
    }

    fn width(&self) -> (r: usize) {
        self.scene.grid.width
    }

    fn height(&self) -> (r: usize) {
        self.scene.grid.height
    }

    fn is_open(&self, col: isize, row: isize) -> (r: bool) {
        let grid: &NavGrid = &self.scene.grid;
        if !grid.in_bounds(col, row) {
            return false;
        }
        proof {
            lemma_number(grid.width as int, grid.height as int, col as int, row as int);
            assert(self.blocked@[row * grid.width + col] == obstructed(
                self.scene,
                self.options,
                col as int,
                row as int,
            ));
        }
        !self.blocked[grid.index(col as usize, row as usize)]
    }

    fn extend(&self, cost: Real, to: usize, diagonal: bool) -> (r: Real) {
        cost.add(stride(diagonal))
    }

    fn estimate_at(&self, index: usize) -> (r: Real) {
        heuristic(index, self.scene.grid.width, self.goal)
    }

    fn score_at(&self, cost: Real, index: usize) -> (r: Real) {
        cost.add(heuristic(index, self.scene.grid.width, self.goal))
    }
}

/// The cells, last first, of the route that is found between two cells, if
/// there is one.
pub open spec fn found_way(
    scene: &Scene,
    options: PathOptions,
    start: (usize, usize),
    goal: (usize, usize),
) -> Option<Seq<int>> {
    let grid: &NavGrid = &scene.grid;
    if obstructed(scene, options, start.0 as int, start.1 as int) || obstructed(
        scene,
        options,
        goal.0 as int,
        goal.1 as int,
    ) {
        None
    } else {
        let from: int = start.1 * grid.width + start.0;
        let to: int = goal.1 * grid.width + goal.0;
        way_back(
            wave_finish(path_model(scene, options, goal), from, to).frontier.labels,
            from,
            to,
            grid.cells() as nat,
        )
    }
}

/// The middles of the numbered cells of a way back, in walking order.
pub open spec fn grid_points(grid: &NavGrid, way: Seq<int>) -> Seq<Point> {
    Seq::new(
        way.len(),
        |i: int|
            {
                let cell: int = way[way.len() - 1 - i];
                grid.center(
                    (cell % (grid.width as int)) as usize,
                    (cell / (grid.width as int)) as usize,
                )
            },
    )
}

/// The route that is found between two points, if there is one.
pub open spec fn found_path(scene: &Scene, start: Point, goal: Point, options: PathOptions) -> Option<
    Seq<Point>,
> {
    match (scene.grid.cell_at(start), scene.grid.cell_at(goal)) {
        (Some(from), Some(to)) => match found_way(scene, options, from, to) {
            Some(way) => Some(grid_points(&scene.grid, way)),
            None => None,
        },
        _ => None,
    }
}

/// Finds the cells, last first, of a route between two cells.
fn find_way(scene: &Scene, options: PathOptions, start: (usize, usize), goal: (usize, usize)) -> (r:
    Option<Vec<usize>>)
    requires
        covered(&scene.grid),
        scene.grid.within(start.0 as int, start.1 as int),
        scene.grid.within(goal.0 as int, goal.1 as int),
    ensures
        match r {
            None => found_way(scene, options, start, goal) is None,
            Some(way) => found_way(scene, options, start, goal) == Some(
                way@.map_values(|i: usize| i as int),
            ),
        },
{
    let grid: &NavGrid = &scene.grid;
    let blocked: Vec<bool> = effective_blocked(scene, options);
    proof {
        let w: int = grid.width as int;
        let h: int = grid.height as int;
        lemma_number(w, h, start.0 as int, start.1 as int);
        lemma_number(w, h, goal.0 as int, goal.1 as int);
        assert(blocked@[start.1 * grid.width + start.0] == obstructed(
            scene,
            options,
            start.0 as int,
            start.1 as int,
        ));
        assert(blocked@[goal.1 * grid.width + goal.0] == obstructed(
            scene,
            options,
            goal.0 as int,
            goal.1 as int,
        ));
    }
    let from: usize = grid.index(start.0, start.1);
    let to: usize = grid.index(goal.0, goal.1);
    if blocked[from] || blocked[to] {
        return None;
    }
    let cells: usize = grid.width * grid.height;
    let terrain: Ground = Ground { scene, options, blocked: &blocked, goal };
    let ghost model: Model = terrain.model();
    let mut labels: StampedMap<Label> = StampedMap::new();
    let mut queue: Queue = Queue::new();
    spread_out(&terrain, from, to, &mut labels, &mut queue);
    proof {
        lemma_labels_inside(model, labels@, queue@, cells as int);
    }
    trace_back(&labels, from, to, cells)
}

/// Finds a route between two points of a scene, best estimate first: the
/// middles of the cells from the start's to the goal's. A route leads over cells that neither
/// the terrain nor, where asked for, an entity obstructs, and cuts no corner.
pub fn find_path(scene: &Scene, start: Point, goal: Point, options: PathOptions) -> (r: Option<
    Vec<Point>,
>)
    requires
        scene.grid.cell_at(start) is Some && scene.grid.cell_at(goal) is Some ==> covered(
            &scene.grid,
        ),
    ensures
        match r {
            None => found_path(scene, start, goal, options) is None,
            Some(path) => found_path(scene, start, goal, options) == Some(path@),
        },
{
    let from: (usize, usize) = match scene.grid.cell(start) {
        Some(cell) => cell,
        None => {
            return None;
        },
    };
    let to: (usize, usize) = match scene.grid.cell(goal) {
        Some(cell) => cell,
        None => {
            return None;
        },
    };
    match find_way(scene, options, from, to) {
        None => None,
        Some(way) => Some(walk_grid(&scene.grid, &way)),
    }
}

/// The middles of the cells of a way back, in walking order.
fn walk_grid(grid: &NavGrid, way: &Vec<usize>) -> (r: Vec<Point>)
    requires
        grid.width > 0,
    ensures
        r@ == grid_points(grid, way@.map_values(|i: usize| i as int)),
{
    let mut r: Vec<Point> = Vec::new();
    let mut left: usize = way.len();
    let ghost whole: Seq<int> = way@.map_values(|i: usize| i as int);
    while left > 0
        invariant
            grid.width > 0,
            left <= way@.len(),
            whole == way@.map_values(|i: usize| i as int),
            r@.len() == way@.len() - left,
            forall|i: int| 0 <= i < r@.len() ==> #[trigger] r@[i] == grid_points(grid, whole)[i],
        decreases left,
    {
        left = left - 1;
        let cell: usize = way[left];
        r.push(grid.center(cell % grid.width, cell / grid.width));
    }
    assert(r@ =~= grid_points(grid, whole));
    r
}

/// Costs that the search can meet: numbers from zero to `2^55`.
pub open spec fn sensible(cost: Real) -> bool {
    !cost.nan() && 0 <= cost.rank() <= 0x4360_0000_0000_0000
}

pub proof fn lemma_steps_steady(scene: &Scene, options: PathOptions, goal: (usize, usize))
    ensures
        steady(path_model(scene, options, goal), |cost: Real| sensible(cost)),
{
    let model: Model = path_model(scene, options, goal);
    let good: spec_fn(Real) -> bool = |cost: Real| sensible(cost);
    assert forall|c: Real, to: int, diagonal: bool| good(c) implies {
        let x: Real = #[trigger] model.extended(c, to, diagonal);
        good(x) && c.rank() <= x.rank() < crate::number::INF
    } by {
        let step: Real = stride(diagonal);
        lemma_add_not_smaller(c, step);
        lemma_add_bounded(c, step);
    }
}

/// A path is found between two points if and only if both lie in unobstructed
/// cells of the grid and a route of allowed steps joins those cells. What is
/// found is such a route: it begins in the start's cell, ends in the goal's,
/// leads over unobstructed cells only and cuts no corner.
pub proof fn lemma_path_found_iff_route_exists(
    scene: &Scene,
    start: Point,
    goal: Point,
    options: PathOptions,
)
    requires
        covered(&scene.grid),
    ensures
        match (scene.grid.cell_at(start), scene.grid.cell_at(goal)) {
            (Some(from), Some(to)) => {
                let model: Model = path_model(scene, options, to);
                let a: int = from.1 * scene.grid.width + from.0;
                let b: int = to.1 * scene.grid.width + to.0;
                &&& found_path(scene, start, goal, options) is Some <==> {
                    &&& !obstructed(scene, options, from.0 as int, from.1 as int)
                    &&& !obstructed(scene, options, to.0 as int, to.1 as int)
                    &&& reachable(model, a, b)
                }
                &&& found_way(scene, options, from, to) matches Some(way) ==> {
                    &&& is_route(model, way.reverse())
                    &&& way.last() == a
                    &&& way[0] == b
                    &&& found_path(scene, start, goal, options) == Some(
                        grid_points(&scene.grid, way),
                    )
                }
            },
            _ => found_path(scene, start, goal, options) is None,
        },
{
    if let (Some(from), Some(to)) = (scene.grid.cell_at(start), scene.grid.cell_at(goal)) {
        let model: Model = path_model(scene, options, to);
        let w: int = scene.grid.width as int;
        let h: int = scene.grid.height as int;
        lemma_number(w, h, from.0 as int, from.1 as int);
        lemma_number(w, h, to.0 as int, to.1 as int);
        let a: int = from.1 * w + from.0;
        let b: int = to.1 * w + to.0;
        assert(model.valid());
        lemma_steps_steady(scene, options, to);
        lemma_search_decides(model, a, b, |cost: Real| sensible(cost));
        let wave: Wave = wave_finish(model, a, b);
        if wave.frontier.labels.dom().contains(b) {
            lemma_way_back_is_route(model, wave.frontier, a, b, (w * h) as nat);
        }
    }
}

} // verus!
