//! The downsampled view on which global routes are planned.
use vstd::arithmetic::div_mod::*;
use vstd::prelude::*;

use crate::geometry::{cell_containing, cell_middle, locate, Point};
use crate::number::Real;
use crate::search::{lemma_number, lemma_place};
use crate::walk::WalkView;

verus! {

/// Optimistic downsampled view: a coarse cell is open when any fine cell in it
/// is open, with the blocked fraction kept as a traversal-cost density.
#[derive(Clone, Debug)]
pub struct CoarseView {
    /// Fine cells per coarse cell edge.
    pub factor: usize,
    pub width: usize,
    pub height: usize,
    pub origin: Point,
    pub cell_size: Real,
    pub open: Vec<bool>,
    /// Blocked fraction of each cell, in single precision.
    pub density: Vec<Real>,
}

/// Number of blocks of `factor` cells that cover `cells` cells.
pub open spec fn blocks(cells: int, factor: int) -> int {
    (cells + factor - 1) / factor
}

/// End of the block of cells that begins at `from`.
pub open spec fn block_end(from: int, factor: int, cells: int) -> int {
    if from + factor < cells {
        from + factor
    } else {
        cells
    }
}

/// Number of blocked cells between two columns of a row.
pub open spec fn blocked_in_row(fine: &WalkView, row: int, from: int, to: int) -> nat
    decreases to - from,
{
    if to <= from {
        0
    } else {
        blocked_in_row(fine, row, from, to - 1) + (if fine.blocked_at(to - 1, row) {
            1nat
        } else {
            0nat
        })
    }
}

/// Number of blocked cells of a rectangle.
pub open spec fn blocked_in(fine: &WalkView, left: int, right: int, low: int, high: int) -> nat
    decreases high - low,
{
    if high <= low {
        0
    } else {
        blocked_in(fine, left, right, low, high - 1) + blocked_in_row(fine, high - 1, left, right)
    }
}

/// Share of blocked cells, in single precision.
pub open spec fn blocked_share(blocked: nat, total: nat) -> Real {
    Real::from_count(blocked as u64).to_single().div(
        Real::from_count(
            (if total < 1 {
                1
            } else {
                total
            }) as u64,
        ).to_single(),
    ).to_single()
}

proof fn lemma_row_count(fine: &WalkView, row: int, from: int, to: int)
    requires
        from <= to,
    ensures
        blocked_in_row(fine, row, from, to) <= to - from,
        (blocked_in_row(fine, row, from, to) == to - from) == (forall|col: int|
            from <= col < to ==> #[trigger] fine.blocked_at(col, row)),
    decreases to - from,
{
    if from < to {
        lemma_row_count(fine, row, from, to - 1);
        if blocked_in_row(fine, row, from, to) == to - from {
            assert forall|col: int| from <= col < to implies #[trigger] fine.blocked_at(
                col,
                row,
            ) by {
                assert(col == to - 1 || col < to - 1);
            }
        } else if blocked_in_row(fine, row, from, to - 1) < to - 1 - from {
            let col: int = choose|col: int|
                from <= col < to - 1 && !#[trigger] fine.blocked_at(col, row);
            assert(from <= col < to && !fine.blocked_at(col, row));
        } else {
            assert(!fine.blocked_at(to - 1, row));
        }
    }
}

/// A rectangle has no more blocked cells than cells, and as many only where all
/// are blocked.
pub proof fn lemma_area_count(fine: &WalkView, left: int, right: int, low: int, high: int)
    requires
        left <= right,
        low <= high,
    ensures
        blocked_in(fine, left, right, low, high) <= (right - left) * (high - low),
        (blocked_in(fine, left, right, low, high) == (right - left) * (high - low)) == (forall|
            col: int,
            row: int,
        |
            left <= col < right && low <= row < high ==> #[trigger] fine.blocked_at(col, row)),
    decreases high - low,
{
    let w: int = right - left;
    if low < high {
        lemma_area_count(fine, left, right, low, high - 1);
        lemma_row_count(fine, high - 1, left, right);
        assert(w * (high - low) == w * (high - 1 - low) + w) by (nonlinear_arith);
        if blocked_in(fine, left, right, low, high) == w * (high - low) {
            assert forall|col: int, row: int|
                left <= col < right && low <= row < high implies #[trigger] fine.blocked_at(
                col,
                row,
            ) by {
                assert(row == high - 1 || row < high - 1);
            }
        } else if blocked_in(fine, left, right, low, high - 1) < w * (high - 1 - low) {
            let (col, row): (int, int) = choose|col: int, row: int|
                left <= col < right && low <= row < high - 1 && !#[trigger] fine.blocked_at(
                    col,
                    row,
                );
            assert(low <= row < high && !fine.blocked_at(col, row));
        } else {
            let col: int = choose|col: int|
                left <= col < right && !#[trigger] fine.blocked_at(col, high - 1);
            assert(low <= high - 1 < high && !fine.blocked_at(col, high - 1));
        }
    } else {
        assert(w * (high - low) == 0) by (nonlinear_arith)
            requires
                high == low,
        ;
    }
}

/// Counts the blocked cells of a rectangle.
fn count_blocked(fine: &WalkView, left: usize, right: usize, low: usize, high: usize) -> (r: usize)
    requires
        fine.wf(),
        left <= right <= fine.width,
        low <= high <= fine.height,
    ensures
        r == blocked_in(fine, left as int, right as int, low as int, high as int),
        r <= (right - left) * (high - low),
{
    let mut total: usize = 0;
    let mut row: usize = low;
    while row < high
        invariant
            fine.wf(),
            left <= right <= fine.width,
            low <= row <= high <= fine.height,
            total == blocked_in(fine, left as int, right as int, low as int, row as int),
        decreases high - row,
    {
        let mut col: usize = left;
        let ghost before: int = total as int;
        while col < right
            invariant
                fine.wf(),
                left <= col <= right <= fine.width,
                low <= row < high <= fine.height,
                before == blocked_in(fine, left as int, right as int, low as int, row as int),
                total == before + blocked_in_row(fine, row as int, left as int, col as int),
            decreases right - col,
        {
            if fine.blocked(col as isize, row as isize) {
                proof {
                    lemma_area_count(fine, left as int, right as int, low as int, row as int);
                    lemma_row_count(fine, row as int, left as int, col as int);
                    let w: int = right - left;
                    let h: int = row - low;
                    assert(w * h + w <= fine.width * fine.height) by (nonlinear_arith)
                        requires
                            0 <= w <= fine.width,
                            0 <= h,
                            h + 1 <= fine.height,
                    ;
                }
                total = total + 1;
            }
            col = col + 1;
        }
        row = row + 1;
    }
    proof {
        lemma_area_count(fine, left as int, right as int, low as int, high as int);
    }
    total
}

impl CoarseView {
    pub open spec fn wf(&self) -> bool {
        &&& 0 < self.factor
        &&& self.width <= isize::MAX
        &&& self.height <= isize::MAX
        &&& self.width * self.height <= usize::MAX
        &&& self.open@.len() == self.width * self.height
        &&& self.density@.len() == self.width * self.height
    }

    pub open spec fn within(&self, col: int, row: int) -> bool {
        0 <= col < self.width && 0 <= row < self.height
    }

    /// Whether a cell is open. Nothing outside the grid is.
    pub open spec fn open_at(&self, col: int, row: int) -> bool {
        self.within(col, row) && self.open@[row * self.width + col]
    }

    /// First fine column (or row) of a coarse one.
    pub open spec fn block_start(&self, coarse: int) -> int {
        coarse * self.factor
    }

    /// Whether a coarse cell is what the fine cells in it make it: open when
    /// any of them is, and as dense as the share of them that is blocked.
    pub open spec fn summarizes(&self, fine: &WalkView, col: int, row: int) -> bool {
        let left: int = self.block_start(col);
        let low: int = self.block_start(row);
        let right: int = block_end(left, self.factor as int, fine.width as int);
        let high: int = block_end(low, self.factor as int, fine.height as int);
        let index: int = row * self.width + col;
        &&& self.open_at(col, row) == exists|c: int, r: int|
            left <= c < right && low <= r < high && !#[trigger] fine.blocked_at(c, r)
        &&& self.density@[index] == blocked_share(
            blocked_in(fine, left, right, low, high),
            ((right - left) * (high - low)) as nat,
        )
    }

    /// Downsamples a fine view by `factor`, at least one.
    pub fn from_fine(fine: &WalkView, factor: usize) -> (r: CoarseView)
        requires
            fine.wf(),
        ensures
            r.wf(),
            r.factor == (if factor < 1 {
                1
            } else {
                factor
            }),
            r.width == blocks(fine.width as int, r.factor as int),
            r.height == blocks(fine.height as int, r.factor as int),
            r.origin == fine.origin,
            r.cell_size == fine.cell_size.mul(Real::from_count(r.factor as u64)),
            forall|col: int, row: int|
                r.within(col, row) ==> #[trigger] r.summarizes(fine, col, row),
    {
        let factor: usize = if factor < 1 {
            1
        } else {
            factor
        };
        let width: usize = div_up(fine.width, factor);
        let height: usize = div_up(fine.height, factor);
        proof {
            assert(width * height <= fine.width * fine.height) by (nonlinear_arith)
                requires
                    width <= fine.width,
                    height <= fine.height,
            ;
        }
        let cells: usize = width * height;
        let mut r: CoarseView = CoarseView {
            factor,
            width,
            height,
            origin: fine.origin,
            cell_size: fine.cell_size.mul(Real::from_count(factor as u64)),
            open: Vec::new(),
            density: Vec::new(),
        };
        let mut index: usize = 0;
        while index < cells
            invariant
                fine.wf(),
                factor > 0,
                cells == width * height,
                width == blocks(fine.width as int, factor as int),
                height == blocks(fine.height as int, factor as int),
                index <= cells,
                r.factor == factor,
                r.width == width,
                r.height == height,
                r.origin == fine.origin,
                r.cell_size == fine.cell_size.mul(Real::from_count(factor as u64)),
                r.open@.len() == index,
                r.density@.len() == index,
                forall|i: int|
                    0 <= i < index ==> #[trigger] r.summarizes(
                        fine,
                        i % width as int,
                        i / width as int,
                    ),
            decreases cells - index,
        {
            proof {
                lemma_place(width as int, height as int, index as int);
                lemma_number(
                    width as int,
                    height as int,
                    index as int % width as int,
                    index as int / width as int,
                );
                lemma_block(fine.width as int, factor as int, index as int % width as int);
                lemma_block(fine.height as int, factor as int, index as int / width as int);
            }
            let left: usize = (index % width) * factor;
            let low: usize = (index / width) * factor;
            let right: usize = if factor < fine.width - left {
                left + factor
            } else {
                fine.width
            };
            let high: usize = if factor < fine.height - low {
                low + factor
            } else {
                fine.height
            };
            proof {
                assert((right - left) * (high - low) <= fine.width * fine.height)
                    by (nonlinear_arith)
                    requires
                        0 <= right - left <= fine.width,
                        0 <= high - low <= fine.height,
                ;
                lemma_area_count(fine, left as int, right as int, low as int, high as int);
            }
            let total: usize = (right - left) * (high - low);
            let blocked: usize = count_blocked(fine, left, right, low, high);
            let open: bool = blocked < total;
            let share: Real = Real::from_count(blocked as u64).to_single().div(
                Real::from_count(
                    (if total < 1 {
                        1
                    } else {
                        total
                    }) as u64,
                ).to_single(),
            ).to_single();
            let ghost before: CoarseView = r;
            r.open.push(open);
            r.density.push(share);
            proof {
                assert forall|i: int| 0 <= i < index + 1 implies #[trigger] r.summarizes(
                    fine,
                    i % width as int,
                    i / width as int,
                ) by {
                    lemma_place(width as int, height as int, i);
                    if i < index {
                        assert(before.summarizes(fine, i % width as int, i / width as int));
                        assert(before.open_at(i % width as int, i / width as int) == before.open@[i]);
                        assert(r.open_at(i % width as int, i / width as int) == r.open@[i]);
                    } else {
                        assert(r.open_at(i % width as int, i / width as int) == open);
                    }
                }
            }
            index = index + 1;
        }
        proof {
            assert forall|col: int, row: int| r.within(col, row) implies #[trigger] r.summarizes(
                fine,
                col,
                row,
            ) by {
                lemma_number(width as int, height as int, col, row);
                let i: int = row * width + col;
                assert(r.summarizes(fine, i % width as int, i / width as int));
            }
        }
        r
    }

    /// Whether a cell is open.
    pub fn is_open(&self, col: isize, row: isize) -> (r: bool)
        requires
            self.wf(),
        ensures
            r == self.open_at(col as int, row as int),
    {
        if col < 0 || row < 0 || col as usize >= self.width || row as usize >= self.height {
            return false;
        }
        proof {
            lemma_number(self.width as int, self.height as int, col as int, row as int);
            assert(row * self.width >= 0) by (nonlinear_arith)
                requires
                    row >= 0,
            ;
        }
        self.open[row as usize * self.width + col as usize]
    }

    /// The cell that a point falls into, if it lies in the grid.
    pub fn cell_of(&self, world: Point) -> (r: Option<(usize, usize)>)
        ensures
            r == self.cell_at(world),
    {
        locate(world, self.origin, self.cell_size, self.width, self.height)
    }

    pub open spec fn cell_at(&self, world: Point) -> Option<(usize, usize)> {
        cell_containing(world, self.origin, self.cell_size, self.width, self.height)
    }

    pub open spec fn spec_center(&self, col: usize, row: usize) -> Point {
        Point {
            x: cell_middle(col, self.origin.x, self.cell_size),
            z: cell_middle(row, self.origin.z, self.cell_size),
        }
    }

    /// The middle of a cell.
    #[verifier::when_used_as_spec(spec_center)]
    pub fn center(&self, col: usize, row: usize) -> (r: Point)
        ensures
            r == self.spec_center(col, row),
    {
        Point {
            x: cell_middle(col, self.origin.x, self.cell_size),
            z: cell_middle(row, self.origin.z, self.cell_size),
        }
    }
}

/// Number of blocks of `factor` cells that cover `cells` cells.
fn div_up(cells: usize, factor: usize) -> (r: usize)
    requires
        factor > 0,
    ensures
        r == blocks(cells as int, factor as int),
        r <= cells,
{
    proof {
        let c: int = cells as int;
        let f: int = factor as int;
        lemma_fundamental_div_mod(c, f);
        let q: int = c / f;
        let m: int = c % f;
        assert(f * q == q * f) by (nonlinear_arith);
        if m == 0 {
            lemma_fundamental_div_mod_converse(c + f - 1, f, q, f - 1);
            assert(q <= c) by (nonlinear_arith)
                requires
                    c == f * q,
                    f >= 1,
                    q >= 0,
            ;
        } else {
            assert(c + f - 1 == (q + 1) * f + (m - 1)) by (nonlinear_arith)
                requires
                    c == f * q + m,
            ;
            lemma_fundamental_div_mod_converse(c + f - 1, f, q + 1, m - 1);
            assert(q + 1 <= c) by (nonlinear_arith)
                requires
                    c == f * q + m,
                    m >= 1,
                    f >= 1,
                    q >= 0,
            ;
        }
        lemma_div_pos_is_pos(c, f);
    }
    let whole: usize = cells / factor;
    if cells % factor == 0 {
        whole
    } else {
        whole + 1
    }
}

/// A block of cells begins inside the grid.
pub proof fn lemma_block(cells: int, factor: int, block: int)
    requires
        factor > 0,
        cells >= 0,
        0 <= block < blocks(cells, factor),
    ensures
        0 <= block * factor < cells,
{
    let n: int = cells + factor - 1;
    lemma_fundamental_div_mod(n, factor);
    let q: int = n / factor;
    assert(block * factor + factor <= n) by (nonlinear_arith)
        requires
            n >= factor * q,
            block + 1 <= q,
            factor > 0,
    ;
    assert(block * factor >= 0) by (nonlinear_arith)
        requires
            block >= 0,
            factor > 0,
    ;
}

} // verus!
