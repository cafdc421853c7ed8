//! Bit-packed occupancy of a walk grid, its clearance dilation and the
//! conservative raycast over it.
use vstd::prelude::*;

use crate::geometry::{cell_containing, cell_middle, locate, Point};
use crate::number::Real;
use crate::scene::NavGrid;
use crate::search::lemma_number;

verus! {

/// Two boundary crossings closer than this, in units of the segment's length,
/// count as a crossing of the corner: `1e-12`.
pub const CORNER_TOLERANCE: u64 = 0x3d71_9799_812d_ea11;

/// Bit-packed occupancy view of a walk grid. Out-of-bounds reads are blocked.
#[derive(Debug)]
pub struct WalkView {
    pub width: usize,
    pub height: usize,
    pub origin: Point,
    pub cell_size: Real,
    /// One bit per cell, row by row, from the lowest bit of a word up.
    pub words: Vec<u64>,
}

/// Whether a bit of a packed sequence is set.
spec fn bit_at(words: Seq<u64>, index: int) -> bool {
    words[index / 64] & (1u64 << ((index % 64) as u64)) != 0
}

proof fn lemma_set_bit(words: Seq<u64>, index: int, on: bool, other: int)
    requires
        0 <= index < words.len() * 64,
        0 <= other < words.len() * 64,
    ensures
        ({
            let word: u64 = words[index / 64];
            let mask: u64 = 1u64 << ((index % 64) as u64);
            let changed: u64 = if on {
                word | mask
            } else {
                word & !mask
            };
            bit_at(words.update(index / 64, changed), other) == (if other == index {
                on
            } else {
                bit_at(words, other)
            })
        }),
{
    let word: u64 = words[index / 64];
    let i: u64 = (index % 64) as u64;
    let j: u64 = (other % 64) as u64;
    assert(i < 64 && j < 64 ==> ((word | (1u64 << i)) & (1u64 << j) != 0) == (i == j || word & (
    1u64 << j) != 0)) by (bit_vector);
    assert(i < 64 && j < 64 ==> ((word & !(1u64 << i)) & (1u64 << j) != 0) == (i != j && word & (
    1u64 << j) != 0)) by (bit_vector);
    if other / 64 == index / 64 {
        assert((other == index) == (i == j));
    }
}

impl WalkView {
    /// Whether the bit of a numbered cell is set.
    pub closed spec fn marked(&self, index: int) -> bool {
        bit_at(self.words@, index)
    }

    /// Number of cells that the packed words have room for.
    pub closed spec fn capacity(&self) -> nat {
        self.words@.len() * 64
    }

    /// The grid's size can be counted and every cell has its bit.
    pub open spec fn wf(&self) -> bool {
        &&& self.width <= isize::MAX
        &&& self.height <= isize::MAX
        &&& self.width * self.height <= usize::MAX
        &&& self.width * self.height <= self.capacity()
    }

    pub open spec fn within(&self, col: int, row: int) -> bool {
        0 <= col < self.width && 0 <= row < self.height
    }

    /// Whether a cell is blocked. Everything outside the grid is.
    pub open spec fn blocked_at(&self, col: int, row: int) -> bool {
        !self.within(col, row) || self.marked(row * self.width + col)
    }

    /// Whether two views have the same place, size and resolution.
    pub open spec fn same_geometry(&self, other: &WalkView) -> bool {
        &&& self.width == other.width
        &&& self.height == other.height
        &&& self.origin == other.origin
        &&& self.cell_size == other.cell_size
    }

    /// Builds a view from one byte per cell, row by row; zero is open, and so
    /// are cells past the end of the bytes.
    pub fn from_blocked(
        width: usize,
        height: usize,
        origin: Point,
        cell_size: Real,
        blocked: &[u8],
    ) -> (r: WalkView)
        requires
            width <= isize::MAX,
            height <= isize::MAX,
            width * height <= usize::MAX,
            forall|i: int|
                width * height <= i < blocked@.len() && i / 64 > (width * height - 1) / 64
                    ==> #[trigger] blocked@[i] == 0,
        ensures
            r.wf(),
            r.width == width,
            r.height == height,
            r.origin == origin,
            r.cell_size == cell_size,
            forall|col: int, row: int|
                r.within(col, row) ==> #[trigger] r.blocked_at(col, row) == (row * width + col
                    < blocked@.len() && blocked@[row * width + col] != 0),
    {
        let cells: usize = width * height;
        let mut words: Vec<u64> = Vec::new();
        let mut filled: usize = 0;
        while filled < cells
            invariant
                words@.len() == (filled as int + 63) / 64,
                words@.len() * 64 >= filled,
                filled <= cells,
                forall|i: int| 0 <= i < words@.len() ==> #[trigger] words@[i] == 0,
                cells % 64 == 0 || filled < cells ==> filled % 64 == 0,
                filled == cells || filled % 64 == 0,
            decreases cells - filled,
        {
            words.push(0);
            if cells - filled <= 64 {
                filled = cells;
            } else {
                filled = filled + 64;
            }
        }
        proof {
            assert(forall|w: u64, i: u64| i < 64 && w == 0 ==> #[trigger] (w & (1u64 << i)) == 0)
                by (bit_vector);
            assert forall|i: int| 0 <= i < words@.len() * 64 implies !#[trigger] bit_at(words@, i) by {
                assert(words@[i / 64] == 0);
            }
        }
        let ghost room: nat = words@.len() * 64;
        let mut index: usize = 0;
        while index < blocked.len()
            invariant
                index <= blocked@.len(),
                cells == width * height,
                room == words@.len() * 64,
                words@.len() == (cells as int + 63) / 64,
                forall|i: int|
                    width * height <= i < blocked@.len() && i / 64 > (width * height - 1) / 64
                        ==> #[trigger] blocked@[i] == 0,
                forall|i: int|
                    0 <= i < room ==> #[trigger] bit_at(words@, i) == (i < index && blocked@[i]
                        != 0),
            decreases blocked@.len() - index,
        {
            if blocked[index] != 0 {
                assert(index < room);
                let ghost before: Seq<u64> = words@;
                let word: u64 = words[index / 64];
                let mask: u64 = 1u64 << (index % 64);
                words.set(index / 64, word | mask);
                proof {
                    assert forall|i: int| 0 <= i < room implies #[trigger] bit_at(words@, i) == (i
                        == index || bit_at(before, i)) by {
                        lemma_set_bit(before, index as int, true, i);
                    }
                }
            }
            index = index + 1;
        }
        let r: WalkView = WalkView { width, height, origin, cell_size, words };
        proof {
            assert forall|col: int, row: int| r.within(col, row) implies #[trigger] r.blocked_at(
                col,
                row,
            ) == (row * width + col < blocked@.len() && blocked@[row * width + col] != 0) by {
                lemma_number(width as int, height as int, col, row);
                assert(bit_at(r.words@, row * width + col) == (row * width + col < index
                    && blocked@[row * width + col] != 0));
            }
        }
        r
    }

    /// Whether the view shows a scene's grid.
    pub open spec fn shows(&self, grid: &NavGrid) -> bool {
        &&& self.width == grid.width
        &&& self.height == grid.height
        &&& self.origin == grid.origin
        &&& self.cell_size == grid.cell_size
        &&& forall|col: int, row: int|
            self.within(col, row) ==> #[trigger] self.blocked_at(col, row) == (row * grid.width
                + col < grid.blocked@.len() && grid.blocked@[row * grid.width + col] != 0)
    }

    /// Builds the view of a scene's grid.
    pub fn from_nav_grid(grid: &NavGrid) -> (r: WalkView)
        requires
            grid.width <= isize::MAX,
            grid.height <= isize::MAX,
            grid.cells() <= usize::MAX,
            forall|i: int|
                grid.cells() <= i < grid.blocked@.len() && i / 64 > (grid.cells() - 1) / 64
                    ==> #[trigger] grid.blocked@[i] == 0,
        ensures
            r.wf(),
            r.shows(grid),
    {
        WalkView::from_blocked(
            grid.width,
            grid.height,
            grid.origin,
            grid.cell_size,
            grid.blocked.as_slice(),
        )
    }

    /// Whether a cell is blocked.
    pub fn blocked(&self, col: isize, row: isize) -> (r: bool)
        requires
            self.wf(),
        ensures
            r == self.blocked_at(col as int, row as int),
    {
        if col < 0 || row < 0 || col as usize >= self.width || row as usize >= self.height {
            return true;
        }
        proof {
            lemma_number(self.width as int, self.height as int, col as int, row as int);
            assert(row * self.width >= 0) by (nonlinear_arith)
                requires
                    row >= 0,
            ;
        }
        let index: usize = row as usize * self.width + col as usize;
        self.words[index / 64] & (1u64 << (index % 64)) != 0
    }

    /// Blocks or opens the cell numbered `row * width + col`.
    pub fn set_blocked(&mut self, col: usize, row: usize, blocked: bool)
        requires
            old(self).wf(),
            row * old(self).width + col <= usize::MAX,
            row * old(self).width + col < old(self).capacity(),
        ensures
            final(self).wf(),
            final(self).same_geometry(old(self)),
            final(self).capacity() == old(self).capacity(),
            forall|c: int, r: int|
                final(self).within(c, r) ==> #[trigger] final(self).blocked_at(c, r) == (if r * old(
                    self,
                ).width + c == row * old(self).width + col {
                    blocked
                } else {
                    old(self).blocked_at(c, r)
                }),
    {
        proof {
            assert(row * self.width >= 0) by (nonlinear_arith);
        }
        let index: usize = row * self.width + col;
        let word: u64 = self.words[index / 64];
        let mask: u64 = 1u64 << (index % 64);
        let changed: u64 = if blocked {
            word | mask
        } else {
            word & !mask
        };
        self.words.set(index / 64, changed);
        proof {
            assert forall|c: int, r: int| self.within(c, r) implies #[trigger] self.blocked_at(c, r)
                == (if r * old(self).width + c == row * old(self).width + col {
                blocked
            } else {
                old(self).blocked_at(c, r)
            }) by {
                lemma_number(self.width as int, self.height as int, c, r);
                lemma_set_bit(old(self).words@, index as int, blocked, r * self.width + c);
            }
        }
    }

    /// The cell that a point falls into, if it lies in the grid.
    pub fn cell_of(&self, world: Point) -> (r: Option<(usize, usize)>)
        ensures
            r == self.cell_at(world),
    {
        locate(world, self.origin, self.cell_size, self.width, self.height)
    }

    pub open spec fn cell_at(&self, world: Point) -> Option<(usize, usize)> {
        cell_containing(world, self.origin, self.cell_size, self.width, self.height)
    }

    pub open spec fn spec_center(&self, col: usize, row: usize) -> Point {
        Point {
            x: cell_middle(col, self.origin.x, self.cell_size),
            z: cell_middle(row, self.origin.z, self.cell_size),
        }
    }

    /// The middle of a cell.
    #[verifier::when_used_as_spec(spec_center)]
    pub fn center(&self, col: usize, row: usize) -> (r: Point)
        ensures
            r == self.spec_center(col, row),
    {
        Point {
            x: cell_middle(col, self.origin.x, self.cell_size),
            z: cell_middle(row, self.origin.z, self.cell_size),
        }
    }
}

impl Clone for WalkView {
    fn clone(&self) -> (r: WalkView)
        ensures
            r.same_geometry(self),
            r.capacity() == self.capacity(),
            forall|i: int| #[trigger] r.marked(i) == self.marked(i),
    {
        let r: WalkView = WalkView {
            width: self.width,
            height: self.height,
            origin: self.origin,
            cell_size: self.cell_size,
            words: self.words.clone(),
        };
        assert(r.words@ =~= self.words@);
        r
    }
}

} // verus!
