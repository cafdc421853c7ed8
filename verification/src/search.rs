//! Best-first search on grids of cells.
//!
//! A search labels cells with the cost of the best way found to them and the
//! cell before them on that way. Cells are numbered row by row.
use vstd::multiset::Multiset;
use vstd::prelude::*;

use crate::number::{Real, INF};
use crate::queue::{Entry, Queue};
use crate::stamped::StampedMap;

verus! {

/// A rectangular grid that can be searched, as a value.
pub struct Model {
    pub columns: int,
    pub rows: int,
    /// Whether a cell can be entered. Nothing outside the grid can.
    pub open: spec_fn(int, int) -> bool,
    /// Cost of a way of the given cost, extended by a step, diagonal or not,
    /// onto a cell.
    pub extended: spec_fn(Real, int, bool) -> Real,
    /// Estimated cost from a cell to the target.
    pub estimate: spec_fn(int) -> Real,
    /// Score by which a cell that was reached at a cost is queued.
    pub score: spec_fn(Real, int) -> Real,
}

impl Model {
    pub open spec fn open_at(self, col: int, row: int) -> bool {
        (self.open)(col, row)
    }

    pub open spec fn extended(self, cost: Real, to: int, diagonal: bool) -> Real {
        (self.extended)(cost, to, diagonal)
    }

    pub open spec fn estimate(self, index: int) -> Real {
        (self.estimate)(index)
    }

    pub open spec fn score(self, cost: Real, index: int) -> Real {
        (self.score)(cost, index)
    }

    pub open spec fn valid(self) -> bool {
        &&& 0 < self.columns <= isize::MAX
        &&& 0 < self.rows <= isize::MAX
        &&& self.columns * self.rows <= usize::MAX
        &&& forall|col: int, row: int| #[trigger]
            self.open_at(col, row) ==> 0 <= col < self.columns && 0 <= row < self.rows
    }
}

/// A grid that can be searched.
pub trait Terrain {
    spec fn model(&self) -> Model;

    spec fn ready(&self) -> bool;

    proof fn lemma_ready(&self)
        requires
            self.ready(),
        ensures
            self.model().valid(),
    ;

    fn width(&self) -> (r: usize)
        requires
            self.ready(),
        ensures
            r == self.model().columns,
    ;

    fn height(&self) -> (r: usize)
        requires
            self.ready(),
        ensures
            r == self.model().rows,
    ;

    fn is_open(&self, col: isize, row: isize) -> (r: bool)
        requires
            self.ready(),
        ensures
            r == self.model().open_at(col as int, row as int),
    ;

    fn extend(&self, cost: Real, to: usize, diagonal: bool) -> (r: Real)
        requires
            self.ready(),
            to < self.model().columns * self.model().rows,
        ensures
            r == self.model().extended(cost, to as int, diagonal),
    ;

    fn estimate_at(&self, index: usize) -> (r: Real)
        requires
            self.ready(),
            index < self.model().columns * self.model().rows,
        ensures
            r == self.model().estimate(index as int),
    ;

    fn score_at(&self, cost: Real, index: usize) -> (r: Real)
        requires
            self.ready(),
            index < self.model().columns * self.model().rows,
        ensures
            r == self.model().score(cost, index as int),
    ;
}

/// Column offset of the `k`-th neighbour: the four sides, then the corners.
pub open spec fn step_col(k: int) -> int {
    if k == 0 || k == 4 || k == 5 {
        -1
    } else if k == 1 || k == 6 || k == 7 {
        1
    } else {
        0
    }
}

/// Row offset of the `k`-th neighbour.
pub open spec fn step_row(k: int) -> int {
    if k == 2 || k == 4 || k == 6 {
        -1
    } else if k == 3 || k == 5 || k == 7 {
        1
    } else {
        0
    }
}

/// Number of cells of a terrain.
pub open spec fn cell_count(t: Model) -> int {
    t.columns * t.rows
}

/// Column of a numbered cell.
pub open spec fn col_of(t: Model, index: int) -> int {
    index % t.columns
}

/// Row of a numbered cell.
pub open spec fn row_of(t: Model, index: int) -> int {
    index / t.columns
}

/// Number of the `k`-th neighbour of a cell.
pub open spec fn neighbour(t: Model, index: int, k: int) -> int {
    (row_of(t, index) + step_row(k)) * t.columns + col_of(t, index) + step_col(k)
}

/// Whether the step from a cell to its `k`-th neighbour is allowed: the
/// neighbour is open and, for a diagonal step, both cells beside it are too.
pub open spec fn may_step(t: Model, index: int, k: int) -> bool {
    let col: int = col_of(t, index);
    let row: int = row_of(t, index);
    &&& t.open_at(col + step_col(k), row + step_row(k))
    &&& k >= 4 ==> t.open_at(col + step_col(k), row) && t.open_at(col, row + step_row(k))
}

/// Whether one allowed step leads from cell `a` to cell `b`.
pub open spec fn adjoins(t: Model, a: int, b: int) -> bool {
    exists|k: int| 0 <= k < 8 && #[trigger] may_step(t, a, k) && neighbour(t, a, k) == b
}

/// Whether every cell of `route` is one allowed step from the cell before it.
pub open spec fn is_route(t: Model, route: Seq<int>) -> bool {
    &&& route.len() > 0
    &&& forall|i: int| 0 <= i < route.len() - 1 ==> adjoins(t, #[trigger] route[i], route[i + 1])
}

/// What a search knows of a cell. `from` is `usize::MAX` where the search began.
#[derive(Clone, Copy, PartialEq, Eq, Structural, Debug)]
pub struct Label {
    pub cost: Real,
    pub from: usize,
}

/// Labels and queue of a search.
pub struct Frontier {
    pub labels: Map<int, Label>,
    pub queue: Multiset<Entry>,
}

/// Cost of the best way found to a cell, infinite without one.
pub open spec fn cost_at(labels: Map<int, Label>, index: int) -> Real {
    if labels.dom().contains(index) {
        labels[index].cost
    } else {
        Real { bits: INF }
    }
}

/// The frontier after trying the step from `index` to its `k`-th neighbour.
pub open spec fn relaxed(t: Model, f: Frontier, index: int, k: int) -> Frontier {
    let next: int = neighbour(t, index, k);
    let cost: Real = t.extended(cost_at(f.labels, index), next, k >= 4);
    if may_step(t, index, k) && cost.spec_lt(cost_at(f.labels, next)) {
        Frontier {
            labels: f.labels.insert(next, Label { cost, from: index as usize }),
            queue: f.queue.insert(
                Entry { key: t.score(cost, next).spec_total_key(), index: next as usize },
            ),
        }
    } else {
        f
    }
}

/// The frontier after trying the first `k` steps out of a cell.
pub open spec fn expanded(t: Model, f: Frontier, index: int, k: int) -> Frontier
    decreases k,
{
    if k <= 0 {
        f
    } else {
        relaxed(t, expanded(t, f, index, k - 1), index, k - 1)
    }
}

/// The frontier of a search that has not left its first cell.
pub open spec fn origin_frontier(t: Model, start: int) -> Frontier {
    let zero: Real = Real { bits: 0 };
    Frontier {
        labels: Map::<int, Label>::empty().insert(start, Label { cost: zero, from: usize::MAX }),
        queue: Multiset::<Entry>::empty().insert(
            Entry { key: t.score(zero, start).spec_total_key(), index: start as usize },
        ),
    }
}

/// Whether the predecessor that a cell's label names is labelled and one
/// allowed step away.
pub open spec fn linked(t: Model, f: Frontier, index: int) -> bool {
    f.labels[index].from != usize::MAX ==> {
        &&& f.labels.dom().contains(f.labels[index].from as int)
        &&& adjoins(t, f.labels[index].from as int, index)
    }
}

/// What holds of every frontier: cells are cells of the grid, and a label's
/// predecessor is labelled and one allowed step away.
pub open spec fn sound(t: Model, f: Frontier) -> bool {
    &&& forall|i: int| #[trigger] f.labels.dom().contains(i) ==> 0 <= i < cell_count(t)
    &&& forall|i: int| f.labels.dom().contains(i) ==> #[trigger] linked(t, f, i)
    &&& forall|e: Entry| #[trigger]
        f.queue.count(e) > 0 ==> f.labels.dom().contains(e.index as int)
}

/// An allowed step stays in the grid and changes the cell.
pub proof fn lemma_neighbour_inside(t: Model, index: int, k: int)
    requires
        t.valid(),
        0 <= index < cell_count(t),
        0 <= k < 8,
        may_step(t, index, k),
    ensures
        0 <= neighbour(t, index, k) < cell_count(t),
        neighbour(t, index, k) != index,
        col_of(t, neighbour(t, index, k)) == col_of(t, index) + step_col(k),
        row_of(t, neighbour(t, index, k)) == row_of(t, index) + step_row(k),
{
    lemma_cell(t, index);
    let c: int = col_of(t, index) + step_col(k);
    let r: int = row_of(t, index) + step_row(k);
    let w: int = t.columns;
    let h: int = t.rows;
    assert(0 <= c < w && 0 <= r < h);
    lemma_number(w, h, c, r);
    if neighbour(t, index, k) == index {
        assert(c == col_of(t, index) && r == row_of(t, index));
        assert(false);
    }
}

/// Numbering a cell and reading its place back.
pub proof fn lemma_number(w: int, h: int, c: int, r: int)
    requires
        0 <= c < w,
        0 <= r < h,
    ensures
        0 <= r * w + c < w * h,
        (r * w + c) % w == c,
        (r * w + c) / w == r,
{
    vstd::arithmetic::div_mod::lemma_fundamental_div_mod_converse(r * w + c, w, r, c);
    assert(r * w + c < w * h) by (nonlinear_arith)
        requires
            0 <= c < w,
            0 <= r,
            r + 1 <= h,
    ;
    assert(r * w >= 0) by (nonlinear_arith)
        requires
            r >= 0,
            w > 0,
    ;
}

/// The place of a numbered cell lies in the grid.
pub proof fn lemma_cell(t: Model, index: int)
    requires
        t.valid(),
        0 <= index < cell_count(t),
    ensures
        0 <= col_of(t, index) < t.columns,
        0 <= row_of(t, index) < t.rows,
        row_of(t, index) * t.columns + col_of(t, index) == index,
{
    lemma_place(t.columns, t.rows, index);
}

/// Place of a number in a grid of `w` by `h` cells.
pub proof fn lemma_place(w: int, h: int, index: int)
    requires
        w > 0,
        0 <= index < w * h,
    ensures
        0 <= index % w < w,
        0 <= index / w < h,
        (index / w) * w + index % w == index,
{
    vstd::arithmetic::div_mod::lemma_fundamental_div_mod(index, w);
    let q: int = index / w;
    assert(w * q == q * w) by (nonlinear_arith);
    assert(q < h) by (nonlinear_arith)
        requires
            w * q <= index,
            index < w * h,
            w > 0,
    ;
    vstd::arithmetic::div_mod::lemma_div_pos_is_pos(index, w);
}

/// Trying a step keeps a frontier sound.
pub proof fn lemma_relaxed_sound(t: Model, f: Frontier, index: int, k: int)
    requires
        t.valid(),
        sound(t, f),
        f.labels.dom().contains(index),
        0 <= k < 8,
    ensures
        sound(t, relaxed(t, f, index, k)),
        relaxed(t, f, index, k).labels.dom().contains(index),
        relaxed(t, f, index, k).labels[index] == f.labels[index],
{
    if may_step(t, index, k) {
        lemma_neighbour_inside(t, index, k);
        let g: Frontier = relaxed(t, f, index, k);
        assert(adjoins(t, index, neighbour(t, index, k)));
        assert forall|i: int| g.labels.dom().contains(i) implies #[trigger] linked(t, g, i) by {
            if f.labels.dom().contains(i) {
                assert(linked(t, f, i));
            }
        }
        assert forall|e: Entry| #[trigger]
            g.queue.count(e) > 0 implies g.labels.dom().contains(e.index as int) by {
            if f.queue.count(e) > 0 {
                assert(f.labels.dom().contains(e.index as int));
            }
        }
    }
}

/// Expanding a cell keeps a frontier sound and the cell's own label.
pub proof fn lemma_expanded_sound(t: Model, f: Frontier, index: int, k: int)
    requires
        t.valid(),
        sound(t, f),
        f.labels.dom().contains(index),
        0 <= k <= 8,
    ensures
        sound(t, expanded(t, f, index, k)),
        expanded(t, f, index, k).labels.dom().contains(index),
        expanded(t, f, index, k).labels[index] == f.labels[index],
    decreases k,
{
    if k > 0 {
        lemma_expanded_sound(t, f, index, k - 1);
        lemma_relaxed_sound(t, expanded(t, f, index, k - 1), index, k - 1);
    }
}

/// A frontier stays sound when a node leaves its queue.
pub proof fn lemma_popped_sound(t: Model, f: Frontier, e: Entry)
    requires
        sound(t, f),
    ensures
        sound(t, (Frontier { labels: f.labels, queue: f.queue.remove(e) })),
{
    let g: Frontier = Frontier { labels: f.labels, queue: f.queue.remove(e) };
    assert forall|i: int| g.labels.dom().contains(i) implies #[trigger] linked(t, g, i) by {
        assert(linked(t, f, i));
    }
    assert forall|x: Entry| #[trigger]
        g.queue.count(x) > 0 implies g.labels.dom().contains(x.index as int) by {
        assert(f.queue.count(x) > 0);
    }
}

/// The first frontier is sound.
pub proof fn lemma_origin_sound(t: Model, start: int)
    requires
        0 <= start < cell_count(t),
        cell_count(t) <= usize::MAX,
    ensures
        sound(t, origin_frontier(t, start)),
{
    let f: Frontier = origin_frontier(t, start);
    let only: Entry = Entry {
        key: t.score(Real { bits: 0 }, start).spec_total_key(),
        index: start as usize,
    };
    assert forall|e: Entry| #[trigger]
        f.queue.count(e) > 0 implies f.labels.dom().contains(e.index as int) by {
        assert(e == only);
    }
}

/// Column offset of the `k`-th neighbour.
fn step_col_of(k: usize) -> (r: isize)
    requires
        k < 8,
    ensures
        r == step_col(k as int),
{
    if k == 0 || k == 4 || k == 5 {
        -1
    } else if k == 1 || k == 6 || k == 7 {
        1
    } else {
        0
    }
}

/// Row offset of the `k`-th neighbour.
fn step_row_of(k: usize) -> (r: isize)
    requires
        k < 8,
    ensures
        r == step_row(k as int),
{
    if k == 2 || k == 4 || k == 6 {
        -1
    } else if k == 3 || k == 5 || k == 7 {
        1
    } else {
        0
    }
}

/// Tries every step out of a cell.
pub fn expand<T: Terrain>(
    t: &T,
    labels: &mut StampedMap<Label>,
    queue: &mut Queue,
    index: usize,
)
    requires
        t.ready(),
        old(labels).wf(),
        old(queue).wf(),
        old(labels).capacity() >= cell_count(t.model()),
        sound(t.model(), (Frontier { labels: old(labels)@, queue: old(queue)@ })),
        old(labels)@.dom().contains(index as int),
    ensures
        final(labels).wf(),
        final(queue).wf(),
        final(labels).capacity() == old(labels).capacity(),
        (Frontier { labels: final(labels)@, queue: final(queue)@ }) == expanded(
            t.model(),
            Frontier { labels: old(labels)@, queue: old(queue)@ },
            index as int,
            8,
        ),
{
    let ghost m: Model = t.model();
    let ghost f0: Frontier = Frontier { labels: labels@, queue: queue@ };
    let width: usize = t.width();
    proof {
        t.lemma_ready();
        assert(f0.labels.dom().contains(index as int));
        lemma_cell(m, index as int);
    }
    let col: isize = (index % width) as isize;
    let row: isize = (index / width) as isize;
    let cost: Real = match labels.get(index) {
        Some(label) => label.cost,
        None => Real { bits: INF },
    };
    let mut k: usize = 0;
    while k < 8
        invariant
            t.ready(),
            m == t.model(),
            m.valid(),
            labels.wf(),
            queue.wf(),
            labels.capacity() == old(labels).capacity(),
            labels.capacity() >= cell_count(m),
            k <= 8,
            width == m.columns,
            col == col_of(m, index as int),
            row == row_of(m, index as int),
            0 <= col < m.columns <= isize::MAX,
            0 <= row < m.rows <= isize::MAX,
            sound(m, f0),
            f0.labels.dom().contains(index as int),
            cost == f0.labels[index as int].cost,
            (Frontier { labels: labels@, queue: queue@ }) == expanded(
                m,
                f0,
                index as int,
                k as int,
            ),
        decreases 8 - k,
    {
        let ghost f: Frontier = Frontier { labels: labels@, queue: queue@ };
        proof {
            lemma_expanded_sound(m, f0, index as int, k as int);
            assert(cost_at(f.labels, index as int) == cost);
        }
        let dx: isize = step_col_of(k);
        let dz: isize = step_row_of(k);
        let diagonal: bool = k >= 4;
        if t.is_open(col + dx, row + dz) && (!diagonal || (t.is_open(col + dx, row) && t.is_open(
            col,
            row + dz,
        ))) {
            proof {
                assert(may_step(m, index as int, k as int));
                lemma_neighbour_inside(m, index as int, k as int);
                let r: int = row + dz;
                let c: int = col + dx;
                assert(r * width >= 0) by (nonlinear_arith)
                    requires
                        r >= 0,
                        width >= 0,
                ;
            }
            let next: usize = (row + dz) as usize * width + (col + dx) as usize;
            let candidate: Real = t.extend(cost, next, diagonal);
            let known: Real = match labels.get(next) {
                Some(label) => label.cost,
                None => Real { bits: INF },
            };
            if candidate.lt(known) {
                labels.set(next, Label { cost: candidate, from: index });
                let key: i64 = t.score_at(candidate, next).total_key();
                queue.push(Entry { key, index: next });
            }
        }
        proof {
            assert((Frontier { labels: labels@, queue: queue@ }) == relaxed(
                m,
                f,
                index as int,
                k as int,
            ));
        }
        k = k + 1;
    }
}

} // verus!
