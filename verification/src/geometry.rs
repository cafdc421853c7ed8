//! Points of the ground plane and the distances between them.
use vstd::prelude::*;

use crate::number::Real;

verus! {

pub const ZERO: u64 = 0;

pub const ONE: u64 = 0x3ff0_0000_0000_0000;

pub const HALF: u64 = 0x3fe0_0000_0000_0000;

/// The square root of two.
pub const SQRT_2: u64 = 0x3ff6_a09e_667f_3bcd;

/// The square root of two, less one.
pub const DIAGONAL_EXTRA: u64 = 0x3fda_8279_99fc_ef34;

/// The distance from one to the next larger number.
pub const EPSILON: u64 = 0x3cb0_0000_0000_0000;

/// Lengths from here on have squares that overflow: `2^500`.
pub const HUGE: u64 = 0x5f30_0000_0000_0000;

/// Lengths below this have squares that lose digits: `2^-500`.
pub const TINY: u64 = 0x20b0_0000_0000_0000;

/// Scale that makes tiny lengths ordinary: `2^600`.
pub const SCALE_UP: u64 = 0x6570_0000_0000_0000;

/// Scale that makes huge lengths ordinary: `2^-600`.
pub const SCALE_DOWN: u64 = 0x1a70_0000_0000_0000;

pub const INFINITY: u64 = 0x7ff0_0000_0000_0000;

/// A point of the ground plane.
#[derive(Clone, Copy, PartialEq, Eq, Structural, Debug, Hash)]
pub struct Point {
    pub x: Real,
    pub z: Real,
}

/// Length of the hypotenuse over two sides of ordinary size.
pub open spec fn plain_hypot(a: Real, b: Real) -> Real {
    a.mul(a).add(b.mul(b)).sqrt()
}

impl Real {
    pub open spec fn spec_hypot(self, other: Real) -> Real {
        let a: Real = self.abs();
        let b: Real = other.abs();
        if a.infinite() || b.infinite() {
            Real::of(INFINITY)
        } else if Real::of(HUGE).le(a) || Real::of(HUGE).le(b) {
            plain_hypot(a.mul(Real::of(SCALE_DOWN)), b.mul(Real::of(SCALE_DOWN))).mul(Real::of(SCALE_UP))
        } else if a.lt(Real::of(TINY)) && b.lt(Real::of(TINY)) {
            plain_hypot(a.mul(Real::of(SCALE_UP)), b.mul(Real::of(SCALE_UP))).mul(Real::of(SCALE_DOWN))
        } else {
            plain_hypot(a, b)
        }
    }

    /// Length of the hypotenuse over two sides, without overflow on the way.
    #[verifier::when_used_as_spec(spec_hypot)]
    pub fn hypot(self, other: Real) -> (r: Real)
        ensures
            r == self.spec_hypot(other),
    {
        let a: Real = self.abs();
        let b: Real = other.abs();
        if a.bits == INFINITY || b.bits == INFINITY {
            Real::of(INFINITY)
        } else if Real::of(HUGE).le(a) || Real::of(HUGE).le(b) {
            let u: Real = a.mul(Real::of(SCALE_DOWN));
            let v: Real = b.mul(Real::of(SCALE_DOWN));
            u.mul(u).add(v.mul(v)).sqrt().mul(Real::of(SCALE_UP))
        } else if a.lt(Real::of(TINY)) && b.lt(Real::of(TINY)) {
            let u: Real = a.mul(Real::of(SCALE_UP));
            let v: Real = b.mul(Real::of(SCALE_UP));
            u.mul(u).add(v.mul(v)).sqrt().mul(Real::of(SCALE_DOWN))
        } else {
            a.mul(a).add(b.mul(b)).sqrt()
        }
    }
}

pub open spec fn spec_distance_sq(left: Point, right: Point) -> Real {
    let dx: Real = left.x.sub(right.x);
    let dz: Real = left.z.sub(right.z);
    dx.mul(dx).add(dz.mul(dz))
}

/// Square of the distance between two points.
#[verifier::when_used_as_spec(spec_distance_sq)]
pub fn distance_sq(left: Point, right: Point) -> (r: Real)
    ensures
        r == spec_distance_sq(left, right),
{
    let dx: Real = left.x.sub(right.x);
    let dz: Real = left.z.sub(right.z);
    dx.mul(dx).add(dz.mul(dz))
}

pub open spec fn spec_distance(left: Point, right: Point) -> Real {
    distance_sq(left, right).sqrt()
}

/// Distance between two points.
#[verifier::when_used_as_spec(spec_distance)]
pub fn distance(left: Point, right: Point) -> (r: Real)
    ensures
        r == spec_distance(left, right),
{
    distance_sq(left, right).sqrt()
}

/// How far along the segment its point nearest to `point` lies, from zero to
/// one; zero on a segment without length.
pub open spec fn nearest_share(from: Point, to: Point, point: Point) -> Real {
    let dx: Real = to.x.sub(from.x);
    let dz: Real = to.z.sub(from.z);
    let length_sq: Real = dx.mul(dx).add(dz.mul(dz));
    if length_sq.le(Real::of(EPSILON)) {
        Real::of(ZERO)
    } else {
        point.x.sub(from.x).mul(dx).add(point.z.sub(from.z).mul(dz)).div(length_sq).clamp(Real::of(ZERO), Real::of(ONE))
    }
}

pub open spec fn spec_segment_distance_sq(from: Point, to: Point, point: Point) -> Real {
    let t: Real = nearest_share(from, to, point);
    distance_sq(
        point,
        Point {
            x: from.x.add(to.x.sub(from.x).mul(t)),
            z: from.z.add(to.z.sub(from.z).mul(t)),
        },
    )
}

/// Square of the distance from a point to a segment: no point of the segment is
/// nearer, but for a sliver ([`crate::nearness::lemma_no_point_is_nearer`]).
#[verifier::when_used_as_spec(spec_segment_distance_sq)]
pub fn segment_distance_sq(from: Point, to: Point, point: Point) -> (r: Real)
    ensures
        r == spec_segment_distance_sq(from, to, point),
{
    let dx: Real = to.x.sub(from.x);
    let dz: Real = to.z.sub(from.z);
    let length_sq: Real = dx.mul(dx).add(dz.mul(dz));
    let t: Real = if length_sq.le(Real::of(EPSILON)) {
        Real::of(ZERO)
    } else {
        point.x.sub(from.x).mul(dx).add(point.z.sub(from.z).mul(dz)).div(length_sq).clamp(Real::of(ZERO), Real::of(ONE))
    };
    distance_sq(point, Point { x: from.x.add(dx.mul(t)), z: from.z.add(dz.mul(t)) })
}

pub open spec fn spec_octile(dc: Real, dr: Real) -> Real {
    let a: Real = dc.abs();
    let b: Real = dr.abs();
    a.max(b).add(Real::of(DIAGONAL_EXTRA).mul(a.min(b)))
}

/// Length of the shortest way over an open grid: diagonal steps, then straight
/// ones.
#[verifier::when_used_as_spec(spec_octile)]
pub fn octile(dc: Real, dr: Real) -> (r: Real)
    ensures
        r == spec_octile(dc, dr),
{
    let a: Real = dc.abs();
    let b: Real = dr.abs();
    a.max(b).add(Real::of(DIAGONAL_EXTRA).mul(a.min(b)))
}

pub open spec fn spec_cell_coordinate(world: Real, origin: Real, cell_size: Real) -> isize {
    world.sub(origin).div(cell_size).floor_int()
}

/// Number of the column (or row) of cells that a coordinate falls into.
#[verifier::when_used_as_spec(spec_cell_coordinate)]
pub fn cell_coordinate(world: Real, origin: Real, cell_size: Real) -> (r: isize)
    ensures
        r == spec_cell_coordinate(world, origin, cell_size),
{
    world.sub(origin).div(cell_size).floor_int()
}

pub open spec fn spec_cell_middle(index: usize, origin: Real, cell_size: Real) -> Real {
    origin.add(Real::from_count(index as u64).add(Real::of(HALF)).mul(cell_size))
}

/// Coordinate of the middle of a column (or row) of cells.
#[verifier::when_used_as_spec(spec_cell_middle)]
pub fn cell_middle(index: usize, origin: Real, cell_size: Real) -> (r: Real)
    ensures
        r == spec_cell_middle(index, origin, cell_size),
{
    origin.add(Real::from_count(index as u64).add(Real::of(HALF)).mul(cell_size))
}

/// The cell of a grid that a point falls into, if it falls into one.
pub open spec fn cell_containing(
    world: Point,
    origin: Point,
    cell_size: Real,
    width: usize,
    height: usize,
) -> Option<(usize, usize)> {
    let col: isize = cell_coordinate(world.x, origin.x, cell_size);
    let row: isize = cell_coordinate(world.z, origin.z, cell_size);
    if 0 <= col < width && 0 <= row < height {
        Some((col as usize, row as usize))
    } else {
        None
    }
}

/// Finds the cell of a grid that a point falls into.
pub fn locate(world: Point, origin: Point, cell_size: Real, width: usize, height: usize) -> (r:
    Option<(usize, usize)>)
    ensures
        r == cell_containing(world, origin, cell_size, width, height),
{
    let col: isize = cell_coordinate(world.x, origin.x, cell_size);
    let row: isize = cell_coordinate(world.z, origin.z, cell_size);
    if col >= 0 && row >= 0 && (col as usize) < width && (row as usize) < height {
        Some((col as usize, row as usize))
    } else {
        None
    }
}

pub open spec fn spec_clamp_index(v: isize, lo: isize, hi: isize) -> isize {
    if v < lo {
        lo
    } else if v > hi {
        hi
    } else {
        v
    }
}

/// An index limited to an interval.
#[verifier::when_used_as_spec(spec_clamp_index)]
pub fn clamp_index(v: isize, lo: isize, hi: isize) -> (r: isize)
    ensures
        r == spec_clamp_index(v, lo, hi),
{
    if v < lo {
        lo
    } else if v > hi {
        hi
    } else {
        v
    }
}

} // verus!
