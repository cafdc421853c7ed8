//! Which coarse cells a threat looms over, and which fine ones it covers.
use vstd::arithmetic::power2::*;
use vstd::prelude::*;

use crate::coarse::CoarseView;
use crate::config::{NavConfig, Threat};
use crate::corridor::{looms, wide_berth};
use crate::crossing::{cell_unit, lemma_large_unit};
use crate::geometry::{cell_coordinate, distance_sq, Point, HALF};
use crate::lattice::{
    doubled_middle, laid_out, lemma_cell_coordinate, lemma_cell_is_modest, lemma_half,
    lemma_middle,
};
use crate::nearness::{
    bounding, lemma_close_difference, lemma_close_product, lemma_close_sum, lemma_distance_sq,
    lemma_modest, lemma_mul_bound, lemma_size_scales, lemma_square_of, lemma_unit_is_nothing,
    modest, reaches, size_of, within_bound,
};
use crate::number::Real;
use crate::ordering::{lemma_int_exact, lemma_value_order};
use crate::unit::lemma_size_of_zero;
use crate::walk::WalkView;
use crate::window::{shadows, spec_probe_at, TINY_DISC};

verus! {

/// Twice the distance that a corridor keeps from a threat: its radius, the margin, the
/// radius of the agent, and half a cell.
pub open spec fn doubled_berth(config: NavConfig, threat: Threat, cell: Real) -> int {
    2 * (threat.radius.value() + config.threat_margin.value() + config.agent_radius.value())
        + cell.value()
}

/// Whether a coarse view, the margins of an agent and a threat lie within a bound.
pub open spec fn all_within(
    coarse: &CoarseView,
    config: NavConfig,
    threat: Threat,
    most: int,
) -> bool {
    &&& bounding(most)
    &&& laid_out(coarse.origin.x, coarse.cell_size, coarse.width as int, most)
    &&& laid_out(coarse.origin.z, coarse.cell_size, coarse.height as int, most)
    &&& coarse.width <= isize::MAX
    &&& coarse.height <= isize::MAX
    &&& most <= 0x100_0000_0000 * coarse.cell_size.value()
    &&& within_bound(threat.center, most)
    &&& reaches(threat.radius, most)
    &&& reaches(config.threat_margin, most)
    &&& reaches(config.agent_radius, most)
    &&& threat.radius.value() >= 0
    &&& config.threat_margin.value() >= 0
    &&& config.agent_radius.value() >= 0
    &&& doubled_berth(config, threat, coarse.cell_size) <= 2 * most
}

proof fn lemma_half_of(cell: Real, most: int)
    requires
        bounding(most),
        reaches(cell, most),
        cell.value() >= 0,
    ensures
        ({
            let h: Real = cell.mul(Real::of(HALF));
            &&& h.finite()
            &&& size_of(h.value()) <= most
            &&& 0x20_0000_0000_0000 * size_of(2 * h.value() - cell.value()) <= 4 * most
        }),
{
    let half: Real = Real::of(HALF);
    let h: Real = cell.mul(half);
    let u: int = cell_unit();
    let v: int = cell.value();
    lemma_large_unit();
    lemma_unit_is_nothing(most);
    lemma_half();
    lemma_modest(cell, most);
    lemma_close_product(cell, half);
    assert(2 * (v * half.value()) == v * u) by (nonlinear_arith)
        requires
            2 * half.value() == u,
    ;
    let e: int = 2 * h.value() - v;
    assert(e * u == 2 * (h.value() * u) - v * u) by (nonlinear_arith)
        requires
            e == 2 * h.value() - v,
    ;
    lemma_size_scales(e, u);
    let g: int = size_of(e);
    let n: int = size_of(h.value());
    assert(0x20_0000_0000_0000 * g <= 2 * n + 0x40_0000_0000_0000) by (nonlinear_arith)
        requires
            0x20_0000_0000_0000 * (g * u) <= 2 * (n * u) + 0x40_0000_0000_0000 * u,
            u > 0,
    ;
}

/// The distance kept, as it is computed.
proof fn lemma_berth(coarse: &CoarseView, config: NavConfig, threat: Threat, most: int)
    requires
        all_within(coarse, config, threat, most),
        coarse.width > 0,
    ensures
        ({
            let berth: Real = wide_berth(coarse, config, threat);
            &&& berth.finite()
            &&& 0 <= berth.value() <= 2 * most
            &&& 0x20_0000_0000_0000 * size_of(
                2 * berth.value() - doubled_berth(config, threat, coarse.cell_size),
            ) <= 32 * most
        }),
{
    let cell: Real = coarse.cell_size;
    let h: Real = cell.mul(Real::of(HALF));
    let margin: Real = config.threat_margin.add(config.agent_radius);
    lemma_large_unit();
    lemma_cell_is_modest(coarse.origin.x, cell, coarse.width as int, most);
    lemma_half_of(cell, most);
    lemma_modest(config.threat_margin, most);
    lemma_modest(config.agent_radius, most);
    lemma_close_sum(config.threat_margin, config.agent_radius);
    lemma_modest(margin, most);
    lemma_modest(h, most);
    lemma_close_sum(margin, h);
    lemma_modest(margin.add(h), most);
    lemma_modest(threat.radius, most);
    lemma_close_sum(threat.radius, margin.add(h));
}

/// A middle within the distance kept lies in a column (or row) that is looked at.
proof fn lemma_looked_at(
    origin: Real,
    cell: Real,
    cells: usize,
    n: usize,
    t: Real,
    berth: Real,
    doubled: int,
    most: int,
)
    requires
        laid_out(origin, cell, cells as int, most),
        n < cells <= isize::MAX,
        most <= 0x100_0000_0000 * cell.value(),
        reaches(t, most),
        berth.finite(),
        0 <= berth.value() <= 2 * most,
        0x20_0000_0000_0000 * size_of(2 * berth.value() - doubled) <= 32 * most,
        size_of(doubled_middle(origin, cell, n as int) - 2 * t.value()) <= doubled,
    ensures
        cell_coordinate(t.sub(berth), origin, cell) <= n,
        n <= cell_coordinate(t.add(berth), origin, cell),
{
    let left: Real = t.sub(berth);
    let right: Real = t.add(berth);
    let s: int = cell.value();
    lemma_large_unit();
    lemma_cell_is_modest(origin, cell, cells as int, most);
    lemma_modest(t, most);
    lemma_modest(berth, most);
    lemma_close_difference(t, berth);
    lemma_close_sum(t, berth);
    lemma_cell_coordinate(left, origin, cell, cells as int, n + 1, most);
    lemma_cell_coordinate(right, origin, cell, cells as int, n as int, most);
    assert((n + 1) * s == n * s + s) by (nonlinear_arith);
    assert((2 * n + 1) * s == 2 * (n * s) + s) by (nonlinear_arith);
}

proof fn lemma_doubled_square(a: int, b: int, k: int, m: int, most: int)
    requires
        0x20_0000_0000_0000 * size_of(2 * a - b) <= k * most,
        size_of(2 * a) + size_of(b) <= m * most,
        most > 0,
        k >= 0,
        m >= 0,
    ensures
        0x20_0000_0000_0000 * size_of(4 * (a * a) - b * b) <= (k * m) * (most * most),
{
    let e: int = 0x20_0000_0000_0000 * (2 * a - b);
    lemma_mul_bound(e, 2 * a + b, k * most, m * most);
    assert((k * most) * (m * most) == (k * m) * (most * most)) by (nonlinear_arith);
    assert(e * (2 * a + b) == 0x20_0000_0000_0000 * (4 * (a * a) - b * b)) by (nonlinear_arith)
        requires
            e == 0x20_0000_0000_0000 * (2 * a - b),
    ;
}

/// A threat looms over the coarse cells whose middles lie no farther from it than its
/// radius, the margin, the radius of the agent and half a cell together. This holds up to
/// one part in `2^32` of the square of a bound. Lengths are doubled.
pub proof fn lemma_threat_looms_over_what_is_near(
    coarse: &CoarseView,
    config: NavConfig,
    threat: Threat,
    col: usize,
    row: usize,
    most: int,
)
    requires
        all_within(coarse, config, threat, most),
        coarse.within(col as int, row as int),
    ensures
        ({
            let cell: Real = coarse.cell_size;
            let dx: int = doubled_middle(coarse.origin.x, cell, col as int) - 2
                * threat.center.x.value();
            let dz: int = doubled_middle(coarse.origin.z, cell, row as int) - 2
                * threat.center.z.value();
            let berth: int = doubled_berth(config, threat, cell);
            let off: int = dx * dx + dz * dz - berth * berth;
            &&& looms(coarse, config, threat, col as int, row as int) ==> 0x1_0000_0000 * off <= most
                * most
            &&& 0x1_0000_0000 * off <= -(most * most) ==> looms(
                coarse,
                config,
                threat,
                col as int,
                row as int,
            )
        }),
{
    let cell: Real = coarse.cell_size;
    let u: int = cell_unit();
    let m: int = most * most;
    let dx: int = doubled_middle(coarse.origin.x, cell, col as int) - 2 * threat.center.x.value();
    let dz: int = doubled_middle(coarse.origin.z, cell, row as int) - 2 * threat.center.z.value();
    let doubled: int = doubled_berth(config, threat, cell);
    let off: int = dx * dx + dz * dz - doubled * doubled;
    let berth: Real = wide_berth(coarse, config, threat);
    let c: Point = coarse.center(col, row);
    let d: Real = distance_sq(c, threat.center);
    let s: Real = berth.mul(berth);
    lemma_large_unit();
    lemma_cell_is_modest(coarse.origin.x, cell, coarse.width as int, most);
    lemma_berth(coarse, config, threat, most);
    lemma_middle(coarse.origin.x, cell, coarse.width as int, col, most);
    lemma_middle(coarse.origin.z, cell, coarse.height as int, row, most);
    let ex: int = c.x.value() - threat.center.x.value();
    let ez: int = c.z.value() - threat.center.z.value();
    lemma_distance_sq(c, threat.center, most);
    lemma_square_of(berth, most);
    lemma_value_order(d, s);
    lemma_doubled_square(ex, dx, 16, 20, most);
    lemma_doubled_square(ez, dz, 16, 20, most);
    lemma_doubled_square(berth.value(), doubled, 32, 8, most);
    assert(d.value() <= s.value() ==> d.value() * u <= s.value() * u) by (nonlinear_arith)
        requires
            u > 0,
    ;
    assert(s.value() <= d.value() ==> s.value() * u <= d.value() * u) by (nonlinear_arith)
        requires
            u > 0,
    ;
    assert(m > 0) by (nonlinear_arith)
        requires
            m == most * most,
            most > 0,
    ;
    if 0x1_0000_0000 * off <= -m {
        lemma_sides(dx, dz, doubled);
        lemma_looked_at(
            coarse.origin.x,
            cell,
            coarse.width,
            col,
            threat.center.x,
            berth,
            doubled,
            most,
        );
        lemma_looked_at(
            coarse.origin.z,
            cell,
            coarse.height,
            row,
            threat.center.z,
            berth,
            doubled,
            most,
        );
        assert(d.value() <= s.value());
    }
}

proof fn lemma_sides(dx: int, dz: int, b: int)
    requires
        dx * dx + dz * dz <= b * b,
        b >= 0,
    ensures
        size_of(dx) <= b,
        size_of(dz) <= b,
{
    assert(dx * dx >= 0 && dz * dz >= 0) by (nonlinear_arith);
    assert(-b <= dx <= b) by (nonlinear_arith)
        requires
            dx * dx <= b * b,
            b >= 0,
    ;
    assert(-b <= dz <= b) by (nonlinear_arith)
        requires
            dz * dz <= b * b,
            b >= 0,
    ;
}

/// Whether a view and a disc lie within a bound, and the disc is no smaller than one and a
/// half cells.
pub open spec fn wide_disc(view: &WalkView, threat: Threat, most: int) -> bool {
    &&& bounding(most)
    &&& laid_out(view.origin.x, view.cell_size, view.width as int, most)
    &&& laid_out(view.origin.z, view.cell_size, view.height as int, most)
    &&& view.width <= isize::MAX
    &&& view.height <= isize::MAX
    &&& view.width <= 0x20_0000_0000_0000
    &&& view.height <= 0x20_0000_0000_0000
    &&& most <= 0x100_0000_0000 * view.cell_size.value()
    &&& within_bound(threat.center, most)
    &&& reaches(threat.radius, most)
    &&& most <= 0x1000_0000 * (2 * threat.radius.value() - 3 * view.cell_size.value())
}

/// A number of cells, from the first edge on.
proof fn lemma_offset_of(cell: Real, n: isize, most: int)
    requires
        bounding(most),
        reaches(cell, most),
        cell.value() >= 0,
        0 <= n < 0x20_0000_0000_0000,
        n * cell.value() <= most,
    ensures
        ({
            let m: Real = Real::from_int(n).mul(cell);
            &&& m.finite()
            &&& size_of(m.value()) <= 2 * most
            &&& 0x20_0000_0000_0000 * size_of(m.value() - n * cell.value()) <= 4 * most
        }),
{
    let r: Real = Real::from_int(n);
    let m: Real = r.mul(cell);
    let u: int = cell_unit();
    let v: int = cell.value();
    lemma_large_unit();
    lemma_unit_is_nothing(most);
    lemma_whole(n);
    lemma_modest(cell, most);
    lemma_close_product(r, cell);
    let nv: int = n * v;
    assert(nv >= 0) by (nonlinear_arith)
        requires
            nv == n * v,
            n >= 0,
            v >= 0,
    ;
    assert(r.value() * v == nv * u) by (nonlinear_arith)
        requires
            r.value() == n * u,
            nv == n * v,
    ;
    let e: int = m.value() - nv;
    assert(e * u == m.value() * u - nv * u) by (nonlinear_arith)
        requires
            e == m.value() - nv,
    ;
    lemma_size_scales(e, u);
    let g: int = size_of(e);
    let k: int = size_of(m.value());
    assert(0x20_0000_0000_0000 * g <= k + 0x20_0000_0000_0000) by (nonlinear_arith)
        requires
            0x20_0000_0000_0000 * (g * u) <= k * u + 0x20_0000_0000_0000 * u,
            u > 0,
    ;
}

proof fn lemma_whole(n: isize)
    requires
        0 <= n < 0x20_0000_0000_0000,
    ensures
        modest(Real::from_int(n)),
        Real::from_int(n).value() == n * cell_unit(),
{
    let r: Real = Real::from_int(n);
    let u: int = cell_unit();
    if n == 0 {
        assert(r.magnitude() == 0) by {
            reveal(Real::spec_from_int);
        }
        lemma_size_of_zero(r);
    } else {
        lemma_int_exact(n);
        lemma_large_unit();
        lemma_wide_bound();
        assert(0 <= n * u <= 0x20_0000_0000_0000 * u) by (nonlinear_arith)
            requires
                0 <= n < 0x20_0000_0000_0000,
                u > 0,
        ;
        lemma_modest(r, 0x20_0000_0000_0000 * u);
    }
}

proof fn lemma_wide_bound()
    ensures
        bounding(0x20_0000_0000_0000 * cell_unit()),
{
    lemma2_to64_rest();
    lemma_pow2_adds(53, 1074);
    lemma_pow2_strictly_increases(1127, 1174);
    lemma_large_unit();
}

/// The point by which a wide disc is judged in a column (or row) is its middle.
proof fn lemma_probe(origin: Real, cell: Real, cells: usize, n: usize, center: Real, most: int)
    requires
        laid_out(origin, cell, cells as int, most),
        n < cells <= isize::MAX,
        cells <= 0x20_0000_0000_0000,
    ensures
        ({
            let c: Real = spec_probe_at(n as isize, origin, cell, center, false);
            &&& c.finite()
            &&& size_of(c.value()) <= 4 * most
            &&& 0x20_0000_0000_0000 * size_of(
                2 * c.value() - doubled_middle(origin, cell, n as int),
            ) <= 48 * most
        }),
{
    let s: int = cell.value();
    lemma_large_unit();
    lemma_cell_is_modest(origin, cell, cells as int, most);
    assert(n * s + s <= cells * s && 0 <= n * s) by (nonlinear_arith)
        requires
            0 <= n < cells,
            s > 0,
    ;
    assert((2 * n + 1) * s == 2 * (n * s) + s) by (nonlinear_arith);
    lemma_offset_of(cell, n as isize, most);
    lemma_half_of(cell, most);
    let m: Real = Real::from_int(n as isize).mul(cell);
    let low: Real = origin.add(m);
    let h: Real = cell.mul(Real::of(HALF));
    lemma_modest(origin, most);
    lemma_modest(m, most);
    lemma_close_sum(origin, m);
    lemma_modest(low, most);
    lemma_modest(h, most);
    lemma_close_sum(low, h);
}

proof fn lemma_is_wide(view: &WalkView, threat: Threat, most: int)
    requires
        wide_disc(view, threat, most),
        view.width > 0,
    ensures
        !threat.radius.lt(view.cell_size.mul(Real::of(TINY_DISC))),
        threat.radius.value() > 0,
{
    let cell: Real = view.cell_size;
    let times: Real = Real::of(TINY_DISC);
    let x: Real = cell.mul(times);
    let u: int = cell_unit();
    let v: int = cell.value();
    lemma_large_unit();
    lemma_unit_is_nothing(most);
    lemma_cell_is_modest(view.origin.x, cell, view.width as int, most);
    lemma2_to64();
    lemma2_to64_rest();
    assert(times.significand() == 0x18_0000_0000_0000 && times.exponent() == -52);
    lemma_pow2_adds(52, 1022);
    let a: int = pow2(1022) as int;
    assert(u == 0x10_0000_0000_0000 * a);
    assert(times.value() == 0x18_0000_0000_0000 * a);
    assert(modest(times));
    lemma_close_product(cell, times);
    assert(2 * (v * times.value()) == 3 * (v * u)) by (nonlinear_arith)
        requires
            2 * times.value() == 3 * u,
    ;
    let e: int = 2 * x.value() - 3 * v;
    assert(e * u == 2 * (x.value() * u) - 3 * (v * u)) by (nonlinear_arith)
        requires
            e == 2 * x.value() - 3 * v,
    ;
    lemma_size_scales(e, u);
    let g: int = size_of(e);
    let k: int = size_of(x.value());
    assert(0x20_0000_0000_0000 * g <= 2 * k + 0x40_0000_0000_0000) by (nonlinear_arith)
        requires
            0x20_0000_0000_0000 * (g * u) <= 2 * (k * u) + 0x40_0000_0000_0000 * u,
            u > 0,
    ;
    lemma_value_order(x, threat.radius);
}

/// A wide disc covers the cells whose middles lie in it, and no others. This holds up to one
/// part in `2^32` of the square of a bound. Lengths are doubled.
pub proof fn lemma_disc_covers_what_lies_in_it(
    view: &WalkView,
    threat: Threat,
    col: usize,
    row: usize,
    most: int,
)
    requires
        wide_disc(view, threat, most),
        col < view.width,
        row < view.height,
    ensures
        ({
            let cell: Real = view.cell_size;
            let dx: int = doubled_middle(view.origin.x, cell, col as int) - 2
                * threat.center.x.value();
            let dz: int = doubled_middle(view.origin.z, cell, row as int) - 2
                * threat.center.z.value();
            let reach: int = 2 * threat.radius.value();
            let off: int = dx * dx + dz * dz - reach * reach;
            &&& shadows(view, threat, col as int, row as int) ==> 0x1_0000_0000 * off <= most * most
            &&& 0x1_0000_0000 * off <= -(most * most) ==> shadows(
                view,
                threat,
                col as int,
                row as int,
            )
        }),
{
    let cell: Real = view.cell_size;
    let u: int = cell_unit();
    let m: int = most * most;
    let t: Point = threat.center;
    let dx: int = doubled_middle(view.origin.x, cell, col as int) - 2 * t.x.value();
    let dz: int = doubled_middle(view.origin.z, cell, row as int) - 2 * t.z.value();
    let reach: int = 2 * threat.radius.value();
    let off: int = dx * dx + dz * dz - reach * reach;
    let c: Point = Point {
        x: spec_probe_at(col as isize, view.origin.x, cell, t.x, false),
        z: spec_probe_at(row as isize, view.origin.z, cell, t.z, false),
    };
    let d: Real = distance_sq(c, t);
    let s: Real = threat.radius.mul(threat.radius);
    lemma_large_unit();
    lemma_is_wide(view, threat, most);
    lemma_probe(view.origin.x, cell, view.width, col, t.x, most);
    lemma_probe(view.origin.z, cell, view.height, row, t.z, most);
    lemma_cell_is_modest(view.origin.x, cell, view.width as int, most);
    lemma_middles_are_near(view.origin.x, cell, view.width as int, col as int, most);
    lemma_middles_are_near(view.origin.z, cell, view.height as int, row as int, most);
    let ex: int = c.x.value() - t.x.value();
    let ez: int = c.z.value() - t.z.value();
    lemma_distance_sq(c, t, most);
    lemma_square_of(threat.radius, most);
    lemma_value_order(d, s);
    lemma_doubled_square(ex, dx, 48, 20, most);
    lemma_doubled_square(ez, dz, 48, 20, most);
    assert(reach * reach == 4 * (threat.radius.value() * threat.radius.value())) by (nonlinear_arith)
        requires
            reach == 2 * threat.radius.value(),
    ;
    assert(d.value() <= s.value() ==> d.value() * u <= s.value() * u) by (nonlinear_arith)
        requires
            u > 0,
    ;
    assert(s.value() <= d.value() ==> s.value() * u <= d.value() * u) by (nonlinear_arith)
        requires
            u > 0,
    ;
    assert(m > 0) by (nonlinear_arith)
        requires
            m == most * most,
            most > 0,
    ;
    if 0x1_0000_0000 * off <= -m {
        lemma_sides(dx, dz, reach);
        lemma_looked_at(view.origin.x, cell, view.width, col, t.x, threat.radius, reach, most);
        lemma_looked_at(view.origin.z, cell, view.height, row, t.z, threat.radius, reach, most);
        assert(d.value() <= s.value());
    }
}

proof fn lemma_middles_are_near(origin: Real, cell: Real, cells: int, n: int, most: int)
    requires
        laid_out(origin, cell, cells, most),
        0 <= n < cells,
        cell.value() > 0,
    ensures
        size_of(doubled_middle(origin, cell, n)) <= 4 * most,
{
    let s: int = cell.value();
    assert(n * s + s <= cells * s && 0 <= n * s) by (nonlinear_arith)
        requires
            0 <= n < cells,
            s > 0,
    ;
    assert((2 * n + 1) * s == 2 * (n * s) + s) by (nonlinear_arith);
}

} // verus!
