//! Where the camera puts things: the screen against the world, exactly.
use vstd::arithmetic::power2::*;
use vstd::prelude::*;

use crate::camera::{
    Camera, Spot, FIT_GREATEST, FIT_LEAST, FIT_SHARE, ZOOM_GREATEST, ZOOM_LEAST,
};
use crate::crossing::{cell_unit, lemma_large_unit};
use crate::geometry::{Point, ONE, ZERO};
use crate::lattice::{
    laid_out, lemma_cell_is_modest, lemma_edge, lemma_half, lemma_quotient_is_finite, lemma_sign,
    SMALLEST_CELL,
};
use crate::nearness::{
    bounding, lemma_close_difference, lemma_close_product, lemma_close_sum, lemma_mul_bound,
    lemma_size_scales, lemma_unit_is_nothing, modest, reaches, size_of, within_bound,
};
use crate::number::{limited, Real, UNIT};
use crate::ordering::{
    lemma_mul_monotone, lemma_to_single_monotone, lemma_value_order, lemma_value_rank,
};
use crate::scene::NavGrid;
use crate::shortest::lemma_step_lengths;
use crate::single::{lemma_single_error, plain, SMALLEST};
use crate::unit::{lemma_quotient_error, lemma_quotient_error_below, lemma_size_of_zero};
use crate::walkable::grid_within;
use crate::workbench::spec_middle;

verus! {

pub proof fn lemma_modest_wide(r: Real, most: int)
    requires
        bounding(most),
        r.finite(),
        size_of(r.value()) <= 0x400 * most,
    ensures
        modest(r),
{
    let top: Real = Real { bits: 0x46d0_0000_0000_0000 };
    assert(top.significand() == UNIT as nat && top.exponent() == 58);
    lemma2_to64();
    lemma2_to64_rest();
    lemma_pow2_adds(52, 1132);
    lemma_pow2_adds(10, 1174);
    let c: int = pow2(1174) as int;
    lemma_pow2_pos(1174);
    assert(top.value() == 0x400 * c);
    let a: Real = r.abs();
    assert(a.value() == size_of(r.value()));
    lemma_value_order(a, top);
}

/// Rounding to single precision keeps the sign and goes by the size.
proof fn lemma_single_of_size(r: Real)
    requires
        r.finite(),
    ensures
        r.to_single().magnitude() == r.abs().to_single().magnitude(),
        r.to_single().negative() == r.negative(),
        !r.abs().to_single().negative(),
{
    let a: Real = r.abs();
    assert(a.magnitude() == r.magnitude() && !a.negative());
    reveal(Real::spec_to_single);
}

proof fn lemma_smallest_size()
    ensures
        0x200_0000 * (2 * Real::of(SMALLEST).value()) <= cell_unit(),
        Real::of(SMALLEST).value() > 0,
{
    let small: Real = Real::of(SMALLEST);
    lemma2_to64();
    lemma2_to64_rest();
    assert(small.significand() == UNIT as nat && small.exponent() == -178);
    lemma_pow2_adds(52, 896);
    lemma_pow2_adds(26, 948);
    lemma_pow2_adds(100, 974);
    lemma_pow2_pos(948);
    lemma_pow2_pos(100);
    let a: int = pow2(974) as int;
    let u: int = cell_unit();
    assert(u >= a) by (nonlinear_arith)
        requires
            u == pow2(100) * a,
            pow2(100) >= 1,
            a >= 0,
    ;
    assert(pow2(26) == 0x400_0000);
}

/// A number of any sign is rounded to single precision by at most one part in `2^24`, or by
/// next to nothing.
pub proof fn lemma_single_close(r: Real, most: int)
    requires
        bounding(most),
        modest(r),
    ensures
        ({
            let s: Real = r.to_single();
            &&& s.finite()
            &&& 0x100_0000 * size_of(s.value() - r.value()) <= size_of(r.value()) + cell_unit()
        }),
{
    let a: Real = r.abs();
    let t: Real = a.to_single();
    let small: Real = Real::of(SMALLEST);
    assert(a.magnitude() == r.magnitude() && !a.negative());
    assert(a.value() == size_of(r.value()));
    lemma_single_of_size(r);
    lemma_smallest_size();
    if plain(a) {
        lemma_single_error(a);
    } else {
        lemma_to_single_monotone(a, small);
        assert(plain(small));
        lemma_single_error(small);
        lemma_value_order(t, small.to_single());
        lemma_value_order(a, small);
    }
    let s: Real = r.to_single();
    assert(s.size() == t.size());
}

/// Whether a camera stands within a bound, with a zoom between a thirty-second and 128.
pub open spec fn camera_within(camera: Camera, most: int) -> bool {
    &&& bounding(most)
    &&& within_bound(camera.center, most)
    &&& camera.zoom.finite()
    &&& !camera.zoom.negative()
    &&& cell_unit() <= 32 * camera.zoom.value()
    &&& camera.zoom.value() <= 128 * cell_unit()
}

/// Whether a place on the screen lies within a bound.
pub open spec fn spot_within(spot: Spot, most: int) -> bool {
    reaches(spot.x, most) && reaches(spot.y, most)
}

proof fn lemma_zoom_is_modest(camera: Camera, most: int)
    requires
        camera_within(camera, most),
    ensures
        modest(camera.zoom),
        SMALLEST_CELL <= camera.zoom.magnitude(),
        camera.zoom.value() > 0,
{
    let zoom: Real = camera.zoom;
    let small: Real = Real { bits: 0x3fa0_0000_0000_0000 };
    lemma_large_unit();
    lemma_modest_wide(zoom, most);
    lemma2_to64();
    lemma2_to64_rest();
    assert(small.significand() == UNIT as nat && small.exponent() == -57);
    lemma_pow2_adds(52, 1017);
    lemma_pow2_adds(5, 1069);
    assert(32 * small.value() == cell_unit());
    lemma_value_order(small, zoom);
}

/// The offset of a point on the screen along one axis, in single precision.
proof fn lemma_screen_offset(world: Real, center: Real, zoom: Real, most: int)
    requires
        bounding(most),
        reaches(world, most),
        reaches(center, most),
        modest(zoom),
        0 < zoom.value() <= 128 * cell_unit(),
    ensures
        ({
            let m: Real = world.sub(center).to_single().single_product(zoom);
            let u: int = cell_unit();
            let d: int = world.value() - center.value();
            &&& reaches(m, 300 * most)
            &&& 0x100_0000 * size_of(m.value() * u - d * zoom.value()) <= 1000 * (most * u)
        }),
{
    let u: int = cell_unit();
    let a: Real = world.sub(center);
    let b: Real = a.to_single();
    let c: Real = b.mul(zoom);
    let m: Real = c.to_single();
    let d: int = world.value() - center.value();
    let z: int = zoom.value();
    lemma_unit_is_nothing(most);
    lemma_large_unit();
    lemma_modest_wide(world, most);
    lemma_modest_wide(center, most);
    lemma_close_difference(world, center);
    lemma_modest_wide(a, most);
    lemma_single_close(a, most);
    assert(0x100_0000 * size_of(b.value() - d) <= 5 * most);
    assert(size_of(b.value()) <= 2 * most + most / 1024);
    lemma_modest_wide(b, most);
    lemma_close_product(b, zoom);
    lemma_offset_ints(u, most, d, b.value(), z, c.value());
    lemma_modest_wide(c, most);
    lemma_single_close(c, most);
    let e: int = m.value() - c.value();
    assert(0x100_0000 * size_of(e) <= 266 * most);
    let mu: int = most * u;
    lemma_mul_bound(0x100_0000 * e, u, 266 * most, u);
    assert((0x100_0000 * e) * u == 0x100_0000 * (m.value() * u - c.value() * u)) by (nonlinear_arith)
        requires
            e == m.value() - c.value(),
    ;
    assert((266 * most) * u == 266 * mu) by (nonlinear_arith)
        requires
            mu == most * u,
    ;
}

proof fn lemma_offset_ints(u: int, most: int, d: int, b: int, z: int, c: int)
    requires
        u > 0,
        most > 0,
        0 < z <= 128 * u,
        0x20_0000_0000_0000 * u <= most * u,
        size_of(b) <= 2 * most + most / 1024,
        0x100_0000 * size_of(b - d) <= 5 * most,
        0x20_0000_0000_0000 * size_of(c * u - b * z) <= size_of(c) * u + 0x20_0000_0000_0000 * u,
    ensures
        size_of(c) <= 264 * most,
        0x100_0000 * size_of(c * u - d * z) <= 648 * (most * u),
{
    let mu: int = most * u;
    let cu: int = c * u;
    let bz: int = b * z;
    let dz: int = d * z;
    let g: int = b - d;
    assert(mu > 0) by (nonlinear_arith)
        requires
            mu == most * u,
            most > 0,
            u > 0,
    ;
    lemma_size_scales(c, u);
    let e: int = 0x400 * b;
    lemma_mul_bound(e, z, 2049 * most, 128 * u);
    assert(e * z == 0x400 * bz) by (nonlinear_arith)
        requires
            e == 0x400 * b,
            bz == b * z,
    ;
    assert((2049 * most) * (128 * u) == 262272 * mu) by (nonlinear_arith)
        requires
            mu == most * u,
    ;
    assert(size_of(bz) <= 257 * mu);
    assert(size_of(cu) <= 258 * mu);
    assert(size_of(c) <= 258 * most) by (nonlinear_arith)
        requires
            size_of(c) * u <= 258 * mu,
            mu == most * u,
            u > 0,
    ;
    lemma_mul_bound(0x100_0000 * g, z, 5 * most, 128 * u);
    assert((0x100_0000 * g) * z == 0x100_0000 * (bz - dz)) by (nonlinear_arith)
        requires
            g == b - d,
            bz == b * z,
            dz == d * z,
    ;
    assert((5 * most) * (128 * u) == 640 * mu) by (nonlinear_arith)
        requires
            mu == most * u,
    ;
}

/// A coordinate on the screen: the middle and an offset, in single precision.
proof fn lemma_screen_coordinate(middle: Real, m: Real, most: int)
    requires
        bounding(most),
        reaches(middle, most),
        reaches(m, 300 * most),
    ensures
        middle.single_sum(m).finite(),
        middle.single_difference(m).finite(),
        0x100_0000 * size_of(middle.single_sum(m).value() - (middle.value() + m.value())) <= 310
            * most,
        0x100_0000 * size_of(middle.single_difference(m).value() - (middle.value() - m.value()))
            <= 310 * most,
{
    lemma_unit_is_nothing(most);
    lemma_modest_wide(middle, most);
    lemma_modest_wide(m, most);
    lemma_close_sum(middle, m);
    lemma_close_difference(middle, m);
    lemma_modest_wide(middle.add(m), most);
    lemma_modest_wide(middle.sub(m), most);
    lemma_single_close(middle.add(m), most);
    lemma_single_close(middle.sub(m), most);
}

proof fn lemma_scaled_up(a: int, u: int, k: int, most: int)
    requires
        u > 0,
        0x100_0000 * size_of(a) <= k * most,
    ensures
        0x100_0000 * size_of(a * u) <= k * (most * u),
{
    lemma_size_scales(a, u);
    let x: int = size_of(a);
    let mu: int = most * u;
    assert(0x100_0000 * (x * u) <= k * mu) by (nonlinear_arith)
        requires
            0x100_0000 * x <= k * most,
            mu == most * u,
            u > 0,
    ;
}

/// Where a point of the world is on the screen: from the middle, as many pixels to the
/// right as it lies in `x` from the camera's center, by the zoom, and as many upwards as it
/// lies in `z`. Screen rows grow downwards. This holds up to 1400 parts in `2^24` of a bound
/// on the coordinates.
pub proof fn lemma_screen_shows_the_world(camera: Camera, world: Point, middle: Spot, most: int)
    requires
        camera_within(camera, most),
        within_bound(world, most),
        spot_within(middle, most),
    ensures
        ({
            let spot: Spot = camera.to_screen(world, middle);
            let u: int = cell_unit();
            let z: int = camera.zoom.value();
            let dx: int = world.x.value() - camera.center.x.value();
            let dz: int = world.z.value() - camera.center.z.value();
            &&& spot.x.finite()
            &&& spot.y.finite()
            &&& 0x100_0000 * size_of((spot.x.value() - middle.x.value()) * u - dx * z) <= 1400 * (most
                * u)
            &&& 0x100_0000 * size_of((middle.y.value() - spot.y.value()) * u - dz * z) <= 1400 * (most
                * u)
        }),
{
    let u: int = cell_unit();
    let z: int = camera.zoom.value();
    let spot: Spot = camera.to_screen(world, middle);
    let mx: Real = world.x.sub(camera.center.x).to_single().single_product(camera.zoom);
    let mz: Real = world.z.sub(camera.center.z).to_single().single_product(camera.zoom);
    lemma_large_unit();
    lemma_zoom_is_modest(camera, most);
    lemma_screen_offset(world.x, camera.center.x, camera.zoom, most);
    lemma_screen_offset(world.z, camera.center.z, camera.zoom, most);
    lemma_screen_coordinate(middle.x, mx, most);
    lemma_screen_coordinate(middle.y, mz, most);
    let ex: int = spot.x.value() - (middle.x.value() + mx.value());
    let ez: int = spot.y.value() - (middle.y.value() - mz.value());
    lemma_scaled_up(ex, u, 310, most);
    lemma_scaled_up(ez, u, 310, most);
    assert((spot.x.value() - middle.x.value()) * u == ex * u + mx.value() * u) by (nonlinear_arith)
        requires
            ex == spot.x.value() - (middle.x.value() + mx.value()),
    ;
    assert((middle.y.value() - spot.y.value()) * u == mz.value() * u - ez * u) by (nonlinear_arith)
        requires
            ez == spot.y.value() - (middle.y.value() - mz.value()),
    ;
}

proof fn lemma_unzoomed_ints(u: int, most: int, z: int, x: int, q: int, xs: int, qs: int, zs: int)
    requires
        u >= 0x20_0000_0000_0000,
        most > 0,
        z > 0,
        u <= 32 * z,
        z <= 128 * u,
        0x20_0000_0000_0000 * u <= most * u,
        zs == z,
        xs == size_of(x),
        qs == size_of(q),
        xs <= 3 * most,
        x > 0 ==> q >= 0,
        x < 0 ==> q <= 0,
        x == 0 ==> q == 0,
        x != 0 ==> 0x1f_ffff_ffff_ffff * (qs * zs) <= 0x20_0000_0000_0001 * (xs * u)
            + 0x20_0000_0000_0000 * zs,
        x != 0 ==> 0x1f_ffff_ffff_ffff * (xs * u) <= 0x20_0000_0000_0001 * (qs * zs)
            + 0x20_0000_0000_0000 * zs,
    ensures
        qs <= 100 * most,
        0x20_0000_0000_0000 * size_of(q * z - x * u) <= 200 * (most * u),
{
    let mu: int = most * u;
    let qz: int = qs * z;
    let xu: int = xs * u;
    assert(mu > 0 && 0 <= xu <= 3 * mu && qz >= 0) by (nonlinear_arith)
        requires
            mu == most * u,
            xu == xs * u,
            qz == qs * z,
            0 <= xs <= 3 * most,
            qs >= 0,
            z > 0,
            most > 0,
            u > 0,
    ;
    assert(0x20_0000_0000_0000 * z <= 128 * mu);
    if x == 0 {
        assert(q * z == 0 && x * u == 0) by (nonlinear_arith)
            requires
                q == 0,
                x == 0,
        ;
    } else {
        assert(q * z - x * u == qz - xu || q * z - x * u == xu - qz) by (nonlinear_arith)
            requires
                qz == qs * z,
                xu == xs * u,
                (q == qs && x == xs) || (q == -qs && x == -xs),
        ;
    }
    assert(qz <= 3 * mu + mu / 1024 + 1000 || x == 0);
    assert(qs * u <= 32 * qz) by (nonlinear_arith)
        requires
            qz == qs * z,
            u <= 32 * z,
            qs >= 0,
    ;
    assert(qs <= 100 * most) by (nonlinear_arith)
        requires
            qs * u <= 100 * mu,
            mu == most * u,
            u > 0,
    ;
}

/// A length on the screen in the world along one axis, in single precision.
proof fn lemma_world_offset(length: Real, zoom: Real, exact: int, most: int)
    requires
        bounding(most),
        reaches(length, 3 * most),
        0x100_0000 * size_of(length.value() - exact) <= 5 * most,
        modest(zoom),
        zoom.finite(),
        !zoom.negative(),
        SMALLEST_CELL <= zoom.magnitude(),
        cell_unit() <= 32 * zoom.value(),
        zoom.value() <= 128 * cell_unit(),
    ensures
        ({
            let m: Real = length.single_quotient(zoom);
            let u: int = cell_unit();
            &&& reaches(m, 110 * most)
            &&& 0x100_0000 * size_of(m.value() * zoom.value() - exact * u) <= 0x3800 * (most * u)
        }),
{
    let u: int = cell_unit();
    let q: Real = length.div(zoom);
    let m: Real = q.to_single();
    let z: int = zoom.value();
    lemma_large_unit();
    lemma_unit_is_nothing(most);
    lemma2_to64_rest();
    lemma_modest_wide(length, most);
    lemma_quotient_is_finite(length, zoom);
    if length.magnitude() == 0 {
        lemma_size_of_zero(length);
        assert(q.magnitude() == 0) by {
            reveal(Real::spec_div);
        }
        lemma_size_of_zero(q);
    } else {
        lemma_quotient_error(length, zoom);
        lemma_quotient_error_below(length, zoom);
        assert(q.magnitude() > 0 ==> q.negative() == length.negative()) by {
            reveal(Real::spec_div);
        }
        lemma_sign(length);
        if q.magnitude() == 0 {
            lemma_size_of_zero(q);
        }
    }
    lemma_unzoomed_ints(
        u,
        most,
        z,
        length.value(),
        q.value(),
        length.size() as int,
        q.size() as int,
        zoom.size() as int,
    );
    lemma_modest_wide(q, most);
    lemma_single_close(q, most);
    let e: int = m.value() - q.value();
    let mu: int = most * u;
    assert(0x100_0000 * size_of(e) <= 101 * most);
    lemma_mul_bound(0x100_0000 * e, z, 101 * most, 128 * u);
    assert((0x100_0000 * e) * z == 0x100_0000 * (m.value() * z - q.value() * z)) by (nonlinear_arith)
        requires
            e == m.value() - q.value(),
    ;
    assert((101 * most) * (128 * u) == 12928 * mu) by (nonlinear_arith)
        requires
            mu == most * u,
    ;
    let g: int = length.value() - exact;
    lemma_scaled_up(g, u, 5, most);
    assert(g * u == length.value() * u - exact * u) by (nonlinear_arith)
        requires
            g == length.value() - exact,
    ;
}

/// The computed difference of two places on the screen along one axis.
proof fn lemma_screen_difference(a: Real, b: Real, most: int)
    requires
        bounding(most),
        reaches(a, most),
        reaches(b, most),
    ensures
        reaches(a.single_difference(b), 3 * most),
        0x100_0000 * size_of(a.single_difference(b).value() - (a.value() - b.value())) <= 5 * most,
{
    lemma_unit_is_nothing(most);
    lemma_modest_wide(a, most);
    lemma_modest_wide(b, most);
    lemma_close_difference(a, b);
    lemma_modest_wide(a.sub(b), most);
    lemma_single_close(a.sub(b), most);
}

proof fn lemma_moved_coordinate(center: Real, m: Real, zoom: int, most: int)
    requires
        bounding(most),
        reaches(center, most),
        reaches(m, 110 * most),
        0 < zoom <= 128 * cell_unit(),
    ensures
        center.add(m).finite(),
        center.sub(m).finite(),
        reaches(center.add(m), 112 * most),
        reaches(center.sub(m), 112 * most),
        0x20_0000_0000_0000 * size_of(center.add(m).value() - (center.value() + m.value())) <= 111
            * most,
        0x20_0000_0000_0000 * size_of(center.sub(m).value() - (center.value() - m.value())) <= 111
            * most,
        0x100_0000 * size_of(
            (center.add(m).value() - center.value()) * zoom - m.value() * zoom,
        ) <= most * cell_unit(),
        0x100_0000 * size_of(
            (center.value() - center.sub(m).value()) * zoom - m.value() * zoom,
        ) <= most * cell_unit(),
{
    let u: int = cell_unit();
    lemma_unit_is_nothing(most);
    lemma_large_unit();
    lemma_modest_wide(center, most);
    lemma_modest_wide(m, most);
    lemma_close_sum(center, m);
    lemma_close_difference(center, m);
    let e: int = center.add(m).value() - (center.value() + m.value());
    let f: int = center.value() - center.sub(m).value() - m.value();
    assert(0x100_0000_0000 * size_of(e) <= most && 0x100_0000_0000 * size_of(f) <= most);
    lemma_mul_bound(0x100_0000_0000 * e, zoom, most, 128 * u);
    lemma_mul_bound(0x100_0000_0000 * f, zoom, most, 128 * u);
    let mu: int = most * u;
    assert(most * (128 * u) == 128 * mu) by (nonlinear_arith)
        requires
            mu == most * u,
    ;
    assert((0x100_0000_0000 * e) * zoom == 0x100_0000_0000 * (e * zoom) && (0x100_0000_0000 * f) * zoom
        == 0x100_0000_0000 * (f * zoom)) by (nonlinear_arith);
    assert((center.add(m).value() - center.value()) * zoom - m.value() * zoom == e * zoom)
        by (nonlinear_arith)
        requires
            e == center.add(m).value() - (center.value() + m.value()),
    ;
    assert((center.value() - center.sub(m).value()) * zoom - m.value() * zoom == f * zoom)
        by (nonlinear_arith)
        requires
            f == center.value() - center.sub(m).value() - m.value(),
    ;
}

/// Which point of the world is at a place on the screen: the distance from the camera's
/// center, by the zoom, is the number of pixels from the middle, to the right in `x` and
/// upwards in `z`. This holds up to `2^14` parts in `2^24` of a bound on the coordinates.
pub proof fn lemma_world_is_under_the_screen(camera: Camera, screen: Spot, middle: Spot, most: int)
    requires
        camera_within(camera, most),
        spot_within(screen, most),
        spot_within(middle, most),
    ensures
        ({
            let world: Point = camera.to_world(screen, middle);
            let u: int = cell_unit();
            let z: int = camera.zoom.value();
            let dx: int = world.x.value() - camera.center.x.value();
            let dz: int = world.z.value() - camera.center.z.value();
            &&& world.x.finite()
            &&& world.z.finite()
            &&& 0x100_0000 * size_of(dx * z - (screen.x.value() - middle.x.value()) * u) <= 0x4000 * (
            most * u)
            &&& 0x100_0000 * size_of(dz * z - (middle.y.value() - screen.y.value()) * u) <= 0x4000 * (
            most * u)
        }),
{
    let u: int = cell_unit();
    let z: int = camera.zoom.value();
    let lx: Real = screen.x.single_difference(middle.x);
    let ly: Real = screen.y.single_difference(middle.y);
    let qx: Real = lx.single_quotient(camera.zoom);
    let qy: Real = ly.single_quotient(camera.zoom);
    lemma_zoom_is_modest(camera, most);
    lemma_screen_difference(screen.x, middle.x, most);
    lemma_screen_difference(screen.y, middle.y, most);
    lemma_world_offset(lx, camera.zoom, screen.x.value() - middle.x.value(), most);
    lemma_world_offset(ly, camera.zoom, screen.y.value() - middle.y.value(), most);
    lemma_moved_coordinate(camera.center.x, qx, z, most);
    lemma_moved_coordinate(camera.center.z, qy, z, most);
    let world: Point = camera.to_world(screen, middle);
    let dz: int = world.z.value() - camera.center.z.value();
    assert((camera.center.z.value() - world.z.value()) * z == -(dz * z)) by (nonlinear_arith)
        requires
            dz == world.z.value() - camera.center.z.value(),
    ;
    assert((middle.y.value() - screen.y.value()) * u == -((screen.y.value() - middle.y.value()) * u))
        by (nonlinear_arith);
}

/// Dragging moves the world along with the pointer: the camera's center goes the opposite
/// way, by the pixels over the zoom.
pub proof fn lemma_dragging_follows_the_pointer(camera: Camera, across: Real, down: Real, most: int)
    requires
        camera_within(camera, most),
        reaches(across, most),
        reaches(down, most),
    ensures
        ({
            let moved: Camera = camera.dragged(across, down);
            let u: int = cell_unit();
            let z: int = camera.zoom.value();
            let dx: int = moved.center.x.value() - camera.center.x.value();
            let dz: int = moved.center.z.value() - camera.center.z.value();
            &&& moved.zoom == camera.zoom
            &&& 0x100_0000 * size_of(dx * z + across.value() * u) <= 0x4000 * (most * u)
            &&& 0x100_0000 * size_of(dz * z - down.value() * u) <= 0x4000 * (most * u)
        }),
{
    let z: int = camera.zoom.value();
    let qx: Real = across.single_quotient(camera.zoom);
    let qy: Real = down.single_quotient(camera.zoom);
    lemma_zoom_is_modest(camera, most);
    lemma_unit_is_nothing(most);
    lemma_world_offset(across, camera.zoom, across.value(), most);
    lemma_world_offset(down, camera.zoom, down.value(), most);
    lemma_moved_coordinate(camera.center.x, qx, z, most);
    lemma_moved_coordinate(camera.center.z, qy, z, most);
    let moved: Camera = camera.dragged(across, down);
    let dx: int = moved.center.x.value() - camera.center.x.value();
    assert((camera.center.x.value() - moved.center.x.value()) * z == -(dx * z)) by (nonlinear_arith)
        requires
            dx == moved.center.x.value() - camera.center.x.value(),
    ;
}

/// What shares and limits of a camera come to: `0.94`, `0.08`, `80`, `0.04` and `100`, up to
/// one part in `2^23`.
pub proof fn lemma_camera_limits()
    ensures
        ({
            let u: int = cell_unit();
            &&& 0x80_0000 * size_of(100 * Real::of(FIT_SHARE).value() - 94 * u) <= 94 * u
            &&& 0x80_0000 * size_of(100 * Real::of(FIT_LEAST).value() - 8 * u) <= 8 * u
            &&& Real::of(FIT_GREATEST).value() == 80 * u
            &&& 0x80_0000 * size_of(100 * Real::of(ZOOM_LEAST).value() - 4 * u) <= 4 * u
            &&& Real::of(ZOOM_GREATEST).value() == 100 * u
            &&& u > 0
        }),
{
    let u: int = cell_unit();
    lemma_large_unit();
    lemma2_to64();
    lemma2_to64_rest();
    lemma_pow2_adds(53, 1021);
    lemma_pow2_adds(56, 1018);
    lemma_pow2_adds(57, 1017);
    lemma_pow2_adds(46, 1028);
    let a: int = pow2(1021) as int;
    let b: int = pow2(1018) as int;
    let c: int = pow2(1017) as int;
    let d: int = pow2(1028) as int;
    lemma_pow2_pos(1021);
    lemma_pow2_pos(1018);
    lemma_pow2_pos(1017);
    lemma_pow2_pos(1028);
    let share: Real = Real::of(FIT_SHARE);
    let least: Real = Real::of(FIT_LEAST);
    let greatest: Real = Real::of(FIT_GREATEST);
    let low: Real = Real::of(ZOOM_LEAST);
    let high: Real = Real::of(ZOOM_GREATEST);
    assert(share.significand() == 0x1e_147a_e000_0000 && share.exponent() == -53);
    assert(least.significand() == 0x14_7ae1_4000_0000 && least.exponent() == -56);
    assert(greatest.significand() == 0x14_0000_0000_0000 && greatest.exponent() == -46);
    assert(low.significand() == 0x14_7ae1_4000_0000 && low.exponent() == -57);
    assert(high.significand() == 0x19_0000_0000_0000 && high.exponent() == -46);
    assert(share.value() == 0x1e_147a_e000_0000 * a);
    assert(least.value() == 0x14_7ae1_4000_0000 * b);
    assert(greatest.value() == 0x14_0000_0000_0000 * d);
    assert(low.value() == 0x14_7ae1_4000_0000 * c);
    assert(high.value() == 0x19_0000_0000_0000 * d);
}

/// A product in single precision of numbers that are not huge.
pub proof fn lemma_single_product_close(x: Real, y: Real, most: int)
    requires
        bounding(most),
        modest(x),
        modest(y),
        size_of(x.value() * y.value()) <= 0x380 * (most * cell_unit()),
    ensures
        ({
            let r: Real = x.single_product(y);
            let u: int = cell_unit();
            &&& r.finite()
            &&& 0x100_0000 * size_of(r.value() * u - x.value() * y.value()) <= 0x400 * (most * u)
        }),
{
    let c: Real = x.mul(y);
    let r: Real = c.to_single();
    let u: int = cell_unit();
    let mu: int = most * u;
    lemma_unit_is_nothing(most);
    lemma_large_unit();
    lemma_close_product(x, y);
    lemma_size_scales(c.value(), u);
    assert(mu > 0) by (nonlinear_arith)
        requires
            mu == most * u,
            most > 0,
            u > 0,
    ;
    let cu: int = c.value() * u;
    assert(size_of(cu) <= 0x381 * mu);
    assert(size_of(c.value()) <= 0x381 * most) by (nonlinear_arith)
        requires
            size_of(c.value()) * u <= 0x381 * mu,
            mu == most * u,
            u > 0,
    ;
    lemma_modest_wide(c, most);
    lemma_single_close(c, most);
    let e: int = r.value() - c.value();
    assert(0x100_0000 * size_of(e) <= 0x382 * most);
    lemma_scaled_up(e, u, 0x382, most);
    assert(e * u == r.value() * u - cu) by (nonlinear_arith)
        requires
            e == r.value() - c.value(),
            cu == c.value() * u,
    ;
}

/// Zooming multiplies the zoom by the factor, within the limits, and keeps what is under the
/// pointer there; without a pointer the center stays. The zoom holds up to `2^10` parts in
/// `2^24`, the point under the pointer up to `2^12` parts in `2^53` of a bound.
pub proof fn lemma_zooming_keeps_the_pointer(
    camera: Camera,
    factor: Real,
    pointer: Option<Spot>,
    middle: Spot,
    most: int,
)
    requires
        camera_within(camera, most),
        reaches(factor, 4 * cell_unit()),
        factor.value() >= 0,
        spot_within(middle, most),
        pointer matches Some(spot) ==> spot_within(spot, most),
    ensures
        ({
            let after: Camera = camera.zoomed(factor, pointer, middle);
            let u: int = cell_unit();
            let wanted: int = limited(
                camera.zoom.value() * factor.value(),
                Real::of(ZOOM_LEAST).value() * u,
                Real::of(ZOOM_GREATEST).value() * u,
            );
            &&& after.zoom.finite()
            &&& 0x100_0000 * size_of(after.zoom.value() * u - wanted) <= 0x400 * (u * u)
            &&& match pointer {
                Some(spot) => {
                    let before: Point = camera.to_world(spot, middle);
                    let now: Point = after.to_world(spot, middle);
                    &&& 0x20_0000_0000_0000 * size_of(now.x.value() - before.x.value()) <= 0x1000 * most
                    &&& 0x20_0000_0000_0000 * size_of(now.z.value() - before.z.value()) <= 0x1000 * most
                },
                None => after.center == camera.center,
            }
        }),
{
    let u: int = cell_unit();
    let raw: Real = camera.zoom.single_product(factor);
    let low: Real = Real::of(ZOOM_LEAST);
    let high: Real = Real::of(ZOOM_GREATEST);
    let zoom: Real = raw.clamp(low, high);
    let after: Camera = camera.zoomed(factor, pointer, middle);
    lemma_large_unit();
    lemma_camera_limits();
    lemma_zoom_is_modest(camera, most);
    lemma_unit_bounds();
    lemma_modest_wide(factor, u);
    lemma_mul_bound(camera.zoom.value(), factor.value(), 128 * u, 4 * u);
    assert((128 * u) * (4 * u) == 0x200 * (u * u)) by (nonlinear_arith);
    assert(u * u > 0) by (nonlinear_arith)
        requires
            u > 0,
    ;
    lemma_single_product_close(camera.zoom, factor, u);
    lemma_value_order(raw, low);
    lemma_value_order(low, raw);
    lemma_value_order(high, raw);
    lemma_value_order(raw, high);
    lemma_clamped(raw.value(), low.value(), high.value(), u, camera.zoom.value() * factor.value(), zoom.value());
    assert(camera_within(Camera { zoom, ..camera }, most));
    if let Some(spot) = pointer {
        let before: Point = camera.to_world(spot, middle);
        let closer: Camera = Camera { zoom, ..camera };
        let there: Point = closer.to_world(spot, middle);
        lemma_zoom_is_modest(closer, most);
        lemma_screen_difference(spot.x, middle.x, most);
        lemma_screen_difference(spot.y, middle.y, most);
        let lx: Real = spot.x.single_difference(middle.x);
        let ly: Real = spot.y.single_difference(middle.y);
        lemma_world_offset(lx, camera.zoom, spot.x.value() - middle.x.value(), most);
        lemma_world_offset(ly, camera.zoom, spot.y.value() - middle.y.value(), most);
        lemma_world_offset(lx, zoom, spot.x.value() - middle.x.value(), most);
        lemma_world_offset(ly, zoom, spot.y.value() - middle.y.value(), most);
        lemma_moved_coordinate(
            camera.center.x,
            lx.single_quotient(camera.zoom),
            camera.zoom.value(),
            most,
        );
        lemma_moved_coordinate(
            camera.center.z,
            ly.single_quotient(camera.zoom),
            camera.zoom.value(),
            most,
        );
        lemma_moved_coordinate(camera.center.x, lx.single_quotient(zoom), zoom.value(), most);
        lemma_moved_coordinate(camera.center.z, ly.single_quotient(zoom), zoom.value(), most);
        lemma_anchor(camera.center.x, lx.single_quotient(zoom), before.x, there.x, most);
        lemma_anchor_below(camera.center.z, ly.single_quotient(zoom), before.z, there.z, most);
    }
}

/// One is a bound.
proof fn lemma_unit_bounds()
    ensures
        bounding(cell_unit()),
{
    lemma_pow2_strictly_increases(1074, 1174);
}

proof fn lemma_clamped(raw: int, low: int, high: int, u: int, exact: int, z: int)
    requires
        u > 0,
        low <= high,
        z == (if raw < low {
            low
        } else if high < raw {
            high
        } else {
            raw
        }),
        0x100_0000 * size_of(raw * u - exact) <= 0x400 * (u * u),
    ensures
        0x100_0000 * size_of(z * u - limited(exact, low * u, high * u)) <= 0x400 * (u * u),
{
    assert(raw < low ==> raw * u < low * u) by (nonlinear_arith)
        requires
            u > 0,
    ;
    assert(high < raw ==> high * u < raw * u) by (nonlinear_arith)
        requires
            u > 0,
    ;
    assert(low <= raw ==> low * u <= raw * u) by (nonlinear_arith)
        requires
            u > 0,
    ;
    assert(raw <= high ==> raw * u <= high * u) by (nonlinear_arith)
        requires
            u > 0,
    ;
    assert(low * u <= high * u) by (nonlinear_arith)
        requires
            u > 0,
            low <= high,
    ;
    assert(u * u > 0) by (nonlinear_arith)
        requires
            u > 0,
    ;
}

/// A center that is moved by what a point has moved takes the point back.
proof fn lemma_anchor(center: Real, q: Real, before: Real, there: Real, most: int)
    requires
        bounding(most),
        reaches(center, most),
        reaches(q, 110 * most),
        reaches(before, 112 * most),
        there == center.add(q),
        reaches(there, 112 * most),
        0x20_0000_0000_0000 * size_of(there.value() - (center.value() + q.value())) <= 111 * most,
    ensures
        ({
            let moved: Real = center.add(before.sub(there));
            &&& moved.add(q).finite()
            &&& 0x20_0000_0000_0000 * size_of(moved.add(q).value() - before.value()) <= 0x1000 * most
        }),
{
    let moved: Real = center.add(before.sub(there));
    lemma_unit_is_nothing(most);
    lemma_recentred(center, before, there, most);
    lemma_modest_wide(moved, most);
    lemma_modest_wide(q, most);
    lemma_close_sum(moved, q);
    lemma_anchored(
        center.value(),
        q.value(),
        before.value(),
        there.value(),
        moved.value(),
        moved.add(q).value(),
        most,
    );
}

/// A center that is moved by what a point has moved.
proof fn lemma_recentred(center: Real, before: Real, there: Real, most: int)
    requires
        bounding(most),
        reaches(center, most),
        reaches(before, 112 * most),
        reaches(there, 112 * most),
    ensures
        ({
            let moved: Real = center.add(before.sub(there));
            &&& reaches(moved, 230 * most)
            &&& 0x20_0000_0000_0000 * size_of(
                moved.value() - (center.value() + before.value() - there.value()),
            ) <= 500 * most
        }),
{
    let d: Real = before.sub(there);
    lemma_unit_is_nothing(most);
    lemma_modest_wide(before, most);
    lemma_modest_wide(there, most);
    lemma_modest_wide(center, most);
    lemma_close_difference(before, there);
    let e: int = before.value() - there.value();
    assert(size_of(e) <= 224 * most);
    assert(size_of(d.value() - e) <= most);
    lemma_modest_wide(d, most);
    lemma_close_sum(center, d);
    let t: int = center.value() + d.value();
    assert(size_of(t) <= 226 * most);
}

proof fn lemma_anchored(c: int, q: int, before: int, there: int, moved: int, now: int, most: int)
    requires
        most > 0,
        size_of(q) <= 110 * most,
        size_of(moved) <= 230 * most,
        0x20_0000_0000_0000 * size_of(there - (c + q)) <= 111 * most,
        0x20_0000_0000_0000 * size_of(moved - (c + before - there)) <= 500 * most,
        0x20_0000_0000_0000 * size_of(now - (moved + q)) <= size_of(moved + q),
    ensures
        0x20_0000_0000_0000 * size_of(now - before) <= 0x1000 * most,
{
    assert(size_of(moved + q) <= 340 * most);
    let a: int = there - (c + q);
    let b: int = moved - (c + before - there);
    let e: int = now - (moved + q);
    assert(now - before == e + b - a);
    assert(size_of(now - before) <= size_of(e) + size_of(b) + size_of(a));
}

proof fn lemma_anchor_below(center: Real, q: Real, before: Real, there: Real, most: int)
    requires
        bounding(most),
        reaches(center, most),
        reaches(q, 110 * most),
        reaches(before, 112 * most),
        there == center.sub(q),
        reaches(there, 112 * most),
        0x20_0000_0000_0000 * size_of(there.value() - (center.value() - q.value())) <= 111 * most,
    ensures
        ({
            let moved: Real = center.add(before.sub(there));
            &&& moved.sub(q).finite()
            &&& 0x20_0000_0000_0000 * size_of(moved.sub(q).value() - before.value()) <= 0x1000 * most
        }),
{
    let moved: Real = center.add(before.sub(there));
    lemma_unit_is_nothing(most);
    lemma_recentred(center, before, there, most);
    lemma_modest_wide(moved, most);
    lemma_modest_wide(q, most);
    lemma_close_difference(moved, q);
    lemma_anchored(
        center.value(),
        -q.value(),
        before.value(),
        there.value(),
        moved.value(),
        moved.sub(q).value(),
        most,
    );
}

/// How long a grid is along one axis, but at least one.
pub open spec fn shown_extent(cell: Real, cells: int) -> int {
    let exact: int = cells * cell.value();
    if exact < cell_unit() {
        cell_unit()
    } else {
        exact
    }
}

/// The computed extent of a grid along one axis, in single precision.
proof fn lemma_shown_extent(origin: Real, cell: Real, cells: usize, most: int)
    requires
        laid_out(origin, cell, cells as int, most),
        0 < cells,
    ensures
        ({
            let end: Real = origin.add(Real::from_count(cells as u64).mul(cell));
            let a: Real = end.sub(origin).max(Real::of(ONE)).to_single();
            &&& a.finite()
            &&& !a.negative()
            &&& cell_unit() <= 2 * a.value()
            &&& a.value() <= 2 * most
            &&& 0x100_0000 * size_of(a.value() - shown_extent(cell, cells as int)) <= 4 * most
        }),
{
    let end: Real = origin.add(Real::from_count(cells as u64).mul(cell));
    let d: Real = end.sub(origin);
    let one: Real = Real::of(ONE);
    let m: Real = d.max(one);
    let a: Real = m.to_single();
    let e: int = cells * cell.value();
    lemma_large_unit();
    lemma_unit_is_nothing(most);
    lemma_step_lengths();
    lemma_cell_is_modest(origin, cell, cells as int, most);
    lemma_edge(origin, cell, cells as int, cells, most);
    lemma_modest_wide(end, most);
    lemma_modest_wide(origin, most);
    lemma_close_difference(end, origin);
    lemma_value_order(one, d);
    lemma_value_order(d, one);
    assert(0x20_0000_0000_0000 * size_of(d.value() - e) <= 12 * most);
    assert(e >= 0) by (nonlinear_arith)
        requires
            e == cells * cell.value(),
            cells >= 0,
            cell.value() >= 0,
    ;
    assert(cell_unit() <= m.value() <= most + most / 1024);
    lemma_modest_wide(m, most);
    lemma_single_close(m, most);
    lemma_sign_of(m);
    lemma_single_of_size(m);
}

proof fn lemma_sign_of(m: Real)
    requires
        m.finite(),
        m.value() > 0,
    ensures
        !m.negative(),
        m.magnitude() > 0,
{
    if m.magnitude() == 0 {
        lemma_size_of_zero(m);
    }
}

proof fn lemma_share_ints(u: int, most: int, w: int, a: int, q: int, r: int)
    requires
        u >= 0x100_0000_0000_0000,
        most >= u,
        0 <= w <= most,
        u <= 2 * a,
        a <= 2 * most,
        q >= 0,
        r >= 0,
        0x1f_ffff_ffff_ffff * (q * a) <= 0x20_0000_0000_0001 * (w * u) + 0x20_0000_0000_0000 * a,
        0x1f_ffff_ffff_ffff * (w * u) <= 0x20_0000_0000_0001 * (q * a) + 0x20_0000_0000_0000 * a,
        0x100_0000 * size_of(r - q) <= q + u,
    ensures
        0x100_0000 * size_of(r * a - w * u) <= 8 * (most * u),
        r <= 4 * most,
        q <= 3 * most,
{
    let mu: int = most * u;
    let qa: int = q * a;
    let ra: int = r * a;
    let wu: int = w * u;
    let au: int = a * u;
    assert(0 <= wu <= mu && au <= 2 * mu && qa >= 0 && mu > 0) by (nonlinear_arith)
        requires
            mu == most * u,
            wu == w * u,
            au == a * u,
            qa == q * a,
            0 <= w <= most,
            0 < a <= 2 * most,
            q >= 0,
            most > 0,
            u > 0,
    ;
    assert(0x20_0000_0000_0000 * a <= au) by (nonlinear_arith)
        requires
            au == a * u,
            u >= 0x20_0000_0000_0000,
            a > 0,
    ;
    let e: int = r - q;
    assert(0x100_0000 * (e * a) <= qa + au && -(qa + au) <= 0x100_0000 * (e * a))
        by (nonlinear_arith)
        requires
            0x100_0000 * e <= q + u,
            -(q + u) <= 0x100_0000 * e,
            qa == q * a,
            au == a * u,
            a > 0,
    ;
    assert(ra == qa + e * a) by (nonlinear_arith)
        requires
            ra == r * a,
            qa == q * a,
            e == r - q,
    ;
    assert(qa <= mu + mu / 1024 + 1024);
    assert(q * u <= 2 * qa) by (nonlinear_arith)
        requires
            qa == q * a,
            u <= 2 * a,
            q >= 0,
    ;
    assert(q <= 3 * most) by (nonlinear_arith)
        requires
            q * u <= 3 * mu,
            mu == most * u,
            u > 0,
    ;
}

/// What a screen takes of an extent, in single precision.
proof fn lemma_screen_share(size: Real, extent: Real, most: int)
    requires
        bounding(most),
        reaches(size, most),
        size.value() >= 0,
        extent.finite(),
        !extent.negative(),
        cell_unit() <= 2 * extent.value(),
        extent.value() <= 2 * most,
    ensures
        ({
            let r: Real = size.single_quotient(extent);
            let u: int = cell_unit();
            &&& r.finite()
            &&& 0 <= r.value() <= 4 * most
            &&& 0x100_0000 * size_of(r.value() * extent.value() - size.value() * u) <= 8 * (most * u)
        }),
{
    let u: int = cell_unit();
    let q: Real = size.div(extent);
    let r: Real = q.to_single();
    let half: Real = Real { bits: 0x3fe0_0000_0000_0000 };
    lemma_large_unit();
    lemma_unit_is_nothing(most);
    lemma2_to64_rest();
    lemma_half();
    lemma_value_order(half, extent);
    lemma_modest_wide(size, most);
    lemma_quotient_is_finite(size, extent);
    if size.magnitude() == 0 {
        lemma_size_of_zero(size);
        assert(q.magnitude() == 0) by {
            reveal(Real::spec_div);
        }
        lemma_size_of_zero(q);
        assert(0 * extent.value() == 0 && 0 * u == 0);
        assert(0x20_0000_0000_0000 * extent.value() >= 0);
    } else {
        lemma_sign(size);
        lemma_quotient_error(size, extent);
        lemma_quotient_error_below(size, extent);
        assert(!q.negative()) by {
            reveal(Real::spec_div);
        }
    }
    assert(q.value() >= 0);
    lemma_quotient_is_modest(u, most, size.value(), extent.value(), q.value());
    lemma_modest_wide(q, most);
    lemma_single_close(q, most);
    lemma_single_of_size(q);
    if q.negative() {
        lemma_single_error(q);
    }
    assert(r.value() >= 0);
    lemma_share_ints(u, most, size.value(), extent.value(), q.value(), r.value());
}

proof fn lemma_quotient_is_modest(u: int, most: int, w: int, a: int, q: int)
    requires
        u >= 0x100_0000_0000_0000,
        most >= u,
        0 <= w <= most,
        u <= 2 * a,
        a <= 2 * most,
        q >= 0,
        0x1f_ffff_ffff_ffff * (q * a) <= 0x20_0000_0000_0001 * (w * u) + 0x20_0000_0000_0000 * a,
    ensures
        q <= 3 * most,
{
    let mu: int = most * u;
    let qa: int = q * a;
    let wu: int = w * u;
    let au: int = a * u;
    assert(0 <= wu <= mu && au <= 2 * mu && qa >= 0 && mu > 0) by (nonlinear_arith)
        requires
            mu == most * u,
            wu == w * u,
            au == a * u,
            qa == q * a,
            0 <= w <= most,
            0 < a <= 2 * most,
            q >= 0,
            most > 0,
            u > 0,
    ;
    assert(0x20_0000_0000_0000 * a <= au) by (nonlinear_arith)
        requires
            au == a * u,
            u >= 0x20_0000_0000_0000,
            a > 0,
    ;
    assert(q * u <= 2 * qa) by (nonlinear_arith)
        requires
            qa == q * a,
            u <= 2 * a,
            q >= 0,
    ;
    assert(q <= 3 * most) by (nonlinear_arith)
        requires
            q * u <= 3 * mu,
            mu == most * u,
            u > 0,
    ;
}

/// A zoom from a share of a screen along one axis.
proof fn lemma_fit_ints(u: int, most: int, w: int, a: int, f: int, q: int, s: int, t: int, r: int)
    requires
        u >= 0x100_0000_0000_0000,
        most >= u,
        0 <= w <= most,
        u <= 2 * a,
        a <= 2 * most,
        0 <= q <= f,
        0 < s <= u,
        t >= 0,
        r >= 0,
        0x100_0000 * size_of(f * a - w * u) <= 8 * (most * u),
        0x20_0000_0000_0000 * size_of(t * u - q * s) <= t * u + 0x20_0000_0000_0000 * u,
        0x100_0000 * size_of(r - t) <= t + u,
    ensures
        0x100_0000 * (r * a - w * s) <= 32 * (most * u),
        q == f ==> 0x100_0000 * (w * s - r * a) <= 32 * (most * u),
{
    let mu: int = most * u;
    let uu: int = u * u;
    let qa: int = q * a;
    let fa: int = f * a;
    let wu: int = w * u;
    let tu: int = t * u;
    let qs: int = q * s;
    let muu: int = mu * u;
    assert(0 <= wu <= mu && mu > 0 && 0 <= qa <= fa && uu > 0 && tu >= 0 && qs >= 0)
        by (nonlinear_arith)
        requires
            mu == most * u,
            wu == w * u,
            qa == q * a,
            fa == f * a,
            uu == u * u,
            tu == t * u,
            qs == q * s,
            0 <= w <= most,
            0 <= q <= f,
            0 < a,
            most > 0,
            u > 0,
            t >= 0,
            s > 0,
    ;
    assert(fa <= 2 * mu);
    // Q |r u - q s| <= tu + 3 uu + qs
    let e: int = r - t;
    assert(0x100_0000 * (e * u) <= tu + uu && -(tu + uu) <= 0x100_0000 * (e * u)) by (nonlinear_arith)
        requires
            0x100_0000 * e <= t + u,
            -(t + u) <= 0x100_0000 * e,
            tu == t * u,
            uu == u * u,
            u > 0,
    ;
    let ru: int = r * u;
    assert(ru == tu + e * u) by (nonlinear_arith)
        requires
            ru == r * u,
            tu == t * u,
            e == r - t,
    ;
    assert(0x100_0000 * u <= uu) by (nonlinear_arith)
        requires
            uu == u * u,
            u >= 0x100_0000,
    ;
    assert(tu <= 2 * qs + 2 * uu);
    let g: int = ru - qs;
    assert(0x100_0000 * g <= 4 * qs + 8 * uu && -(4 * qs + 8 * uu) <= 0x100_0000 * g);
    // times a
    let qsa: int = qs * a;
    let uua: int = uu * a;
    assert(0x100_0000 * (g * a) <= 4 * qsa + 8 * uua && -(4 * qsa + 8 * uua) <= 0x100_0000 * (g * a))
        by (nonlinear_arith)
        requires
            0x100_0000 * g <= 4 * qs + 8 * uu,
            -(4 * qs + 8 * uu) <= 0x100_0000 * g,
            qsa == qs * a,
            uua == uu * a,
            a > 0,
    ;
    assert(qsa == qa * s) by (nonlinear_arith)
        requires
            qsa == qs * a,
            qs == q * s,
            qa == q * a,
    ;
    assert(0 <= qsa <= 2 * muu) by (nonlinear_arith)
        requires
            qsa == qa * s,
            muu == mu * u,
            0 <= qa <= 2 * mu,
            0 < s <= u,
    ;
    assert(uua <= 2 * muu) by (nonlinear_arith)
        requires
            uua == uu * a,
            uu == u * u,
            muu == mu * u,
            mu == most * u,
            0 < a <= 2 * most,
            u > 0,
    ;
    let ra: int = r * a;
    assert(g * a == ra * u - qsa) by (nonlinear_arith)
        requires
            g == ru - qs,
            ru == r * u,
            ra == r * a,
            qsa == qs * a,
    ;
    // q a s against w u s
    let ws: int = w * s;
    let h: int = fa - wu;
    assert(0x100_0000 * (h * s) <= 8 * muu && -(8 * muu) <= 0x100_0000 * (h * s)) by (nonlinear_arith)
        requires
            0x100_0000 * h <= 8 * mu,
            -(8 * mu) <= 0x100_0000 * h,
            muu == mu * u,
            0 < s <= u,
            mu > 0,
    ;
    assert(h * s == fa * s - ws * u) by (nonlinear_arith)
        requires
            h == fa - wu,
            wu == w * u,
            ws == w * s,
    ;
    assert(qa * s <= fa * s) by (nonlinear_arith)
        requires
            qa <= fa,
            s > 0,
    ;
    let k: int = ra - ws;
    assert(k * u == ra * u - ws * u) by (nonlinear_arith)
        requires
            k == ra - ws,
    ;
    assert(0x100_0000 * (k * u) <= 32 * muu);
    assert(0x100_0000 * k <= 32 * mu) by (nonlinear_arith)
        requires
            0x100_0000 * (k * u) <= 32 * muu,
            muu == mu * u,
            u > 0,
    ;
    if q == f {
        assert(qa == fa);
        assert(-(32 * muu) <= 0x100_0000 * (k * u));
        assert(-(32 * mu) <= 0x100_0000 * k) by (nonlinear_arith)
            requires
                -(32 * muu) <= 0x100_0000 * (k * u),
                muu == mu * u,
                u > 0,
        ;
    }
}

/// A limited zoom against the exact extent.
proof fn lemma_limited_zoom(u: int, most: int, r: int, z: int, a: int, x: int, ws: int)
    requires
        u > 0,
        most > 0,
        a > 0,
        0 <= z <= 80 * u,
        0x100_0000 * size_of(a - x) <= 4 * most,
    ensures
        z <= r && 0x100_0000 * (r * a - ws) <= 32 * (most * u) ==> 0x100_0000 * (z * x - ws) <= 512 * (
        most * u),
        r <= z && 0x100_0000 * (ws - r * a) <= 32 * (most * u) ==> 0x100_0000 * (ws - z * x) <= 512 * (
        most * u),
{
    let mu: int = most * u;
    let g: int = x - a;
    lemma_mul_bound(0x100_0000 * g, z, 4 * most, 80 * u);
    assert((0x100_0000 * g) * z == 0x100_0000 * (z * x - z * a)) by (nonlinear_arith)
        requires
            g == x - a,
    ;
    assert((4 * most) * (80 * u) == 320 * mu) by (nonlinear_arith)
        requires
            mu == most * u,
    ;
    assert(mu > 0) by (nonlinear_arith)
        requires
            mu == most * u,
            most > 0,
            u > 0,
    ;
    assert(z <= r ==> z * a <= r * a) by (nonlinear_arith)
        requires
            a > 0,
    ;
    assert(r <= z ==> r * a <= z * a) by (nonlinear_arith)
        requires
            a > 0,
    ;
}

/// The zoom before it is limited.
proof fn lemma_raw_zoom(q: Real, most: int)
    requires
        bounding(most),
        q.finite(),
        0 <= q.value() <= 4 * most,
    ensures
        ({
            let t: Real = q.mul(Real::of(FIT_SHARE));
            let r: Real = t.add(Real::of(ZERO)).to_single();
            let u: int = cell_unit();
            let s: int = Real::of(FIT_SHARE).value();
            &&& 0 < s <= u
            &&& t.finite()
            &&& t.value() >= 0
            &&& 0x20_0000_0000_0000 * size_of(t.value() * u - q.value() * s) <= t.value() * u
                + 0x20_0000_0000_0000 * u
            &&& r.finite()
            &&& r.value() >= 0
            &&& 0x100_0000 * size_of(r.value() - t.value()) <= t.value() + u
        }),
{
    let share: Real = Real::of(FIT_SHARE);
    let zero: Real = Real::of(ZERO);
    let t: Real = q.mul(share);
    let v: Real = t.add(zero);
    let r: Real = v.to_single();
    let u: int = cell_unit();
    lemma_camera_limits();
    lemma_large_unit();
    lemma_unit_is_nothing(most);
    lemma_modest_wide(q, most);
    lemma_close_product(q, share);
    assert(zero.magnitude() == 0);
    lemma_size_of_zero(zero);
    lemma_value_order(zero, q);
    lemma_value_order(zero, share);
    lemma_mul_monotone(q, q, share, share);
    lemma_value_order(zero, t);
    lemma_close_sum(t, zero);
    assert(v.value() == t.value()) by {
        reveal(Real::spec_add);
        lemma_value_rank(t, t.negative() && zero.negative());
        lemma_value_order(t, v);
        lemma_value_order(v, t);
    }
    lemma_share_is_smaller(u, most, q.value(), share.value(), t.value());
    lemma_modest_wide(v, most);
    lemma_single_close(v, most);
    lemma_single_of_size(v);
    if v.value() == 0 {
        lemma_value_order(v, zero);
        lemma_value_order(zero, v);
        lemma_single_error(v);
    } else {
        lemma_sign_of(v);
    }
}

proof fn lemma_share_is_smaller(u: int, most: int, q: int, s: int, t: int)
    requires
        u > 0,
        most > 0,
        0 <= q <= 4 * most,
        0 < s <= u,
        t >= 0,
        0x20_0000_0000_0000 * u <= most * u,
        0x20_0000_0000_0000 * size_of(t * u - q * s) <= t * u + 0x20_0000_0000_0000 * u,
    ensures
        t <= 8 * most,
{
    let mu: int = most * u;
    let tu: int = t * u;
    assert(q * s <= 4 * mu) by (nonlinear_arith)
        requires
            mu == most * u,
            0 <= q <= 4 * most,
            0 < s <= u,
    ;
    assert(tu >= 0) by (nonlinear_arith)
        requires
            tu == t * u,
            t >= 0,
            u > 0,
    ;
    assert(tu <= 8 * mu);
    assert(t <= 8 * most) by (nonlinear_arith)
        requires
            tu <= 8 * mu,
            tu == t * u,
            mu == most * u,
            u > 0,
    ;
}

/// The camera that is fitted to a grid stands over its middle and shows all of it: the grid
/// takes no more than `0.94` of the screen either way, and that much of it one way, unless
/// the zoom is at a limit. This holds up to 512 parts in `2^24` of a bound on the sizes.
pub proof fn lemma_fitted_camera_shows_the_grid(grid: &NavGrid, width: Real, height: Real, most: int)
    requires
        grid_within(grid, most),
        reaches(width, most),
        reaches(height, most),
        width.value() >= 0,
        height.value() >= 0,
    ensures
        ({
            let camera: Camera = Camera::spec_fitted(grid, width, height);
            let u: int = cell_unit();
            let z: int = camera.zoom.value();
            let x: int = shown_extent(grid.cell_size, grid.width as int);
            let y: int = shown_extent(grid.cell_size, grid.height as int);
            let s: int = Real::of(FIT_SHARE).value();
            let q: int = 0x100_0000;
            &&& camera.center == spec_middle(grid)
            &&& camera.zoom.finite()
            &&& Real::of(FIT_LEAST).value() <= z <= Real::of(FIT_GREATEST).value()
            &&& z == Real::of(FIT_LEAST).value() || (q * (z * x - width.value() * s) <= 512 * (most
                * u) && q * (z * y - height.value() * s) <= 512 * (most * u))
            &&& z == Real::of(FIT_GREATEST).value() || q * (width.value() * s - z * x) <= 512 * (most
                * u) || q * (height.value() * s - z * y) <= 512 * (most * u)
        }),
{
    let u: int = cell_unit();
    let (low, high): (Point, Point) = grid.bounds();
    let across: Real = high.x.sub(low.x).max(Real::of(ONE)).to_single();
    let along: Real = high.z.sub(low.z).max(Real::of(ONE)).to_single();
    let fx: Real = width.single_quotient(across);
    let fz: Real = height.single_quotient(along);
    let q: Real = fx.min(fz);
    let share: Real = Real::of(FIT_SHARE);
    let t: Real = q.mul(share);
    let r: Real = t.add(Real::of(ZERO)).to_single();
    let least: Real = Real::of(FIT_LEAST);
    let greatest: Real = Real::of(FIT_GREATEST);
    let zoom: Real = r.clamp(least, greatest);
    lemma_large_unit();
    lemma_unit_is_nothing(most);
    lemma_camera_limits();
    lemma_shown_extent(grid.origin.x, grid.cell_size, grid.width, most);
    lemma_shown_extent(grid.origin.z, grid.cell_size, grid.height, most);
    lemma_screen_share(width, across, most);
    lemma_screen_share(height, along, most);
    lemma_value_order(fx, fz);
    lemma_raw_zoom(q, most);
    lemma_value_order(r, least);
    lemma_value_order(least, r);
    lemma_value_order(greatest, r);
    lemma_value_order(r, greatest);
    let s: int = share.value();
    lemma_fit_ints(
        u,
        most,
        width.value(),
        across.value(),
        fx.value(),
        q.value(),
        s,
        t.value(),
        r.value(),
    );
    lemma_fit_ints(
        u,
        most,
        height.value(),
        along.value(),
        fz.value(),
        q.value(),
        s,
        t.value(),
        r.value(),
    );
    lemma_limited_zoom(
        u,
        most,
        r.value(),
        zoom.value(),
        across.value(),
        shown_extent(grid.cell_size, grid.width as int),
        width.value() * s,
    );
    lemma_limited_zoom(
        u,
        most,
        r.value(),
        zoom.value(),
        along.value(),
        shown_extent(grid.cell_size, grid.height as int),
        height.value() * s,
    );
}

} // verus!
