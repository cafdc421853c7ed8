//! When a wandering actor turns homewards, and that it then goes homewards.
use vstd::arithmetic::power2::*;
use vstd::prelude::*;

use crate::course::{lemma_length_is_bounded, lemma_number_share, lemma_share_along};
use crate::crossing::{cell_unit, lemma_large_unit};
use crate::geometry::{Point, EPSILON};
use crate::nearness::{
    bounding, lemma_close_difference, lemma_close_product, lemma_close_sum, lemma_hypot,
    lemma_modest, lemma_mul_bound, lemma_size_scales, lemma_unit_is_nothing, modest, reaches,
    size_of, within_bound,
};
use crate::number::Real;
use crate::ordering::lemma_value_order;
use crate::roots::{lemma_hypot_commutes, lemma_hypot_not_shorter, lemma_share_of_hypot};
use crate::unit::{lemma_size_of_zero, no_longer_than_one};
use crate::wander::{spec_new_direction, CHANCE_WEIGHT, HOMESICK_SHARE, HOME_WEIGHT};

verus! {

/// A side is no longer than the hypotenuse.
proof fn lemma_side_is_no_longer(a: Real, b: Real)
    requires
        a.finite(),
        b.finite(),
        a.hypot(b).finite(),
        a.hypot(b).value() >= 0,
    ensures
        size_of(a.value()) <= a.hypot(b).value(),
{
    let u: Real = a.abs();
    let v: Real = b.abs();
    let length: Real = a.hypot(b);
    assert(u.magnitude() == a.magnitude() && !u.negative());
    assert(v.magnitude() == b.magnitude() && !v.negative());
    assert(u.abs() == u && v.abs() == v);
    assert(length == u.hypot(v));
    if a.magnitude() == 0 {
        lemma_size_of_zero(a);
    } else {
        lemma_hypot_not_shorter(u, v);
        lemma_value_order(u, length);
        assert(u.value() == size_of(a.value()));
    }
}

/// The weights are three quarters and one quarter; an actor is homesick from seven tenths
/// of its radius on.
proof fn lemma_weights()
    ensures
        modest(Real::of(HOME_WEIGHT)),
        modest(Real::of(CHANCE_WEIGHT)),
        modest(Real::of(HOMESICK_SHARE)),
        4 * Real::of(HOME_WEIGHT).value() == 3 * cell_unit(),
        4 * Real::of(CHANCE_WEIGHT).value() == cell_unit(),
        0 < 10 * Real::of(HOMESICK_SHARE).value() <= 7 * cell_unit(),
        0x20_0000_0000_0000 * (7 * cell_unit() - 10 * Real::of(HOMESICK_SHARE).value()) <= 4
            * cell_unit(),
        Real::of(EPSILON).finite(),
        5 * Real::of(EPSILON).value() < cell_unit(),
{
    let home: Real = Real::of(HOME_WEIGHT);
    let luck: Real = Real::of(CHANCE_WEIGHT);
    let share: Real = Real::of(HOMESICK_SHARE);
    let least: Real = Real::of(EPSILON);
    let u: int = cell_unit();
    lemma2_to64();
    lemma2_to64_rest();
    assert(home.significand() == 0x18_0000_0000_0000 && home.exponent() == -53);
    assert(luck.significand() == 0x10_0000_0000_0000 && luck.exponent() == -54);
    assert(share.significand() == 0x16_6666_6666_6666 && share.exponent() == -53);
    assert(least.significand() == 0x10_0000_0000_0000 && least.exponent() == -104);
    lemma_pow2_adds(53, 1021);
    lemma_pow2_adds(54, 1020);
    lemma_pow2_adds(52, 970);
    lemma_pow2_adds(52, 1022);
    lemma_pow2_pos(1021);
    lemma_pow2_pos(1020);
    lemma_pow2_pos(970);
    lemma_pow2_pos(1022);
    let a: int = pow2(1021) as int;
    let b: int = pow2(1020) as int;
    let c: int = pow2(1022) as int;
    let d: int = pow2(970) as int;
    assert(u == 0x20_0000_0000_0000 * a);
    assert(u == 0x40_0000_0000_0000 * b);
    assert(u == 0x10_0000_0000_0000 * c);
    assert(c == 0x10_0000_0000_0000 * d);
    assert(home.value() == 0x18_0000_0000_0000 * a);
    assert(luck.value() == 0x10_0000_0000_0000 * b);
    assert(share.value() == 0x16_6666_6666_6666 * a);
    assert(least.value() == 0x10_0000_0000_0000 * d);
}

/// A part of a number that is a number of quarters of it.
proof fn lemma_quarters(u: int, s: int, h: int, w: int, m: int)
    requires
        u >= 0x100_0000_0000_0000,
        1 <= w <= 3,
        4 * h == w * u,
        size_of(w * s) <= 3 * u,
        0x20_0000_0000_0000 * size_of(m * u - s * h) <= size_of(m) * u + 0x20_0000_0000_0000 * u,
    ensures
        0x20_0000_0000_0000 * size_of(4 * m - w * s) <= 16 * u,
        size_of(m) <= u,
{
    let p: int = 0x20_0000_0000_0000;
    let t: int = w * s;
    let n: int = size_of(m);
    assert(4 * (s * h) == t * u) by (nonlinear_arith)
        requires
            4 * h == w * u,
            t == w * s,
    ;
    let e: int = 4 * m - t;
    assert(e * u == 4 * (m * u) - t * u) by (nonlinear_arith)
        requires
            e == 4 * m - t,
    ;
    lemma_size_scales(e, u);
    let k: int = size_of(e);
    assert(p * (k * u) <= 4 * (n * u) + 4 * p * u);
    assert(p * k <= 4 * n + 4 * p) by (nonlinear_arith)
        requires
            p * (k * u) <= 4 * (n * u) + 4 * p * u,
            u > 0,
    ;
}

/// What a coordinate of the mixed direction is.
proof fn lemma_mixed(s: Real, c: Real)
    requires
        reaches(s, cell_unit()),
        reaches(c, 2 * cell_unit()),
    ensures
        ({
            let v: Real = s.mul(Real::of(HOME_WEIGHT)).add(c.mul(Real::of(CHANCE_WEIGHT)));
            &&& reaches(v, 2 * cell_unit())
            &&& 0x20_0000_0000_0000 * size_of(4 * v.value() - (3 * s.value() + c.value())) <= 64
                * cell_unit()
        }),
{
    let u: int = cell_unit();
    let home: Real = Real::of(HOME_WEIGHT);
    let luck: Real = Real::of(CHANCE_WEIGHT);
    lemma_large_unit();
    lemma_weights();
    lemma_unit_is_bounding();
    lemma_modest(s, u);
    lemma_modest(c, u);
    lemma_close_product(s, home);
    lemma_close_product(c, luck);
    let m: Real = s.mul(home);
    let n: Real = c.mul(luck);
    lemma_quarters(u, s.value(), home.value(), 3, m.value());
    lemma_quarters(u, c.value(), luck.value(), 1, n.value());
    lemma_close_sum(m, n);
}

proof fn lemma_unit_is_bounding()
    ensures
        bounding(cell_unit()),
{
    lemma_pow2_strictly_increases(1074, 1174);
}

/// The way home has most of the weight: what mixes it with chance leads homewards.
proof fn lemma_mix_leads_home(
    u: int,
    l: int,
    a: int,
    b: int,
    sx: int,
    sz: int,
    cx: int,
    cz: int,
    vx: int,
    vz: int,
)
    requires
        u > 0,
        l > 0,
        size_of(a) <= l,
        size_of(b) <= l,
        0x20_0000_0000_0000 * size_of(l * l - (a * a + b * b)) <= 512 * (l * l),
        0x20_0000_0000_0000 * size_of(sx * l - a * u) <= 32 * (l * u),
        0x20_0000_0000_0000 * size_of(sz * l - b * u) <= 32 * (l * u),
        0x20_0000_0000_0000 * (cx * cx + cz * cz) <= 0x20_0000_0000_0010 * (u * u),
        0x20_0000_0000_0000 * size_of(4 * vx - (3 * sx + cx)) <= 64 * u,
        0x20_0000_0000_0000 * size_of(4 * vz - (3 * sz + cz)) <= 64 * u,
    ensures
        l * u <= 4 * (a * vx + b * vz),
{
    let lu: int = l * u;
    let ll: int = l * l;
    let llu: int = ll * u;
    assert(lu > 0 && ll > 0 && llu > 0) by (nonlinear_arith)
        requires
            lu == l * u,
            ll == l * l,
            llu == ll * u,
            l > 0,
            u > 0,
    ;
    lemma_way_home(u, l, a, b, sx, sz);
    lemma_luck_is_limited(u, l, a, b, cx, cz);
    let e: int = a * sx + b * sz;
    let t: int = a * cx + b * cz;
    let ex: int = 4 * vx - (3 * sx + cx);
    let ez: int = 4 * vz - (3 * sz + cz);
    lemma_mul_bound(a, 0x20_0000_0000_0000 * ex, l, 64 * u);
    lemma_mul_bound(b, 0x20_0000_0000_0000 * ez, l, 64 * u);
    assert(l * (64 * u) == 64 * lu) by (nonlinear_arith)
        requires
            lu == l * u,
    ;
    assert(a * (0x20_0000_0000_0000 * ex) == 0x20_0000_0000_0000 * (a * ex) && b * (
    0x20_0000_0000_0000 * ez) == 0x20_0000_0000_0000 * (b * ez)) by (nonlinear_arith);
    assert(a * ex == 4 * (a * vx) - 3 * (a * sx) - a * cx) by (nonlinear_arith)
        requires
            ex == 4 * vx - (3 * sx + cx),
    ;
    assert(b * ez == 4 * (b * vz) - 3 * (b * sz) - b * cz) by (nonlinear_arith)
        requires
            ez == 4 * vz - (3 * sz + cz),
    ;
}

proof fn lemma_way_home(u: int, l: int, a: int, b: int, sx: int, sz: int)
    requires
        u > 0,
        l > 0,
        size_of(a) <= l,
        size_of(b) <= l,
        0x20_0000_0000_0000 * size_of(l * l - (a * a + b * b)) <= 512 * (l * l),
        0x20_0000_0000_0000 * size_of(sx * l - a * u) <= 32 * (l * u),
        0x20_0000_0000_0000 * size_of(sz * l - b * u) <= 32 * (l * u),
    ensures
        9 * (l * u) <= 10 * (a * sx + b * sz),
{
    let p: int = 0x20_0000_0000_0000;
    let lu: int = l * u;
    let ll: int = l * l;
    let llu: int = ll * u;
    let n: int = a * a + b * b;
    let gx: int = sx * l - a * u;
    let gz: int = sz * l - b * u;
    lemma_mul_bound(a, p * gx, l, 32 * lu);
    lemma_mul_bound(b, p * gz, l, 32 * lu);
    assert(l * (32 * lu) == 32 * llu) by (nonlinear_arith)
        requires
            lu == l * u,
            ll == l * l,
            llu == ll * u,
    ;
    assert(a * (p * gx) == p * (a * gx) && b * (p * gz) == p * (b * gz)) by (nonlinear_arith);
    let e: int = a * sx + b * sz;
    lemma_along(a, sx, l, a, u);
    lemma_along(b, sz, l, b, u);
    assert(e * l == (a * sx) * l + (b * sz) * l) by (nonlinear_arith)
        requires
            e == a * sx + b * sz,
    ;
    assert(n * u == (a * a) * u + (b * b) * u) by (nonlinear_arith)
        requires
            n == a * a + b * b,
    ;
    let h: int = ll - n;
    assert(p * (h * u) <= 512 * llu) by (nonlinear_arith)
        requires
            p * h <= 512 * ll,
            llu == ll * u,
            u > 0,
    ;
    assert(h * u == llu - n * u) by (nonlinear_arith)
        requires
            h == ll - n,
            llu == ll * u,
    ;
    assert(llu > 0) by (nonlinear_arith)
        requires
            llu == ll * u,
            ll == l * l,
            l > 0,
            u > 0,
    ;
    assert(9 * llu <= 10 * (e * l));
    assert(9 * lu <= 10 * e) by (nonlinear_arith)
        requires
            9 * llu <= 10 * (e * l),
            llu == ll * u,
            ll == l * l,
            lu == l * u,
            l > 0,
    ;
}

proof fn lemma_along(a: int, x: int, l: int, y: int, u: int)
    ensures
        a * (x * l - y * u) == (a * x) * l - (a * y) * u,
{
    let e: int = x * l;
    let f: int = y * u;
    assert(a * (e - f) == a * e - a * f) by (nonlinear_arith);
    assert(a * e == (a * x) * l) by (nonlinear_arith)
        requires
            e == x * l,
    ;
    assert(a * f == (a * y) * u) by (nonlinear_arith)
        requires
            f == y * u,
    ;
}

/// The product of two sums of two squares is the square of a scalar product and that of a
/// cross product.
proof fn lemma_two_squares(a: int, b: int, c: int, d: int)
    ensures
        ({
            let t: int = a * c + b * d;
            let w: int = a * d - b * c;
            t * t + w * w == (a * a + b * b) * (c * c + d * d)
        }),
{
    let p: int = a * c;
    let q: int = b * d;
    let r: int = a * d;
    let s: int = b * c;
    let t: int = p + q;
    let w: int = r - s;
    assert(t * t == p * p + 2 * (p * q) + q * q) by (nonlinear_arith)
        requires
            t == p + q,
    ;
    assert(w * w == r * r - 2 * (r * s) + s * s) by (nonlinear_arith)
        requires
            w == r - s,
    ;
    assert(p * q == r * s) by (nonlinear_arith)
        requires
            p == a * c,
            q == b * d,
            r == a * d,
            s == b * c,
    ;
    lemma_square_of_product(a, c);
    lemma_square_of_product(b, d);
    lemma_square_of_product(a, d);
    lemma_square_of_product(b, c);
    let aa: int = a * a;
    let bb: int = b * b;
    let cc: int = c * c;
    let dd: int = d * d;
    assert((aa + bb) * (cc + dd) == aa * cc + aa * dd + bb * cc + bb * dd) by (nonlinear_arith);
}

proof fn lemma_square_of_product(a: int, b: int)
    ensures
        (a * b) * (a * b) == (a * a) * (b * b),
{
    assert((a * b) * (a * b) == (a * a) * (b * b)) by (nonlinear_arith);
}

proof fn lemma_luck_is_limited(u: int, l: int, a: int, b: int, cx: int, cz: int)
    requires
        u > 0,
        l > 0,
        0x20_0000_0000_0000 * size_of(l * l - (a * a + b * b)) <= 512 * (l * l),
        0x20_0000_0000_0000 * (cx * cx + cz * cz) <= 0x20_0000_0000_0010 * (u * u),
    ensures
        10 * size_of(a * cx + b * cz) <= 12 * (l * u),
{
    let n: int = a * a + b * b;
    let c: int = cx * cx + cz * cz;
    let t: int = a * cx + b * cz;
    let w: int = a * cz - b * cx;
    let ll: int = l * l;
    let uu: int = u * u;
    let lu: int = l * u;
    lemma_two_squares(a, b, cx, cz);
    assert(w * w >= 0 && n >= 0 && c >= 0 && ll > 0 && uu > 0 && lu > 0) by (nonlinear_arith)
        requires
            n == a * a + b * b,
            c == cx * cx + cz * cz,
            ll == l * l,
            uu == u * u,
            lu == l * u,
            l > 0,
            u > 0,
    ;
    assert(10 * n <= 11 * ll);
    assert(10 * c <= 11 * uu);
    assert(100 * (n * c) <= 121 * (ll * uu)) by (nonlinear_arith)
        requires
            0 <= 10 * n <= 11 * ll,
            0 <= 10 * c <= 11 * uu,
    ;
    assert(ll * uu == lu * lu) by (nonlinear_arith)
        requires
            ll == l * l,
            uu == u * u,
            lu == l * u,
    ;
    assert(100 * (t * t) <= 144 * (lu * lu)) by (nonlinear_arith)
        requires
            100 * (t * t) <= 121 * (lu * lu),
    ;
    assert(10 * t <= 12 * lu && -(12 * lu) <= 10 * t) by (nonlinear_arith)
        requires
            100 * (t * t) <= 144 * (lu * lu),
            lu > 0,
    ;
}

/// A direction that is scaled keeps its way.
proof fn lemma_scaled_leads_home(
    u: int,
    l: int,
    a: int,
    b: int,
    dx: int,
    dz: int,
    vx: int,
    vz: int,
    len: int,
    x: int,
    z: int,
)
    requires
        u > 0,
        l > 0,
        0 < len <= 8 * u,
        size_of(a) <= l,
        size_of(b) <= l,
        size_of(x) <= u,
        size_of(z) <= u,
        l * u <= 4 * (a * vx + b * vz),
        0x20_0000_0000_0000 * size_of(x * len - vx * u) <= 32 * (u * u),
        0x20_0000_0000_0000 * size_of(z * len - vz * u) <= 32 * (u * u),
        0x20_0000_0000_0000 * size_of(a - dx) <= 2 * l,
        0x20_0000_0000_0000 * size_of(b - dz) <= 2 * l,
    ensures
        x * dx + z * dz > 0,
{
    let p: int = 0x20_0000_0000_0000;
    let uu: int = u * u;
    let lu: int = l * u;
    let luu: int = lu * u;
    let d: int = a * vx + b * vz;
    let s: int = x * a + z * b;
    let gx: int = x * len - vx * u;
    let gz: int = z * len - vz * u;
    assert(luu > 0 && lu > 0) by (nonlinear_arith)
        requires
            luu == lu * u,
            lu == l * u,
            l > 0,
            u > 0,
    ;
    lemma_mul_bound(a, p * gx, l, 32 * uu);
    lemma_mul_bound(b, p * gz, l, 32 * uu);
    assert(l * (32 * uu) == 32 * luu) by (nonlinear_arith)
        requires
            luu == lu * u,
            lu == l * u,
            uu == u * u,
    ;
    assert(a * (p * gx) == p * (a * gx) && b * (p * gz) == p * (b * gz)) by (nonlinear_arith);
    lemma_along(a, x, len, vx, u);
    lemma_along(b, z, len, vz, u);
    assert(s * len == (a * x) * len + (b * z) * len) by (nonlinear_arith)
        requires
            s == x * a + z * b,
    ;
    assert(d * u == (a * vx) * u + (b * vz) * u) by (nonlinear_arith)
        requires
            d == a * vx + b * vz,
    ;
    assert(luu <= 4 * (d * u)) by (nonlinear_arith)
        requires
            lu <= 4 * d,
            luu == lu * u,
            u > 0,
    ;
    assert(luu <= 5 * (s * len));
    assert(lu <= 40 * s) by (nonlinear_arith)
        requires
            luu <= 5 * (s * len),
            luu == lu * u,
            0 < len <= 8 * u,
            lu > 0,
            u > 0,
    ;
    let ex: int = a - dx;
    let ez: int = b - dz;
    lemma_mul_bound(x, p * ex, u, 2 * l);
    lemma_mul_bound(z, p * ez, u, 2 * l);
    assert(u * (2 * l) == 2 * lu) by (nonlinear_arith)
        requires
            lu == l * u,
    ;
    assert(x * (p * ex) == p * (x * ex) && z * (p * ez) == p * (z * ez)) by (nonlinear_arith);
    assert(x * ex == x * a - x * dx && z * ez == z * b - z * dz) by (nonlinear_arith)
        requires
            ex == a - dx,
            ez == b - dz,
    ;
}

/// What mixes the way home with chance is no tiny vector.
proof fn lemma_mix_is_long(u: int, l: int, a: int, b: int, vx: int, vz: int, len: int)
    requires
        u > 0,
        l > 0,
        len >= 0,
        0x20_0000_0000_0000 * size_of(l * l - (a * a + b * b)) <= 512 * (l * l),
        0x20_0000_0000_0000 * size_of(len * len - (vx * vx + vz * vz)) <= 512 * (u * u),
        l * u <= 4 * (a * vx + b * vz),
    ensures
        u <= 5 * len,
{
    let n: int = a * a + b * b;
    let v: int = vx * vx + vz * vz;
    let d: int = a * vx + b * vz;
    let w: int = a * vz - b * vx;
    let ll: int = l * l;
    let uu: int = u * u;
    let lu: int = l * u;
    lemma_two_squares(a, b, vx, vz);
    assert(w * w >= 0 && v >= 0 && ll > 0 && uu > 0 && lu > 0) by (nonlinear_arith)
        requires
            v == vx * vx + vz * vz,
            ll == l * l,
            uu == u * u,
            lu == l * u,
            l > 0,
            u > 0,
    ;
    assert(lu * lu <= 16 * (d * d)) by (nonlinear_arith)
        requires
            0 < lu <= 4 * d,
    ;
    assert(ll * uu == lu * lu) by (nonlinear_arith)
        requires
            ll == l * l,
            uu == u * u,
            lu == l * u,
    ;
    assert(10 * (n * v) <= 11 * (ll * v)) by (nonlinear_arith)
        requires
            10 * n <= 11 * ll,
            v >= 0,
    ;
    assert(10 * (ll * uu) <= 176 * (ll * v));
    assert(10 * uu <= 176 * v) by (nonlinear_arith)
        requires
            10 * (ll * uu) <= 176 * (ll * v),
            ll > 0,
    ;
    assert(uu <= 25 * (len * len));
    assert(u <= 5 * len) by (nonlinear_arith)
        requires
            uu <= 25 * (len * len),
            uu == u * u,
            u > 0,
            len >= 0,
    ;
}

/// A coordinate of a vector that is no longer than one.
proof fn lemma_chance_is_bounded(chance: Point)
    requires
        no_longer_than_one(chance),
    ensures
        reaches(chance.x, 2 * cell_unit()),
        reaches(chance.z, 2 * cell_unit()),
        ({
            let x: int = chance.x.value();
            let z: int = chance.z.value();
            0x20_0000_0000_0000 * (x * x + z * z) <= 0x20_0000_0000_0010 * (cell_unit()
                * cell_unit())
        }),
{
    let u: int = cell_unit();
    let x: int = chance.x.value();
    let z: int = chance.z.value();
    lemma_large_unit();
    lemma2_to64_rest();
    let uu: int = u * u;
    assert(pow2(1074) as int * pow2(1074) as int == uu);
    assert(x * x >= 0 && z * z >= 0 && uu > 0) by (nonlinear_arith)
        requires
            uu == u * u,
            u > 0,
    ;
    assert(-(2 * u) <= x <= 2 * u) by (nonlinear_arith)
        requires
            x * x <= 2 * uu,
            uu == u * u,
            u > 0,
    ;
    assert(-(2 * u) <= z <= 2 * u) by (nonlinear_arith)
        requires
            z * z <= 2 * uu,
            uu == u * u,
            u > 0,
    ;
}

/// The way home of an actor that is away from it.
proof fn lemma_way(spawn: Point, position: Point, most: int)
    requires
        bounding(most),
        within_bound(spawn, most),
        within_bound(position, most),
    ensures
        ({
            let a: Real = spawn.x.sub(position.x);
            let b: Real = spawn.z.sub(position.z);
            let l: Real = a.hypot(b);
            let dx: int = spawn.x.value() - position.x.value();
            let dz: int = spawn.z.value() - position.z.value();
            let p: int = 0x20_0000_0000_0000;
            &&& a.finite()
            &&& b.finite()
            &&& l.finite()
            &&& 0 <= l.value() <= 8 * most
            &&& size_of(a.value()) <= l.value()
            &&& size_of(b.value()) <= l.value()
            &&& p * size_of(a.value() - dx) <= 2 * l.value()
            &&& p * size_of(b.value() - dz) <= 2 * l.value()
            &&& p * size_of(l.value() * l.value() - (dx * dx + dz * dz)) <= 1024 * (most * most)
        }),
{
    let a: Real = spawn.x.sub(position.x);
    let b: Real = spawn.z.sub(position.z);
    let l: Real = a.hypot(b);
    let dx: int = spawn.x.value() - position.x.value();
    let dz: int = spawn.z.value() - position.z.value();
    lemma_large_unit();
    lemma_modest(spawn.x, most);
    lemma_modest(spawn.z, most);
    lemma_modest(position.x, most);
    lemma_modest(position.z, most);
    lemma_close_difference(spawn.x, position.x);
    lemma_close_difference(spawn.z, position.z);
    lemma_hypot(a, b, most);
    lemma_length_is_bounded(a.value(), b.value(), l.value(), most);
    lemma_side_is_no_longer(a, b);
    lemma_hypot_commutes(a, b);
    lemma_side_is_no_longer(b, a);
    lemma_square_of_rounded(a.value(), dx, most);
    lemma_square_of_rounded(b.value(), dz, most);
}

proof fn lemma_square_of_rounded(a: int, d: int, most: int)
    requires
        size_of(d) <= 2 * most,
        0x20_0000_0000_0000 * size_of(a - d) <= size_of(d),
    ensures
        0x20_0000_0000_0000 * size_of(a * a - d * d) <= 16 * (most * most),
{
    let e: int = 0x20_0000_0000_0000 * (a - d);
    lemma_mul_bound(e, a + d, 2 * most, 8 * most);
    assert((2 * most) * (8 * most) == 16 * (most * most)) by (nonlinear_arith);
    assert(e * (a + d) == 0x20_0000_0000_0000 * (a * a - d * d)) by (nonlinear_arith)
        requires
            e == 0x20_0000_0000_0000 * (a - d),
    ;
}

/// How far from home an actor may be before it is homesick.
proof fn lemma_limit(radius: Real, most: int)
    requires
        bounding(most),
        reaches(radius, most),
        radius.value() >= 0,
    ensures
        ({
            let limit: Real = radius.mul(Real::of(HOMESICK_SHARE));
            &&& limit.finite()
            &&& -most <= limit.value() <= most
            &&& 0x20_0000_0000_0000 * size_of(10 * limit.value() - 7 * radius.value()) <= 64 * most
        }),
{
    let share: Real = Real::of(HOMESICK_SHARE);
    let limit: Real = radius.mul(share);
    let u: int = cell_unit();
    lemma_large_unit();
    lemma_unit_is_nothing(most);
    lemma_weights();
    lemma_modest(radius, most);
    lemma_close_product(radius, share);
    lemma_limit_ints(u, most, radius.value(), share.value(), limit.value());
}

proof fn lemma_limit_ints(u: int, most: int, r: int, h: int, m: int)
    requires
        u >= 0x100_0000_0000_0000,
        most >= u,
        0 <= r <= most,
        0 < 10 * h <= 7 * u,
        0x20_0000_0000_0000 * (7 * u - 10 * h) <= 4 * u,
        0x20_0000_0000_0000 * size_of(m * u - r * h) <= size_of(m) * u + 0x20_0000_0000_0000 * u,
    ensures
        -most <= m <= most,
        0x20_0000_0000_0000 * size_of(10 * m - 7 * r) <= 64 * most,
{
    let p: int = 0x20_0000_0000_0000;
    let n: int = size_of(m);
    let mu: int = most * u;
    let g: int = 7 * u - 10 * h;
    assert(0 <= p * (r * g) <= 4 * mu) by (nonlinear_arith)
        requires
            0 <= p * g <= 4 * u,
            0 <= r <= most,
            mu == most * u,
            p == 0x20_0000_0000_0000,
    ;
    assert(r * g == 7 * (r * u) - 10 * (r * h)) by (nonlinear_arith)
        requires
            g == 7 * u - 10 * h,
    ;
    assert(p * u <= mu) by (nonlinear_arith)
        requires
            p <= most,
            u > 0,
            mu == most * u,
    ;
    let e: int = 10 * m - 7 * r;
    assert(e * u == 10 * (m * u) - 7 * (r * u)) by (nonlinear_arith)
        requires
            e == 10 * m - 7 * r,
    ;
    lemma_size_scales(e, u);
    let k: int = size_of(e);
    assert(p * (k * u) <= 10 * (n * u) + 14 * mu);
    assert(p * k <= 10 * n + 14 * most) by (nonlinear_arith)
        requires
            p * (k * u) <= 10 * (n * u) + 14 * mu,
            mu == most * u,
            u > 0,
    ;
}

/// Which of two lengths is greater, told by their squares.
proof fn lemma_lengths(l: int, m: int, r: int, n: int, most: int)
    requires
        most > 0,
        l >= 0,
        n >= 0,
        0 <= r <= most,
        -most <= m <= most,
        0x20_0000_0000_0000 * size_of(10 * m - 7 * r) <= 64 * most,
        0x20_0000_0000_0000 * size_of(l * l - n) <= 1024 * (most * most),
    ensures
        0x100_0000 * (100 * n - 49 * (r * r)) >= most * most ==> l > m,
        0x100_0000 * (49 * (r * r) - 100 * n) >= most * most ==> l < m,
{
    let p: int = 0x20_0000_0000_0000;
    let mm: int = most * most;
    let e: int = p * (10 * m - 7 * r);
    lemma_mul_bound(e, 10 * m + 7 * r, 64 * most, 17 * most);
    assert((64 * most) * (17 * most) == 1088 * mm) by (nonlinear_arith)
        requires
            mm == most * most,
    ;
    assert(e * (10 * m + 7 * r) == p * (100 * (m * m) - 49 * (r * r))) by (nonlinear_arith)
        requires
            e == p * (10 * m - 7 * r),
    ;
    assert(mm > 0) by (nonlinear_arith)
        requires
            mm == most * most,
            most > 0,
    ;
    if 0x100_0000 * (100 * n - 49 * (r * r)) >= mm && l <= m {
        assert(l * l <= m * m) by (nonlinear_arith)
            requires
                0 <= l <= m,
        ;
        assert(false);
    }
    if 0x100_0000 * (49 * (r * r) - 100 * n) >= mm && l >= m {
        assert(most <= 0x8000 * r) by (nonlinear_arith)
            requires
                mm <= 0x4000_0000 * (r * r),
                mm == most * most,
                most > 0,
                r >= 0,
        ;
        assert(l * l >= m * m) by (nonlinear_arith)
            requires
                0 <= m <= l,
        ;
        assert(false);
    }
}

proof fn lemma_away_by_one(u: int, most: int, r: int, n: int, l: int)
    requires
        u > 0,
        l >= 0,
        n >= 2 * (u * u),
        0x100_0000 * (100 * n - 49 * (r * r)) >= most * most,
        0x20_0000_0000_0000 * size_of(l * l - n) <= 1024 * (most * most),
    ensures
        u <= l,
{
    assert(r * r >= 0) by (nonlinear_arith);
    assert(u * u > 0) by (nonlinear_arith)
        requires
            u > 0,
    ;
    assert(l * l >= u * u);
    assert(u <= l) by (nonlinear_arith)
        requires
            l * l >= u * u,
            u > 0,
            l >= 0,
    ;
}

/// A homesick actor goes homewards.
proof fn lemma_homesick_goes_home(
    spawn: Point,
    position: Point,
    radius: Real,
    chance: Point,
    most: int,
)
    requires
        bounding(most),
        bounding(8 * most),
        within_bound(spawn, most),
        within_bound(position, most),
        no_longer_than_one(chance),
        ({
            let away: Real = spawn.x.sub(position.x).hypot(spawn.z.sub(position.z));
            &&& away.value() >= cell_unit()
            &&& radius.mul(Real::of(HOMESICK_SHARE)).lt(away)
        }),
    ensures
        ({
            let d: Point = spec_new_direction(spawn, position, radius, chance);
            let dx: int = spawn.x.value() - position.x.value();
            let dz: int = spawn.z.value() - position.z.value();
            &&& d.x.finite()
            &&& d.z.finite()
            &&& d.x.value() * dx + d.z.value() * dz > 0
        }),
{
    let a: Real = spawn.x.sub(position.x);
    let b: Real = spawn.z.sub(position.z);
    let away: Real = a.hypot(b);
    let l: int = away.value();
    let u: int = cell_unit();
    lemma_large_unit();
    lemma_unit_is_bounding();
    lemma_weights();
    lemma_way(spawn, position, most);
    lemma_chance_is_bounded(chance);
    lemma_shares(a, b, l);
    let sx: Real = a.div(away);
    let sz: Real = b.div(away);
    let home: Real = Real::of(HOME_WEIGHT);
    let luck: Real = Real::of(CHANCE_WEIGHT);
    let v: Point = Point {
        x: sx.mul(home).add(chance.x.mul(luck)),
        z: sz.mul(home).add(chance.z.mul(luck)),
    };
    lemma_mixed(sx, chance.x);
    lemma_mixed(sz, chance.z);
    lemma_mix_leads_home(
        u,
        l,
        a.value(),
        b.value(),
        sx.value(),
        sz.value(),
        chance.x.value(),
        chance.z.value(),
        v.x.value(),
        v.z.value(),
    );
    let length: Real = v.x.hypot(v.z);
    lemma_hypot(v.x, v.z, u);
    lemma_mix_is_long(
        u,
        l,
        a.value(),
        b.value(),
        v.x.value(),
        v.z.value(),
        length.value(),
    );
    lemma_value_order(length, Real::of(EPSILON));
    assert(Real::of(EPSILON).lt(length));
    lemma_shares(v.x, v.z, u);
    lemma_scaled_leads_home(
        u,
        l,
        a.value(),
        b.value(),
        spawn.x.value() - position.x.value(),
        spawn.z.value() - position.z.value(),
        v.x.value(),
        v.z.value(),
        length.value(),
        v.x.div(length).value(),
        v.z.div(length).value(),
    );
}

/// Which shares of its length a vector has along the axes.
proof fn lemma_shares(a: Real, b: Real, most: int)
    requires
        bounding(most),
        reaches(a, 4 * most),
        reaches(b, 4 * most),
        a.hypot(b).value() > 0,
    ensures
        ({
            let l: Real = a.hypot(b);
            let u: int = cell_unit();
            let p: int = 0x20_0000_0000_0000;
            &&& l.value() <= 8 * most
            &&& reaches(a.div(l), u)
            &&& reaches(b.div(l), u)
            &&& p * size_of(l.value() * l.value() - (a.value() * a.value() + b.value() * b.value()))
                <= 512 * (most * most)
            &&& p * size_of(a.div(l).value() * l.value() - a.value() * u) <= 32 * (most * u)
            &&& p * size_of(b.div(l).value() * l.value() - b.value() * u) <= 32 * (most * u)
        }),
{
    let l: Real = a.hypot(b);
    lemma_large_unit();
    lemma_hypot(a, b, most);
    lemma_length_is_bounded(a.value(), b.value(), l.value(), most);
    lemma_number_share(a, l);
    lemma_number_share(b, l);
    lemma_share_of_hypot(a, b);
    lemma_hypot_commutes(a, b);
    lemma_share_of_hypot(b, a);
    lemma_share_along(a, l, most);
    lemma_share_along(b, l, most);
}

/// An actor farther from home than seven tenths of its radius goes on homewards: its new
/// direction and the way home make an acute angle, whatever chance it was dealt. One that
/// is nearer goes on as chance has it. An actor is told to be farther or nearer up to one
/// part in `2^24` of the square of a bound; the homeward way is that of an actor that is
/// away from home by one or more.
pub proof fn lemma_strayed_actor_turns_home(
    spawn: Point,
    position: Point,
    radius: Real,
    chance: Point,
    most: int,
)
    requires
        bounding(most),
        bounding(8 * most),
        within_bound(spawn, most),
        within_bound(position, most),
        reaches(radius, most),
        radius.value() >= 0,
        no_longer_than_one(chance),
    ensures
        ({
            let d: Point = spec_new_direction(spawn, position, radius, chance);
            let dx: int = spawn.x.value() - position.x.value();
            let dz: int = spawn.z.value() - position.z.value();
            let r: int = radius.value();
            let u: int = cell_unit();
            let n: int = dx * dx + dz * dz;
            &&& 0x100_0000 * (100 * n - 49 * (r * r)) >= most * most && n >= 2 * (u * u) ==> {
                &&& d.x.finite()
                &&& d.z.finite()
                &&& d.x.value() * dx + d.z.value() * dz > 0
            }
            &&& 0x100_0000 * (49 * (r * r) - 100 * n) >= most * most ==> d == chance
        }),
{
    let a: Real = spawn.x.sub(position.x);
    let b: Real = spawn.z.sub(position.z);
    let away: Real = a.hypot(b);
    let limit: Real = radius.mul(Real::of(HOMESICK_SHARE));
    let dx: int = spawn.x.value() - position.x.value();
    let dz: int = spawn.z.value() - position.z.value();
    let r: int = radius.value();
    let n: int = dx * dx + dz * dz;
    lemma_large_unit();
    lemma_unit_is_nothing(most);
    lemma_way(spawn, position, most);
    lemma_limit(radius, most);
    assert(n >= 0) by (nonlinear_arith)
        requires
            n == dx * dx + dz * dz,
    ;
    lemma_lengths(away.value(), limit.value(), r, n, most);
    lemma_value_order(limit, away);
    lemma_value_order(away, limit);
    let u: int = cell_unit();
    if 0x100_0000 * (100 * n - 49 * (r * r)) >= most * most && n >= 2 * (u * u) {
        lemma_away_by_one(u, most, r, n, away.value());
        lemma_homesick_goes_home(spawn, position, radius, chance, most);
    }
}

} // verus!
