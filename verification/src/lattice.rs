//! Where the columns and rows of a grid lie, exactly, and that the computed edges,
//! middles and cell numbers agree with it up to a sliver.
use vstd::arithmetic::div_mod::*;
use vstd::arithmetic::power2::*;
use vstd::prelude::*;

use crate::crossing::{cell_unit, lemma_large_unit};
use crate::geometry::{cell_containing, cell_coordinate, cell_middle, Point, HALF};
use crate::nearness::{
    bounding, lemma_close_difference, lemma_close_product, lemma_close_sum, lemma_modest,
    lemma_unit_is_nothing, modest, reaches, size_of,
};
use crate::number::{full_exponent, full_significand, nearest_double, with_sticky, Real, INF, UNIT};
use crate::ordering::{lemma_size_code, lemma_sum_monotone, lemma_value_order, lemma_value_rank};
use crate::roots::lemma_full_significand;
use crate::rounding::{lemma_bit_len_unique, lemma_nearest_monotone, lemma_nearest_scaled};
use crate::shortest::{lemma_count, lemma_count_below, lemma_step_lengths};
use crate::unit::{lemma_quotient_error, lemma_quotient_error_below, lemma_size_of_zero};

verus! {

/// The smallest size of a cell that the laws on grids speak of: `2^-900`.
pub const SMALLEST_CELL: u64 = 0x07b0_0000_0000_0000;

/// Where a column (or row) of cells begins, in units of `2^-1074`.
pub open spec fn edge(origin: Real, cell: Real, n: int) -> int {
    origin.value() + n * cell.value()
}

/// Twice the middle of a column (or row) of cells, in units of `2^-1074`.
pub open spec fn doubled_middle(origin: Real, cell: Real, n: int) -> int {
    2 * origin.value() + (2 * n + 1) * cell.value()
}

/// Whether a number of columns (or rows) of positive size lies within a bound.
pub open spec fn laid_out(origin: Real, cell: Real, cells: int, most: int) -> bool {
    &&& bounding(most)
    &&& reaches(origin, most)
    &&& cell.finite()
    &&& !cell.negative()
    &&& SMALLEST_CELL <= cell.magnitude()
    &&& 0 <= cells
    &&& cells * cell.value() <= most
}

proof fn lemma_cell_is_positive(cell: Real)
    requires
        cell.finite(),
        !cell.negative(),
        SMALLEST_CELL <= cell.magnitude(),
    ensures
        cell.value() > 0,
{
    let zero: Real = Real { bits: 0 };
    assert(zero.magnitude() == 0);
    lemma_size_of_zero(zero);
    lemma_value_order(cell, zero);
}

/// The quotient by a number that is not tiny is finite.
pub proof fn lemma_quotient_is_finite(a: Real, b: Real)
    requires
        modest(a),
        b.finite(),
        SMALLEST_CELL <= b.magnitude(),
    ensures
        a.div(b).finite(),
{
    reveal(Real::spec_div);
    if a.magnitude() > 0 {
        lemma2_to64();
        lemma2_to64_rest();
        lemma_full_significand(a);
        lemma_full_significand(b);
        let f: nat = full_significand(a.significand());
        let d: nat = full_significand(b.significand());
        let xa: int = full_exponent(a.significand(), a.exponent());
        let xb: int = full_exponent(b.significand(), b.exponent());
        let e: int = xa - xb;
        let n: nat = f * pow2(57);
        let w: nat = n / d;
        let rest: nat = n % d;
        lemma_fundamental_div_mod(n as int, d as int);
        lemma_mod_bound(n as int, d as int);
        assert(w < 0x400_0000_0000_0000) by (nonlinear_arith)
            requires
                n == d * w + rest,
                0 <= rest,
                n == f * 0x200_0000_0000_0000,
                f < 0x20_0000_0000_0000,
                d >= 0x10_0000_0000_0000,
        ;
        let m: nat = with_sticky(w, rest != 0);
        assert(m <= 0x1000_0000_0000_0000);
        assert(a.exponent() <= 58);
        assert(xa <= 58);
        lemma_full_exponent(b);
        assert(xb >= -952);
        assert(e - 58 <= 952);
        let k: nat = (952 - (e - 58)) as nat;
        let c: nat = pow2(k);
        lemma_pow2_pos(k);
        let one: nat = pow2(60);
        assert(m <= one * c) by (nonlinear_arith)
            requires
                m <= one,
                c >= 1,
        ;
        lemma_nearest_scaled(one, k, 952, 53, -1074, INF as nat);
        lemma_nearest_monotone(m, one * c, e - 58, 53, -1074, INF as nat);
        let top: Real = Real { bits: 0x7f30_0000_0000_0000 };
        assert(top.significand() == UNIT as nat);
        assert(top.exponent() == 960);
        lemma_size_code(top);
        lemma_nearest_scaled(UNIT as nat, 8, 960, 53, -1074, INF as nat);
        lemma_nearest_scaled(UNIT as nat, 2034, 960, 53, -1074, INF as nat);
        assert(nearest_double(one, 952) == top.magnitude());
    }
}

/// A number that is not tiny has all its binary digits.
proof fn lemma_full_exponent(b: Real)
    requires
        b.finite(),
        SMALLEST_CELL <= b.magnitude(),
    ensures
        full_exponent(b.significand(), b.exponent()) >= -952,
{
    lemma2_to64_rest();
    lemma_full_significand(b);
    assert(b.exponent() >= -952);
    assert(b.significand() >= UNIT);
    lemma_bit_len_unique(b.significand(), 53);
}

/// Half a whole number of cells, from a number that is close to half of it.
pub proof fn lemma_scaled_ints(u: int, most: int, r: int, k: int, s: int, m: int)
    requires
        u > 0,
        most > 0,
        0x20_0000_0000_0000 * u <= most * u,
        r >= 0,
        k >= 0,
        s > 0,
        m >= 0,
        k * s <= 2 * most,
        0x20_0000_0000_0000 * size_of(2 * r - k * u) <= 6 * r,
        0x20_0000_0000_0000 * size_of(m * u - r * s) <= m * u + 0x20_0000_0000_0000 * u,
    ensures
        0x20_0000_0000_0000 * size_of(2 * m - k * s) <= 11 * most,
        m <= 2 * most,
{
    let p: int = 0x20_0000_0000_0000;
    let mu: int = m * u;
    let rs: int = r * s;
    let ksu: int = (k * s) * u;
    let mo: int = most * u;
    assert(ksu <= 2 * mo) by (nonlinear_arith)
        requires
            ksu == (k * s) * u,
            k * s <= 2 * most,
            mo == most * u,
            u > 0,
    ;
    assert(ksu >= 0 && rs >= 0 && mu >= 0 && mo > 0) by (nonlinear_arith)
        requires
            ksu == (k * s) * u,
            rs == r * s,
            mu == m * u,
            mo == most * u,
            u > 0,
            s > 0,
            k >= 0,
            r >= 0,
            m >= 0,
            most > 0,
    ;
    let d: int = 2 * r - k * u;
    assert(p * (d * s) <= 6 * rs && -(6 * rs) <= p * (d * s)) by (nonlinear_arith)
        requires
            rs == r * s,
            p * d <= 6 * r,
            -(6 * r) <= p * d,
            s > 0,
    ;
    assert(d * s == 2 * rs - ksu) by (nonlinear_arith)
        requires
            d == 2 * r - k * u,
            rs == r * s,
            ksu == (k * s) * u,
    ;
    assert(p * size_of(2 * mu - ksu) <= 11 * mo);
    let g: int = 2 * m - k * s;
    assert(g * u == 2 * mu - ksu) by (nonlinear_arith)
        requires
            g == 2 * m - k * s,
            mu == m * u,
            ksu == (k * s) * u,
    ;
    assert(p * g <= 11 * most && -(11 * most) <= p * g) by (nonlinear_arith)
        requires
            p * (g * u) <= 11 * mo,
            -(11 * mo) <= p * (g * u),
            mo == most * u,
            u > 0,
    ;
}

/// A multiple of the size of a cell, in halves, is computed up to a sliver.
pub proof fn lemma_scaled(r: Real, k: int, cell: Real, most: int)
    requires
        bounding(most),
        r.finite(),
        !r.negative(),
        r.magnitude() <= 0x4400_0000_0000_0000,
        k >= 0,
        cell.finite(),
        !cell.negative(),
        SMALLEST_CELL <= cell.magnitude(),
        modest(cell),
        k * cell.value() <= 2 * most,
        0x20_0000_0000_0000 * size_of(2 * r.value() - k * cell_unit()) <= 6 * r.value(),
    ensures
        ({
            let m: Real = r.mul(cell);
            &&& m.finite()
            &&& 0 <= m.value() <= 2 * most
            &&& 0x20_0000_0000_0000 * size_of(2 * m.value() - k * cell.value()) <= 11 * most
        }),
{
    let m: Real = r.mul(cell);
    lemma_cell_is_positive(cell);
    lemma_close_product(r, cell);
    assert(!m.negative()) by {
        reveal(Real::spec_mul);
    }
    lemma_unit_is_nothing(most);
    lemma_large_unit();
    lemma_scaled_ints(cell_unit(), most, r.value(), k, cell.value(), m.value());
}

/// A cell of a grid within a bound is within the bound.
pub proof fn lemma_cell_is_modest(origin: Real, cell: Real, cells: int, most: int)
    requires
        laid_out(origin, cell, cells, most),
        cells > 0,
    ensures
        modest(cell),
        0 < cell.value() <= most,
        reaches(cell, most),
{
    lemma_cell_is_positive(cell);
    let s: int = cell.value();
    assert(s <= cells * s) by (nonlinear_arith)
        requires
            cells >= 1,
            s > 0,
    ;
    lemma_modest(cell, most);
}

/// The origin of a grid plus a multiple of the size of a cell, in halves.
proof fn lemma_offset(origin: Real, m: Real, ks: int, most: int)
    requires
        bounding(most),
        reaches(origin, most),
        m.finite(),
        0 <= m.value() <= 2 * most,
        0 <= ks <= 2 * most,
        0x20_0000_0000_0000 * size_of(2 * m.value() - ks) <= 11 * most,
    ensures
        ({
            let c: Real = origin.add(m);
            &&& c.finite()
            &&& 0x20_0000_0000_0000 * size_of(2 * c.value() - (2 * origin.value() + ks)) <= 16 * most
            &&& reaches(c, 3 * most)
        }),
{
    lemma_modest(origin, most);
    lemma_modest(m, most);
    lemma_unit_is_nothing(most);
    lemma_close_sum(origin, m);
    let t: int = origin.value() + m.value();
    let c: int = origin.add(m).value();
    assert(m.value() <= most + most / 1024);
    assert(size_of(t) <= 2 * most + most / 1024);
    assert(size_of(c - t) <= most / 1024);
    assert(size_of(2 * c - (2 * origin.value() + ks)) <= 2 * size_of(c - t) + size_of(
        2 * m.value() - ks,
    ));
}

/// The computed edge of a column (or row) is its edge, up to a sliver.
pub proof fn lemma_edge(origin: Real, cell: Real, cells: int, n: usize, most: int)
    requires
        laid_out(origin, cell, cells, most),
        n <= cells,
        cells > 0,
    ensures
        ({
            let c: Real = origin.add(Real::from_count(n as u64).mul(cell));
            &&& c.finite()
            &&& 0x20_0000_0000_0000 * size_of(c.value() - edge(origin, cell, n as int)) <= 8 * most
            &&& reaches(c, 3 * most)
        }),
{
    let r: Real = Real::from_count(n as u64);
    let k: int = 2 * n;
    let s: int = cell.value();
    let u: int = cell_unit();
    lemma_cell_is_modest(origin, cell, cells, most);
    lemma2_to64_rest();
    lemma_count(n as u64);
    lemma_count_below(n as u64);
    lemma_step_lengths();
    let nu: int = n * u;
    assert(k * u == 2 * nu) by (nonlinear_arith)
        requires
            k == 2 * n,
            nu == n * u,
    ;
    assert(0 <= k * s <= 2 * (cells * s)) by (nonlinear_arith)
        requires
            k == 2 * n,
            0 <= n <= cells,
            s > 0,
    ;
    assert(k * s == 2 * (n * s)) by (nonlinear_arith)
        requires
            k == 2 * n,
    ;
    lemma_scaled(r, k, cell, most);
    lemma_offset(origin, r.mul(cell), k * s, most);
}

/// The computed middle of a column (or row) is its middle, up to a sliver.
pub proof fn lemma_middle(origin: Real, cell: Real, cells: int, n: usize, most: int)
    requires
        laid_out(origin, cell, cells, most),
        n < cells,
    ensures
        ({
            let c: Real = cell_middle(n, origin, cell);
            &&& c.finite()
            &&& 0x20_0000_0000_0000 * size_of(
                2 * c.value() - doubled_middle(origin, cell, n as int),
            ) <= 16 * most
            &&& reaches(c, 3 * most)
        }),
{
    let count: Real = Real::from_count(n as u64);
    let half: Real = Real::of(HALF);
    let r: Real = count.add(half);
    let k: int = 2 * n + 1;
    let s: int = cell.value();
    let u: int = cell_unit();
    lemma_cell_is_modest(origin, cell, cells, most);
    lemma2_to64_rest();
    lemma_count(n as u64);
    lemma_count_below(n as u64);
    lemma_step_lengths();
    lemma_half();
    lemma_close_sum(count, half);
    lemma_middle_count(count);
    let nu: int = n * u;
    assert(k * u == 2 * nu + u) by (nonlinear_arith)
        requires
            k == 2 * n + 1,
            nu == n * u,
    ;
    assert(0 <= k * s <= 2 * (cells * s)) by (nonlinear_arith)
        requires
            k == 2 * n + 1,
            0 <= n < cells,
            s > 0,
    ;
    lemma_scaled(r, k, cell, most);
    lemma_offset(origin, r.mul(cell), k * s, most);
}

pub proof fn lemma_half()
    ensures
        Real::of(HALF).finite(),
        2 * Real::of(HALF).value() == cell_unit(),
{
    lemma2_to64();
    lemma2_to64_rest();
    let half: Real = Real::of(HALF);
    assert(half.significand() == UNIT as nat && half.exponent() == -53);
    lemma_pow2_adds(52, 1021);
    lemma_pow2_unfold(1074);
}

proof fn lemma_middle_count(count: Real)
    requires
        !count.negative(),
        count.magnitude() <= 0x43f0_0000_0000_0000,
    ensures
        ({
            let r: Real = count.add(Real::of(HALF));
            r.finite() && !r.negative() && r.magnitude() <= 0x4400_0000_0000_0000
        }),
{
    let half: Real = Real::of(HALF);
    let most: Real = Real { bits: 0x43f0_0000_0000_0000 };
    let top: Real = Real { bits: 0x4400_0000_0000_0000 };
    reveal(Real::spec_add);
    lemma_value_order(count, most);
    lemma_value_order(half, most);
    lemma2_to64();
    lemma2_to64_rest();
    assert(most.significand() == UNIT as nat && most.exponent() == 12);
    assert(top.significand() == UNIT as nat && top.exponent() == 13);
    lemma_pow2_unfold(1087);
    let c: nat = pow2(1086);
    let d: nat = pow2(1087);
    assert(UNIT as nat * d == 2 * (UNIT as nat * c)) by (nonlinear_arith)
        requires
            d == 2 * c,
    ;
    lemma_sum_monotone(count.value() + half.value(), top.value(), false, false);
    lemma_value_rank(top, false);
    lemma_sum_monotone(0, count.value() + half.value(), false, false);
}

/// A quotient of at least a whole number.
proof fn lemma_quotient_reaches(u: int, most: int, g: int, a: int, d: int, l: int, n: int)
    requires
        u >= 0x20_0000_0000_0000,
        most > 0,
        n >= 1,
        l > 0,
        a >= 0,
        n * l <= most,
        size_of(g) <= 6 * most,
        0x20_0000_0000_0000 * size_of(a - g) <= size_of(g),
        n * u <= d,
        0x1f_ffff_ffff_ffff * (d * l) <= 0x20_0000_0000_0001 * (a * u) + 0x20_0000_0000_0000 * l,
    ensures
        0x20_0000_0000_0000 * (n * l - g) <= 16 * most,
{
    let nl: int = n * l;
    assert(nl >= l) by (nonlinear_arith)
        requires
            nl == n * l,
            n >= 1,
            l > 0,
    ;
    assert(nl * u <= d * l) by (nonlinear_arith)
        requires
            nl == n * l,
            n * u <= d,
            l > 0,
    ;
    let lu: int = l * u;
    assert(0x20_0000_0000_0000 * l <= lu) by (nonlinear_arith)
        requires
            lu == l * u,
            u >= 0x20_0000_0000_0000,
            l > 0,
    ;
    assert(0x1f_ffff_ffff_ffff * nl <= 0x20_0000_0000_0001 * a + l) by (nonlinear_arith)
        requires
            0x1f_ffff_ffff_ffff * (nl * u) <= 0x20_0000_0000_0001 * (a * u) + lu,
            lu == l * u,
            u > 0,
    ;
}

/// A quotient of less than a whole number.
proof fn lemma_quotient_falls_short(u: int, most: int, g: int, a: int, d: int, l: int, n: int)
    requires
        u >= 0x20_0000_0000_0000,
        most > 0,
        n >= 1,
        l > 0,
        a >= 0,
        n * l <= most,
        size_of(g) <= 6 * most,
        0x20_0000_0000_0000 * size_of(a - g) <= size_of(g),
        d <= n * u,
        0x1f_ffff_ffff_ffff * (a * u) <= 0x20_0000_0000_0001 * (d * l) + 0x20_0000_0000_0000 * l,
    ensures
        0x20_0000_0000_0000 * (g - n * l) <= 16 * most,
{
    let nl: int = n * l;
    assert(nl >= l) by (nonlinear_arith)
        requires
            nl == n * l,
            n >= 1,
            l > 0,
    ;
    assert(d * l <= nl * u) by (nonlinear_arith)
        requires
            nl == n * l,
            d <= n * u,
            l > 0,
    ;
    let lu: int = l * u;
    assert(0x20_0000_0000_0000 * l <= lu) by (nonlinear_arith)
        requires
            lu == l * u,
            u >= 0x20_0000_0000_0000,
            l > 0,
    ;
    assert(0x1f_ffff_ffff_ffff * a <= 0x20_0000_0000_0001 * nl + l) by (nonlinear_arith)
        requires
            0x1f_ffff_ffff_ffff * (a * u) <= 0x20_0000_0000_0001 * (nl * u) + lu,
            lu == l * u,
            u > 0,
    ;
}

/// The number of the column (or row) that a coordinate falls into tells which edges
/// it lies beyond, up to a sliver.
pub proof fn lemma_cell_coordinate(
    c: Real,
    origin: Real,
    cell: Real,
    cells: int,
    n: int,
    most: int,
)
    requires
        laid_out(origin, cell, cells, most),
        reaches(c, 5 * most),
        0 <= n <= cells,
        cells > 0,
        n <= isize::MAX,
    ensures
        n <= cell_coordinate(c, origin, cell) ==> 0x20_0000_0000_0000 * (edge(origin, cell, n)
            - c.value()) <= 16 * most,
        cell_coordinate(c, origin, cell) < n ==> 0x20_0000_0000_0000 * (c.value() - edge(
            origin,
            cell,
            n,
        )) <= 16 * most,
{
    let a: Real = c.sub(origin);
    let q: Real = a.div(cell);
    let g: int = c.value() - origin.value();
    let u: int = cell_unit();
    let l: int = cell.value();
    lemma_cell_is_modest(origin, cell, cells, most);
    lemma_modest(c, most);
    lemma_modest(origin, most);
    lemma_close_difference(c, origin);
    lemma_modest(a, most);
    lemma_quotient_is_finite(a, cell);
    lemma_large_unit();
    lemma2_to64_rest();
    assert(n * l <= cells * l) by (nonlinear_arith)
        requires
            n <= cells,
            l > 0,
    ;
    assert(n == 0 ==> n * l == 0) by (nonlinear_arith);
    if a.magnitude() == 0 {
        lemma_size_of_zero(a);
        assert(q.magnitude() == 0) by {
            reveal(Real::spec_div);
        }
        lemma_size_of_zero(q);
        lemma_floor(q.value(), u, n);
        if n > 0 {
            assert(n * l > 0) by (nonlinear_arith)
                requires
                    n > 0,
                    l > 0,
            ;
        }
    } else {
        assert(q.magnitude() > 0 ==> q.negative() == a.negative()) by {
            reveal(Real::spec_div);
        }
        lemma_sign(a);
        if q.magnitude() == 0 {
            lemma_size_of_zero(q);
        } else {
            lemma_sign(q);
        }
        lemma_floor(q.value(), u, n);
        if a.negative() {
            assert(n * l >= 0) by (nonlinear_arith)
                requires
                    n >= 0,
                    l > 0,
            ;
            if q.value() == 0 {
                lemma_quotient_error_below(a, cell);
                lemma_quotient_vanishes(u, most, g, a.size() as int, l);
            }
        } else if n > 0 {
            if q.value() >= n * u {
                lemma_quotient_error(a, cell);
                lemma_quotient_reaches(u, most, g, a.value(), q.value(), l, n);
            } else {
                lemma_quotient_error_below(a, cell);
                lemma_quotient_falls_short(u, most, g, a.value(), q.value(), l, n);
            }
        }
    }
}

proof fn lemma_quotient_vanishes(u: int, most: int, g: int, x: int, l: int)
    requires
        u >= 0x100_0000_0000_0000,
        0 < l <= most,
        x >= 0,
        g < 0,
        0x20_0000_0000_0000 * size_of(-x - g) <= size_of(g),
        0x1f_ffff_ffff_ffff * (x * u) <= 0x20_0000_0000_0001 * (0 * l) + 0x20_0000_0000_0000 * l,
    ensures
        0x20_0000_0000_0000 * (-g) <= 16 * most,
{
    let lu: int = l * u;
    assert(0x20_0000_0000_0000 * l <= lu) by (nonlinear_arith)
        requires
            lu == l * u,
            u >= 0x20_0000_0000_0000,
            l > 0,
    ;
    assert(0x1f_ffff_ffff_ffff * x <= l) by (nonlinear_arith)
        requires
            0x1f_ffff_ffff_ffff * (x * u) <= lu,
            lu == l * u,
            u > 0,
    ;
}

/// Which whole numbers a quotient reaches.
proof fn lemma_floor(v: int, u: int, n: int)
    requires
        u > 0,
    ensures
        n <= v / u <==> n * u <= v,
        v < 0 ==> v / u < 0,
        v == 0 ==> v / u == 0,
{
    lemma_fundamental_div_mod(v, u);
    lemma_mod_bound(v, u);
    let f: int = v / u;
    let r: int = v % u;
    if n <= f {
        assert(n * u <= u * f) by (nonlinear_arith)
            requires
                n <= f,
                u > 0,
        ;
    } else {
        assert(u * f + u <= n * u) by (nonlinear_arith)
            requires
                f + 1 <= n,
                u > 0,
        ;
    }
    if v < 0 {
        assert(f < 0) by (nonlinear_arith)
            requires
                u * f + r < 0,
                r >= 0,
                u > 0,
        ;
    }
    if v == 0 {
        assert(f == 0) by (nonlinear_arith)
            requires
                u * f + r == 0,
                0 <= r < u,
                u > 0,
        ;
    }
}

pub proof fn lemma_sign(a: Real)
    requires
        a.finite(),
        a.magnitude() > 0,
    ensures
        a.negative() ==> a.value() < 0,
        !a.negative() ==> a.value() > 0,
{
    let zero: Real = Real { bits: 0 };
    assert(zero.magnitude() == 0);
    lemma_size_of_zero(zero);
    lemma_value_order(a, zero);
    lemma_value_order(zero, a);
}

/// The cell of a grid that a point is said to fall into is the one that it lies in, up to a
/// sliver; a point that is said to fall into none lies outside of the grid.
pub proof fn lemma_point_lies_in_its_cell(
    point: Point,
    origin: Point,
    cell: Real,
    width: usize,
    height: usize,
    most: int,
)
    requires
        laid_out(origin.x, cell, width as int, most),
        laid_out(origin.z, cell, height as int, most),
        0 < width <= isize::MAX,
        0 < height <= isize::MAX,
        reaches(point.x, most),
        reaches(point.z, most),
    ensures
        ({
            let p: int = 0x20_0000_0000_0000;
            match cell_containing(point, origin, cell, width, height) {
                Some((col, row)) => {
                    &&& p * (edge(origin.x, cell, col as int) - point.x.value()) <= 16 * most
                    &&& p * (point.x.value() - edge(origin.x, cell, col + 1)) <= 16 * most
                    &&& p * (edge(origin.z, cell, row as int) - point.z.value()) <= 16 * most
                    &&& p * (point.z.value() - edge(origin.z, cell, row + 1)) <= 16 * most
                },
                None => {
                    ||| p * (point.x.value() - edge(origin.x, cell, 0)) <= 16 * most
                    ||| p * (edge(origin.x, cell, width as int) - point.x.value()) <= 16 * most
                    ||| p * (point.z.value() - edge(origin.z, cell, 0)) <= 16 * most
                    ||| p * (edge(origin.z, cell, height as int) - point.z.value()) <= 16 * most
                },
            }
        }),
{
    lemma_unit_is_nothing(most);
    match cell_containing(point, origin, cell, width, height) {
        Some((col, row)) => {
            lemma_cell_coordinate(point.x, origin.x, cell, width as int, col as int, most);
            lemma_cell_coordinate(point.x, origin.x, cell, width as int, col + 1, most);
            lemma_cell_coordinate(point.z, origin.z, cell, height as int, row as int, most);
            lemma_cell_coordinate(point.z, origin.z, cell, height as int, row + 1, most);
        },
        None => {
            lemma_cell_coordinate(point.x, origin.x, cell, width as int, 0, most);
            lemma_cell_coordinate(point.x, origin.x, cell, width as int, width as int, most);
            lemma_cell_coordinate(point.z, origin.z, cell, height as int, 0, most);
            lemma_cell_coordinate(point.z, origin.z, cell, height as int, height as int, most);
        },
    }
}

/// The middle of a cell falls into the cell, as long as a cell is larger than rounding.
pub proof fn lemma_middle_falls_into_its_cell(
    origin: Real,
    cell: Real,
    cells: usize,
    n: usize,
    most: int,
)
    requires
        laid_out(origin, cell, cells as int, most),
        n < cells <= isize::MAX,
        64 * most < 0x20_0000_0000_0000 * cell.value(),
    ensures
        cell_coordinate(cell_middle(n, origin, cell), origin, cell) == n,
{
    let c: Real = cell_middle(n, origin, cell);
    let s: int = cell.value();
    lemma_unit_is_nothing(most);
    lemma_middle(origin, cell, cells as int, n, most);
    lemma_cell_coordinate(c, origin, cell, cells as int, n as int, most);
    lemma_cell_coordinate(c, origin, cell, cells as int, n + 1, most);
    assert((n + 1) * s == n * s + s) by (nonlinear_arith);
    assert((2 * n + 1) * s == 2 * (n * s) + s) by (nonlinear_arith);
}

} // verus!
