//! What a step of a corridor costs: its length, more of it where cells are blocked, and
//! what threats and failed plans charge; and what a step of a local path costs.
use vstd::arithmetic::power2::*;
use vstd::prelude::*;

use crate::coarse::CoarseView;
use crate::config::{NavConfig, NavShared, Threat};
use crate::corridor::{coarse_step, entry, looms, spec_stride, toll, THREAT_TOLL};
use crate::crossing::{cell_unit, lemma_large_unit};
use crate::geometry::{Point, ONE, SQRT_2, ZERO};
use crate::nearness::{
    bounding, lemma_close_product, lemma_close_sum, lemma_modest, lemma_mul_bound,
    lemma_size_scales, lemma_unit_is_nothing, modest, reaches, size_of,
};
use crate::number::Real;
use crate::shortest::lemma_step_lengths;
use crate::unit::lemma_size_of_zero;
use crate::vista::{lemma_modest_wide, lemma_single_close, lemma_single_product_close};
use crate::walk::WalkView;
use crate::window::{shadowed, window_step, Window, SOFT_COST};

verus! {

/// A sum in single precision of numbers that are not huge.
proof fn lemma_single_sum_close(x: Real, y: Real, most: int)
    requires
        bounding(most),
        modest(x),
        modest(y),
        size_of(x.value()) + size_of(y.value()) <= 0x380 * most,
    ensures
        ({
            let r: Real = x.single_sum(y);
            &&& r.finite()
            &&& 0x100_0000 * size_of(r.value() - (x.value() + y.value())) <= 0x400 * most
        }),
{
    let s: Real = x.add(y);
    lemma_large_unit();
    lemma_close_sum(x, y);
    lemma_modest_wide(s, most);
    lemma_single_close(s, most);
}

/// How much a step onto a cell weighs, in squares of a unit: one, and more by the share of
/// its cells that is blocked.
pub open spec fn weight_of(config: NavConfig, share: Real) -> int {
    cell_unit() * cell_unit() + config.density_cost.value() * share.value()
}

proof fn lemma_weight_ints(u: int, dc: int, d: int, s: int, t: int, w: int)
    requires
        u > 0,
        0 <= dc <= 128 * u,
        0 <= s <= u,
        0x100_0000 * size_of(d - dc) <= dc + u,
        0x100_0000 * size_of(t * u - d * s) <= 0x400 * (u * u),
        0x100_0000 * size_of(w - (u + t)) <= 0x400 * u,
    ensures
        0x100_0000 * size_of(w * u - (u * u + dc * s)) <= 0x900 * (u * u),
        -u <= w <= 140 * u,
{
    let q: int = 0x100_0000;
    let uu: int = u * u;
    let e: int = q * (d - dc);
    assert(size_of(e) <= 129 * u);
    lemma_mul_bound(e, s, 129 * u, u);
    assert((129 * u) * u == 129 * uu) by (nonlinear_arith)
        requires
            uu == u * u,
    ;
    assert(e * s == q * (d * s - dc * s)) by (nonlinear_arith)
        requires
            e == q * (d - dc),
    ;
    assert(0 <= dc * s <= 128 * uu) by (nonlinear_arith)
        requires
            0 <= dc <= 128 * u,
            0 <= s <= u,
            uu == u * u,
            u > 0,
    ;
    let f: int = w - (u + t);
    assert(f * u == w * u - uu - t * u) by (nonlinear_arith)
        requires
            f == w - (u + t),
            uu == u * u,
    ;
    lemma_size_scales(f, u);
    let g: int = size_of(f);
    assert(q * (g * u) <= 0x400 * uu) by (nonlinear_arith)
        requires
            q * g <= 0x400 * u,
            uu == u * u,
            u > 0,
    ;
    assert(uu > 0) by (nonlinear_arith)
        requires
            uu == u * u,
            u > 0,
    ;
    assert(w * u <= 140 * uu && -uu <= w * u);
    assert(w <= 140 * u) by (nonlinear_arith)
        requires
            w * u <= 140 * uu,
            uu == u * u,
            u > 0,
    ;
    assert(-u <= w) by (nonlinear_arith)
        requires
            -uu <= w * u,
            uu == u * u,
            u > 0,
    ;
}

/// The weight of a step, as it is computed.
proof fn lemma_weight(config: NavConfig, share: Real)
    requires
        reaches(config.density_cost, 128 * cell_unit()),
        config.density_cost.value() >= 0,
        reaches(share, cell_unit()),
        share.value() >= 0,
    ensures
        ({
            let w: Real = Real::of(ONE).single_sum(
                config.density_cost.to_single().single_product(share),
            );
            let u: int = cell_unit();
            &&& w.finite()
            &&& -u <= w.value() <= 140 * u
            &&& 0x100_0000 * size_of(w.value() * u - weight_of(config, share)) <= 0x900 * (u * u)
        }),
{
    let u: int = cell_unit();
    let dc: Real = config.density_cost;
    let d: Real = dc.to_single();
    let t: Real = d.single_product(share);
    let one: Real = Real::of(ONE);
    let uu: int = u * u;
    lemma_large_unit();
    lemma_unit_bounds();
    lemma_step_lengths();
    lemma_modest_wide(dc, u);
    lemma_single_close(dc, u);
    lemma_modest_wide(d, u);
    lemma_modest(share, u);
    lemma_mul_bound(d.value(), share.value(), 130 * u, u);
    assert((130 * u) * u == 130 * uu) by (nonlinear_arith)
        requires
            uu == u * u,
    ;
    assert(uu > 0) by (nonlinear_arith)
        requires
            uu == u * u,
            u > 0,
    ;
    lemma_single_product_close(d, share, u);
    lemma_size_scales(t.value(), u);
    assert(size_of(t.value()) <= 140 * u) by (nonlinear_arith)
        requires
            size_of(t.value()) * u <= 140 * uu,
            uu == u * u,
            u > 0,
    ;
    lemma_modest_wide(t, u);
    assert(modest(one));
    assert(one.value() == u);
    lemma_single_sum_close(one, t, u);
    let w: Real = one.single_sum(t);
    lemma_weight_ints(u, dc.value(), d.value(), share.value(), t.value(), w.value());
}

proof fn lemma_unit_bounds()
    ensures
        bounding(cell_unit()),
{
    lemma_pow2_strictly_increases(1074, 1174);
}

/// The length of a step in cells, one or the root of two, and its length.
proof fn lemma_length(diagonal: bool, cell: Real, most: int)
    requires
        bounding(most),
        reaches(cell, most),
        cell.value() >= 0,
    ensures
        ({
            let b: Real = spec_stride(diagonal).mul(cell).to_single();
            let u: int = cell_unit();
            let len: int = spec_stride(diagonal).value();
            &&& u <= len <= 2 * u
            &&& b.finite()
            &&& -most <= b.value() <= 3 * most
            &&& size_of(len * cell.value()) <= 2 * (most * u)
            &&& 0x100_0000 * size_of(b.value() * u - len * cell.value()) <= 8 * (most * u)
        }),
{
    let stride: Real = spec_stride(diagonal);
    let len: int = stride.value();
    let u: int = cell_unit();
    let c: Real = stride.mul(cell);
    let b: Real = c.to_single();
    let mu: int = most * u;
    lemma_large_unit();
    lemma_unit_is_nothing(most);
    lemma_step_lengths();
    lemma_modest(cell, most);
    assert(modest(stride));
    assert(u <= len <= 2 * u);
    lemma_close_product(stride, cell);
    let lc: int = len * cell.value();
    assert(0 <= lc <= 2 * mu && mu > 0) by (nonlinear_arith)
        requires
            lc == len * cell.value(),
            0 <= cell.value() <= most,
            0 < len <= 2 * u,
            mu == most * u,
            most > 0,
            u > 0,
    ;
    lemma_size_scales(c.value(), u);
    let n: int = size_of(c.value());
    assert(n * u <= 3 * mu);
    assert(n <= 3 * most) by (nonlinear_arith)
        requires
            n * u <= 3 * mu,
            mu == most * u,
            u > 0,
    ;
    lemma_modest(c, most);
    lemma_single_close(c, most);
    let e: int = b.value() - c.value();
    assert(e * u == b.value() * u - c.value() * u) by (nonlinear_arith)
        requires
            e == b.value() - c.value(),
    ;
    lemma_size_scales(e, u);
    let g: int = size_of(e);
    assert(0x100_0000 * (g * u) <= 4 * mu) by (nonlinear_arith)
        requires
            0x100_0000 * g <= 4 * most,
            mu == most * u,
            u > 0,
    ;
    let bu: int = b.value() * u;
    assert(-mu <= bu <= 3 * mu);
    assert(b.value() <= 3 * most && -most <= b.value()) by (nonlinear_arith)
        requires
            bu == b.value() * u,
            -mu <= bu <= 3 * mu,
            mu == most * u,
            u > 0,
    ;
}

proof fn lemma_plain_ints(u: int, most: int, lc: int, b: int, wt: int, w: int, c: int)
    requires
        u > 0,
        most > 0,
        size_of(lc) <= 2 * (most * u),
        0x100_0000 * size_of(b * u - lc) <= 8 * (most * u),
        -u <= w <= 140 * u,
        0x100_0000 * size_of(w * u - wt) <= 0x900 * (u * u),
        0x100_0000 * size_of(c * u - b * w) <= 0x400 * (most * u),
    ensures
        0x100_0000 * size_of(c * (u * u * u) - lc * wt) <= 0x2000 * (most * (u * u * u)),
{
    let q: int = 0x100_0000;
    let uu: int = u * u;
    let uuu: int = uu * u;
    let mu: int = most * u;
    let big: int = most * uuu;
    assert(mu * uu == big && mu > 0 && uu > 0) by (nonlinear_arith)
        requires
            mu == most * u,
            uuu == uu * u,
            big == most * uuu,
            uu == u * u,
            u > 0,
            most > 0,
    ;
    let bu: int = b * u;
    let wu: int = w * u;
    assert(-uu <= wu <= 140 * uu) by (nonlinear_arith)
        requires
            wu == w * u,
            -u <= w <= 140 * u,
            uu == u * u,
            u > 0,
    ;
    let e: int = q * (bu - lc);
    let f: int = q * (wu - wt);
    lemma_mul_bound(e, wu, 8 * mu, 140 * uu);
    lemma_mul_bound(lc, f, 2 * mu, 0x900 * uu);
    assert((8 * mu) * (140 * uu) == 1120 * (mu * uu)) by (nonlinear_arith);
    assert((2 * mu) * (0x900 * uu) == 0x1200 * (mu * uu)) by (nonlinear_arith);
    assert(e * wu == q * (bu * wu - lc * wu)) by (nonlinear_arith)
        requires
            e == q * (bu - lc),
    ;
    assert(lc * f == q * (lc * wu - lc * wt)) by (nonlinear_arith)
        requires
            f == q * (wu - wt),
    ;
    let bw: int = b * w;
    let g: int = c * u - bw;
    assert(bu * wu == bw * uu) by (nonlinear_arith)
        requires
            bu == b * u,
            wu == w * u,
            bw == b * w,
            uu == u * u,
    ;
    assert(g * uu == c * uuu - bw * uu) by (nonlinear_arith)
        requires
            g == c * u - bw,
            uuu == uu * u,
    ;
    lemma_size_scales(g, uu);
    let h: int = size_of(g);
    assert(q * (h * uu) <= 0x400 * (mu * uu)) by (nonlinear_arith)
        requires
            q * h <= 0x400 * mu,
            uu > 0,
    ;
}

/// Number of the first threats that make a cell cost extra.
pub open spec fn looming(
    coarse: &CoarseView,
    config: NavConfig,
    threats: Seq<Threat>,
    n: int,
    col: int,
    row: int,
) -> int
    decreases n,
{
    if n <= 0 {
        0
    } else {
        looming(coarse, config, threats, n - 1, col, row) + (if looms(
            coarse,
            config,
            threats[n - 1],
            col,
            row,
        ) {
            1int
        } else {
            0
        })
    }
}

/// What there is to be paid, or nothing.
pub open spec fn amount(charge: Option<Real>) -> int {
    match charge {
        Some(extra) => extra.value(),
        None => 0,
    }
}

/// The toll of one threat.
proof fn lemma_one_toll(cell: Real, most: int)
    requires
        bounding(most),
        reaches(cell, most),
        cell.value() >= 0,
    ensures
        ({
            let t: Real = Real::of(THREAT_TOLL).mul(cell).to_single();
            &&& t.finite()
            &&& -most <= t.value() <= 11 * most
            &&& 0x100_0000 * size_of(t.value() - 10 * cell.value()) <= 16 * most
        }),
{
    let ten: Real = Real::of(THREAT_TOLL);
    let c: Real = ten.mul(cell);
    let u: int = cell_unit();
    lemma2_to64();
    lemma2_to64_rest();
    lemma_large_unit();
    lemma_unit_is_nothing(most);
    assert(ten.significand() == 0x14_0000_0000_0000 && ten.exponent() == -49);
    lemma_pow2_adds(49, 1025);
    let a: int = pow2(1025) as int;
    assert(u == 0x2_0000_0000_0000 * a);
    assert(ten.value() == 0x14_0000_0000_0000 * a);
    lemma_modest(cell, most);
    lemma_close_product(ten, cell);
    let v: int = cell.value();
    assert(ten.value() * v == 10 * (v * u)) by (nonlinear_arith)
        requires
            ten.value() == 10 * u,
    ;
    let e: int = c.value() - 10 * v;
    assert(e * u == c.value() * u - 10 * (v * u)) by (nonlinear_arith)
        requires
            e == c.value() - 10 * v,
    ;
    lemma_size_scales(e, u);
    let g: int = size_of(e);
    let n: int = size_of(c.value());
    assert(0x20_0000_0000_0000 * g <= n + 0x20_0000_0000_0000) by (nonlinear_arith)
        requires
            0x20_0000_0000_0000 * (g * u) <= n * u + 0x20_0000_0000_0000 * u,
            u > 0,
    ;
    lemma_modest_wide(c, most);
    lemma_single_close(c, most);
}

/// Every threat that looms over a cell charges ten cells for it, up to rounding.
proof fn lemma_toll(
    coarse: &CoarseView,
    config: NavConfig,
    threats: Seq<Threat>,
    n: int,
    col: int,
    row: int,
    most: int,
)
    requires
        bounding(most),
        reaches(coarse.cell_size, most),
        coarse.cell_size.value() >= 0,
        0 <= n <= 16,
    ensures
        ({
            let t: Option<Real> = toll(coarse, config, threats, n, col, row);
            let k: int = looming(coarse, config, threats, n, col, row);
            &&& 0 <= k <= n
            &&& t is Some <==> k > 0
            &&& t is Some ==> t->0.finite()
            &&& 0x100_0000 * size_of(amount(t) - 10 * (k * coarse.cell_size.value())) <= 0x800 * (n
                * most)
        }),
    decreases n,
{
    lemma_large_unit();
    if n > 0 {
        lemma_toll(coarse, config, threats, n - 1, col, row, most);
        let v: int = coarse.cell_size.value();
        let rest: Option<Real> = toll(coarse, config, threats, n - 1, col, row);
        let k: int = looming(coarse, config, threats, n - 1, col, row);
        let m: int = n - 1;
        assert(n * most == m * most + most) by (nonlinear_arith)
            requires
                n == m + 1,
        ;
        assert(0 <= m * most <= 16 * most) by (nonlinear_arith)
            requires
                0 <= m <= 16,
                most > 0,
        ;
        assert((k + 1) * v == k * v + v) by (nonlinear_arith);
        assert(0 <= k * v <= 16 * most) by (nonlinear_arith)
            requires
                0 <= k <= 16,
                0 <= v <= most,
        ;
        if looms(coarse, config, threats[n - 1], col, row) {
            let before: Real = rest.unwrap_or(Real::of(ZERO));
            let one: Real = Real::of(THREAT_TOLL).mul(coarse.cell_size).to_single();
            assert(Real::of(ZERO).magnitude() == 0);
            lemma_size_of_zero(Real::of(ZERO));
            lemma_one_toll(coarse.cell_size, most);
            assert(before.finite());
            assert(before.value() == amount(rest));
            lemma_modest_wide(before, most);
            lemma_modest_wide(one, most);
            lemma_single_sum_close(before, one, most);
        }
    }
}

/// What a step of a corridor is to cost, in cubes of a unit: its length times the weight of
/// its cell, ten cells for every threat that looms over it, and what failed plans have
/// charged for it.
pub open spec fn fare(
    shared: &NavShared,
    threats: Seq<Threat>,
    penalties: Map<int, Real>,
    to: int,
    len: int,
) -> int {
    let cell: int = shared.coarse.cell_size.value();
    let width: int = shared.coarse.width as int;
    let u: int = cell_unit();
    let k: int = looming(
        &shared.coarse,
        shared.config,
        threats,
        threats.len() as int,
        to % width,
        to / width,
    );
    (len * cell) * weight_of(shared.config, shared.coarse.density@[to]) + (10 * (k * cell) + amount(
        entry(penalties, to),
    )) * (u * u * u)
}

/// A step of a corridor costs its fare, up to `2^15` parts in `2^24` of a bound. A straight
/// step is one cell long, a diagonal one as much longer as the root of two says.
pub proof fn lemma_step_costs_its_fare(
    shared: &NavShared,
    threats: Seq<Threat>,
    penalties: Map<int, Real>,
    to: int,
    diagonal: bool,
    most: int,
)
    requires
        bounding(most),
        reaches(shared.coarse.cell_size, most),
        shared.coarse.cell_size.value() >= 0,
        reaches(shared.config.density_cost, 128 * cell_unit()),
        shared.config.density_cost.value() >= 0,
        reaches(shared.coarse.density@[to], cell_unit()),
        shared.coarse.density@[to].value() >= 0,
        threats.len() <= 16,
        entry(penalties, to) matches Some(extra) ==> reaches(extra, 128 * most),
    ensures
        ({
            let cost: Real = coarse_step(shared, threats, penalties, to, diagonal);
            let u: int = cell_unit();
            let len: int = spec_stride(diagonal).value();
            &&& cost.finite()
            &&& 0x100_0000 * size_of(
                cost.value() * (u * u * u) - fare(shared, threats, penalties, to, len),
            ) <= 0x1_0000 * (most * (u * u * u))
            &&& !diagonal ==> len == u
            &&& diagonal ==> 0x20_0000_0000_0000 * size_of(len * len - 2 * (u * u)) <= 16 * (u * u)
        }),
{
    let u: int = cell_unit();
    let coarse: &CoarseView = &shared.coarse;
    let cell: Real = coarse.cell_size;
    let share: Real = coarse.density@[to];
    let len: int = spec_stride(diagonal).value();
    let b: Real = spec_stride(diagonal).mul(cell).to_single();
    let w: Real = Real::of(ONE).single_sum(
        shared.config.density_cost.to_single().single_product(share),
    );
    let c: Real = b.single_product(w);
    lemma_large_unit();
    lemma_root_of_two();
    lemma_step_lengths();
    lemma_length(diagonal, cell, most);
    lemma_weight(shared.config, share);
    lemma_product_cost(b, w, most);
    lemma_plain_ints(
        u,
        most,
        len * cell.value(),
        b.value(),
        weight_of(shared.config, share),
        w.value(),
        c.value(),
    );
    let width: int = coarse.width as int;
    let n: int = threats.len() as int;
    lemma_toll(coarse, shared.config, threats, n, to % width, to / width, most);
    let t: Option<Real> = toll(coarse, shared.config, threats, n, to % width, to / width);
    let k: int = looming(coarse, shared.config, threats, n, to % width, to / width);
    let p: Option<Real> = entry(penalties, to);
    let kv: int = k * cell.value();
    assert(0 <= kv <= 16 * most) by (nonlinear_arith)
        requires
            kv == k * cell.value(),
            0 <= k <= 16,
            0 <= cell.value() <= most,
    ;
    lemma_added_up(c, t, p, kv, n, most);
    let cost: Real = coarse_step(shared, threats, penalties, to, diagonal);
    assert(cost == added_up(c, t, p));
    lemma_total_ints(
        u,
        most,
        c.value(),
        (len * cell.value()) * weight_of(shared.config, share),
        10 * kv + amount(p),
        cost.value(),
    );
}

/// The root of two, squared.
proof fn lemma_root_of_two()
    ensures
        ({
            let len: int = Real::of(SQRT_2).value();
            let u: int = cell_unit();
            0x20_0000_0000_0000 * size_of(len * len - 2 * (u * u)) <= 16 * (u * u)
        }),
{
    let root: Real = Real::of(SQRT_2);
    let len: int = root.value();
    let u: int = cell_unit();
    lemma2_to64();
    lemma2_to64_rest();
    lemma_pow2_adds(52, 1022);
    assert(root.significand() == 0x16a09e667f3bcd && root.exponent() == -52);
    let c: int = pow2(1022) as int;
    let cc: int = c * c;
    assert(u == 0x10_0000_0000_0000 * c);
    assert(len == 0x16a09e667f3bcd * c);
    assert(len * len == 0x200000000000013b3efbf5e2229int * cc) by (nonlinear_arith)
        requires
            len == 0x16a09e667f3bcd * c,
            cc == c * c,
    ;
    assert(u * u == 0x100000000000000000000000000int * cc) by (nonlinear_arith)
        requires
            u == 0x10_0000_0000_0000 * c,
            cc == c * c,
    ;
    assert(cc >= 0) by (nonlinear_arith)
        requires
            cc == c * c,
    ;
}

/// The product of a length and a weight.
proof fn lemma_product_cost(b: Real, w: Real, most: int)
    requires
        bounding(most),
        b.finite(),
        w.finite(),
        -most <= b.value() <= 3 * most,
        -cell_unit() <= w.value() <= 140 * cell_unit(),
    ensures
        ({
            let c: Real = b.single_product(w);
            let u: int = cell_unit();
            &&& c.finite()
            &&& size_of(c.value()) <= 430 * most
            &&& 0x100_0000 * size_of(c.value() * u - b.value() * w.value()) <= 0x400 * (most * u)
        }),
{
    let u: int = cell_unit();
    let c: Real = b.single_product(w);
    let mu: int = most * u;
    lemma_large_unit();
    lemma_unit_bounds();
    lemma_modest(b, most);
    lemma_modest_wide(w, u);
    lemma_mul_bound(b.value(), w.value(), 3 * most, 140 * u);
    assert((3 * most) * (140 * u) == 420 * mu) by (nonlinear_arith)
        requires
            mu == most * u,
    ;
    assert(mu > 0) by (nonlinear_arith)
        requires
            mu == most * u,
            most > 0,
            u > 0,
    ;
    lemma_single_product_close(b, w, most);
    lemma_size_scales(c.value(), u);
    let n: int = size_of(c.value());
    assert(n <= 430 * most) by (nonlinear_arith)
        requires
            n * u <= 430 * mu,
            mu == most * u,
            u > 0,
    ;
}

/// A cost with a toll and a charge added.
spec fn added_up(c: Real, t: Option<Real>, p: Option<Real>) -> Real {
    let charged: Real = match t {
        Some(extra) => c.single_sum(extra),
        None => c,
    };
    match p {
        Some(extra) => charged.single_sum(extra),
        None => charged,
    }
}

proof fn lemma_added_up(c: Real, t: Option<Real>, p: Option<Real>, kv: int, n: int, most: int)
    requires
        bounding(most),
        c.finite(),
        size_of(c.value()) <= 430 * most,
        0 <= n <= 16,
        0 <= kv <= 16 * most,
        t is Some ==> t->0.finite(),
        0x100_0000 * size_of(amount(t) - 10 * kv) <= 0x800 * (n * most),
        p matches Some(extra) ==> reaches(extra, 128 * most),
    ensures
        added_up(c, t, p).finite(),
        0x100_0000 * size_of(added_up(c, t, p).value() - (c.value() + 10 * kv + amount(p)))
            <= 0x9000 * most,
{
    lemma_large_unit();
    assert(n * most <= 16 * most) by (nonlinear_arith)
        requires
            0 <= n <= 16,
            most > 0,
    ;
    assert(size_of(amount(t)) <= 161 * most);
    lemma_modest_wide(c, most);
    let charged: Real = match t {
        Some(extra) => c.single_sum(extra),
        None => c,
    };
    if t is Some {
        lemma_modest_wide(t->0, most);
        lemma_single_sum_close(c, t->0, most);
    }
    lemma_modest_wide(charged, most);
    if p is Some {
        lemma_modest_wide(p->0, most);
        lemma_single_sum_close(charged, p->0, most);
    }
}

proof fn lemma_total_ints(u: int, most: int, c: int, x: int, y: int, a: int)
    requires
        u > 0,
        most > 0,
        0x100_0000 * size_of(c * (u * u * u) - x) <= 0x2000 * (most * (u * u * u)),
        0x100_0000 * size_of(a - (c + y)) <= 0x9000 * most,
    ensures
        0x100_0000 * size_of(a * (u * u * u) - (x + y * (u * u * u))) <= 0x1_0000 * (most * (u * u
            * u)),
{
    let cube: int = u * u * u;
    assert(cube > 0) by (nonlinear_arith)
        requires
            cube == u * u * u,
            u > 0,
    ;
    let e: int = a - (c + y);
    assert(e * cube == a * cube - c * cube - y * cube) by (nonlinear_arith)
        requires
            e == a - (c + y),
    ;
    lemma_size_scales(e, cube);
    let g: int = size_of(e);
    let big: int = most * cube;
    assert(0x100_0000 * (g * cube) <= 0x9000 * big) by (nonlinear_arith)
        requires
            0x100_0000 * g <= 0x9000 * most,
            big == most * cube,
            cube > 0,
    ;
    assert(big > 0) by (nonlinear_arith)
        requires
            big == most * cube,
            most > 0,
            cube > 0,
    ;
}

proof fn lemma_products_are_near(u: int, most: int, a: int, x: int, b: int, y: int, k: int)
    requires
        u > 0,
        most > 0,
        0 <= k <= 16,
        size_of(a) <= k * u,
        size_of(y) <= 2 * most,
        0x100_0000 * size_of(x - a) <= 3 * u,
        0x100_0000 * size_of(b - y) <= 2 * most,
    ensures
        0x100_0000 * size_of(x * b - a * y) <= 64 * (most * u),
        size_of(x * b) <= 64 * (most * u),
{
    let q: int = 0x100_0000;
    let mu: int = most * u;
    assert(mu > 0) by (nonlinear_arith)
        requires
            mu == most * u,
            most > 0,
            u > 0,
    ;
    let e: int = q * (x - a);
    let f: int = q * (b - y);
    assert(k * u <= 16 * u) by (nonlinear_arith)
        requires
            0 <= k <= 16,
            u > 0,
    ;
    lemma_mul_bound(e, b, 3 * u, 3 * most);
    lemma_mul_bound(a, f, 16 * u, 2 * most);
    lemma_mul_bound(a, y, 16 * u, 2 * most);
    assert((3 * u) * (3 * most) == 9 * mu) by (nonlinear_arith)
        requires
            mu == most * u,
    ;
    assert((16 * u) * (2 * most) == 32 * mu) by (nonlinear_arith)
        requires
            mu == most * u,
    ;
    assert(e * b == q * (x * b - a * b)) by (nonlinear_arith)
        requires
            e == q * (x - a),
    ;
    assert(a * f == q * (a * b - a * y)) by (nonlinear_arith)
        requires
            f == q * (b - y),
    ;
}

/// A multiple of a length, in single precision.
proof fn lemma_single_multiple(times: Real, x: Real, cell: Real, k: int, most: int)
    requires
        bounding(most),
        reaches(cell, most),
        modest(x),
        times.finite(),
        0 <= k <= 16,
        size_of(times.value()) <= k * cell_unit(),
        0x100_0000 * size_of(x.value() - times.value()) <= 3 * cell_unit(),
    ensures
        ({
            let r: Real = x.single_product(cell.to_single());
            let u: int = cell_unit();
            &&& r.finite()
            &&& size_of(r.value()) <= 65 * most
            &&& 0x100_0000 * size_of(r.value() * u - times.value() * cell.value()) <= 0x440 * (most
                * u)
        }),
{
    let u: int = cell_unit();
    let mu: int = most * u;
    let c: Real = cell.to_single();
    let r: Real = x.single_product(c);
    lemma_large_unit();
    lemma_modest(cell, most);
    lemma_single_close(cell, most);
    lemma_modest(c, most);
    lemma_products_are_near(u, most, times.value(), x.value(), c.value(), cell.value(), k);
    assert(mu > 0) by (nonlinear_arith)
        requires
            mu == most * u,
            most > 0,
            u > 0,
    ;
    lemma_single_product_close(x, c, most);
    lemma_size_scales(r.value(), u);
    let n: int = size_of(r.value());
    assert(n <= 65 * most) by (nonlinear_arith)
        requires
            n * u <= 65 * mu,
            mu == most * u,
            u > 0,
    ;
}

/// A step of a local path costs its length, and twelve cells more where it leads onto a cell
/// that a disc covers: one that holds the agent or, where such cells may be crossed, any
/// other. This holds up to `2^12` parts in `2^24` of a bound.
pub proof fn lemma_local_step_costs_its_fare(
    sensed: &WalkView,
    nearby: Seq<Threat>,
    position: Point,
    window: Window,
    demote: bool,
    to: int,
    diagonal: bool,
    most: int,
)
    requires
        bounding(most),
        reaches(sensed.cell_size, most),
    ensures
        ({
            let cost: Real = window_step(sensed, nearby, position, window, demote, to, diagonal);
            let u: int = cell_unit();
            let cell: int = sensed.cell_size.value();
            let len: int = spec_stride(diagonal).value();
            let col: int = window.min_col + to % (window.width as int);
            let row: int = window.min_row + to / (window.width as int);
            let held: bool = shadowed(
                sensed,
                nearby,
                nearby.len() as int,
                position,
                true,
                col,
                row,
            );
            let other: bool = shadowed(
                sensed,
                nearby,
                nearby.len() as int,
                position,
                false,
                col,
                row,
            );
            let extra: int = if held || (demote && other) {
                12 * (cell * u)
            } else {
                0
            };
            &&& cost.finite()
            &&& 0x100_0000 * size_of(cost.value() * u - (len * cell + extra)) <= 0x1000 * (most * u)
        }),
{
    let u: int = cell_unit();
    let cell: Real = sensed.cell_size;
    let stride: Real = spec_stride(diagonal);
    let st: Real = stride.to_single();
    let twelve: Real = Real::of(SOFT_COST);
    let mu: int = most * u;
    lemma_large_unit();
    lemma_unit_bounds();
    lemma_step_lengths();
    lemma2_to64();
    lemma2_to64_rest();
    assert(modest(stride));
    assert(u <= stride.value() <= 2 * u);
    lemma_single_close(stride, u);
    lemma_modest(st, u);
    lemma_single_multiple(stride, st, cell, 2, most);
    assert(twelve.significand() == 0x18_0000_0000_0000 && twelve.exponent() == -49);
    lemma_pow2_adds(49, 1025);
    let a: int = pow2(1025) as int;
    assert(u == 0x2_0000_0000_0000 * a);
    assert(twelve.value() == 0x18_0000_0000_0000 * a);
    assert(modest(twelve));
    lemma_single_multiple(twelve, twelve, cell, 12, most);
    let plain: Real = st.single_product(cell.to_single());
    let soft: Real = twelve.single_product(cell.to_single());
    lemma_modest_wide(plain, most);
    lemma_modest_wide(soft, most);
    lemma_single_sum_close(plain, soft, most);
    let sum: Real = plain.single_sum(soft);
    let v: int = cell.value();
    assert(twelve.value() * v == 12 * (v * u)) by (nonlinear_arith)
        requires
            twelve.value() == 12 * u,
    ;
    let e: int = sum.value() - (plain.value() + soft.value());
    assert(e * u == sum.value() * u - plain.value() * u - soft.value() * u) by (nonlinear_arith)
        requires
            e == sum.value() - (plain.value() + soft.value()),
    ;
    lemma_size_scales(e, u);
    let g: int = size_of(e);
    assert(0x100_0000 * (g * u) <= 0x400 * mu) by (nonlinear_arith)
        requires
            0x100_0000 * g <= 0x400 * most,
            mu == most * u,
            u > 0,
    ;
    assert(mu > 0) by (nonlinear_arith)
        requires
            mu == most * u,
            most > 0,
            u > 0,
    ;
}

} // verus!
