//! Corridors and the ways through an agent's window are the cheapest there are,
//! up to rounding.
use vstd::arithmetic::power2::*;
use vstd::prelude::*;

use crate::coarse::{
    block_end, blocked_in, blocked_share, lemma_area_count, lemma_block, CoarseView,
};
use crate::config::{NavConfig, NavShared, Threat};
use crate::conversion::{single_exponent, single_significand};
use crate::corridor::{
    coarse_model, coarse_step, coarse_way, entry, gateway, lemma_gateway_inside, spec_remaining,
    spec_stride, toll, THREAT_TOLL,
};
use crate::frugal::{
    affordable, coherent, lemma_found_way_is_cheapest, lemma_stepwise, route_toll, spendable,
    stepwise,
};
use crate::geometry::{spec_octile, Point, ONE, ZERO};
use crate::least::oblique;
use crate::number::{nearest_single, Real, INF, SINGLE_INF, UNIT};
use crate::ordering::{
    lemma_mul_monotone, lemma_mul_one, lemma_single_add_not_smaller,
    lemma_to_single_idempotent, lemma_to_single_monotone, lemma_value_order, lemma_zero_rank,
};
use crate::refine::{fine_way, lemma_fine_way};
use crate::roots::lemma_quotient_at_most_one;
use crate::rounding::{lemma_nearest_exact, lemma_nearest_scaled};
use crate::search::{
    adjoins, cell_count, col_of, is_route, lemma_cell, lemma_neighbour_inside, lemma_number,
    lemma_place, may_step, neighbour, row_of, Model,
};
use crate::settle::{finish, Phase};
use crate::shortest::{
    extra, gap_between, lemma_count, lemma_count_below, lemma_count_order, lemma_octile_is_span, lemma_span_of_step, lemma_step_lengths, span, span_from,
    step_length, straight,
};
use crate::single::{
    lemma_single_below, lemma_single_error, lemma_single_product_error, lemma_single_stays_plain,
    plain, LARGEST, SMALLEST,
};
use crate::thorough::lemma_settling_decides;
use crate::unit::{is_power, lemma_power_product, lemma_power_sum, lemma_size_of_zero};
use crate::walk::WalkView;
use crate::window::{window_model, window_step, Window, SOFT_COST};

verus! {

/// A size of cells that single precision holds with all its digits, and that is
/// far from its limits: `2^-126` to `2^50`.
pub open spec fn ordinary(size: Real) -> bool {
    &&& !size.nan()
    &&& SMALLEST <= size.rank() <= 0x4310_0000_0000_0000
}

/// A distance between columns or rows is converted without its sign.
proof fn lemma_distance(n: isize)
    ensures
        Real::from_int(n).abs() == Real::from_count(gap_between(n as int, 0) as u64).abs(),
{
    let d: u64 = gap_between(n as int, 0) as u64;
    lemma_count(d);
}

/// The estimate is the length of the shortest way over open cells, up to one
/// part in `2^23`.
proof fn lemma_remaining(t: Model, index: int, goal: (usize, usize), cell: Real)
    requires
        t.valid(),
        0 <= index < cell_count(t),
        goal.0 < t.columns,
        goal.1 < t.rows,
        ordinary(cell),
    ensures
        ({
            let h: Real = spec_remaining(index as usize, t.columns as usize, goal.0, goal.1, cell);
            let exact: int = span_from(t, index, goal) * cell.value();
            let v: int = straight() * h.value();
            &&& plain(h)
            &&& !h.negative()
            &&& h.rank() <= 0x4740_0000_0000_0000
            &&& exact >= 0
            &&& 0x80_0000 * v <= 0x80_0001 * exact
            &&& 0x7f_ffff * exact <= 0x80_0000 * v
        }),
{
    lemma2_to64_rest();
    lemma_step_lengths();
    lemma_cell(t, index);
    lemma_zero_rank(cell);
    let c: isize = (col_of(t, index) - goal.0) as isize;
    let r: isize = (row_of(t, index) - goal.1) as isize;
    let dc: u64 = gap_between(col_of(t, index), goal.0 as int) as u64;
    let dr: u64 = gap_between(row_of(t, index), goal.1 as int) as u64;
    lemma_distance(c);
    lemma_distance(r);
    let o: Real = spec_octile(Real::from_count(dc), Real::from_count(dr));
    assert(o == spec_octile(Real::from_int(c), Real::from_int(r)));
    lemma_octile_is_span(dc, dr);
    let h: Real = spec_remaining(index as usize, t.columns as usize, goal.0, goal.1, cell);
    assert(h == o.mul(cell).to_single());
    let g: int = span(dc as int, dr as int);
    let s: int = cell.value();
    let exact: int = g * s;
    let p: int = 0x20_0000_0000_0000;
    let u: int = straight();
    if dc > 0 || dr > 0 {
        lemma_single_product_error(o, cell);
        let x: int = o.value();
        let hv: int = h.value();
        assert((p - 3) * (x * s) <= p * (g * s)) by (nonlinear_arith)
            requires
                (p - 3) * x <= p * g,
                s >= 0,
        ;
        assert(p * (g * s) <= (p + 4) * (x * s)) by (nonlinear_arith)
            requires
                p * g <= (p + 4) * x,
                s >= 0,
        ;
        assert(hv * u == u * hv) by (nonlinear_arith);
        assert(0x1f_ffff_ffff_fffd * (x * s) <= 0x20_0000_0000_0000 * (g * s));
        assert(0x20_0000_0000_0000 * (g * s) <= 0x20_0000_0000_0004 * (x * s));
    } else {
        assert(o.magnitude() == 0);
        assert(h.magnitude() == 0 && !h.negative()) by {
            reveal(Real::spec_mul);
            reveal(Real::spec_to_single);
            let a: nat = o.significand();
            let b: nat = cell.significand();
            assert(a * b == 0) by (nonlinear_arith)
                requires
                    a == 0,
            ;
        }
        lemma_size_of_zero(h);
        assert(g == 0) by (nonlinear_arith)
            requires
                g == 0 * u + 0 * extra(),
        ;
        assert(g * s == 0 && u * h.value() == 0) by (nonlinear_arith)
            requires
                g == 0,
                h.value() == 0,
        ;
    }
}

/// The exact estimate shrinks with a step by no more than the step's length.
proof fn lemma_exact_step(t: Model, a: int, b: int, goal: (usize, usize), size: int)
    requires
        t.valid(),
        0 <= a < cell_count(t),
        adjoins(t, a, b),
        size >= 0,
    ensures
        span_from(t, a, goal) * size - span_from(t, b, goal) * size <= step_length(
            oblique(t, a, b),
        ) * size,
        0 <= b < cell_count(t),
{
    let k: int = choose|k: int| 0 <= k < 8 && #[trigger] may_step(t, a, k) && neighbour(t, a, k) == b;
    lemma_neighbour_inside(t, a, k);
    lemma_span_of_step(
        gap_between(col_of(t, a), goal.0 as int),
        gap_between(row_of(t, a), goal.1 as int),
        gap_between(col_of(t, b), goal.0 as int),
        gap_between(row_of(t, b), goal.1 as int),
        oblique(t, a, b),
    );
    let x: int = span_from(t, a, goal);
    let y: int = span_from(t, b, goal);
    let l: int = step_length(oblique(t, a, b));
    assert(x * size - y * size <= l * size) by (nonlinear_arith)
        requires
            x <= l + y,
            size >= 0,
    ;
}

/// Whether a step that costs so much is worth its length, up to two parts in
/// `2^23`.
spec fn worth_it(step: Real, diagonal: bool, cell: Real) -> bool {
    &&& affordable(step)
    &&& step.rank() >= SMALLEST
    &&& 0x7f_fffe * (step_length(diagonal) * cell.value()) <= 0x80_0000 * (straight() * step.value())
}

/// Where steps are worth their lengths, costs that are added up step by step
/// agree with the estimate.
proof fn lemma_worth(
    t: Model,
    step: spec_fn(int, bool) -> Real,
    goal: (usize, usize),
    cell: Real,
)
    requires
        t.valid(),
        goal.0 < t.columns,
        goal.1 < t.rows,
        ordinary(cell),
        forall|c: Real, to: int, diagonal: bool| #[trigger]
            t.extended(c, to, diagonal) == c.single_sum(step(to, diagonal)),
        forall|c: Real, i: int| #[trigger] t.score(c, i) == c.single_sum(t.estimate(i)),
        forall|i: int|
            0 <= i < cell_count(t) ==> #[trigger] t.estimate(i) == spec_remaining(
                i as usize,
                t.columns as usize,
                goal.0,
                goal.1,
                cell,
            ),
        forall|to: int, diagonal: bool|
            0 <= to < cell_count(t) ==> worth_it(#[trigger] step(to, diagonal), diagonal, cell),
    ensures
        stepwise(t, step),
        coherent(t, step, |i: int| span_from(t, i, goal) * cell.value(), straight()),
        span_from(t, goal.1 * t.columns + goal.0, goal) * cell.value() == 0,
{
    let exact: spec_fn(int) -> int = |i: int| span_from(t, i, goal) * cell.value();
    lemma_step_lengths();
    lemma_pow2_pos(1074);
    lemma_zero_rank(cell);
    assert forall|i: int| 0 <= i < cell_count(t) implies {
        let h: Real = #[trigger] t.estimate(i);
        plain(h) && !h.negative() && h.rank() <= 0x4740_0000_0000_0000
    } by {
        lemma_remaining(t, i, goal, cell);
    }
    assert forall|i: int| 0 <= i < cell_count(t) implies {
        let h: int = straight() * (#[trigger] t.estimate(i)).value();
        &&& exact(i) >= 0
        &&& 0x80_0000 * h <= 0x80_0001 * exact(i)
        &&& 0x7f_ffff * exact(i) <= 0x80_0000 * h
    } by {
        lemma_remaining(t, i, goal, cell);
    }
    assert forall|a: int, b: int| 0 <= a < cell_count(t) && #[trigger] adjoins(t, a, b) implies
        0x7f_fffe * (exact(a) - exact(b)) <= 0x80_0000 * (straight() * step(
        b,
        oblique(t, a, b),
    ).value()) by {
        lemma_exact_step(t, a, b, goal, cell.value());
        assert(worth_it(step(b, oblique(t, a, b)), oblique(t, a, b), cell));
    }
    lemma_number(t.columns, t.rows, goal.0 as int, goal.1 as int);
    let z: int = span_from(t, goal.1 * t.columns + goal.0, goal);
    let s: int = cell.value();
    assert(z == 0) by (nonlinear_arith)
        requires
            z == 0 * straight() + 0 * extra(),
    ;
    assert(z * s == 0) by (nonlinear_arith)
        requires
            z == 0,
    ;
}

/// One stays one in single precision.
proof fn lemma_one_is_single()
    ensures
        Real::of(ONE).to_single() == Real::of(ONE),
{
    reveal(Real::spec_to_single);
    lemma2_to64();
    lemma2_to64_rest();
    let one: Real = Real { bits: ONE };
    assert(one.significand() == UNIT as nat && one.exponent() == -52);
    lemma_nearest_scaled(0x80_0000, 29, -23, 24, -149, SINGLE_INF as nat);
    lemma_nearest_exact(0x80_0000, -23, 24, -149, SINGLE_INF as nat);
    let code: nat = nearest_single(UNIT as nat, -52);
    assert(code == 126 * 0x80_0000 + 0x80_0000);
    assert(single_significand(code) == 0x80_0000);
    assert(single_exponent(code) == -23);
    lemma_nearest_scaled(0x80_0000, 29, -23, 53, -1074, INF as nat);
    lemma_nearest_exact(UNIT as nat, -52, 53, -1074, INF as nat);
}

/// A product of bounded numbers is bounded.
proof fn lemma_product_below(a: Real, b: Real, most: Real, high: Real, top: Real)
    requires
        !a.nan(),
        !b.nan(),
        is_power(most),
        is_power(high),
        is_power(top),
        top.exponent() == most.exponent() + high.exponent() + 52,
        0 <= a.rank() <= most.rank(),
        0 <= b.rank() <= high.rank(),
    ensures
        !a.mul(b).nan(),
        0 <= a.mul(b).rank() <= top.rank(),
{
    lemma_power_product(most, high, top);
    lemma_mul_monotone(a, most, b, high);
}

/// What stands in no danger of overflowing stays finite in single precision.
proof fn lemma_single_at_most(r: Real, top: Real)
    requires
        !r.nan(),
        is_power(top),
        SMALLEST <= top.rank() < LARGEST,
        0 <= r.rank() <= top.rank(),
    ensures
        !r.to_single().nan(),
        0 <= r.to_single().rank() <= top.rank() + UNIT,
{
    lemma_single_below(top, top);
    lemma_to_single_monotone(r, top);
}

/// The weight of a cell is at least one.
proof fn lemma_weight(cost: Real, density: Real)
    requires
        affordable(cost),
        affordable(density),
    ensures
        ({
            let weight: Real = Real::of(ONE).single_sum(cost.to_single().single_product(density));
            weight.finite() && weight.rank() >= ONE
        }),
{
    let one: Real = Real { bits: ONE };
    let most: Real = Real { bits: 0x43b0_0000_0000_0000 };
    let high: Real = Real { bits: 0x43c0_0000_0000_0000 };
    let top: Real = Real { bits: 0x4780_0000_0000_0000 };
    let next: Real = Real { bits: 0x4790_0000_0000_0000 };
    let last: Real = Real { bits: 0x47a0_0000_0000_0000 };
    let x: Real = cost.to_single();
    lemma_single_at_most(cost, most);
    lemma_product_below(x, density, high, most, top);
    let y: Real = x.single_product(density);
    lemma_single_at_most(x.mul(density), top);
    lemma_one_is_single();
    lemma_single_add_not_smaller(one, y);
    lemma_power_sum(one, y, next, last);
    lemma_single_at_most(one.add(y), last);
}

/// What threats charge is not negative.
proof fn lemma_toll(
    coarse: &CoarseView,
    config: NavConfig,
    threats: Seq<Threat>,
    n: int,
    col: int,
    row: int,
)
    requires
        ordinary(coarse.cell_size),
    ensures
        toll(coarse, config, threats, n, col, row) matches Some(extra) ==> !extra.nan()
            && extra.rank() >= 0 && extra.to_single() == extra,
    decreases n,
{
    if n > 0 {
        lemma_toll(coarse, config, threats, n - 1, col, row);
        let each: Real = Real::of(THREAT_TOLL);
        let charge: Real = each.mul(coarse.cell_size).to_single();
        let zero: Real = Real::of(ZERO);
        lemma_mul_monotone(zero, each, zero, coarse.cell_size);
        lemma_to_single_monotone(each.mul(coarse.cell_size), each.mul(coarse.cell_size));
        assert(zero.to_single() == zero) by {
            reveal(Real::spec_to_single);
            assert(zero.significand() == 0);
        }
        let rest: Real = toll(coarse, config, threats, n - 1, col, row).unwrap_or(zero);
        lemma_single_add_not_smaller(rest, charge);
        lemma_to_single_idempotent(rest.add(charge));
    }
}

/// A straight or diagonal step of a coarse route is worth its length, before
/// anything is charged for it.
proof fn lemma_coarse_stride(diagonal: bool, cell: Real)
    requires
        ordinary(cell),
    ensures
        ({
            let s: Real = spec_stride(diagonal).mul(cell).to_single();
            &&& s.finite()
            &&& s.rank() >= SMALLEST
            &&& s.to_single() == s
            &&& 0x7f_fffe * (step_length(diagonal) * cell.value()) <= 0x80_0000 * (straight()
                * s.value())
        }),
{
    lemma_step_lengths();
    lemma_zero_rank(cell);
    let o: Real = spec_stride(diagonal);
    assert(o.value() == step_length(diagonal));
    lemma_single_product_error(o, cell);
    let s: Real = o.mul(cell).to_single();
    lemma_to_single_idempotent(o.mul(cell));
    let v: int = s.value();
    let u: int = straight();
    assert(v * u == u * v) by (nonlinear_arith);
}

/// Whether a number is a share of a whole.
pub open spec fn is_share(part: Real) -> bool {
    !part.nan() && 0 <= part.rank() <= ONE
}

/// The share of some cells among others is one.
proof fn lemma_blocked_share(blocked: nat, total: nat)
    requires
        blocked <= total <= u64::MAX,
    ensures
        is_share(blocked_share(blocked, total)),
{
    let whole: u64 = (if total < 1 {
        1
    } else {
        total
    }) as u64;
    let a: Real = Real::from_count(blocked as u64);
    let b: Real = Real::from_count(whole);
    let one: Real = Real::of(ONE);
    let top: Real = Real { bits: 0x43f0_0000_0000_0000 };
    lemma_count(blocked as u64);
    lemma_count(whole);
    lemma_count_order(blocked as u64, whole);
    lemma_count_below(whole);
    lemma_one_is_single();
    lemma_to_single_monotone(a, b);
    lemma_to_single_monotone(one, b);
    lemma_single_at_most(b, top);
    lemma_single_sign(a);
    lemma_single_sign(b);
    let x: Real = a.to_single();
    let y: Real = b.to_single();
    lemma_quotient_at_most_one(x, y);
    assert(!x.div(y).negative()) by {
        reveal(Real::spec_div);
    }
    lemma_to_single_monotone(x.div(y), one);
}

/// Rounding to single precision keeps a number's sign.
proof fn lemma_single_sign(r: Real)
    requires
        r.finite(),
        !r.negative(),
    ensures
        !r.to_single().negative(),
{
    reveal(Real::spec_to_single);
}

/// The densities of a coarse view that sums a fine one up are shares.
pub proof fn lemma_densities_are_shares(shared: &NavShared, base: &WalkView)
    requires
        shared.wf(),
        shared.derived_from(base),
    ensures
        forall|i: int|
            0 <= i < shared.coarse.density@.len() ==> is_share(#[trigger] shared.coarse.density@[i]),
{
    let coarse: &CoarseView = &shared.coarse;
    let fine: &WalkView = &shared.fine;
    let w: int = coarse.width as int;
    let h: int = coarse.height as int;
    assert forall|i: int| 0 <= i < coarse.density@.len() implies is_share(
        #[trigger] coarse.density@[i],
    ) by {
        if w == 0 {
            assert(w * h == 0) by (nonlinear_arith)
                requires
                    w == 0,
            ;
        }
        lemma_place(w, h, i);
        let col: int = i % w;
        let row: int = i / w;
        assert(coarse.within(col, row));
        assert(coarse.summarizes(fine, col, row));
        let f: int = coarse.factor as int;
        lemma_block(fine.width as int, f, col);
        lemma_block(fine.height as int, f, row);
        let left: int = coarse.block_start(col);
        let low: int = coarse.block_start(row);
        let right: int = block_end(left, f, fine.width as int);
        let high: int = block_end(low, f, fine.height as int);
        lemma_area_count(fine, left, right, low, high);
        assert((right - left) * (high - low) <= fine.width * fine.height) by (nonlinear_arith)
            requires
                0 <= right - left <= fine.width,
                0 <= high - low <= fine.height,
        ;
        lemma_blocked_share(
            blocked_in(fine, left, right, low, high),
            ((right - left) * (high - low)) as nat,
        );
    }
}

/// The penalties that failed plans have charged, none of them negative.
pub open spec fn fair(penalties: Map<int, Real>) -> bool {
    forall|i: int| #[trigger]
        penalties.dom().contains(i) ==> !penalties[i].nan() && penalties[i].rank() >= 0
}

/// A step of a coarse route costs no less than its length.
proof fn lemma_coarse_step_is_worth_it(
    shared: &NavShared,
    threats: Seq<Threat>,
    penalties: Map<int, Real>,
    to: int,
    diagonal: bool,
)
    requires
        ordinary(shared.coarse.cell_size),
        affordable(shared.config.density_cost),
        is_share(shared.coarse.density@[to]),
        fair(penalties),
        affordable(coarse_step(shared, threats, penalties, to, diagonal)),
    ensures
        worth_it(
            coarse_step(shared, threats, penalties, to, diagonal),
            diagonal,
            shared.coarse.cell_size,
        ),
{
    let coarse: &CoarseView = &shared.coarse;
    let one: Real = Real::of(ONE);
    let step: Real = coarse_step(shared, threats, penalties, to, diagonal);
    let weight: Real = one.single_sum(
        shared.config.density_cost.to_single().single_product(coarse.density@[to]),
    );
    let s: Real = spec_stride(diagonal).mul(coarse.cell_size).to_single();
    lemma_coarse_stride(diagonal, coarse.cell_size);
    lemma_weight(shared.config.density_cost, coarse.density@[to]);
    lemma_mul_monotone(s, s, one, weight);
    lemma_mul_one(s);
    lemma_to_single_monotone(s, s.mul(weight));
    let bare: Real = s.single_product(weight);
    lemma_to_single_idempotent(s.mul(weight));
    assert(s.rank() <= bare.rank());
    let col: int = to % (coarse.width as int);
    let row: int = to / (coarse.width as int);
    lemma_toll(coarse, shared.config, threats, threats.len() as int, col, row);
    let charged: Real = match toll(
        coarse,
        shared.config,
        threats,
        threats.len() as int,
        col,
        row,
    ) {
        Some(extra) => bare.single_sum(extra),
        None => bare,
    };
    if let Some(extra) = toll(coarse, shared.config, threats, threats.len() as int, col, row) {
        lemma_single_add_not_smaller(bare, extra);
        lemma_to_single_idempotent(bare.add(extra));
    }
    if let Some(extra) = entry(penalties, to) {
        assert(penalties.dom().contains(to));
        lemma_single_add_not_smaller(charged, extra);
    }
    assert(s.rank() <= step.rank());
    lemma_value_order(s, step);
    let u: int = straight();
    let a: int = s.value();
    let b: int = step.value();
    lemma_step_lengths();
    lemma_pow2_pos(1074);
    assert(u * a <= u * b) by (nonlinear_arith)
        requires
            a <= b,
            u > 0,
    ;
}

/// A search that may expand every cell is not capped.
proof fn lemma_coarse_search_is_uncapped(
    model: Model,
    step: spec_fn(int, bool) -> Real,
    from: int,
    to: int,
)
    requires
        model.valid(),
        stepwise(model, step),
        0 <= from < cell_count(model),
    ensures
        finish(model, from, to, usize::MAX as nat).phase != Phase::Capped,
{
    lemma_stepwise(model, step);
    lemma_settling_decides(model, from, to, usize::MAX as nat, |cost: Real| spendable(cost));
}

/// Exact sum of what the steps of a coarse route cost.
pub open spec fn corridor_toll(
    shared: &NavShared,
    threats: Seq<Threat>,
    penalties: Map<int, Real>,
    end: (usize, usize),
    route: Seq<int>,
) -> int {
    route_toll(
        coarse_model(shared, threats, penalties, end),
        |to: int, diagonal: bool| coarse_step(shared, threats, penalties, to, diagonal),
        route,
    )
}

/// A corridor is the cheapest there is: with a density cost and penalties that
/// are not negative, and steps that are affordable, every coarse route between
/// the cells nearest to the agent and to the goal costs at least as much, up to
/// thirty-two parts in `2^23` a step of either.
pub proof fn lemma_corridor_is_cheapest(
    shared: &NavShared,
    threats: Seq<Threat>,
    penalties: Map<int, Real>,
    position: Point,
    goal: Point,
    route: Seq<int>,
)
    requires
        shared.wf(),
        ordinary(shared.coarse.cell_size),
        affordable(shared.config.density_cost),
        forall|i: int|
            0 <= i < shared.coarse.density@.len() ==> is_share(#[trigger] shared.coarse.density@[i]),
        fair(penalties),
        forall|to: int, diagonal: bool|
            0 <= to < shared.coarse.width * shared.coarse.height ==> affordable(
                #[trigger] coarse_step(shared, threats, penalties, to, diagonal),
            ),
        gateway(&shared.coarse, position) is Some,
        gateway(&shared.coarse, goal) is Some,
        ({
            let coarse: &CoarseView = &shared.coarse;
            let start: (usize, usize) = gateway(coarse, position).unwrap();
            let end: (usize, usize) = gateway(coarse, goal).unwrap();
            &&& is_route(coarse_model(shared, threats, penalties, end), route)
            &&& route[0] == start.1 * coarse.width + start.0
            &&& route.last() == end.1 * coarse.width + end.0
        }),
    ensures
        ({
            let end: (usize, usize) = gateway(&shared.coarse, goal).unwrap();
            let way: Option<Seq<int>> = coarse_way(shared, threats, penalties, position, goal);
            let found: Seq<int> = way.unwrap().reverse();
            let steps: int = found.len() + route.len() - 2;
            &&& way is Some
            &&& (0x80_0000 - 32 * steps) * corridor_toll(shared, threats, penalties, end, found)
                <= 0x80_0000 * corridor_toll(shared, threats, penalties, end, route)
        }),
{
    let coarse: &CoarseView = &shared.coarse;
    let start: (usize, usize) = gateway(coarse, position).unwrap();
    let end: (usize, usize) = gateway(coarse, goal).unwrap();
    lemma_gateway_inside(coarse, position);
    lemma_gateway_inside(coarse, goal);
    let model: Model = coarse_model(shared, threats, penalties, end);
    let step: spec_fn(int, bool) -> Real = |to: int, diagonal: bool|
        coarse_step(shared, threats, penalties, to, diagonal);
    let w: int = coarse.width as int;
    let h: int = coarse.height as int;
    lemma_number(w, h, start.0 as int, start.1 as int);
    lemma_number(w, h, end.0 as int, end.1 as int);
    assert(model.valid());
    assert forall|to: int, diagonal: bool| 0 <= to < cell_count(model) implies worth_it(
        #[trigger] step(to, diagonal),
        diagonal,
        coarse.cell_size,
    ) by {
        assert(affordable(coarse_step(shared, threats, penalties, to, diagonal)));
        lemma_coarse_step_is_worth_it(shared, threats, penalties, to, diagonal);
    }
    lemma_worth(model, step, end, coarse.cell_size);
    let from: int = start.1 * w + start.0;
    let to: int = end.1 * w + end.0;
    lemma_coarse_search_is_uncapped(model, step, from, to);
    lemma_found_way_is_cheapest(
        model,
        step,
        |i: int| span_from(model, i, end) * coarse.cell_size.value(),
        straight(),
        from,
        to,
        usize::MAX as nat,
        route,
    );
}

/// A step through the window costs no less than its length.
proof fn lemma_window_step_is_worth_it(
    sensed: &WalkView,
    nearby: Seq<Threat>,
    position: Point,
    window: Window,
    demote: bool,
    to: int,
    diagonal: bool,
)
    requires
        ordinary(sensed.cell_size),
    ensures
        worth_it(
            window_step(sensed, nearby, position, window, demote, to, diagonal),
            diagonal,
            sensed.cell_size,
        ),
{
    lemma_step_lengths();
    let size: Real = sensed.cell_size;
    let cell: Real = size.to_single();
    let o: Real = spec_stride(diagonal);
    let s: Real = o.to_single();
    let bare: Real = s.single_product(cell);
    let step: Real = window_step(sensed, nearby, position, window, demote, to, diagonal);
    let two: Real = Real { bits: 0x4000_0000_0000_0000 };
    let four: Real = Real { bits: 0x4010_0000_0000_0000 };
    let wide: Real = Real { bits: 0x4310_0000_0000_0000 };
    let next: Real = Real { bits: 0x4320_0000_0000_0000 };
    lemma_one_is_single();
    lemma_single_error(o);
    lemma_single_error(size);
    lemma_single_stays_plain(size);
    lemma_single_below(o, two);
    lemma_single_below(size, wide);
    lemma_to_single_monotone(Real::of(ONE), o);
    lemma_single_product_error(s, cell);
    lemma_product_below(s, cell, four, next, Real { bits: 0x4340_0000_0000_0000 });
    lemma_single_at_most(s.mul(cell), Real { bits: 0x4340_0000_0000_0000 });
    lemma_to_single_idempotent(s.mul(cell));
    // the length of the step, rounded three times
    let l: int = step_length(diagonal);
    let c: int = size.value();
    let x: int = s.value();
    let y: int = cell.value();
    let u: int = straight();
    let v: int = bare.value();
    lemma_rounded_product(l, c, x, y);
    assert(v * u == u * v) by (nonlinear_arith);
    assert(0x7f_fffe * (l * c) <= 0x80_0000 * (u * v));
    // a soft cell costs more
    let soft: Real = Real::of(SOFT_COST);
    let extra: Real = soft.single_product(cell);
    lemma_product_below(
        soft,
        cell,
        Real { bits: 0x4030_0000_0000_0000 },
        next,
        Real { bits: 0x4360_0000_0000_0000 },
    );
    lemma_single_at_most(soft.mul(cell), Real { bits: 0x4360_0000_0000_0000 });
    lemma_single_add_not_smaller(bare, extra);
    lemma_power_sum(
        bare,
        extra,
        Real { bits: 0x4370_0000_0000_0000 },
        Real { bits: 0x4380_0000_0000_0000 },
    );
    lemma_single_at_most(bare.add(extra), Real { bits: 0x4380_0000_0000_0000 });
    assert(bare.rank() <= step.rank());
    lemma_value_order(bare, step);
    let b: int = step.value();
    lemma_pow2_pos(1074);
    assert(u * v <= u * b) by (nonlinear_arith)
        requires
            v <= b,
            u > 0,
    ;
}

/// The product of two rounded numbers.
proof fn lemma_rounded_product(l: int, c: int, x: int, y: int)
    requires
        l >= 0,
        c >= 0,
        x >= 0,
        y >= 0,
        0x100_0000 * l <= 0x100_0000 * x + l,
        0x100_0000 * c <= 0x100_0000 * y + c,
    ensures
        0xff_fffe * (l * c) <= 0x100_0000 * (x * y),
{
    let q: int = 0x100_0000;
    assert((q - 1) * l <= q * x);
    assert((q - 1) * c <= q * y);
    assert(((q - 1) * l) * ((q - 1) * c) <= (q * x) * (q * y)) by (nonlinear_arith)
        requires
            0 <= (q - 1) * l <= q * x,
            0 <= (q - 1) * c <= q * y,
    ;
    assert(((q - 1) * l) * ((q - 1) * c) == ((q - 1) * (q - 1)) * (l * c)) by (nonlinear_arith);
    assert((q * x) * (q * y) == (q * q) * (x * y)) by (nonlinear_arith);
    let a: int = l * c;
    let b: int = x * y;
    assert(a >= 0) by (nonlinear_arith)
        requires
            a == l * c,
            l >= 0,
            c >= 0,
    ;
    assert((q - 1) * (q - 1) == q * (q - 2) + 1) by (nonlinear_arith);
    assert(q * ((q - 2) * a) <= q * (q * b)) by (nonlinear_arith)
        requires
            ((q - 1) * (q - 1)) * a <= (q * q) * b,
            (q - 1) * (q - 1) == q * (q - 2) + 1,
            a >= 0,
    ;
    assert((q - 2) * a <= q * b) by (nonlinear_arith)
        requires
            q * ((q - 2) * a) <= q * (q * b),
            q > 0,
    ;
}

/// Exact sum of what the steps of a way through the window cost.
pub open spec fn window_toll(
    sensed: &WalkView,
    nearby: Seq<Threat>,
    position: Point,
    window: Window,
    demote: bool,
    target: (usize, usize),
    route: Seq<int>,
) -> int {
    route_toll(
        window_model(sensed, nearby, position, window, demote, target),
        |to: int, diagonal: bool|
            window_step(sensed, nearby, position, window, demote, to, diagonal),
        route,
    )
}

/// Where the search of the window ends before its cap and its target can be
/// reached, the way it finds is the cheapest: every other way over passable cells
/// between the same two costs at least as much, up to thirty-two parts in `2^23`
/// a step of either. In soft cells every step costs more, so the shortest way out
/// of a disc wins.
pub proof fn lemma_window_way_is_cheapest(
    sensed: &WalkView,
    nearby: Seq<Threat>,
    position: Point,
    window: Window,
    demote: bool,
    start: int,
    target: (usize, usize),
    cap: nat,
    route: Seq<int>,
)
    requires
        window.wf(),
        ordinary(sensed.cell_size),
        0 <= start < window.width * window.height,
        target.0 < window.width,
        target.1 < window.height,
        finish(
            window_model(sensed, nearby, position, window, demote, target),
            start,
            target.1 * window.width + target.0,
            cap,
        ).phase != Phase::Capped,
        is_route(window_model(sensed, nearby, position, window, demote, target), route),
        route[0] == start,
        route.last() == target.1 * window.width + target.0,
    ensures
        ({
            let way: Option<Seq<int>> = fine_way(
                window_model(sensed, nearby, position, window, demote, target),
                start,
                target.1 * window.width + target.0,
                cap,
                sensed.cell_size.to_single(),
            );
            let found: Seq<int> = way.unwrap().reverse();
            let steps: int = found.len() + route.len() - 2;
            &&& way is Some
            &&& found.last() == target.1 * window.width + target.0
            &&& (0x80_0000 - 32 * steps) * window_toll(
                sensed,
                nearby,
                position,
                window,
                demote,
                target,
                found,
            ) <= 0x80_0000 * window_toll(
                sensed,
                nearby,
                position,
                window,
                demote,
                target,
                route,
            )
        }),
{
    let model: Model = window_model(sensed, nearby, position, window, demote, target);
    let step: spec_fn(int, bool) -> Real = |to: int, diagonal: bool|
        window_step(sensed, nearby, position, window, demote, to, diagonal);
    assert(model.valid());
    assert forall|to: int, diagonal: bool| 0 <= to < cell_count(model) implies worth_it(
        #[trigger] step(to, diagonal),
        diagonal,
        sensed.cell_size,
    ) by {
        lemma_window_step_is_worth_it(sensed, nearby, position, window, demote, to, diagonal);
    }
    lemma_worth(model, step, target, sensed.cell_size);
    lemma_found_way_is_cheapest(
        model,
        step,
        |i: int| span_from(model, i, target) * sensed.cell_size.value(),
        straight(),
        start,
        target.1 * window.width + target.0,
        cap,
        route,
    );
    lemma_fine_way(
        model,
        start,
        target.1 * window.width + target.0,
        cap,
        sensed.cell_size.to_single(),
    );
}

} // verus!
