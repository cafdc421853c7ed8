//! The path that is found is the shortest one, up to rounding.
use vstd::arithmetic::power2::*;
use vstd::prelude::*;

use crate::corridor::spec_stride;
use crate::geometry::{spec_octile, DIAGONAL_EXTRA, ONE, SQRT_2};
use crate::least::{
    cost_along, lemma_cost_along, lemma_way_is_least, oblique, orderly, outbid, route_cost,
};
use crate::number::{from_sum, nearest_double, Real, INF, UNIT};
use crate::ordering::{
    lemma_add_not_smaller, lemma_mul_monotone, lemma_mul_one, lemma_size_code, lemma_sum_error, lemma_sum_monotone,
    lemma_value_order, lemma_value_rank, lemma_zero_rank,
};
use crate::pathfinding::{
    covered, found_way, lemma_steps_steady, path_model, sensible, spec_heuristic, PathOptions,
};
use crate::reopen::{lemma_search_decides, lemma_wave_ends, wave_finish, Wave};
use crate::rounding::{lemma_nearest_monotone, lemma_nearest_scaled};
use crate::scene::Scene;
use crate::search::{
    adjoins, cell_count, col_of, is_route, lemma_cell, lemma_neighbour_inside, lemma_number, may_step,
    neighbour, row_of, Model,
};
use crate::settle::lemma_way_back_is_route;

verus! {

/// Length of a straight step, in the units in which numbers are counted.
pub open spec fn straight() -> int {
    Real::of(ONE).value()
}

/// What a diagonal step is longer than a straight one.
pub open spec fn extra() -> int {
    Real::of(DIAGONAL_EXTRA).value()
}

/// Exact length of a step.
pub open spec fn step_length(diagonal: bool) -> int {
    if diagonal {
        straight() + extra()
    } else {
        straight()
    }
}

/// Exact length of a route up to its `i`-th cell.
pub open spec fn length_along(t: Model, route: Seq<int>, i: int) -> int
    decreases i,
{
    if i <= 0 {
        0
    } else {
        length_along(t, route, i - 1) + step_length(oblique(t, route[i - 1], route[i]))
    }
}

/// Exact length of a route.
pub open spec fn route_length(t: Model, route: Seq<int>) -> int {
    length_along(t, route, route.len() - 1)
}

/// Steps count as long as they are.
pub proof fn lemma_step_lengths()
    ensures
        straight() == pow2(1074),
        0 < extra() < straight(),
        Real::of(SQRT_2).value() == straight() + extra(),
        Real::of(DIAGONAL_EXTRA).size() == extra(),
        Real::of(DIAGONAL_EXTRA).exponent() == -54,
{
    lemma2_to64();
    lemma2_to64_rest();
    let c: nat = pow2(1020);
    lemma_pow2_pos(1020);
    lemma_pow2_adds(2, 1020);
    lemma_pow2_adds(54, 1020);
    lemma_pow2_adds(52, 1022);
    let one: Real = Real::of(ONE);
    let root: Real = Real::of(SQRT_2);
    let more: Real = Real::of(DIAGONAL_EXTRA);
    assert(one.exponent() == -52 && one.significand() == 0x10_0000_0000_0000);
    assert(root.exponent() == -52 && root.significand() == 0x16_a09e_667f_3bcd);
    assert(more.exponent() == -54 && more.significand() == 0x1a_8279_99fc_ef34);
    assert(one.size() == 0x10_0000_0000_0000 * (4 * c));
    assert(root.size() == 0x16_a09e_667f_3bcd * (4 * c));
    assert(more.size() == 0x1a_8279_99fc_ef34 * c);
    assert(0x10_0000_0000_0000 * (4 * c) == 0x40_0000_0000_0000 * c) by (nonlinear_arith);
    assert(0x16_a09e_667f_3bcd * (4 * c) == 0x5a_8279_99fc_ef34 * c) by (nonlinear_arith);
    assert(pow2(1074) == 0x40_0000_0000_0000 * c);
    assert(0x40_0000_0000_0000 * c + 0x1a_8279_99fc_ef34 * c == 0x5a_8279_99fc_ef34 * c)
        by (nonlinear_arith);
    assert(0 < 0x1a_8279_99fc_ef34 * c < 0x40_0000_0000_0000 * c) by (nonlinear_arith)
        requires
            c > 0,
    ;
}

/// One more step keeps the cost of a route within one part in `2^53` a step.
proof fn lemma_error_step(p: int, i: int, before: int, exact: int, step: int, after: int)
    requires
        p > 0,
        i >= 0,
        0 <= before <= after,
        (p - i) * before <= p * exact,
        p * exact <= (p + i) * before,
        p * after <= p * (before + step) + after,
        p * (before + step) <= p * after + after,
    ensures
        (p - (i + 1)) * after <= p * (exact + step),
        p * (exact + step) <= (p + (i + 1)) * after,
{
    assert((p - (i + 1)) * after == p * after - after - i * after) by (nonlinear_arith);
    assert((p + (i + 1)) * after == p * after + after + i * after) by (nonlinear_arith);
    assert((p - i) * before == p * before - i * before) by (nonlinear_arith);
    assert((p + i) * before == p * before + i * before) by (nonlinear_arith);
    assert(p * (exact + step) == p * exact + p * step) by (nonlinear_arith);
    assert(p * (before + step) == p * before + p * step) by (nonlinear_arith);
    assert(i * before <= i * after) by (nonlinear_arith)
        requires
            i >= 0,
            before <= after,
    ;
}

/// The cost of a route is its length, up to one part in `2^53` a step.
proof fn lemma_cost_is_length(
    scene: &Scene,
    options: PathOptions,
    goal: (usize, usize),
    route: Seq<int>,
    i: int,
)
    requires
        covered(&scene.grid),
        is_route(path_model(scene, options, goal), route),
        path_model(scene, options, goal).valid(),
        0 <= route[0] < cell_count(path_model(scene, options, goal)),
        0 <= i < route.len(),
    ensures
        ({
            let t: Model = path_model(scene, options, goal);
            let cost: Real = cost_along(t, route, i);
            let exact: int = length_along(t, route, i);
            let p: int = pow2(53) as int;
            &&& cost.finite()
            &&& cost.rank() >= 0
            &&& cost.value() >= 0
            &&& (p - i) * cost.value() <= p * exact
            &&& p * exact <= (p + i) * cost.value()
        }),
    decreases i,
{
    let t: Model = path_model(scene, options, goal);
    let good: spec_fn(Real) -> bool = |cost: Real| sensible(cost);
    lemma_steps_steady(scene, options, goal);
    lemma_cost_along(t, good, route, i);
    let cost: Real = cost_along(t, route, i);
    assert(good(cost));
    lemma_zero_rank(cost);
    lemma2_to64_rest();
    let p: int = pow2(53) as int;
    if i <= 0 {
        assert(cost.size() == 0) by (nonlinear_arith)
            requires
                cost.size() == cost.significand() * pow2((cost.exponent() + 1074) as nat),
                cost.significand() == 0,
        ;
        assert((p - i) * cost.value() == 0 && (p + i) * cost.value() == 0) by (nonlinear_arith)
            requires
                cost.value() == 0,
        ;
    } else {
        lemma_cost_is_length(scene, options, goal, route, i - 1);
        lemma_step_lengths();
        let before: Real = cost_along(t, route, i - 1);
        let d: bool = oblique(t, route[i - 1], route[i]);
        let step: Real = spec_stride(d);
        assert(step.value() == step_length(d));
        assert(cost == before.add(step));
        reveal(Real::spec_add);
        let total: int = before.value() + step.value();
        assert(cost == from_sum(total, false));
        lemma_sum_error(total as nat);
        lemma_cost_along(t, good, route, i - 1);
        assert(good(before));
        assert(before.rank() <= t.extended(before, route[i], d).rank());
        lemma_value_order(before, cost);
        lemma_error_step(
            p,
            i - 1,
            before.value(),
            length_along(t, route, i - 1),
            step.value(),
            cost.value(),
        );
    }
}

/// A count is converted up to one part in `2^53`.
pub proof fn lemma_count(n: u64)
    ensures
        ({
            let r: Real = Real::from_count(n);
            let p: int = pow2(53) as int;
            &&& r.finite()
            &&& !r.negative()
            &&& r.value() >= 0
            &&& (p - 1) * r.value() <= p * (n * straight())
            &&& p * (n * straight()) <= (p + 1) * r.value()
            &&& n == 0 ==> r.magnitude() == 0 && r.value() == 0
            &&& n > 0 ==> r.magnitude() >= ONE
        }),
{
    let r: Real = Real::from_count(n);
    let p: int = pow2(53) as int;
    lemma2_to64();
    lemma2_to64_rest();
    lemma_step_lengths();
    let u: nat = pow2(1074);
    lemma_pow2_pos(1074);
    lemma_nearest_scaled(n as nat, 1074, 0, 53, -1074, INF as nat);
    let total: nat = n as nat * u;
    assert(nearest_double(n as nat, 0) == nearest_double(total, -1074));
    let most: Real = Real { bits: 0x43f0_0000_0000_0000 };
    assert(most.significand() == UNIT as nat && most.exponent() == 12);
    lemma_size_code(most);
    lemma_nearest_scaled(UNIT as nat, 12, 12, 53, -1074, INF as nat);
    lemma_nearest_monotone(n as nat, UNIT as nat * pow2(12), 0, 53, -1074, INF as nat);
    assert(r.finite() && !r.negative());
    if n == 0 {
        assert(r.magnitude() == 0);
        assert(r.size() == 0) by (nonlinear_arith)
            requires
                r.size() == r.significand() * pow2((r.exponent() + 1074) as nat),
                r.significand() == 0,
        ;
        assert((p - 1) * r.value() == 0 && (p + 1) * r.value() == 0 && p * (n * straight()) == 0)
            by (nonlinear_arith)
            requires
                r.value() == 0,
                n == 0,
        ;
    } else {
        assert(total > 0) by (nonlinear_arith)
            requires
                total == n as nat * u,
                n > 0,
                u > 0,
        ;
        assert(r == from_sum(total as int, false));
        lemma_sum_error(total);
        assert((p - 1) * r.value() == p * r.value() - r.value()) by (nonlinear_arith);
        assert((p + 1) * r.value() == p * r.value() + r.value()) by (nonlinear_arith);
        let unit: Real = Real::of(ONE);
        assert(unit.significand() == UNIT as nat && unit.exponent() == -52);
        lemma_size_code(unit);
        lemma_nearest_scaled(1, 52, 0, 53, -1074, INF as nat);
        lemma_nearest_monotone(1, n as nat, 0, 53, -1074, INF as nat);
        assert(1nat * pow2(52) == UNIT);
    }
}

/// Counts are converted in order.
pub proof fn lemma_count_order(a: u64, b: u64)
    requires
        a <= b,
    ensures
        Real::from_count(a).rank() <= Real::from_count(b).rank(),
{
    lemma_count(a);
    lemma_count(b);
    lemma_nearest_monotone(a as nat, b as nat, 0, 53, -1074, INF as nat);
}

/// A count of diagonal steps is multiplied up to one part in `2^53`.
proof fn lemma_extra_product(m: Real)
    requires
        m.finite(),
        !m.negative(),
        m.magnitude() == 0 || ONE <= m.magnitude() <= 0x43f0_0000_0000_0000,
    ensures
        ({
            let r: Real = Real::of(DIAGONAL_EXTRA).mul(m);
            let p: int = pow2(53) as int;
            &&& r.finite()
            &&& !r.negative()
            &&& r.value() >= 0
            &&& (p - 1) * (r.value() * straight()) <= p * (extra() * m.value())
            &&& p * (extra() * m.value()) <= (p + 1) * (r.value() * straight())
            &&& m.magnitude() == 0 ==> r.magnitude() == 0
        }),
{
    reveal(Real::spec_mul);
    let x: Real = Real::of(DIAGONAL_EXTRA);
    let r: Real = x.mul(m);
    let p: int = pow2(53) as int;
    lemma2_to64();
    lemma2_to64_rest();
    lemma_step_lengths();
    let sig: nat = x.significand() * m.significand();
    if m.magnitude() == 0 {
        assert(sig == 0) by (nonlinear_arith)
            requires
                sig == x.significand() * m.significand(),
                m.significand() == 0,
        ;
        assert(m.size() == 0) by (nonlinear_arith)
            requires
                m.size() == m.significand() * pow2((m.exponent() + 1074) as nat),
                m.significand() == 0,
        ;
        assert(r.magnitude() == 0);
        assert(r.size() == 0) by (nonlinear_arith)
            requires
                r.size() == r.significand() * pow2((r.exponent() + 1074) as nat),
                r.significand() == 0,
        ;
        assert((p - 1) * (r.value() * straight()) == 0 && (p + 1) * (r.value() * straight()) == 0
            && p * (extra() * m.value()) == 0) by (nonlinear_arith)
            requires
                r.value() == 0,
                m.value() == 0,
        ;
    } else {
        assert(-52 <= m.exponent() <= 12);
        let e: int = x.exponent() + m.exponent();
        let k: nat = (e + 1074) as nat;
        let c: nat = pow2(k);
        lemma_pow2_pos(k);
        lemma_nearest_scaled(sig, k, e, 53, -1074, INF as nat);
        let total: nat = sig * c;
        assert(nearest_double(sig, e) == nearest_double(total, -1074));
        assert(sig > 0) by (nonlinear_arith)
            requires
                sig == x.significand() * m.significand(),
                x.significand() > 0,
                m.significand() > 0,
        ;
        assert(total > 0) by (nonlinear_arith)
            requires
                total == sig * c,
                sig > 0,
                c > 0,
        ;
        assert(sig < 0x20_0000_0000_0000 * 0x20_0000_0000_0000) by (nonlinear_arith)
            requires
                sig == x.significand() * m.significand(),
                x.significand() < 0x20_0000_0000_0000,
                m.significand() < 0x20_0000_0000_0000,
        ;
        lemma_product_is_small(sig, e);
        assert(r == from_sum(total as int, false));
        lemma_sum_error(total);
        let a: nat = pow2((x.exponent() + 1074) as nat);
        let b: nat = pow2((m.exponent() + 1074) as nat);
        lemma_pow2_adds((x.exponent() + 1074) as nat, (m.exponent() + 1074) as nat);
        lemma_pow2_adds(k, 1074);
        assert(a * b == c * pow2(1074));
        let u: nat = pow2(1074);
        let xs: nat = x.significand();
        let ms: nat = m.significand();
        assert(total * u == x.size() * m.size()) by (nonlinear_arith)
            requires
                total == sig * c,
                sig == xs * ms,
                x.size() == xs * a,
                m.size() == ms * b,
                a * b == c * u,
        ;
        assert((p - 1) * (r.value() * u) <= p * (total * u)) by (nonlinear_arith)
            requires
                p * r.value() <= p * total + r.value(),
                u > 0,
        ;
        assert(p * (total * u) <= (p + 1) * (r.value() * u)) by (nonlinear_arith)
            requires
                p * total <= p * r.value() + r.value(),
                u > 0,
        ;
    }
}

proof fn lemma_product_is_small(sig: nat, e: int)
    requires
        sig < 0x20_0000_0000_0000 * 0x20_0000_0000_0000,
        e <= -42,
    ensures
        nearest_double(sig, e) < INF,
{
    lemma2_to64();
    lemma2_to64_rest();
    let most: Real = Real { bits: 0x4ff0_0000_0000_0000 };
    assert(most.significand() == UNIT as nat);
    let top: int = most.exponent();
    assert(top == 204);
    lemma_size_code(most);
    let k: nat = (top - e) as nat;
    lemma_nearest_scaled(UNIT as nat, k, top, 53, -1074, INF as nat);
    lemma_pow2_strictly_increases(64, k);
    lemma_pow2_adds(32, 32);
    assert(sig <= UNIT as nat * pow2(k)) by (nonlinear_arith)
        requires
            sig < 0x20_0000_0000_0000 * 0x20_0000_0000_0000,
            pow2(k) > 0x1_0000_0000_0000_0000,
            UNIT == 0x10_0000_0000_0000,
    ;
    lemma_nearest_monotone(sig, UNIT as nat * pow2(k), e, 53, -1074, INF as nat);
}

/// Exact length of the shortest way over an open grid.
pub open spec fn span(dc: int, dr: int) -> int {
    if dc <= dr {
        dr * straight() + dc * extra()
    } else {
        dc * straight() + dr * extra()
    }
}

/// Three roundings make the estimate longer by at most three parts in `2^53`.
proof fn lemma_three_roundings(p: int, u: int, x: int, a: int, b: int, most: int, least: int, product: int, sum: int)
    requires
        p > 3,
        u > 0,
        x >= 0,
        a >= 0,
        b >= 0,
        most >= 0,
        least >= 0,
        product >= 0,
        sum >= 0,
        (p - 1) * most <= p * (a * u),
        (p - 1) * least <= p * (b * u),
        (p - 1) * (product * u) <= p * (x * least),
        (p - 1) * sum <= p * (most + product),
    ensures
        (p - 3) * sum <= p * (a * u + b * x),
{
    let q: int = p - 1;
    // q * q * product <= p * p * b * x
    assert(q * (q * (product * u)) <= q * (p * (x * least))) by (nonlinear_arith)
        requires
            q * (product * u) <= p * (x * least),
            q > 0,
    ;
    assert(q * (p * (x * least)) == (p * x) * (q * least)) by (nonlinear_arith);
    assert((p * x) * (q * least) <= (p * x) * (p * (b * u))) by (nonlinear_arith)
        requires
            q * least <= p * (b * u),
            p * x >= 0,
    ;
    assert(p * x >= 0) by (nonlinear_arith)
        requires
            p > 0,
            x >= 0,
    ;
    assert((p * x) * (p * (b * u)) == (p * p * (b * x)) * u) by (nonlinear_arith);
    assert(q * (q * (product * u)) == (q * q * product) * u) by (nonlinear_arith);
    assert(q * q * product <= p * p * (b * x)) by (nonlinear_arith)
        requires
            (q * q * product) * u <= (p * p * (b * x)) * u,
            u > 0,
    ;
    // q * q * most <= p * p * a * u
    assert(q * (q * most) <= q * (p * (a * u))) by (nonlinear_arith)
        requires
            q * most <= p * (a * u),
            q > 0,
    ;
    assert(q * (p * (a * u)) <= p * p * (a * u)) by (nonlinear_arith)
        requires
            q <= p,
            p > 0,
            a * u >= 0,
    ;
    assert(a * u >= 0) by (nonlinear_arith)
        requires
            a >= 0,
            u > 0,
    ;
    assert(q * (q * most) == q * q * most) by (nonlinear_arith);
    // all together
    let f: int = a * u + b * x;
    assert(q * q * (q * sum) <= q * q * (p * (most + product))) by (nonlinear_arith)
        requires
            q * sum <= p * (most + product),
            q > 0,
    ;
    assert(q * q * (p * (most + product)) == p * (q * q * most + q * q * product))
        by (nonlinear_arith);
    assert(p * (q * q * most + q * q * product) <= p * (p * p * (a * u) + p * p * (b * x)))
        by (nonlinear_arith)
        requires
            q * q * most <= p * p * (a * u),
            q * q * product <= p * p * (b * x),
            p > 0,
    ;
    assert(p * (p * p * (a * u) + p * p * (b * x)) == (p * p) * (p * f)) by (nonlinear_arith)
        requires
            f == a * u + b * x,
    ;
    assert(q * q * (q * sum) == (q * q * q) * sum) by (nonlinear_arith);
    assert(q * q * q >= (p * p) * (p - 3)) by (nonlinear_arith)
        requires
            q == p - 1,
            p > 3,
    ;
    assert((q * q * q) * sum >= ((p * p) * (p - 3)) * sum) by (nonlinear_arith)
        requires
            q * q * q >= (p * p) * (p - 3),
            sum >= 0,
    ;
    assert(((p * p) * (p - 3)) * sum == (p * p) * ((p - 3) * sum)) by (nonlinear_arith);
    assert((p - 3) * sum <= p * f) by (nonlinear_arith)
        requires
            (p * p) * ((p - 3) * sum) <= (p * p) * (p * f),
            p > 0,
    ;
}

/// Three roundings make the estimate shorter by at most four parts in `2^53`.
proof fn lemma_three_roundings_below(
    p: int,
    u: int,
    x: int,
    a: int,
    b: int,
    most: int,
    least: int,
    product: int,
    sum: int,
)
    requires
        p > 4,
        u > 0,
        x >= 0,
        sum >= 0,
        most >= 0,
        p * (a * u) <= (p + 1) * most,
        p * (b * u) <= (p + 1) * least,
        p * (x * least) <= (p + 1) * (product * u),
        p * (most + product) <= (p + 1) * sum,
    ensures
        p * (a * u + b * x) <= (p + 4) * sum,
{
    let q: int = p + 1;
    // p * p * b * x <= q * q * product
    assert((p * x) * (p * (b * u)) <= (p * x) * (q * least)) by (nonlinear_arith)
        requires
            p * (b * u) <= q * least,
            p > 0,
            x >= 0,
    ;
    assert((p * x) * (q * least) == q * (p * (x * least))) by (nonlinear_arith);
    assert(q * (p * (x * least)) <= q * (q * (product * u))) by (nonlinear_arith)
        requires
            p * (x * least) <= q * (product * u),
            q > 0,
    ;
    assert((p * x) * (p * (b * u)) == (p * p * (b * x)) * u) by (nonlinear_arith);
    assert(q * (q * (product * u)) == (q * q * product) * u) by (nonlinear_arith);
    assert(p * p * (b * x) <= q * q * product) by (nonlinear_arith)
        requires
            (p * p * (b * x)) * u <= (q * q * product) * u,
            u > 0,
    ;
    // p * p * a * u <= q * q * most
    assert(p * (p * (a * u)) <= p * (q * most)) by (nonlinear_arith)
        requires
            p * (a * u) <= q * most,
            p > 0,
    ;
    assert(p * (q * most) <= q * q * most) by (nonlinear_arith)
        requires
            p <= q,
            p > 0,
            most >= 0,
    ;
    assert(p * (p * (a * u)) == p * p * (a * u)) by (nonlinear_arith);
    // all together
    let f: int = a * u + b * x;
    assert(p * (p * p * (a * u) + p * p * (b * x)) <= p * (q * q * most + q * q * product))
        by (nonlinear_arith)
        requires
            p * p * (a * u) <= q * q * most,
            p * p * (b * x) <= q * q * product,
            p > 0,
    ;
    assert(p * (p * p * (a * u) + p * p * (b * x)) == (p * p) * (p * f)) by (nonlinear_arith)
        requires
            f == a * u + b * x,
    ;
    assert(p * (q * q * most + q * q * product) == q * q * (p * (most + product)))
        by (nonlinear_arith);
    assert(q * q * (p * (most + product)) <= q * q * (q * sum)) by (nonlinear_arith)
        requires
            p * (most + product) <= q * sum,
            q > 0,
    ;
    assert(q * q * (q * sum) == (q * q * q) * sum) by (nonlinear_arith);
    assert(q * q * q <= (p * p) * (p + 4)) by (nonlinear_arith)
        requires
            q == p + 1,
            p > 4,
    ;
    assert((q * q * q) * sum <= ((p * p) * (p + 4)) * sum) by (nonlinear_arith)
        requires
            q * q * q <= (p * p) * (p + 4),
            sum >= 0,
    ;
    assert(((p * p) * (p + 4)) * sum == (p * p) * ((p + 4) * sum)) by (nonlinear_arith);
    assert(p * f <= (p + 4) * sum) by (nonlinear_arith)
        requires
            (p * p) * (p * f) <= (p * p) * ((p + 4) * sum),
            p > 0,
    ;
}

/// The estimate is the length of the shortest way over an open grid, up to
/// rounding.
pub proof fn lemma_octile_is_span(dc: u64, dr: u64)
    ensures
        ({
            let h: Real = spec_octile(Real::from_count(dc), Real::from_count(dr));
            let p: int = pow2(53) as int;
            &&& h.finite()
            &&& !h.negative()
            &&& h.value() >= 0
            &&& (p - 3) * h.value() <= p * span(dc as int, dr as int)
            &&& p * span(dc as int, dr as int) <= (p + 4) * h.value()
            &&& dc > 0 || dr > 0 ==> h.rank() >= ONE
            &&& dc == 0 && dr == 0 ==> h.magnitude() == 0
            &&& h.rank() <= 0x4400_0000_0000_0000
        }),
{
    let a: Real = Real::from_count(dc);
    let b: Real = Real::from_count(dr);
    let p: int = pow2(53) as int;
    lemma2_to64_rest();
    lemma_step_lengths();
    lemma_count(dc);
    lemma_count(dr);
    assert(a.abs() == a);
    assert(b.abs() == b);
    let (high, low): (u64, u64) = if dc <= dr {
        (dr, dc)
    } else {
        (dc, dr)
    };
    lemma_count_order(low, high);
    lemma_count_order(high, 0xffff_ffff_ffff_ffff);
    let most: Real = Real::from_count(high);
    let least: Real = Real::from_count(low);
    lemma_count_below(high);
    lemma_count_below(low);
    assert(a.max(b) == most);
    assert(a.min(b) == least);
    lemma_extra_product(least);
    let product: Real = Real::of(DIAGONAL_EXTRA).mul(least);
    let h: Real = most.add(product);
    reveal(Real::spec_add);
    let total: int = most.value() + product.value();
    assert(h == from_sum(total, false));
    lemma_product_bound(least);
    lemma_total_is_small(most, product, Real { bits: 0x43f0_0000_0000_0000 });
    lemma_sum_error(total as nat);
    assert((p - 1) * h.value() == p * h.value() - h.value()) by (nonlinear_arith);
    lemma_three_roundings(
        p,
        straight(),
        extra(),
        high as int,
        low as int,
        most.value(),
        least.value(),
        product.value(),
        h.value(),
    );
    assert((p + 1) * h.value() == p * h.value() + h.value()) by (nonlinear_arith);
    lemma_three_roundings_below(
        p,
        straight(),
        extra(),
        high as int,
        low as int,
        most.value(),
        least.value(),
        product.value(),
        h.value(),
    );
    lemma_add_not_smaller(most, product);
    if high == 0 {
        assert(product.size() == 0) by (nonlinear_arith)
            requires
                product.size() == product.significand() * pow2(
                    (product.exponent() + 1074) as nat,
                ),
                product.significand() == 0,
        ;
    }
}

pub proof fn lemma_count_below(n: u64)
    ensures
        Real::from_count(n).magnitude() <= 0x43f0_0000_0000_0000,
{
    lemma2_to64();
    lemma2_to64_rest();
    let most: Real = Real { bits: 0x43f0_0000_0000_0000 };
    assert(most.significand() == UNIT as nat && most.exponent() == 12);
    lemma_size_code(most);
    lemma_nearest_scaled(UNIT as nat, 12, 12, 53, -1074, INF as nat);
    lemma_nearest_monotone(n as nat, UNIT as nat * pow2(12), 0, 53, -1074, INF as nat);
}

/// What diagonal steps add is no longer than the steps.
proof fn lemma_product_bound(least: Real)
    requires
        least.finite(),
        !least.negative(),
    ensures
        Real::of(DIAGONAL_EXTRA).mul(least).rank() <= least.rank(),
{
    let one: Real = Real::of(ONE);
    lemma_mul_monotone(Real::of(DIAGONAL_EXTRA), one, least, least);
    lemma_mul_one(least);
    assert(one.mul(least) == least.mul(one)) by {
        reveal(Real::spec_mul);
        let a: nat = one.significand();
        let b: nat = least.significand();
        assert(a * b == b * a) by (nonlinear_arith);
    }
}

/// The sum of two numbers is at most twice what both are at most.
proof fn lemma_total_is_small(a: Real, b: Real, half: Real)
    requires
        a.finite(),
        b.finite(),
        half.bits == 0x43f0_0000_0000_0000 || half.bits == 0x4400_0000_0000_0000,
        a.rank() <= half.rank(),
        b.rank() <= half.rank(),
        a.value() >= 0,
        b.value() >= 0,
    ensures
        from_sum(a.value() + b.value(), false).finite(),
        from_sum(a.value() + b.value(), false).rank() <= half.rank() + UNIT,
{
    let top: Real = Real { bits: (half.bits + UNIT) as u64 };
    lemma_value_order(a, half);
    lemma_value_order(b, half);
    let e: int = half.exponent();
    assert(half.significand() == UNIT as nat && 12 <= e <= 13);
    assert(top.significand() == UNIT as nat && top.exponent() == e + 1);
    lemma_pow2_unfold((e + 1075) as nat);
    let c: nat = pow2((e + 1074) as nat);
    let d: nat = pow2((e + 1075) as nat);
    assert(top.size() == 2 * half.size()) by (nonlinear_arith)
        requires
            top.size() == UNIT as nat * d,
            half.size() == UNIT as nat * c,
            d == 2 * c,
    ;
    lemma_sum_monotone(a.value() + b.value(), top.value(), false, false);
    lemma_value_rank(top, false);
    lemma_sum_monotone(0, a.value() + b.value(), false, false);
}

/// Distance of two columns or rows.
pub open spec fn gap_between(a: int, b: int) -> int {
    if a < b {
        b - a
    } else {
        a - b
    }
}

/// Exact length of the shortest way from a numbered cell to the goal, over an
/// open grid.
pub open spec fn span_from(t: Model, index: int, goal: (usize, usize)) -> int {
    span(
        gap_between(col_of(t, index), goal.0 as int),
        gap_between(row_of(t, index), goal.1 as int),
    )
}

/// One step brings the goal nearer by no more than its length.
pub proof fn lemma_span_of_step(dc: int, dr: int, ec: int, er: int, diagonal: bool)
    requires
        0 <= dc <= ec + 1,
        0 <= dr <= er + 1,
        ec >= 0,
        er >= 0,
        diagonal || dc <= ec || dr <= er,
    ensures
        span(dc, dr) <= step_length(diagonal) + span(ec, er),
{
    lemma_step_lengths();
    let u: int = straight();
    let x: int = extra();
    let (a, b): (int, int) = if dc <= dr {
        (dr, dc)
    } else {
        (dc, dr)
    };
    let (m, n): (int, int) = if ec <= er {
        (er, ec)
    } else {
        (ec, er)
    };
    assert(span(dc, dr) == a * u + b * x);
    assert(span(ec, er) == m * u + n * x);
    if a <= m + 1 && b <= n {
        assert(a * u + b * x <= u + (m * u + n * x)) by (nonlinear_arith)
            requires
                a <= m + 1,
                b <= n,
                u > 0,
                x > 0,
        ;
    } else if a <= m && b <= n + 1 {
        assert(a * u + b * x <= u + (m * u + n * x)) by (nonlinear_arith)
            requires
                a <= m,
                b <= n + 1,
                u > x,
                x > 0,
        ;
    } else {
        assert(diagonal);
        assert(a * u + b * x <= (u + x) + (m * u + n * x)) by (nonlinear_arith)
            requires
                a <= m + 1,
                b <= n + 1,
                u > 0,
                x > 0,
        ;
    }
}

/// The rest of a route is no shorter than the shortest way over an open grid.
proof fn lemma_rest_of_route(
    t: Model,
    route: Seq<int>,
    goal: (usize, usize),
    j: int,
)
    requires
        t.valid(),
        is_route(t, route),
        forall|i: int| 0 <= i < route.len() ==> 0 <= #[trigger] route[i] < cell_count(t),
        col_of(t, route.last()) == goal.0,
        row_of(t, route.last()) == goal.1,
        0 <= j < route.len(),
    ensures
        span_from(t, route[j], goal) <= route_length(t, route) - length_along(t, route, j),
    decreases route.len() - j,
{
    if j == route.len() - 1 {
        assert(span(0, 0) == 0) by (nonlinear_arith)
            requires
                span(0, 0) == 0 * straight() + 0 * extra(),
        ;
    } else {
        lemma_rest_of_route(t, route, goal, j + 1);
        let a: int = route[j];
        let b: int = route[j + 1];
        assert(adjoins(t, route[j], route[j + 1]));
        let k: int = choose|k: int|
            0 <= k < 8 && #[trigger] may_step(t, a, k) && neighbour(t, a, k) == b;
        lemma_neighbour_inside(t, a, k);
        lemma_span_of_step(
            gap_between(col_of(t, a), goal.0 as int),
            gap_between(row_of(t, a), goal.1 as int),
            gap_between(col_of(t, b), goal.0 as int),
            gap_between(row_of(t, b), goal.1 as int),
            oblique(t, a, b),
        );
    }
}

/// Adding the same keeps the order of costs.
pub proof fn lemma_sums_in_order(a: Real, b: Real, c: Real)
    requires
        a.finite(),
        b.finite(),
        c.finite(),
        0 <= a.rank() <= b.rank(),
        !c.negative(),
    ensures
        a.add(c).rank() <= b.add(c).rank(),
        a.add(c).spec_total_key() <= b.add(c).spec_total_key(),
        !a.add(c).nan(),
        !b.add(c).nan(),
{
    reveal(Real::spec_add);
    lemma_value_order(a, b);
    lemma_zero_rank(a);
    lemma_zero_rank(b);
    lemma_zero_rank(c);
    lemma_sum_monotone(a.value() + c.value(), b.value() + c.value(), false, false);
    lemma_sum_monotone(b.value() + c.value(), b.value() + c.value(), false, false);
    assert(!a.add(c).negative());
    assert(!b.add(c).negative());
}

proof fn lemma_path_costs_orderly(scene: &Scene, options: PathOptions, goal: (usize, usize))
    ensures
        orderly(path_model(scene, options, goal), |cost: Real| sensible(cost)),
{
    let t: Model = path_model(scene, options, goal);
    let good: spec_fn(Real) -> bool = |cost: Real| sensible(cost);
    assert forall|a: Real, b: Real, to: int, diagonal: bool|
        good(a) && good(b) && a.rank() <= b.rank() && 0 <= to < cell_count(t) implies (
    #[trigger] t.extended(a, to, diagonal)).rank() <= (#[trigger] t.extended(
        b,
        to,
        diagonal,
    )).rank() by {
        lemma_sums_in_order(a, b, spec_stride(diagonal));
    }
    assert forall|a: Real, b: Real, i: int|
        good(a) && good(b) && a.rank() <= b.rank() && 0 <= i < cell_count(t) implies (
    #[trigger] t.score(a, i)).spec_total_key() <= (#[trigger] t.score(b, i)).spec_total_key() by {
        lemma_heuristic_is_span(scene, options, goal, i);
        lemma_sums_in_order(a, b, spec_heuristic(i as usize, scene.grid.width, goal));
    }
}

/// The estimate from a cell is at most three parts in `2^53` longer than the
/// shortest way over an open grid.
proof fn lemma_heuristic_is_span(
    scene: &Scene,
    options: PathOptions,
    goal: (usize, usize),
    index: int,
)
    ensures
        ({
            let t: Model = path_model(scene, options, goal);
            let h: Real = spec_heuristic(index as usize, scene.grid.width, goal);
            &&& h.finite()
            &&& !h.negative()
            &&& h.value() >= 0
            &&& h.rank() <= 0x4400_0000_0000_0000
            &&& t.valid() && 0 <= index < cell_count(t) ==> (pow2(53) - 3) * h.value() <= pow2(53)
                * span_from(t, index, goal)
            &&& t.valid() && 0 <= index < cell_count(t) && col_of(t, index) == goal.0 && row_of(
                t,
                index,
            ) == goal.1 ==> h.magnitude() == 0
        }),
{
    let col: int = index as usize as int % scene.grid.width as int;
    let row: int = index as usize as int / scene.grid.width as int;
    lemma_octile_is_span(
        gap_between(col, goal.0 as int) as u64,
        gap_between(row, goal.1 as int) as u64,
    );
    let t: Model = path_model(scene, options, goal);
    if t.valid() && 0 <= index < cell_count(t) {
        lemma_cell(t, index);
        assert(index as usize == index);
    }
}

/// The cost that is found against the length of a route that outbids it.
proof fn lemma_outbid_bound(
    p: int,
    m: int,
    j: int,
    prefix: int,
    exact: int,
    estimate: int,
    rest: int,
    whole: int,
    score: int,
    cost: int,
)
    requires
        p > m + 4,
        0 <= j <= m,
        prefix >= 0,
        estimate >= 0,
        score >= 0,
        0 <= cost <= score,
        (p - j) * prefix <= p * exact,
        (p - 3) * estimate <= p * rest,
        exact + rest <= whole,
        p * score <= p * (prefix + estimate) + score,
    ensures
        (p - (m + 4)) * cost <= p * whole,
{
    let q: int = p - (m + 3);
    assert(q * prefix <= (p - j) * prefix) by (nonlinear_arith)
        requires
            q <= p - j,
            prefix >= 0,
    ;
    assert(q * estimate <= (p - 3) * estimate) by (nonlinear_arith)
        requires
            q <= p - 3,
            estimate >= 0,
    ;
    assert(q * (prefix + estimate) == q * prefix + q * estimate) by (nonlinear_arith);
    assert(p * exact + p * rest <= p * whole) by (nonlinear_arith)
        requires
            exact + rest <= whole,
            p > 0,
    ;
    let both: int = prefix + estimate;
    assert(q * (p * score) <= q * (p * both + score)) by (nonlinear_arith)
        requires
            p * score <= p * both + score,
            q > 0,
    ;
    assert(q * (p * both + score) == p * (q * both) + q * score) by (nonlinear_arith);
    assert(p * (q * both) <= p * (p * whole)) by (nonlinear_arith)
        requires
            q * both <= p * whole,
            p > 0,
    ;
    assert(q * (p * score) - q * score >= p * ((q - 1) * score)) by (nonlinear_arith)
        requires
            0 < q <= p,
            score >= 0,
    ;
    assert((q - 1) * score <= p * whole) by (nonlinear_arith)
        requires
            p * ((q - 1) * score) <= p * (p * whole),
            p > 0,
    ;
    assert((q - 1) * cost <= (q - 1) * score) by (nonlinear_arith)
        requires
            cost <= score,
            q >= 1,
    ;
}

/// Lengths of two routes from the cost of the one and a bound on it.
proof fn lemma_shorter(p: int, n: int, k: int, cost: int, found: int, other: int)
    requires
        p > 0,
        n >= 0,
        k > 0,
        cost >= 0,
        found >= 0,
        other >= 0,
        p * found <= (p + n) * cost,
        p > k ==> (p - k) * cost <= p * other,
    ensures
        (p - k) * found <= (p + n) * other,
{
    if p > k {
        let q: int = p - k;
        assert(q * (p * found) <= q * ((p + n) * cost)) by (nonlinear_arith)
            requires
                p * found <= (p + n) * cost,
                q > 0,
        ;
        assert(q * ((p + n) * cost) == (p + n) * (q * cost)) by (nonlinear_arith);
        assert((p + n) * (q * cost) <= (p + n) * (p * other)) by (nonlinear_arith)
            requires
                q * cost <= p * other,
                p + n > 0,
        ;
        assert(q * (p * found) == p * (q * found)) by (nonlinear_arith);
        assert((p + n) * (p * other) == p * ((p + n) * other)) by (nonlinear_arith);
        assert(q * found <= (p + n) * other) by (nonlinear_arith)
            requires
                p * (q * found) <= p * ((p + n) * other),
                p > 0,
        ;
    } else {
        assert((p - k) * found <= 0) by (nonlinear_arith)
            requires
                p <= k,
                found >= 0,
        ;
        assert((p + n) * other >= 0) by (nonlinear_arith)
            requires
                p + n > 0,
                other >= 0,
        ;
    }
}

proof fn lemma_length_is_not_negative(t: Model, route: Seq<int>, i: int)
    ensures
        length_along(t, route, i) >= 0,
    decreases i,
{
    lemma_step_lengths();
    if i > 0 {
        lemma_length_is_not_negative(t, route, i - 1);
    }
}

/// The cost of the way that is found, against the length of any route.
proof fn lemma_found_cost(
    scene: &Scene,
    options: PathOptions,
    goal: (usize, usize),
    route: Seq<int>,
    cost: Real,
)
    requires
        covered(&scene.grid),
        path_model(scene, options, goal).valid(),
        is_route(path_model(scene, options, goal), route),
        0 <= route[0] < cell_count(path_model(scene, options, goal)),
        col_of(path_model(scene, options, goal), route.last()) == goal.0,
        row_of(path_model(scene, options, goal), route.last()) == goal.1,
        cost.finite(),
        cost.rank() >= 0,
        ({
            let t: Model = path_model(scene, options, goal);
            cost.rank() <= route_cost(t, route).rank() || exists|j: int|
                0 <= j < route.len() && #[trigger] outbid(t, cost, route.last(), route, j)
        }),
        pow2(53) > route.len() + 3,
    ensures
        (pow2(53) - (route.len() + 3)) * cost.value() <= pow2(53) * route_length(
            path_model(scene, options, goal),
            route,
        ),
{
    let t: Model = path_model(scene, options, goal);
    let p: int = pow2(53) as int;
    let m: int = route.len() - 1;
    let target: int = route.last();
    lemma_zero_rank(cost);
    lemma_cost_is_length(scene, options, goal, route, m);
    lemma_length_is_not_negative(t, route, m);
    let whole: int = route_length(t, route);
    if cost.rank() <= route_cost(t, route).rank() {
        let other: int = route_cost(t, route).value();
        lemma_value_order(cost, route_cost(t, route));
        assert((p - (m + 4)) * cost.value() <= (p - m) * other) by (nonlinear_arith)
            requires
                0 <= cost.value() <= other,
                p > m + 4,
        ;
    } else {
        let j: int = choose|j: int|
            0 <= j < route.len() && #[trigger] outbid(t, cost, target, route, j);
        let good: spec_fn(Real) -> bool = |cost: Real| sensible(cost);
        lemma_steps_steady(scene, options, goal);
        assert forall|i: int| 0 <= i < route.len() implies 0 <= #[trigger] route[i] < cell_count(
            t,
        ) by {
            lemma_cost_along(t, good, route, i);
        }
        lemma_rest_of_route(t, route, goal, j);
        lemma_cost_is_length(scene, options, goal, route, j);
        let prefix: Real = cost_along(t, route, j);
        lemma_cost_along(t, good, route, j);
        assert(sensible(prefix));
        lemma_heuristic_is_span(scene, options, goal, route[j]);
        lemma_heuristic_is_span(scene, options, goal, target);
        let h: Real = spec_heuristic(route[j] as usize, scene.grid.width, goal);
        let none: Real = spec_heuristic(target as usize, scene.grid.width, goal);
        let score: Real = prefix.add(h);
        lemma_total_is_small(prefix, h, Real { bits: 0x4400_0000_0000_0000 });
        lemma_added_nothing(cost, none);
        reveal(Real::spec_add);
        let total: int = prefix.value() + h.value();
        assert(score == from_sum(total, false));
        lemma_sum_error(total as nat);
        assert(cost.rank() <= score.rank());
        lemma_value_order(cost, score);
        lemma_outbid_bound(
            p,
            m,
            j,
            prefix.value(),
            length_along(t, route, j),
            h.value(),
            span_from(t, route[j], goal),
            whole,
            score.value(),
            cost.value(),
        );
    }
}

/// Adding nothing does not change a cost.
proof fn lemma_added_nothing(cost: Real, none: Real)
    requires
        cost.finite(),
        cost.rank() >= 0,
        none.magnitude() == 0,
        !none.negative(),
    ensures
        cost.add(none).spec_total_key() == cost.rank(),
{
    reveal(Real::spec_add);
    lemma_zero_rank(cost);
    lemma_zero_rank(none);
    assert(none.size() == 0) by (nonlinear_arith)
        requires
            none.size() == none.significand() * pow2((none.exponent() + 1074) as nat),
            none.significand() == 0,
    ;
    lemma_value_rank(cost, false);
    assert(!cost.add(none).negative());
}

/// The path that is found is the shortest one, up to rounding: it is no longer
/// than any route between the two cells, but for one part in `2^53` for each
/// step of the two and four more.
pub proof fn lemma_found_path_is_shortest(
    scene: &Scene,
    options: PathOptions,
    start: (usize, usize),
    goal: (usize, usize),
    route: Seq<int>,
)
    requires
        covered(&scene.grid),
        scene.grid.within(start.0 as int, start.1 as int),
        scene.grid.within(goal.0 as int, goal.1 as int),
        found_way(scene, options, start, goal) is Some,
        is_route(path_model(scene, options, goal), route),
        route[0] == start.1 * scene.grid.width + start.0,
        route.last() == goal.1 * scene.grid.width + goal.0,
    ensures
        ({
            let t: Model = path_model(scene, options, goal);
            let found: Seq<int> = found_way(scene, options, start, goal).unwrap().reverse();
            (pow2(53) - (route.len() + 3)) * route_length(t, found) <= (pow2(53) + (found.len()
                - 1)) * route_length(t, route)
        }),
{
    let t: Model = path_model(scene, options, goal);
    let p: int = pow2(53) as int;
    let w: int = scene.grid.width as int;
    let h: int = scene.grid.height as int;
    let a: int = start.1 * scene.grid.width + start.0;
    let b: int = goal.1 * scene.grid.width + goal.0;
    let good: spec_fn(Real) -> bool = |cost: Real| sensible(cost);
    lemma2_to64_rest();
    lemma_number(w, h, start.0 as int, start.1 as int);
    lemma_number(w, h, goal.0 as int, goal.1 as int);
    assert(t.valid());
    lemma_steps_steady(scene, options, goal);
    lemma_path_costs_orderly(scene, options, goal);
    lemma_way_is_least(t, a, b, good, route, scene.grid.cells() as nat);
    let found: Seq<int> = found_way(scene, options, start, goal).unwrap().reverse();
    lemma_found_is_route(scene, options, start, goal);
    let cost: Real = route_cost(t, found);
    let n: int = found.len() - 1;
    lemma_cost_is_length(scene, options, goal, found, n);
    lemma_length_is_not_negative(t, found, n);
    lemma_length_is_not_negative(t, route, route.len() - 1);
    if p > route.len() + 3 {
        lemma_found_cost(scene, options, goal, route, cost);
    }
    lemma_shorter(
        p,
        n,
        (route.len() + 3) as int,
        cost.value(),
        route_length(t, found),
        route_length(t, route),
    );
}

proof fn lemma_found_is_route(
    scene: &Scene,
    options: PathOptions,
    start: (usize, usize),
    goal: (usize, usize),
)
    requires
        covered(&scene.grid),
        scene.grid.within(start.0 as int, start.1 as int),
        scene.grid.within(goal.0 as int, goal.1 as int),
        found_way(scene, options, start, goal) is Some,
    ensures
        ({
            let found: Seq<int> = found_way(scene, options, start, goal).unwrap().reverse();
            &&& is_route(path_model(scene, options, goal), found)
            &&& found.len() > 0
            &&& found[0] == start.1 * scene.grid.width + start.0
        }),
{
    let t: Model = path_model(scene, options, goal);
    let w: int = scene.grid.width as int;
    let h: int = scene.grid.height as int;
    lemma_number(w, h, start.0 as int, start.1 as int);
    lemma_number(w, h, goal.0 as int, goal.1 as int);
    let a: int = start.1 * scene.grid.width + start.0;
    let b: int = goal.1 * scene.grid.width + goal.0;
    assert(t.valid());
    lemma_steps_steady(scene, options, goal);
    lemma_search_decides(t, a, b, |cost: Real| sensible(cost));
    let wave: Wave = wave_finish(t, a, b);
    lemma_wave_ends(t, a, b);
    assert(wave.frontier.labels.dom().contains(b));
    lemma_way_back_is_route(t, wave.frontier, a, b, scene.grid.cells() as nat);
}

} // verus!
