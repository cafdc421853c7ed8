//! Searches whose costs are sums in single precision find the cheapest way, up
//! to rounding.
use vstd::prelude::*;

use crate::least::{cost_along, lemma_cost_along, oblique, orderly, route_cost};
use crate::number::{Real, INF};
use crate::ordering::{
    lemma_add_not_smaller, lemma_single_add_bounded, lemma_single_add_not_smaller, lemma_to_single_idempotent,
    lemma_to_single_monotone, lemma_value_order,
};
use crate::reopen::{reachable, steady};
use crate::search::{
    adjoins, cell_count, is_route, lemma_neighbour_inside, may_step, neighbour, Label, Model,
};
use crate::settle::{finish, lemma_search_ends, lemma_way_back_is_route, way_back, Phase};
use crate::shortest::lemma_sums_in_order;
use crate::single::{lemma_single_sum_error, plain, SMALLEST};
use crate::thorough::lemma_settling_decides;
use crate::thrifty::{bounds, lemma_found_way_within};
use crate::unit::lemma_size_of_zero;

verus! {

/// A cost that is not negative and far from the limits of single precision: at
/// most `2^60`.
pub open spec fn affordable(cost: Real) -> bool {
    &&& !cost.nan()
    &&& 0 <= cost.rank() <= 0x43b0_0000_0000_0000
}

/// What a route can cost, whatever its length: at most `2^90`.
pub open spec fn payable(cost: Real) -> bool {
    &&& !cost.nan()
    &&& 0 <= cost.rank() <= 0x4590_0000_0000_0000
    &&& cost.to_single() == cost
}

/// A further affordable step keeps a cost payable.
pub proof fn lemma_payable_step(cost: Real, step: Real)
    requires
        payable(cost),
        affordable(step),
    ensures
        payable(cost.single_sum(step)),
        cost.rank() <= cost.single_sum(step).rank() < INF,
{
    lemma_single_add_not_smaller(cost, step);
    lemma_single_add_bounded(cost, step);
    lemma_to_single_idempotent(cost.add(step));
}

/// What a route can cost whose steps all cost something that single precision
/// holds with all its digits.
pub open spec fn spendable(cost: Real) -> bool {
    &&& payable(cost)
    &&& cost.rank() == 0 || cost.rank() >= SMALLEST
}

/// Costs that are added up step by step, in single precision, and scored by
/// adding the estimate.
pub open spec fn stepwise(t: Model, step: spec_fn(int, bool) -> Real) -> bool {
    &&& forall|c: Real, to: int, diagonal: bool| #[trigger]
        t.extended(c, to, diagonal) == c.single_sum(step(to, diagonal))
    &&& forall|c: Real, i: int| #[trigger] t.score(c, i) == c.single_sum(t.estimate(i))
    &&& forall|to: int, diagonal: bool|
        0 <= to < cell_count(t) ==> {
            let s: Real = #[trigger] step(to, diagonal);
            affordable(s) && s.rank() >= SMALLEST
        }
    &&& forall|i: int|
        0 <= i < cell_count(t) ==> {
            let h: Real = #[trigger] t.estimate(i);
            plain(h) && !h.negative() && h.rank() <= 0x4740_0000_0000_0000
        }
}

/// Whether estimates, in parts of `u`, agree with exact ones up to one part in
/// `2^23`, and these shrink with every step by no more than the step costs, up to
/// two parts in `2^23`.
pub open spec fn coherent(
    t: Model,
    step: spec_fn(int, bool) -> Real,
    exact: spec_fn(int) -> int,
    u: int,
) -> bool {
    &&& u > 0
    &&& forall|i: int|
        0 <= i < cell_count(t) ==> {
            let h: int = u * (#[trigger] t.estimate(i)).value();
            &&& exact(i) >= 0
            &&& 0x80_0000 * h <= 0x80_0001 * exact(i)
            &&& 0x7f_ffff * exact(i) <= 0x80_0000 * h
        }
    &&& forall|a: int, b: int|
        0 <= a < cell_count(t) && #[trigger] adjoins(t, a, b) ==> 0x7f_fffe * (exact(a) - exact(b))
            <= 0x80_0000 * (u * step(b, oblique(t, a, b)).value())
}

/// Exact sum of what the steps of a route cost, up to its `i`-th cell.
pub open spec fn toll_along(
    t: Model,
    step: spec_fn(int, bool) -> Real,
    route: Seq<int>,
    i: int,
) -> int
    decreases i,
{
    if i <= 0 {
        0
    } else {
        toll_along(t, step, route, i - 1) + step(
            route[i],
            oblique(t, route[i - 1], route[i]),
        ).value()
    }
}

/// Exact sum of what the steps of a route cost.
pub open spec fn route_toll(t: Model, step: spec_fn(int, bool) -> Real, route: Seq<int>) -> int {
    toll_along(t, step, route, route.len() - 1)
}

/// Costs that are added up step by step are steady and keep their order.
pub proof fn lemma_stepwise(t: Model, step: spec_fn(int, bool) -> Real)
    requires
        stepwise(t, step),
    ensures
        steady(t, |cost: Real| spendable(cost)),
        orderly(t, |cost: Real| spendable(cost)),
{
    let good: spec_fn(Real) -> bool = |cost: Real| spendable(cost);
    assert(payable(Real { bits: 0 })) by {
        reveal(Real::spec_to_single);
        let zero: Real = Real { bits: 0 };
        assert(zero.significand() == 0);
    }
    assert forall|c: Real, to: int, diagonal: bool|
        good(c) && 0 <= to < cell_count(t) implies {
        let x: Real = #[trigger] t.extended(c, to, diagonal);
        good(x) && c.rank() <= x.rank() < INF
    } by {
        lemma_payable_step(c, step(to, diagonal));
        lemma_single_sum_error(c, step(to, diagonal));
    }
    assert forall|a: Real, b: Real, to: int, diagonal: bool|
        good(a) && good(b) && a.rank() <= b.rank() && 0 <= to < cell_count(t) implies (
    #[trigger] t.extended(a, to, diagonal)).rank() <= (#[trigger] t.extended(
        b,
        to,
        diagonal,
    )).rank() by {
        let s: Real = step(to, diagonal);
        lemma_sums_in_order(a, b, s);
        lemma_add_not_smaller(a, s);
        lemma_to_single_monotone(a.add(s), b.add(s));
    }
    assert forall|a: Real, b: Real, i: int|
        good(a) && good(b) && a.rank() <= b.rank() && 0 <= i < cell_count(t) implies (
    #[trigger] t.score(a, i)).spec_total_key() <= (#[trigger] t.score(b, i)).spec_total_key() by {
        let h: Real = t.estimate(i);
        lemma_sums_in_order(a, b, h);
        lemma_scored(a, h);
        lemma_scored(b, h);
        lemma_to_single_monotone(a.add(h), b.add(h));
    }
}

/// A score is not negative.
proof fn lemma_scored(c: Real, h: Real)
    requires
        spendable(c),
        plain(h),
        !h.negative(),
        h.rank() <= 0x4740_0000_0000_0000,
    ensures
        c.single_sum(h).finite(),
        !c.single_sum(h).negative(),
        c.add(h).rank() >= 0,
        ({
            let t: int = c.value() + h.value();
            let v: int = c.single_sum(h).value();
            &&& c.value() >= 0
            &&& h.value() >= 0
            &&& 0x80_0000 * v <= 0x80_0001 * t
            &&& 0x7f_ffff * t <= 0x80_0000 * v
        }),
{
    lemma_single_sum_error(c, h);
    lemma_add_not_smaller(c, h);
}

/// The cells of a route lie in the grid, and its tolls add up.
proof fn lemma_tolls(
    t: Model,
    step: spec_fn(int, bool) -> Real,
    route: Seq<int>,
    i: int,
    j: int,
)
    requires
        t.valid(),
        stepwise(t, step),
        is_route(t, route),
        0 <= route[0] < cell_count(t),
        0 <= i <= j < route.len(),
    ensures
        0 <= route[i] < cell_count(t),
        0 <= route[j] < cell_count(t),
        0 <= toll_along(t, step, route, i) <= toll_along(t, step, route, j),
        j > 0 ==> step(route[j], oblique(t, route[j - 1], route[j])).value() > 0,
    decreases j,
{
    if j > 0 {
        if i < j {
            lemma_tolls(t, step, route, i, j - 1);
        } else {
            lemma_tolls(t, step, route, j - 1, j - 1);
        }
        assert(adjoins(t, route[j - 1], route[j - 1 + 1]));
        let k: int = choose|k: int|
            0 <= k < 8 && #[trigger] may_step(t, route[j - 1], k) && neighbour(t, route[j - 1], k)
                == route[j];
        lemma_neighbour_inside(t, route[j - 1], k);
        let s: Real = step(route[j], oblique(t, route[j - 1], route[j]));
        let zero: Real = Real { bits: 0 };
        lemma_size_of_zero(zero);
        lemma_value_order(zero, s);
        lemma_value_order(s, zero);
    }
}

/// Exact estimates shrink along a route by no more than its steps cost.
proof fn lemma_exact_rest(
    t: Model,
    step: spec_fn(int, bool) -> Real,
    exact: spec_fn(int) -> int,
    u: int,
    route: Seq<int>,
    i: int,
    j: int,
)
    requires
        t.valid(),
        stepwise(t, step),
        coherent(t, step, exact, u),
        is_route(t, route),
        0 <= route[0] < cell_count(t),
        0 <= i <= j < route.len(),
    ensures
        0x7f_fffe * (exact(route[i]) - exact(route[j])) <= 0x80_0000 * (u * (toll_along(
            t,
            step,
            route,
            j,
        ) - toll_along(t, step, route, i))),
    decreases j,
{
    if i < j {
        lemma_exact_rest(t, step, exact, u, route, i, j - 1);
        lemma_tolls(t, step, route, i, j - 1);
        assert(adjoins(t, route[j - 1], route[j - 1 + 1]));
        let a: int = toll_along(t, step, route, i);
        let b: int = toll_along(t, step, route, j - 1);
        let s: int = step(route[j], oblique(t, route[j - 1], route[j])).value();
        assert(u * (b + s - a) == u * (b - a) + u * s) by (nonlinear_arith);
    } else {
        assert(u * 0 == 0);
    }
}

/// Estimates shrink along a route by no more than its steps cost, up to rounding.
proof fn lemma_rest(
    t: Model,
    step: spec_fn(int, bool) -> Real,
    exact: spec_fn(int) -> int,
    u: int,
    route: Seq<int>,
    i: int,
    j: int,
)
    requires
        t.valid(),
        stepwise(t, step),
        coherent(t, step, exact, u),
        is_route(t, route),
        0 <= route[0] < cell_count(t),
        0 <= i <= j < route.len(),
    ensures
        0x7f_fffe * t.estimate(route[i]).value() <= 0x80_0001 * (toll_along(t, step, route, j)
            - toll_along(t, step, route, i) + t.estimate(route[j]).value()),
{
    lemma_exact_rest(t, step, exact, u, route, i, j);
    lemma_tolls(t, step, route, i, j);
    let h: int = t.estimate(route[i]).value();
    let k: int = t.estimate(route[j]).value();
    let d: int = toll_along(t, step, route, j) - toll_along(t, step, route, i);
    let g: int = exact(route[i]);
    let f: int = exact(route[j]);
    assert(0x80_0000 * (u * h) <= 0x80_0001 * g);
    assert(0x7f_ffff * f <= 0x80_0000 * (u * k));
    assert(0x7f_fffe * (g - f) <= 0x80_0000 * (u * d));
    let x: int = u * h;
    let y: int = u * (d + k);
    assert(y == u * d + u * k) by (nonlinear_arith)
        requires
            y == u * (d + k),
    ;
    assert(0x7f_fffe * g <= 0x80_0000 * y);
    assert(0x7f_fffe * x <= 0x80_0001 * y);
    assert(0x7f_fffe * h <= 0x80_0001 * (d + k)) by (nonlinear_arith)
        requires
            x == u * h,
            y == u * (d + k),
            0x7f_fffe * x <= 0x80_0001 * y,
            u > 0,
    ;
}

/// Whether a cost exceeds what a route costs up to its `j`-th cell by no more than
/// thirty-two parts in `2^23` of the whole route a step.
spec fn nearly(
    t: Model,
    step: spec_fn(int, bool) -> Real,
    route: Seq<int>,
    j: int,
    cost: Real,
) -> bool {
    0x80_0000 * cost.value() <= 0x80_0000 * toll_along(t, step, route, j) + 32 * (j * route_toll(
        t,
        step,
        route,
    ))
}

proof fn lemma_share(j: int, m: int, w: int)
    requires
        0 <= j <= m,
        32 * m <= 0x80_0000,
        w >= 0,
    ensures
        0 <= 32 * (j * w) <= 0x80_0000 * w,
        (j + 1) * w == j * w + w,
{
    assert(0 <= j * w) by (nonlinear_arith)
        requires
            0 <= j,
            w >= 0,
    ;
    assert(32 * (j * w) <= 0x80_0000 * w) by (nonlinear_arith)
        requires
            32 * j <= 0x80_0000,
            w >= 0,
    ;
    assert((j + 1) * w == j * w + w) by (nonlinear_arith);
}

/// A step from a cell that was reached for nearly what a route costs leads to the
/// next at nearly what the route costs.
proof fn lemma_nearly_step(
    t: Model,
    step: spec_fn(int, bool) -> Real,
    route: Seq<int>,
    j: int,
    c: Real,
)
    requires
        t.valid(),
        stepwise(t, step),
        is_route(t, route),
        0 <= route[0] < cell_count(t),
        32 * (route.len() - 1) <= 0x80_0000,
        0 <= j < route.len() - 1,
        spendable(c),
        nearly(t, step, route, j, c),
    ensures
        nearly(
            t,
            step,
            route,
            j + 1,
            t.extended(c, route[j + 1], oblique(t, route[j], route[j + 1])),
        ),
{
    let m: int = route.len() - 1;
    let w: int = route_toll(t, step, route);
    lemma_tolls(t, step, route, j, j + 1);
    lemma_tolls(t, step, route, j + 1, m);
    lemma_share(j, m, w);
    let s: Real = step(route[j + 1], oblique(t, route[j], route[j + 1]));
    lemma_single_sum_error(c, s);
    assert(toll_along(t, step, route, j + 1) == toll_along(t, step, route, j) + s.value());
}

/// A later cell that scores no more than an earlier one, which was reached for
/// nearly what the route costs, was reached for nearly what the route costs.
proof fn lemma_nearly_later(
    t: Model,
    step: spec_fn(int, bool) -> Real,
    exact: spec_fn(int) -> int,
    u: int,
    route: Seq<int>,
    i: int,
    j: int,
    a: Real,
    b: Real,
)
    requires
        t.valid(),
        stepwise(t, step),
        coherent(t, step, exact, u),
        is_route(t, route),
        0 <= route[0] < cell_count(t),
        exact(route.last()) == 0,
        32 * (route.len() - 1) <= 0x80_0000,
        0 <= i < j < route.len(),
        spendable(a),
        spendable(b),
        nearly(t, step, route, i, a),
        t.score(b, route[j]).spec_total_key() <= t.score(a, route[i]).spec_total_key(),
    ensures
        nearly(t, step, route, j, b),
{
    let m: int = route.len() - 1;
    let w: int = route_toll(t, step, route);
    lemma_tolls(t, step, route, i, j);
    lemma_tolls(t, step, route, j, m);
    lemma_share(i, m, w);
    lemma_share(j, m, w);
    lemma_rest(t, step, exact, u, route, i, j);
    lemma_rest(t, step, exact, u, route, j, m);
    let g: Real = t.estimate(route[i]);
    let h: Real = t.estimate(route[j]);
    let e: int = t.estimate(route[m]).value();
    assert(u * e <= 0);
    assert(e <= 0) by (nonlinear_arith)
        requires
            u * e <= 0,
            u > 0,
    ;
    lemma_scored(a, g);
    lemma_scored(b, h);
    lemma_value_order(t.score(b, route[j]), t.score(a, route[i]));
    let x: int = b.value();
    let y: int = a.value();
    let ei: int = toll_along(t, step, route, i);
    let ej: int = toll_along(t, step, route, j);
    assert(0x7f_ffff * (x + h.value()) <= 0x80_0001 * (y + g.value()));
    let iw: int = i * w;
    let jw: int = j * w;
    assert(jw >= iw + w) by (nonlinear_arith)
        requires
            iw == i * w,
            jw == j * w,
            j >= i + 1,
            w >= 0,
    ;
    assert(y <= 2 * w);
    assert(g.value() <= 2 * w);
    assert(h.value() <= 2 * w);
    assert(x <= 8 * w);
    assert(0x80_0000 * x <= 0x80_0000 * ej + 32 * iw + 32 * w);
}

/// The cost of a route is what its steps cost, up to one part in `2^23` a step.
proof fn lemma_cost_is_toll(
    t: Model,
    step: spec_fn(int, bool) -> Real,
    route: Seq<int>,
    i: int,
)
    requires
        t.valid(),
        stepwise(t, step),
        is_route(t, route),
        0 <= route[0] < cell_count(t),
        0 <= i < route.len(),
        i <= 0x80_0000,
    ensures
        cost_along(t, route, i).value() >= 0,
        (0x80_0000 - i) * toll_along(t, step, route, i) <= 0x80_0000 * cost_along(
            t,
            route,
            i,
        ).value(),
    decreases i,
{
    let good: spec_fn(Real) -> bool = |cost: Real| spendable(cost);
    lemma_stepwise(t, step);
    if i > 0 {
        lemma_cost_is_toll(t, step, route, i - 1);
        lemma_cost_along(t, good, route, i - 1);
        lemma_tolls(t, step, route, i - 1, i);
        let c: Real = cost_along(t, route, i - 1);
        assert(good(c));
        let s: Real = step(route[i], oblique(t, route[i - 1], route[i]));
        assert(t.extended(c, route[i], oblique(t, route[i - 1], route[i])) == c.single_sum(s));
        lemma_single_sum_error(c, s);
        let n: int = 0x80_0000;
        let e: int = toll_along(t, step, route, i - 1);
        let x: int = c.value();
        let y: int = s.value();
        let v: int = c.single_sum(s).value();
        lemma_toll_step(n, i - 1, e, x, y, v);
    } else {
        lemma_size_of_zero(Real { bits: 0 });
        assert((0x80_0000 - i) * 0 == 0);
    }
}

proof fn lemma_toll_step(n: int, i: int, e: int, x: int, y: int, v: int)
    requires
        0 <= i < n,
        e >= 0,
        x >= 0,
        y >= 0,
        (n - i) * e <= n * x,
        n * (x + y) <= n * v + (x + y),
    ensures
        (n - (i + 1)) * (e + y) <= n * v,
{
    // (n - 1) * x >= (n - i - 1) * e
    assert((n - 1) * ((n - i) * e) <= (n - 1) * (n * x)) by (nonlinear_arith)
        requires
            (n - i) * e <= n * x,
            n >= 1,
    ;
    assert((n - 1) * ((n - i) * e) == n * ((n - i - 1) * e) + i * e) by (nonlinear_arith);
    assert(i * e >= 0) by (nonlinear_arith)
        requires
            i >= 0,
            e >= 0,
    ;
    assert((n - 1) * (n * x) == n * ((n - 1) * x)) by (nonlinear_arith);
    assert((n - i - 1) * e <= (n - 1) * x) by (nonlinear_arith)
        requires
            n * ((n - i - 1) * e) <= n * ((n - 1) * x),
            n > 0,
    ;
    assert((n - i - 1) * y <= (n - 1) * y) by (nonlinear_arith)
        requires
            i >= 0,
            y >= 0,
    ;
    assert((n - (i + 1)) * (e + y) == (n - i - 1) * e + (n - i - 1) * y) by (nonlinear_arith);
    assert((n - 1) * x + (n - 1) * y == n * (x + y) - (x + y)) by (nonlinear_arith);
}

/// The bounds that the cells of a route put on what is found.
proof fn lemma_nearly_bounds(
    t: Model,
    step: spec_fn(int, bool) -> Real,
    exact: spec_fn(int) -> int,
    u: int,
    route: Seq<int>,
)
    requires
        t.valid(),
        stepwise(t, step),
        coherent(t, step, exact, u),
        is_route(t, route),
        0 <= route[0] < cell_count(t),
        exact(route.last()) == 0,
        32 * (route.len() - 1) <= 0x80_0000,
    ensures
        bounds(
            t,
            |cost: Real| spendable(cost),
            route,
            |j: int, cost: Real| nearly(t, step, route, j, cost),
        ),
{
    let good: spec_fn(Real) -> bool = |cost: Real| spendable(cost);
    let fits: spec_fn(int, Real) -> bool = |j: int, cost: Real| nearly(t, step, route, j, cost);
    assert(fits(0, Real { bits: 0 })) by {
        lemma_size_of_zero(Real { bits: 0 });
        assert(0 * route_toll(t, step, route) == 0);
    }
    assert forall|j: int, a: Real, b: Real|
        good(a) && good(b) && a.rank() <= b.rank() && #[trigger] fits(j, b) implies #[trigger] fits(
        j,
        a,
    ) by {
        lemma_value_order(a, b);
    }
    assert forall|j: int, c: Real|
        0 <= j < route.len() - 1 && good(c) && #[trigger] fits(j, c) implies fits(
        j + 1,
        t.extended(c, route[j + 1], oblique(t, route[j], route[j + 1])),
    ) by {
        lemma_nearly_step(t, step, route, j, c);
    }
    assert forall|i: int, j: int, a: Real, b: Real|
        0 <= i < j < route.len() && good(a) && good(b) && #[trigger] fits(i, a) && t.score(
            b,
            route[j],
        ).spec_total_key() <= t.score(a, route[i]).spec_total_key() implies #[trigger] fits(j, b) by {
        lemma_nearly_later(t, step, exact, u, route, i, j, a, b);
    }
}

/// What is left of a bound on a cost when it becomes one on the steps.
proof fn lemma_shares(n: int, a: int, m: int, found: int, cost: int, w: int)
    requires
        n > 0,
        a >= 0,
        m >= 0,
        w >= 0,
        32 * (a + m) <= n,
        (n - a) * found <= n * cost,
        n * cost <= n * w + 32 * (m * w),
    ensures
        (n - 32 * (a + m)) * found <= n * w,
{
    let k: int = n - 32 * (a + m);
    let b: int = n - a;
    assert(k * (b * found) <= k * (n * w + 32 * (m * w))) by (nonlinear_arith)
        requires
            b * found <= n * w + 32 * (m * w),
            k >= 0,
    ;
    assert(k * (b * found) == b * (k * found)) by (nonlinear_arith);
    assert(k * (n * w + 32 * (m * w)) == (k * (n + 32 * m)) * w) by (nonlinear_arith);
    assert(k * (n + 32 * m) <= b * n) by (nonlinear_arith)
        requires
            k == n - 32 * (a + m),
            b == n - a,
            a >= 0,
            m >= 0,
            n > 0,
    ;
    assert((k * (n + 32 * m)) * w <= (b * n) * w) by (nonlinear_arith)
        requires
            k * (n + 32 * m) <= b * n,
            w >= 0,
    ;
    assert((b * n) * w == b * (n * w)) by (nonlinear_arith);
    if b > 0 {
        assert(k * found <= n * w) by (nonlinear_arith)
            requires
                b * (k * found) <= b * (n * w),
                b > 0,
        ;
    } else {
        assert(n == 0);
    }
}

/// Where a route leads to its target, a search that ends before its cap finds a
/// way, and the steps of that way cost no more than those of the route, up to
/// thirty-two parts in `2^23` a step of either.
pub proof fn lemma_found_way_is_cheapest(
    t: Model,
    step: spec_fn(int, bool) -> Real,
    exact: spec_fn(int) -> int,
    u: int,
    start: int,
    target: int,
    cap: nat,
    route: Seq<int>,
)
    requires
        t.valid(),
        stepwise(t, step),
        coherent(t, step, exact, u),
        is_route(t, route),
        0 <= start < cell_count(t),
        route[0] == start,
        route.last() == target,
        exact(target) == 0,
        finish(t, start, target, cap).phase != Phase::Capped,
    ensures
        finish(t, start, target, cap).phase == Phase::Found,
        ({
            let labels: Map<int, Label> = finish(t, start, target, cap).frontier.labels;
            let way: Option<Seq<int>> = way_back(labels, start, target, cell_count(t) as nat);
            let found: Seq<int> = way.unwrap().reverse();
            let steps: int = found.len() + route.len() - 2;
            &&& way is Some
            &&& found.len() > 0
            &&& (0x80_0000 - 32 * steps) * route_toll(t, step, found) <= 0x80_0000 * route_toll(
                t,
                step,
                route,
            )
        }),
{
    let good: spec_fn(Real) -> bool = |cost: Real| spendable(cost);
    lemma_stepwise(t, step);
    lemma_search_ends(t, start, target, cap);
    lemma_settling_decides(t, start, target, cap, good);
    assert(is_route(t, route) && route[0] == start && route.last() == target);
    assert(reachable(t, start, target));
    let labels: Map<int, Label> = finish(t, start, target, cap).frontier.labels;
    let way: Seq<int> = way_back(labels, start, target, cell_count(t) as nat).unwrap();
    lemma_way_back_is_route(
        t,
        finish(t, start, target, cap).frontier,
        start,
        target,
        cell_count(t) as nat,
    );
    let found: Seq<int> = way.reverse();
    assert(found[0] == start);
    let a: int = found.len() - 1;
    let m: int = route.len() - 1;
    let w: int = route_toll(t, step, route);
    lemma_tolls(t, step, route, 0, m);
    lemma_tolls(t, step, found, 0, a);
    if 32 * (a + m) <= 0x80_0000 {
        let fits: spec_fn(int, Real) -> bool = |j: int, cost: Real|
            nearly(t, step, route, j, cost);
        lemma_nearly_bounds(t, step, exact, u, route);
        lemma_found_way_within(t, start, target, cap, good, route, fits);
        let cost: Real = route_cost(t, found);
        assert(fits(m, cost));
        lemma_cost_is_toll(t, step, found, a);
        lemma_shares(0x80_0000, a, m, route_toll(t, step, found), cost.value(), w);
    } else {
        let k: int = 0x80_0000 - 32 * (a + m);
        let f: int = route_toll(t, step, found);
        assert(k * f <= 0) by (nonlinear_arith)
            requires
                k <= 0,
                f >= 0,
        ;
    }
}

} // verus!
