//! The shares of a segment at which a ray crosses boundaries between cells are
//! computed to within a few parts in `2^53` for every boundary.
use vstd::arithmetic::div_mod::*;
use vstd::arithmetic::power2::*;
use vstd::prelude::*;

use crate::conversion::lemma_neg_value;
use crate::geometry::{ONE, ZERO};
use crate::number::{from_sum, Real, UNIT};
use crate::ordering::{
    lemma_int_exact, lemma_sum_error, lemma_sum_monotone, lemma_value_order, lemma_value_rank,
    lemma_zero_rank,
};
use crate::raycast::{apart, crossing_step, first_crossing, lemma_positive_sum, towards};
use crate::roots::lemma_quotient_at_most_one;
use crate::shortest::lemma_step_lengths;
use crate::unit::{
    lemma_quotient_error, lemma_quotient_error_below, lemma_size_of_zero,
};

verus! {

/// The width of a cell, in the units in which numbers are counted.
pub open spec fn cell_unit() -> int {
    pow2(1074) as int
}

/// Whether a coordinate, counted in cells, lies in a column (or row) of a grid
/// that is not too large to be counted exactly.
pub open spec fn placed(s: Real, cell: int) -> bool {
    &&& s.finite()
    &&& 0 <= cell <= 0x4000_0000
    &&& cell * cell_unit() <= s.value() < (cell + 1) * cell_unit()
}

/// Exact length of a segment along one axis.
pub open spec fn extent(s: Real, e: Real) -> int {
    apart(s.value(), e.value())
}

/// Exact distance from the start of a segment to where it leaves a column (or
/// row) of cells.
pub open spec fn to_exit(s: Real, cell: int, step: int) -> int {
    if step == 1 {
        (cell + 1) * cell_unit() - s.value()
    } else {
        s.value() - cell * cell_unit()
    }
}

/// Whether `t` is the share of a segment at which it leaves a column (or row) of
/// cells, up to six parts in `2^53` for each of `k` boundaries and the first.
pub open spec fn timely(t: Real, s: Real, e: Real, cell: int, step: int, k: int) -> bool {
    let l: int = extent(s, e);
    let exact: int = to_exit(s, cell, step) * cell_unit();
    let error: int = 6 * ((k + 1) * (l * cell_unit()));
    &&& t.finite()
    &&& t.rank() >= 0
    &&& 0x20_0000_0000_0000 * (t.value() * l) <= 0x20_0000_0000_0000 * exact + error
    &&& 0x20_0000_0000_0000 * exact <= 0x20_0000_0000_0000 * (t.value() * l) + error
}

/// A coordinate lies in the cell that it is rounded down to.
pub proof fn lemma_placed(s: Real, cell: int)
    requires
        !s.nan(),
        0 <= cell <= 0x4000_0000,
        s.floor_int() == cell,
    ensures
        placed(s, cell),
{
    let u: int = cell_unit();
    lemma_pow2_pos(1074);
    lemma_fundamental_div_mod(s.value(), u);
    lemma_mod_bound(s.value(), u);
    let q: int = s.value() / u;
    assert(q == cell);
    assert((cell + 1) * u == u * cell + u) by (nonlinear_arith);
    assert(cell * u == u * cell) by (nonlinear_arith);
}

/// A difference that is not too large is rounded by at most one part in `2^53`.
proof fn lemma_difference(x: Real, y: Real)
    requires
        x.finite(),
        y.finite(),
        apart(x.value(), y.value()) <= 0x1_0000_0000 * cell_unit(),
    ensures
        ({
            let d: int = x.value() - y.value();
            let r: Real = x.sub(y);
            let n: int = apart(x.value(), y.value());
            &&& r.finite()
            &&& d > 0 ==> r.rank() > 0 && !r.negative()
            &&& d < 0 ==> r.rank() < 0 && r.negative()
            &&& d == 0 ==> r.magnitude() == 0
            &&& r.magnitude() == from_sum(n, false).magnitude()
            &&& 0x20_0000_0000_0000 * r.size() <= 0x20_0000_0000_0000 * n + n
            &&& 0x20_0000_0000_0000 * n <= 0x20_0000_0000_0000 * r.size() + r.size()
        }),
{
    reveal(Real::spec_add);
    lemma2_to64_rest();
    lemma_neg_value(y);
    let r: Real = x.sub(y);
    let n: int = apart(x.value(), y.value());
    let s: Real = from_sum(n, false);
    let top: Real = Real { bits: 0x41f0_0000_0000_0000 };
    lemma_top();
    lemma_sum_monotone(n, top.value(), false, false);
    lemma_value_rank(top, false);
    assert(s.finite());
    lemma_sum_error(n as nat);
    if n > 0 {
        lemma_positive_sum(n);
    } else {
        lemma_size_of_zero(r);
    }
    assert(r.magnitude() == s.magnitude());
    assert(r.size() == s.size());
    lemma_zero_rank(s);
}

/// The share at which a segment leaves its first column (or row), from rounded
/// distances.
proof fn lemma_first_share(u: int, l: int, x: int, d: int, m: int, t: int)
    requires
        u >= 0x100_0000_0000_0000,
        0 <= x <= l,
        l > 0,
        m >= 0,
        0 <= t <= u,
        d >= 0,
        0x20_0000_0000_0000 * d <= 0x20_0000_0000_0000 * l + l,
        0x20_0000_0000_0000 * l <= 0x20_0000_0000_0000 * d + d,
        0x20_0000_0000_0000 * m <= 0x20_0000_0000_0000 * x + x,
        0x20_0000_0000_0000 * x <= 0x20_0000_0000_0000 * m + m,
        0x1f_ffff_ffff_ffff * (t * d) <= 0x20_0000_0000_0001 * (m * u) + 0x20_0000_0000_0000 * d,
        0x1f_ffff_ffff_ffff * (m * u) <= 0x20_0000_0000_0001 * (t * d) + 0x20_0000_0000_0000 * d,
    ensures
        0x20_0000_0000_0000 * (t * l) <= 0x20_0000_0000_0000 * (x * u) + 5 * (l * u),
        0x20_0000_0000_0000 * (x * u) <= 0x20_0000_0000_0000 * (t * l) + 5 * (l * u),
{
    let a: int = t * l;
    let b: int = t * d;
    let c: int = m * u;
    let e: int = x * u;
    let f: int = l * u;
    assert(0x20_0000_0000_0000 * b <= 0x20_0000_0000_0000 * a + a) by (nonlinear_arith)
        requires
            a == t * l,
            b == t * d,
            t >= 0,
            0x20_0000_0000_0000 * d <= 0x20_0000_0000_0000 * l + l,
    ;
    assert(0x20_0000_0000_0000 * a <= 0x20_0000_0000_0000 * b + b) by (nonlinear_arith)
        requires
            a == t * l,
            b == t * d,
            t >= 0,
            0x20_0000_0000_0000 * l <= 0x20_0000_0000_0000 * d + d,
    ;
    assert(0x20_0000_0000_0000 * c <= 0x20_0000_0000_0000 * e + e) by (nonlinear_arith)
        requires
            c == m * u,
            e == x * u,
            u >= 0,
            0x20_0000_0000_0000 * m <= 0x20_0000_0000_0000 * x + x,
    ;
    assert(0x20_0000_0000_0000 * e <= 0x20_0000_0000_0000 * c + c) by (nonlinear_arith)
        requires
            c == m * u,
            e == x * u,
            u >= 0,
            0x20_0000_0000_0000 * x <= 0x20_0000_0000_0000 * m + m,
    ;
    assert(0 <= a <= f) by (nonlinear_arith)
        requires
            a == t * l,
            f == l * u,
            0 <= t <= u,
            l > 0,
    ;
    assert(0 <= e <= f) by (nonlinear_arith)
        requires
            e == x * u,
            f == l * u,
            0 <= x <= l,
            u > 0,
    ;
    assert(0x100_0000_0000_0000 * l <= f) by (nonlinear_arith)
        requires
            f == l * u,
            l > 0,
            u >= 0x100_0000_0000_0000,
    ;
}

/// The share between two boundaries, from the rounded length.
proof fn lemma_share_between(u: int, l: int, d: int, t: int)
    requires
        u >= 0x100_0000_0000_0000,
        l >= u,
        0 <= t <= u,
        d >= 0,
        0x20_0000_0000_0000 * d <= 0x20_0000_0000_0000 * l + l,
        0x20_0000_0000_0000 * l <= 0x20_0000_0000_0000 * d + d,
        0x1f_ffff_ffff_ffff * (t * d) <= 0x20_0000_0000_0001 * (u * u) + 0x20_0000_0000_0000 * d,
        0x1f_ffff_ffff_ffff * (u * u) <= 0x20_0000_0000_0001 * (t * d) + 0x20_0000_0000_0000 * d,
    ensures
        0x20_0000_0000_0000 * (t * l) <= 0x20_0000_0000_0000 * (u * u) + 4 * (l * u),
        0x20_0000_0000_0000 * (u * u) <= 0x20_0000_0000_0000 * (t * l) + 4 * (l * u),
{
    let a: int = t * l;
    let b: int = t * d;
    let e: int = u * u;
    let f: int = l * u;
    assert(0x20_0000_0000_0000 * b <= 0x20_0000_0000_0000 * a + a) by (nonlinear_arith)
        requires
            a == t * l,
            b == t * d,
            t >= 0,
            0x20_0000_0000_0000 * d <= 0x20_0000_0000_0000 * l + l,
    ;
    assert(0x20_0000_0000_0000 * a <= 0x20_0000_0000_0000 * b + b) by (nonlinear_arith)
        requires
            a == t * l,
            b == t * d,
            t >= 0,
            0x20_0000_0000_0000 * l <= 0x20_0000_0000_0000 * d + d,
    ;
    assert(0 <= a <= f) by (nonlinear_arith)
        requires
            a == t * l,
            f == l * u,
            0 <= t <= u,
            l > 0,
    ;
    assert(0 <= e <= f) by (nonlinear_arith)
        requires
            e == u * u,
            f == l * u,
            u <= l,
            u > 0,
    ;
    assert(0x100_0000_0000_0000 * l <= f) by (nonlinear_arith)
        requires
            f == l * u,
            l > 0,
            u >= 0x100_0000_0000_0000,
    ;
}

/// One more boundary.
proof fn lemma_next_share(u: int, l: int, x: int, k: int, t: int, d: int, s: int)
    requires
        u > 0,
        l > 0,
        0 <= k <= 0x8000_0000,
        t >= 0,
        d >= 0,
        s >= 0,
        x + u <= l,
        0x20_0000_0000_0000 * (t * l) <= 0x20_0000_0000_0000 * (x * u) + 6 * ((k + 1) * (l * u)),
        0x20_0000_0000_0000 * (x * u) <= 0x20_0000_0000_0000 * (t * l) + 6 * ((k + 1) * (l * u)),
        0x20_0000_0000_0000 * (d * l) <= 0x20_0000_0000_0000 * (u * u) + 4 * (l * u),
        0x20_0000_0000_0000 * (u * u) <= 0x20_0000_0000_0000 * (d * l) + 4 * (l * u),
        0x20_0000_0000_0000 * s <= 0x20_0000_0000_0000 * (t + d) + (t + d),
        0x20_0000_0000_0000 * (t + d) <= 0x20_0000_0000_0000 * s + s,
    ensures
        0x20_0000_0000_0000 * (s * l) <= 0x20_0000_0000_0000 * ((x + u) * u) + 6 * ((k + 2) * (l
            * u)),
        0x20_0000_0000_0000 * ((x + u) * u) <= 0x20_0000_0000_0000 * (s * l) + 6 * ((k + 2) * (l
            * u)),
{
    let f: int = l * u;
    let a: int = t * l;
    let b: int = d * l;
    let c: int = s * l;
    let e: int = (x + u) * u;
    let h: int = (k + 1) * f;
    assert(e == x * u + u * u) by (nonlinear_arith)
        requires
            e == (x + u) * u,
    ;
    assert((k + 2) * f == h + f) by (nonlinear_arith)
        requires
            h == (k + 1) * f,
    ;
    assert(0x20_0000_0000_0000 * c <= 0x20_0000_0000_0000 * (a + b) + (a + b) && 0x20_0000_0000_0000
        * (a + b) <= 0x20_0000_0000_0000 * c + c) by (nonlinear_arith)
        requires
            a == t * l,
            b == d * l,
            c == s * l,
            l > 0,
            0x20_0000_0000_0000 * s <= 0x20_0000_0000_0000 * (t + d) + (t + d),
            0x20_0000_0000_0000 * (t + d) <= 0x20_0000_0000_0000 * s + s,
    ;
    assert(e <= f) by (nonlinear_arith)
        requires
            e == (x + u) * u,
            f == l * u,
            x + u <= l,
            u > 0,
    ;
    assert(f > 0) by (nonlinear_arith)
        requires
            f == l * u,
            l > 0,
            u > 0,
    ;
    assert(h <= 0x8000_0001 * f) by (nonlinear_arith)
        requires
            h == (k + 1) * f,
            k <= 0x8000_0000,
            f > 0,
    ;
}

/// The axis of a segment that leaves its first column (or row).
pub open spec fn crosses(s: Real, e: Real, first: int, last: int) -> bool {
    &&& placed(s, first)
    &&& placed(e, last)
    &&& first != last
}

/// Directions of steps, and lengths, along an axis.
pub proof fn lemma_axis(s: Real, e: Real, first: int, last: int)
    requires
        placed(s, first),
        placed(e, last),
    ensures
        ({
            let d: Real = e.sub(s);
            let l: int = extent(s, e);
            &&& d.finite()
            &&& towards(d) == 1 <==> s.value() < e.value()
            &&& towards(d) == 1 || towards(d) == -1
            &&& first < last ==> s.value() < e.value()
            &&& last < first ==> e.value() < s.value()
            &&& l <= 0x1_0000_0000 * cell_unit()
            &&& l > 0 ==> !d.num_eq(Real::of(ZERO)) && d.magnitude() > 0
            &&& d.magnitude() == from_sum(l, false).magnitude()
            &&& 0x20_0000_0000_0000 * d.size() <= 0x20_0000_0000_0000 * l + l
            &&& 0x20_0000_0000_0000 * l <= 0x20_0000_0000_0000 * d.size() + d.size()
            &&& s.value() < e.value() ==> !d.negative()
            &&& e.value() < s.value() ==> d.negative()
        }),
{
    let u: int = cell_unit();
    lemma_pow2_pos(1074);
    let x: int = s.value();
    let y: int = e.value();
    assert(first < last ==> x < y) by (nonlinear_arith)
        requires
            x < (first + 1) * u,
            last * u <= y,
            u > 0,
    ;
    assert(last < first ==> y < x) by (nonlinear_arith)
        requires
            y < (last + 1) * u,
            first * u <= x,
            u > 0,
    ;
    assert(0 <= x <= 0x4000_0001 * u && 0 <= y <= 0x4000_0001 * u) by (nonlinear_arith)
        requires
            first * u <= x < (first + 1) * u,
            last * u <= y < (last + 1) * u,
            0 <= first <= 0x4000_0000,
            0 <= last <= 0x4000_0000,
            u > 0,
    ;
    lemma_difference(e, s);
}

/// A whole number of cells is represented exactly.
proof fn lemma_boundary(n: int)
    requires
        0 <= n <= 0x4000_0001,
    ensures
        Real::from_int(n as isize).finite(),
        Real::from_int(n as isize).value() == n * cell_unit(),
        n <= 0x4000_0000 ==> {
            let next: Real = Real::from_int(n as isize).add(Real::of(ONE));
            next.finite() && next.value() == (n + 1) * cell_unit()
        },
{
    lemma_whole(n);
    if n <= 0x4000_0000 {
        reveal(Real::spec_add);
        lemma_whole(n + 1);
        lemma_whole(1);
        let u: int = cell_unit();
        let one: Real = Real::of(ONE);
        assert(one.value() == u) by {
            lemma_step_lengths();
        }
        assert(n * u + u == (n + 1) * u) by (nonlinear_arith);
        let next: Real = Real::from_int((n + 1) as isize);
        lemma_value_rank(next, false);
        let sum: Real = Real::from_int(n as isize).add(one);
        assert(sum.rank() == next.rank());
        lemma_value_order(sum, next);
        lemma_value_order(next, sum);
    }
}

proof fn lemma_whole(n: int)
    requires
        0 <= n <= 0x4000_0001,
    ensures
        Real::from_int(n as isize).finite(),
        Real::from_int(n as isize).value() == n * cell_unit(),
{
    if n > 0 {
        lemma_int_exact(n as isize);
    } else {
        let zero: Real = Real::from_int(0);
        assert(zero.magnitude() == 0);
        lemma_size_of_zero(zero);
        assert(0 * cell_unit() == 0);
    }
}

/// The exit of the first column (or row) lies on the segment.
pub proof fn lemma_exit_ahead(s: Real, e: Real, first: int, last: int, cell: int, step: int)
    requires
        crosses(s, e, first, last),
        step == towards(e.sub(s)),
        first <= cell < last || last < cell <= first,
    ensures
        0 <= to_exit(s, cell, step) <= extent(s, e),
        step == 1 <==> first < last,
        step == 1 || step == -1,
        cell + step != last ==> to_exit(s, cell, step) + cell_unit() <= extent(s, e) && to_exit(
            s,
            cell + step,
            step,
        ) == to_exit(s, cell, step) + cell_unit() && extent(s, e) >= cell_unit(),
{
    let u: int = cell_unit();
    lemma_pow2_pos(1074);
    lemma_axis(s, e, first, last);
    let x: int = s.value();
    let y: int = e.value();
    if first < last {
        assert(x <= (cell + 1) * u <= y && (cell + 2 <= last ==> (cell + 1) * u + u <= y))
            by (nonlinear_arith)
            requires
                x < (first + 1) * u,
                last * u <= y,
                first <= cell < last,
                u > 0,
        ;
        assert((cell + 1 + 1) * u == (cell + 1) * u + u) by (nonlinear_arith);
    } else {
        assert(y <= cell * u <= x && (cell >= last + 2 ==> y <= cell * u - u)) by (nonlinear_arith)
            requires
                first * u <= x,
                y < (last + 1) * u,
                last < cell <= first,
                u > 0,
        ;
        assert((cell - 1) * u == cell * u - u) by (nonlinear_arith);
    }
}

/// The share of a segment at which it leaves its first column (or row) of cells
/// is computed up to six parts in `2^53`.
pub proof fn lemma_first_crossing(s: Real, e: Real, first: int, last: int)
    requires
        crosses(s, e, first, last),
    ensures
        ({
            let d: Real = e.sub(s);
            timely(
                first_crossing(s, d, first as isize),
                s,
                e,
                first,
                towards(d) as int,
                0,
            )
        }),
{
    let u: int = cell_unit();
    let d: Real = e.sub(s);
    let step: int = towards(d) as int;
    let l: int = extent(s, e);
    lemma2_to64_rest();
    lemma_axis(s, e, first, last);
    lemma_exit_ahead(s, e, first, last, first, step);
    lemma_boundary(first);
    lemma_large_unit();
    let boundary: Real = if step == 1 {
        Real::from_int(first as isize).add(Real::of(ONE))
    } else {
        Real::from_int(first as isize)
    };
    let x: int = to_exit(s, first, step);
    assert(apart(boundary.value(), s.value()) == x);
    lemma_difference(boundary, s);
    let a: Real = boundary.sub(s);
    let t: Real = a.div(d);
    assert(t == first_crossing(s, d, first as isize));
    lemma_sum_monotone(x, l, false, false);
    let fx: Real = from_sum(x, false);
    let fl: Real = from_sum(l, false);
    assert(fx.rank() == fx.magnitude() && fl.rank() == fl.magnitude());
    assert(a.magnitude() <= d.magnitude());
    lemma_quotient_at_most_one(a, d);
    assert(t.finite());
    let m: int = a.size() as int;
    let w: int = d.size() as int;
    let f: int = l * u;
    assert((0 + 1) * f == f) by (nonlinear_arith);
    if x == 0 {
        assert(t.magnitude() == 0) by {
            reveal(Real::spec_div);
        }
        lemma_size_of_zero(t);
        assert(0 * l == 0 && 0 * u == 0);
        assert(l * u >= 0) by (nonlinear_arith)
            requires
                l > 0,
                u > 0,
        ;
    } else {
        lemma_quotient_error(a, d);
        lemma_quotient_error_below(a, d);
        assert(!t.negative()) by {
            reveal(Real::spec_div);
        }
        let one: Real = Real::of(ONE);
        lemma_step_lengths();
        lemma_value_order(t, one);
        assert(t.value() == t.size());
        lemma_first_share(u, l, x, w, m, t.value());
    }
}

pub proof fn lemma_large_unit()
    ensures
        cell_unit() >= 0x100_0000_0000_0000,
{
    lemma2_to64();
    lemma2_to64_rest();
    lemma_pow2_strictly_increases(56, 1074);
    assert(pow2(56) == 0x100_0000_0000_0000);
}

/// Adding the share between two boundaries leads to the next one.
pub proof fn lemma_next_crossing(
    t: Real,
    s: Real,
    e: Real,
    first: int,
    last: int,
    cell: int,
    k: int,
)
    requires
        crosses(s, e, first, last),
        first <= cell < last || last < cell <= first,
        timely(t, s, e, cell, towards(e.sub(s)) as int, k),
        cell + towards(e.sub(s)) != last,
        0 <= k <= 0x8000_0000,
    ensures
        timely(
            t.add(crossing_step(e.sub(s))),
            s,
            e,
            cell + towards(e.sub(s)),
            towards(e.sub(s)) as int,
            k + 1,
        ),
{
    let u: int = cell_unit();
    let d: Real = e.sub(s);
    let step: int = towards(d) as int;
    let l: int = extent(s, e);
    lemma2_to64_rest();
    lemma_axis(s, e, first, last);
    lemma_exit_ahead(s, e, first, last, cell, step);
    lemma_large_unit();
    lemma_step_lengths();
    let one: Real = Real::of(ONE);
    lemma_sum_monotone(one.value(), l, false, false);
    lemma_value_rank(one, false);
    let fl: Real = from_sum(l, false);
    assert(fl.rank() == fl.magnitude());
    lemma_quotient_at_most_one(one, d);
    let q: Real = one.div(d);
    assert(q.finite());
    lemma_quotient_error(one, d);
    lemma_quotient_error_below(one, d);
    let g: Real = q.abs();
    assert(g == crossing_step(d));
    assert(g.size() == q.size());
    lemma_value_order(g, one);
    let w: int = d.size() as int;
    lemma_share_between(u, l, w, g.value());
    lemma_zero_rank(t);
    let x: int = to_exit(s, cell, step);
    // the sum
    reveal(Real::spec_add);
    let total: int = t.value() + g.value();
    let sum: Real = t.add(g);
    lemma_share_is_small(u, l, x, k, t.value());
    let top: Real = Real { bits: 0x41f0_0000_0000_0000 };
    lemma_top();
    lemma_sum_monotone(total, top.value(), false, false);
    lemma_sum_monotone(0, total, false, false);
    lemma_value_rank(top, false);
    lemma_sum_error(total as nat);
    assert(sum == from_sum(total, t.negative() && g.negative()));
    assert(!g.negative());
    assert(sum == from_sum(total, false));
    lemma_next_share(u, l, x, k, t.value(), g.value(), sum.value());
}

proof fn lemma_top()
    ensures
        Real::of(0x41f0_0000_0000_0000).value() == 0x1_0000_0000 * cell_unit(),
        Real::of(0x41f0_0000_0000_0000).finite(),
{
    let top: Real = Real { bits: 0x41f0_0000_0000_0000 };
    assert(top.significand() == UNIT as nat && top.exponent() == -20);
    lemma2_to64();
    lemma_pow2_adds(20, 1054);
    let c: nat = pow2(1054);
    assert(UNIT as nat * c == 0x1_0000_0000 * (0x10_0000 * c)) by (nonlinear_arith);
}

/// A timely share is no larger than two.
proof fn lemma_share_is_small(u: int, l: int, x: int, k: int, t: int)
    requires
        u > 0,
        l > 0,
        x <= l,
        0 <= k <= 0x8000_0000,
        0x20_0000_0000_0000 * (t * l) <= 0x20_0000_0000_0000 * (x * u) + 6 * ((k + 1) * (l * u)),
    ensures
        t <= 2 * u,
{
    let f: int = l * u;
    let a: int = t * l;
    let e: int = x * u;
    let h: int = (k + 1) * f;
    assert(e <= f) by (nonlinear_arith)
        requires
            e == x * u,
            f == l * u,
            x <= l,
            u > 0,
    ;
    assert(f > 0) by (nonlinear_arith)
        requires
            f == l * u,
            l > 0,
            u > 0,
    ;
    assert(h <= 0x8000_0001 * f) by (nonlinear_arith)
        requires
            h == (k + 1) * f,
            k <= 0x8000_0000,
            f > 0,
    ;
    assert(a <= 2 * f);
    assert(t <= 2 * u) by (nonlinear_arith)
        requires
            a == t * l,
            f == l * u,
            a <= 2 * f,
            l > 0,
    ;
}

} // verus!
