//! What a clear ray means: no point of the segment lies in a blocked cell, but
//! for a sliver at the cell's edges.
use vstd::arithmetic::power2::*;
use vstd::prelude::*;

use crate::conversion::lemma_neg_value;
use crate::crossing::{
    cell_unit, crosses, extent, lemma_axis, lemma_exit_ahead, lemma_first_crossing, lemma_next_crossing,
    lemma_placed, placed, timely, to_exit,
};
use crate::dilation::{gap, lemma_open_cell_keeps_clearance};
use crate::geometry::Point;
use crate::number::{from_sum, Real};
use crate::ordering::{lemma_sum_monotone, lemma_value_order, lemma_value_rank};
use crate::raycast::{
    apart, crossing_step, first_crossing, lemma_clear_segment_ends_in_the_open, runs_clear,
    spec_on_corner, towards, Course,
};
use crate::walk::{WalkView, CORNER_TOLERANCE};

verus! {

/// How far a computed ray strays from the segment in a grid of up to `n` columns
/// and rows, in units of which a cell has `2^1074`: `n * (n + 1024) / 2^50` of a
/// cell.
pub open spec fn sliver(n: int) -> int {
    (n * (n + 1024)) * pow2(1024)
}

/// The coordinate, `whole` times over, of the point that lies `part` of `whole`
/// along a segment.
pub open spec fn along(s: Real, e: Real, part: int, whole: int) -> int {
    s.value() * (whole - part) + e.value() * part
}

/// Whether a coordinate, taken `whole` times over, lies in a column (or row) of
/// cells, widened by `slack` on either side.
pub open spec fn lies_near(x: int, whole: int, cell: int, slack: int) -> bool {
    (cell * cell_unit() - slack) * whole <= x <= ((cell + 1) * cell_unit() + slack) * whole
}

/// Whether the point that lies `part` of `whole` along a segment lies in a cell,
/// widened by `slack` on every side.
pub open spec fn point_near(
    a: Point,
    b: Point,
    part: int,
    whole: int,
    cell: (int, int),
    slack: int,
) -> bool {
    &&& lies_near(along(a.x, b.x, part, whole), whole, cell.0, slack)
    &&& lies_near(along(a.z, b.z, part, whole), whole, cell.1, slack)
}

/// Whether the point that lies `part` of `whole` along a segment lies in a cell,
/// more than `slack` away from its edges.
pub open spec fn lies_well_inside(
    a: Point,
    b: Point,
    part: int,
    whole: int,
    cell: (int, int),
    slack: int,
) -> bool {
    let x: int = along(a.x, b.x, part, whole);
    let z: int = along(a.z, b.z, part, whole);
    &&& (cell.0 * cell_unit() + slack) * whole < x < ((cell.0 + 1) * cell_unit() - slack) * whole
    &&& (cell.1 * cell_unit() + slack) * whole < z < ((cell.1 + 1) * cell_unit() - slack) * whole
}

/// Whether a point of a segment has come as far as a column (or row) of cells,
/// but for `slack`.
spec fn entered(x: int, whole: int, cell: int, step: int, slack: int) -> bool {
    if step == 1 {
        (cell * cell_unit() - slack) * whole <= x
    } else {
        x <= ((cell + 1) * cell_unit() + slack) * whole
    }
}

/// Whether a point of a segment has not left a column (or row) of cells by more
/// than `slack`.
spec fn not_left(x: int, whole: int, cell: int, step: int, slack: int) -> bool {
    if step == 1 {
        x <= ((cell + 1) * cell_unit() + slack) * whole
    } else {
        (cell * cell_unit() - slack) * whole <= x
    }
}

/// What a ray keeps up along one axis, `k` boundaries after its start: the cell
/// lies on the way, the next crossing is timely, and the point has been entered.
spec fn keeps_time(
    s: Real,
    e: Real,
    first: int,
    last: int,
    cell: int,
    t: Real,
    n: int,
) -> bool {
    &&& placed(s, first)
    &&& placed(e, last)
    &&& 0 <= first < n
    &&& 0 <= last < n
    &&& first <= cell <= last || last <= cell <= first
    &&& cell != last ==> timely(t, s, e, cell, towards(e.sub(s)) as int, apart(cell, first))
}

/// Points of a segment lie between its ends.
proof fn lemma_along(s: Real, e: Real, part: int, whole: int)
    requires
        0 <= part <= whole,
    ensures
        s.value() <= e.value() ==> s.value() * whole <= along(s, e, part, whole) <= e.value()
            * whole,
        e.value() <= s.value() ==> e.value() * whole <= along(s, e, part, whole) <= s.value()
            * whole,
        s.value() <= e.value() ==> along(s, e, part, whole) - s.value() * whole == part * extent(
            s,
            e,
        ),
        e.value() <= s.value() ==> s.value() * whole - along(s, e, part, whole) == part * extent(
            s,
            e,
        ),
{
    let x: int = s.value();
    let y: int = e.value();
    let p: int = along(s, e, part, whole);
    assert(p == x * whole + part * (y - x)) by (nonlinear_arith)
        requires
            p == x * (whole - part) + y * part,
    ;
    assert(p == y * whole + (whole - part) * (x - y)) by (nonlinear_arith)
        requires
            p == x * (whole - part) + y * part,
    ;
    if x <= y {
        assert(part * (y - x) >= 0 && (whole - part) * (x - y) <= 0) by (nonlinear_arith)
            requires
                0 <= part <= whole,
                x <= y,
        ;
    }
    if y <= x {
        assert(part * (y - x) <= 0 && (whole - part) * (x - y) >= 0) by (nonlinear_arith)
            requires
                0 <= part <= whole,
                y <= x,
        ;
        assert(part * (x - y) == -(part * (y - x))) by (nonlinear_arith);
    }
}

/// A segment starts in its first column (or row), and ends in its last.
proof fn lemma_ends(
    s: Real,
    e: Real,
    first: int,
    last: int,
    part: int,
    whole: int,
    slack: int,
)
    requires
        placed(s, first),
        placed(e, last),
        0 <= part <= whole,
        slack >= 0,
    ensures
        ({
            let x: int = along(s, e, part, whole);
            let step: int = towards(e.sub(s)) as int;
            entered(x, whole, first, step, slack) && not_left(x, whole, last, step, slack)
        }),
{
    lemma_axis(s, e, first, last);
    lemma_along(s, e, part, whole);
    let u: int = cell_unit();
    let x: int = s.value();
    let y: int = e.value();
    assert((first * u - slack) * whole <= x * whole <= ((first + 1) * u + slack) * whole)
        by (nonlinear_arith)
        requires
            first * u <= x < (first + 1) * u,
            slack >= 0,
            whole >= 0,
    ;
    assert((last * u - slack) * whole <= y * whole <= ((last + 1) * u + slack) * whole)
        by (nonlinear_arith)
        requires
            last * u <= y < (last + 1) * u,
            slack >= 0,
            whole >= 0,
    ;
}

/// A point that has left a column (or row) has come as far as the next.
proof fn lemma_left_enters(x: int, whole: int, cell: int, step: int, slack: int)
    requires
        !not_left(x, whole, cell, step, slack),
        step == 1 || step == -1,
        slack >= 0,
        whole > 0,
    ensures
        entered(x, whole, cell + step, step, slack),
{
    let u: int = cell_unit();
    if step == 1 {
        assert(((cell + 1) * u - slack) * whole <= ((cell + 1) * u + slack) * whole)
            by (nonlinear_arith)
            requires
                slack >= 0,
                whole > 0,
        ;
    } else {
        assert((cell * u - slack) * whole <= ((cell - 1 + 1) * u + slack) * whole)
            by (nonlinear_arith)
            requires
                slack >= 0,
                whole > 0,
        ;
    }
}

proof fn lemma_times(a: int, b: int, c: int, l: int)
    requires
        0x20_0000_0000_0000 * a <= 0x20_0000_0000_0000 * b + 6 * c,
        l > 0,
    ensures
        0x20_0000_0000_0000 * (a * l) <= 0x20_0000_0000_0000 * (b * l) + 6 * (c * l),
{
    let d: int = 0x20_0000_0000_0000 * b + 6 * c - 0x20_0000_0000_0000 * a;
    assert(d * l >= 0) by (nonlinear_arith)
        requires
            d >= 0,
            l > 0,
    ;
    assert(d * l == 0x20_0000_0000_0000 * (b * l) + 6 * (c * l) - 0x20_0000_0000_0000 * (a * l))
        by (nonlinear_arith)
        requires
            d == 0x20_0000_0000_0000 * b + 6 * c - 0x20_0000_0000_0000 * a,
    ;
}

proof fn lemma_regroup(t: int, a: int, b: int, ab: int)
    requires
        ab == a * b,
    ensures
        (t * a) * b == t * ab,
{
    assert((t * a) * b == t * (a * b)) by (nonlinear_arith);
}

proof fn lemma_regroup_error(k: int, a: int, b: int, u: int, ab: int)
    requires
        ab == a * b,
    ensures
        (k * (a * u)) * b == k * (ab * u),
{
    assert((k * (a * u)) * b == k * ((a * b) * u)) by (nonlinear_arith);
}

/// A boundary that is crossed, as computed, no later than another comes, but for
/// the slack, no later than a point beyond the other.
proof fn lemma_no_later(
    u: int,
    n: int,
    la: int,
    lb: int,
    ma: int,
    mb: int,
    ta: int,
    tb: int,
    tol: int,
    ka: int,
    kb: int,
    slack: int,
    part: int,
    whole: int,
)
    requires
        u > 0,
        whole > 0,
        0 < la <= n * u,
        0 < lb <= n * u,
        0 <= ka < n,
        0 <= kb < n,
        tol >= 0,
        ta <= tb + tol,
        0x20_0000_0000_0000 * tol <= 9008 * u,
        0x20_0000_0000_0000 * (ma * u) <= 0x20_0000_0000_0000 * (ta * la) + 6 * ((ka + 1) * (la
            * u)),
        0x20_0000_0000_0000 * (tb * lb) <= 0x20_0000_0000_0000 * (mb * u) + 6 * ((kb + 1) * (lb
            * u)),
        0x20_0000_0000_0000 * slack >= (n * (6 * n + 4504)) * u,
        (mb + slack) * whole < part * lb,
    ensures
        (ma - slack) * whole <= part * la,
{
    let p: int = 0x20_0000_0000_0000;
    let ab: int = la * lb;
    assert(ab > 0) by (nonlinear_arith)
        requires
            ab == la * lb,
            la > 0,
            lb > 0,
    ;
    // both boundaries, over the same denominator
    lemma_times(ma * u, ta * la, (ka + 1) * (la * u), lb);
    lemma_regroup(ta, la, lb, ab);
    lemma_regroup_error(ka + 1, la, lb, u, ab);
    assert(p * ((ma * u) * lb) <= p * (ta * ab) + 6 * ((ka + 1) * (ab * u)));
    lemma_times(tb * lb, mb * u, (kb + 1) * (lb * u), la);
    assert(ab == lb * la) by (nonlinear_arith)
        requires
            ab == la * lb,
    ;
    lemma_regroup(tb, lb, la, ab);
    lemma_regroup_error(kb + 1, lb, la, u, ab);
    assert(p * (tb * ab) <= p * ((mb * u) * la) + 6 * ((kb + 1) * (ab * u)));
    assert(ta * ab <= tb * ab + tol * ab) by (nonlinear_arith)
        requires
            ta <= tb + tol,
            ab > 0,
    ;
    assert(p * (tol * ab) <= 9008 * (ab * u)) by (nonlinear_arith)
        requires
            p * tol <= 9008 * u,
            ab > 0,
    ;
    let g: int = ab * u;
    assert((ka + 1) * g <= n * g && (kb + 1) * g <= n * g) by (nonlinear_arith)
        requires
            ka + 1 <= n,
            kb + 1 <= n,
            g == ab * u,
            ab > 0,
            u > 0,
    ;
    let f: int = (12 * n + 9008) * g;
    assert(f == 12 * (n * g) + 9008 * g) by (nonlinear_arith)
        requires
            f == (12 * n + 9008) * g,
    ;
    assert(p * ((ma * u) * lb) <= p * ((mb * u) * la) + f);
    // what rounding adds is no more than the slack
    assert(2 * ab <= (n * u) * (la + lb)) by (nonlinear_arith)
        requires
            ab == la * lb,
            0 < la <= n * u,
            0 < lb <= n * u,
    ;
    let c: int = 6 * n + 4504;
    assert(2 * (c * g) <= (c * u) * ((n * u) * (la + lb))) by (nonlinear_arith)
        requires
            g == ab * u,
            2 * ab <= (n * u) * (la + lb),
            c >= 0,
            u > 0,
    ;
    assert(f == 2 * (c * g)) by (nonlinear_arith)
        requires
            f == (12 * n + 9008) * g,
            c == 6 * n + 4504,
    ;
    assert((c * u) * ((n * u) * (la + lb)) == ((n * c) * u) * (u * (la + lb))) by (nonlinear_arith);
    assert(((n * c) * u) * (u * (la + lb)) <= (p * slack) * (u * (la + lb))) by (nonlinear_arith)
        requires
            (n * c) * u <= p * slack,
            u > 0,
            la > 0,
            lb > 0,
    ;
    let h: int = slack * (u * (la + lb));
    assert((p * slack) * (u * (la + lb)) == p * h) by (nonlinear_arith)
        requires
            h == slack * (u * (la + lb)),
    ;
    assert((ma * u) * lb <= (mb * u) * la + h);
    // the same of the point
    assert(((ma * u) * lb) * whole <= ((mb * u) * la + h) * whole) by (nonlinear_arith)
        requires
            (ma * u) * lb <= (mb * u) * la + h,
            whole > 0,
    ;
    let x: int = u * la;
    let y: int = u * lb;
    assert(h == slack * x + slack * y) by (nonlinear_arith)
        requires
            h == slack * (u * (la + lb)),
            x == u * la,
            y == u * lb,
    ;
    assert((mb * u) * la == mb * x) by (nonlinear_arith)
        requires
            x == u * la,
    ;
    assert((mb * x + (slack * x + slack * y)) * whole == x * ((mb + slack) * whole) + y * (slack
        * whole)) by (nonlinear_arith);
    assert((u * la) * ((mb + slack) * whole) <= (u * la) * (part * lb)) by (nonlinear_arith)
        requires
            (mb + slack) * whole < part * lb,
            u > 0,
            la > 0,
    ;
    assert((u * la) * (part * lb) == (u * lb) * (part * la)) by (nonlinear_arith);
    assert(((ma * u) * lb) * whole == (u * lb) * (ma * whole)) by (nonlinear_arith);
    assert((u * lb) * (part * la) + (u * lb) * (slack * whole) == (u * lb) * (part * la + slack
        * whole)) by (nonlinear_arith);
    assert(ma * whole <= part * la + slack * whole) by (nonlinear_arith)
        requires
            (u * lb) * (ma * whole) <= (u * lb) * (part * la + slack * whole),
            u > 0,
            lb > 0,
    ;
    assert((ma - slack) * whole == ma * whole - slack * whole) by (nonlinear_arith);
}

/// The slack leaves room for what rounding adds.
proof fn lemma_sliver(n: int)
    requires
        n >= 1,
    ensures
        sliver(n) >= 0,
        0x20_0000_0000_0000 * sliver(n) >= (n * (6 * n + 4504)) * cell_unit(),
{
    lemma2_to64();
    lemma2_to64_rest();
    lemma_pow2_adds(50, 1024);
    lemma_pow2_pos(1024);
    let c: int = pow2(1024) as int;
    let u: int = cell_unit();
    assert(u == 0x4_0000_0000_0000 * c);
    let q: int = n * (n + 1024);
    let r: int = n * (6 * n + 4504);
    assert(r <= 8 * q && q >= 0) by (nonlinear_arith)
        requires
            q == n * (n + 1024),
            r == n * (6 * n + 4504),
            n >= 1,
    ;
    assert(0x20_0000_0000_0000 * (q * c) >= r * u && q * c >= 0) by (nonlinear_arith)
        requires
            r <= 8 * q,
            q >= 0,
            u == 0x4_0000_0000_0000 * c,
            c > 0,
    ;
}

/// What is left to a segment along one axis when it has not reached its last
/// column (or row).
proof fn lemma_under_way(
    s: Real,
    e: Real,
    first: int,
    last: int,
    cell: int,
    t: Real,
    n: int,
)
    requires
        keeps_time(s, e, first, last, cell, t, n),
        cell != last,
        n <= 0x4000_0000,
    ensures
        crosses(s, e, first, last),
        first <= cell < last || last < cell <= first,
        0 < extent(s, e) <= n * cell_unit(),
        0 <= to_exit(s, cell, towards(e.sub(s)) as int) <= extent(s, e),
        towards(e.sub(s)) == 1 <==> first < last,
        towards(e.sub(s)) == 1 || towards(e.sub(s)) == -1,
        0 <= apart(cell, first) < n,
{
    let u: int = cell_unit();
    lemma_pow2_pos(1074);
    lemma_axis(s, e, first, last);
    lemma_exit_ahead(s, e, first, last, cell, towards(e.sub(s)) as int);
    let x: int = s.value();
    let y: int = e.value();
    assert(x < n * u && y < n * u && 0 <= x && 0 <= y) by (nonlinear_arith)
        requires
            first * u <= x < (first + 1) * u,
            last * u <= y < (last + 1) * u,
            0 <= first < n,
            0 <= last < n,
            u > 0,
    ;
}

/// Leaving a column (or row) keeps time.
proof fn lemma_step_keeps_time(
    s: Real,
    e: Real,
    first: int,
    last: int,
    cell: int,
    t: Real,
    n: int,
)
    requires
        keeps_time(s, e, first, last, cell, t, n),
        cell != last,
        n <= 0x4000_0000,
    ensures
        keeps_time(
            s,
            e,
            first,
            last,
            cell + towards(e.sub(s)),
            t.add(crossing_step(e.sub(s))),
            n,
        ),
{
    lemma_under_way(s, e, first, last, cell, t, n);
    let step: int = towards(e.sub(s)) as int;
    if cell + step != last {
        lemma_next_crossing(t, s, e, first, last, cell, apart(cell, first));
        assert(apart(cell + step, first) == apart(cell, first) + 1);
    }
}

/// A ray that crosses a boundary of one kind no later, as computed, than one of
/// the other kind which a point lies beyond, crosses the former no later than
/// the point, but for the slack.
proof fn lemma_in_time(
    s: Real,
    e: Real,
    first: int,
    last: int,
    cell: int,
    t: Real,
    os: Real,
    oe: Real,
    ofirst: int,
    olast: int,
    ocell: int,
    ot: Real,
    tol: int,
    n: int,
    part: int,
    whole: int,
)
    requires
        keeps_time(s, e, first, last, cell, t, n),
        keeps_time(os, oe, ofirst, olast, ocell, ot, n),
        cell != last,
        ocell != olast,
        n <= 0x4000_0000,
        0 <= part <= whole,
        whole > 0,
        tol >= 0,
        0x20_0000_0000_0000 * tol <= 9008 * cell_unit(),
        t.value() <= ot.value() + tol,
        !not_left(
            along(os, oe, part, whole),
            whole,
            ocell,
            towards(oe.sub(os)) as int,
            sliver(n),
        ),
    ensures
        entered(
            along(s, e, part, whole),
            whole,
            cell + towards(e.sub(s)),
            towards(e.sub(s)) as int,
            sliver(n),
        ),
{
    let u: int = cell_unit();
    let slack: int = sliver(n);
    lemma_pow2_pos(1074);
    lemma_sliver(n);
    lemma_under_way(s, e, first, last, cell, t, n);
    lemma_under_way(os, oe, ofirst, olast, ocell, ot, n);
    lemma_axis(s, e, first, last);
    lemma_axis(os, oe, ofirst, olast);
    lemma_along(s, e, part, whole);
    lemma_along(os, oe, part, whole);
    let step: int = towards(e.sub(s)) as int;
    let ostep: int = towards(oe.sub(os)) as int;
    let ma: int = to_exit(s, cell, step);
    let mb: int = to_exit(os, ocell, ostep);
    let x: int = along(s, e, part, whole);
    let ox: int = along(os, oe, part, whole);
    // the point lies beyond the other boundary
    let sv: int = s.value();
    let ov: int = os.value();
    assert((mb + slack) * whole < part * extent(os, oe)) by {
        if ostep == 1 {
            let edge: int = (ocell + 1) * u;
            assert((mb + slack) * whole == (edge + slack) * whole - ov * whole) by (nonlinear_arith)
                requires
                    mb == edge - ov,
            ;
        } else {
            let edge: int = ocell * u;
            assert((mb + slack) * whole == ov * whole - (edge - slack) * whole) by (nonlinear_arith)
                requires
                    mb == ov - edge,
            ;
        }
    }
    lemma_no_later(
        u,
        n,
        extent(s, e),
        extent(os, oe),
        ma,
        mb,
        t.value(),
        ot.value(),
        tol,
        apart(cell, first),
        apart(ocell, ofirst),
        slack,
        part,
        whole,
    );
    if step == 1 {
        let edge: int = (cell + 1) * u;
        assert((ma - slack) * whole == (edge - slack) * whole - sv * whole) by (nonlinear_arith)
            requires
                ma == edge - sv,
        ;
    } else {
        let edge: int = cell * u;
        assert((ma - slack) * whole == sv * whole - (edge + slack) * whole) by (nonlinear_arith)
            requires
                ma == sv - edge,
        ;
        assert(cell - 1 + 1 == cell);
    }
}

/// The distance of two shares that count as one corner.
pub open spec fn corner_gap() -> int {
    Real::of(CORNER_TOLERANCE).value()
}

proof fn lemma_corner_gap()
    ensures
        corner_gap() >= 0,
        0x20_0000_0000_0000 * corner_gap() <= 9008 * cell_unit(),
{
    let r: Real = Real { bits: CORNER_TOLERANCE };
    assert(r.significand() == 0x11_9799_812d_ea11 && r.exponent() == -92);
    lemma2_to64();
    lemma2_to64_rest();
    lemma_pow2_adds(39, 1035);
    lemma_pow2_adds(53, 982);
    let c: int = pow2(982) as int;
    let d: int = pow2(1035) as int;
    assert(d == 0x20_0000_0000_0000 * c);
    assert(cell_unit() == 0x80_0000_0000 * d);
    assert(corner_gap() == 0x11_9799_812d_ea11 * c);
    lemma_pow2_pos(982);
}

/// Shares that count as one corner are no farther apart than that.
proof fn lemma_corner(a: Real, b: Real)
    requires
        a.finite(),
        b.finite(),
        a.sub(b).abs().lt(Real::of(CORNER_TOLERANCE)),
    ensures
        a.value() <= b.value() + corner_gap(),
        b.value() <= a.value() + corner_gap(),
{
    reveal(Real::spec_add);
    lemma_neg_value(b);
    let tol: Real = Real::of(CORNER_TOLERANCE);
    let d: int = a.value() - b.value();
    let r: Real = a.sub(b);
    let n: int = apart(a.value(), b.value());
    lemma_value_rank(tol, false);
    if n > tol.value() {
        lemma_sum_monotone(tol.value(), n, false, false);
        assert(r.magnitude() == from_sum(n, false).magnitude());
        assert(false);
    }
}

/// What stays true of a ray: it follows a segment.
spec fn follows_segment(
    course: Course,
    a: Point,
    b: Point,
    first: (int, int),
    col: int,
    row: int,
    t_col: Real,
    t_row: Real,
    n: int,
) -> bool {
    let dx: Real = b.x.sub(a.x);
    let dz: Real = b.z.sub(a.z);
    &&& course.step_col == towards(dx)
    &&& course.step_row == towards(dz)
    &&& course.delta_col == crossing_step(dx)
    &&& course.delta_row == crossing_step(dz)
    &&& keeps_time(a.x, b.x, first.0, course.end_col, col, t_col, n)
    &&& keeps_time(a.z, b.z, first.1, course.end_row, row, t_row, n)
}

/// Whether a point of a segment has come as far as a cell, but for the slack.
spec fn come_to(
    a: Point,
    b: Point,
    part: int,
    whole: int,
    col: int,
    row: int,
    n: int,
) -> bool {
    &&& entered(
        along(a.x, b.x, part, whole),
        whole,
        col,
        towards(b.x.sub(a.x)) as int,
        sliver(n),
    )
    &&& entered(
        along(a.z, b.z, part, whole),
        whole,
        row,
        towards(b.z.sub(a.z)) as int,
        sliver(n),
    )
}

/// A step of a ray towards a point beyond the cell keeps up with the point.
proof fn lemma_step_comes_to(
    course: Course,
    a: Point,
    b: Point,
    first: (int, int),
    col: int,
    row: int,
    t_col: Real,
    t_row: Real,
    n: int,
    part: int,
    whole: int,
)
    requires
        follows_segment(course, a, b, first, col, row, t_col, t_row, n),
        n <= 0x4000_0000,
        0 <= part <= whole,
        whole > 0,
        come_to(a, b, part, whole, col, row, n),
        !not_left(along(a.x, b.x, part, whole), whole, col, course.step_col, sliver(n))
            || !not_left(along(a.z, b.z, part, whole), whole, row, course.step_row, sliver(n)),
    ensures
        ({
            let next_col: int = col + course.step_col;
            let next_row: int = row + course.step_row;
            let corner: bool = t_col.sub(t_row).abs().lt(Real::of(CORNER_TOLERANCE));
            if col == course.end_col {
                row != course.end_row && come_to(a, b, part, whole, col, next_row, n)
            } else if row == course.end_row {
                come_to(a, b, part, whole, next_col, row, n)
            } else if corner {
                come_to(a, b, part, whole, next_col, next_row, n)
            } else if t_col.lt(t_row) {
                come_to(a, b, part, whole, next_col, row, n)
            } else {
                come_to(a, b, part, whole, col, next_row, n)
            }
        }),
{
    let slack: int = sliver(n);
    lemma_sliver(n);
    let x: int = along(a.x, b.x, part, whole);
    let z: int = along(a.z, b.z, part, whole);
    lemma_axis(a.x, b.x, first.0, course.end_col);
    lemma_axis(a.z, b.z, first.1, course.end_row);
    lemma_ends(a.x, b.x, first.0, course.end_col, part, whole, slack);
    lemma_ends(a.z, b.z, first.1, course.end_row, part, whole, slack);
    let corner: bool = t_col.sub(t_row).abs().lt(Real::of(CORNER_TOLERANCE));
    let left_col: bool = !not_left(x, whole, col, course.step_col, slack);
    let left_row: bool = !not_left(z, whole, row, course.step_row, slack);
    if left_col {
        lemma_left_enters(x, whole, col, course.step_col, slack);
    }
    if left_row {
        lemma_left_enters(z, whole, row, course.step_row, slack);
    }
    if col != course.end_col && row != course.end_row {
        lemma_corner_gap();
        lemma_pow2_pos(1074);
        if corner {
            lemma_corner(t_col, t_row);
        } else {
            lemma_value_order(t_col, t_row);
            lemma_value_order(t_row, t_col);
        }
        if left_row && !left_col && (corner || t_col.lt(t_row)) {
            lemma_in_time(
                a.x,
                b.x,
                first.0,
                course.end_col,
                col,
                t_col,
                a.z,
                b.z,
                first.1,
                course.end_row,
                row,
                t_row,
                corner_gap(),
                n,
                part,
                whole,
            );
        }
        if left_col && !left_row && (corner || !t_col.lt(t_row)) {
            lemma_in_time(
                a.z,
                b.z,
                first.1,
                course.end_row,
                row,
                t_row,
                a.x,
                b.x,
                first.0,
                course.end_col,
                col,
                t_col,
                corner_gap(),
                n,
                part,
                whole,
            );
        }
    }
}

/// Every point of a segment that a ray runs clear along lies, but for the slack,
/// in the cell where the ray stands or in an open one.
proof fn lemma_runs_by(
    view: &WalkView,
    course: Course,
    a: Point,
    b: Point,
    first: (int, int),
    col: int,
    row: int,
    t_col: Real,
    t_row: Real,
    guard: int,
    n: int,
    part: int,
    whole: int,
) -> (cell: (int, int))
    requires
        runs_clear(view, course, col, row, t_col, t_row, guard),
        follows_segment(course, a, b, first, col, row, t_col, t_row, n),
        n <= 0x4000_0000,
        0 <= part <= whole,
        whole > 0,
        come_to(a, b, part, whole, col, row, n),
    ensures
        point_near(a, b, part, whole, cell, sliver(n)),
        cell == (col, row) || !view.blocked_at(cell.0, cell.1),
    decreases guard,
{
    let slack: int = sliver(n);
    let x: int = along(a.x, b.x, part, whole);
    let z: int = along(a.z, b.z, part, whole);
    if not_left(x, whole, col, course.step_col, slack) && not_left(
        z,
        whole,
        row,
        course.step_row,
        slack,
    ) {
        (col, row)
    } else {
        lemma_sliver(n);
        lemma_ends(a.x, b.x, first.0, course.end_col, part, whole, slack);
        lemma_ends(a.z, b.z, first.1, course.end_row, part, whole, slack);
        lemma_step_comes_to(course, a, b, first, col, row, t_col, t_row, n, part, whole);
        let next_col: int = col + course.step_col;
        let next_row: int = row + course.step_row;
        let later_col: Real = t_col.add(course.delta_col);
        let later_row: Real = t_row.add(course.delta_row);
        let corner: bool = t_col.sub(t_row).abs().lt(Real::of(CORNER_TOLERANCE));
        if col != course.end_col {
            lemma_step_keeps_time(a.x, b.x, first.0, course.end_col, col, t_col, n);
        }
        if row != course.end_row {
            lemma_step_keeps_time(a.z, b.z, first.1, course.end_row, row, t_row, n);
        }
        if col == course.end_col || (row != course.end_row && !corner && !t_col.lt(t_row)) {
            lemma_runs_by(
                view,
                course,
                a,
                b,
                first,
                col,
                next_row,
                t_col,
                later_row,
                guard - 1,
                n,
                part,
                whole,
            )
        } else if row == course.end_row || !corner {
            lemma_runs_by(
                view,
                course,
                a,
                b,
                first,
                next_col,
                row,
                later_col,
                t_row,
                guard - 1,
                n,
                part,
                whole,
            )
        } else {
            lemma_runs_by(
                view,
                course,
                a,
                b,
                first,
                next_col,
                next_row,
                later_col,
                later_row,
                guard - 1,
                n,
                part,
                whole,
            )
        }
    }
}

/// The longer side of a view, in cells.
pub open spec fn side(view: &WalkView) -> int {
    if view.width < view.height {
        view.height as int
    } else {
        view.width as int
    }
}

/// Whether both coordinates of a point are numbers.
pub open spec fn is_number(p: Point) -> bool {
    !p.x.nan() && !p.z.nan()
}

/// The cell that a segment starts in.
pub open spec fn start_cell(view: &WalkView, from: Point) -> (int, int) {
    let a: Point = view.spec_in_cells(from);
    (a.x.floor_int() as int, a.z.floor_int() as int)
}

/// Every point of a clear segment lies in an open cell, or in the exempt one that
/// it starts in, but for a sliver: the ray follows the straight line.
pub proof fn lemma_clear_segment_stays_in_the_open(
    view: &WalkView,
    from: Point,
    to: Point,
    ignore_start_cell: bool,
    part: int,
    whole: int,
) -> (cell: (int, int))
    requires
        view.clear_between(from, to, ignore_start_cell),
        side(view) <= 0x4000_0000,
        is_number(view.spec_in_cells(from)),
        is_number(view.spec_in_cells(to)),
        0 <= part <= whole,
        whole > 0,
    ensures
        point_near(
            view.spec_in_cells(from),
            view.spec_in_cells(to),
            part,
            whole,
            cell,
            sliver(side(view)),
        ),
        !view.blocked_at(cell.0, cell.1) || (ignore_start_cell && cell == start_cell(view, from)),
{
    let a: Point = view.spec_in_cells(from);
    let b: Point = view.spec_in_cells(to);
    let n: int = side(view);
    let dx: Real = b.x.sub(a.x);
    let dz: Real = b.z.sub(a.z);
    let col: isize = a.x.floor_int();
    let row: isize = a.z.floor_int();
    let end_col: isize = b.x.floor_int();
    let end_row: isize = b.z.floor_int();
    let course: Course = Course {
        end_col: end_col as int,
        end_row: end_row as int,
        step_col: towards(dx) as int,
        step_row: towards(dz) as int,
        delta_col: crossing_step(dx),
        delta_row: crossing_step(dz),
        ends_on_corner: spec_on_corner(b),
    };
    lemma_clear_segment_ends_in_the_open(view, from, to, ignore_start_cell);
    assert(view.within(col as int, row as int));
    assert(view.within(end_col as int, end_row as int));
    lemma_placed(a.x, col as int);
    lemma_placed(a.z, row as int);
    lemma_placed(b.x, end_col as int);
    lemma_placed(b.z, end_row as int);
    if col != end_col {
        lemma_first_crossing(a.x, b.x, col as int, end_col as int);
    }
    if row != end_row {
        lemma_first_crossing(a.z, b.z, row as int, end_row as int);
    }
    lemma_sliver(n);
    lemma_ends(a.x, b.x, col as int, end_col as int, part, whole, sliver(n));
    lemma_ends(a.z, b.z, row as int, end_row as int, part, whole, sliver(n));
    lemma_runs_by(
        view,
        course,
        a,
        b,
        (col as int, row as int),
        col as int,
        row as int,
        first_crossing(a.x, dx, col),
        first_crossing(a.z, dz, row),
        apart(col as int, end_col as int) + apart(row as int, end_row as int) + 4,
        n,
        part,
        whole,
    )
}

/// A coordinate does not lie well inside one column (or row) and near another.
proof fn lemma_apart(x: int, whole: int, a: int, b: int, slack: int)
    requires
        whole > 0,
        lies_near(x, whole, a, slack),
        (b * cell_unit() + slack) * whole < x < ((b + 1) * cell_unit() - slack) * whole,
    ensures
        a == b,
{
    let u: int = cell_unit();
    lemma_pow2_pos(1074);
    assert(a * u - slack < (b + 1) * u - slack && b * u + slack < (a + 1) * u + slack)
        by (nonlinear_arith)
        requires
            (a * u - slack) * whole < ((b + 1) * u - slack) * whole,
            (b * u + slack) * whole < ((a + 1) * u + slack) * whole,
            whole > 0,
    ;
    assert(a == b) by (nonlinear_arith)
        requires
            a * u < (b + 1) * u,
            b * u < (a + 1) * u,
            u > 0,
    ;
}

/// In a view so large that the sliver is as wide as a cell, nothing lies well
/// inside a cell.
proof fn lemma_no_inside(x: int, whole: int, cell: int, n: int)
    requires
        whole > 0,
        n > 0x4000_0000,
    ensures
        !((cell * cell_unit() + sliver(n)) * whole < x < ((cell + 1) * cell_unit() - sliver(n))
            * whole),
{
    let u: int = cell_unit();
    let c: int = pow2(1024) as int;
    let q: int = n * (n + 1024);
    lemma2_to64();
    lemma2_to64_rest();
    lemma_pow2_adds(50, 1024);
    lemma_pow2_pos(1024);
    assert(u == 0x4_0000_0000_0000 * c);
    assert(q >= 0x1000_0000_0000_0000) by (nonlinear_arith)
        requires
            q == n * (n + 1024),
            n > 0x4000_0000,
    ;
    assert(q * c >= u) by (nonlinear_arith)
        requires
            q >= 0x1000_0000_0000_0000,
            u == 0x4_0000_0000_0000 * c,
            c > 0,
    ;
    let s: int = sliver(n);
    assert((cell * u + s) * whole >= ((cell + 1) * u - s) * whole) by (nonlinear_arith)
        requires
            s >= u,
            u > 0,
            whole > 0,
    ;
}

/// A clear segment never touches a blocked cell: no point of it, however it is
/// divided, lies in one, but for a sliver at the cell's edges. Where the cell that
/// it starts in is exempt, this holds of all the others.
pub proof fn lemma_clear_segment_touches_no_blocked_cell(
    view: &WalkView,
    from: Point,
    to: Point,
    ignore_start_cell: bool,
    part: int,
    whole: int,
    cell: (int, int),
)
    requires
        view.clear_between(from, to, ignore_start_cell),
        is_number(view.spec_in_cells(from)),
        is_number(view.spec_in_cells(to)),
        0 <= part <= whole,
        whole > 0,
        view.blocked_at(cell.0, cell.1),
        ignore_start_cell ==> cell != start_cell(view, from),
    ensures
        !lies_well_inside(
            view.spec_in_cells(from),
            view.spec_in_cells(to),
            part,
            whole,
            cell,
            sliver(side(view)),
        ),
{
    let a: Point = view.spec_in_cells(from);
    let b: Point = view.spec_in_cells(to);
    let n: int = side(view);
    if lies_well_inside(a, b, part, whole, cell, sliver(n)) {
        if n > 0x4000_0000 {
            lemma_no_inside(along(a.x, b.x, part, whole), whole, cell.0, n);
        } else {
            let open: (int, int) = lemma_clear_segment_stays_in_the_open(
                view,
                from,
                to,
                ignore_start_cell,
                part,
                whole,
            );
            lemma_apart(along(a.x, b.x, part, whole), whole, open.0, cell.0, sliver(n));
            lemma_apart(along(a.z, b.z, part, whole), whole, open.1, cell.1, sliver(n));
        }
    }
}

/// Motion over a view with clearance keeps the clearance: every point of a clear
/// segment lies, but for a sliver, in a cell that comes no closer than the radius
/// to any cell that was blocked before.
pub proof fn lemma_clear_segment_keeps_clearance(
    base: &WalkView,
    radius: Real,
    view: &WalkView,
    from: Point,
    to: Point,
    part: int,
    whole: int,
) -> (cell: (int, int))
    requires
        base.wf(),
        view.same_geometry(base),
        forall|col: int, row: int|
            view.within(col, row) ==> #[trigger] view.blocked_at(col, row) == base.dilated_at(
                radius,
                col,
                row,
            ),
        base.cell_size.finite(),
        base.cell_size.rank() > 0,
        !radius.nan(),
        radius.rank() > 0,
        side(view) <= 0x4000_0000,
        view.clear_between(from, to, false),
        is_number(view.spec_in_cells(from)),
        is_number(view.spec_in_cells(to)),
        0 <= part <= whole,
        whole > 0,
    ensures
        point_near(
            view.spec_in_cells(from),
            view.spec_in_cells(to),
            part,
            whole,
            cell,
            sliver(side(view)),
        ),
        view.within(cell.0, cell.1),
        forall|c: int, r: int|
            base.within(c, r) && #[trigger] base.blocked_at(c, r) ==> !gap(
                (cell.0 - c) as isize,
                base.cell_size,
            ).hypot(gap((cell.1 - r) as isize, base.cell_size)).lt(radius),
{
    let cell: (int, int) = lemma_clear_segment_stays_in_the_open(
        view,
        from,
        to,
        false,
        part,
        whole,
    );
    assert(view.within(cell.0, cell.1));
    assert(!base.dilated_at(radius, cell.0, cell.1));
    assert forall|c: int, r: int|
        base.within(c, r) && #[trigger] base.blocked_at(c, r) implies !gap(
        (cell.0 - c) as isize,
        base.cell_size,
    ).hypot(gap((cell.1 - r) as isize, base.cell_size)).lt(radius) by {
        lemma_open_cell_keeps_clearance(base, radius, cell.0, cell.1, c, r);
    }
    cell
}

} // verus!
