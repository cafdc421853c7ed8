//! How an agent follows its corridor: which point it has come to, and which it heads for;
//! and how dense coarse cells are.
use vstd::arithmetic::power2::*;
use vstd::prelude::*;

use crate::coarse::blocked_share;
use crate::config::NavConfig;
use crate::course::lemma_part_along;
use crate::crossing::{cell_unit, lemma_large_unit};
use crate::geometry::{distance, distance_sq, Point, HALF};
use crate::lattice::{lemma_half, lemma_quotient_is_finite};
use crate::nearness::{
    bounding, lemma_close_product, lemma_distance, lemma_distance_sq, lemma_modest,
    lemma_mul_bound, lemma_size_scales, lemma_unit_is_nothing, modest, reaches, size_of,
    within_bound,
};
use crate::number::Real;
use crate::ordering::lemma_value_order;
use crate::refine::{closest, heading_for, last_in_sight, progress_along, TRUSTED_SHARE};
use crate::shortest::{lemma_count, lemma_count_below, lemma_step_lengths};
use crate::unit::lemma_size_of_zero;
use crate::vista::lemma_single_close;

verus! {

/// Square of the distance between two points.
pub open spec fn apart_sq(a: Point, b: Point) -> int {
    let dx: int = a.x.value() - b.x.value();
    let dz: int = a.z.value() - b.z.value();
    dx * dx + dz * dz
}

/// Whether the points of a corridor lie within a bound.
pub open spec fn corridor_within(corridor: Seq<Point>, most: int) -> bool {
    forall|k: int| 0 <= k < corridor.len() ==> within_bound(#[trigger] corridor[k], most)
}

proof fn lemma_closest(corridor: Seq<Point>, from: int, to: int, position: Point, most: int)
    requires
        bounding(most),
        corridor_within(corridor, most),
        within_bound(position, most),
        0 <= from < to <= corridor.len(),
    ensures
        ({
            let (best, least): (int, Real) = closest(corridor, from, to, position);
            &&& from <= best < to
            &&& least.finite()
            &&& least == distance_sq(corridor[best], position)
            &&& forall|k: int|
                from <= k < to ==> least.value() <= distance_sq(
                    #[trigger] corridor[k],
                    position,
                ).value()
        }),
    decreases to - from,
{
    lemma_large_unit();
    let last: Point = corridor[to - 1];
    let d: Real = distance_sq(last, position);
    assert(within_bound(last, most));
    lemma_distance_sq(last, position, most);
    if from < to - 1 {
        lemma_closest(corridor, from, to - 1, position, most);
        let (best, least): (int, Real) = closest(corridor, from, to - 1, position);
        lemma_value_order(d, least);
        lemma_value_order(least, d);
    } else {
        assert(closest(corridor, from, to - 1, position).0 == from);
    }
}

/// An agent has come to the point of its corridor that is closest to it, among the next 48,
/// and never to one that it has left behind. Which is closest is told up to 336 parts in
/// `2^53` of the square of a bound.
pub proof fn lemma_progress_is_to_the_closest(
    corridor: Seq<Point>,
    next: int,
    position: Point,
    most: int,
)
    requires
        bounding(most),
        corridor_within(corridor, most),
        within_bound(position, most),
        0 <= next < corridor.len(),
    ensures
        ({
            let come: int = progress_along(corridor, next, position);
            &&& next <= come < corridor.len()
            &&& come < next + 48
            &&& forall|k: int|
                next <= k < corridor.len() && k < next + 48 ==> 0x20_0000_0000_0000 * (apart_sq(
                    corridor[come],
                    position,
                ) - apart_sq(#[trigger] corridor[k], position)) <= 336 * (most * most)
        }),
{
    let to: int = if next + 48 < corridor.len() {
        next + 48
    } else {
        corridor.len() as int
    };
    let u: int = cell_unit();
    lemma_large_unit();
    lemma_closest(corridor, next, to, position, most);
    let come: int = progress_along(corridor, next, position);
    let a: Real = distance_sq(corridor[come], position);
    assert(within_bound(corridor[come], most));
    lemma_distance_sq(corridor[come], position, most);
    assert forall|k: int| next <= k < corridor.len() && k < next + 48 implies 0x20_0000_0000_0000
        * (apart_sq(corridor[come], position) - apart_sq(#[trigger] corridor[k], position)) <= 336
        * (most * most) by {
        let b: Real = distance_sq(corridor[k], position);
        assert(within_bound(corridor[k], most));
        lemma_distance_sq(corridor[k], position, most);
        assert(a.value() * u <= b.value() * u) by (nonlinear_arith)
            requires
                a.value() <= b.value(),
                u > 0,
        ;
    }
}

proof fn lemma_trusted_share()
    ensures
        modest(Real::of(TRUSTED_SHARE)),
        0 < 20 * Real::of(TRUSTED_SHARE).value() <= 19 * cell_unit(),
        0x20_0000_0000_0000 * (19 * cell_unit() - 20 * Real::of(TRUSTED_SHARE).value()) <= 8
            * cell_unit(),
{
    let share: Real = Real::of(TRUSTED_SHARE);
    let u: int = cell_unit();
    lemma2_to64();
    lemma2_to64_rest();
    assert(share.significand() == 0x1e_6666_6666_6666 && share.exponent() == -53);
    lemma_pow2_adds(53, 1021);
    lemma_pow2_pos(1021);
    let a: int = pow2(1021) as int;
    assert(u == 0x20_0000_0000_0000 * a);
    assert(share.value() == 0x1e_6666_6666_6666 * a);
}

/// How far an agent trusts its sight.
proof fn lemma_sight(radius: Real, most: int)
    requires
        bounding(most),
        reaches(radius, most),
        radius.value() >= 0,
    ensures
        ({
            let sight: Real = radius.mul(Real::of(TRUSTED_SHARE));
            &&& sight.finite()
            &&& -most <= sight.value() <= most
            &&& 0x20_0000_0000_0000 * size_of(20 * sight.value() - 19 * radius.value()) <= 64 * most
        }),
{
    let share: Real = Real::of(TRUSTED_SHARE);
    let u: int = cell_unit();
    lemma_large_unit();
    lemma_unit_is_nothing(most);
    lemma_trusted_share();
    lemma_modest(radius, most);
    lemma_close_product(radius, share);
    lemma_sight_ints(u, most, radius.value(), share.value(), radius.mul(share).value());
}

proof fn lemma_sight_ints(u: int, most: int, r: int, h: int, m: int)
    requires
        u >= 0x100_0000_0000_0000,
        most >= u,
        0 <= r <= most,
        0 < 20 * h <= 19 * u,
        0x20_0000_0000_0000 * (19 * u - 20 * h) <= 8 * u,
        0x20_0000_0000_0000 * size_of(m * u - r * h) <= size_of(m) * u + 0x20_0000_0000_0000 * u,
    ensures
        -most <= m <= most,
        0x20_0000_0000_0000 * size_of(20 * m - 19 * r) <= 64 * most,
{
    let p: int = 0x20_0000_0000_0000;
    let n: int = size_of(m);
    let mu: int = most * u;
    let g: int = 19 * u - 20 * h;
    assert(0 <= p * (r * g) <= 8 * mu) by (nonlinear_arith)
        requires
            0 <= p * g <= 8 * u,
            0 <= r <= most,
            mu == most * u,
            p == 0x20_0000_0000_0000,
    ;
    assert(r * g == 19 * (r * u) - 20 * (r * h)) by (nonlinear_arith)
        requires
            g == 19 * u - 20 * h,
    ;
    assert(p * u <= mu) by (nonlinear_arith)
        requires
            p <= most,
            u > 0,
            mu == most * u,
    ;
    let e: int = 20 * m - 19 * r;
    assert(e * u == 20 * (m * u) - 19 * (r * u)) by (nonlinear_arith)
        requires
            e == 20 * m - 19 * r,
    ;
    lemma_size_scales(e, u);
    let k: int = size_of(e);
    assert(p * (k * u) <= 20 * (n * u) + 28 * mu);
    assert(p * k <= 20 * n + 28 * most) by (nonlinear_arith)
        requires
            p * (k * u) <= 20 * (n * u) + 28 * mu,
            mu == most * u,
            u > 0,
    ;
}

/// Which of two lengths is greater, told by their squares.
proof fn lemma_seen(l: int, m: int, r: int, n: int, most: int)
    requires
        most > 0,
        l >= 0,
        n >= 0,
        0 <= r <= most,
        -most <= m <= most,
        0x20_0000_0000_0000 * size_of(20 * m - 19 * r) <= 64 * most,
        0x20_0000_0000_0000 * size_of(l * l - n) <= 512 * (most * most),
    ensures
        l <= m ==> 0x100_0000 * (400 * n - 361 * (r * r)) <= most * most,
        l > m ==> 0x100_0000 * (361 * (r * r) - 400 * n) <= most * most,
{
    let p: int = 0x20_0000_0000_0000;
    let mm: int = most * most;
    let e: int = p * (20 * m - 19 * r);
    lemma_mul_bound(e, 20 * m + 19 * r, 64 * most, 39 * most);
    assert((64 * most) * (39 * most) == 2496 * mm) by (nonlinear_arith)
        requires
            mm == most * most,
    ;
    assert(e * (20 * m + 19 * r) == p * (400 * (m * m) - 361 * (r * r))) by (nonlinear_arith)
        requires
            e == p * (20 * m - 19 * r),
    ;
    assert(mm > 0) by (nonlinear_arith)
        requires
            mm == most * most,
            most > 0,
    ;
    if l <= m {
        assert(l * l <= m * m) by (nonlinear_arith)
            requires
                0 <= l <= m,
        ;
    } else if m >= 0 {
        assert(l * l >= m * m) by (nonlinear_arith)
            requires
                0 <= m <= l,
        ;
    } else {
        assert(0x1000 * (19 * r) <= most);
        assert(0x100_0000 * (361 * (r * r)) <= mm) by (nonlinear_arith)
            requires
                0 <= 0x1000 * (19 * r) <= most,
                mm == most * most,
        ;
    }
}

/// Whether a point is in sight: no farther off than 19 twentieths of the sensing radius, up
/// to one part in `2^24` of the square of a bound.
pub open spec fn may_be_seen(point: Point, position: Point, radius: Real, most: int) -> bool {
    0x100_0000 * (400 * apart_sq(point, position) - 361 * (radius.value() * radius.value())) <= most
        * most
}

/// Whether a point is out of sight, up to as much.
pub open spec fn may_be_missed(point: Point, position: Point, radius: Real, most: int) -> bool {
    0x100_0000 * (361 * (radius.value() * radius.value()) - 400 * apart_sq(point, position)) <= most
        * most
}

proof fn lemma_seen_or_missed(point: Point, position: Point, config: NavConfig, most: int)
    requires
        bounding(most),
        within_bound(point, most),
        within_bound(position, most),
        reaches(config.sense_radius, most),
        config.sense_radius.value() >= 0,
    ensures
        ({
            let radius: Real = config.sense_radius;
            if distance(point, position).le(radius.mul(Real::of(TRUSTED_SHARE))) {
                may_be_seen(point, position, radius, most)
            } else {
                may_be_missed(point, position, radius, most)
            }
        }),
{
    let radius: Real = config.sense_radius;
    let l: Real = distance(point, position);
    let sight: Real = radius.mul(Real::of(TRUSTED_SHARE));
    let dx: int = point.x.value() - position.x.value();
    let dz: int = point.z.value() - position.z.value();
    lemma_large_unit();
    lemma_distance(point, position, most);
    lemma_sight(radius, most);
    lemma_value_order(l, sight);
    assert(dx * dx + dz * dz >= 0) by (nonlinear_arith);
    lemma_seen(l.value(), sight.value(), radius.value(), apart_sq(point, position), most);
}

proof fn lemma_last_in_sight(
    corridor: Seq<Point>,
    index: int,
    config: NavConfig,
    position: Point,
    most: int,
)
    requires
        bounding(most),
        corridor_within(corridor, most),
        within_bound(position, most),
        reaches(config.sense_radius, most),
        config.sense_radius.value() >= 0,
        0 <= index < corridor.len(),
    ensures
        ({
            let last: int = last_in_sight(corridor, index, config, position);
            let radius: Real = config.sense_radius;
            &&& index <= last < corridor.len()
            &&& forall|k: int|
                index < k <= last ==> may_be_seen(#[trigger] corridor[k], position, radius, most)
            &&& last + 1 < corridor.len() ==> may_be_missed(
                corridor[last + 1],
                position,
                radius,
                most,
            )
        }),
    decreases corridor.len() - index,
{
    if index + 1 < corridor.len() {
        let next: Point = corridor[index + 1];
        assert(within_bound(next, most));
        lemma_seen_or_missed(next, position, config, most);
        if distance(next, position).le(config.sense_radius.mul(Real::of(TRUSTED_SHARE))) {
            lemma_last_in_sight(corridor, index + 1, config, position, most);
        }
    }
}

/// An agent heads for a point of its corridor up to which it sees every one that follows
/// where it has come to, and the one after which it does not see; or for the goal, which it
/// does only at the end of the corridor.
pub proof fn lemma_agent_heads_for_what_it_sees(
    corridor: Seq<Point>,
    next: int,
    config: NavConfig,
    position: Point,
    goal: Point,
    most: int,
)
    requires
        bounding(most),
        corridor_within(corridor, most),
        within_bound(position, most),
        reaches(config.sense_radius, most),
        config.sense_radius.value() >= 0,
        0 <= next < corridor.len(),
    ensures
        ({
            let (target, index): (Point, int) = heading_for(
                corridor,
                next,
                config,
                position,
                goal,
            );
            let radius: Real = config.sense_radius;
            &&& next <= index < corridor.len()
            &&& forall|k: int|
                next < k <= index ==> may_be_seen(#[trigger] corridor[k], position, radius, most)
            &&& index + 1 < corridor.len() ==> target == corridor[index] && may_be_missed(
                corridor[index + 1],
                position,
                radius,
                most,
            )
            &&& index + 1 == corridor.len() ==> {
                if distance(goal, position).le(radius) {
                    target == goal
                } else {
                    target == corridor[index]
                }
            }
        }),
{
    lemma_last_in_sight(corridor, next, config, position, most);
}

proof fn lemma_share_ints(u: int, n: int, b: int, x: int, y: int, z: int, s: int)
    requires
        u >= 0x100_0000_0000_0000,
        n > 0,
        0 <= b <= n,
        0x80_0000 * size_of(x - b * u) <= 2 * (n * u),
        0x80_0000 * size_of(y - n * u) <= 2 * (n * u),
        size_of(z) <= 4 * u,
        0x20_0000_0000_0000 * size_of(z * y - x * u) <= 32 * ((2 * (n * u)) * u),
        0x100_0000 * size_of(s - z) <= size_of(z) + u,
    ensures
        0x80_0000 * size_of(s * n - b * u) <= 16 * (n * u),
{
    let nu: int = n * u;
    let nuu: int = nu * u;
    assert(nu > 0 && nuu > 0) by (nonlinear_arith)
        requires
            nu == n * u,
            nuu == nu * u,
            n > 0,
            u > 0,
    ;
    assert((2 * nu) * u == 2 * nuu) by (nonlinear_arith)
        requires
            nuu == nu * u,
    ;
    let bu: int = b * u;
    assert(0 <= bu <= nu) by (nonlinear_arith)
        requires
            bu == b * u,
            nu == n * u,
            0 <= b <= n,
            u > 0,
    ;
    let xu: int = x * u;
    let buu: int = bu * u;
    let e: int = 0x80_0000 * (x - bu);
    lemma_mul_bound(e, u, 2 * nu, u);
    assert(e * u == 0x80_0000 * (xu - buu)) by (nonlinear_arith)
        requires
            e == 0x80_0000 * (x - bu),
            xu == x * u,
            buu == bu * u,
    ;
    assert(0 <= buu <= nuu) by (nonlinear_arith)
        requires
            buu == bu * u,
            nuu == nu * u,
            0 <= bu <= nu,
            u > 0,
    ;
    let f: int = 0x80_0000 * (y - nu);
    lemma_mul_bound(z, f, 4 * u, 2 * nu);
    assert((4 * u) * (2 * nu) == 8 * nuu) by (nonlinear_arith)
        requires
            nuu == nu * u,
    ;
    assert(z * f == 0x80_0000 * (z * y - z * nu)) by (nonlinear_arith)
        requires
            f == 0x80_0000 * (y - nu),
    ;
    let g: int = 0x80_0000 * (s - z);
    assert(size_of(g) <= 3 * u);
    lemma_mul_bound(g, nu, 3 * u, nu);
    assert((3 * u) * nu == 3 * nuu) by (nonlinear_arith)
        requires
            nuu == nu * u,
    ;
    assert(g * nu == 0x80_0000 * (s * nu - z * nu)) by (nonlinear_arith)
        requires
            g == 0x80_0000 * (s - z),
    ;
    let h: int = s * n - bu;
    assert(h * u == s * nu - buu) by (nonlinear_arith)
        requires
            h == s * n - bu,
            nu == n * u,
            buu == bu * u,
    ;
    lemma_size_scales(h, u);
    let w: int = size_of(h);
    assert(0x80_0000 * (w * u) <= 16 * nuu);
    assert(0x80_0000 * w <= 16 * nu) by (nonlinear_arith)
        requires
            0x80_0000 * (w * u) <= 16 * nuu,
            nuu == nu * u,
            u > 0,
    ;
}

proof fn lemma_share_is_small(u: int, n: int, x: int, y: int, z: int)
    requires
        u >= 0x100_0000_0000_0000,
        n > 0,
        0 <= 2 * x <= 3 * (n * u),
        n * u <= 2 * y,
        0x20_0000_0000_0000 * size_of(z * y - x * u) <= 32 * ((2 * (n * u)) * u),
    ensures
        size_of(z) <= 4 * u,
{
    let nu: int = n * u;
    let nuu: int = nu * u;
    assert(nu > 0 && nuu > 0) by (nonlinear_arith)
        requires
            nu == n * u,
            nuu == nu * u,
            n > 0,
            u > 0,
    ;
    assert((2 * nu) * u == 2 * nuu) by (nonlinear_arith)
        requires
            nuu == nu * u,
    ;
    let xu: int = x * u;
    assert(0 <= 2 * xu <= 3 * nuu) by (nonlinear_arith)
        requires
            xu == x * u,
            0 <= 2 * x <= 3 * nu,
            nuu == nu * u,
            u > 0,
    ;
    let k: int = size_of(z);
    lemma_size_scales(z, y);
    assert(k * nu <= 2 * (k * y)) by (nonlinear_arith)
        requires
            nu <= 2 * y,
            k >= 0,
    ;
    assert(k * y <= 2 * nuu);
    assert(k <= 4 * u) by (nonlinear_arith)
        requires
            k * nu <= 4 * nuu,
            nuu == nu * u,
            nu > 0,
    ;
}

/// A number of cells, in single precision.
proof fn lemma_single_count(n: u64, most: int)
    requires
        bounding(most),
    ensures
        ({
            let x: Real = Real::from_count(n).to_single();
            let nu: int = n * cell_unit();
            &&& x.finite()
            &&& modest(Real::from_count(n))
            &&& 0x100_0000 * size_of(x.value() - nu) <= 2 * nu + cell_unit()
            &&& x.value() >= 0
        }),
{
    let r: Real = Real::from_count(n);
    let u: int = cell_unit();
    let nu: int = n * u;
    lemma_large_unit();
    lemma2_to64_rest();
    lemma_step_lengths();
    lemma_count(n);
    lemma_count_below(n);
    assert(nu >= 0) by (nonlinear_arith)
        requires
            nu == n * u,
            n >= 0,
            u > 0,
    ;
    assert(modest(r));
    lemma_single_close(r, most);
    let x: Real = r.to_single();
    if n == 0 {
        reveal(Real::spec_to_single);
        assert(x.magnitude() == 0);
        lemma_size_of_zero(x);
    } else {
        assert(nu >= u) by (nonlinear_arith)
            requires
                nu == n * u,
                n >= 1,
                u > 0,
        ;
    }
}

/// The density of a coarse cell is the share of its cells that is blocked, up to 16 parts in
/// `2^23`.
pub proof fn lemma_density_is_the_share(blocked: nat, total: nat)
    requires
        1 <= total <= u64::MAX,
        blocked <= total,
    ensures
        ({
            let share: Real = blocked_share(blocked, total);
            &&& share.finite()
            &&& 0x80_0000 * size_of(share.value() * total - blocked * cell_unit()) <= 16 * (total
                * cell_unit())
        }),
{
    let u: int = cell_unit();
    let n: int = total as int;
    let b: int = blocked as int;
    let nu: int = n * u;
    let most: int = 2 * nu;
    let x: Real = Real::from_count(blocked as u64).to_single();
    let y: Real = Real::from_count(total as u64).to_single();
    let z: Real = x.div(y);
    lemma_large_unit();
    lemma_many_cells(n);
    lemma_single_count(blocked as u64, most);
    lemma_single_count(total as u64, most);
    assert(u <= nu && 0 <= b * u <= nu) by (nonlinear_arith)
        requires
            nu == n * u,
            n >= 1,
            0 <= b <= n,
            u > 0,
    ;
    let half: Real = Real::of(HALF);
    lemma_half();
    lemma_value_order(half, y);
    lemma_modest(x, most);
    lemma_quotient_is_finite(x, y);
    lemma_part_along(x, y, most);
    lemma_share_is_small(u, n, x.value(), y.value(), z.value());
    lemma_modest(z, most);
    lemma_single_close(z, most);
    lemma_share_ints(
        u,
        n,
        b,
        x.value(),
        y.value(),
        z.value(),
        blocked_share(blocked, total).value(),
    );
}

proof fn lemma_many_cells(n: int)
    requires
        1 <= n <= u64::MAX,
    ensures
        bounding(2 * (n * cell_unit())),
{
    let u: int = cell_unit();
    lemma2_to64();
    lemma2_to64_rest();
    lemma_pow2_adds(64, 1074);
    lemma_pow2_unfold(1139);
    lemma_pow2_strictly_increases(1139, 1174);
    assert(u <= n * u <= 0x1_0000_0000_0000_0000 * u) by (nonlinear_arith)
        requires
            1 <= n <= 0x1_0000_0000_0000_0000,
            u >= 0,
    ;
}

} // verus!
