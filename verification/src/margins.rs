//! What the margins of a navigator come to: how far from threats and walls it keeps, how
//! far it notices, and how near it has to come.
use vstd::arithmetic::power2::*;
use vstd::prelude::*;

use crate::config::{NavConfig, NavShared, Threat};
use crate::crossing::{cell_unit, lemma_large_unit};
use crate::dilation::{gap, lemma_open_cell_keeps_clearance};
use crate::gate::{gate_holds, gate_radius, nearby_of, noticed, spec_holds, widened_of};
use crate::geometry::{distance, distance_sq, Point, HALF, ZERO};
use crate::lattice::{laid_out, lemma_cell_is_modest, lemma_half, lemma_scaled, lemma_scaled_ints};
use crate::nearness::{
    bounding, lemma_close_difference, lemma_close_product, lemma_close_sum, lemma_distance,
    lemma_distance_sq, lemma_hypot, lemma_modest, lemma_mul_bound, lemma_square_of,
    lemma_unit_is_nothing, reaches, size_of, within_bound,
};
use crate::navigator::{has_arrived, spec_arrival_distance, NavState, ARRIVAL_LEAST, ARRIVAL_SHARE};
use crate::number::Real;
use crate::ordering::{lemma_int_exact, lemma_mul_monotone, lemma_value_order};
use crate::shortest::lemma_count_below;
use crate::snap::spec_outside;
use crate::unit::lemma_size_of_zero;
use crate::walk::WalkView;

verus! {

/// Whether the margins of a navigator are numbers within a bound.
pub open spec fn margins_within(config: NavConfig, most: int) -> bool {
    &&& bounding(most)
    &&& reaches(config.sense_radius, most)
    &&& reaches(config.agent_radius, most)
    &&& reaches(config.threat_margin, most)
    &&& config.agent_radius.value() >= 0
    &&& config.threat_margin.value() >= 0
}

/// Whether a threat is a disc within a bound.
pub open spec fn threat_within(threat: Threat, most: int) -> bool {
    &&& within_bound(threat.center, most)
    &&& reaches(threat.radius, most)
    &&& threat.radius.value() >= 0
}

/// Whether a point lies in a disc, up to 4096 parts in `2^53` of the square of a bound;
/// the radius is given in halves.
pub open spec fn lies_in_disc(point: Point, center: Point, doubled: int, most: int) -> bool {
    let dx: int = 2 * (point.x.value() - center.x.value());
    let dz: int = 2 * (point.z.value() - center.z.value());
    0x20_0000_0000_0000 * (dx * dx + dz * dz - doubled * doubled) <= 4096 * (most * most)
}

/// Whether a point lies outside of a disc, up to the same sliver.
pub open spec fn lies_off_disc(point: Point, center: Point, doubled: int, most: int) -> bool {
    let dx: int = 2 * (point.x.value() - center.x.value());
    let dz: int = 2 * (point.z.value() - center.z.value());
    0x20_0000_0000_0000 * (doubled * doubled - (dx * dx + dz * dz)) <= 4096 * (most * most)
}

/// Twice the radius that a threat is avoided at: its own, the agent's and the margin.
pub open spec fn doubled_berth(threat: Threat, config: NavConfig) -> int {
    2 * (threat.radius.value() + config.agent_radius.value() + config.threat_margin.value())
}

/// Twice the radius that the guard keeps the agent out of: half the margin less.
pub open spec fn doubled_guard(threat: Threat, config: NavConfig) -> int {
    2 * (threat.radius.value() + config.agent_radius.value()) + config.threat_margin.value()
}

/// A comparison of a squared distance with the square of a radius that is known up to a
/// sliver.
proof fn lemma_compared_with_disc(point: Point, center: Point, radius: Real, doubled: int, most: int)
    requires
        bounding(most),
        within_bound(point, most),
        within_bound(center, most),
        reaches(radius, 4 * most),
        0 <= doubled <= 6 * most,
        0x20_0000_0000_0000 * size_of(2 * radius.value() - doubled) <= 32 * most,
    ensures
        ({
            let d: Real = distance_sq(point, center);
            let q: Real = radius.mul(radius);
            &&& d.finite()
            &&& q.finite()
            &&& d.le(q) ==> lies_in_disc(point, center, doubled, most)
            &&& q.le(d) ==> lies_off_disc(point, center, doubled, most)
        }),
{
    let d: Real = distance_sq(point, center);
    let q: Real = radius.mul(radius);
    let u: int = cell_unit();
    let m: int = most * most;
    lemma_large_unit();
    lemma_unit_is_nothing(most);
    lemma_distance_sq(point, center, most);
    lemma_square_of(radius, most);
    lemma_value_order(d, q);
    lemma_value_order(q, d);
    assert(d.value() <= q.value() ==> d.value() * u <= q.value() * u) by (nonlinear_arith)
        requires
            u > 0,
    ;
    assert(d.value() >= q.value() ==> d.value() * u >= q.value() * u) by (nonlinear_arith)
        requires
            u > 0,
    ;
    let r: int = radius.value();
    lemma_radii(2 * r, doubled, most);
    assert((2 * r) * (2 * r) == 4 * (r * r)) by (nonlinear_arith);
    let ex: int = point.x.value() - center.x.value();
    let ez: int = point.z.value() - center.z.value();
    assert((2 * ex) * (2 * ex) == 4 * (ex * ex)) by (nonlinear_arith);
    assert((2 * ez) * (2 * ez) == 4 * (ez * ez)) by (nonlinear_arith);
}

/// Squares of lengths that differ by a sliver.
proof fn lemma_radii(a: int, b: int, most: int)
    requires
        most > 0,
        0 <= b <= 6 * most,
        0x20_0000_0000_0000 * size_of(a - b) <= 32 * most,
    ensures
        0x20_0000_0000_0000 * size_of(a * a - b * b) <= 416 * (most * most),
{
    let d: int = a - b;
    assert(size_of(a + b) <= 13 * most);
    lemma_mul_bound(0x20_0000_0000_0000 * d, a + b, 32 * most, 13 * most);
    assert((0x20_0000_0000_0000 * d) * (a + b) == 0x20_0000_0000_0000 * (a * a - b * b))
        by (nonlinear_arith)
        requires
            d == a - b,
    ;
    assert((32 * most) * (13 * most) == 416 * (most * most)) by (nonlinear_arith);
}

/// The computed radius that a threat is avoided at is the sum of its own, the agent's and
/// the margin, up to a sliver.
proof fn lemma_widened_radius(threat: Threat, config: NavConfig, most: int)
    requires
        margins_within(config, most),
        threat_within(threat, most),
    ensures
        ({
            let radius: Real = threat.radius.add(config.inflation());
            &&& reaches(radius, 4 * most)
            &&& radius.value() >= 0
            &&& 0x20_0000_0000_0000 * size_of(2 * radius.value() - doubled_berth(threat, config))
                <= 12 * most
            &&& 0 <= doubled_berth(threat, config) <= 6 * most
        }),
{
    let inflation: Real = config.threat_margin.add(config.agent_radius);
    lemma_unit_is_nothing(most);
    lemma_modest(config.threat_margin, most);
    lemma_modest(config.agent_radius, most);
    lemma_close_sum(config.threat_margin, config.agent_radius);
    lemma_modest(inflation, most);
    lemma_modest(threat.radius, most);
    lemma_close_sum(threat.radius, inflation);
    let t: int = config.threat_margin.value() + config.agent_radius.value();
    assert(size_of(inflation.value() - t) <= most / 1024);
    assert(inflation.value() >= 0);
}

/// The computed radius of the guard's disc is half the margin less, up to a sliver.
proof fn lemma_guard_radius(threat: Threat, config: NavConfig, most: int)
    requires
        margins_within(config, most),
        threat_within(threat, most),
    ensures
        ({
            let wide: Threat = Threat {
                center: threat.center,
                radius: threat.radius.add(config.inflation()),
            };
            let radius: Real = gate_radius(wide, config);
            &&& reaches(radius, 4 * most)
            &&& 0x20_0000_0000_0000 * size_of(2 * radius.value() - doubled_guard(threat, config))
                <= 32 * most
            &&& 0 <= doubled_guard(threat, config) <= 6 * most
        }),
{
    let w: Real = threat.radius.add(config.inflation());
    let half: Real = Real::of(HALF);
    let zero: Real = Real::of(ZERO);
    let h: Real = config.threat_margin.mul(half);
    let d: Real = w.sub(h);
    let u: int = cell_unit();
    lemma_widened_radius(threat, config, most);
    lemma_unit_is_nothing(most);
    lemma_large_unit();
    lemma_half_of(config.threat_margin, most);
    lemma_modest(w, most);
    lemma_modest(h, most);
    lemma_close_difference(w, h);
    assert(zero.magnitude() == 0);
    lemma_size_of_zero(zero);
    lemma_value_order(zero, d);
    lemma_value_order(d, zero);
    assert(size_of(w.value()) <= 3 * most + most / 1024);
    assert(0x20_0000_0000_0000 * size_of(2 * d.value() - doubled_guard(threat, config)) <= 32 * most);
}

/// Half of a number, up to a sliver.
proof fn lemma_half_of(r: Real, most: int)
    requires
        bounding(most),
        reaches(r, most),
        r.value() >= 0,
    ensures
        ({
            let h: Real = r.mul(Real::of(HALF));
            &&& h.finite()
            &&& 0 <= h.value() <= most
            &&& 0x20_0000_0000_0000 * size_of(2 * h.value() - r.value()) <= 11 * most
        }),
{
    let half: Real = Real::of(HALF);
    let h: Real = r.mul(half);
    let u: int = cell_unit();
    let zero: Real = Real::of(ZERO);
    lemma_unit_is_nothing(most);
    lemma_large_unit();
    lemma_half();
    lemma_modest(r, most);
    lemma_close_product(r, half);
    assert(zero.magnitude() == 0);
    lemma_size_of_zero(zero);
    lemma_value_order(zero, r);
    lemma_mul_monotone(r, r, half, half);
    lemma_value_order(zero, h);
    let s: int = r.value();
    let k: int = half.value();
    if s == 0 {
        lemma_value_order(r, zero);
        lemma_nothing_of(r, half);
        lemma_size_of_zero(h);
    } else {
        assert(k * s == s * k) by (nonlinear_arith);
        assert(1 * s == s && 1 * u == u);
        lemma_scaled_ints(u, most, k, 1, s, h.value());
    }
}

proof fn lemma_nothing_of(a: Real, b: Real)
    requires
        a.magnitude() == 0,
        b.finite(),
    ensures
        a.mul(b).magnitude() == 0,
{
    reveal(Real::spec_mul);
    let m: nat = a.significand() * b.significand();
    assert(m == 0) by (nonlinear_arith)
        requires
            m == a.significand() * b.significand(),
            a.significand() == 0,
    ;
}

/// The planner avoids a threat at its radius, the agent's and the margin together, and the
/// guard keeps the agent out of half the margin less. Both hold up to a sliver, and both
/// ways.
pub proof fn lemma_threats_are_avoided_at_a_margin(
    threats: Seq<Threat>,
    config: NavConfig,
    i: int,
    point: Point,
    most: int,
)
    requires
        margins_within(config, most),
        0 <= i < threats.len(),
        threat_within(threats[i], most),
        within_bound(point, most),
    ensures
        ({
            let wide: Threat = widened_of(threats, config)[i];
            let berth: int = doubled_berth(threats[i], config);
            let guard: int = doubled_guard(threats[i], config);
            let center: Point = threats[i].center;
            &&& widened_of(threats, config).len() == threats.len()
            &&& spec_holds(wide, point) ==> lies_in_disc(point, center, berth, most)
            &&& !spec_holds(wide, point) ==> lies_off_disc(point, center, berth, most)
            &&& spec_outside(threats[i], config.inflation(), point) ==> lies_off_disc(
                point,
                center,
                berth,
                most,
            )
            &&& !spec_outside(threats[i], config.inflation(), point) ==> lies_in_disc(
                point,
                center,
                berth,
                most,
            )
            &&& gate_holds(wide, config, point) ==> lies_in_disc(point, center, guard, most)
            &&& !gate_holds(wide, config, point) ==> lies_off_disc(point, center, guard, most)
        }),
{
    let threat: Threat = threats[i];
    let wide: Threat = widened_of(threats, config)[i];
    lemma_widened_radius(threat, config, most);
    lemma_guard_radius(threat, config, most);
    lemma_compared_with_disc(
        point,
        threat.center,
        wide.radius,
        doubled_berth(threat, config),
        most,
    );
    lemma_compared_with_disc(
        point,
        threat.center,
        gate_radius(wide, config),
        doubled_guard(threat, config),
        most,
    );
}

/// Twice the distance within which a threat is noticed.
pub open spec fn doubled_notice(threat: Threat, config: NavConfig) -> int {
    2 * config.sense_radius.value() + doubled_berth(threat, config)
}

/// Whether the noticed threats are just those of the given ones that come as near as the
/// sensing radius with their discs, each widened, in their order: the `t`-th is that at
/// `source[t]`.
pub open spec fn notices(
    nearby: Seq<Threat>,
    threats: Seq<Threat>,
    config: NavConfig,
    position: Point,
    source: Seq<int>,
    most: int,
) -> bool {
    &&& source.len() == nearby.len()
    &&& forall|s: int, t: int| 0 <= s < t < source.len() ==> #[trigger] source[s] < #[trigger] source[t]
    &&& forall|t: int|
        0 <= t < source.len() ==> {
            &&& 0 <= #[trigger] source[t] < threats.len()
            &&& nearby[t] == widened_of(threats, config)[source[t]]
            &&& lies_in_disc(
                position,
                threats[source[t]].center,
                doubled_notice(threats[source[t]], config),
                most,
            )
        }
    &&& forall|i: int|
        0 <= i < threats.len() && !source.contains(i) ==> lies_off_disc(
            position,
            (#[trigger] threats[i]).center,
            doubled_notice(threats[i], config),
            most,
        )
}

/// A comparison of a distance with a length that is known up to a sliver.
proof fn lemma_compared_with_length(point: Point, center: Point, length: Real, doubled: int, most: int)
    requires
        bounding(most),
        within_bound(point, most),
        within_bound(center, most),
        length.finite(),
        length.value() >= 0,
        0 <= doubled <= 8 * most,
        0x20_0000_0000_0000 * size_of(2 * length.value() - doubled) <= 48 * most,
    ensures
        distance(center, point).finite(),
        distance(center, point).le(length) ==> lies_in_disc(point, center, doubled, most),
        !distance(center, point).le(length) ==> lies_off_disc(point, center, doubled, most),
{
    let d: Real = distance(center, point);
    let m: int = most * most;
    lemma_unit_is_nothing(most);
    lemma_distance(center, point, most);
    lemma_value_order(d, length);
    let l: int = d.value();
    let t: int = length.value();
    assert(l <= t ==> l * l <= t * t) by (nonlinear_arith)
        requires
            l >= 0,
            t >= 0,
    ;
    assert(t <= l ==> t * t <= l * l) by (nonlinear_arith)
        requires
            l >= 0,
            t >= 0,
    ;
    lemma_lengths(2 * t, doubled, most);
    assert((2 * t) * (2 * t) == 4 * (t * t)) by (nonlinear_arith);
    let ex: int = center.x.value() - point.x.value();
    let ez: int = center.z.value() - point.z.value();
    let dx: int = 2 * (point.x.value() - center.x.value());
    let dz: int = 2 * (point.z.value() - center.z.value());
    assert(dx * dx == 4 * (ex * ex)) by (nonlinear_arith)
        requires
            dx == -(2 * ex),
    ;
    assert(dz * dz == 4 * (ez * ez)) by (nonlinear_arith)
        requires
            dz == -(2 * ez),
    ;
}

proof fn lemma_lengths(a: int, b: int, most: int)
    requires
        most > 0,
        0 <= b <= 8 * most,
        0x20_0000_0000_0000 * size_of(a - b) <= 48 * most,
    ensures
        0x20_0000_0000_0000 * size_of(a * a - b * b) <= 816 * (most * most),
{
    let d: int = a - b;
    assert(size_of(a + b) <= 17 * most);
    lemma_mul_bound(0x20_0000_0000_0000 * d, a + b, 48 * most, 17 * most);
    assert((0x20_0000_0000_0000 * d) * (a + b) == 0x20_0000_0000_0000 * (a * a - b * b))
        by (nonlinear_arith)
        requires
            d == a - b,
    ;
    assert((48 * most) * (17 * most) == 816 * (most * most)) by (nonlinear_arith);
}

/// A threat is noticed where its widened disc comes as near as the sensing radius.
proof fn lemma_noticed(threat: Threat, config: NavConfig, position: Point, most: int)
    requires
        margins_within(config, most),
        config.sense_radius.value() >= 0,
        threat_within(threat, most),
        within_bound(position, most),
    ensures
        noticed(threat, config, position) is Some ==> lies_in_disc(
            position,
            threat.center,
            doubled_notice(threat, config),
            most,
        ),
        noticed(threat, config, position) is None ==> lies_off_disc(
            position,
            threat.center,
            doubled_notice(threat, config),
            most,
        ),
        noticed(threat, config, position) matches Some(wide) ==> wide == (Threat {
            center: threat.center,
            radius: threat.radius.add(config.inflation()),
        }),
{
    let radius: Real = threat.radius.add(config.inflation());
    let length: Real = config.sense_radius.add(radius);
    lemma_widened_radius(threat, config, most);
    lemma_unit_is_nothing(most);
    lemma_modest(config.sense_radius, most);
    lemma_modest(radius, most);
    lemma_close_sum(config.sense_radius, radius);
    assert(size_of(radius.value()) <= 3 * most + most / 1024);
    let t: int = config.sense_radius.value() + radius.value();
    assert(0 <= t <= 5 * most);
    assert(length.value() >= 0);
    lemma_compared_with_length(
        position,
        threat.center,
        length,
        doubled_notice(threat, config),
        most,
    );
}

/// An agent notices just the threats whose discs, widened by the margins it keeps, come as
/// near as its sensing radius, and sees them widened by those margins. This holds up to a
/// sliver.
pub proof fn lemma_agent_notices_what_is_near(
    threats: Seq<Threat>,
    config: NavConfig,
    position: Point,
    most: int,
)
    requires
        margins_within(config, most),
        config.sense_radius.value() >= 0,
        forall|i: int| 0 <= i < threats.len() ==> threat_within(#[trigger] threats[i], most),
        within_bound(position, most),
    ensures
        exists|source: Seq<int>| #[trigger]
            notices(
                nearby_of(threats, threats.len() as int, config, position),
                threats,
                config,
                position,
                source,
                most,
            ),
{
    let source: Seq<int> = lemma_noticed_among(
        threats,
        threats.len() as int,
        config,
        position,
        most,
    );
    assert(threats.take(threats.len() as int) =~= threats);
}

proof fn lemma_noticed_among(
    threats: Seq<Threat>,
    n: int,
    config: NavConfig,
    position: Point,
    most: int,
) -> (source: Seq<int>)
    requires
        margins_within(config, most),
        config.sense_radius.value() >= 0,
        0 <= n <= threats.len(),
        forall|i: int| 0 <= i < threats.len() ==> threat_within(#[trigger] threats[i], most),
        within_bound(position, most),
    ensures
        notices(
            nearby_of(threats, n, config, position),
            threats.take(n),
            config,
            position,
            source,
            most,
        ),
    decreases n,
{
    if n == 0 {
        Seq::empty()
    } else {
        let before: Seq<int> = lemma_noticed_among(threats, n - 1, config, position, most);
        let first: Seq<Threat> = threats.take(n);
        let fewer: Seq<Threat> = threats.take(n - 1);
        let rest: Seq<Threat> = nearby_of(threats, n - 1, config, position);
        let last: Threat = threats[n - 1];
        lemma_noticed(last, config, position, most);
        let source: Seq<int> = if noticed(last, config, position) is Some {
            before.push(n - 1)
        } else {
            before
        };
        let nearby: Seq<Threat> = nearby_of(threats, n, config, position);
        assert forall|t: int| 0 <= t < source.len() implies {
            &&& 0 <= #[trigger] source[t] < first.len()
            &&& nearby[t] == widened_of(first, config)[source[t]]
            &&& lies_in_disc(
                position,
                first[source[t]].center,
                doubled_notice(first[source[t]], config),
                most,
            )
        } by {
            if t < before.len() {
                assert(source[t] == before[t]);
                assert(first[before[t]] == fewer[before[t]]);
                assert(nearby[t] == rest[t]);
            }
        }
        assert forall|i: int| 0 <= i < first.len() && !source.contains(i) implies lies_off_disc(
            position,
            (#[trigger] first[i]).center,
            doubled_notice(first[i], config),
            most,
        ) by {
            if i < n - 1 {
                assert(fewer[i] == first[i]);
                if before.contains(i) {
                    let t: int = before.index_of(i);
                    assert(source[t] == i);
                }
            } else if noticed(last, config, position) is Some {
                assert(source[before.len() as int] == i);
            }
        }
        source
    }
}

/// An agent has arrived where it stands no farther from its stop than a twentieth of a
/// cell, or a thousandth where that is more. This holds up to a sliver. Lengths are given
/// in thousandths.
pub proof fn lemma_arrival_is_near(s: NavState, shared: &NavShared, most: int)
    requires
        bounding(most),
        within_bound(s.position, most),
        within_bound(s.snapped, most),
        reaches(shared.fine.cell_size, most),
        shared.fine.cell_size.value() > 0,
    ensures
        ({
            let cell: int = 50 * shared.fine.cell_size.value();
            let tolerance: int = if cell < cell_unit() {
                cell_unit()
            } else {
                cell
            };
            let dx: int = 1000 * (s.position.x.value() - s.snapped.x.value());
            let dz: int = 1000 * (s.position.z.value() - s.snapped.z.value());
            let off: int = dx * dx + dz * dz - tolerance * tolerance;
            &&& has_arrived(s, shared) ==> 0x20_0000_0000_0000 * off <= 0x2000_0000 * (most * most)
            &&& !has_arrived(s, shared) ==> -(0x2000_0000 * (most * most)) <= 0x20_0000_0000_0000 * off
        }),
{
    let a: Real = spec_arrival_distance(shared);
    let d: Real = distance(s.position, s.snapped);
    let m: int = most * most;
    let u: int = cell_unit();
    let cell: int = 50 * shared.fine.cell_size.value();
    let tolerance: int = if cell < u {
        u
    } else {
        cell
    };
    lemma_unit_is_nothing(most);
    lemma_distance(s.position, s.snapped, most);
    lemma_arrival_distance(shared, most);
    lemma_value_order(d, a);
    let l: int = d.value();
    let t: int = a.value();
    assert(l <= t ==> l * l <= t * t) by (nonlinear_arith)
        requires
            l >= 0,
            t >= 0,
    ;
    assert(t <= l ==> t * t <= l * l) by (nonlinear_arith)
        requires
            l >= 0,
            t >= 0,
    ;
    let e: int = 1000 * t - tolerance;
    lemma_mul_bound(0x20_0000_0000_0000 * e, 1000 * t + tolerance, 2048 * most, 128 * most);
    assert((0x20_0000_0000_0000 * e) * (1000 * t + tolerance) == 0x20_0000_0000_0000 * ((1000 * t)
        * (1000 * t) - tolerance * tolerance)) by (nonlinear_arith)
        requires
            e == 1000 * t - tolerance,
    ;
    assert((1000 * t) * (1000 * t) == 1000000 * (t * t)) by (nonlinear_arith);
    assert((2048 * most) * (128 * most) == 262144 * m) by (nonlinear_arith)
        requires
            m == most * most,
    ;
    let ex: int = s.position.x.value() - s.snapped.x.value();
    let ez: int = s.position.z.value() - s.snapped.z.value();
    assert((1000 * ex) * (1000 * ex) == 1000000 * (ex * ex)) by (nonlinear_arith);
    assert((1000 * ez) * (1000 * ez) == 1000000 * (ez * ez)) by (nonlinear_arith);
}

/// Two shares: a twentieth, and a thousandth.
proof fn lemma_shares()
    ensures
        ({
            let u: int = cell_unit();
            let share: Real = Real::of(ARRIVAL_SHARE);
            let least: Real = Real::of(ARRIVAL_LEAST);
            &&& share.finite()
            &&& least.finite()
            &&& 0 < share.value()
            &&& u <= 20 * share.value()
            &&& 0x20_0000_0000_0000 * (20 * share.value() - u) <= u
            &&& u <= 1000 * least.value()
            &&& 0x20_0000_0000_0000 * (1000 * least.value() - u) <= u
        }),
{
    let share: Real = Real::of(ARRIVAL_SHARE);
    let least: Real = Real::of(ARRIVAL_LEAST);
    let u: int = cell_unit();
    lemma2_to64();
    lemma2_to64_rest();
    assert(share.significand() == 0x19_9999_9999_999a && share.exponent() == -57);
    assert(least.significand() == 0x10_624d_d2f1_a9fc && least.exponent() == -62);
    lemma_pow2_adds(57, 1017);
    lemma_pow2_adds(62, 1012);
    let a: int = pow2(1017) as int;
    let b: int = pow2(1012) as int;
    lemma_pow2_pos(1017);
    lemma_pow2_pos(1012);
    assert(u == 0x200_0000_0000_0000 * a);
    assert(u == 0x4000_0000_0000_0000 * b);
    assert(share.value() == 0x19_9999_9999_999a * a);
    assert(least.value() == 0x10_624d_d2f1_a9fc * b);
}

proof fn lemma_arrival_ints(u: int, most: int, c: int, s: int, x: int, l: int, a: int)
    requires
        u > 0,
        most >= u,
        0 < c <= most,
        x >= 0,
        l > 0,
        0x20_0000_0000_0000 * u <= most * u,
        u <= 20 * s,
        0x20_0000_0000_0000 * (20 * s - u) <= u,
        u <= 1000 * l,
        0x20_0000_0000_0000 * (1000 * l - u) <= u,
        0x20_0000_0000_0000 * size_of(x * u - c * s) <= x * u + 0x20_0000_0000_0000 * u,
        (a == x && l <= x) || (a == l && x <= l),
    ensures
        ({
            let tolerance: int = if 50 * c < u {
                u
            } else {
                50 * c
            };
            &&& 0x20_0000_0000_0000 * size_of(1000 * a - tolerance) <= 2048 * most
            &&& 0 <= 1000 * a + tolerance <= 128 * most
        }),
{
    let xu: int = x * u;
    let cs: int = c * s;
    let cu: int = c * u;
    let mu: int = most * u;
    let k: int = 20 * s - u;
    assert(20 * cs == cu + c * k) by (nonlinear_arith)
        requires
            cs == c * s,
            cu == c * u,
            k == 20 * s - u,
    ;
    assert(0 <= c * k && 0x20_0000_0000_0000 * (c * k) <= cu && 0 < cu <= mu) by (nonlinear_arith)
        requires
            cu == c * u,
            mu == most * u,
            0 <= k,
            0x20_0000_0000_0000 * k <= u,
            0 < c <= most,
            u > 0,
    ;
    assert(xu >= 0) by (nonlinear_arith)
        requires
            xu == x * u,
            x >= 0,
            u > 0,
    ;
    assert(20 * xu <= 2 * mu + mu);
    assert(0x20_0000_0000_0000 * size_of(20 * xu - cu) <= 32 * mu);
    let g: int = 20 * x - c;
    assert(g * u == 20 * xu - cu) by (nonlinear_arith)
        requires
            g == 20 * x - c,
            xu == x * u,
            cu == c * u,
    ;
    assert(0x20_0000_0000_0000 * g <= 32 * most && -(32 * most) <= 0x20_0000_0000_0000 * g)
        by (nonlinear_arith)
        requires
            0x20_0000_0000_0000 * (g * u) <= 32 * mu,
            -(32 * mu) <= 0x20_0000_0000_0000 * (g * u),
            mu == most * u,
            u > 0,
    ;
}

/// The computed tolerance of an arrival, in thousandths.
proof fn lemma_arrival_distance(shared: &NavShared, most: int)
    requires
        bounding(most),
        reaches(shared.fine.cell_size, most),
        shared.fine.cell_size.value() > 0,
    ensures
        ({
            let a: Real = spec_arrival_distance(shared);
            let cell: int = 50 * shared.fine.cell_size.value();
            let tolerance: int = if cell < cell_unit() {
                cell_unit()
            } else {
                cell
            };
            &&& a.finite()
            &&& a.value() >= 0
            &&& 0x20_0000_0000_0000 * size_of(1000 * a.value() - tolerance) <= 2048 * most
            &&& 0 <= 1000 * a.value() + tolerance <= 128 * most
        }),
{
    let cell: Real = shared.fine.cell_size;
    let share: Real = Real::of(ARRIVAL_SHARE);
    let least: Real = Real::of(ARRIVAL_LEAST);
    let zero: Real = Real::of(ZERO);
    let x: Real = cell.mul(share);
    lemma_unit_is_nothing(most);
    lemma_large_unit();
    lemma_shares();
    lemma_modest(cell, most);
    lemma_close_product(cell, share);
    assert(zero.magnitude() == 0);
    lemma_size_of_zero(zero);
    lemma_value_order(zero, cell);
    lemma_mul_monotone(cell, cell, share, share);
    lemma_value_order(zero, x);
    lemma_value_order(least, x);
    lemma_value_order(x, least);
    lemma_arrival_ints(
        cell_unit(),
        most,
        cell.value(),
        share.value(),
        x.value(),
        least.value(),
        spec_arrival_distance(shared).value(),
    );
}

/// Number of whole cells between two columns (or rows).
pub open spec fn cells_between(offset: int) -> int {
    if offset > 1 {
        offset - 1
    } else if offset < -1 {
        -offset - 1
    } else {
        0
    }
}

/// Square of the distance between two cells, from edge to edge, for cells of a size.
pub open spec fn edges_apart_sq(dx: int, dz: int, cell: int) -> int {
    (cells_between(dx) * cells_between(dx) + cells_between(dz) * cells_between(dz)) * (cell * cell)
}

/// Whether a walk view lies within a bound.
pub open spec fn view_within(view: &WalkView, most: int) -> bool {
    &&& bounding(most)
    &&& view.wf()
    &&& 0 < view.width <= 0x20_0000_0000_0000
    &&& 0 < view.height <= 0x20_0000_0000_0000
    &&& laid_out(view.origin.x, view.cell_size, view.width as int, most)
    &&& laid_out(view.origin.z, view.cell_size, view.height as int, most)
}

/// The computed width of a strip of cells is its width, up to a sliver.
proof fn lemma_strip(cell: Real, offset: isize, cells: int, origin: Real, most: int)
    requires
        laid_out(origin, cell, cells, most),
        0 < cells <= 0x20_0000_0000_0000,
        -cells < offset < cells,
    ensures
        ({
            let g: Real = gap(offset, cell);
            let e: int = cells_between(offset as int) * cell.value();
            &&& reaches(g, 2 * most)
            &&& g.value() >= 0
            &&& 0 <= e <= most
            &&& 0x20_0000_0000_0000 * size_of(2 * g.value() - 2 * e) <= 11 * most
        }),
{
    let n: int = cells_between(offset as int);
    let r: Real = Real::from_int(n as isize);
    let s: int = cell.value();
    let u: int = cell_unit();
    lemma_cell_is_modest(origin, cell, cells, most);
    lemma_large_unit();
    lemma2_to64_rest();
    let k: int = 2 * n;
    if n > 0 {
        lemma_int_exact(n as isize);
        assert(r.magnitude() <= 0x4400_0000_0000_0000) by {
            lemma_count_below(n as u64);
        }
    } else {
        assert(r.magnitude() == 0);
        lemma_size_of_zero(r);
        assert(n * u == 0) by (nonlinear_arith)
            requires
                n == 0,
        ;
    }
    assert(r.value() == n * u);
    assert(k * u == 2 * (n * u)) by (nonlinear_arith)
        requires
            k == 2 * n,
    ;
    assert(r.value() >= 0) by (nonlinear_arith)
        requires
            r.value() == n * u,
            n >= 0,
            u > 0,
    ;
    assert(k * s == 2 * (n * s) && 0 <= n * s <= cells * s) by (nonlinear_arith)
        requires
            k == 2 * n,
            0 <= n <= cells,
            s > 0,
    ;
    lemma_scaled(r, k, cell, most);
}

/// The computed distance between two cells, from edge to edge, against a radius.
proof fn lemma_cells_apart(view: &WalkView, radius: Real, dx: isize, dz: isize, most: int)
    requires
        view_within(view, most),
        reaches(radius, most),
        radius.value() > 0,
        -view.width < dx < view.width,
        -view.height < dz < view.height,
    ensures
        ({
            let cell: int = view.cell_size.value();
            let near: bool = gap(dx, view.cell_size).hypot(gap(dz, view.cell_size)).lt(radius);
            let off: int = edges_apart_sq(dx as int, dz as int, cell) - radius.value()
                * radius.value();
            &&& near ==> 0x20_0000_0000_0000 * off <= 1024 * (most * most)
            &&& !near ==> -(1024 * (most * most)) <= 0x20_0000_0000_0000 * off
        }),
{
    let cell: Real = view.cell_size;
    let s: int = cell.value();
    let a: Real = gap(dx, cell);
    let b: Real = gap(dz, cell);
    let h: Real = a.hypot(b);
    let m: int = most * most;
    lemma_unit_is_nothing(most);
    lemma_strip(cell, dx, view.width as int, view.origin.x, most);
    lemma_strip(cell, dz, view.height as int, view.origin.z, most);
    lemma_hypot(a, b, most);
    lemma_value_order(radius, h);
    lemma_value_order(h, radius);
    let x: int = cells_between(dx as int);
    let z: int = cells_between(dz as int);
    let ex: int = x * s;
    let ez: int = z * s;
    lemma_strips(a.value(), ex, most);
    lemma_strips(b.value(), ez, most);
    assert((x * x + z * z) * (s * s) == ex * ex + ez * ez) by (nonlinear_arith)
        requires
            ex == x * s,
            ez == z * s,
    ;
    let l: int = h.value();
    let r: int = radius.value();
    assert(l <= r ==> l * l <= r * r) by (nonlinear_arith)
        requires
            l >= 0,
            r >= 0,
    ;
    assert(r <= l ==> r * r <= l * l) by (nonlinear_arith)
        requires
            l >= 0,
            r >= 0,
    ;
}

proof fn lemma_strips(a: int, b: int, most: int)
    requires
        most > 0,
        a >= 0,
        0 <= b <= most,
        0x20_0000_0000_0000 * size_of(2 * a - 2 * b) <= 11 * most,
    ensures
        0x20_0000_0000_0000 * size_of(a * a - b * b) <= 18 * (most * most),
{
    let d: int = a - b;
    assert(size_of(a + b) <= 3 * most);
    lemma_mul_bound(0x20_0000_0000_0000 * d, a + b, 6 * most, 3 * most);
    assert((0x20_0000_0000_0000 * d) * (a + b) == 0x20_0000_0000_0000 * (a * a - b * b))
        by (nonlinear_arith)
        requires
            d == a - b,
    ;
    assert((6 * most) * (3 * most) == 18 * (most * most)) by (nonlinear_arith);
}

/// Dilating a view for an agent with a body closes just the cells that lie nearer to a
/// blocked one than the agent's radius, measured from edge to edge: a cell that stays open
/// is at least that far from every blocked cell, and one that is closed has a blocked cell
/// nearer than that. Both hold up to a sliver.
pub proof fn lemma_dilation_keeps_the_radius(
    view: &WalkView,
    radius: Real,
    col: int,
    row: int,
    most: int,
)
    requires
        view_within(view, most),
        reaches(radius, most),
        radius.value() > 0,
        view.within(col, row),
    ensures
        ({
            let cell: int = view.cell_size.value();
            let sq: int = radius.value() * radius.value();
            &&& !view.dilated_at(radius, col, row) ==> !view.blocked_at(col, row) && forall|
                c: int,
                r: int,
            |
                #[trigger] view.within(c, r) && view.blocked_at(c, r) ==> 0x20_0000_0000_0000 * (sq
                    - edges_apart_sq(col - c, row - r, cell)) <= 1024 * (most * most)
            &&& view.dilated_at(radius, col, row) && !view.blocked_at(col, row) ==> exists|
                c: int,
                r: int,
            |
                #[trigger] view.within(c, r) && view.blocked_at(c, r) && 0x20_0000_0000_0000 * (
                edges_apart_sq(col - c, row - r, cell) - sq) <= 1024 * (most * most)
        }),
{
    let zero: Real = Real::of(ZERO);
    assert(zero.magnitude() == 0);
    lemma_size_of_zero(zero);
    lemma_cell_is_modest(view.origin.x, view.cell_size, view.width as int, most);
    lemma_value_order(radius, zero);
    lemma_value_order(view.cell_size, zero);
    if !view.dilated_at(radius, col, row) {
        assert forall|c: int, r: int| #[trigger]
            view.within(c, r) && view.blocked_at(c, r) implies 0x20_0000_0000_0000 * (
        radius.value() * radius.value() - edges_apart_sq(
            col - c,
            row - r,
            view.cell_size.value(),
        )) <= 1024 * (most * most) by {
            lemma_open_cell_keeps_clearance(view, radius, col, row, c, r);
            lemma_cells_apart(view, radius, (col - c) as isize, (row - r) as isize, most);
        }
    } else if !view.blocked_at(col, row) {
        let (c, r): (int, int) = choose|c: int, r: int| #[trigger]
            view.crowded_from(radius, col, row, c, r);
        lemma_cells_apart(view, radius, (col - c) as isize, (row - r) as isize, most);
        assert(view.within(c, r));
    }
}

} // verus!
