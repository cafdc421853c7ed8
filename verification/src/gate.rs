//! The movement guard: which interpolated steps an agent may take.
use vstd::prelude::*;

use crate::config::{NavConfig, Threat};
use crate::geometry::{distance, distance_sq, segment_distance_sq, Point, HALF, ONE, ZERO};
use crate::nearness::{
    in_bounds, lemma_no_point_is_nearer, lemma_nowhere_nearer, nowhere_nearer,
};
use crate::number::Real;
use crate::ordering::{
    lemma_mul_monotone, lemma_mul_one, lemma_sub_not_greater, lemma_zero_plus,
};
use crate::walk::WalkView;

verus! {

/// Lengths up to this count as none: `1e-9`.
pub const SLIVER: u64 = 0x3e11_2e0b_e826_d695;

/// The threat with the margins that the agent keeps, where it is near enough to
/// matter.
pub open spec fn noticed(threat: Threat, config: NavConfig, position: Point) -> Option<Threat> {
    let radius: Real = threat.radius.add(config.inflation());
    if distance(threat.center, position).le(config.sense_radius.add(radius)) {
        Some(Threat { center: threat.center, radius })
    } else {
        None
    }
}

/// The first `n` threats, as far as they are noticed, widened by the margins.
pub open spec fn nearby_of(threats: Seq<Threat>, n: int, config: NavConfig, position: Point) -> Seq<
    Threat,
>
    decreases n,
{
    if n <= 0 {
        Seq::empty()
    } else {
        let rest: Seq<Threat> = nearby_of(threats, n - 1, config, position);
        match noticed(threats[n - 1], config, position) {
            Some(threat) => rest.push(threat),
            None => rest,
        }
    }
}

/// The threats that an agent notices, widened by the margins it keeps.
pub fn notice(threats: &[Threat], config: &NavConfig, position: Point) -> (nearby: Vec<Threat>)
    ensures
        nearby@ == nearby_of(threats@, threats@.len() as int, *config, position),
{
    let inflation: Real = config.inflation();
    let mut nearby: Vec<Threat> = Vec::new();
    let mut i: usize = 0;
    while i < threats.len()
        invariant
            i <= threats@.len(),
            inflation == config.inflation(),
            nearby@ == nearby_of(threats@, i as int, *config, position),
        decreases threats@.len() - i,
    {
        let threat: Threat = threats[i];
        let radius: Real = threat.radius.add(inflation);
        if distance(threat.center, position).le(config.sense_radius.add(radius)) {
            nearby.push(Threat { center: threat.center, radius });
        }
        i = i + 1;
    }
    nearby
}

/// Every threat, widened by the margins that the agent keeps.
pub open spec fn widened_of(threats: Seq<Threat>, config: NavConfig) -> Seq<Threat> {
    Seq::new(
        threats.len(),
        |i: int|
            Threat { center: threats[i].center, radius: threats[i].radius.add(config.inflation()) },
    )
}

/// The threats, noticed or not, widened by the margins that the agent keeps.
pub fn widen(threats: &[Threat], config: &NavConfig) -> (widened: Vec<Threat>)
    ensures
        widened@ == widened_of(threats@, *config),
{
    let inflation: Real = config.inflation();
    let mut widened: Vec<Threat> = Vec::new();
    let mut i: usize = 0;
    while i < threats.len()
        invariant
            i <= threats@.len(),
            inflation == config.inflation(),
            widened@ == widened_of(threats@, *config).take(i as int),
        decreases threats@.len() - i,
    {
        let threat: Threat = threats[i];
        widened.push(Threat { center: threat.center, radius: threat.radius.add(inflation) });
        i = i + 1;
    }
    assert(widened@ =~= widened_of(threats@, *config));
    widened
}

pub open spec fn spec_holds(threat: Threat, point: Point) -> bool {
    distance_sq(point, threat.center).le(threat.radius.mul(threat.radius))
}

/// Whether a point lies in a threat's disc.
#[verifier::when_used_as_spec(spec_holds)]
pub fn holds(threat: Threat, point: Point) -> (r: bool)
    ensures
        r == spec_holds(threat, point),
{
    distance_sq(point, threat.center).le(threat.radius.mul(threat.radius))
}

/// Whether a point lies in the disc of any threat.
pub open spec fn held_by_any(nearby: Seq<Threat>, point: Point) -> bool {
    exists|i: int| 0 <= i < nearby.len() && holds(#[trigger] nearby[i], point)
}

pub fn is_held(nearby: &Vec<Threat>, point: Point) -> (r: bool)
    ensures
        r == held_by_any(nearby@, point),
{
    let mut i: usize = 0;
    while i < nearby.len()
        invariant
            i <= nearby@.len(),
            forall|j: int| 0 <= j < i ==> !holds(#[trigger] nearby@[j], point),
        decreases nearby@.len() - i,
    {
        if holds(nearby[i], point) {
            return true;
        }
        i = i + 1;
    }
    false
}

/// Radius that the guard enforces: half the threat margin less than the planner
/// avoids.
pub open spec fn gate_radius(threat: Threat, config: NavConfig) -> Real {
    threat.radius.sub(config.threat_margin.mul(Real::of(HALF))).max(Real::of(ZERO))
}

/// Whether the guard's disc of a threat holds a point.
pub open spec fn gate_holds(threat: Threat, config: NavConfig, point: Point) -> bool {
    let radius: Real = gate_radius(threat, config);
    distance_sq(point, threat.center).le(radius.mul(radius))
}

/// Whether the guard's disc of a threat is touched by a segment.
pub open spec fn gate_touched(threat: Threat, config: NavConfig, from: Point, to: Point) -> bool {
    let radius: Real = gate_radius(threat, config);
    segment_distance_sq(from, to, threat.center).le(radius.mul(radius))
}

/// Whether a step touches the guard's disc of a threat, or ends in it.
pub open spec fn gate_entered(threat: Threat, config: NavConfig, from: Point, to: Point) -> bool {
    gate_touched(threat, config, from, to) || gate_holds(threat, config, to)
}

/// Total penetration depth of both ends of a step in those of the first `n`
/// discs that hold its start; `None` where the step enters another disc.
pub open spec fn penetration(
    nearby: Seq<Threat>,
    n: int,
    config: NavConfig,
    from: Point,
    to: Point,
) -> Option<(Real, Real)>
    decreases n,
{
    if n <= 0 {
        Some((Real::of(ZERO), Real::of(ZERO)))
    } else {
        match penetration(nearby, n - 1, config, from, to) {
            None => None,
            Some((depth_from, depth_to)) => {
                let threat: Threat = nearby[n - 1];
                let radius: Real = gate_radius(threat, config);
                if gate_holds(threat, config, from) {
                    Some(
                        (
                            depth_from.add(radius.sub(distance_sq(from, threat.center).sqrt())),
                            depth_to.add(
                                radius.sub(distance(to, threat.center)).max(Real::of(ZERO)),
                            ),
                        ),
                    )
                } else if gate_entered(threat, config, from, to) {
                    None
                } else {
                    Some((depth_from, depth_to))
                }
            },
        }
    }
}

/// Whether the cell that a point lies in is blocked, so that a step out of it
/// is an escape.
pub open spec fn escaping(sensed: &WalkView, from: Point) -> bool {
    match sensed.cell_at(from) {
        Some((col, row)) => sensed.blocked_at(col as int, row as int),
        None => false,
    }
}

/// Whether the guard's disc of one threat, and of no other, holds a point.
pub open spec fn sole_holder(nearby: Seq<Threat>, config: NavConfig, point: Point, i: int) -> bool {
    &&& 0 <= i < nearby.len()
    &&& gate_holds(nearby[i], config, point)
    &&& forall|j: int|
        0 <= j < nearby.len() && j != i ==> !gate_holds(#[trigger] nearby[j], config, point)
}

pub open spec fn spec_no_nearer(center: Point, from: Point, to: Point) -> bool {
    distance_sq(from, center).sqrt().le(
        segment_distance_sq(from, to, center).sqrt().add(Real::of(SLIVER)),
    )
}

/// Whether a step comes nowhere nearer to a point than its start is, but for a
/// sliver.
#[verifier::when_used_as_spec(spec_no_nearer)]
fn no_nearer(center: Point, from: Point, to: Point) -> (r: bool)
    ensures
        r == spec_no_nearer(center, from, to),
{
    distance_sq(from, center).sqrt().le(
        segment_distance_sq(from, to, center).sqrt().add(Real::of(SLIVER)),
    )
}

/// Whether a step may be taken: over open cells, into no disc that does not
/// hold the agent already, and not deeper into those that do, taken together. A
/// single disc is left without coming nearer to its centre on the way.
pub open spec fn may_move(
    sensed: &WalkView,
    config: NavConfig,
    nearby: Seq<Threat>,
    from: Point,
    to: Point,
) -> bool {
    &&& sensed.clear_between(from, to, escaping(sensed, from))
    &&& match penetration(nearby, nearby.len() as int, config, from, to) {
        None => false,
        Some((depth_from, depth_to)) => depth_to.le(depth_from.add(Real::of(SLIVER))),
    }
    &&& forall|i: int| #[trigger]
        sole_holder(nearby, config, from, i) ==> spec_no_nearer(nearby[i].center, from, to)
}

/// Movement guard: every interpolated step must pass the supercover raycast
/// against the sensed grid and stay outside every threat disc. Discs that
/// swept over the agent are judged together: a step is admitted when the total
/// penetration depth across all containing discs does not increase. A single
/// disc can thus be escaped but never crossed through, and an agent pinned
/// between overlapping discs may slide between them.
pub fn move_allowed(
    sensed: &WalkView,
    config: &NavConfig,
    nearby: &Vec<Threat>,
    from: Point,
    to: Point,
) -> (r: bool)
    requires
        sensed.wf(),
    ensures
        r == may_move(sensed, *config, nearby@, from, to),
{
    let escape: bool = match sensed.cell_of(from) {
        Some((col, row)) => sensed.blocked(col as isize, row as isize),
        None => false,
    };
    if !sensed.segment_clear_from(from, to, escape) {
        return false;
    }
    let slack: Real = config.threat_margin.mul(Real::of(HALF));
    let mut depth_from: Real = Real::of(ZERO);
    let mut depth_to: Real = Real::of(ZERO);
    let mut holder: Option<usize> = None;
    let mut several: bool = false;
    let ghost mut second: int = 0;
    let mut i: usize = 0;
    while i < nearby.len()
        invariant
            i <= nearby@.len(),
            slack == config.threat_margin.mul(Real::of(HALF)),
            match holder {
                None => !several,
                Some(k) => k < i && gate_holds(nearby@[k as int], *config, from),
            },
            several ==> holder is Some && holder.unwrap() < second < i && gate_holds(
                nearby@[second],
                *config,
                from,
            ),
            !several ==> forall|j: int|
                0 <= j < i && holder != Some(j as usize) ==> !gate_holds(
                    #[trigger] nearby@[j],
                    *config,
                    from,
                ),
            penetration(nearby@, i as int, *config, from, to) == Some((depth_from, depth_to)),
        decreases nearby@.len() - i,
    {
        let threat: Threat = nearby[i];
        let radius: Real = threat.radius.sub(slack).max(Real::of(ZERO));
        let radius_sq: Real = radius.mul(radius);
        let away_sq: Real = distance_sq(from, threat.center);
        if away_sq.le(radius_sq) {
            depth_from = depth_from.add(radius.sub(away_sq.sqrt()));
            depth_to = depth_to.add(radius.sub(distance(to, threat.center)).max(Real::of(ZERO)));
            if holder.is_some() {
                several = true;
                proof {
                    second = i as int;
                }
            } else {
                holder = Some(i);
            }
        } else if segment_distance_sq(from, to, threat.center).le(radius_sq) || distance_sq(
            to,
            threat.center,
        ).le(radius_sq) {
            proof {
                lemma_penetration_stays(nearby@, i + 1, nearby@.len() as int, *config, from, to);
            }
            return false;
        }
        i = i + 1;
    }
    if !depth_to.le(depth_from.add(Real::of(SLIVER))) {
        return false;
    }
    match holder {
        Some(k) if !several => {
            proof {
                assert(sole_holder(nearby@, *config, from, k as int));
                assert forall|j: int| #[trigger]
                    sole_holder(nearby@, *config, from, j) implies j == k by {
                    assert(gate_holds(nearby@[j], *config, from));
                }
            }
            no_nearer(nearby[k].center, from, to)
        },
        _ => {
            proof {
                assert forall|j: int| !#[trigger] sole_holder(nearby@, *config, from, j) by {
                    if sole_holder(nearby@, *config, from, j) {
                        if several {
                            assert(gate_holds(nearby@[second], *config, from));
                            assert(gate_holds(nearby@[holder.unwrap() as int], *config, from));
                        } else {
                            assert(!gate_holds(nearby@[j], *config, from));
                        }
                    }
                }
            }
            true
        },
    }
}

proof fn lemma_penetration_stays(
    nearby: Seq<Threat>,
    n: int,
    m: int,
    config: NavConfig,
    from: Point,
    to: Point,
)
    requires
        0 <= n <= m,
        penetration(nearby, n, config, from, to) is None,
    ensures
        penetration(nearby, m, config, from, to) is None,
    decreases m,
{
    if n < m {
        lemma_penetration_stays(nearby, n, m - 1, config, from, to);
    }
}

/// A step that may be taken touches no disc but those that hold its start, and
/// ends in no other.
pub proof fn lemma_move_enters_no_disc(
    sensed: &WalkView,
    config: NavConfig,
    nearby: Seq<Threat>,
    from: Point,
    to: Point,
    i: int,
)
    requires
        may_move(sensed, config, nearby, from, to),
        0 <= i < nearby.len(),
    ensures
        gate_holds(nearby[i], config, from) || (!gate_touched(nearby[i], config, from, to)
            && !gate_holds(nearby[i], config, to)),
{
    if !gate_holds(nearby[i], config, from) && gate_entered(nearby[i], config, from, to) {
        assert(penetration(nearby, i + 1, config, from, to) is None);
        lemma_penetration_stays(nearby, i + 1, nearby.len() as int, config, from, to);
    }
}

/// Depth of a point in the disc that the guard enforces of a threat.
pub open spec fn depth_in(threat: Threat, config: NavConfig, point: Point) -> Real {
    gate_radius(threat, config).sub(distance_sq(point, threat.center).sqrt())
}

proof fn lemma_penetration_of_one(
    nearby: Seq<Threat>,
    n: int,
    config: NavConfig,
    from: Point,
    to: Point,
    i: int,
)
    requires
        0 <= i < nearby.len(),
        0 <= n <= nearby.len(),
        gate_holds(nearby[i], config, from),
        forall|j: int|
            0 <= j < nearby.len() && j != i ==> !gate_holds(#[trigger] nearby[j], config, from),
        penetration(nearby, n, config, from, to) is Some,
    ensures
        penetration(nearby, n, config, from, to) == Some(
            if n <= i {
                (Real::of(ZERO), Real::of(ZERO))
            } else {
                (
                    Real::of(ZERO).add(depth_in(nearby[i], config, from)),
                    Real::of(ZERO).add(
                        gate_radius(nearby[i], config).sub(distance(to, nearby[i].center)).max(
                            Real::of(ZERO),
                        ),
                    ),
                )
            },
        ),
    decreases n,
{
    if n > 0 {
        lemma_penetration_of_one(nearby, n - 1, config, from, to, i);
    }
}

/// Whether no point of a step lies in the guard's disc of a threat, but for a
/// sliver, wherever coordinates are within a bound.
pub open spec fn keeps_out(threat: Threat, config: NavConfig, from: Point, to: Point) -> bool {
    let radius: Real = gate_radius(threat, config);
    forall|most: int|
        in_bounds(from, to, threat.center, most) ==> #[trigger] nowhere_nearer(
            from,
            to,
            threat.center,
            radius.mul(radius),
            most,
        )
}

proof fn lemma_square_is_not_negative(r: Real)
    requires
        !r.nan(),
    ensures
        !r.mul(r).nan(),
        r.mul(r).rank() >= 0,
{
    reveal(Real::spec_mul);
}

/// A step that does not touch a disc keeps out of it at every point.
pub proof fn lemma_untouched_is_kept_out(
    threat: Threat,
    config: NavConfig,
    from: Point,
    to: Point,
)
    requires
        !gate_touched(threat, config, from, to),
    ensures
        keeps_out(threat, config, from, to),
{
    let radius: Real = gate_radius(threat, config);
    let square: Real = radius.mul(radius);
    lemma_square_is_not_negative(radius);
    assert forall|most: int|
        in_bounds(from, to, threat.center, most) implies #[trigger] nowhere_nearer(
        from,
        to,
        threat.center,
        square,
        most,
    ) by {
        lemma_nowhere_nearer(from, to, threat.center, square, most);
    }
}

/// A single disc can be escaped but never crossed through: a step from inside
/// one disc comes nowhere nearer to its centre than it began, and ends no
/// deeper in it, but for a sliver. How near it comes is measured at every point
/// of the step.
pub proof fn lemma_single_disc_is_not_crossed(
    sensed: &WalkView,
    config: NavConfig,
    nearby: Seq<Threat>,
    from: Point,
    to: Point,
    i: int,
)
    requires
        may_move(sensed, config, nearby, from, to),
        sole_holder(nearby, config, from, i),
    ensures
        distance_sq(from, nearby[i].center).sqrt().le(
            segment_distance_sq(from, to, nearby[i].center).sqrt().add(Real::of(SLIVER)),
        ),
        forall|most: int|
            in_bounds(from, to, nearby[i].center, most) ==> #[trigger] nowhere_nearer(
                from,
                to,
                nearby[i].center,
                segment_distance_sq(from, to, nearby[i].center),
                most,
            ),
        Real::of(ZERO).add(
            gate_radius(nearby[i], config).sub(distance(to, nearby[i].center)).max(Real::of(ZERO)),
        ).le(Real::of(ZERO).add(depth_in(nearby[i], config, from)).add(Real::of(SLIVER))),
{
    lemma_penetration_of_one(nearby, nearby.len() as int, config, from, to, i);
    let center: Point = nearby[i].center;
    let nearest: Real = segment_distance_sq(from, to, center);
    assert forall|most: int| in_bounds(from, to, center, most) implies #[trigger] nowhere_nearer(
        from,
        to,
        center,
        nearest,
        most,
    ) by {
        lemma_no_point_is_nearer(from, to, center, 0, 1, most);
        lemma_nowhere_nearer(from, to, center, nearest, most);
    }
}

/// The guard enforces no more of a threat than the planner avoids.
pub proof fn lemma_guard_is_narrower(threat: Threat, config: NavConfig)
    requires
        threat.radius.finite(),
        threat.radius.rank() >= 0,
        config.threat_margin.finite(),
        config.threat_margin.rank() >= 0,
    ensures
        0 <= gate_radius(threat, config).rank() <= threat.radius.rank(),
        gate_radius(threat, config).mul(gate_radius(threat, config)).le(
            threat.radius.mul(threat.radius),
        ),
{
    let half: Real = Real::of(HALF);
    let one: Real = Real::of(ONE);
    let slack: Real = config.threat_margin.mul(half);
    lemma_mul_monotone(config.threat_margin, config.threat_margin, half, one);
    lemma_mul_one(config.threat_margin);
    lemma_sub_not_greater(threat.radius, slack);
    let radius: Real = gate_radius(threat, config);
    lemma_mul_monotone(radius, threat.radius, radius, threat.radius);
}

/// A step that is clear and touches no disc, between points outside every disc,
/// is one that the guard admits.
pub proof fn lemma_clear_step_is_admitted(
    sensed: &WalkView,
    config: NavConfig,
    nearby: Seq<Threat>,
    from: Point,
    to: Point,
)
    requires
        sensed.clear_between(from, to, false),
        forall|i: int|
            0 <= i < nearby.len() ==> !gate_holds(#[trigger] nearby[i], config, from)
                && !gate_entered(nearby[i], config, from, to),
    ensures
        may_move(sensed, config, nearby, from, to),
{
    lemma_no_penetration(nearby, nearby.len() as int, config, from, to);
    lemma_zero_plus(Real::of(SLIVER));
}

proof fn lemma_no_penetration(
    nearby: Seq<Threat>,
    n: int,
    config: NavConfig,
    from: Point,
    to: Point,
)
    requires
        0 <= n <= nearby.len(),
        forall|i: int|
            0 <= i < nearby.len() ==> !gate_holds(#[trigger] nearby[i], config, from)
                && !gate_entered(nearby[i], config, from, to),
    ensures
        penetration(nearby, n, config, from, to) == Some((Real::of(ZERO), Real::of(ZERO))),
    decreases n,
{
    if n > 0 {
        lemma_no_penetration(nearby, n - 1, config, from, to);
        assert(!gate_holds(nearby[n - 1], config, from));
    }
}

} // verus!
