//! What the entities of a scene mean to its agent.
use vstd::prelude::*;

use crate::config::Threat;
use crate::geometry::{Point, ZERO};
use crate::number::Real;
use crate::scene::{has_category, Entity, RangeRing};
use crate::text::same_text;

verus! {

/// The widest awareness radius among the first `n` range rings; zero without
/// one.
pub open spec fn widest_awareness(ranges: Seq<RangeRing>, n: int) -> Real
    decreases n,
{
    if n <= 0 {
        Real::of(ZERO)
    } else {
        let rest: Real = widest_awareness(ranges, n - 1);
        if ranges[n - 1].role@ == "awareness"@ {
            rest.max(ranges[n - 1].radius)
        } else {
            rest
        }
    }
}

fn awareness_of(ranges: &Vec<RangeRing>) -> (r: Real)
    ensures
        r == widest_awareness(ranges@, ranges@.len() as int),
{
    let mut widest: Real = Real::of(ZERO);
    let mut n: usize = 0;
    while n < ranges.len()
        invariant
            n <= ranges@.len(),
            widest == widest_awareness(ranges@, n as int),
        decreases ranges@.len() - n,
    {
        if same_text(ranges[n].role.as_str(), "awareness") {
            widest = widest.max(ranges[n].radius);
        }
        n = n + 1;
    }
    widest
}

/// The threat that an entity poses: an actor is one where it is aware of
/// anything.
pub open spec fn threat_of(entity: Entity) -> Option<Threat> {
    let radius: Real = widest_awareness(entity.ranges@, entity.ranges@.len() as int);
    if entity.category@ == "actor"@ && Real::of(ZERO).lt(radius) {
        Some(Threat { center: entity.position, radius })
    } else {
        None
    }
}

/// The threats that the first `n` entities pose.
pub open spec fn threats_of(entities: Seq<Entity>, n: int) -> Seq<Threat>
    decreases n,
{
    if n <= 0 {
        Seq::empty()
    } else {
        let rest: Seq<Threat> = threats_of(entities, n - 1);
        match threat_of(entities[n - 1]) {
            Some(threat) => rest.push(threat),
            None => rest,
        }
    }
}

/// The threats that the actors of a scene pose.
pub fn collect_threats(entities: &Vec<Entity>) -> (r: Vec<Threat>)
    ensures
        r@ == threats_of(entities@, entities@.len() as int),
        exists|source: Seq<int>| #[trigger] threats_are_of(r@, entities@, source),
{
    let mut threats: Vec<Threat> = Vec::new();
    let mut n: usize = 0;
    while n < entities.len()
        invariant
            n <= entities@.len(),
            threats@ == threats_of(entities@, n as int),
        decreases entities@.len() - n,
    {
        let entity: &Entity = &entities[n];
        if has_category(entity, "actor") {
            let radius: Real = awareness_of(&entity.ranges);
            if Real::of(ZERO).lt(radius) {
                threats.push(Threat { center: entity.position, radius });
            }
        }
        n = n + 1;
    }
    proof {
        lemma_threats_are_the_aware_actors(entities@);
    }
    threats
}

/// Whether a range ring says how far its owner is aware of anything.
pub open spec fn is_awareness(ring: RangeRing) -> bool {
    ring.role@ == "awareness"@ && Real::of(ZERO).lt(ring.radius)
}

/// Whether an entity is an actor that is aware of anything.
pub open spec fn is_aware(entity: Entity) -> bool {
    entity.category@ == "actor"@ && exists|k: int|
        0 <= k < entity.ranges@.len() && #[trigger] is_awareness(entity.ranges@[k])
}

/// Whether a threat stands where an actor stands, and reaches as far as the widest
/// of its awareness rings.
pub open spec fn threat_is_of(threat: Threat, entity: Entity) -> bool {
    &&& threat.center == entity.position
    &&& forall|k: int|
        0 <= k < entity.ranges@.len() && #[trigger] is_awareness(entity.ranges@[k])
            ==> entity.ranges@[k].radius.le(threat.radius)
    &&& exists|k: int|
        0 <= k < entity.ranges@.len() && #[trigger] is_awareness(entity.ranges@[k])
            && entity.ranges@[k].radius == threat.radius
}

/// Whether threats are those of just the aware actors among entities: one each, in
/// their order, the `t`-th that of the entity at `source[t]`.
pub open spec fn threats_are_of(
    threats: Seq<Threat>,
    entities: Seq<Entity>,
    source: Seq<int>,
) -> bool {
    &&& source.len() == threats.len()
    &&& forall|s: int, t: int| 0 <= s < t < source.len() ==> #[trigger] source[s] < #[trigger] source[t]
    &&& forall|t: int|
        0 <= t < source.len() ==> 0 <= #[trigger] source[t] < entities.len() && is_aware(
            entities[source[t]],
        ) && threat_is_of(threats[t], entities[source[t]])
    &&& forall|i: int|
        0 <= i < entities.len() && is_aware(#[trigger] entities[i]) ==> source.contains(i)
}

proof fn lemma_widest_awareness(ranges: Seq<RangeRing>, n: int)
    requires
        0 <= n <= ranges.len(),
    ensures
        ({
            let widest: Real = widest_awareness(ranges, n);
            &&& !widest.nan()
            &&& forall|k: int|
                0 <= k < n && #[trigger] is_awareness(ranges[k]) ==> ranges[k].radius.le(widest)
            &&& Real::of(ZERO).lt(widest) ==> exists|k: int|
                0 <= k < n && #[trigger] is_awareness(ranges[k]) && ranges[k].radius == widest
        }),
    decreases n,
{
    if n > 0 {
        lemma_widest_awareness(ranges, n - 1);
        let rest: Real = widest_awareness(ranges, n - 1);
        let widest: Real = widest_awareness(ranges, n);
        let last: RangeRing = ranges[n - 1];
        assert forall|k: int| 0 <= k < n && #[trigger] is_awareness(ranges[k]) implies ranges[k].radius.le(
            widest,
        ) by {
            if k < n - 1 {
                assert(ranges[k].radius.le(rest));
            }
        }
        if Real::of(ZERO).lt(widest) {
            if widest == rest {
                let k: int = choose|k: int|
                    0 <= k < n - 1 && #[trigger] is_awareness(ranges[k]) && ranges[k].radius
                        == rest;
                assert(is_awareness(ranges[k]));
            } else {
                assert(is_awareness(last) && last.radius == widest);
            }
        }
    }
}

/// An entity poses a threat where it is an actor that is aware of anything; the
/// threat stands where the actor stands and reaches as far as its widest awareness
/// ring.
pub proof fn lemma_aware_actors_are_threats(entity: Entity)
    ensures
        threat_of(entity) is Some <==> is_aware(entity),
        threat_of(entity) matches Some(threat) ==> threat_is_of(threat, entity),
{
    lemma_widest_awareness(entity.ranges@, entity.ranges@.len() as int);
}

/// Every actor with a range ring of the role `awareness` and a positive radius is
/// collected as a threat, one for each such actor and in their order, and nothing
/// else is: the threat stands where the actor stands and reaches as far as the widest
/// of those rings.
pub proof fn lemma_threats_are_the_aware_actors(entities: Seq<Entity>)
    ensures
        exists|source: Seq<int>| #[trigger]
            threats_are_of(threats_of(entities, entities.len() as int), entities, source),
{
    let source: Seq<int> = lemma_threats_of_first(entities, entities.len() as int);
    assert(entities.take(entities.len() as int) =~= entities);
}

proof fn lemma_threats_of_first(entities: Seq<Entity>, n: int) -> (source: Seq<int>)
    requires
        0 <= n <= entities.len(),
    ensures
        threats_are_of(threats_of(entities, n), entities.take(n), source),
    decreases n,
{
    if n == 0 {
        Seq::empty()
    } else {
        let before: Seq<int> = lemma_threats_of_first(entities, n - 1);
        let first: Seq<Entity> = entities.take(n);
        let rest: Seq<Threat> = threats_of(entities, n - 1);
        lemma_aware_actors_are_threats(entities[n - 1]);
        assert forall|i: int| 0 <= i < n - 1 implies first[i] == entities.take(n - 1)[i] by {}
        match threat_of(entities[n - 1]) {
            Some(threat) => {
                let source: Seq<int> = before.push(n - 1);
                assert forall|i: int|
                    0 <= i < first.len() && is_aware(#[trigger] first[i]) implies source.contains(
                    i,
                ) by {
                    if i < n - 1 {
                        assert(entities.take(n - 1)[i] == first[i]);
                        let t: int = before.index_of(i);
                        assert(before.contains(i));
                        assert(source[t] == i);
                    } else {
                        assert(source[source.len() - 1] == i);
                    }
                }
                assert forall|t: int| 0 <= t < source.len() implies 0 <= #[trigger] source[t]
                    < first.len() && is_aware(first[source[t]]) && threat_is_of(
                    rest.push(threat)[t],
                    first[source[t]],
                ) by {
                    if t < n - 1 && t < before.len() {
                        assert(source[t] == before[t]);
                        assert(first[source[t]] == entities.take(n - 1)[before[t]]);
                    }
                }
                source
            },
            None => {
                assert forall|i: int|
                    0 <= i < first.len() && is_aware(#[trigger] first[i]) implies before.contains(
                    i,
                ) by {
                    assert(entities.take(n - 1)[i] == first[i]);
                }
                assert forall|t: int| 0 <= t < before.len() implies 0 <= #[trigger] before[t]
                    < first.len() && is_aware(first[before[t]]) && threat_is_of(
                    rest[t],
                    first[before[t]],
                ) by {
                    assert(first[before[t]] == entities.take(n - 1)[before[t]]);
                }
                before
            },
        }
    }
}

/// Place of the first agent from the `i`-th entity on.
pub open spec fn first_agent(entities: Seq<Entity>, i: int) -> Option<int>
    decreases entities.len() - i,
{
    if i >= entities.len() {
        None
    } else if entities[i].category@ == "agent"@ {
        Some(i)
    } else {
        first_agent(entities, i + 1)
    }
}

/// The entities with the agent moved elsewhere.
pub open spec fn agent_moved(entities: Seq<Entity>, position: Point) -> Seq<Entity> {
    match first_agent(entities, 0) {
        Some(i) => entities.update(i, Entity { position, ..entities[i] }),
        None => entities,
    }
}

/// Moves the agent of a scene, if it has one.
pub fn move_agent(entities: &mut Vec<Entity>, position: Point)
    ensures
        final(entities)@ == agent_moved(old(entities)@, position),
{
    let mut i: usize = 0;
    while i < entities.len()
        invariant
            i <= entities@.len(),
            entities@ == old(entities)@,
            first_agent(entities@, 0) == first_agent(entities@, i as int),
        decreases entities@.len() - i,
    {
        if has_category(&entities[i], "agent") {
            entities[i].position = position;
            return;
        }
        i = i + 1;
    }
}

/// Number of entities with a role among the first `n`.
pub open spec fn category_count(entities: Seq<Entity>, n: int, category: Seq<char>) -> nat
    decreases n,
{
    if n <= 0 {
        0
    } else {
        category_count(entities, n - 1, category) + (if entities[n - 1].category@ == category {
            1nat
        } else {
            0nat
        })
    }
}

/// Counts the entities with a role.
pub fn count_category(entities: &Vec<Entity>, category: &str) -> (r: usize)
    ensures
        r == category_count(entities@, entities@.len() as int, category@),
{
    let mut r: usize = 0;
    let mut n: usize = 0;
    while n < entities.len()
        invariant
            n <= entities@.len(),
            r <= n,
            r == category_count(entities@, n as int, category@),
        decreases entities@.len() - n,
    {
        if has_category(&entities[n], category) {
            r = r + 1;
        }
        n = n + 1;
    }
    r
}

} // verus!
