//! The orders in which a scene lists its entities and its prefabs.
use vstd::prelude::*;

use crate::listing::{held, in_order, lemma_ordered, ordered, put_in_order, Listed};
use crate::scene::{Entity, EntityView, PrefabCollision, PrefabView};
use crate::text::{lemma_text_total, lemma_text_transitive, precedes, same_text, text_before};

verus! {

/// Whether an entity is listed before another: by category, then by identifier.
pub open spec fn listed_before(a: EntityView, b: EntityView) -> bool {
    text_before(a.category, b.category) || (a.category == b.category && text_before(a.id, b.id))
}

impl Listed for Entity {
    open spec fn ahead(a: EntityView, b: EntityView) -> bool {
        listed_before(a, b)
    }

    proof fn lemma_ahead(a: EntityView, b: EntityView, c: EntityView) {
        lemma_text_total(a.category, b.category);
        lemma_text_total(b.category, c.category);
        lemma_text_total(a.id, b.id);
        lemma_text_total(b.id, c.id);
        lemma_text_total(a.category, c.category);
        if text_before(a.category, b.category) && text_before(b.category, c.category) {
            lemma_text_transitive(a.category, b.category, c.category);
        }
        if text_before(a.id, b.id) && text_before(b.id, c.id) {
            lemma_text_transitive(a.id, b.id, c.id);
        }
    }

    fn is_ahead(&self, other: &Entity) -> (r: bool) {
        precedes(self.category.as_str(), other.category.as_str()) || (same_text(
            self.category.as_str(),
            other.category.as_str(),
        ) && precedes(self.id.as_str(), other.id.as_str()))
    }
}

impl Listed for PrefabCollision {
    open spec fn ahead(a: PrefabView, b: PrefabView) -> bool {
        text_before(a.name, b.name)
    }

    proof fn lemma_ahead(a: PrefabView, b: PrefabView, c: PrefabView) {
        lemma_text_total(a.name, b.name);
        lemma_text_total(b.name, c.name);
        if text_before(a.name, b.name) && text_before(b.name, c.name) {
            lemma_text_transitive(a.name, b.name, c.name);
        }
    }

    fn is_ahead(&self, other: &PrefabCollision) -> (r: bool) {
        precedes(self.name.as_str(), other.name.as_str())
    }
}

/// What entities hold, in order.
pub open spec fn views(entities: Seq<Entity>) -> Seq<EntityView> {
    entities.map_values(|entity: Entity| entity@)
}

/// The first `n` entities in listing order; equal ones keep their order.
pub open spec fn listed(entities: Seq<EntityView>, n: int) -> Seq<EntityView> {
    ordered::<Entity>(entities, n)
}

/// Prefabs ordered by name.
pub open spec fn by_name(prefabs: Seq<PrefabView>) -> Seq<PrefabView> {
    ordered::<PrefabCollision>(prefabs, prefabs.len() as int)
}

/// Whether no entity of a list comes before one that stands ahead of it.
pub open spec fn in_listing_order(list: Seq<EntityView>) -> bool {
    forall|i: int, j: int| 0 <= i < j < list.len() ==> !listed_before(
        #[trigger] list[j],
        #[trigger] list[i],
    )
}

/// Whether no prefab of a list has a name that comes before one ahead of it.
pub open spec fn in_name_order(list: Seq<PrefabView>) -> bool {
    forall|i: int, j: int| 0 <= i < j < list.len() ==> !text_before(
        (#[trigger] list[j]).name,
        (#[trigger] list[i]).name,
    )
}

/// Listing neither adds nor loses an entity, and puts all in order.
pub proof fn lemma_listed(entities: Seq<EntityView>, n: int)
    requires
        0 <= n <= entities.len(),
    ensures
        listed(entities, n).len() == n,
        in_listing_order(listed(entities, n)),
        listed(entities, n).to_multiset() == entities.take(n).to_multiset(),
{
    lemma_ordered::<Entity>(entities, n);
    let list: Seq<EntityView> = listed(entities, n);
    assert(in_order::<Entity>(list));
    assert forall|i: int, j: int| 0 <= i < j < list.len() implies !listed_before(
        #[trigger] list[j],
        #[trigger] list[i],
    ) by {
        assert(!Entity::ahead(list[j], list[i]));
    }
}

/// Ordering by name neither adds nor loses a prefab, and puts all in order.
pub proof fn lemma_by_name(prefabs: Seq<PrefabView>)
    ensures
        by_name(prefabs).len() == prefabs.len(),
        in_name_order(by_name(prefabs)),
        by_name(prefabs).to_multiset() == prefabs.to_multiset(),
{
    lemma_ordered::<PrefabCollision>(prefabs, prefabs.len() as int);
    let list: Seq<PrefabView> = by_name(prefabs);
    assert(in_order::<PrefabCollision>(list));
    assert(prefabs.take(prefabs.len() as int) =~= prefabs);
    assert forall|i: int, j: int| 0 <= i < j < list.len() implies !text_before(
        (#[trigger] list[j]).name,
        (#[trigger] list[i]).name,
    ) by {
        assert(!PrefabCollision::ahead(list[j], list[i]));
    }
}

/// Puts entities in listing order; equal ones keep their order.
pub fn list_entities(entities: &mut Vec<Entity>)
    ensures
        views(final(entities)@) == listed(
            views(old(entities)@),
            old(entities)@.len() as int,
        ),
        final(entities)@.len() == old(entities)@.len(),
{
    put_in_order(entities);
    proof {
        assert(held(old(entities)@) =~= views(old(entities)@));
        assert(held(entities@) =~= views(entities@));
    }
}

/// Orders prefabs by name; equal ones keep their order.
pub fn order_prefabs(prefabs: &mut Vec<PrefabCollision>)
    ensures
        final(prefabs)@.map_values(|prefab: PrefabCollision| prefab@) == by_name(
            old(prefabs)@.map_values(|prefab: PrefabCollision| prefab@),
        ),
        final(prefabs)@.len() == old(prefabs)@.len(),
{
    put_in_order(prefabs);
    proof {
        assert(held(old(prefabs)@) =~= old(prefabs)@.map_values(
            |prefab: PrefabCollision| prefab@,
        ));
        assert(held(prefabs@) =~= prefabs@.map_values(
            |prefab: PrefabCollision| prefab@,
        ));
    }
}

} // verus!
