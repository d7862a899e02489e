use vstd::prelude::*;

use crate::unique_store::Key;

verus! {

/// What a collision object stands for: a piece of terrain, or the entity with
/// the given key.
#[derive(Clone, Copy, PartialEq, Eq, Structural, Debug)]
pub enum CollisionProp {
    Terrain,
    Entity(Key),
}

/// The entity whose embed correction a new contact between `a` and `b` feeds:
/// only a contact between terrain and an entity has one.
pub open spec fn embed_target_of(a: CollisionProp, b: CollisionProp) -> Option<Key> {
    match (a, b) {
        (CollisionProp::Entity(k), CollisionProp::Terrain) => Some(k),
        (CollisionProp::Terrain, CollisionProp::Entity(k)) => Some(k),
        _ => None,
    }
}

/// Picks the entity that a contact started between objects tagged `a` and `b`
/// pushes out of terrain, if any.
pub fn embed_target(a: CollisionProp, b: CollisionProp) -> (r: Option<Key>)
    ensures
        r == embed_target_of(a, b),
{
    match (a, b) {
        (CollisionProp::Entity(k), CollisionProp::Terrain) => Some(k),
        (CollisionProp::Terrain, CollisionProp::Entity(k)) => Some(k),
        _ => None,
    }
}

/// A contact between two entities, or between two pieces of terrain, corrects
/// nothing.
pub proof fn lemma_same_side_contacts_inert(k1: Key, k2: Key)
    ensures
        embed_target_of(CollisionProp::Entity(k1), CollisionProp::Entity(k2)).is_none(),
        embed_target_of(CollisionProp::Terrain, CollisionProp::Terrain).is_none(),
{
}

} // verus!
