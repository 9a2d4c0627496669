//! The entity table: a sparse array of entity slots with a free list.

use vstd::prelude::*;

use crate::archetype::Archetype;

verus! {

/// An opaque dense integer identifier, stable for the life of its slot and
/// reissued from the free list after despawn.
pub type Entity = usize;

/// Index of an entity's row within its current storage.
pub type ComponentIndex = usize;

/// The record held by a live entity slot: the row of the entity within its
/// current storage, and the current archetype (`None` while the entity has no
/// components, in which case the row index is zero).
pub struct EntityData {
    pub component_index: ComponentIndex,
    pub archetype: Option<Archetype>,
}

/// A nullable entity slot: `None` after despawn, until the identifier is
/// reissued.
pub type EntitySlot = Option<EntityData>;

/// The sparse slot array together with the free list of despawned
/// identifiers.
pub struct Entities {
    pub slots: Vec<EntitySlot>,
    pub free: Vec<Entity>,
}

impl Entities {
    /// Invariant: the live identifiers are exactly the non-null
    /// slots; every identifier on the free list names a null slot, no null
    /// slot is absent from the free list, and the free list holds no
    /// duplicates.
    pub open spec fn wf(self) -> bool {
        &&& forall|i: int|
            0 <= i < self.free@.len() ==> self.free@[i] < self.slots@.len() && self.slots@[#[trigger] self.free@[i] as int] is None
        &&& forall|i: int, j: int|
            0 <= i < j < self.free@.len() ==> self.free@[i] != self.free@[j]
        &&& forall|s: int| 0 <= s < self.slots@.len() && self.slots@[s] is None ==> self.freed(s)
    }

    /// Whether some free-list entry names slot `s`.
    pub open spec fn freed(self, s: int) -> bool {
        exists|w: int| 0 <= w < self.free@.len() && #[trigger] self.free@[w] == s
    }

    /// Whether `entity` names a live slot.
    pub open spec fn live(self, entity: Entity) -> bool {
        entity < self.slots@.len() && self.slots@[entity as int] is Some
    }

    /// An empty table: no slots, nothing free.
    pub fn new() -> (r: Entities)
        ensures
            r.slots@ == Seq::<EntitySlot>::empty(),
            r.free@ == Seq::<Entity>::empty(),
            r.wf(),
    {
        Entities { slots: Vec::new(), free: Vec::new() }
    }

    /// Issue an entity identifier: the most recently freed one when the free
    /// list is non-empty, a fresh slot otherwise. The slot starts with no
    /// archetype and row zero.
    pub fn spawn(&mut self) -> (entity: Entity)
        requires
            old(self).wf(),
        ensures
            final(self).wf(),
            final(self).live(entity),
            !old(self).live(entity),
            final(self).slots@[entity as int] == Some(
                EntityData { component_index: 0, archetype: None::<Archetype> },
            ),
            old(self).free@.len() > 0 ==> {
                &&& entity == old(self).free@.last()
                &&& final(self).slots@ == old(self).slots@.update(
                    entity as int,
                    Some(EntityData { component_index: 0, archetype: None::<Archetype> }),
                )
                &&& final(self).free@ == old(self).free@.drop_last()
            },
            old(self).free@.len() == 0 ==> {
                &&& entity == old(self).slots@.len()
                &&& final(self).slots@ == old(self).slots@.push(
                    Some(EntityData { component_index: 0, archetype: None::<Archetype> }),
                )
                &&& final(self).free@ == old(self).free@
            },
    {
        let fresh = EntityData { component_index: 0, archetype: None };
        match self.free.pop() {
            Some(entity) => {
                assert(entity == old(self).free@.last() && entity < self.slots@.len());
                self.slots[entity] = Some(fresh);
                proof {
                    assert forall|i: int|
                        0 <= i < self.free@.len() implies self.free@[i] < self.slots@.len()
                        && self.slots@[#[trigger] self.free@[i] as int] is None by {
                        assert(old(self).free@[i] == self.free@[i]);
                        assert(old(self).slots@[old(self).free@[i] as int] is None);
                        if self.free@[i] == entity {
                            assert(old(self).free@[i] == old(self).free@[old(self).free@.len()
                                - 1]);
                            assert(false);
                        }
                    }
                    assert forall|s: int|
                        0 <= s < self.slots@.len() && self.slots@[s] is None implies self.freed(
                        s,
                    ) by {
                        assert(self.slots@[entity as int] is Some);
                        assert(s != entity);
                        assert(old(self).slots@[s] is None);
                        assert(old(self).freed(s));
                        let w: int = choose|w: int|
                            0 <= w < old(self).free@.len() && old(self).free@[w] == s;
                        if w == old(self).free@.len() - 1 {
                            assert(old(self).free@[w] == entity);
                            assert(false);
                        }
                        assert(self.free@[w] == s);
                    }
                }
                entity
            },
            None => {
                let entity = self.slots.len();
                self.slots.push(Some(fresh));
                proof {
                    assert forall|s: int|
                        0 <= s < self.slots@.len() && self.slots@[s] is None implies self.freed(
                        s,
                    ) by {
                        if s == old(self).slots@.len() {
                            assert(self.slots@[s] is Some);
                            assert(false);
                        } else {
                            assert(old(self).slots@[s] is None);
                            assert(old(self).freed(s));
                            let w: int = choose|w: int|
                                0 <= w < old(self).free@.len() && old(self).free@[w] == s;
                            assert(self.free@[w] == s);
                        }
                    }
                }
                entity
            },
        }
    }

    /// Clear the slot for `entity` and push the identifier onto the free
    /// list, handing back what the slot held; a no-op returning `None` when
    /// the identifier is unknown or already despawned.
    pub fn despawn(&mut self, entity: Entity) -> (r: Option<EntityData>)
        requires
            old(self).wf(),
        ensures
            final(self).wf(),
            match r {
                Some(data) => {
                    &&& old(self).live(entity)
                    &&& old(self).slots@[entity as int] == Some(data)
                    &&& final(self).slots@ == old(self).slots@.update(
                        entity as int,
                        None::<EntityData>,
                    )
                    &&& final(self).free@ == old(self).free@.push(entity)
                },
                None => !old(self).live(entity) && *final(self) == *old(self),
            },
    {
        if entity >= self.slots.len() {
            return None;
        }
        if self.slots[entity].is_none() {
            return None;
        }
        let slot = &mut self.slots[entity];
        let taken = slot.take();
        match taken {
            Some(data) => {
                proof {
                    if old(self).freed(entity as int) {
                        let w: int = choose|w: int|
                            0 <= w < old(self).free@.len() && old(self).free@[w] == entity as int;
                        assert(old(self).slots@[old(self).free@[w] as int] is None);
                        assert(false);
                    }
                }
                self.free.push(entity);
                proof {
                    assert(self.slots@ == old(self).slots@.update(
                        entity as int,
                        None::<EntityData>,
                    ));
                    assert(self.free@ == old(self).free@.push(entity));
                    assert forall|i: int|
                        0 <= i < self.free@.len() implies self.free@[i] < self.slots@.len()
                        && self.slots@[#[trigger] self.free@[i] as int] is None by {
                        if i < old(self).free@.len() {
                            assert(old(self).slots@[old(self).free@[i] as int] is None);
                            if old(self).free@[i] == entity {
                                assert(old(self).slots@[entity as int] is None);
                                assert(false);
                            }
                        }
                    }
                    assert forall|i: int, j: int|
                        0 <= i < j < self.free@.len() implies self.free@[i] != self.free@[j] by {
                        if j == self.free@.len() - 1 {
                            assert(old(self).slots@[old(self).free@[i] as int] is None);
                            if old(self).free@[i] == entity {
                                assert(old(self).slots@[entity as int] is None);
                                assert(false);
                            }
                        }
                    }
                    assert forall|s: int|
                        0 <= s < self.slots@.len() && self.slots@[s] is None implies self.freed(
                        s,
                    ) by {
                        if s == entity {
                            assert(self.free@[self.free@.len() - 1] == s);
                        } else {
                            assert(old(self).slots@[s] is None);
                            assert(old(self).freed(s));
                            let w: int = choose|w: int|
                                0 <= w < old(self).free@.len() && old(self).free@[w] == s;
                            assert(self.free@[w] == s);
                        }
                    }
                }
                Some(data)
            },
            None => {
                proof {
                    assert(false);
                }
                None
            },
        }
    }

    /// The slot for `entity`.
    pub fn get(&self, index: usize) -> (r: &EntitySlot)
        requires
            index < self.slots@.len(),
        ensures
            *r == self.slots@[index as int],
    {
        &self.slots[index]
    }

    /// Mutable access to the slot for `entity`.
    pub fn get_mut(&mut self, index: usize) -> (r: &mut EntitySlot)
        requires
            index < old(self).slots@.len(),
        ensures
            *r == old(self).slots@[index as int],
            final(self).slots@ == old(self).slots@.update(index as int, *final(r)),
            final(self).free@ == old(self).free@,
    {
        &mut self.slots[index]
    }
}

} // verus!
