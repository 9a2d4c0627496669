//! The world: the public API over the entity table and the per-archetype
//! storages, orchestrating cross-storage migration when components are added
//! or removed, and owning destruction on despawn.

use vstd::prelude::*;

use crate::archetype::{
    lemma_rank_sorted, rank, stride_of, sum_prefix, Archetype, ComponentId, EcsError,
};
use crate::entities::{Entities, Entity, EntityData, EntitySlot};
use crate::storage::{Insertion, Removal, Storage};

verus! {

/// A value type with a statically known type identifier and byte size; the
/// identifier is the only cross-module bridge the store needs. Two distinct
/// types in the same process must produce distinct identifiers.
pub trait Component {
    /// The process-wide identifier of this component type.
    fn id() -> ComponentId;

    /// The in-memory size of this component type in bytes.
    fn size() -> usize;
}

/// The record of one destructor invocation: despawning an entity releases
/// each of its component values exactly once.
#[derive(Clone, Copy, Debug, PartialEq, Eq, Structural)]
pub struct DropEvent {
    pub entity: Entity,
    pub component: ComponentId,
}

/// One destructor event per component of `ids`, in sorted identifier order.
pub open spec fn drop_events(e: Entity, ids: Seq<ComponentId>) -> Seq<DropEvent> {
    Seq::new(ids.len(), |i: int| DropEvent { entity: e, component: ids[i] })
}

/// The mapping from archetype to storage, with the table of component sizes
/// registered at the first add of each component type.
pub struct Components {
    pub storage: Vec<Storage>,
    pub reg_ids: Vec<ComponentId>,
    pub reg_sizes: Vec<usize>,
}

impl Components {
    /// The size table registers each component type at most once.
    pub open spec fn reg_wf(self) -> bool {
        &&& self.reg_ids@.len() == self.reg_sizes@.len()
        &&& forall|i: int, j: int|
            0 <= i < j < self.reg_ids@.len() ==> self.reg_ids@[i] != self.reg_ids@[j]
    }

    /// Whether the size table maps `id` to `sz`.
    pub open spec fn registered(self, id: ComponentId, sz: usize) -> bool {
        exists|i: int|
            0 <= i < self.reg_ids@.len() && #[trigger] self.reg_ids@[i] == id
                && self.reg_sizes@[i] == sz
    }

    /// Invariant: an archetype's sizes are consistent with the
    /// component types its identifiers represent — every slot agrees with the
    /// registered size of its identifier.
    pub open spec fn consistent(self, a: Archetype) -> bool {
        forall|i: int|
            0 <= i < a.ids@.len() ==> self.registered(#[trigger] a.ids@[i], a.size@[i])
    }

    /// An empty map: no storages, no registered sizes.
    pub fn new() -> (r: Components)
        ensures
            r.storage@ == Seq::<Storage>::empty(),
            r.reg_ids@ == Seq::<ComponentId>::empty(),
            r.reg_sizes@ == Seq::<usize>::empty(),
            r.reg_wf(),
    {
        Components { storage: Vec::new(), reg_ids: Vec::new(), reg_sizes: Vec::new() }
    }

    /// The registered size of `id`, when the size table holds it.
    pub fn find_size(&self, id: ComponentId) -> (r: Option<usize>)
        requires
            self.reg_wf(),
        ensures
            match r {
                Some(sz) => self.registered(id, sz),
                None => forall|sz: usize| !self.registered(id, sz),
            },
    {
        let mut i: usize = 0;
        while i < self.reg_ids.len()
            invariant
                i <= self.reg_ids@.len(),
                self.reg_wf(),
                forall|j: int| 0 <= j < i ==> self.reg_ids@[j] != id,
            decreases self.reg_ids@.len() - i,
        {
            if self.reg_ids[i] == id {
                return Some(self.reg_sizes[i]);
            }
            i = i + 1;
        }
        None
    }

    /// Register `id` at size `sz` unless it is already registered; `id` must
    /// not be registered at any other size.
    pub fn ensure_registered(&mut self, id: ComponentId, sz: usize)
        requires
            old(self).reg_wf(),
            forall|s: usize| old(self).registered(id, s) ==> s == sz,
        ensures
            final(self).reg_wf(),
            final(self).registered(id, sz),
            final(self).storage == old(self).storage,
            forall|id2: ComponentId, s2: usize|
                old(self).registered(id2, s2) ==> final(self).registered(id2, s2),
            forall|id2: ComponentId, s2: usize|
                final(self).registered(id2, s2) ==> old(self).registered(id2, s2) || (id2 == id
                    && s2 == sz),
    {
        match self.find_size(id) {
            Some(_existing) => {
                proof {
                    assert forall|id2: ComponentId, s2: usize|
                        old(self).registered(id2, s2) implies final(self).registered(id2, s2) by {}
                }
            },
            None => {
                self.reg_ids.push(id);
                self.reg_sizes.push(sz);
                proof {
                    let n = old(self).reg_ids@.len() as int;
                    assert(self.reg_ids@[n] == id && self.reg_sizes@[n] == sz);
                    assert forall|i: int, j: int|
                        0 <= i < j < self.reg_ids@.len() implies self.reg_ids@[i]
                        != self.reg_ids@[j] by {
                        if j == n {
                            if self.reg_ids@[i] == id {
                                assert(old(self).registered(id, old(self).reg_sizes@[i]));
                            }
                        }
                    }
                    assert forall|id2: ComponentId, s2: usize|
                        old(self).registered(id2, s2) implies final(self).registered(id2, s2) by {
                        let w: int = choose|w: int|
                            0 <= w < old(self).reg_ids@.len() && old(self).reg_ids@[w] == id2
                                && old(self).reg_sizes@[w] == s2;
                        assert(self.reg_ids@[w] == id2 && self.reg_sizes@[w] == s2);
                    }
                }
            },
        }
    }

    /// The index of the storage keyed by exactly the identifier sequence
    /// `ids`, if one exists.
    pub fn find_storage(&self, ids: &Vec<ComponentId>) -> (r: Option<usize>)
        ensures
            match r {
                Some(k) => k < self.storage@.len() && self.storage@[k as int].archetype.ids@
                    == ids@,
                None => forall|k: int|
                    0 <= k < self.storage@.len() ==> (#[trigger] self.storage@[k]).archetype.ids@
                        != ids@,
            },
    {
        let mut k: usize = 0;
        while k < self.storage.len()
            invariant
                k <= self.storage@.len(),
                forall|j: int|
                    0 <= j < k ==> (#[trigger] self.storage@[j]).archetype.ids@ != ids@,
            decreases self.storage@.len() - k,
        {
            if ids_equal(&self.storage[k].archetype.ids, ids) {
                return Some(k);
            }
            k = k + 1;
        }
        None
    }
}

/// Element-wise equality of two identifier vectors.
fn ids_equal(a: &Vec<ComponentId>, b: &Vec<ComponentId>) -> (r: bool)
    ensures
        r <==> a@ == b@,
{
    if a.len() != b.len() {
        return false;
    }
    let mut i: usize = 0;
    while i < a.len()
        invariant
            i <= a@.len(),
            a@.len() == b@.len(),
            forall|j: int| 0 <= j < i ==> a@[j] == b@[j],
        decreases a@.len() - i,
    {
        if a[i] != b[i] {
            return false;
        }
        i = i + 1;
    }
    proof {
        assert(a@ =~= b@);
    }
    true
}

/// Two archetypes consistent with one size table and keyed by the same
/// identifiers carry the same sizes: the registered size of an identifier is
/// unique.
pub proof fn lemma_consistent_sizes(c: Components, a: Archetype, b: Archetype)
    requires
        c.reg_wf(),
        c.consistent(a),
        c.consistent(b),
        a.ids@ == b.ids@,
        a.ids@.len() == a.size@.len(),
        b.ids@.len() == b.size@.len(),
    ensures
        a.size@ == b.size@,
{
    assert forall|i: int| 0 <= i < a.size@.len() implies a.size@[i] == b.size@[i] by {
        assert(c.registered(a.ids@[i], a.size@[i]));
        assert(c.registered(b.ids@[i], b.size@[i]));
        let wa: int = choose|wa: int|
            0 <= wa < c.reg_ids@.len() && #[trigger] c.reg_ids@[wa] == a.ids@[i]
                && c.reg_sizes@[wa] == a.size@[i];
        let wb: int = choose|wb: int|
            0 <= wb < c.reg_ids@.len() && #[trigger] c.reg_ids@[wb] == b.ids@[i]
                && c.reg_sizes@[wb] == b.size@[i];
        if wa != wb {
            assert(c.reg_ids@[wa] == c.reg_ids@[wb]);
            assert(false);
        }
    }
    assert(a.size@ =~= b.size@);
}

/// Two component maps with the same size table register the same sizes.
pub proof fn lemma_registered_same(c1: Components, c2: Components)
    requires
        c1.reg_ids@ == c2.reg_ids@,
        c1.reg_sizes@ == c2.reg_sizes@,
    ensures
        forall|id: ComponentId, s: usize| c1.registered(id, s) ==> c2.registered(id, s),
        forall|id: ComponentId, s: usize| c2.registered(id, s) ==> c1.registered(id, s),
{
    assert forall|id: ComponentId, s: usize| c1.registered(id, s) implies c2.registered(id, s) by {
        let w: int = choose|w: int|
            0 <= w < c1.reg_ids@.len() && #[trigger] c1.reg_ids@[w] == id && c1.reg_sizes@[w] == s;
        assert(c2.reg_ids@[w] == id && c2.reg_sizes@[w] == s);
    }
    assert forall|id: ComponentId, s: usize| c2.registered(id, s) implies c1.registered(id, s) by {
        let w: int = choose|w: int|
            0 <= w < c2.reg_ids@.len() && #[trigger] c2.reg_ids@[w] == id && c2.reg_sizes@[w] == s;
        assert(c1.reg_ids@[w] == id && c1.reg_sizes@[w] == s);
    }
}

/// Consistency with the size table survives registering further types.
pub proof fn lemma_consistent_mono(c1: Components, c2: Components, a: Archetype)
    requires
        c1.consistent(a),
        forall|id: ComponentId, s: usize| c1.registered(id, s) ==> c2.registered(id, s),
    ensures
        c2.consistent(a),
{
    assert forall|i: int|
        0 <= i < a.ids@.len() implies c2.registered(#[trigger] a.ids@[i], a.size@[i]) by {
        assert(c1.registered(a.ids@[i], a.size@[i]));
    }
}

/// An archetype grown by a registered component stays consistent.
pub proof fn lemma_consistent_insert(
    c: Components,
    a: Archetype,
    b: Archetype,
    id: ComponentId,
    sz: usize,
    p: int,
)
    requires
        c.consistent(a),
        c.registered(id, sz),
        0 <= p <= a.ids@.len(),
        a.ids@.len() == a.size@.len(),
        b.ids@ == a.ids@.insert(p, id),
        b.size@ == a.size@.insert(p, sz),
    ensures
        c.consistent(b),
{
    assert forall|i: int|
        0 <= i < b.ids@.len() implies c.registered(#[trigger] b.ids@[i], b.size@[i]) by {
        if i < p {
            assert(b.ids@[i] == a.ids@[i] && b.size@[i] == a.size@[i]);
            assert(c.registered(a.ids@[i], a.size@[i]));
        } else if i == p {
            assert(b.ids@[i] == id && b.size@[i] == sz);
        } else {
            assert(b.ids@[i] == a.ids@[i - 1] && b.size@[i] == a.size@[i - 1]);
            assert(c.registered(a.ids@[i - 1], a.size@[i - 1]));
        }
    }
}

/// An archetype shrunk by one component stays consistent.
pub proof fn lemma_consistent_remove(c: Components, a: Archetype, b: Archetype, p: int)
    requires
        c.consistent(a),
        0 <= p < a.ids@.len(),
        a.ids@.len() == a.size@.len(),
        b.ids@ == a.ids@.remove(p),
        b.size@ == a.size@.remove(p),
    ensures
        c.consistent(b),
{
    assert forall|i: int|
        0 <= i < b.ids@.len() implies c.registered(#[trigger] b.ids@[i], b.size@[i]) by {
        if i < p {
            assert(b.ids@[i] == a.ids@[i] && b.size@[i] == a.size@[i]);
            assert(c.registered(a.ids@[i], a.size@[i]));
        } else {
            assert(b.ids@[i] == a.ids@[i + 1] && b.size@[i] == a.size@[i + 1]);
            assert(c.registered(a.ids@[i + 1], a.size@[i + 1]));
        }
    }
}

/// Whether `sts` holds a storage keyed by exactly `ids`.
pub open spec fn has_storage_in(sts: Seq<Storage>, ids: Seq<ComponentId>) -> bool {
    exists|k: int| 0 <= k < sts.len() && (#[trigger] sts[k]).archetype.ids@ == ids
}

/// The index of the storage keyed by `ids` within `sts`.
pub open spec fn storage_index_in(sts: Seq<Storage>, ids: Seq<ComponentId>) -> int {
    choose|k: int| 0 <= k < sts.len() && (#[trigger] sts[k]).archetype.ids@ == ids
}

/// Worlds with the same entity table and the same storages are
/// observationally identical.
pub proof fn lemma_observed_same(w1: World, w2: World)
    requires
        w1.entities == w2.entities,
        w1.components.storage == w2.components.storage,
    ensures
        forall|e: Entity| w1.observed(e) == w2.observed(e),
{
    assert forall|e: Entity| w1.observed(e) == w2.observed(e) by {
        assert(w1.entities.slots@ == w2.entities.slots@);
        assert(w1.components.storage@ == w2.components.storage@);
        assert(w1.live(e) == w2.live(e));
        assert(w1.arch_ids(e) == w2.arch_ids(e));
        assert(w1.arch_sizes(e) == w2.arch_sizes(e));
        assert(w1.row_bytes(e) == w2.row_bytes(e));
    }
}

/// Registering further component sizes preserves the world invariant: only
/// the size table grew, and consistency is monotone in it.
pub proof fn lemma_wf_after_register(pre: World, post: World)
    requires
        pre.wf(),
        post.entities == pre.entities,
        post.components.storage == pre.components.storage,
        post.components.reg_wf(),
        forall|id2: ComponentId, s2: usize|
            pre.components.registered(id2, s2) ==> post.components.registered(id2, s2),
    ensures
        post.wf(),
{
    assert(post.entities.wf());
    assert(post.components.storage@ == pre.components.storage@);
    assert forall|k: int|
        0 <= k < post.components.storage@.len() implies {
        let s = #[trigger] post.components.storage@[k];
        &&& s.wf()
        &&& s.archetype.spec_len() > 0
        &&& post.components.consistent(s.archetype)
    } by {
        assert(pre.components.storage@[k] == post.components.storage@[k]);
        lemma_consistent_mono(
            pre.components,
            post.components,
            post.components.storage@[k].archetype,
        );
    }
    assert(post.storages_distinct());
    assert forall|e: int|
        0 <= e < post.entities.slots@.len() implies #[trigger] post.slot_wf(e) by {
        assert(pre.slot_wf(e));
        match post.entities.slots@[e] {
            None => {},
            Some(d) => match d.archetype {
                None => {},
                Some(a) => {
                    lemma_consistent_mono(pre.components, post.components, a);
                    assert(post.has_storage(a.ids@) == pre.has_storage(a.ids@));
                    assert(post.storage_index(a.ids@) == pre.storage_index(a.ids@));
                },
            },
        }
    }
    assert(post.rows_wf());
}

/// What a successful add leaves behind: the entity's archetype gains the
/// component at its sorted position, the value's bytes are spliced into the
/// entity's row at the offset that position dictates, nothing is dropped, and
/// no other entity can observe a change.
pub open spec fn add_effect(pre: World, post: World, e: Entity, id: ComponentId, v: Seq<u8>) -> bool {
    let ids = pre.arch_ids(e);
    let sizes = pre.arch_sizes(e);
    let p = rank(ids, id);
    let off = sum_prefix(sizes, p);
    let row = pre.row_bytes(e);
    &&& pre.live(e)
    &&& post.live(e)
    &&& post.arch_ids(e) == ids.insert(p, id)
    &&& post.arch_sizes(e) == sizes.insert(p, v.len() as usize)
    &&& post.row_bytes(e) == row.subrange(0, off) + v + row.subrange(off, row.len() as int)
    &&& post.dropped@ == pre.dropped@
    &&& post.entities.free@ == pre.entities.free@
    &&& post.entities.slots@.len() == pre.entities.slots@.len()
    &&& forall|e2: Entity| e2 != e ==> #[trigger] post.observed(e2) == pre.observed(e2)
}

/// What a successful remove leaves behind: the component's slot leaves the
/// entity's archetype and its bytes leave the row; nothing is dropped, and no
/// other entity can observe a change.
pub open spec fn remove_effect(pre: World, post: World, e: Entity, id: ComponentId) -> bool {
    let ids = pre.arch_ids(e);
    let sizes = pre.arch_sizes(e);
    let p = rank(ids, id);
    let off = sum_prefix(sizes, p);
    let sz = sizes[p];
    let row = pre.row_bytes(e);
    &&& pre.live(e)
    &&& post.live(e)
    &&& post.arch_ids(e) == ids.remove(p)
    &&& post.arch_sizes(e) == sizes.remove(p)
    &&& post.row_bytes(e) == row.subrange(0, off) + row.subrange(off + sz, row.len() as int)
    &&& post.dropped@ == pre.dropped@
    &&& post.entities.free@ == pre.entities.free@
    &&& post.entities.slots@.len() == pre.entities.slots@.len()
    &&& post.components.reg_ids == pre.components.reg_ids
    &&& post.components.reg_sizes == pre.components.reg_sizes
    &&& forall|e2: Entity| e2 != e ==> #[trigger] post.observed(e2) == pre.observed(e2)
}

/// What despawning a live entity leaves behind: the slot is cleared, the
/// identifier goes on the free list, one destructor event is logged per
/// component in sorted identifier order, and no other entity can observe a
/// change.
pub open spec fn despawn_effect(pre: World, post: World, e: Entity) -> bool {
    &&& pre.live(e)
    &&& !post.live(e)
    &&& post.entities.slots@.len() == pre.entities.slots@.len()
    &&& post.entities.free@ == pre.entities.free@.push(e)
    &&& post.dropped@ == pre.dropped@ + drop_events(e, pre.arch_ids(e))
    &&& post.components.reg_ids == pre.components.reg_ids
    &&& post.components.reg_sizes == pre.components.reg_sizes
    &&& forall|e2: Entity| e2 != e ==> #[trigger] post.observed(e2) == pre.observed(e2)
}

/// The destructor events of tearing down the first `n` slots of `w` in slot
/// order.
pub open spec fn events_upto(w: World, n: int) -> Seq<DropEvent>
    decreases n,
{
    if n <= 0 {
        Seq::empty()
    } else {
        events_upto(w, n - 1) + if w.live((n - 1) as usize) {
            drop_events((n - 1) as usize, w.arch_ids((n - 1) as usize))
        } else {
            Seq::empty()
        }
    }
}

/// Worlds that differ in at most one entity slot and not in their storages
/// are observationally identical everywhere else.
pub proof fn lemma_frame_slot_update(w1: World, w2: World, e: Entity)
    requires
        w1.components.storage == w2.components.storage,
        w1.entities.slots@.len() == w2.entities.slots@.len(),
        forall|j: int|
            0 <= j < w1.entities.slots@.len() && j != e ==> w1.entities.slots@[j]
                == w2.entities.slots@[j],
    ensures
        forall|e2: Entity| e2 != e ==> w1.observed(e2) == w2.observed(e2),
{
    assert forall|e2: Entity| e2 != e implies w1.observed(e2) == w2.observed(e2) by {
        if (e2 as int) < w1.entities.slots@.len() {
            assert(w1.entities.slots@[e2 as int] == w2.entities.slots@[e2 as int]);
        }
        assert(w1.components.storage@ == w2.components.storage@);
        assert(w1.live(e2) == w2.live(e2));
        assert(w1.arch_ids(e2) == w2.arch_ids(e2));
        assert(w1.arch_sizes(e2) == w2.arch_sizes(e2));
        assert(w1.row_bytes(e2) == w2.row_bytes(e2));
    }
}

/// After a detached entity's slot is settled — cleared, or reset to the
/// no-component state — the whole invariant holds again.
pub proof fn lemma_wf_after_settle(det: World, post: World, e: Entity)
    requires
        det.wf_detached(e),
        post.components == det.components,
        post.entities.wf(),
        post.entities.slots@.len() == det.entities.slots@.len(),
        forall|j: int|
            0 <= j < det.entities.slots@.len() && j != e ==> post.entities.slots@[j]
                == det.entities.slots@[j],
        post.entities.slots@[e as int] is None || post.entities.slots@[e as int] == Some(
            EntityData { component_index: 0, archetype: None::<Archetype> },
        ),
    ensures
        post.wf(),
{
    assert(post.components.storage@ == det.components.storage@);
    assert forall|k: int|
        0 <= k < post.components.storage@.len() implies {
        let s = #[trigger] post.components.storage@[k];
        &&& s.wf()
        &&& s.archetype.spec_len() > 0
        &&& post.components.consistent(s.archetype)
    } by {
        assert(det.components.storage@[k] == post.components.storage@[k]);
    }
    assert(post.storages_distinct());
    assert forall|e2: int|
        0 <= e2 < post.entities.slots@.len() implies #[trigger] post.slot_wf(e2) by {
        if e2 == e as int {
        } else {
            assert(det.slot_wf(e2));
            assert(post.entities.slots@[e2] == det.entities.slots@[e2]);
            match post.entities.slots@[e2] {
                None => {},
                Some(d2) => match d2.archetype {
                    None => {},
                    Some(a2) => {
                        assert(post.has_storage(a2.ids@) == det.has_storage(a2.ids@));
                        assert(post.storage_index(a2.ids@) == det.storage_index(a2.ids@));
                    },
                },
            }
        }
    }
    assert forall|k: int, r: int|
        #![trigger post.components.storage@[k].entities@[r]]
        0 <= k < post.components.storage@.len() && 0 <= r
            < post.components.storage@[k].spec_rows() implies {
        let s = post.components.storage@[k];
        let m2 = s.entities@[r];
        &&& m2 < post.entities.slots@.len()
        &&& post.entities.slots@[m2 as int] matches Some(d)
        &&& d.component_index == r
        &&& d.archetype matches Some(a)
        &&& a.ids@ == s.archetype.ids@
        &&& a.size@ == s.archetype.size@
    } by {
        let m2 = det.components.storage@[k].entities@[r];
        assert(m2 != e);
        assert(post.entities.slots@[m2 as int] == det.entities.slots@[m2 as int]);
    }
    assert(post.wf());
}

/// The world: one entity table, the archetype-keyed storages, and the log of
/// destructor invocations.
pub struct World {
    pub entities: Entities,
    pub components: Components,
    pub dropped: Vec<DropEvent>,
}

impl World {
    /// Whether `e` names a live entity.
    pub open spec fn live(self, e: Entity) -> bool {
        self.entities.live(e)
    }

    /// The identifier sequence of `e`'s current archetype; empty when the
    /// entity is unknown or carries no components.
    pub open spec fn arch_ids(self, e: Entity) -> Seq<ComponentId> {
        if self.live(e) {
            match self.entities.slots@[e as int] {
                Some(d) => match d.archetype {
                    Some(a) => a.ids@,
                    None => Seq::empty(),
                },
                None => Seq::empty(),
            }
        } else {
            Seq::empty()
        }
    }

    /// The per-component sizes of `e`'s current archetype.
    pub open spec fn arch_sizes(self, e: Entity) -> Seq<usize> {
        if self.live(e) {
            match self.entities.slots@[e as int] {
                Some(d) => match d.archetype {
                    Some(a) => a.size@,
                    None => Seq::empty(),
                },
                None => Seq::empty(),
            }
        } else {
            Seq::empty()
        }
    }

    /// The row index of `e` within its storage.
    pub open spec fn row_of(self, e: Entity) -> int {
        match self.entities.slots@[e as int] {
            Some(d) => d.component_index as int,
            None => 0,
        }
    }

    /// Whether a storage keyed by `ids` exists.
    pub open spec fn has_storage(self, ids: Seq<ComponentId>) -> bool {
        has_storage_in(self.components.storage@, ids)
    }

    /// The index of the storage keyed by `ids`.
    pub open spec fn storage_index(self, ids: Seq<ComponentId>) -> int {
        storage_index_in(self.components.storage@, ids)
    }

    /// The bytes of `e`'s row in its storage; empty when the entity is
    /// unknown or carries no components.
    pub open spec fn row_bytes(self, e: Entity) -> Seq<u8> {
        if self.arch_ids(e).len() == 0 {
            Seq::empty()
        } else {
            self.components.storage@[self.storage_index(self.arch_ids(e))].row(self.row_of(e))
        }
    }

    /// Everything a caller can observe of one entity: liveness, archetype
    /// identifiers and sizes, and its row bytes.
    pub open spec fn observed(self, e: Entity) -> (bool, Seq<ComponentId>, Seq<usize>, Seq<u8>) {
        (self.live(e), self.arch_ids(e), self.arch_sizes(e), self.row_bytes(e))
    }

    /// Invariant: every storage is well-formed — its buffer holds
    /// `rows * stride` bytes — its archetype is sorted, non-empty, and
    /// consistent with the registered sizes.
    pub open spec fn storages_wf(self) -> bool {
        forall|k: int|
            0 <= k < self.components.storage@.len() ==> {
                let s = #[trigger] self.components.storage@[k];
                &&& s.wf()
                &&& s.archetype.spec_len() > 0
                &&& self.components.consistent(s.archetype)
            }
    }

    /// No two storages are keyed by the same identifier sequence.
    pub open spec fn storages_distinct(self) -> bool {
        forall|k1: int, k2: int|
            0 <= k1 < k2 < self.components.storage@.len()
                ==> (#[trigger] self.components.storage@[k1]).archetype.ids@ != (
            #[trigger] self.components.storage@[k2]).archetype.ids@
    }

    /// What a live slot promises: an entity with no archetype sits at row
    /// zero; an entity with an archetype names a storage whose row points
    /// back at it.
    pub open spec fn slot_wf(self, e: int) -> bool {
        match self.entities.slots@[e] {
            None => true,
            Some(d) => match d.archetype {
                None => d.component_index == 0,
                Some(a) => {
                    &&& a.wf()
                    &&& a.spec_len() > 0
                    &&& self.components.consistent(a)
                    &&& self.has_storage(a.ids@)
                    &&& {
                        let s = self.components.storage@[self.storage_index(a.ids@)];
                        &&& s.archetype.size@ == a.size@
                        &&& d.component_index < s.spec_rows()
                        &&& s.entities@[d.component_index as int] == e
                    }
                },
            },
        }
    }

    /// Invariant: every live entity's slot points at a row of the
    /// storage for its archetype, and that row's entity entry points back.
    pub open spec fn slots_wf(self) -> bool {
        forall|e: int| 0 <= e < self.entities.slots@.len() ==> #[trigger] self.slot_wf(e)
    }

    /// Every row of every storage is owned by a live entity whose slot names
    /// exactly this storage and this row.
    pub open spec fn rows_wf(self) -> bool {
        forall|k: int, r: int|
            #![trigger self.components.storage@[k].entities@[r]]
            0 <= k < self.components.storage@.len() && 0 <= r
                < self.components.storage@[k].spec_rows() ==> {
                let s = self.components.storage@[k];
                let m = s.entities@[r];
                &&& m < self.entities.slots@.len()
                &&& self.entities.slots@[m as int] matches Some(d)
                &&& d.component_index == r
                &&& d.archetype matches Some(a)
                &&& a.ids@ == s.archetype.ids@
                &&& a.size@ == s.archetype.size@
            }
    }

    /// The invariant of the whole store, re-established by every public
    /// operation.
    pub open spec fn wf(self) -> bool {
        &&& self.entities.wf()
        &&& self.components.reg_wf()
        &&& self.storages_wf()
        &&& self.storages_distinct()
        &&& self.slots_wf()
        &&& self.rows_wf()
    }

    /// The mid-migration state: everything is well-formed except that the
    /// live entity `e` owns no storage row — its slot still holds its old
    /// coordinates, but no storage row points at it.
    pub open spec fn wf_detached(self, e: Entity) -> bool {
        &&& self.entities.wf()
        &&& self.components.reg_wf()
        &&& self.storages_wf()
        &&& self.storages_distinct()
        &&& forall|e2: int|
            0 <= e2 < self.entities.slots@.len() && e2 != e ==> #[trigger] self.slot_wf(e2)
        &&& self.rows_wf()
        &&& self.live(e)
        &&& forall|k: int, r: int|
            #![trigger self.components.storage@[k].entities@[r]]
            0 <= k < self.components.storage@.len() && 0 <= r
                < self.components.storage@[k].spec_rows()
                ==> self.components.storage@[k].entities@[r] != e
    }

    /// An empty world.
    pub fn new() -> (r: World)
        ensures
            r.wf(),
            r.entities.slots@ == Seq::<EntitySlot>::empty(),
            r.entities.free@ == Seq::<Entity>::empty(),
            r.components.storage@ == Seq::<Storage>::empty(),
            r.components.reg_ids@ == Seq::<ComponentId>::empty(),
            r.components.reg_sizes@ == Seq::<usize>::empty(),
            r.dropped@ == Seq::<DropEvent>::empty(),
    {
        World { entities: Entities::new(), components: Components::new(), dropped: Vec::new() }
    }

    /// Issue an entity identifier, reusing the most recently despawned one
    /// when there is one. The new entity carries no components and has no
    /// storage row.
    pub fn spawn(&mut self) -> (entity: Entity)
        requires
            old(self).wf(),
        ensures
            final(self).wf(),
            final(self).live(entity),
            !old(self).live(entity),
            final(self).arch_ids(entity) == Seq::<ComponentId>::empty(),
            final(self).arch_sizes(entity) == Seq::<usize>::empty(),
            final(self).row_bytes(entity) == Seq::<u8>::empty(),
            final(self).dropped@ == old(self).dropped@,
            final(self).components == old(self).components,
            forall|e2: Entity| e2 != entity ==> final(self).observed(e2) == old(self).observed(e2),
            old(self).entities.free@.len() > 0 ==> entity == old(self).entities.free@.last()
                && final(self).entities.free@ == old(self).entities.free@.drop_last(),
            old(self).entities.free@.len() == 0 ==> entity == old(self).entities.slots@.len()
                && final(self).entities.free@ == old(self).entities.free@,
    {
        let entity = self.entities.spawn();
        proof {
            let pre = *old(self);
            let post = *self;
            assert forall|e: int| 0 <= e < post.entities.slots@.len() implies #[trigger] post.slot_wf(
                e,
            ) by {
                if e == entity as int {
                    assert(post.entities.slots@[e] == Some(
                        EntityData { component_index: 0, archetype: None::<Archetype> },
                    ));
                } else {
                    assert(e < pre.entities.slots@.len() ==> pre.slot_wf(e));
                    assert(post.entities.slots@[e] == pre.entities.slots@[e]);
                }
            }
            assert forall|e2: Entity| e2 != entity implies post.observed(e2) == pre.observed(
                e2,
            ) by {
                if (e2 as int) < post.entities.slots@.len() {
                    assert(post.entities.slots@[e2 as int] == pre.entities.slots@[e2 as int]);
                }
            }
        }
        entity
    }

    /// The storage index named by a storage's own identifier sequence is that
    /// storage's position: archetype keys are unique.
    pub proof fn lemma_storage_index_is(self, k: int)
        requires
            self.storages_distinct(),
            0 <= k < self.components.storage@.len(),
        ensures
            self.has_storage(self.components.storage@[k].archetype.ids@),
            self.storage_index(self.components.storage@[k].archetype.ids@) == k,
    {
        let ids = self.components.storage@[k].archetype.ids@;
        assert(self.has_storage(ids));
        let k2 = self.storage_index(ids);
        assert(0 <= k2 < self.components.storage@.len()
            && self.components.storage@[k2].archetype.ids@ == ids);
        if k2 != k {
            if k2 < k {
                assert(self.components.storage@[k2].archetype.ids@
                    != self.components.storage@[k].archetype.ids@);
            } else {
                assert(self.components.storage@[k].archetype.ids@
                    != self.components.storage@[k2].archetype.ids@);
            }
            assert(false);
        }
    }

    /// Pull `entity`'s row out of its storage. The swap-remove may relocate
    /// the last row of that storage; the relocated entity's slot is fixed up
    /// here, so afterwards every other entity is intact and `entity` alone
    /// owns no row. Destruction is not this function's business: the raw
    /// bytes travel out in the Removal.
    fn detach_row(&mut self, entity: Entity) -> (removal: Removal)
        requires
            old(self).wf(),
            old(self).live(entity),
            old(self).entities.slots@[entity as int] matches Some(d) && d.archetype is Some,
        ensures
            final(self).wf_detached(entity),
            removal.wf(),
            removal.archetype.ids@ == old(self).arch_ids(entity),
            removal.archetype.size@ == old(self).arch_sizes(entity),
            removal.data@ == old(self).row_bytes(entity),
            final(self).dropped@ == old(self).dropped@,
            final(self).entities.free@ == old(self).entities.free@,
            final(self).entities.slots@.len() == old(self).entities.slots@.len(),
            final(self).entities.slots@[entity as int] == old(self).entities.slots@[entity
                as int],
            final(self).components.reg_ids == old(self).components.reg_ids,
            final(self).components.reg_sizes == old(self).components.reg_sizes,
            forall|e2: Entity| e2 != entity ==> final(self).observed(e2) == old(self).observed(e2),
    {
        let ghost pre = *old(self);
        let (cur, row) = match &self.entities.slots[entity] {
            Some(data) => {
                match &data.archetype {
                    Some(a) => (a.duplicate(), data.component_index),
                    None => {
                        proof {
                            assert(false);
                        }
                        (Archetype::new(), 0)
                    },
                }
            },
            None => {
                proof {
                    assert(false);
                }
                (Archetype::new(), 0)
            },
        };
        proof {
            assert(pre.slot_wf(entity as int));
        }
        let k_src = match self.components.find_storage(&cur.ids) {
            Some(k) => k,
            None => {
                proof {
                    assert(pre.has_storage(cur.ids@));
                    assert(false);
                }
                0
            },
        };
        let ghost ksrc = k_src as int;
        proof {
            pre.lemma_storage_index_is(ksrc);
            assert(pre.storage_index(cur.ids@) == ksrc);
        }
        let ghost n = pre.components.storage@[ksrc].spec_rows();
        let st = &mut self.components.storage[k_src];
        let removal = st.remove(row);
        let ghost mid = *self;
        proof {
            // the source storage's rows all point back at distinct slots
            assert(pre.components.storage@[ksrc].entities@[row as int] == entity);
        }
        match &removal.swap {
            Some(sw) => {
                let ghost m = sw.entity;
                proof {
                    // the relocated entity is the old last row's owner
                    assert(pre.components.storage@[ksrc].entities@[n - 1] == m);
                    assert(m < pre.entities.slots@.len());
                    if m == entity {
                        assert(pre.entities.slots@[m as int] matches Some(d)
                            && d.component_index == n - 1);
                        assert(false);
                    }
                }
                let to = sw.to;
                match &mut self.entities.slots[sw.entity] {
                    Some(d) => {
                        d.component_index = to;
                    },
                    None => {
                        proof {
                            assert(false);
                        }
                    },
                }
            },
            None => {},
        }
        proof {
            let post = *self;
            let ghost m: Entity = if removal.swap is Some {
                removal.swap->Some_0.entity
            } else {
                entity
            };
            let srcpost = post.components.storage@[ksrc];
            let srcpre = pre.components.storage@[ksrc];
            assert(srcpost.archetype == srcpre.archetype);
            // slots: in the swap case only `m`'s row index changed
            assert(post.entities.free@ == pre.entities.free@);
            if removal.swap is Some {
                assert({
                    &&& pre.entities.slots@[m as int] matches Some(d)
                    &&& d.component_index == n - 1
                    &&& d.archetype matches Some(am)
                    &&& am.ids@ == srcpre.archetype.ids@
                    &&& am.size@ == srcpre.archetype.size@
                });
                assert(post.entities.slots@ == pre.entities.slots@.update(
                    m as int,
                    Some(
                        EntityData {
                            component_index: row,
                            archetype: pre.entities.slots@[m as int]->Some_0.archetype,
                        },
                    ),
                ));
            } else {
                assert(post.entities.slots@ == pre.entities.slots@);
                assert(row as int == n - 1);
            }
            // the entity table stays well-formed: slot `m` is still occupied
            assert forall|i: int|
                0 <= i < post.entities.free@.len() implies post.entities.free@[i]
                < post.entities.slots@.len() && post.entities.slots@[#[trigger] post.entities.free@[i] as int] is None by {
                assert(pre.entities.slots@[pre.entities.free@[i] as int] is None);
            }
            assert forall|s: int|
                0 <= s < post.entities.slots@.len() && post.entities.slots@[s] is None implies post
                .entities.freed(s) by {
                assert(pre.entities.slots@[s] is None);
                assert(pre.entities.freed(s));
            }
            assert(post.entities.wf());
            // storages: only the source changed, and only by dropping a row
            assert forall|k: int|
                0 <= k < post.components.storage@.len() implies {
                let s = #[trigger] post.components.storage@[k];
                &&& s.wf()
                &&& s.archetype.spec_len() > 0
                &&& post.components.consistent(s.archetype)
            } by {
                if k != ksrc {
                    assert(post.components.storage@[k] == pre.components.storage@[k]);
                }
                assert(pre.components.consistent(pre.components.storage@[k].archetype));
                lemma_registered_same(pre.components, post.components);
                lemma_consistent_mono(
                    pre.components,
                    post.components,
                    post.components.storage@[k].archetype,
                );
            }
            assert(post.storages_distinct());
            // every remaining slot still points at its row
            assert forall|e2: int|
                0 <= e2 < post.entities.slots@.len() && e2 != entity implies #[trigger] post.slot_wf(
                e2,
            ) by {
                assert(pre.slot_wf(e2));
                match post.entities.slots@[e2] {
                    None => {},
                    Some(d2) => match d2.archetype {
                        None => {},
                        Some(a2) => {
                            let k2 = pre.storage_index(a2.ids@);
                            if e2 == m as int && removal.swap is Some {
                                assert(a2 == pre.entities.slots@[m as int]->Some_0.archetype->Some_0);
                                assert(k2 == ksrc);
                                post.lemma_storage_index_is(ksrc);
                                assert(srcpost.entities@[row as int] == m);
                            } else {
                                assert(post.entities.slots@[e2] == pre.entities.slots@[e2]);
                                let r2 = d2.component_index;
                                assert(pre.components.storage@[k2].entities@[r2 as int] == e2);
                                post.lemma_storage_index_is(k2);
                                if k2 == ksrc {
                                    // this row is neither the vacated one nor the old last
                                    if r2 as int == row as int {
                                        assert(srcpre.entities@[row as int] == entity);
                                        assert(false);
                                    }
                                    if r2 as int == n - 1 {
                                        assert(srcpre.entities@[n - 1] == e2);
                                        assert(pre.entities.slots@[srcpre.entities@[n - 1] as int]
                                            matches Some(dm) && dm.component_index == n - 1);
                                        if removal.swap is None {
                                            assert(row as int == n - 1);
                                            assert(false);
                                        } else {
                                            assert(e2 == m as int);
                                            assert(false);
                                        }
                                    }
                                    assert(srcpost.entities@[r2 as int] == e2);
                                } else {
                                    assert(post.components.storage@[k2]
                                        == pre.components.storage@[k2]);
                                }
                            }
                        },
                    },
                }
            }
            // every row still points back at its slot
            assert forall|k: int, r: int|
                #![trigger post.components.storage@[k].entities@[r]]
                0 <= k < post.components.storage@.len() && 0 <= r
                    < post.components.storage@[k].spec_rows() implies {
                let s = post.components.storage@[k];
                let m2 = s.entities@[r];
                &&& m2 < post.entities.slots@.len()
                &&& post.entities.slots@[m2 as int] matches Some(d)
                &&& d.component_index == r
                &&& d.archetype matches Some(a)
                &&& a.ids@ == s.archetype.ids@
                &&& a.size@ == s.archetype.size@
                &&& m2 != entity
            } by {
                let s = post.components.storage@[k];
                let m2 = s.entities@[r];
                if k == ksrc {
                    if removal.swap is Some && r == row as int {
                        assert(m2 == m);
                        assert(pre.entities.slots@[m as int] matches Some(dm)
                            && dm.archetype matches Some(am) && am.ids@ == srcpre.archetype.ids@
                            && am.size@ == srcpre.archetype.size@);
                    } else {
                        assert(m2 == srcpre.entities@[r]);
                        assert(pre.entities.slots@[m2 as int] matches Some(dm)
                            && dm.component_index == r);
                        if m2 == entity {
                            assert(pre.entities.slots@[entity as int]->Some_0.component_index
                                == row);
                            assert(r == row as int);
                            assert(srcpre.entities@[row as int] == entity);
                            assert(removal.swap is None ==> r < n - 1 && row as int == n - 1);
                            assert(false);
                        }
                        if m2 == m && removal.swap is Some {
                            assert(pre.entities.slots@[m as int]->Some_0.component_index == n - 1);
                            assert(r == n - 1);
                            assert(false);
                        }
                        assert(post.entities.slots@[m2 as int] == pre.entities.slots@[m2 as int]);
                    }
                } else {
                    assert(s == pre.components.storage@[k]);
                    assert({
                        &&& pre.entities.slots@[m2 as int] matches Some(dm)
                        &&& dm.component_index == r
                        &&& dm.archetype matches Some(am)
                        &&& am.ids@ == s.archetype.ids@
                    });
                    if m2 == entity {
                        let ae = pre.entities.slots@[entity as int]->Some_0.archetype->Some_0;
                        assert(ae.ids@ == s.archetype.ids@);
                        assert(ae.ids@ == srcpre.archetype.ids@);
                        if k < ksrc {
                            assert(pre.components.storage@[k].archetype.ids@
                                != srcpre.archetype.ids@);
                        } else {
                            assert(srcpre.archetype.ids@
                                != pre.components.storage@[k].archetype.ids@);
                        }
                        assert(false);
                    }
                    if removal.swap is Some && m2 == m {
                        let am = pre.entities.slots@[m as int]->Some_0.archetype->Some_0;
                        assert(am.ids@ == s.archetype.ids@);
                        assert(am.ids@ == srcpre.archetype.ids@);
                        if k < ksrc {
                            assert(pre.components.storage@[k].archetype.ids@
                                != srcpre.archetype.ids@);
                        } else {
                            assert(srcpre.archetype.ids@
                                != pre.components.storage@[k].archetype.ids@);
                        }
                        assert(false);
                    }
                    assert(post.entities.slots@[m2 as int] == pre.entities.slots@[m2 as int]);
                }
            }
            assert(post.wf_detached(entity));
            // nothing another entity can observe has changed
            assert forall|e2: Entity| e2 != entity implies post.observed(e2) == pre.observed(
                e2,
            ) by {
                assert(post.live(e2) == pre.live(e2));
                if pre.live(e2) {
                    if e2 == m && removal.swap is Some {
                        assert(post.arch_ids(e2) == pre.arch_ids(e2));
                        assert(post.arch_sizes(e2) == pre.arch_sizes(e2));
                        pre.lemma_storage_index_is(ksrc);
                        post.lemma_storage_index_is(ksrc);
                        assert(pre.row_of(e2) == n - 1);
                        assert(post.row_bytes(e2) == srcpost.row(row as int));
                        assert(pre.row_bytes(e2) == srcpre.row(n - 1));
                        assert(srcpost.row(row as int) == srcpre.row(n - 1));
                    } else {
                        assert(post.entities.slots@[e2 as int] == pre.entities.slots@[e2 as int]);
                        assert(post.arch_ids(e2) == pre.arch_ids(e2));
                        assert(post.arch_sizes(e2) == pre.arch_sizes(e2));
                        if pre.arch_ids(e2).len() > 0 {
                            let a2 = pre.entities.slots@[e2 as int]->Some_0.archetype->Some_0;
                            let k2 = pre.storage_index(a2.ids@);
                            assert(pre.slot_wf(e2 as int));
                            post.lemma_storage_index_is(k2);
                            let r2 = pre.row_of(e2);
                            if k2 == ksrc {
                                assert(srcpre.entities@[r2] == e2);
                                if r2 == row as int {
                                    assert(srcpre.entities@[row as int] == entity);
                                    assert(false);
                                }
                                if r2 == n - 1 {
                                    if removal.swap is Some {
                                        assert(e2 == m);
                                        assert(false);
                                    } else {
                                        assert(row as int == n - 1);
                                        assert(false);
                                    }
                                }
                                assert(post.row_bytes(e2) == srcpost.row(r2));
                                assert(srcpost.row(r2) == srcpre.row(r2));
                            } else {
                                assert(post.components.storage@[k2]
                                    == pre.components.storage@[k2]);
                            }
                        }
                    }
                }
            }
            // the removal carries exactly the vacated row
            assert(removal.data@ == pre.row_bytes(entity));
        }
        removal
    }

    /// Place a staged row: obtain or create the storage for the insertion's
    /// archetype, append the row, and point the entity's slot at it.
    fn place_row(&mut self, insertion: Insertion) -> (row: usize)
        requires
            old(self).wf_detached(insertion.entity),
            insertion.wf(),
            insertion.archetype.spec_len() > 0,
            old(self).components.consistent(insertion.archetype),
        ensures
            final(self).wf(),
            final(self).live(insertion.entity),
            final(self).arch_ids(insertion.entity) == insertion.archetype.ids@,
            final(self).arch_sizes(insertion.entity) == insertion.archetype.size@,
            final(self).row_bytes(insertion.entity) == insertion.data@,
            final(self).dropped@ == old(self).dropped@,
            final(self).entities.free@ == old(self).entities.free@,
            final(self).entities.slots@.len() == old(self).entities.slots@.len(),
            final(self).components.reg_ids == old(self).components.reg_ids,
            final(self).components.reg_sizes == old(self).components.reg_sizes,
            forall|e2: Entity|
                e2 != insertion.entity ==> final(self).observed(e2) == old(self).observed(e2),
    {
        let ghost pre = *old(self);
        let ghost ins = insertion;
        let entity = insertion.entity;
        let slot_arch = insertion.archetype.duplicate();
        let k = match self.components.find_storage(&insertion.archetype.ids) {
            Some(k) => k,
            None => {
                let st = Storage::new(insertion.archetype.duplicate());
                self.components.storage.push(st);
                self.components.storage.len() - 1
            },
        };
        let ghost kk = k as int;
        let ghost created = self.components.storage@.len() == pre.components.storage@.len() + 1;
        let ghost mid = *self;
        proof {
            assert(mid.components.storage@[kk].archetype.ids@ == ins.archetype.ids@);
            if created {
                assert(forall|j: int|
                    0 <= j < pre.components.storage@.len() ==> mid.components.storage@[j]
                        == pre.components.storage@[j]);
                assert(mid.components.storage@[kk].archetype.size@ == ins.archetype.size@);
            } else {
                assert(mid == pre);
                assert(pre.storages_wf());
                lemma_consistent_sizes(
                    pre.components,
                    pre.components.storage@[kk].archetype,
                    ins.archetype,
                );
                assert(mid.components.storage@[kk].archetype.size@ == ins.archetype.size@);
            }
        }
        let st = &mut self.components.storage[k];
        let ghost dst_pre = *st;
        let row_idx = st.insert(insertion);
        let slot = &mut self.entities.slots[entity];
        *slot = Some(EntityData { component_index: row_idx, archetype: Some(slot_arch) });
        proof {
            let post = *self;
            let gids = ins.archetype.ids@;
            let newdata = EntityData { component_index: row_idx, archetype: Some(slot_arch) };
            assert(post.entities.slots@ == pre.entities.slots@.update(
                entity as int,
                Some(newdata),
            ));
            assert(post.components.storage@.len() == mid.components.storage@.len());
            assert(forall|j: int|
                0 <= j < post.components.storage@.len() && j != kk
                    ==> post.components.storage@[j] == mid.components.storage@[j]);
            assert(post.components.storage@[kk].archetype == dst_pre.archetype);
            lemma_registered_same(pre.components, post.components);
            // the entity table stays well-formed: the slot stays occupied
            assert forall|i: int|
                0 <= i < post.entities.free@.len() implies post.entities.free@[i]
                < post.entities.slots@.len() && post.entities.slots@[#[trigger] post.entities.free@[i] as int] is None by {
                assert(pre.entities.slots@[pre.entities.free@[i] as int] is None);
            }
            assert forall|s2: int|
                0 <= s2 < post.entities.slots@.len() && post.entities.slots@[s2] is None implies post
                .entities.freed(s2) by {
                assert(pre.entities.slots@[s2] is None);
                assert(pre.entities.freed(s2));
            }
            assert(post.entities.wf());
            // every storage is intact: the destination only gained a row
            assert forall|k2: int|
                0 <= k2 < post.components.storage@.len() implies {
                let s = #[trigger] post.components.storage@[k2];
                &&& s.wf()
                &&& s.archetype.spec_len() > 0
                &&& post.components.consistent(s.archetype)
            } by {
                if k2 == kk {
                    lemma_consistent_mono(
                        pre.components,
                        post.components,
                        post.components.storage@[kk].archetype,
                    );
                } else {
                    assert(post.components.storage@[k2] == pre.components.storage@[k2]);
                    assert(pre.storages_wf());
                    lemma_consistent_mono(
                        pre.components,
                        post.components,
                        post.components.storage@[k2].archetype,
                    );
                }
            }
            // archetype keys stay pairwise distinct
            assert forall|k1: int, k2: int|
                0 <= k1 < k2 < post.components.storage@.len() implies (
            #[trigger] post.components.storage@[k1]).archetype.ids@ != (
            #[trigger] post.components.storage@[k2]).archetype.ids@ by {
                if created && k2 == kk {
                    assert(post.components.storage@[k1].archetype.ids@
                        == pre.components.storage@[k1].archetype.ids@);
                    assert(pre.components.storage@[k1].archetype.ids@ != gids);
                } else {
                    assert(post.components.storage@[k1].archetype.ids@
                        == pre.components.storage@[k1].archetype.ids@);
                    assert(post.components.storage@[k2].archetype.ids@
                        == pre.components.storage@[k2].archetype.ids@);
                }
            }
            assert(post.storages_distinct());
            post.lemma_storage_index_is(kk);
            // every slot points at its row
            assert forall|e2: int|
                0 <= e2 < post.entities.slots@.len() implies #[trigger] post.slot_wf(e2) by {
                if e2 == entity as int {
                    assert(slot_arch.ids@ == gids && slot_arch.size@ == ins.archetype.size@);
                    assert(post.storage_index(gids) == kk);
                    assert(post.components.storage@[kk].entities@[row_idx as int] == entity);
                    assert(post.components.storage@[kk].archetype.size@ == ins.archetype.size@);
                } else {
                    assert(pre.slot_wf(e2));
                    match post.entities.slots@[e2] {
                        None => {},
                        Some(d2) => match d2.archetype {
                            None => {},
                            Some(a2) => {
                                let k2 = pre.storage_index(a2.ids@);
                                assert(pre.has_storage(a2.ids@));
                                assert(0 <= k2 < pre.components.storage@.len()
                                    && pre.components.storage@[k2].archetype.ids@ == a2.ids@);
                                assert(post.components.storage@[k2].archetype
                                    == pre.components.storage@[k2].archetype);
                                post.lemma_storage_index_is(k2);
                                if k2 == kk {
                                    assert(d2.component_index < dst_pre.spec_rows());
                                    assert(post.components.storage@[kk].entities@[d2.component_index as int]
                                        == dst_pre.entities@[d2.component_index as int]);
                                } else {
                                    assert(post.components.storage@[k2]
                                        == pre.components.storage@[k2]);
                                }
                            },
                        },
                    }
                }
            }
            // every row points back at its slot
            assert forall|k2: int, r: int|
                #![trigger post.components.storage@[k2].entities@[r]]
                0 <= k2 < post.components.storage@.len() && 0 <= r
                    < post.components.storage@[k2].spec_rows() implies {
                let s = post.components.storage@[k2];
                let m2 = s.entities@[r];
                &&& m2 < post.entities.slots@.len()
                &&& post.entities.slots@[m2 as int] matches Some(d)
                &&& d.component_index == r
                &&& d.archetype matches Some(a)
                &&& a.ids@ == s.archetype.ids@
                &&& a.size@ == s.archetype.size@
            } by {
                let s = post.components.storage@[k2];
                let m2 = s.entities@[r];
                if k2 == kk && r == dst_pre.spec_rows() {
                    assert(m2 == entity);
                    assert(s.archetype.ids@ == gids && s.archetype.size@ == ins.archetype.size@);
                } else {
                    if k2 == kk {
                        assert(m2 == dst_pre.entities@[r]);
                        if created {
                            assert(dst_pre.spec_rows() == 0);
                            assert(false);
                        }
                        assert(m2 == pre.components.storage@[kk].entities@[r]);
                        assert(m2 != entity);
                        assert(post.entities.slots@[m2 as int] == pre.entities.slots@[m2 as int]);
                    } else {
                        assert(s == pre.components.storage@[k2]);
                        assert(m2 == pre.components.storage@[k2].entities@[r]);
                        assert(m2 != entity);
                        assert(post.entities.slots@[m2 as int] == pre.entities.slots@[m2 as int]);
                    }
                }
            }
            assert(post.wf());
            // the placed entity's observations
            assert(post.arch_ids(entity) == gids);
            assert(post.arch_sizes(entity) == ins.archetype.size@);
            assert(post.storage_index(gids) == kk);
            assert(post.row_bytes(entity) == post.components.storage@[kk].row(row_idx as int));
            assert(post.row_bytes(entity) == ins.data@);
            // nothing another entity can observe has changed
            assert forall|e2: Entity| e2 != entity implies post.observed(e2) == pre.observed(
                e2,
            ) by {
                assert(post.live(e2) == pre.live(e2));
                if pre.live(e2) {
                    assert(post.entities.slots@[e2 as int] == pre.entities.slots@[e2 as int]);
                    assert(post.arch_ids(e2) == pre.arch_ids(e2));
                    assert(post.arch_sizes(e2) == pre.arch_sizes(e2));
                    if pre.arch_ids(e2).len() > 0 {
                        let a2 = pre.entities.slots@[e2 as int]->Some_0.archetype->Some_0;
                        assert(pre.slot_wf(e2 as int));
                        let k2 = pre.storage_index(a2.ids@);
                        assert(pre.has_storage(a2.ids@));
                        assert(0 <= k2 < pre.components.storage@.len()
                            && pre.components.storage@[k2].archetype.ids@ == a2.ids@);
                        assert(post.components.storage@[k2].archetype
                            == pre.components.storage@[k2].archetype);
                        post.lemma_storage_index_is(k2);
                        let r2 = pre.row_of(e2);
                        if k2 == kk {
                            assert(r2 < dst_pre.spec_rows());
                            assert(post.components.storage@[kk].row(r2) == dst_pre.row(r2));
                            assert(dst_pre == pre.components.storage@[kk]);
                        } else {
                            assert(post.components.storage@[k2] == pre.components.storage@[k2]);
                        }
                    }
                }
            }
        }
        row_idx
    }

    /// Attach a component value to an entity. Unknown or despawned entities
    /// are a silent no-op; an entity already carrying the component has the
    /// operation rejected with `DuplicateComponent`. Otherwise the entity's
    /// row migrates to the storage of the grown archetype, with the value's
    /// bytes spliced in at the offset its sorted position dictates.
    ///
    /// The caller vouches for the type-identifier contract: one identifier
    /// never arrives with two different byte sizes; and a grown row must
    /// still fit in a machine-sized buffer.
    pub fn add(&mut self, entity: Entity, id: ComponentId, value: Vec<u8>) -> (r: Result<
        (),
        EcsError,
    >)
        requires
            old(self).wf(),
            forall|s: usize| old(self).components.registered(id, s) ==> s == value@.len(),
            stride_of(old(self).arch_sizes(entity)) + value@.len() <= usize::MAX,
        ensures
            final(self).wf(),
            !old(self).live(entity) ==> r == Ok::<(), EcsError>(()) && *final(self) == *old(self),
            old(self).live(entity) && old(self).arch_ids(entity).contains(id) ==> r == Err::<
                (),
                EcsError,
            >(EcsError::DuplicateComponent) && *final(self) == *old(self),
            old(self).live(entity) && !old(self).arch_ids(entity).contains(id) ==> r == Ok::<
                (),
                EcsError,
            >(()) && add_effect(*old(self), *final(self), entity, id, value@),
    {
        let ghost pre = *old(self);
        if entity >= self.entities.slots.len() {
            return Ok(());
        }
        if self.entities.slots[entity].is_none() {
            return Ok(());
        }
        proof {
            assert(pre.slot_wf(entity as int));
        }
        let cur: Option<Archetype> = match &self.entities.slots[entity] {
            Some(d) => match &d.archetype {
                Some(a) => Some(a.duplicate()),
                None => None,
            },
            None => None,
        };
        match &cur {
            Some(a) => {
                proof {
                    assert(a.wf());
                }
                match a.index_of(id) {
                    Some(p) => {
                        proof {
                            assert(pre.arch_ids(entity)[p as int] == id);
                            assert(pre.arch_ids(entity).contains(id));
                        }
                        return Err(EcsError::DuplicateComponent);
                    },
                    None => {
                        proof {
                            assert(!pre.arch_ids(entity).contains(id));
                        }
                    },
                }
            },
            None => {
                proof {
                    assert(pre.arch_ids(entity) =~= Seq::<ComponentId>::empty());
                    assert(!pre.arch_ids(entity).contains(id));
                }
            },
        }
        let vlen = value.len();
        self.components.ensure_registered(id, vlen);
        let ghost reg = *self;
        proof {
            lemma_wf_after_register(pre, reg);
            lemma_observed_same(pre, reg);
            assert(reg.observed(entity) == pre.observed(entity));
            assert(reg.arch_ids(entity) == pre.arch_ids(entity));
        }
        match cur {
            None => {
                let mut insertion = Insertion::new(entity);
                let ghost empty_ins = insertion;
                proof {
                    assert(pre.arch_sizes(entity) =~= Seq::<usize>::empty());
                }
                match insertion.add(id, &value) {
                    Err(_) => {
                        proof {
                            assert(false);
                        }
                        return Err(EcsError::DuplicateComponent);
                    },
                    Ok(()) => {},
                }
                proof {
                    lemma_consistent_insert(
                        reg.components,
                        empty_ins.archetype,
                        insertion.archetype,
                        id,
                        vlen,
                        0,
                    );
                    assert forall|k: int, r: int|
                        #![trigger reg.components.storage@[k].entities@[r]]
                        0 <= k < reg.components.storage@.len() && 0 <= r
                            < reg.components.storage@[k].spec_rows()
                            implies reg.components.storage@[k].entities@[r] != entity by {
                        let m2 = reg.components.storage@[k].entities@[r];
                        if m2 == entity {
                            assert(reg.entities.slots@[entity as int] matches Some(d)
                                && d.archetype is Some);
                        }
                    }
                    assert(reg.wf_detached(entity));
                }
                let _row = self.place_row(insertion);
                proof {
                    let post = *self;
                    assert(pre.arch_ids(entity) =~= empty_ins.archetype.ids@);
                    assert(pre.arch_sizes(entity) =~= empty_ins.archetype.size@);
                    assert(post.arch_ids(entity) == pre.arch_ids(entity).insert(
                        rank(pre.arch_ids(entity), id),
                        id,
                    ));
                    assert(post.arch_sizes(entity) == pre.arch_sizes(entity).insert(
                        rank(pre.arch_ids(entity), id),
                        value@.len() as usize,
                    ));
                    assert(pre.row_bytes(entity) =~= Seq::<u8>::empty());
                    assert(post.row_bytes(entity) =~= pre.row_bytes(entity).subrange(0, 0)
                        + value@ + pre.row_bytes(entity).subrange(
                        0,
                        pre.row_bytes(entity).len() as int,
                    ));
                    assert forall|e2: Entity| e2 != entity implies post.observed(e2)
                        == pre.observed(e2) by {
                        assert(post.observed(e2) == reg.observed(e2));
                        assert(reg.observed(e2) == pre.observed(e2));
                    }
                    assert(add_effect(pre, post, entity, id, value@));
                }
                Ok(())
            },
            Some(_) => {
                let removal = self.detach_row(entity);
                let ghost det = *self;
                let Removal { archetype: rarch, data: rdata, swap: _ } = removal;
                let mut insertion = Insertion { archetype: rarch, entity, data: rdata };
                let ghost base_ins = insertion;
                proof {
                    assert(base_ins.archetype.ids@ == reg.arch_ids(entity));
                    assert(base_ins.archetype.size@ == reg.arch_sizes(entity));
                    assert(insertion.wf());
                    assert(stride_of(insertion.archetype.size@) == stride_of(
                        pre.arch_sizes(entity),
                    ));
                }
                match insertion.add(id, &value) {
                    Err(_) => {
                        proof {
                            assert(base_ins.archetype.has(id));
                            assert(pre.arch_ids(entity).contains(id));
                            assert(false);
                        }
                        return Err(EcsError::DuplicateComponent);
                    },
                    Ok(()) => {},
                }
                proof {
                    let p = rank(base_ins.archetype.ids@, id);
                    lemma_rank_sorted(base_ins.archetype.ids@, id);
                    lemma_registered_same(reg.components, det.components);
                    assert(det.components.registered(id, vlen));
                    assert(reg.slot_wf(entity as int));
                    assert(reg.components.consistent(
                        reg.entities.slots@[entity as int]->Some_0.archetype->Some_0,
                    ));
                    lemma_consistent_mono(
                        reg.components,
                        det.components,
                        base_ins.archetype,
                    );
                    lemma_consistent_insert(
                        det.components,
                        base_ins.archetype,
                        insertion.archetype,
                        id,
                        vlen,
                        p,
                    );
                }
                let _row = self.place_row(insertion);
                proof {
                    let post = *self;
                    let p = rank(pre.arch_ids(entity), id);
                    assert(post.arch_ids(entity) == pre.arch_ids(entity).insert(p, id));
                    assert(post.arch_sizes(entity) == pre.arch_sizes(entity).insert(
                        p,
                        value@.len() as usize,
                    ));
                    assert(base_ins.data@ == pre.row_bytes(entity));
                    assert(post.row_bytes(entity) == pre.row_bytes(entity).subrange(
                        0,
                        sum_prefix(pre.arch_sizes(entity), p),
                    ) + value@ + pre.row_bytes(entity).subrange(
                        sum_prefix(pre.arch_sizes(entity), p),
                        pre.row_bytes(entity).len() as int,
                    ));
                    assert forall|e2: Entity| e2 != entity implies post.observed(e2)
                        == pre.observed(e2) by {
                        assert(post.observed(e2) == det.observed(e2));
                        assert(det.observed(e2) == reg.observed(e2));
                        assert(reg.observed(e2) == pre.observed(e2));
                    }
                    assert(add_effect(pre, post, entity, id, value@));
                }
                Ok(())
            },
        }
    }

    /// Detach a component value from an entity, handing its bytes back to the
    /// caller without running any destructor. Unknown entities, and entities
    /// not carrying the component, are a no-op returning `None`; the entity's
    /// archetype is then unchanged. Otherwise the entity's row migrates to
    /// the storage of the shrunken archetype.
    pub fn remove(&mut self, entity: Entity, id: ComponentId) -> (r: Option<Vec<u8>>)
        requires
            old(self).wf(),
        ensures
            final(self).wf(),
            !(old(self).live(entity) && old(self).arch_ids(entity).contains(id)) ==> r is None
                && *final(self) == *old(self),
            old(self).live(entity) && old(self).arch_ids(entity).contains(id) ==> {
                let p = rank(old(self).arch_ids(entity), id);
                let off = sum_prefix(old(self).arch_sizes(entity), p);
                let sz = old(self).arch_sizes(entity)[p];
                &&& r matches Some(bytes)
                &&& bytes@ == old(self).row_bytes(entity).subrange(off, off + sz)
                &&& remove_effect(*old(self), *final(self), entity, id)
            },
    {
        let ghost pre = *old(self);
        if entity >= self.entities.slots.len() {
            return None;
        }
        if self.entities.slots[entity].is_none() {
            return None;
        }
        proof {
            assert(pre.slot_wf(entity as int));
        }
        let cur: Option<Archetype> = match &self.entities.slots[entity] {
            Some(d) => match &d.archetype {
                Some(a) => Some(a.duplicate()),
                None => None,
            },
            None => None,
        };
        let a = match cur {
            Some(a) => a,
            None => {
                proof {
                    assert(pre.arch_ids(entity) =~= Seq::<ComponentId>::empty());
                    assert(!pre.arch_ids(entity).contains(id));
                }
                return None;
            },
        };
        proof {
            assert(a.wf());
        }
        match a.index_of(id) {
            Some(p) => {
                proof {
                    assert(pre.arch_ids(entity)[p as int] == id);
                    assert(pre.arch_ids(entity).contains(id));
                }
            },
            None => {
                proof {
                    assert(!pre.arch_ids(entity).contains(id));
                }
                return None;
            },
        }
        let mut removal = self.detach_row(entity);
        let ghost det = *self;
        let bytes = removal.remove(id);
        let ghost p = rank(pre.arch_ids(entity), id);
        proof {
            lemma_rank_sorted(pre.arch_ids(entity), id);
        }
        if removal.archetype.is_empty() {
            let slot = &mut self.entities.slots[entity];
            *slot = Some(EntityData { component_index: 0, archetype: None::<Archetype> });
            proof {
                let post = *self;
                assert forall|i: int|
                    0 <= i < post.entities.free@.len() implies post.entities.free@[i]
                    < post.entities.slots@.len() && post.entities.slots@[#[trigger] post.entities.free@[i] as int] is None by {
                    assert(det.entities.slots@[det.entities.free@[i] as int] is None);
                }
                assert forall|s2: int|
                    0 <= s2 < post.entities.slots@.len() && post.entities.slots@[s2] is None implies post
                    .entities.freed(s2) by {
                    assert(det.entities.slots@[s2] is None);
                    assert(det.entities.freed(s2));
                }
                assert(post.entities.wf());
                lemma_wf_after_settle(det, post, entity);
                lemma_frame_slot_update(det, post, entity);
                // the archetype had this one component alone
                assert(pre.arch_ids(entity).len() == 1);
                assert(p == 0);
                assert(post.arch_ids(entity) =~= pre.arch_ids(entity).remove(p));
                assert(post.arch_sizes(entity) =~= pre.arch_sizes(entity).remove(p));
                let off = sum_prefix(pre.arch_sizes(entity), p);
                let sz = pre.arch_sizes(entity)[p];
                let row = pre.row_bytes(entity);
                assert(row.len() == sz);
                assert(post.row_bytes(entity) =~= row.subrange(0, off) + row.subrange(
                    off + sz,
                    row.len() as int,
                ));
                assert forall|e2: Entity| e2 != entity implies post.observed(e2) == pre.observed(
                    e2,
                ) by {
                    assert(post.observed(e2) == det.observed(e2));
                    assert(det.observed(e2) == pre.observed(e2));
                }
                assert(remove_effect(pre, post, entity, id));
            }
            Some(bytes)
        } else {
            let Removal { archetype: rarch, data: rdata, swap: _ } = removal;
            let insertion = Insertion { archetype: rarch, entity, data: rdata };
            proof {
                lemma_registered_same(pre.components, det.components);
                assert(pre.slot_wf(entity as int));
                assert(pre.components.consistent(
                    pre.entities.slots@[entity as int]->Some_0.archetype->Some_0,
                ));
                let slot_arch = pre.entities.slots@[entity as int]->Some_0.archetype->Some_0;
                lemma_consistent_mono(pre.components, det.components, slot_arch);
                assert(slot_arch.ids@ == pre.arch_ids(entity));
                assert(slot_arch.size@ == pre.arch_sizes(entity));
                lemma_consistent_remove(
                    det.components,
                    slot_arch,
                    insertion.archetype,
                    p,
                );
                assert(insertion.wf());
            }
            let _row = self.place_row(insertion);
            proof {
                let post = *self;
                assert(post.arch_ids(entity) == pre.arch_ids(entity).remove(p));
                assert(post.arch_sizes(entity) == pre.arch_sizes(entity).remove(p));
                let off = sum_prefix(pre.arch_sizes(entity), p);
                let sz = pre.arch_sizes(entity)[p];
                let row = pre.row_bytes(entity);
                assert(post.row_bytes(entity) == row.subrange(0, off) + row.subrange(
                    off + sz,
                    row.len() as int,
                ));
                assert forall|e2: Entity| e2 != entity implies post.observed(e2) == pre.observed(
                    e2,
                ) by {
                    assert(post.observed(e2) == det.observed(e2));
                    assert(det.observed(e2) == pre.observed(e2));
                }
                assert(remove_effect(pre, post, entity, id));
            }
            Some(bytes)
        }
    }

    /// Despawn an entity: log one destructor event per component — before the
    /// storage's byte copy overwrites the row — then release the row and the
    /// slot, and push the identifier onto the free list. A silent no-op on an
    /// unknown or already despawned entity.
    pub fn despawn(&mut self, entity: Entity)
        requires
            old(self).wf(),
        ensures
            final(self).wf(),
            !old(self).live(entity) ==> *final(self) == *old(self),
            old(self).live(entity) ==> despawn_effect(*old(self), *final(self), entity),
    {
        let ghost pre = *old(self);
        if entity >= self.entities.slots.len() {
            return;
        }
        if self.entities.slots[entity].is_none() {
            return;
        }
        proof {
            assert(pre.slot_wf(entity as int));
        }
        let cur: Option<Archetype> = match &self.entities.slots[entity] {
            Some(d) => match &d.archetype {
                Some(a) => Some(a.duplicate()),
                None => None,
            },
            None => None,
        };
        match cur {
            None => {
                match self.entities.despawn(entity) {
                    Some(_data) => {},
                    None => {
                        proof {
                            assert(false);
                        }
                    },
                }
                proof {
                    let post = *self;
                    assert forall|k: int, r: int|
                        #![trigger pre.components.storage@[k].entities@[r]]
                        0 <= k < pre.components.storage@.len() && 0 <= r
                            < pre.components.storage@[k].spec_rows()
                            implies pre.components.storage@[k].entities@[r] != entity by {
                        let m2 = pre.components.storage@[k].entities@[r];
                        if m2 == entity {
                            assert(pre.entities.slots@[entity as int] matches Some(d)
                                && d.archetype is Some);
                        }
                    }
                    assert(pre.wf_detached(entity));
                    lemma_wf_after_settle(pre, post, entity);
                    lemma_frame_slot_update(pre, post, entity);
                    assert(post.dropped@ =~= pre.dropped@ + drop_events(
                        entity,
                        pre.arch_ids(entity),
                    ));
                    assert(despawn_effect(pre, post, entity));
                }
            },
            Some(a) => {
                // destructors run before the byte copy overwrites the slot
                let mut i: usize = 0;
                while i < a.ids.len()
                    invariant
                        i <= a.ids@.len(),
                        self.dropped@ == pre.dropped@ + drop_events(entity, a.ids@).take(i as int),
                        self.entities == pre.entities,
                        self.components == pre.components,
                    decreases a.ids@.len() - i,
                {
                    self.dropped.push(DropEvent { entity, component: a.ids[i] });
                    proof {
                        assert(self.dropped@ =~= pre.dropped@ + drop_events(
                            entity,
                            a.ids@,
                        ).take(i + 1));
                    }
                    i = i + 1;
                }
                let ghost logged = *self;
                proof {
                    assert(drop_events(entity, a.ids@).take(a.ids@.len() as int) =~= drop_events(
                        entity,
                        a.ids@,
                    ));
                    assert(logged.entities.wf());
                    assert(logged.storages_wf());
                    assert(logged.storages_distinct());
                    assert forall|e2: int|
                        0 <= e2 < logged.entities.slots@.len() implies #[trigger] logged.slot_wf(
                        e2,
                    ) by {
                        assert(pre.slot_wf(e2));
                        match logged.entities.slots@[e2] {
                            None => {},
                            Some(d2) => match d2.archetype {
                                None => {},
                                Some(a2) => {
                                    assert(logged.has_storage(a2.ids@) == pre.has_storage(a2.ids@));
                                    assert(logged.storage_index(a2.ids@) == pre.storage_index(
                                        a2.ids@,
                                    ));
                                },
                            },
                        }
                    }
                    assert(logged.wf());
                    lemma_observed_same(pre, logged);
                }
                let _removal = self.detach_row(entity);
                let ghost det = *self;
                match self.entities.despawn(entity) {
                    Some(_data) => {},
                    None => {
                        proof {
                            assert(false);
                        }
                    },
                }
                proof {
                    let post = *self;
                    lemma_wf_after_settle(det, post, entity);
                    lemma_frame_slot_update(det, post, entity);
                    assert(post.dropped@ =~= pre.dropped@ + drop_events(
                        entity,
                        pre.arch_ids(entity),
                    ));
                    assert(post.entities.free@ == pre.entities.free@.push(entity));
                    assert forall|e2: Entity| e2 != entity implies post.observed(e2)
                        == pre.observed(e2) by {
                        assert(post.observed(e2) == det.observed(e2));
                        assert(det.observed(e2) == logged.observed(e2));
                        assert(logged.observed(e2) == pre.observed(e2));
                    }
                    assert(despawn_effect(pre, post, entity));
                }
            },
        }
    }

    /// Release every still-live entity in slot order, running all
    /// destructors: what must happen when the world is torn down, so that no
    /// drop is missed.
    pub fn teardown(&mut self)
        requires
            old(self).wf(),
        ensures
            final(self).wf(),
            forall|e: Entity| !final(self).live(e),
            final(self).dropped@ == old(self).dropped@ + events_upto(
                *old(self),
                old(self).entities.slots@.len() as int,
            ),
    {
        let ghost pre = *old(self);
        let n = self.entities.slots.len();
        let mut e: usize = 0;
        while e < n
            invariant
                self.wf(),
                n == pre.entities.slots@.len(),
                self.entities.slots@.len() == n,
                e <= n,
                self.dropped@ == pre.dropped@ + events_upto(pre, e as int),
                forall|e2: Entity| e2 < e ==> !self.live(e2),
                forall|e2: Entity| e <= e2 ==> #[trigger] self.observed(e2) == pre.observed(e2),
            decreases n - e,
        {
            let ghost snap = *self;
            if self.entities.slots[e].is_some() {
                self.despawn(e);
                proof {
                    assert(snap.observed(e) == pre.observed(e));
                    assert(snap.arch_ids(e) == pre.arch_ids(e));
                    assert(pre.live(e));
                    assert(self.dropped@ =~= pre.dropped@ + events_upto(pre, e + 1));
                    assert forall|e2: Entity| e2 < e + 1 implies !self.live(e2) by {
                        if e2 != e {
                            assert(self.observed(e2) == snap.observed(e2));
                        }
                    }
                    assert forall|e2: Entity| e + 1 <= e2 implies #[trigger] self.observed(e2)
                        == pre.observed(e2) by {
                        assert(self.observed(e2) == snap.observed(e2));
                    }
                }
            } else {
                proof {
                    assert(snap.observed(e) == pre.observed(e));
                    assert(!pre.live(e));
                    assert(self.dropped@ =~= pre.dropped@ + events_upto(pre, e + 1));
                }
            }
            e = e + 1;
        }
        proof {
            assert forall|e2: Entity| !self.live(e2) by {
                if e2 < n {
                    assert(!self.live(e2));
                }
            }
        }
    }
}

} // verus!
