//! The algebraic laws of the store, proved from the effect contracts of the
//! world operations.

use vstd::prelude::*;

use crate::archetype::{
    lemma_insert_insert, lemma_insert_sorted, lemma_rank_index, lemma_rank_insert, lemma_rank_le,
    lemma_rank_sorted, lemma_sum_prefix_insert, lemma_sum_prefix_mono, lemma_sum_prefix_nonneg,
    rank, strictly_sorted, stride_of, sum_prefix, ComponentId,
};
use crate::entities::Entity;
use crate::storage::{lemma_mul_mono, lemma_mul_nonneg, lemma_mul_succ};
use crate::world::{
    add_effect, despawn_effect, drop_events, remove_effect, World,
};

verus! {

/// A live entity's archetype identifiers are strictly sorted: equality of
/// component sets never depends on attach order.
pub proof fn lemma_arch_ids_sorted(w: World, e: Entity)
    requires
        w.wf(),
    ensures
        strictly_sorted(w.arch_ids(e)),
        w.arch_ids(e).len() == w.arch_sizes(e).len(),
{
    if w.live(e) {
        assert(w.slot_wf(e as int));
    }
}

/// A live entity's row holds exactly one stride of bytes.
pub proof fn lemma_row_bytes_len(w: World, e: Entity)
    requires
        w.wf(),
    ensures
        w.row_bytes(e).len() == stride_of(w.arch_sizes(e)),
{
    if w.live(e) {
        assert(w.slot_wf(e as int));
    }
    if w.arch_ids(e).len() == 0 {
        assert(w.arch_sizes(e) =~= Seq::<usize>::empty());
    } else {
        assert(w.slot_wf(e as int));
        let a = w.entities.slots@[e as int]->Some_0.archetype->Some_0;
        let k = w.storage_index(a.ids@);
        assert(w.has_storage(a.ids@));
        let s = w.components.storage@[k];
        let r = w.row_of(e);
        let st = stride_of(s.archetype.size@);
        assert(s.wf());
        lemma_sum_prefix_nonneg(s.archetype.size@, s.archetype.size@.len() as int);
        lemma_mul_nonneg(r, st);
        lemma_mul_succ(r, st);
        lemma_mul_mono(r + 1, s.entities@.len() as int, st);
        assert(s.row(r).len() == st);
    }
}

/// Add-remove identity: adding a component value and then
/// removing that component hands back a byte-identical value and leaves the
/// entity's archetype, sizes and row bytes exactly as they were before the
/// add.
pub proof fn lemma_add_remove_identity(
    w0: World,
    w1: World,
    w2: World,
    e: Entity,
    id: ComponentId,
    v: Seq<u8>,
    out: Seq<u8>,
)
    requires
        w0.wf(),
        w1.wf(),
        v.len() <= usize::MAX,
        !w0.arch_ids(e).contains(id),
        add_effect(w0, w1, e, id, v),
        remove_effect(w1, w2, e, id),
        out == w1.row_bytes(e).subrange(
            sum_prefix(w1.arch_sizes(e), rank(w1.arch_ids(e), id)),
            sum_prefix(w1.arch_sizes(e), rank(w1.arch_ids(e), id)) + w1.arch_sizes(e)[rank(
                w1.arch_ids(e),
                id,
            )],
        ),
    ensures
        out == v,
        w2.arch_ids(e) == w0.arch_ids(e),
        w2.arch_sizes(e) == w0.arch_sizes(e),
        w2.row_bytes(e) == w0.row_bytes(e),
{
    let ids0 = w0.arch_ids(e);
    let sizes0 = w0.arch_sizes(e);
    let p = rank(ids0, id);
    let off = sum_prefix(sizes0, p);
    let row0 = w0.row_bytes(e);
    lemma_arch_ids_sorted(w0, e);
    lemma_rank_sorted(ids0, id);
    lemma_insert_sorted(ids0, id);
    lemma_row_bytes_len(w0, e);
    lemma_sum_prefix_mono(sizes0, p, sizes0.len() as int);
    lemma_sum_prefix_nonneg(sizes0, p);
    // in the grown archetype the new component sits exactly at its rank
    assert(w1.arch_ids(e)[p] == id);
    lemma_rank_index(w1.arch_ids(e), id, p);
    assert(rank(w1.arch_ids(e), id) == p);
    lemma_sum_prefix_insert(sizes0, p, v.len() as usize, p);
    assert(sum_prefix(w1.arch_sizes(e), p) == off);
    assert(w1.arch_sizes(e)[p] == v.len() as usize);
    // the extracted bytes are the spliced-in value
    let row1 = w1.row_bytes(e);
    assert(row1 == row0.subrange(0, off) + v + row0.subrange(off, row0.len() as int));
    assert(row0.subrange(0, off).len() == off);
    assert(row1.len() == row0.len() + v.len());
    assert forall|i: int| 0 <= i < v.len() implies row1[off + i] == v[i] by {
        assert(off <= off + i < off + v.len());
    }
    assert(0 <= off <= off + v.len() <= row1.len());
    assert(out.len() == v.len());
    assert forall|i: int| 0 <= i < v.len() implies out[i] == v[i] by {
        assert(out[i] == row1[off + i]);
    }
    assert(out =~= v);
    // the shrunken archetype is the one before the add
    assert(w2.arch_ids(e) =~= ids0);
    assert(w2.arch_sizes(e) =~= sizes0);
    // and so are the row bytes
    assert(w2.row_bytes(e) == row1.subrange(0, off) + row1.subrange(
        off + v.len(),
        row1.len() as int,
    ));
    assert(w2.row_bytes(e) =~= row0);
}

/// Commutativity under sorting: attaching two distinct
/// components in either order leaves the entity with the same archetype: the
/// archetype depends only on the set of component types attached.
pub proof fn lemma_attach_order_irrelevant(
    w0: World,
    wa1: World,
    wa2: World,
    wb1: World,
    wb2: World,
    e: Entity,
    id1: ComponentId,
    v1: Seq<u8>,
    id2: ComponentId,
    v2: Seq<u8>,
)
    requires
        w0.wf(),
        id1 != id2,
        add_effect(w0, wa1, e, id1, v1),
        add_effect(wa1, wa2, e, id2, v2),
        add_effect(w0, wb1, e, id2, v2),
        add_effect(wb1, wb2, e, id1, v1),
    ensures
        wa2.arch_ids(e) == wb2.arch_ids(e),
        wa2.arch_sizes(e) == wb2.arch_sizes(e),
{
    let ids = w0.arch_ids(e);
    let sizes = w0.arch_sizes(e);
    let r1 = rank(ids, id1);
    let r2 = rank(ids, id2);
    lemma_arch_ids_sorted(w0, e);
    lemma_rank_sorted(ids, id1);
    lemma_rank_sorted(ids, id2);
    lemma_rank_insert(ids, r1, id1, id2);
    lemma_rank_insert(ids, r2, id2, id1);
    if id1 < id2 {
        lemma_rank_le(ids, id1, id2);
        assert(rank(wa1.arch_ids(e), id2) == r2 + 1);
        assert(rank(wb1.arch_ids(e), id1) == r1);
        lemma_insert_insert(ids, r1, id1, r2, id2);
        lemma_insert_insert(sizes, r1, v1.len() as usize, r2, v2.len() as usize);
        // the size inserts follow the identifier ranks
        assert(wa2.arch_ids(e) == ids.insert(r1, id1).insert(r2 + 1, id2));
        assert(wb2.arch_ids(e) == ids.insert(r2, id2).insert(r1, id1));
        assert(wa2.arch_sizes(e) == sizes.insert(r1, v1.len() as usize).insert(
            r2 + 1,
            v2.len() as usize,
        ));
        assert(wb2.arch_sizes(e) == sizes.insert(r2, v2.len() as usize).insert(
            r1,
            v1.len() as usize,
        ));
    } else {
        lemma_rank_le(ids, id2, id1);
        assert(rank(wa1.arch_ids(e), id2) == r2);
        assert(rank(wb1.arch_ids(e), id1) == r1 + 1);
        lemma_insert_insert(ids, r2, id2, r1, id1);
        lemma_insert_insert(sizes, r2, v2.len() as usize, r1, v1.len() as usize);
        assert(wa2.arch_ids(e) == ids.insert(r1, id1).insert(r2, id2));
        assert(wb2.arch_ids(e) == ids.insert(r2, id2).insert(r1 + 1, id1));
        assert(wa2.arch_sizes(e) == sizes.insert(r1, v1.len() as usize).insert(
            r2,
            v2.len() as usize,
        ));
        assert(wb2.arch_sizes(e) == sizes.insert(r2, v2.len() as usize).insert(
            r1 + 1,
            v1.len() as usize,
        ));
    }
}

/// No destructor runs more than once: the events a
/// despawn appends name the despawned entity, one event per component of its
/// archetype, with pairwise distinct component identifiers; and neither add
/// nor remove appends any (their effects keep the log unchanged).
pub proof fn lemma_despawn_drops_once(pre: World, post: World, e: Entity)
    requires
        pre.wf(),
        despawn_effect(pre, post, e),
    ensures
        post.dropped@.len() == pre.dropped@.len() + pre.arch_ids(e).len(),
        forall|i: int, j: int|
            pre.dropped@.len() <= i < j < post.dropped@.len() ==> post.dropped@[i].component
                != post.dropped@[j].component,
        forall|i: int|
            pre.dropped@.len() <= i < post.dropped@.len() ==> post.dropped@[i].entity == e
                && pre.arch_ids(e).contains(post.dropped@[i].component),
{
    lemma_arch_ids_sorted(pre, e);
    let ids = pre.arch_ids(e);
    let base = pre.dropped@.len() as int;
    assert(post.dropped@ == pre.dropped@ + drop_events(e, ids));
    assert forall|i: int, j: int|
        base <= i < j < post.dropped@.len() implies post.dropped@[i].component
        != post.dropped@[j].component by {
        assert(post.dropped@[i] == drop_events(e, ids)[i - base]);
        assert(post.dropped@[j] == drop_events(e, ids)[j - base]);
        assert(ids[i - base] < ids[j - base]);
    }
    assert forall|i: int|
        base <= i < post.dropped@.len() implies post.dropped@[i].entity == e && pre.arch_ids(
        e,
    ).contains(post.dropped@[i].component) by {
        assert(post.dropped@[i] == drop_events(e, ids)[i - base]);
        assert(ids[i - base] == post.dropped@[i].component);
    }
}

/// Free-list reuse: the spawn that follows a despawn
/// reissues the same identifier, and the reissued entity carries no
/// components, so no storage row is associated with it.
pub proof fn lemma_free_list_reuse(w0: World, w1: World, e: Entity, spawned: Entity)
    requires
        w0.wf(),
        despawn_effect(w0, w1, e),
        // what `spawn` on the despawned world guarantees of its result
        w1.entities.free@.len() > 0 ==> spawned == w1.entities.free@.last(),
    ensures
        spawned == e,
{
    assert(w1.entities.free@ == w0.entities.free@.push(e));
    assert(w1.entities.free@.last() == e);
}

} // verus!
