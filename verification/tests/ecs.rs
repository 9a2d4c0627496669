use engine::archetype::EcsError;
use engine::world::{Component, DropEvent, World};

// Component type identifiers used by the scenarios. The store only needs
// them to be distinct and consistently sized.
const TAG: u64 = 3; // a 5-byte string-like component
const POS: u64 = 7; // a u64-sized component
const HP: u64 = 11; // a u32-sized component

fn bytes_u32(v: u32) -> Vec<u8> {
    v.to_le_bytes().to_vec()
}

fn bytes_u64(v: u64) -> Vec<u8> {
    v.to_le_bytes().to_vec()
}

fn storage_for<'a>(world: &'a World, ids: &[u64]) -> Option<&'a engine::storage::Storage> {
    world.components.storage.iter().find(|s| s.archetype.ids == ids)
}

fn row_of(world: &World, entity: usize) -> usize {
    world.entities.slots[entity].as_ref().unwrap().component_index
}

fn arch_ids_of(world: &World, entity: usize) -> Vec<u64> {
    match &world.entities.slots[entity].as_ref().unwrap().archetype {
        Some(a) => a.ids.clone(),
        None => Vec::new(),
    }
}

#[test]
fn spawn_two_swap_remove_fixup() {
    let mut world = World::new();
    let e1 = world.spawn();
    let e2 = world.spawn();
    assert_eq!(world.add(e1, HP, bytes_u32(10)), Ok(()));
    assert_eq!(world.add(e2, HP, bytes_u32(20)), Ok(()));
    assert_eq!(arch_ids_of(&world, e1), vec![HP]);
    assert_eq!(arch_ids_of(&world, e2), vec![HP]);
    assert_eq!(row_of(&world, e1), 0);
    assert_eq!(row_of(&world, e2), 1);

    let removed = world.remove(e1, HP);
    assert_eq!(removed, Some(bytes_u32(10)));
    // the swap-remove moved e2 into the vacated row
    assert_eq!(row_of(&world, e2), 0);
    let st = storage_for(&world, &[HP]).unwrap();
    assert_eq!(st.entities, vec![e2]);
    assert_eq!(st.data, bytes_u32(20));
}

#[test]
fn cross_archetype_migration() {
    let mut world = World::new();
    let e = world.spawn();
    assert_eq!(world.add(e, POS, bytes_u64(7)), Ok(()));
    assert_eq!(arch_ids_of(&world, e), vec![POS]);
    assert_eq!(world.add(e, TAG, b"hello".to_vec()), Ok(()));
    // sorted identifier order, not attach order
    assert_eq!(arch_ids_of(&world, e), vec![TAG, POS]);
    let st = storage_for(&world, &[TAG, POS]).unwrap();
    assert_eq!(st.entities, vec![e]);
    // the row is the 5 tag bytes followed by the 8 position bytes
    let mut expected = b"hello".to_vec();
    expected.extend(bytes_u64(7));
    assert_eq!(st.data, expected);
    // the old single-component storage is empty but persists
    let old = storage_for(&world, &[POS]).unwrap();
    assert_eq!(old.entities.len(), 0);
    assert_eq!(old.data.len(), 0);
}

#[test]
fn despawn_runs_destructor_once() {
    let mut world = World::new();
    let e = world.spawn();
    assert_eq!(world.add(e, HP, bytes_u32(5)), Ok(()));
    assert_eq!(world.dropped.len(), 0);
    world.despawn(e);
    assert_eq!(world.dropped, vec![DropEvent { entity: e, component: HP }]);
}

#[test]
fn world_teardown_drops_everything_once() {
    let mut world = World::new();
    let e1 = world.spawn();
    let e2 = world.spawn();
    let e3 = world.spawn();
    assert_eq!(world.add(e1, HP, bytes_u32(1)), Ok(()));
    assert_eq!(world.add(e2, HP, bytes_u32(2)), Ok(()));
    assert_eq!(world.add(e3, POS, bytes_u64(3)), Ok(()));
    world.teardown();
    assert_eq!(world.dropped.len(), 3);
    for (entity, component) in [(e1, HP), (e2, HP), (e3, POS)] {
        let hits = world
            .dropped
            .iter()
            .filter(|ev| ev.entity == entity && ev.component == component)
            .count();
        assert_eq!(hits, 1);
    }
    for e in [e1, e2, e3] {
        assert!(world.entities.slots[e].is_none());
    }
}

#[test]
fn remove_nonexistent_is_none_and_archetype_unchanged() {
    let mut world = World::new();
    let e = world.spawn();
    assert_eq!(world.add(e, POS, bytes_u64(4)), Ok(()));
    assert_eq!(world.remove(e, HP), None);
    assert_eq!(arch_ids_of(&world, e), vec![POS]);
    let st = storage_for(&world, &[POS]).unwrap();
    assert_eq!(st.data, bytes_u64(4));
}

#[test]
fn free_list_reuses_identifier() {
    let mut world = World::new();
    let e1 = world.spawn();
    assert_eq!(world.add(e1, HP, bytes_u32(9)), Ok(()));
    world.despawn(e1);
    let e2 = world.spawn();
    assert_eq!(e2, e1);
    // no storage row is associated with the reissued entity
    assert!(world.entities.slots[e2].as_ref().unwrap().archetype.is_none());
    for st in &world.components.storage {
        assert!(!st.entities.contains(&e2));
    }
}

#[test]
fn add_remove_round_trip_is_identity() {
    let mut world = World::new();
    let e = world.spawn();
    assert_eq!(world.add(e, TAG, b"abcde".to_vec()), Ok(()));
    let before = arch_ids_of(&world, e);
    let value = bytes_u64(123456789);
    assert_eq!(world.add(e, POS, value.clone()), Ok(()));
    let back = world.remove(e, POS);
    assert_eq!(back, Some(value));
    assert_eq!(arch_ids_of(&world, e), before);
    let st = storage_for(&world, &[TAG]).unwrap();
    assert_eq!(st.data, b"abcde".to_vec());
}

#[test]
fn attach_order_does_not_matter() {
    let mut wa = World::new();
    let ea = wa.spawn();
    assert_eq!(wa.add(ea, POS, bytes_u64(1)), Ok(()));
    assert_eq!(wa.add(ea, TAG, b"taggy".to_vec()), Ok(()));

    let mut wb = World::new();
    let eb = wb.spawn();
    assert_eq!(wb.add(eb, TAG, b"taggy".to_vec()), Ok(()));
    assert_eq!(wb.add(eb, POS, bytes_u64(1)), Ok(()));

    assert_eq!(arch_ids_of(&wa, ea), arch_ids_of(&wb, eb));
    assert_eq!(arch_ids_of(&wa, ea), vec![TAG, POS]);
}

#[test]
fn add_on_unknown_entity_is_noop() {
    let mut world = World::new();
    assert_eq!(world.add(42, HP, bytes_u32(1)), Ok(()));
    assert_eq!(world.components.storage.len(), 0);
    assert_eq!(world.entities.slots.len(), 0);
}

#[test]
fn add_duplicate_component_is_rejected() {
    let mut world = World::new();
    let e = world.spawn();
    assert_eq!(world.add(e, HP, bytes_u32(1)), Ok(()));
    assert_eq!(world.add(e, HP, bytes_u32(2)), Err(EcsError::DuplicateComponent));
    // the stored value is untouched
    let st = storage_for(&world, &[HP]).unwrap();
    assert_eq!(st.data, bytes_u32(1));
}

#[test]
fn despawn_unknown_and_twice_are_noops() {
    let mut world = World::new();
    world.despawn(7);
    assert_eq!(world.entities.slots.len(), 0);
    let e = world.spawn();
    world.despawn(e);
    let slots_after = world.entities.free.clone();
    world.despawn(e);
    assert_eq!(world.entities.free, slots_after);
    assert_eq!(world.dropped.len(), 0);
}

#[test]
fn remove_after_despawn_is_none() {
    let mut world = World::new();
    let e = world.spawn();
    assert_eq!(world.add(e, HP, bytes_u32(8)), Ok(()));
    world.despawn(e);
    assert_eq!(world.remove(e, HP), None);
}

#[test]
fn removing_last_component_clears_archetype() {
    let mut world = World::new();
    let e = world.spawn();
    assert_eq!(world.add(e, HP, bytes_u32(3)), Ok(()));
    assert_eq!(world.remove(e, HP), Some(bytes_u32(3)));
    let slot = world.entities.slots[e].as_ref().unwrap();
    assert!(slot.archetype.is_none());
    assert_eq!(slot.component_index, 0);
    // despawning now logs no destructor events
    world.despawn(e);
    assert_eq!(world.dropped.len(), 0);
}

#[test]
fn three_entities_migrate_with_fixups() {
    let mut world = World::new();
    let e1 = world.spawn();
    let e2 = world.spawn();
    let e3 = world.spawn();
    for (e, v) in [(e1, 1u32), (e2, 2u32), (e3, 3u32)] {
        assert_eq!(world.add(e, HP, bytes_u32(v)), Ok(()));
    }
    // migrating the first entity away swaps the last into row 0
    assert_eq!(world.add(e1, POS, bytes_u64(10)), Ok(()));
    assert_eq!(row_of(&world, e3), 0);
    assert_eq!(row_of(&world, e2), 1);
    let st = storage_for(&world, &[HP]).unwrap();
    assert_eq!(st.entities, vec![e3, e2]);
    let mut expected = bytes_u32(3);
    expected.extend(bytes_u32(2));
    assert_eq!(st.data, expected);
    // the migrated row carries both components, position first (lower id)
    let grown = storage_for(&world, &[POS, HP]).unwrap();
    assert_eq!(grown.entities, vec![e1]);
    let mut expected_row = bytes_u64(10);
    expected_row.extend(bytes_u32(1));
    assert_eq!(grown.data, expected_row);
}

// A component type carried through the trait vocabulary: the identifier and
// byte size are all the store needs of it.
struct Health;

impl Component for Health {
    fn id() -> u64 {
        HP
    }

    fn size() -> usize {
        4
    }
}

#[test]
fn component_trait_bridges_types_to_identifiers() {
    let mut world = World::new();
    let e = world.spawn();
    let value = 77u32.to_le_bytes().to_vec();
    assert_eq!(value.len(), Health::size());
    assert_eq!(world.add(e, Health::id(), value), Ok(()));
    assert_eq!(world.remove(e, Health::id()), Some(77u32.to_le_bytes().to_vec()));
}

#[test]
fn zero_sized_components_occupy_no_bytes() {
    const MARKER: u64 = 21;
    let mut world = World::new();
    let e1 = world.spawn();
    let e2 = world.spawn();
    assert_eq!(world.add(e1, MARKER, Vec::new()), Ok(()));
    assert_eq!(world.add(e2, MARKER, Vec::new()), Ok(()));
    let st = storage_for(&world, &[MARKER]).unwrap();
    assert_eq!(st.entities, vec![e1, e2]);
    assert_eq!(st.data.len(), 0);
    assert_eq!(world.remove(e1, MARKER), Some(Vec::new()));
    let st = storage_for(&world, &[MARKER]).unwrap();
    assert_eq!(st.entities, vec![e2]);
}
