use std::marker::PhantomData;

use engine::archetype::{Archetype, EcsError};
use engine::entities::Entities;
use engine::storage::{Insertion, Storage};
use engine::system::{
    conflicts, AlreadyWasSystem, IntoSystem, Query, Resources, Schedule, Stage, StageKind, System,
    SystemDescriptor,
};
use engine::world::World;

#[test]
fn archetype_keeps_identifiers_sorted() {
    let mut a = Archetype::new();
    assert!(a.is_empty());
    assert_eq!(a.add(5, 4), Ok(()));
    assert_eq!(a.add(3, 2), Ok(()));
    assert_eq!(a.add(9, 1), Ok(()));
    assert_eq!(a.ids, vec![3, 5, 9]);
    assert_eq!(a.size, vec![2, 4, 1]);
    assert_eq!(a.len(), 3);
    assert!(!a.is_empty());
    assert_eq!(a.get_by_index(1), 5);
}

#[test]
fn archetype_offsets_and_stride() {
    let mut a = Archetype::new();
    assert_eq!(a.add(5, 4), Ok(()));
    assert_eq!(a.add(3, 2), Ok(()));
    assert_eq!(a.add(9, 1), Ok(()));
    assert_eq!(a.size(), 7);
    assert_eq!(a.offset_of(0), Some(0));
    assert_eq!(a.offset_of(1), Some(2));
    assert_eq!(a.offset_of(2), Some(6));
    assert_eq!(a.offset_of(3), Some(7));
    assert_eq!(a.offset_of(4), None);
}

#[test]
fn archetype_binary_search() {
    let mut a = Archetype::new();
    assert_eq!(a.add(5, 4), Ok(()));
    assert_eq!(a.add(3, 2), Ok(()));
    assert_eq!(a.add(9, 1), Ok(()));
    assert_eq!(a.index_of(3), Some(0));
    assert_eq!(a.index_of(5), Some(1));
    assert_eq!(a.index_of(9), Some(2));
    assert_eq!(a.index_of(4), None);
    assert_eq!(a.index_of(100), None);
}

#[test]
fn archetype_duplicate_rejected() {
    let mut a = Archetype::new();
    assert_eq!(a.add(5, 4), Ok(()));
    assert_eq!(a.add(5, 4), Err(EcsError::DuplicateComponent));
    assert_eq!(a.ids, vec![5]);
}

#[test]
fn archetype_remove_unknown_rejected() {
    let mut a = Archetype::new();
    assert_eq!(a.add(5, 4), Ok(()));
    assert_eq!(a.remove(8), Err(EcsError::UnknownComponent));
    assert_eq!(a.remove(5), Ok(()));
    assert!(a.is_empty());
}

#[test]
fn archetype_remove_by_index_shifts() {
    let mut a = Archetype::new();
    assert_eq!(a.add(5, 4), Ok(()));
    assert_eq!(a.add(3, 2), Ok(()));
    let removed = a.remove_by_index(0);
    assert_eq!(removed, 3);
    assert_eq!(a.ids, vec![5]);
    assert_eq!(a.size, vec![4]);
}

#[test]
fn insertion_splices_at_sorted_offset() {
    let mut ins = Insertion::new(0);
    assert_eq!(ins.add(5, &vec![1, 2, 3, 4]), Ok(()));
    assert_eq!(ins.data, vec![1, 2, 3, 4]);
    // the lower identifier lands in front
    assert_eq!(ins.add(3, &vec![9, 9]), Ok(()));
    assert_eq!(ins.data, vec![9, 9, 1, 2, 3, 4]);
    // the buffer length always equals the row stride
    assert_eq!(ins.archetype.size(), ins.data.len());
    assert_eq!(ins.add(5, &vec![0, 0, 0, 0]), Err(EcsError::DuplicateComponent));
    assert_eq!(ins.into_data(), vec![9, 9, 1, 2, 3, 4]);
}

#[test]
fn storage_swap_remove_relocates_last_row() {
    let mut base = Archetype::new();
    assert_eq!(base.add(5, 2), Ok(()));
    let mut st = Storage::new(base.duplicate());

    for (entity, payload) in [(10, [1u8, 1]), (11, [2, 2]), (12, [3, 3])] {
        let mut ins = Insertion::new(entity);
        assert_eq!(ins.add(5, &payload.to_vec()), Ok(()));
        st.insert(ins);
    }
    assert_eq!(st.entities, vec![10, 11, 12]);
    assert_eq!(st.data, vec![1, 1, 2, 2, 3, 3]);

    let removal = st.remove(0);
    assert_eq!(removal.data, vec![1, 1]);
    let swap = removal.swap.unwrap();
    assert_eq!(swap.to, 0);
    assert_eq!(swap.entity, 12);
    assert_eq!(st.entities, vec![12, 11]);
    assert_eq!(st.data, vec![3, 3, 2, 2]);

    // removing the last row reports no relocation
    let removal = st.remove(1);
    assert_eq!(removal.data, vec![2, 2]);
    assert!(removal.swap.is_none());
    assert_eq!(st.entities, vec![12]);
    assert_eq!(st.data, vec![3, 3]);
}

#[test]
fn removal_splices_component_out() {
    let mut base = Archetype::new();
    assert_eq!(base.add(5, 2), Ok(()));
    let mut st = Storage::new(base.duplicate());
    let mut ins = Insertion::new(77);
    assert_eq!(ins.add(5, &vec![8, 9]), Ok(()));
    st.insert(ins);

    let mut removal = st.remove(0);
    let bytes = removal.remove(5);
    assert_eq!(bytes, vec![8, 9]);
    assert!(removal.archetype.is_empty());
    assert_eq!(removal.data.len(), 0);
}

#[test]
fn entities_spawn_despawn_and_reuse() {
    let mut table = Entities::new();
    let a = table.spawn();
    let b = table.spawn();
    assert_eq!(a, 0);
    assert_eq!(b, 1);
    assert!(table.get(a).is_some());
    let data = table.despawn(a);
    assert!(data.is_some());
    assert!(table.get(a).is_none());
    assert!(table.despawn(a).is_none());
    assert_eq!(table.spawn(), a);
}

#[test]
fn conflict_needs_a_writer() {
    let reads_only_a = SystemDescriptor::new(vec![1, 2], vec![]);
    let reads_only_b = SystemDescriptor::new(vec![2, 3], vec![]);
    assert!(!conflicts(&reads_only_a, &reads_only_b));

    let writes_two = SystemDescriptor::new(vec![], vec![2]);
    assert!(conflicts(&reads_only_a, &writes_two));
    assert!(conflicts(&writes_two, &reads_only_a));

    let writes_two_too = SystemDescriptor::new(vec![], vec![2]);
    assert!(conflicts(&writes_two, &writes_two_too));

    let disjoint = SystemDescriptor::new(vec![9], vec![8]);
    assert!(!conflicts(&writes_two, &disjoint));
}

#[test]
fn parallel_stage_detects_conflicts() {
    let stage = Stage::parallel()
        .add_system(SystemDescriptor::new(vec![1], vec![2]))
        .add_system(SystemDescriptor::new(vec![3], vec![4]));
    assert!(stage.schedulable());

    let clashing = Stage::parallel()
        .add_system(SystemDescriptor::new(vec![1], vec![2]))
        .add_system(SystemDescriptor::new(vec![2], vec![5]));
    assert!(!clashing.schedulable());

    // a serial stage runs in insertion order, conflicts and all
    let serial = Stage::serial()
        .add_system(SystemDescriptor::new(vec![1], vec![2]))
        .add_system(SystemDescriptor::new(vec![2], vec![5]));
    assert!(serial.schedulable());
    assert_eq!(serial.kind, StageKind::Serial);
    assert_eq!(serial.systems.len(), 2);
}

#[test]
fn schedule_keeps_stage_order() {
    let mut schedule = Schedule::new();
    schedule.add_stage(Stage::serial());
    schedule.add_stage(Stage::parallel());
    assert_eq!(schedule.stages.len(), 2);
    assert_eq!(schedule.stages[0].kind, StageKind::Serial);
    assert_eq!(schedule.stages[1].kind, StageKind::Parallel);
}

struct Counter {
    calls: u32,
    output: Option<u32>,
}

impl System for Counter {
    type In = u32;
    type Out = u32;

    fn call(&mut self, input: u32) -> u32 {
        self.calls += 1;
        self.output = Some(input + 1);
        input + 1
    }

    fn fetch_input(&mut self, _world: &mut World, _resources: &mut Resources) {}

    fn take_output(&mut self) -> u32 {
        self.output.take().unwrap_or(0)
    }
}

#[test]
fn a_system_is_already_a_system() {
    let mut world = World::new();
    let mut resources = Resources {};
    let mut sys = <Counter as IntoSystem<u32, u32, AlreadyWasSystem>>::into_system(Counter {
        calls: 0,
        output: None,
    });
    sys.fetch_input(&mut world, &mut resources);
    assert_eq!(sys.call(41), 42);
    assert_eq!(sys.take_output(), 42);
    assert_eq!(sys.calls, 1);
}

#[test]
fn query_shapes_compose() {
    // the recognized shapes: the entity identifier and tuples of parameters
    let _single: Query<usize> = Query { marker: PhantomData };
    let _pair: Query<(usize, usize)> = Query { marker: PhantomData };
}

#[test]
fn location_indexes_into_rows() {
    let mut base = Archetype::new();
    assert_eq!(base.add(5, 2), Ok(()));
    assert_eq!(base.add(7, 3), Ok(()));
    let mut st = Storage::new(base.duplicate());
    for entity in [1usize, 2] {
        let mut ins = Insertion::new(entity);
        assert_eq!(ins.add(5, &vec![0, 0]), Ok(()));
        assert_eq!(ins.add(7, &vec![0, 0, 0]), Ok(()));
        st.insert(ins);
    }
    // the second row starts one stride in; component 7 sits 2 bytes into it
    assert_eq!(st.location(1, 0), 5);
    assert_eq!(st.location(1, 2), 7);
}
