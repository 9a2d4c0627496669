//! The system vocabulary: the trait-shaped abstraction over callables that
//! declare their world-view via parameter types, and the schedule and stage
//! containers that order them.
//!
//! Query execution itself is deliberately left to the runtime; the store only
//! fixes the vocabulary — which shapes a parameter may take — and the
//! declared read/write sets a scheduler needs to run a parallel stage safely.

use vstd::prelude::*;

use crate::archetype::ComponentId;
use crate::entities::Entity;
use crate::world::World;

verus! {

/// The resource-table handle the scheduler passes to systems; its semantics
/// beyond being passed through are outside the store's contract.
pub struct Resources {}

/// A system: a value exposing a fetch step that resolves its parameters
/// against the world, a call step that runs the underlying callable, and a
/// take-output step.
pub trait System {
    type In;

    type Out;

    /// Run the underlying callable on the stashed input.
    fn call(&mut self, input: Self::In) -> Self::Out;

    /// Resolve this system's parameters; the only step that may touch the
    /// world.
    fn fetch_input(&mut self, world: &mut World, resources: &mut Resources);

    /// Surrender the stashed output of the last call.
    fn take_output(&mut self) -> Self::Out;
}

/// A value convertible into a system; `Params` disambiguates between blanket
/// conversions.
pub trait IntoSystem<In, Out, Params>: Sized {
    type System: System<In = In, Out = Out>;

    fn into_system(this: Self) -> Self::System;
}

/// Marker for the conversion of a value that already is a system.
pub struct AlreadyWasSystem;

impl<A, B, C> IntoSystem<B, C, AlreadyWasSystem> for A where A: System<In = B, Out = C> {
    type System = A;

    fn into_system(this: Self) -> (r: Self::System) {
        this
    }
}

/// A type that describes a view into the world: a query, the unit shape, or
/// a tuple of such.
pub trait SystemParameter {

}

/// A query over the store, shaped by its query parameter.
pub struct Query<Q: QueryParameter> {
    pub marker: core::marker::PhantomData<Q>,
}

/// A shape a query may take: the entity identifier, a read-only or
/// read-write component reference, or a tuple of such.
pub trait QueryParameter {

}

impl QueryParameter for Entity {

}

impl<Q: QueryParameter> SystemParameter for Query<Q> {

}

impl SystemParameter for () {

}

impl<A> SystemParameter for (A,) where A: SystemParameter {

}

impl<A, B> SystemParameter for (A, B) where A: SystemParameter, B: SystemParameter {

}

impl<A> QueryParameter for (A,) where A: QueryParameter {

}

impl<A, B> QueryParameter for (A, B) where A: QueryParameter, B: QueryParameter {

}

/// What a schedulable unit declares about its world-view: the component
/// types it reads and the component types it writes.
pub struct SystemDescriptor {
    pub reads: Vec<ComponentId>,
    pub writes: Vec<ComponentId>,
}

/// Two declared views conflict when one writes a component type the other
/// touches at all.
pub open spec fn conflict(a: SystemDescriptor, b: SystemDescriptor) -> bool {
    exists|id: ComponentId|
        #![trigger a.writes@.contains(id)]
        #![trigger b.writes@.contains(id)]
        (a.writes@.contains(id) && (b.writes@.contains(id) || b.reads@.contains(id))) || (
        b.writes@.contains(id) && a.reads@.contains(id))
}

impl SystemDescriptor {
    /// A descriptor with the given declared read and write sets.
    pub fn new(reads: Vec<ComponentId>, writes: Vec<ComponentId>) -> (r: SystemDescriptor)
        ensures
            r.reads == reads,
            r.writes == writes,
    {
        SystemDescriptor { reads, writes }
    }
}

/// Whether `v` holds `id`.
fn contains_id(v: &Vec<ComponentId>, id: ComponentId) -> (r: bool)
    ensures
        r == v@.contains(id),
{
    let mut i: usize = 0;
    while i < v.len()
        invariant
            i <= v@.len(),
            forall|j: int| 0 <= j < i ==> v@[j] != id,
        decreases v@.len() - i,
    {
        if v[i] == id {
            return true;
        }
        i = i + 1;
    }
    proof {
        if v@.contains(id) {
            let w: int = choose|w: int| 0 <= w < v@.len() && v@[w] == id;
            assert(v@[w] == id);
            assert(false);
        }
    }
    false
}

/// Whether two declared views conflict: one writes what the other touches.
pub fn conflicts(a: &SystemDescriptor, b: &SystemDescriptor) -> (r: bool)
    ensures
        r == conflict(*a, *b),
{
    let mut i: usize = 0;
    while i < a.writes.len()
        invariant
            i <= a.writes@.len(),
            forall|j: int|
                0 <= j < i ==> !b.writes@.contains(#[trigger] a.writes@[j]) && !b.reads@.contains(
                    a.writes@[j],
                ),
        decreases a.writes@.len() - i,
    {
        let id = a.writes[i];
        if contains_id(&b.writes, id) || contains_id(&b.reads, id) {
            proof {
                assert(a.writes@.contains(id));
            }
            return true;
        }
        i = i + 1;
    }
    let mut i: usize = 0;
    while i < b.writes.len()
        invariant
            i <= b.writes@.len(),
            forall|j: int|
                0 <= j < a.writes@.len() ==> !b.writes@.contains(#[trigger] a.writes@[j])
                    && !b.reads@.contains(a.writes@[j]),
            forall|j: int| 0 <= j < i ==> !a.reads@.contains(#[trigger] b.writes@[j]),
        decreases b.writes@.len() - i,
    {
        let id = b.writes[i];
        if contains_id(&a.reads, id) {
            proof {
                assert(b.writes@.contains(id));
            }
            return true;
        }
        i = i + 1;
    }
    proof {
        if conflict(*a, *b) {
            let id: ComponentId = choose|id: ComponentId|
                (a.writes@.contains(id) && (b.writes@.contains(id) || b.reads@.contains(id))) || (
                b.writes@.contains(id) && a.reads@.contains(id));
            if a.writes@.contains(id) && (b.writes@.contains(id) || b.reads@.contains(id)) {
                let w: int = choose|w: int| 0 <= w < a.writes@.len() && a.writes@[w] == id;
                assert(!b.writes@.contains(a.writes@[w]) && !b.reads@.contains(a.writes@[w]));
                assert(false);
            } else {
                let w: int = choose|w: int| 0 <= w < b.writes@.len() && b.writes@[w] == id;
                assert(!a.reads@.contains(b.writes@[w]));
                assert(false);
            }
        }
    }
    false
}

/// The discipline of a stage: serial runs its systems in insertion order;
/// parallel may run them concurrently provided their declared read/write
/// sets do not conflict.
#[derive(Clone, Copy, Debug, PartialEq, Eq, Structural)]
pub enum StageKind {
    Serial,
    Parallel,
}

/// A bag of systems run together under one discipline.
pub struct Stage {
    pub kind: StageKind,
    pub systems: Vec<SystemDescriptor>,
}

impl Stage {
    /// A parallel stage may only be scheduled when no two of its systems'
    /// declared views conflict; a serial stage always may.
    pub open spec fn spec_schedulable(self) -> bool {
        self.kind == StageKind::Parallel ==> forall|i: int, j: int|
            0 <= i < j < self.systems@.len() ==> !conflict(self.systems@[i], self.systems@[j])
    }

    /// An empty stage whose systems run in insertion order.
    pub fn serial() -> (r: Stage)
        ensures
            r.kind == StageKind::Serial,
            r.systems@ == Seq::<SystemDescriptor>::empty(),
            r.spec_schedulable(),
    {
        Stage { kind: StageKind::Serial, systems: Vec::new() }
    }

    /// An empty stage whose systems may run concurrently.
    pub fn parallel() -> (r: Stage)
        ensures
            r.kind == StageKind::Parallel,
            r.systems@ == Seq::<SystemDescriptor>::empty(),
            r.spec_schedulable(),
    {
        Stage { kind: StageKind::Parallel, systems: Vec::new() }
    }

    /// Append a system's descriptor to the bag.
    pub fn add_system(self, system: SystemDescriptor) -> (r: Stage)
        ensures
            r.kind == self.kind,
            r.systems@ == self.systems@.push(system),
    {
        let mut this = self;
        this.systems.push(system);
        this
    }

    /// Whether this stage can be scheduled: a serial stage always, a parallel
    /// stage exactly when its declared read/write sets are pairwise
    /// non-conflicting.
    pub fn schedulable(&self) -> (r: bool)
        ensures
            r == self.spec_schedulable(),
    {
        match &self.kind {
            StageKind::Serial => true,
            StageKind::Parallel => {
                let mut i: usize = 0;
                while i < self.systems.len()
                    invariant
                        i <= self.systems@.len(),
                        self.kind is Parallel,
                        forall|x: int, y: int|
                            0 <= x < y < self.systems@.len() && y < i ==> !conflict(
                                self.systems@[x],
                                self.systems@[y],
                            ),
                    decreases self.systems@.len() - i,
                {
                    let mut j: usize = 0;
                    while j < i
                        invariant
                            j <= i < self.systems@.len(),
                            self.kind is Parallel,
                            forall|x: int|
                                0 <= x < j ==> !conflict(self.systems@[x], self.systems@[i as int]),
                            forall|x: int, y: int|
                                0 <= x < y < self.systems@.len() && y < i ==> !conflict(
                                    self.systems@[x],
                                    self.systems@[y],
                                ),
                        decreases i - j,
                    {
                        if conflicts(&self.systems[j], &self.systems[i]) {
                            proof {
                                assert(conflict(
                                    self.systems@[j as int],
                                    self.systems@[i as int],
                                ));
                            }
                            return false;
                        }
                        j = j + 1;
                    }
                    i = i + 1;
                }
                true
            },
        }
    }
}

/// An ordered sequence of stages; execution runs stages in order, each stage
/// completing before the next begins.
pub struct Schedule {
    pub stages: Vec<Stage>,
}

impl Schedule {
    /// An empty schedule.
    pub fn new() -> (r: Schedule)
        ensures
            r.stages@ == Seq::<Stage>::empty(),
    {
        Schedule { stages: Vec::new() }
    }

    /// Append a stage; it will run after every stage already present.
    pub fn add_stage(&mut self, stage: Stage)
        ensures
            final(self).stages@ == old(self).stages@.push(stage),
    {
        self.stages.push(stage);
    }
}

} // verus!
