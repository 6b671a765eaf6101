//! A minimal entity-component-system runtime.
//!
//! A [`Master`](world::Master) world owns entities, a [`ComponentMap`](store::ComponentMap)
//! that attaches component values to entities, and an ordered list of systems. Components
//! of one world all share a closed component value type chosen by the host (usually an
//! enum over the concrete component kinds) and are indexed by a per-type key, so the
//! store is generic over an open set of component types without runtime downcasts.
//! Systems declare their data needs up front as an ordered list of shared or exclusive
//! query descriptors; each scheduling tick fetches those snapshots in declared order,
//! detects aliasing conflicts at fetch time, runs the system body, and writes exclusive
//! snapshots back to the store.

pub mod arguments;
pub mod store;
pub mod systems;
pub mod world;

use vstd::prelude::*;

verus! {

/// An opaque, copyable, totally ordered identifier grouping zero or more components.
///
/// Ids are unique within one world: the allocator is a monotonically increasing
/// counter, and ids are never reused within a world's lifetime once issued.
#[derive(Clone, Copy, PartialEq, Eq, Structural, Hash, PartialOrd, Ord, Debug)]
pub struct Entity {
    id: usize,
}

impl Entity {
    /// The numeric id behind this entity, as a mathematical integer.
    pub closed spec fn spec_id(&self) -> int {
        self.id as int
    }

    /// The numeric id behind this entity.
    pub fn id(&self) -> (i: usize)
        ensures
            i == self.spec_id(),
    {
        self.id
    }

    /// Builds the entity with the given numeric id.
    ///
    /// Entities that are meant to own components should come from
    /// [`world::Master::create_entity`], which hands out fresh ids.
    pub fn from_id(id: usize) -> (e: Entity)
        ensures
            e.spec_id() == id,
    {
        Entity { id }
    }
}

impl Default for Entity {
    fn default() -> (e: Entity)
        ensures
            e.spec_id() == 0,
    {
        Entity { id: 0 }
    }
}

/// The capability a value type must satisfy to be stored as a component.
///
/// A shared query snapshot holds copies of the matched component values while the
/// originals stay in the store, so a component must be able to produce a value equal
/// to itself. For field-for-field copyable data the implementation is immediate.
pub trait Component: Sized {
    /// Returns a value equal to this one.
    fn duplicate(&self) -> (r: Self)
        ensures
            r == *self,
    ;
}

impl Component for u64 {
    fn duplicate(&self) -> (r: u64)
        ensures
            r == *self,
    {
        *self
    }
}

impl Component for i64 {
    fn duplicate(&self) -> (r: i64)
        ensures
            r == *self,
    {
        *self
    }
}

/// A programmer contract violation, surfaced at the exact call that violated it.
///
/// None of these is transient: nothing is caught or retried internally, and a caller
/// is expected to treat any of them as fatal for the tick that produced it.
#[derive(Clone, Copy, PartialEq, Eq, Structural, Debug)]
pub enum EcsError {
    /// `make_singular` found no matching entity.
    SingularNone,
    /// `make_singular` found more than one matching entity.
    SingularMultiple,
    /// One system declared an exclusive query and another query over the same
    /// component type with an overlapping match set in the same invocation.
    /// Carries the implicated component type key.
    AliasingConflict {
        /// The component type key both conflicting arguments query.
        key: u64,
    },
}

} // verus!
