//! Systems: units of per-tick behaviour, with their declared data needs.
//!
//! A system is an ordinary value implementing [`System`], bound to an ordered list
//! of argument descriptors by a [`SystemBuilder`]. Each descriptor names a
//! component type key, an access mode and a filter; each scheduling tick fetches
//! one snapshot per descriptor, in declared left-to-right order, and hands the
//! snapshots to the system body. Exclusive snapshots are written back to the store
//! when the body returns.

use vstd::prelude::*;

use crate::arguments::Fetched;
use crate::arguments::QueryFilter;
use crate::Component;

verus! {

/// How a system argument borrows its matched component values.
#[derive(Clone, Copy, PartialEq, Eq, Structural, Debug)]
pub enum AccessMode {
    /// Any number of shared borrows of the same pair may coexist.
    Shared,
    /// An exclusive borrow excludes every other borrow of the same pair.
    Exclusive,
}

/// One declared system argument: which component type key to fetch, how to borrow
/// it, and which entities to keep.
#[derive(Clone, Copy, PartialEq, Eq, Structural, Debug)]
pub struct ArgSpec {
    /// Shared or exclusive access to the matched values.
    pub mode: AccessMode,
    /// The component type key the argument queries.
    pub key: u64,
    /// The filter restricting the argument's match set.
    pub filter: QueryFilter,
}

/// The capability a value must satisfy to act as a system body. The scheduler
/// calls `run` once per tick with one fetched snapshot per declared argument, in
/// declared order; changes made to exclusive snapshots via their mutators are
/// written back to the store afterwards.
pub trait System<C: Component>: Sized {
    /// Executes the system body over the fetched argument snapshots.
    fn run(&mut self, args: &mut Vec<Fetched<C>>);
}

/// A system body bound to its declared argument list: the uniform executable unit
/// the world schedules.
pub struct FnSystem<C: Component, K: System<C>> {
    pub(crate) args: Vec<ArgSpec>,
    pub(crate) kernel: K,
    pub(crate) marker: core::marker::PhantomData<C>,
}

impl<C: Component, K: System<C>> FnSystem<C, K> {
    /// The declared argument list, in fetch order.
    pub closed spec fn spec_args(&self) -> Seq<ArgSpec> {
        self.args@
    }

    /// The declared argument list is the view of the bound argument vector.
    pub(crate) proof fn lemma_spec_args(&self)
        ensures
            self.spec_args() == self.args@,
    {
    }
}

/// Builds a system's declared argument list, one descriptor at a time, in the
/// order the arguments will be fetched.
pub struct SystemBuilder {
    args: Vec<ArgSpec>,
}

impl SystemBuilder {
    /// The argument list declared so far, in declared order.
    pub closed spec fn spec_args(&self) -> Seq<ArgSpec> {
        self.args@
    }

    /// Starts a declaration with no arguments.
    pub fn new() -> (b: SystemBuilder)
        ensures
            b.spec_args() == Seq::<ArgSpec>::empty(),
    {
        SystemBuilder { args: Vec::new() }
    }

    /// Declares the next argument: a shared query of key `key` with filter `f`.
    pub fn reads(&mut self, key: u64, f: QueryFilter)
        ensures
            final(self).spec_args() == old(self).spec_args().push(
                ArgSpec { mode: AccessMode::Shared, key, filter: f },
            ),
    {
        self.args.push(ArgSpec { mode: AccessMode::Shared, key, filter: f });
    }

    /// Declares the next argument: an exclusive query of key `key` with filter `f`.
    pub fn writes(&mut self, key: u64, f: QueryFilter)
        ensures
            final(self).spec_args() == old(self).spec_args().push(
                ArgSpec { mode: AccessMode::Exclusive, key, filter: f },
            ),
    {
        self.args.push(ArgSpec { mode: AccessMode::Exclusive, key, filter: f });
    }

    /// Binds the declared argument list to a system body.
    pub fn build<C: Component, K: System<C>>(self, kernel: K) -> (s: FnSystem<C, K>)
        ensures
            s.spec_args() == self.spec_args(),
    {
        FnSystem { args: self.args, kernel, marker: core::marker::PhantomData }
    }
}

} // verus!
