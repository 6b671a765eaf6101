//! Queries and filters: borrow-scoped snapshots over the component store.
//!
//! A [`Query`] (shared) or [`QueryMut`] (exclusive) is an eagerly computed snapshot:
//! the ordered sequence of `(entity, value)` pairs for every entity that owns the
//! queried component type and satisfies the query's [`QueryFilter`], computed once
//! at fetch time. Snapshot order is the store's row order, which is stable within
//! one snapshot. Later store mutation does not retroactively change an already
//! fetched snapshot.

use vstd::prelude::*;

use crate::store::destroy_effect;
use crate::store::insert_effect;
use crate::store::remove_effect;
use crate::store::ComponentMap;
use crate::Component;
use crate::EcsError;
use crate::Entity;

verus! {

/// A predicate over `(entity, store at fetch time)` restricting query results.
#[derive(Clone, Copy, PartialEq, Eq, Structural, Debug)]
pub enum QueryFilter {
    /// Accepts every entity.
    Always,
    /// Accepts exactly the entities owning a component of the given key.
    With { key: u64 },
    /// Accepts exactly the entities lacking a component of the given key.
    Without { key: u64 },
}

impl QueryFilter {
    /// Whether this filter accepts entity `e` against store `m`.
    pub open spec fn spec_accepts<C>(self, m: ComponentMap<C>, e: Entity) -> bool {
        match self {
            QueryFilter::Always => true,
            QueryFilter::With { key } => m.owns(key, e),
            QueryFilter::Without { key } => !m.owns(key, e),
        }
    }

    /// Evaluates this filter on entity `e` against store `m`.
    pub fn accepts<C: Component>(&self, m: &ComponentMap<C>, e: Entity) -> (b: bool)
        requires
            m.wf(),
        ensures
            b == self.spec_accepts(*m, e),
    {
        match self {
            QueryFilter::Always => true,
            QueryFilter::With { key } => m.has_component(*key, e),
            QueryFilter::Without { key } => !m.has_component(*key, e),
        }
    }
}

/// The subsequence of `ents` accepted by filter `f` against store `m`, in order.
pub open spec fn filtered_entities<C>(
    m: ComponentMap<C>,
    f: QueryFilter,
    ents: Seq<Entity>,
) -> Seq<Entity>
    decreases ents.len(),
{
    if ents.len() == 0 {
        Seq::empty()
    } else {
        let rest = filtered_entities(m, f, ents.drop_last());
        if f.spec_accepts(m, ents.last()) {
            rest.push(ents.last())
        } else {
            rest
        }
    }
}

/// Whether entity `e` belongs in a query of key `key` with filter `f` against `m`:
/// `e` owns the queried component type and the filter accepts it.
pub open spec fn arg_matches<C>(m: ComponentMap<C>, key: u64, f: QueryFilter, e: Entity) -> bool {
    m.owns(key, e) && f.spec_accepts(m, e)
}

/// The ordered match set of a query: the store's entities of key `key`, in row
/// order, restricted to those the filter accepts.
pub open spec fn match_seq<C>(m: ComponentMap<C>, key: u64, f: QueryFilter) -> Seq<Entity> {
    filtered_entities(m, f, m.spec_entities(key))
}

/// Every element of a filtered sequence comes from the original and is accepted;
/// every accepted element of the original appears in the filtered sequence.
pub proof fn lemma_filtered_entities<C>(m: ComponentMap<C>, f: QueryFilter, ents: Seq<Entity>)
    ensures
        forall|i: int|
            0 <= i < filtered_entities(m, f, ents).len() ==> f.spec_accepts(
                m,
                #[trigger] filtered_entities(m, f, ents)[i],
            ) && ents.contains(filtered_entities(m, f, ents)[i]),
        forall|e: Entity|
            ents.contains(e) && f.spec_accepts(m, e) ==> filtered_entities(m, f, ents).contains(e),
        filtered_entities(m, f, ents).len() <= ents.len(),
    decreases ents.len(),
{
    if ents.len() == 0 {
    } else {
        let prefix = ents.drop_last();
        lemma_filtered_entities(m, f, prefix);
        let out = filtered_entities(m, f, ents);
        let rest = filtered_entities(m, f, prefix);
        assert forall|i: int| 0 <= i < out.len() implies f.spec_accepts(m, #[trigger] out[i])
            && ents.contains(out[i]) by {
            if i < rest.len() {
                assert(out[i] == rest[i]);
                assert(prefix.contains(rest[i]));
                let w = choose|w: int| 0 <= w < prefix.len() && prefix[w] == rest[i];
                assert(ents[w] == rest[i]);
            } else {
                assert(out[i] == ents.last());
                assert(ents[ents.len() - 1] == ents.last());
            }
        }
        assert forall|e: Entity| ents.contains(e) && f.spec_accepts(m, e) implies out.contains(
            e,
        ) by {
            let w = choose|w: int| 0 <= w < ents.len() && ents[w] == e;
            if w < ents.len() - 1 {
                assert(prefix[w] == e);
                assert(prefix.contains(e));
                assert(rest.contains(e));
                let x = choose|x: int| 0 <= x < rest.len() && rest[x] == e;
                assert(out[x] == e);
            } else {
                assert(ents.last() == e);
                assert(out[out.len() - 1] == e);
            }
        }
    }
}

/// Filtering depends only on which entities own which keys: two stores with the
/// same entity tables filter any entity sequence identically.
pub proof fn lemma_filtered_entities_congruence<C>(
    m1: ComponentMap<C>,
    m2: ComponentMap<C>,
    f: QueryFilter,
    ents: Seq<Entity>,
)
    requires
        forall|k: u64| #[trigger] m1.spec_entities(k) == m2.spec_entities(k),
    ensures
        filtered_entities(m1, f, ents) == filtered_entities(m2, f, ents),
    decreases ents.len(),
{
    if ents.len() > 0 {
        lemma_filtered_entities_congruence(m1, m2, f, ents.drop_last());
        match f {
            QueryFilter::Always => {},
            QueryFilter::With { key } => {
                assert(m1.spec_entities(key) == m2.spec_entities(key));
            },
            QueryFilter::Without { key } => {
                assert(m1.spec_entities(key) == m2.spec_entities(key));
            },
        }
    }
}

/// Two stores with the same entity tables have the same match set for every
/// query key and filter.
pub proof fn lemma_match_seq_congruence<C>(
    m1: ComponentMap<C>,
    m2: ComponentMap<C>,
    key: u64,
    f: QueryFilter,
)
    requires
        forall|k: u64| #[trigger] m1.spec_entities(k) == m2.spec_entities(k),
    ensures
        match_seq(m1, key, f) == match_seq(m2, key, f),
{
    assert(m1.spec_entities(key) == m2.spec_entities(key));
    lemma_filtered_entities_congruence(m1, m2, f, m1.spec_entities(key));
}

/// Filtering a sequence of pairwise distinct entities yields pairwise distinct
/// entities; in particular, a match set names each entity at most once.
pub proof fn lemma_filtered_entities_distinct<C>(
    m: ComponentMap<C>,
    f: QueryFilter,
    ents: Seq<Entity>,
)
    requires
        forall|i: int, j: int| 0 <= i < j < ents.len() ==> ents[i] != ents[j],
    ensures
        forall|i: int, j: int|
            0 <= i < j < filtered_entities(m, f, ents).len() ==> filtered_entities(m, f, ents)[i]
                != filtered_entities(m, f, ents)[j],
    decreases ents.len(),
{
    if ents.len() > 0 {
        let prefix = ents.drop_last();
        lemma_filtered_entities_distinct(m, f, prefix);
        lemma_filtered_entities(m, f, prefix);
        let out = filtered_entities(m, f, ents);
        let rest = filtered_entities(m, f, prefix);
        assert forall|i: int, j: int| 0 <= i < j < out.len() implies out[i] != out[j] by {
            if j < rest.len() {
                assert(out[i] == rest[i] && out[j] == rest[j]);
            } else {
                // out[j] is the last element of ents, which the distinct prefix
                // cannot contain, while out[i] comes from the prefix
                assert(out[j] == ents.last());
                assert(out[i] == rest[i]);
                assert(prefix.contains(rest[i]));
                let w = choose|w: int| 0 <= w < prefix.len() && prefix[w] == rest[i];
                assert(ents[w] == rest[i]);
                assert(ents[w] != ents[ents.len() - 1]);
            }
        }
    }
}

/// Membership in a match set is exactly ownership plus filter acceptance.
pub proof fn lemma_match_seq_contains<C>(m: ComponentMap<C>, key: u64, f: QueryFilter, e: Entity)
    requires
        m.wf(),
    ensures
        match_seq(m, key, f).contains(e) <==> arg_matches(m, key, f, e),
{
    lemma_filtered_entities(m, f, m.spec_entities(key));
    if match_seq(m, key, f).contains(e) {
        let i = choose|i: int|
            0 <= i < match_seq(m, key, f).len() && match_seq(m, key, f)[i] == e;
        assert(f.spec_accepts(m, match_seq(m, key, f)[i]));
        assert(m.spec_entities(key).contains(e));
    }
}

/// A read-only query snapshot: one `(entity, value)` row per entity that owned the
/// queried component type and passed the filter when the snapshot was fetched, in
/// the store's row order.
pub struct Query<C> {
    rows: Vec<(Entity, C)>,
}

/// An exclusive query snapshot: like [`Query`], but its rows may be overwritten and
/// are written back to the store when the owning system invocation ends.
pub struct QueryMut<C> {
    key: u64,
    rows: Vec<(Entity, C)>,
}

impl<C> View for Query<C> {
    type V = Seq<(Entity, C)>;

    closed spec fn view(&self) -> Seq<(Entity, C)> {
        self.rows@
    }
}

impl<C> View for QueryMut<C> {
    type V = Seq<(Entity, C)>;

    closed spec fn view(&self) -> Seq<(Entity, C)> {
        self.rows@
    }
}

/// The entities of snapshot rows, in snapshot order.
pub open spec fn row_entities<C>(rows: Seq<(Entity, C)>) -> Seq<Entity> {
    rows.map_values(|r: (Entity, C)| r.0)
}

/// What a freshly fetched snapshot of key `key` with filter `f` against store `m`
/// holds: exactly the match set's entities, in order, each paired with the value it
/// owns in the store.
pub open spec fn query_snapshot<C>(
    m: ComponentMap<C>,
    key: u64,
    f: QueryFilter,
    rows: Seq<(Entity, C)>,
) -> bool {
    &&& row_entities(rows) == match_seq(m, key, f)
    &&& forall|i: int|
        0 <= i < rows.len() ==> #[trigger] rows[i].1 == m.spec_value(key, rows[i].0)
}

/// The outcome `make_singular` owes for a snapshot holding `rows`: the sole row's
/// value when there is exactly one row, and the matching error otherwise.
pub open spec fn singular_of<C>(rows: Seq<(Entity, C)>) -> Result<C, EcsError> {
    if rows.len() == 1 {
        Result::Ok(rows[0].1)
    } else if rows.len() == 0 {
        Result::Err(EcsError::SingularNone)
    } else {
        Result::Err(EcsError::SingularMultiple)
    }
}

impl<C: Component> Query<C> {
    /// How many rows the snapshot matched.
    pub fn len(&self) -> (n: usize)
        ensures
            n == self@.len(),
    {
        self.rows.len()
    }

    /// The entity of row `i`.
    pub fn entity(&self, i: usize) -> (e: Entity)
        requires
            i < self@.len(),
        ensures
            e == self@[i as int].0,
    {
        self.rows[i].0
    }

    /// A copy of the component value of row `i`.
    pub fn value(&self, i: usize) -> (v: C)
        requires
            i < self@.len(),
        ensures
            v == self@[i as int].1,
    {
        self.rows[i].1.duplicate()
    }

    /// The first row owned by entity `e`, if any.
    pub fn find(&self, e: Entity) -> (r: Option<usize>)
        ensures
            match r {
                Some(i) => i < self@.len() && self@[i as int].0 == e && (forall|j: int|
                    0 <= j < i ==> self@[j].0 != e),
                None => forall|i: int| 0 <= i < self@.len() ==> self@[i].0 != e,
            },
    {
        let n = self.rows.len();
        let mut i: usize = 0;
        while i < n
            invariant
                n == self.rows@.len(),
                i <= n,
                forall|j: int| 0 <= j < i ==> self.rows@[j].0 != e,
            decreases n - i,
        {
            if self.rows[i].0 == e {
                return Some(i);
            }
            i += 1;
        }
        None
    }

    /// The sole matched value; fails when the snapshot matched zero or several
    /// entities. For use when a contract guarantees exactly one owner.
    pub fn make_singular(&self) -> (r: Result<C, EcsError>)
        ensures
            r == singular_of(self@),
    {
        if self.rows.len() == 1 {
            Ok(self.rows[0].1.duplicate())
        } else if self.rows.len() == 0 {
            Err(EcsError::SingularNone)
        } else {
            Err(EcsError::SingularMultiple)
        }
    }

    /// An iterator over copies of the matched values, in snapshot order.
    pub fn iter(&self) -> (it: QueryIter<C>)
        ensures
            it.spec_items() == self@.map_values(|r: (Entity, C)| r.1),
            it.spec_pos() == 0,
    {
        let n = self.rows.len();
        let mut items: Vec<C> = Vec::new();
        let mut i: usize = 0;
        while i < n
            invariant
                n == self.rows@.len(),
                i <= n,
                items@ =~= self.rows@.take(i as int).map_values(|r: (Entity, C)| r.1),
            decreases n - i,
        {
            items.push(self.rows[i].1.duplicate());
            proof {
                assert(self.rows@.take(i + 1).drop_last() =~= self.rows@.take(i as int));
                assert(self.rows@.take(i + 1).last() == self.rows@[i as int]);
                assert(items@ =~= self.rows@.take(i + 1).map_values(|r: (Entity, C)| r.1));
            }
            i += 1;
        }
        proof {
            assert(self.rows@.take(n as int) =~= self.rows@);
        }
        QueryIter { items, pos: 0 }
    }
}

/// An iterator over the values of a shared query snapshot.
pub struct QueryIter<C> {
    items: Vec<C>,
    pos: usize,
}

impl<C: Component> QueryIter<C> {
    /// All values this iterator was built over, in snapshot order.
    pub closed spec fn spec_items(&self) -> Seq<C> {
        self.items@
    }

    /// How many values have been yielded so far.
    pub closed spec fn spec_pos(&self) -> int {
        self.pos as int
    }

    /// The next value, or `None` once the snapshot is exhausted.
    pub fn next(&mut self) -> (r: Option<C>)
        ensures
            final(self).spec_items() == old(self).spec_items(),
            r == (if old(self).spec_pos() < old(self).spec_items().len() {
                Some(old(self).spec_items()[old(self).spec_pos()])
            } else {
                Option::<C>::None
            }),
            final(self).spec_pos() == (if old(self).spec_pos() < old(self).spec_items().len() {
                old(self).spec_pos() + 1
            } else {
                old(self).spec_pos()
            }),
    {
        if self.pos < self.items.len() {
            let v = self.items[self.pos].duplicate();
            self.pos += 1;
            Some(v)
        } else {
            None
        }
    }
}

impl<C> QueryMut<C> {
    /// The component type key this exclusive snapshot was fetched for.
    pub closed spec fn spec_key(&self) -> u64 {
        self.key
    }

    /// The component type key this exclusive snapshot was fetched for.
    pub fn key(&self) -> (k: u64)
        ensures
            k == self.spec_key(),
    {
        self.key
    }
}

impl<C: Component> QueryMut<C> {
    /// How many rows the snapshot matched.
    pub fn len(&self) -> (n: usize)
        ensures
            n == self@.len(),
    {
        self.rows.len()
    }

    /// The entity of row `i`.
    pub fn entity(&self, i: usize) -> (e: Entity)
        requires
            i < self@.len(),
        ensures
            e == self@[i as int].0,
    {
        self.rows[i].0
    }

    /// A copy of the component value of row `i`.
    pub fn value(&self, i: usize) -> (v: C)
        requires
            i < self@.len(),
        ensures
            v == self@[i as int].1,
    {
        self.rows[i].1.duplicate()
    }

    /// The first row owned by entity `e`, if any.
    pub fn find(&self, e: Entity) -> (r: Option<usize>)
        ensures
            match r {
                Some(i) => i < self@.len() && self@[i as int].0 == e && (forall|j: int|
                    0 <= j < i ==> self@[j].0 != e),
                None => forall|i: int| 0 <= i < self@.len() ==> self@[i].0 != e,
            },
    {
        let n = self.rows.len();
        let mut i: usize = 0;
        while i < n
            invariant
                n == self.rows@.len(),
                i <= n,
                forall|j: int| 0 <= j < i ==> self.rows@[j].0 != e,
            decreases n - i,
        {
            if self.rows[i].0 == e {
                return Some(i);
            }
            i += 1;
        }
        None
    }

    /// Overwrites the value of row `i`; the row keeps its entity. The new value
    /// reaches the store when the owning system invocation writes its exclusive
    /// snapshots back.
    pub fn set(&mut self, i: usize, v: C)
        requires
            i < old(self)@.len(),
        ensures
            final(self)@ == old(self)@.update(i as int, (old(self)@[i as int].0, v)),
            final(self).spec_key() == old(self).spec_key(),
    {
        let e = self.rows[i].0;
        self.rows.set(i, (e, v));
    }

    /// The sole matched value; fails when the snapshot matched zero or several
    /// entities.
    pub fn make_singular(&self) -> (r: Result<C, EcsError>)
        ensures
            r == singular_of(self@),
    {
        if self.rows.len() == 1 {
            Ok(self.rows[0].1.duplicate())
        } else if self.rows.len() == 0 {
            Err(EcsError::SingularNone)
        } else {
            Err(EcsError::SingularMultiple)
        }
    }

    /// Overwrites the sole matched value with `v` and returns the previous value;
    /// fails, leaving the snapshot untouched, when the snapshot matched zero or
    /// several entities.
    pub fn make_singular_mut(&mut self, v: C) -> (r: Result<C, EcsError>)
        ensures
            final(self).spec_key() == old(self).spec_key(),
            r == singular_of(old(self)@),
            final(self)@ == (if old(self)@.len() == 1 {
                old(self)@.update(0, (old(self)@[0].0, v))
            } else {
                old(self)@
            }),
    {
        if self.rows.len() == 1 {
            let e = self.rows[0].0;
            let prev = self.rows[0].1.duplicate();
            self.rows.set(0, (e, v));
            Ok(prev)
        } else if self.rows.len() == 0 {
            Err(EcsError::SingularNone)
        } else {
            Err(EcsError::SingularMultiple)
        }
    }

    /// Consumes the snapshot into an iterator over its `(entity, value)` rows.
    /// A consumed snapshot is no longer written back.
    pub fn into_iter(self) -> (it: QueryIterMut<C>)
        ensures
            it.spec_items() == self@,
            it.spec_pos() == 0,
    {
        QueryIterMut { items: self.rows, pos: 0 }
    }
}

/// An iterator over the rows of a consumed exclusive query snapshot.
pub struct QueryIterMut<C> {
    items: Vec<(Entity, C)>,
    pos: usize,
}

impl<C: Component> QueryIterMut<C> {
    /// All rows this iterator was built over, in snapshot order.
    pub closed spec fn spec_items(&self) -> Seq<(Entity, C)> {
        self.items@
    }

    /// How many rows have been yielded so far.
    pub closed spec fn spec_pos(&self) -> int {
        self.pos as int
    }

    /// The next `(entity, value)` row, or `None` once the snapshot is exhausted.
    pub fn next(&mut self) -> (r: Option<(Entity, C)>)
        ensures
            final(self).spec_items() == old(self).spec_items(),
            r == (if old(self).spec_pos() < old(self).spec_items().len() {
                Some(old(self).spec_items()[old(self).spec_pos()])
            } else {
                Option::<(Entity, C)>::None
            }),
            final(self).spec_pos() == (if old(self).spec_pos() < old(self).spec_items().len() {
                old(self).spec_pos() + 1
            } else {
                old(self).spec_pos()
            }),
    {
        if self.pos < self.items.len() {
            let e = self.items[self.pos].0;
            let v = self.items[self.pos].1.duplicate();
            self.pos += 1;
            Some((e, v))
        } else {
            None
        }
    }
}

/// One fetched system argument: a shared or an exclusive snapshot.
pub enum Fetched<C> {
    /// A read-only snapshot; never written back.
    Shared(Query<C>),
    /// An exclusive snapshot; written back when the invocation ends.
    Exclusive(QueryMut<C>),
}

/// Builds the rows of a snapshot of key `key` with filter `f`: the match set's
/// entities in store row order, each paired with a copy of its stored value.
fn fetch_rows<C: Component>(m: &ComponentMap<C>, key: u64, f: QueryFilter) -> (rows: Vec<
    (Entity, C),
>)
    requires
        m.wf(),
    ensures
        query_snapshot(*m, key, f, rows@),
{
    let n = m.table_len(key);
    let mut rows: Vec<(Entity, C)> = Vec::new();
    let mut i: usize = 0;
    while i < n
        invariant
            m.wf(),
            n == m.spec_entities(key).len(),
            i <= n,
            row_entities(rows@) =~= filtered_entities(
                *m,
                f,
                m.spec_entities(key).take(i as int),
            ),
            forall|j: int|
                0 <= j < rows@.len() ==> #[trigger] rows@[j].1 == m.spec_value(key, rows@[j].0),
        decreases n - i,
    {
        let e = m.entity_at(key, i);
        proof {
            assert(m.spec_entities(key).take(i + 1).drop_last() =~= m.spec_entities(key).take(
                i as int,
            ));
            assert(m.spec_entities(key).take(i + 1).last() == e);
        }
        if f.accepts(m, e) {
            let v = m.value_at(key, i);
            proof {
                m.lemma_row_at(key, i as int);
                assert(m.spec_value(key, e) == m.spec_rows(key)[i as int].1);
            }
            rows.push((e, v));
            proof {
                assert(row_entities(rows@) =~= filtered_entities(
                    *m,
                    f,
                    m.spec_entities(key).take(i + 1),
                ));
            }
        } else {
            proof {
                assert(row_entities(rows@) =~= filtered_entities(
                    *m,
                    f,
                    m.spec_entities(key).take(i + 1),
                ));
            }
        }
        i += 1;
    }
    proof {
        assert(m.spec_entities(key).take(n as int) =~= m.spec_entities(key));
    }
    rows
}

impl<C: Component> ComponentMap<C> {
    /// Fetches a shared snapshot of key `key` with filter `f` from this store.
    pub fn query_components(&self, key: u64, f: QueryFilter) -> (q: Query<C>)
        requires
            self.wf(),
        ensures
            query_snapshot(*self, key, f, q@),
    {
        Query { rows: fetch_rows(self, key, f) }
    }

    /// Fetches an exclusive snapshot of key `key` with filter `f` from this store.
    pub fn query_components_mut(&self, key: u64, f: QueryFilter) -> (q: QueryMut<C>)
        requires
            self.wf(),
        ensures
            query_snapshot(*self, key, f, q@),
            q.spec_key() == key,
    {
        QueryMut { key, rows: fetch_rows(self, key, f) }
    }
}

/// For every entity and every component key, exactly one of the `With` and
/// `Without` filters over that key accepts it: the two partition the entity set.
pub proof fn lemma_with_without_partition<C>(m: ComponentMap<C>, c: u64, e: Entity)
    ensures
        (QueryFilter::With { key: c }).spec_accepts(m, e) != (QueryFilter::Without {
            key: c,
        }).spec_accepts(m, e),
{
}

/// Querying a component key that was never inserted anywhere yields an empty match
/// set, whatever the filter: an unknown type is an empty result, not a failure.
pub proof fn lemma_unknown_key_empty<C>(m: ComponentMap<C>, key: u64, f: QueryFilter)
    requires
        !m.spec_has_key(key),
    ensures
        match_seq(m, key, f) == Seq::<Entity>::empty(),
{
    m.lemma_absent_key_rows_empty(key);
    assert(m.spec_entities(key) =~= Seq::<Entity>::empty());
}

/// After a component of key `k` is detached from entity `e`, no query of key `k`
/// matches `e` any more, whatever the filter.
pub proof fn lemma_remove_component_excludes<C>(
    m0: ComponentMap<C>,
    m1: ComponentMap<C>,
    k: u64,
    e: Entity,
    f: QueryFilter,
)
    requires
        m0.wf(),
        remove_effect(m0, k, e, m1),
    ensures
        !match_seq(m1, k, f).contains(e),
{
    lemma_match_seq_contains(m1, k, f, e);
}

/// After entity `e` is destroyed, no query of any key matches `e` any more,
/// whatever the filter.
pub proof fn lemma_destroy_entity_excludes<C>(
    m0: ComponentMap<C>,
    m1: ComponentMap<C>,
    e: Entity,
    k: u64,
    f: QueryFilter,
)
    requires
        m0.wf(),
        destroy_effect(m0, e, m1),
    ensures
        !match_seq(m1, k, f).contains(e),
{
    lemma_match_seq_contains(m1, k, f, e);
}

/// After `(e, v)` is inserted under key `k`, leaving `e` the sole owner of that
/// component type, an unfiltered snapshot of `k` holds exactly the row `(e, v)`:
/// its sole matched value equals the value just inserted.
pub proof fn lemma_sole_owner_singular<C>(
    m0: ComponentMap<C>,
    m1: ComponentMap<C>,
    k: u64,
    e: Entity,
    v: C,
    rows: Seq<(Entity, C)>,
)
    requires
        m0.wf(),
        insert_effect(m0, k, e, v, m1),
        m1.spec_entities(k) == seq![e],
        query_snapshot(m1, k, QueryFilter::Always, rows),
    ensures
        rows == seq![(e, v)],
        singular_of(rows) == Result::<C, EcsError>::Ok(v),
{
    assert(match_seq(m1, k, QueryFilter::Always) =~= seq![e]) by {
        reveal_with_fuel(filtered_entities, 2);
        assert(m1.spec_entities(k).drop_last() =~= Seq::<Entity>::empty());
        assert(m1.spec_entities(k).last() == e);
    }
    assert(row_entities(rows).len() == 1);
    assert(rows.len() == 1);
    assert(rows[0].0 == row_entities(rows)[0]);
    assert(rows[0].0 == e);
    assert(rows[0].1 == m1.spec_value(k, e));
    assert(rows =~= seq![(e, v)]);
}

} // verus!
