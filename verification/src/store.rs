//! The component store: a nested mapping from component type key to entity to
//! the component value owned by that entity.
//!
//! One [`ComponentMap`] holds, for every component type key that was ever inserted,
//! a table of `(entity, value)` rows in insertion order. Keys denote component types:
//! the host picks one key per concrete component kind. The store itself is generic
//! over the closed component value type `C`, so it never needs to inspect or
//! downcast a stored value.

use vstd::prelude::*;

use crate::Component;
use crate::Entity;

verus! {

/// The rows of one component type: every entity owning the type, with its value,
/// in insertion order.
pub(crate) struct TypeTable<C> {
    pub(crate) key: u64,
    pub(crate) rows: Vec<(Entity, C)>,
}

/// Mapping from component type key to entity to component value.
pub struct ComponentMap<C> {
    pub(crate) tables: Vec<TypeTable<C>>,
}

impl<C> ComponentMap<C> {
    /// The component type keys present in the store, in first-insertion order.
    /// A key stays present even after its last row is removed.
    pub closed spec fn spec_keys(&self) -> Seq<u64> {
        self.tables@.map_values(|t: TypeTable<C>| t.key)
    }

    /// Whether the store has a table for key `k`.
    pub open spec fn spec_has_key(&self, k: u64) -> bool {
        self.spec_keys().contains(k)
    }

    /// The index of the table for key `k` (meaningful only when `spec_has_key(k)`).
    pub closed spec fn table_index_of(&self, k: u64) -> int {
        choose|i: int| 0 <= i < self.tables@.len() && self.tables@[i].key == k
    }

    /// The `(entity, value)` rows stored under key `k`, in insertion order;
    /// empty when the store has no table for `k`.
    pub closed spec fn spec_rows(&self, k: u64) -> Seq<(Entity, C)> {
        if self.spec_has_key(k) {
            self.tables@[self.table_index_of(k)].rows@
        } else {
            Seq::empty()
        }
    }

    /// The entities owning a component of key `k`, in insertion order.
    pub open spec fn spec_entities(&self, k: u64) -> Seq<Entity> {
        self.spec_rows(k).map_values(|r: (Entity, C)| r.0)
    }

    /// Whether entity `e` owns a component of key `k`.
    pub open spec fn owns(&self, k: u64, e: Entity) -> bool {
        self.spec_entities(k).contains(e)
    }

    /// The index of entity `e`'s row under key `k` (meaningful only when `owns(k, e)`).
    pub open spec fn row_index_of(&self, k: u64, e: Entity) -> int {
        choose|i: int|
            0 <= i < self.spec_rows(k).len() && #[trigger] self.spec_rows(k)[i].0 == e
    }

    /// The component value entity `e` owns under key `k` (meaningful only when `owns(k, e)`).
    pub open spec fn spec_value(&self, k: u64, e: Entity) -> C {
        self.spec_rows(k)[self.row_index_of(k, e)].1
    }

    /// Well-formedness: keys are pairwise distinct, and so are the entities within
    /// any one table. Every store reachable through this module's operations is
    /// well-formed.
    pub open spec fn wf(&self) -> bool {
        &&& (forall|i: int, j: int|
            0 <= i < j < self.spec_keys().len() ==> self.spec_keys()[i] != self.spec_keys()[j])
        &&& (forall|k: u64, i: int, j: int|
            0 <= i < j < self.spec_entities(k).len() ==> #[trigger] self.spec_entities(
                k,
            )[i] != #[trigger] self.spec_entities(k)[j])
    }
}

impl<C: Component> ComponentMap<C> {
    /// Builds an empty store: no keys, no rows.
    pub fn new() -> (m: ComponentMap<C>)
        ensures
            m.wf(),
            m.spec_keys() == Seq::<u64>::empty(),
            forall|k: u64| #[trigger] m.spec_rows(k) == Seq::<(Entity, C)>::empty(),
    {
        let m = ComponentMap { tables: Vec::new() };
        proof {
            assert(m.spec_keys() =~= Seq::<u64>::empty());
            assert(forall|k: u64| #[trigger] m.spec_rows(k) =~= Seq::<(Entity, C)>::empty());
        }
        m
    }

    /// The index of the table for key `k`, or `None` if the store has no such table.
    fn find_table(&self, k: u64) -> (r: Option<usize>)
        requires
            self.wf(),
        ensures
            match r {
                Some(i) => self.spec_has_key(k) && i == self.table_index_of(k) && i
                    < self.tables@.len() && self.tables@[i as int].key == k,
                None => !self.spec_has_key(k),
            },
    {
        let n = self.tables.len();
        let mut i: usize = 0;
        while i < n
            invariant
                self.wf(),
                n == self.tables@.len(),
                i <= n,
                forall|j: int| 0 <= j < i ==> self.tables@[j].key != k,
            decreases n - i,
        {
            if self.tables[i].key == k {
                proof {
                    assert(self.spec_keys()[i as int] == k);
                    assert(self.spec_has_key(k));
                    let w = self.table_index_of(k);
                    assert(self.spec_keys()[w] == k);
                    assert(w == i as int);
                }
                return Some(i);
            }
            i += 1;
        }
        proof {
            assert forall|j: int| 0 <= j < self.spec_keys().len() implies self.spec_keys()[j] != k
                by {
                assert(self.spec_keys()[j] == self.tables@[j].key);
            }
            assert(!self.spec_has_key(k));
        }
        None
    }

    /// Whether entity `e` currently owns a component of key `k`.
    pub fn has_component(&self, k: u64, e: Entity) -> (b: bool)
        requires
            self.wf(),
        ensures
            b == self.owns(k, e),
    {
        match self.find_table(k) {
            None => {
                proof {
                    assert(self.spec_rows(k) =~= Seq::<(Entity, C)>::empty());
                }
                false
            },
            Some(t) => {
                let rows = &self.tables[t].rows;
                proof {
                    assert(rows@ == self.spec_rows(k));
                }
                let n = rows.len();
                let mut i: usize = 0;
                while i < n
                    invariant
                        n == rows@.len(),
                        i <= n,
                        rows@ == self.spec_rows(k),
                        forall|j: int| 0 <= j < i ==> self.spec_rows(k)[j].0 != e,
                    decreases n - i,
                {
                    if rows[i].0 == e {
                        proof {
                            assert(self.spec_entities(k)[i as int] == e);
                        }
                        return true;
                    }
                    i += 1;
                }
                proof {
                    assert forall|j: int| 0 <= j < self.spec_entities(k).len() implies self
                        .spec_entities(k)[j] != e by {
                        assert(self.spec_entities(k)[j] == self.spec_rows(k)[j].0);
                    }
                }
                false
            },
        }
    }

    /// How many entities own a component of key `k`.
    pub fn table_len(&self, k: u64) -> (n: usize)
        requires
            self.wf(),
        ensures
            n == self.spec_entities(k).len(),
    {
        match self.find_table(k) {
            None => {
                proof {
                    assert(self.spec_rows(k) =~= Seq::<(Entity, C)>::empty());
                }
                0
            },
            Some(t) => self.tables[t].rows.len(),
        }
    }

    /// The entity of row `i` under key `k`.
    pub fn entity_at(&self, k: u64, i: usize) -> (e: Entity)
        requires
            self.wf(),
            i < self.spec_entities(k).len(),
        ensures
            e == self.spec_entities(k)[i as int],
    {
        let t = self.find_table(k).unwrap();
        self.tables[t].rows[i].0
    }

    /// A copy of the value of row `i` under key `k`.
    pub fn value_at(&self, k: u64, i: usize) -> (v: C)
        requires
            self.wf(),
            i < self.spec_rows(k).len(),
        ensures
            v == self.spec_rows(k)[i as int].1,
    {
        let t = self.find_table(k).unwrap();
        self.tables[t].rows[i].1.duplicate()
    }

    /// The component type key of table `i`.
    pub fn key_at(&self, i: usize) -> (k: u64)
        requires
            i < self.spec_keys().len(),
        ensures
            k == self.spec_keys()[i as int],
    {
        self.tables[i].key
    }

    /// How many component type keys the store holds.
    pub fn key_count(&self) -> (n: usize)
        ensures
            n == self.spec_keys().len(),
    {
        self.tables.len()
    }
}

impl<C> ComponentMap<C> {
    /// The table holding key `tables[i].key` is table `i`: under well-formedness the
    /// keys are distinct, so the chosen table index is the one the key sits at.
    proof fn lemma_table_at(&self, i: int)
        requires
            self.wf(),
            0 <= i < self.tables@.len(),
        ensures
            self.spec_has_key(self.tables@[i].key),
            self.table_index_of(self.tables@[i].key) == i,
            self.spec_rows(self.tables@[i].key) == self.tables@[i].rows@,
    {
        let k = self.tables@[i].key;
        assert(self.spec_keys()[i] == k);
        assert(self.spec_has_key(k));
        let w = self.table_index_of(k);
        assert(0 <= w < self.tables@.len() && self.tables@[w].key == k);
        assert(self.spec_keys()[w] == k);
        assert(w == i);
    }

    /// A key with no table has no rows.
    pub proof fn lemma_absent_key_rows_empty(&self, k: u64)
        requires
            !self.spec_has_key(k),
        ensures
            self.spec_rows(k) == Seq::<(Entity, C)>::empty(),
    {
        assert(self.spec_rows(k) =~= Seq::<(Entity, C)>::empty());
    }

    /// Under well-formedness the entities of one table are distinct, so the chosen
    /// row index of an entity is the one the entity sits at: row `i` belongs to its
    /// own entity, and holds that entity's value.
    pub proof fn lemma_row_at(&self, k: u64, i: int)
        requires
            self.wf(),
            0 <= i < self.spec_rows(k).len(),
        ensures
            self.owns(k, self.spec_rows(k)[i].0),
            self.row_index_of(k, self.spec_rows(k)[i].0) == i,
            self.spec_value(k, self.spec_rows(k)[i].0) == self.spec_rows(k)[i].1,
    {
        let e = self.spec_rows(k)[i].0;
        assert(self.spec_entities(k)[i] == e);
        assert(self.owns(k, e));
        let w = self.row_index_of(k, e);
        assert(0 <= w < self.spec_rows(k).len() && self.spec_rows(k)[w].0 == e);
        assert(self.spec_entities(k)[w] == e);
        assert(w == i);
    }

    /// Replacing one table by another with the same key leaves every other key's
    /// rows untouched, and the key sequence unchanged.
    proof fn lemma_update_table(m0: Self, m1: Self, ti: int)
        requires
            m0.wf(),
            0 <= ti < m0.tables@.len(),
            m1.tables@ =~= m0.tables@.update(ti, m1.tables@[ti]),
            m1.tables@[ti].key == m0.tables@[ti].key,
        ensures
            m1.spec_keys() == m0.spec_keys(),
            forall|k2: u64|
                k2 != m0.tables@[ti].key ==> #[trigger] m1.spec_rows(k2) == m0.spec_rows(k2),
            m1.spec_has_key(m0.tables@[ti].key),
            m1.table_index_of(m0.tables@[ti].key) == ti,
            m1.spec_rows(m0.tables@[ti].key) == m1.tables@[ti].rows@,
    {
        let k = m0.tables@[ti].key;
        assert(m1.spec_keys() =~= m0.spec_keys()) by {
            assert(forall|j: int|
                0 <= j < m1.tables@.len() ==> #[trigger] m1.spec_keys()[j] == m1.tables@[j].key
                    && m0.spec_keys()[j] == m0.tables@[j].key);
        }
        assert forall|k2: u64| k2 != k implies #[trigger] m1.spec_rows(k2) == m0.spec_rows(k2) by {
            if m0.spec_has_key(k2) {
                let w = m0.table_index_of(k2);
                assert(m0.spec_keys()[w] == k2);
                assert(w != ti);
                assert(m1.tables@[w] == m0.tables@[w]);
                assert(m1.spec_keys() == m0.spec_keys());
                assert(m1.spec_has_key(k2));
                let w1 = m1.table_index_of(k2);
                assert(m1.spec_keys()[w1] == k2);
                assert(m0.spec_keys()[w1] == k2);
                assert(m0.spec_keys()[w] == k2);
                assert(w1 == w);
                assert(m1.spec_rows(k2) == m1.tables@[w].rows@);
                assert(m0.spec_rows(k2) == m0.tables@[w].rows@);
            } else {
                assert(!m1.spec_has_key(k2));
                assert(m1.spec_rows(k2) =~= m0.spec_rows(k2));
            }
        }
        m0.lemma_table_at(ti);
        assert(m1.spec_keys()[ti] == k);
        assert(m1.spec_has_key(k));
        let w1 = m1.table_index_of(k);
        assert(m1.spec_keys()[w1] == k && m0.spec_keys()[w1] == k && m0.spec_keys()[ti] == k);
        assert(w1 == ti);
    }
}

impl<C: Component> ComponentMap<C> {
    /// The index of entity `e`'s row in `rows`, or `None` if `e` owns no row.
    fn find_row(rows: &Vec<(Entity, C)>, e: Entity) -> (r: Option<usize>)
        ensures
            match r {
                Some(j) => j < rows@.len() && rows@[j as int].0 == e,
                None => forall|i: int| 0 <= i < rows@.len() ==> rows@[i].0 != e,
            },
    {
        let n = rows.len();
        let mut i: usize = 0;
        while i < n
            invariant
                n == rows@.len(),
                i <= n,
                forall|j: int| 0 <= j < i ==> rows@[j].0 != e,
            decreases n - i,
        {
            if rows[i].0 == e {
                return Some(i);
            }
            i += 1;
        }
        None
    }

    /// Stores `v` as the component of key `k` owned by `e`, overwriting any value
    /// `e` already owned there.
    pub fn insert(&mut self, k: u64, e: Entity, v: C)
        requires
            old(self).wf(),
        ensures
            insert_effect(*old(self), k, e, v, *final(self)),
    {
        match self.find_table(k) {
            None => {
                let mut rows: Vec<(Entity, C)> = Vec::new();
                rows.push((e, v));
                let ghost rows_view = rows@;
                self.tables.push(TypeTable { key: k, rows });
                proof {
                    let m0 = *old(self);
                    let m1 = *self;
                    let ti = m0.tables@.len() as int;
                    assert(m1.tables@ =~= m0.tables@.push(m1.tables@[ti]));
                    assert(m1.spec_keys() =~= m0.spec_keys().push(k)) by {
                        assert(forall|j: int|
                            0 <= j < m1.tables@.len() ==> #[trigger] m1.spec_keys()[j]
                                == m1.tables@[j].key);
                        assert(forall|j: int|
                            0 <= j < m0.tables@.len() ==> #[trigger] m0.spec_keys()[j]
                                == m0.tables@[j].key);
                    }
                    // the fresh key is at the end; every other key's table is untouched
                    assert forall|k2: u64| k2 != k implies #[trigger] m1.spec_rows(k2)
                        == m0.spec_rows(k2) by {
                        if m0.spec_has_key(k2) {
                            let w = m0.table_index_of(k2);
                            assert(m0.spec_keys()[w] == k2);
                            assert(m1.spec_keys()[w] == k2);
                            assert(m1.spec_has_key(k2));
                            let w1 = m1.table_index_of(k2);
                            assert(m1.spec_keys()[w1] == k2);
                            assert(w1 < m0.tables@.len() || m1.tables@[w1].key == k);
                            assert(w1 < m0.tables@.len());
                            assert(m0.spec_keys()[w1] == k2);
                            assert(w1 == w);
                            assert(m1.spec_rows(k2) == m1.tables@[w].rows@);
                            assert(m0.spec_rows(k2) == m0.tables@[w].rows@);
                        } else {
                            assert(forall|j: int|
                                0 <= j < m1.spec_keys().len() ==> #[trigger] m1.spec_keys()[j]
                                    != k2);
                            assert(!m1.spec_has_key(k2));
                            assert(m1.spec_rows(k2) =~= m0.spec_rows(k2));
                        }
                    }
                    assert(m1.spec_keys()[ti] == k);
                    assert(m1.spec_has_key(k));
                    let w1 = m1.table_index_of(k);
                    assert(m1.spec_keys()[w1] == k);
                    assert(!m0.spec_has_key(k));
                    assert(forall|j: int|
                        0 <= j < m0.spec_keys().len() ==> #[trigger] m0.spec_keys()[j] != k);
                    assert(w1 == ti);
                    assert(m1.spec_rows(k) == rows_view);
                    assert(rows_view =~= Seq::<(Entity, C)>::empty().push((e, v)));
                    assert(m0.spec_rows(k) =~= Seq::<(Entity, C)>::empty());
                    assert(m1.spec_entities(k) =~= m0.spec_entities(k).push(e));
                    assert(m1.spec_entities(k)[0] == e);
                    assert(m1.owns(k, e));
                    // well-formedness: the new key is fresh, the new table has one row
                    assert(m1.wf()) by {
                        assert(forall|i: int, j: int|
                            0 <= i < j < m1.spec_keys().len() ==> m1.spec_keys()[i]
                                != m1.spec_keys()[j]);
                        assert forall|k2: u64, i: int, j: int|
                            0 <= i < j < m1.spec_entities(k2).len() implies #[trigger] m1
                            .spec_entities(k2)[i] != #[trigger] m1.spec_entities(k2)[j] by {
                            if k2 != k {
                                assert(m1.spec_entities(k2) == m0.spec_entities(k2));
                            } else {
                                assert(m1.spec_entities(k2).len() == 1);
                            }
                        }
                    }
                    m1.lemma_row_at(k, 0);
                }
            },
            Some(ti) => {
                let ghost m0 = *self;
                let mut t = self.tables.remove(ti);
                let ghost t0 = t;
                match Self::find_row(&t.rows, e) {
                    Some(j) => {
                        t.rows.set(j, (e, v));
                        let ghost t1 = t;
                        self.tables.insert(ti, t);
                        proof {
                            let m1 = *self;
                            assert(m1.tables@ =~= m0.tables@.update(ti as int, t1));
                            assert(t1.rows@ == t0.rows@.update(j as int, (e, v)));
                            m0.lemma_table_at(ti as int);
                            Self::lemma_update_table(m0, m1, ti as int);
                            assert(m0.spec_rows(k) == t0.rows@);
                            assert(m1.spec_rows(k) == t1.rows@);
                            assert(m1.spec_entities(k) =~= m0.spec_entities(k));
                            assert(m0.spec_entities(k)[j as int] == e);
                            assert(m0.owns(k, e));
                            assert(m1.wf()) by {
                                assert forall|k2: u64, i2: int, j2: int|
                                    0 <= i2 < j2 < m1.spec_entities(k2).len() implies #[trigger] m1
                                    .spec_entities(k2)[i2] != #[trigger] m1.spec_entities(
                                    k2,
                                )[j2] by {
                                    if k2 != k {
                                        assert(m1.spec_entities(k2) == m0.spec_entities(k2));
                                    } else {
                                        assert(m1.spec_entities(k2) == m0.spec_entities(k2));
                                    }
                                }
                            }
                            m1.lemma_row_at(k, j as int);
                            assert(m1.spec_value(k, e) == v);
                            assert forall|e2: Entity| e2 != e && #[trigger] m0.owns(k, e2) implies
                                m1.owns(k, e2) && m1.spec_value(k, e2) == m0.spec_value(k, e2) by {
                                let w = m0.row_index_of(k, e2);
                                assert(m0.spec_entities(k)[w] == e2);
                                assert(w != j as int);
                                assert(m1.spec_rows(k)[w] == m0.spec_rows(k)[w]);
                                m0.lemma_row_at(k, w);
                                m1.lemma_row_at(k, w);
                            }
                        }
                    },
                    None => {
                        t.rows.push((e, v));
                        let ghost t1 = t;
                        self.tables.insert(ti, t);
                        proof {
                            let m1 = *self;
                            assert(m1.tables@ =~= m0.tables@.update(ti as int, t1));
                            assert(t1.rows@ == t0.rows@.push((e, v)));
                            m0.lemma_table_at(ti as int);
                            Self::lemma_update_table(m0, m1, ti as int);
                            assert(m0.spec_rows(k) == t0.rows@);
                            assert(m1.spec_rows(k) == t1.rows@);
                            assert(forall|i: int|
                                0 <= i < m0.spec_entities(k).len() ==> #[trigger] m0.spec_entities(
                                    k,
                                )[i] != e);
                            assert(!m0.owns(k, e));
                            let nj = m0.spec_rows(k).len() as int;
                            assert(m1.spec_entities(k) =~= m0.spec_entities(k).push(e));
                            assert(m1.spec_entities(k)[nj] == e);
                            assert(m1.owns(k, e));
                            assert(m1.wf()) by {
                                assert forall|k2: u64, i2: int, j2: int|
                                    0 <= i2 < j2 < m1.spec_entities(k2).len() implies #[trigger] m1
                                    .spec_entities(k2)[i2] != #[trigger] m1.spec_entities(
                                    k2,
                                )[j2] by {
                                    if k2 != k {
                                        assert(m1.spec_entities(k2) == m0.spec_entities(k2));
                                    } else {
                                        assert(m1.spec_entities(k2) == m0.spec_entities(k).push(e));
                                        if j2 < nj {
                                            assert(m0.spec_entities(k)[i2] != m0.spec_entities(
                                                k,
                                            )[j2]);
                                        } else {
                                            assert(m1.spec_entities(k2)[j2] == e);
                                            assert(m1.spec_entities(k2)[i2] == m0.spec_entities(
                                                k,
                                            )[i2]);
                                        }
                                    }
                                }
                            }
                            m1.lemma_row_at(k, nj);
                            assert(m1.spec_value(k, e) == v);
                            assert forall|e2: Entity| e2 != e && #[trigger] m0.owns(k, e2) implies
                                m1.owns(k, e2) && m1.spec_value(k, e2) == m0.spec_value(k, e2) by {
                                let w = m0.row_index_of(k, e2);
                                assert(m0.spec_entities(k)[w] == e2);
                                assert(m1.spec_rows(k)[w] == m0.spec_rows(k)[w]);
                                m0.lemma_row_at(k, w);
                                m1.lemma_row_at(k, w);
                            }
                        }
                    },
                }
            },
        }
    }
    /// Detaches the component of key `k` from entity `e`; a no-op if `e` owns none.
    pub fn remove(&mut self, k: u64, e: Entity)
        requires
            old(self).wf(),
        ensures
            remove_effect(*old(self), k, e, *final(self)),
    {
        let ghost m0 = *old(self);
        match self.find_table(k) {
            None => {
                proof {
                    assert(m0.spec_rows(k) =~= Seq::<(Entity, C)>::empty());
                    assert(!m0.owns(k, e));
                    assert(!self.owns(k, e));
                }
            },
            Some(ti) => {
                proof {
                    m0.lemma_table_at(ti as int);
                }
                let mut t = self.tables.remove(ti);
                let ghost t0 = t;
                match Self::find_row(&t.rows, e) {
                    None => {
                        self.tables.insert(ti, t);
                        proof {
                            let m1 = *self;
                            assert(m1.tables@ =~= m0.tables@.update(ti as int, t0));
                            Self::lemma_update_table(m0, m1, ti as int);
                            assert(m1.spec_rows(k) == m0.spec_rows(k));
                            assert(forall|i: int|
                                0 <= i < m0.spec_entities(k).len() ==> #[trigger] m0.spec_entities(
                                    k,
                                )[i] != e);
                            assert(!m0.owns(k, e));
                            assert(!m1.owns(k, e));
                            assert(m1.wf()) by {
                                assert(forall|k2: u64|
                                    #[trigger] m1.spec_entities(k2) == m0.spec_entities(k2));
                            }
                        }
                    },
                    Some(j) => {
                        t.rows.remove(j);
                        let ghost t1 = t;
                        self.tables.insert(ti, t);
                        proof {
                            let m1 = *self;
                            assert(m1.tables@ =~= m0.tables@.update(ti as int, t1));
                            assert(t1.rows@ == t0.rows@.remove(j as int));
                            Self::lemma_update_table(m0, m1, ti as int);
                            assert(m0.spec_rows(k) == t0.rows@);
                            assert(m1.spec_rows(k) == t1.rows@);
                            assert(m0.spec_entities(k)[j as int] == e);
                            m0.lemma_row_at(k, j as int);
                            assert(m0.row_index_of(k, e) == j as int);
                            let rows0 = m0.spec_rows(k);
                            let rows1 = m1.spec_rows(k);
                            assert(rows1.len() == rows0.len() - 1);
                            assert(forall|x: int|
                                0 <= x < j as int ==> #[trigger] rows1[x] == rows0[x]);
                            assert(forall|x: int|
                                j as int <= x < rows1.len() ==> #[trigger] rows1[x] == rows0[x
                                    + 1]);
                            // the removed entity is gone: every remaining row keeps
                            // an entity other than e, by distinctness
                            assert forall|x: int| 0 <= x < rows1.len() implies #[trigger] rows1[x].0
                                != e by {
                                if x < j as int {
                                    assert(m0.spec_entities(k)[x] != m0.spec_entities(
                                        k,
                                    )[j as int]);
                                    assert(rows0[x].0 != e);
                                } else {
                                    assert(m0.spec_entities(k)[x + 1] != m0.spec_entities(
                                        k,
                                    )[j as int]);
                                    assert(rows0[x + 1].0 != e);
                                }
                            }
                            assert(forall|x: int|
                                0 <= x < m1.spec_entities(k).len() ==> #[trigger] m1.spec_entities(
                                    k,
                                )[x] == rows1[x].0);
                            assert(!m1.owns(k, e));
                            assert(m1.wf()) by {
                                assert forall|k2: u64, i2: int, j2: int|
                                    0 <= i2 < j2 < m1.spec_entities(k2).len() implies #[trigger] m1
                                    .spec_entities(k2)[i2] != #[trigger] m1.spec_entities(
                                    k2,
                                )[j2] by {
                                    if k2 != k {
                                        assert(m1.spec_entities(k2) == m0.spec_entities(k2));
                                    } else {
                                        let a = if i2 < j as int {
                                            i2
                                        } else {
                                            i2 + 1
                                        };
                                        let b = if j2 < j as int {
                                            j2
                                        } else {
                                            j2 + 1
                                        };
                                        assert(m1.spec_entities(k2)[i2] == m0.spec_entities(k)[a]);
                                        assert(m1.spec_entities(k2)[j2] == m0.spec_entities(k)[b]);
                                        assert(m0.spec_entities(k)[a] != m0.spec_entities(k)[b]);
                                    }
                                }
                            }
                            assert forall|e2: Entity| e2 != e && #[trigger] m0.owns(k, e2) implies
                                m1.owns(k, e2) && m1.spec_value(k, e2) == m0.spec_value(k, e2) by {
                                let w = m0.row_index_of(k, e2);
                                m0.lemma_row_at(k, w);
                                assert(m0.spec_entities(k)[w] == e2);
                                assert(w != j as int);
                                let w1 = if w < j as int {
                                    w
                                } else {
                                    w - 1
                                };
                                assert(rows1[w1] == rows0[w]);
                                m1.lemma_row_at(k, w1);
                            }
                            assert forall|e2: Entity| #[trigger] m1.owns(k, e2) implies m0.owns(
                                k,
                                e2,
                            ) by {
                                let w = m1.row_index_of(k, e2);
                                assert(m1.spec_entities(k)[w] == e2);
                                assert(rows1[w].0 == e2);
                                let w0 = if w < j as int {
                                    w
                                } else {
                                    w + 1
                                };
                                assert(rows0[w0].0 == e2);
                                assert(m0.spec_entities(k)[w0] == e2);
                            }
                        }
                    },
                }
            },
        }
    }

    /// Overwrites the value entity `e` owns under key `k` with `v`.
    pub fn set_value(&mut self, k: u64, e: Entity, v: C)
        requires
            old(self).wf(),
            old(self).owns(k, e),
        ensures
            set_value_effect(*old(self), k, e, v, *final(self)),
    {
        let ghost m0 = *old(self);
        proof {
            let w = m0.row_index_of(k, e);
            assert(m0.spec_entities(k)[w] == e);
            assert(m0.spec_has_key(k));
        }
        let ti = self.find_table(k).unwrap();
        proof {
            m0.lemma_table_at(ti as int);
        }
        let mut t = self.tables.remove(ti);
        let ghost t0 = t;
        let j = Self::find_row(&t.rows, e).unwrap();
        t.rows.set(j, (e, v));
        let ghost t1 = t;
        self.tables.insert(ti, t);
        proof {
            let m1 = *self;
            assert(m1.tables@ =~= m0.tables@.update(ti as int, t1));
            assert(t1.rows@ == t0.rows@.update(j as int, (e, v)));
            Self::lemma_update_table(m0, m1, ti as int);
            assert(m0.spec_rows(k) == t0.rows@);
            assert(m1.spec_rows(k) == t1.rows@);
            assert(m0.spec_entities(k)[j as int] == e);
            m0.lemma_row_at(k, j as int);
            assert forall|k2: u64| true implies #[trigger] m1.spec_entities(k2)
                == m0.spec_entities(k2) by {
                if k2 == k {
                    assert(m1.spec_entities(k2) =~= m0.spec_entities(k2));
                } else {
                    assert(m1.spec_rows(k2) == m0.spec_rows(k2));
                }
            }
            assert(m1.wf());
            m1.lemma_row_at(k, j as int);
            assert(m1.spec_value(k, e) == v);
            assert forall|k2: u64, e2: Entity|
                !(k2 == k && e2 == e) && m0.owns(k2, e2) implies #[trigger] m1.spec_value(k2, e2)
                == m0.spec_value(k2, e2) by {
                if k2 == k {
                    let w = m0.row_index_of(k, e2);
                    m0.lemma_row_at(k, w);
                    assert(m0.spec_entities(k)[w] == e2);
                    assert(w != j as int);
                    assert(m1.spec_rows(k)[w] == m0.spec_rows(k)[w]);
                    m1.lemma_row_at(k, w);
                } else {
                    assert(m1.spec_rows(k2) == m0.spec_rows(k2));
                    assert(m1.spec_value(k2, e2) == m0.spec_value(k2, e2));
                }
            }
        }
    }

    /// Detaches every component owned by entity `e`, across all component type keys.
    pub fn remove_entity(&mut self, e: Entity)
        requires
            old(self).wf(),
        ensures
            destroy_effect(*old(self), e, *final(self)),
    {
        let ghost m0 = *old(self);
        let n = self.key_count();
        let mut i: usize = 0;
        while i < n
            invariant
                m0.wf(),
                self.wf(),
                n == m0.spec_keys().len(),
                i <= n,
                self.spec_keys() == m0.spec_keys(),
                forall|x: int|
                    0 <= x < i ==> #[trigger] self.spec_rows(m0.spec_keys()[x]) == (if m0.owns(
                        m0.spec_keys()[x],
                        e,
                    ) {
                        m0.spec_rows(m0.spec_keys()[x]).remove(
                            m0.row_index_of(m0.spec_keys()[x], e),
                        )
                    } else {
                        m0.spec_rows(m0.spec_keys()[x])
                    }),
                forall|x: int|
                    i <= x < n ==> #[trigger] self.spec_rows(m0.spec_keys()[x]) == m0.spec_rows(
                        m0.spec_keys()[x],
                    ),
            decreases n - i,
        {
            let k = self.key_at(i);
            let ghost mpre = *self;
            proof {
                // keys are distinct, so this key's rows are still the original ones
                assert(mpre.spec_rows(k) == m0.spec_rows(k));
            }
            self.remove(k, e);
            proof {
                let m2 = *self;
                assert(remove_effect(mpre, k, e, m2));
                // transfer the removal to the original store's terms
                assert(mpre.spec_entities(k) =~= m0.spec_entities(k));
                if m0.owns(k, e) {
                    assert(mpre.owns(k, e));
                    let w0 = m0.row_index_of(k, e);
                    assert(m0.spec_entities(k)[w0] == e);
                    m0.lemma_row_at(k, w0);
                    let wp = mpre.row_index_of(k, e);
                    assert(mpre.spec_entities(k)[wp] == e);
                    mpre.lemma_row_at(k, wp);
                    assert(wp == w0);
                    assert(m2.spec_rows(k) == m0.spec_rows(k).remove(w0));
                } else {
                    assert(!mpre.owns(k, e));
                    assert(m2.spec_rows(k) == m0.spec_rows(k));
                }
                assert forall|x: int| 0 <= x < i + 1 implies #[trigger] m2.spec_rows(
                    m0.spec_keys()[x],
                ) == (if m0.owns(m0.spec_keys()[x], e) {
                    m0.spec_rows(m0.spec_keys()[x]).remove(m0.row_index_of(m0.spec_keys()[x], e))
                } else {
                    m0.spec_rows(m0.spec_keys()[x])
                }) by {
                    if x < i {
                        assert(m0.spec_keys()[x] != k);
                        assert(m2.spec_rows(m0.spec_keys()[x]) == mpre.spec_rows(
                            m0.spec_keys()[x],
                        ));
                    }
                }
                assert forall|x: int| i + 1 <= x < n implies #[trigger] m2.spec_rows(
                    m0.spec_keys()[x],
                ) == m0.spec_rows(m0.spec_keys()[x]) by {
                    assert(m0.spec_keys()[x] != k);
                    assert(m2.spec_rows(m0.spec_keys()[x]) == mpre.spec_rows(m0.spec_keys()[x]));
                }
            }
            i += 1;
        }
        proof {
            let m1 = *self;
            // every key is some keys[x], and absent keys have empty rows throughout
            assert forall|k: u64| true implies #[trigger] m1.spec_rows(k) == (if m0.owns(k, e) {
                m0.spec_rows(k).remove(m0.row_index_of(k, e))
            } else {
                m0.spec_rows(k)
            }) by {
                if m0.spec_has_key(k) {
                    let x = choose|x: int|
                        0 <= x < m0.spec_keys().len() && m0.spec_keys()[x] == k;
                    assert(m1.spec_rows(m0.spec_keys()[x]) == (if m0.owns(m0.spec_keys()[x], e) {
                        m0.spec_rows(m0.spec_keys()[x]).remove(
                            m0.row_index_of(m0.spec_keys()[x], e),
                        )
                    } else {
                        m0.spec_rows(m0.spec_keys()[x])
                    }));
                } else {
                    assert(!m1.spec_has_key(k));
                    assert(m1.spec_rows(k) =~= Seq::<(Entity, C)>::empty());
                    assert(m0.spec_rows(k) =~= Seq::<(Entity, C)>::empty());
                    assert(!m0.owns(k, e));
                }
            }
            assert forall|k: u64| true implies !(#[trigger] m1.owns(k, e)) by {
                if m0.owns(k, e) {
                    let w0 = m0.row_index_of(k, e);
                    assert(m0.spec_entities(k)[w0] == e);
                    let rows0 = m0.spec_rows(k);
                    let rows1 = m1.spec_rows(k);
                    assert(rows1 == rows0.remove(w0));
                    assert forall|x: int| 0 <= x < rows1.len() implies #[trigger] rows1[x].0
                        != e by {
                        if x < w0 {
                            assert(rows1[x] == rows0[x]);
                            assert(m0.spec_entities(k)[x] != m0.spec_entities(k)[w0]);
                        } else {
                            assert(rows1[x] == rows0[x + 1]);
                            assert(m0.spec_entities(k)[x + 1] != m0.spec_entities(k)[w0]);
                        }
                    }
                    assert(forall|x: int|
                        0 <= x < m1.spec_entities(k).len() ==> #[trigger] m1.spec_entities(k)[x]
                            == m1.spec_rows(k)[x].0);
                } else {
                    assert(m1.spec_rows(k) == m0.spec_rows(k));
                    assert(m1.spec_entities(k) =~= m0.spec_entities(k));
                }
            }
            assert forall|k: u64, e2: Entity| e2 != e implies (#[trigger] m1.owns(k, e2)
                == m0.owns(k, e2)) by {
                Self::lemma_remove_row_owns(m0, m1, k, e, e2);
            }
            assert forall|k: u64, e2: Entity| e2 != e && m0.owns(k, e2) implies #[trigger] m1
                .spec_value(k, e2) == m0.spec_value(k, e2) by {
                Self::lemma_remove_row_value(m0, m1, k, e, e2);
            }
        }
    }

    /// After removing `e`'s row under `k`, ownership of any other entity is unchanged.
    proof fn lemma_remove_row_owns(m0: Self, m1: Self, k: u64, e: Entity, e2: Entity)
        requires
            m0.wf(),
            m1.spec_rows(k) == (if m0.owns(k, e) {
                m0.spec_rows(k).remove(m0.row_index_of(k, e))
            } else {
                m0.spec_rows(k)
            }),
            e2 != e,
        ensures
            m1.owns(k, e2) == m0.owns(k, e2),
    {
        if m0.owns(k, e) {
            let w0 = m0.row_index_of(k, e);
            assert(m0.spec_entities(k)[w0] == e);
            let rows0 = m0.spec_rows(k);
            let rows1 = m1.spec_rows(k);
            if m0.owns(k, e2) {
                let w = m0.row_index_of(k, e2);
                assert(m0.spec_entities(k)[w] == e2);
                assert(rows0[w].0 == e2);
                assert(w != w0);
                let w1 = if w < w0 {
                    w
                } else {
                    w - 1
                };
                assert(rows1[w1] == rows0[w]);
                assert(m1.spec_entities(k)[w1] == e2);
                assert(m1.owns(k, e2));
            }
            if m1.owns(k, e2) {
                let w = choose|w: int|
                    0 <= w < m1.spec_entities(k).len() && m1.spec_entities(k)[w] == e2;
                assert(rows1[w].0 == e2);
                let w0x = if w < w0 {
                    w
                } else {
                    w + 1
                };
                assert(rows0[w0x].0 == e2);
                assert(m0.spec_entities(k)[w0x] == e2);
                assert(m0.owns(k, e2));
            }
        } else {
            assert(m1.spec_entities(k) =~= m0.spec_entities(k));
        }
    }

    /// After removing `e`'s row under `k`, the value of any other entity is unchanged.
    proof fn lemma_remove_row_value(m0: Self, m1: Self, k: u64, e: Entity, e2: Entity)
        requires
            m0.wf(),
            m1.wf(),
            m1.spec_rows(k) == (if m0.owns(k, e) {
                m0.spec_rows(k).remove(m0.row_index_of(k, e))
            } else {
                m0.spec_rows(k)
            }),
            e2 != e,
            m0.owns(k, e2),
        ensures
            m1.owns(k, e2),
            m1.spec_value(k, e2) == m0.spec_value(k, e2),
    {
        if m0.owns(k, e) {
            let w0 = m0.row_index_of(k, e);
            assert(m0.spec_entities(k)[w0] == e);
            let rows0 = m0.spec_rows(k);
            let rows1 = m1.spec_rows(k);
            let w = m0.row_index_of(k, e2);
            m0.lemma_row_at(k, w);
            assert(m0.spec_entities(k)[w] == e2);
            assert(w != w0);
            let w1 = if w < w0 {
                w
            } else {
                w - 1
            };
            assert(rows1[w1] == rows0[w]);
            m1.lemma_row_at(k, w1);
        } else {
            assert(m1.spec_rows(k) == m0.spec_rows(k));
            assert(m1.spec_entities(k) =~= m0.spec_entities(k));
            let w = m0.row_index_of(k, e2);
            m0.lemma_row_at(k, w);
            m1.lemma_row_at(k, w);
        }
    }
}

/// What `ComponentMap::insert` does: the pair `(e, v)` is stored under `k`,
/// overwriting any value `e` already owned there; a fresh key is appended to the
/// key order and a fresh entity to the table's row order; nothing else changes.
pub open spec fn insert_effect<C>(
    m0: ComponentMap<C>,
    k: u64,
    e: Entity,
    v: C,
    m1: ComponentMap<C>,
) -> bool {
    &&& m1.wf()
    &&& m1.spec_keys() == (if m0.spec_has_key(k) {
        m0.spec_keys()
    } else {
        m0.spec_keys().push(k)
    })
    &&& m1.spec_entities(k) == (if m0.owns(k, e) {
        m0.spec_entities(k)
    } else {
        m0.spec_entities(k).push(e)
    })
    &&& m1.owns(k, e)
    &&& m1.spec_value(k, e) == v
    &&& forall|e2: Entity|
        e2 != e && #[trigger] m0.owns(k, e2) ==> m1.owns(k, e2) && m1.spec_value(k, e2)
            == m0.spec_value(k, e2)
    &&& forall|k2: u64| k2 != k ==> #[trigger] m1.spec_rows(k2) == m0.spec_rows(k2)
}

/// What `ComponentMap::remove` does: `e`'s row under `k` disappears, closing the
/// gap while keeping the order of the remaining rows; absent pairs are a no-op;
/// nothing else changes. The key itself stays registered.
pub open spec fn remove_effect<C>(m0: ComponentMap<C>, k: u64, e: Entity, m1: ComponentMap<C>) -> bool {
    &&& m1.wf()
    &&& m1.spec_keys() == m0.spec_keys()
    &&& m1.spec_rows(k) == (if m0.owns(k, e) {
        m0.spec_rows(k).remove(m0.row_index_of(k, e))
    } else {
        m0.spec_rows(k)
    })
    &&& !m1.owns(k, e)
    &&& forall|e2: Entity|
        e2 != e && #[trigger] m0.owns(k, e2) ==> m1.owns(k, e2) && m1.spec_value(k, e2)
            == m0.spec_value(k, e2)
    &&& forall|e2: Entity| #[trigger] m1.owns(k, e2) ==> m0.owns(k, e2)
    &&& forall|k2: u64| k2 != k ==> #[trigger] m1.spec_rows(k2) == m0.spec_rows(k2)
}

/// What `ComponentMap::set_value` does: the value `e` owns under `k` becomes `v`;
/// the key order and every table's entity order are untouched, as is every other
/// stored value.
pub open spec fn set_value_effect<C>(
    m0: ComponentMap<C>,
    k: u64,
    e: Entity,
    v: C,
    m1: ComponentMap<C>,
) -> bool {
    &&& m1.wf()
    &&& m1.spec_keys() == m0.spec_keys()
    &&& forall|k2: u64| #[trigger] m1.spec_entities(k2) == m0.spec_entities(k2)
    &&& m1.spec_value(k, e) == v
    &&& forall|k2: u64, e2: Entity|
        !(k2 == k && e2 == e) && m0.owns(k2, e2) ==> #[trigger] m1.spec_value(k2, e2)
            == m0.spec_value(k2, e2)
}

/// What `ComponentMap::remove_entity` does: `e`'s row disappears from every table,
/// closing each gap while keeping the order of the remaining rows; nothing else
/// changes. Keys stay registered.
pub open spec fn destroy_effect<C>(m0: ComponentMap<C>, e: Entity, m1: ComponentMap<C>) -> bool {
    &&& m1.wf()
    &&& m1.spec_keys() == m0.spec_keys()
    &&& forall|k: u64|
        #[trigger] m1.spec_rows(k) == (if m0.owns(k, e) {
            m0.spec_rows(k).remove(m0.row_index_of(k, e))
        } else {
            m0.spec_rows(k)
        })
    &&& forall|k: u64| !(#[trigger] m1.owns(k, e))
    &&& forall|k: u64, e2: Entity|
        e2 != e ==> (#[trigger] m1.owns(k, e2) == m0.owns(k, e2))
    &&& forall|k: u64, e2: Entity|
        e2 != e && m0.owns(k, e2) ==> #[trigger] m1.spec_value(k, e2) == m0.spec_value(k, e2)
}

} // verus!
