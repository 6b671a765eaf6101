//! The world facade and its scheduler.
//!
//! A [`Master`] owns the entity id allocator, the component store, and the ordered
//! system list. One call to [`Master::run`] is a tick: every registered system
//! executes exactly once, in registration order. For each system the scheduler
//! fetches the declared argument snapshots in declared left-to-right order,
//! checking for aliasing conflicts at fetch time; on success the system body runs
//! and the exclusive snapshots are written back to the store before the next
//! system starts.

use vstd::prelude::*;

use crate::arguments::arg_matches;
use crate::arguments::lemma_filtered_entities;
use crate::arguments::lemma_filtered_entities_distinct;
use crate::arguments::lemma_match_seq_congruence;
use crate::arguments::lemma_match_seq_contains;
use crate::arguments::match_seq;
use crate::arguments::query_snapshot;
use crate::arguments::row_entities;
use crate::arguments::Fetched;
use crate::arguments::QueryFilter;
use crate::arguments::QueryMut;
use crate::store::destroy_effect;
use crate::store::insert_effect;
use crate::store::remove_effect;
use crate::store::ComponentMap;
use crate::systems::AccessMode;
use crate::systems::ArgSpec;
use crate::systems::FnSystem;
use crate::systems::System;
use crate::Component;
use crate::EcsError;
use crate::Entity;

verus! {

/// Two declared arguments of one system conflict when they query the same
/// component type key, at least one of them exclusively, and some entity belongs
/// to both match sets: the same `(type, entity)` pair would be live under an
/// exclusive borrow and another borrow at once.
pub open spec fn args_conflict<C>(m: ComponentMap<C>, a: ArgSpec, b: ArgSpec) -> bool {
    &&& a.key == b.key
    &&& (a.mode is Exclusive || b.mode is Exclusive)
    &&& exists|e: Entity|
        #[trigger] arg_matches(m, a.key, a.filter, e) && arg_matches(m, b.key, b.filter, e)
}

/// Whether one system's declared argument list can be fetched from store `m`
/// without an aliasing conflict between any two of its arguments.
pub open spec fn fetch_ok<C>(m: ComponentMap<C>, args: Seq<ArgSpec>) -> bool {
    forall|i: int, j: int|
        0 <= i < j < args.len() ==> !args_conflict(m, #[trigger] args[i], #[trigger] args[j])
}

/// Whether the pair `(k, e)` is exclusively matched by some argument of `args`
/// against store `m`: only such pairs may change during the invocation.
pub open spec fn writable<C>(m: ComponentMap<C>, args: Seq<ArgSpec>, k: u64, e: Entity) -> bool {
    exists|i: int|
        0 <= i < args.len() && (#[trigger] args[i]).mode is Exclusive && args[i].key == k
            && arg_matches(m, k, args[i].filter, e)
}

/// How one system invocation with declared arguments `args` may take the store
/// from `m0` to `m1`: the key order and every table's entity order are untouched,
/// and only values at exclusively matched pairs may have changed.
pub open spec fn step_rel<C>(m0: ComponentMap<C>, args: Seq<ArgSpec>, m1: ComponentMap<C>) -> bool {
    &&& m1.wf()
    &&& m1.spec_keys() == m0.spec_keys()
    &&& forall|k: u64| #[trigger] m1.spec_entities(k) == m0.spec_entities(k)
    &&& forall|k: u64, e: Entity|
        m0.owns(k, e) && !writable(m0, args, k, e) ==> #[trigger] m1.spec_value(k, e)
            == m0.spec_value(k, e)
}

/// How one full tick over the systems with declared argument lists `argss` may
/// take the store from `m0` to `m1`: a chain of per-system steps, in list order,
/// each fetched without conflict.
pub open spec fn pass_rel<C>(
    m0: ComponentMap<C>,
    argss: Seq<Seq<ArgSpec>>,
    m1: ComponentMap<C>,
) -> bool
    decreases argss.len(),
{
    if argss.len() == 0 {
        m1 == m0
    } else {
        exists|mid: ComponentMap<C>|
            {
                &&& fetch_ok(m0, argss[0])
                &&& #[trigger] step_rel(m0, argss[0], mid)
                &&& pass_rel(mid, argss.drop_first(), m1)
            }
    }
}

/// Whether some pair of arguments in `args` conflicts on store `m` over the
/// component type key `k`: the key an aliasing failure reports.
pub open spec fn conflict_key<C>(m: ComponentMap<C>, args: Seq<ArgSpec>, k: u64) -> bool {
    exists|i: int, j: int|
        0 <= i < j < args.len() && #[trigger] args_conflict(m, args[i], args[j]) && args[i].key
            == k
}

/// How a tick over `argss` fails from store `m0`, leaving store `mf`: a chain of
/// conflict-free per-system steps, in list order, reaching a system whose
/// arguments conflict over component type key `k`; the store is left as that
/// system found it.
pub open spec fn run_fails<C>(
    m0: ComponentMap<C>,
    argss: Seq<Seq<ArgSpec>>,
    mf: ComponentMap<C>,
    k: u64,
) -> bool
    decreases argss.len(),
{
    if argss.len() == 0 {
        false
    } else {
        ||| (!fetch_ok(m0, argss[0]) && mf == m0 && conflict_key(m0, argss[0], k))
        ||| (fetch_ok(m0, argss[0]) && exists|mid: ComponentMap<C>|
            #[trigger] step_rel(m0, argss[0], mid) && run_fails(mid, argss.drop_first(), mf, k))
    }
}

/// Extends a tick chain by one more conflict-free step at its end.
proof fn lemma_pass_snoc<C>(
    m0: ComponentMap<C>,
    argss: Seq<Seq<ArgSpec>>,
    m1: ComponentMap<C>,
    a: Seq<ArgSpec>,
    m2: ComponentMap<C>,
)
    requires
        pass_rel(m0, argss, m1),
        fetch_ok(m1, a),
        step_rel(m1, a, m2),
    ensures
        pass_rel(m0, argss.push(a), m2),
    decreases argss.len(),
{
    if argss.len() == 0 {
        assert(m1 == m0);
        assert(argss.push(a)[0] == a);
        assert(argss.push(a).drop_first() =~= Seq::<Seq<ArgSpec>>::empty());
        assert(step_rel(m0, argss.push(a)[0], m2));
        assert(pass_rel(m2, argss.push(a).drop_first(), m2));
    } else {
        let mid = choose|mid: ComponentMap<C>|
            {
                &&& fetch_ok(m0, argss[0])
                &&& #[trigger] step_rel(m0, argss[0], mid)
                &&& pass_rel(mid, argss.drop_first(), m1)
            };
        lemma_pass_snoc(mid, argss.drop_first(), m1, a, m2);
        assert(argss.push(a).drop_first() =~= argss.drop_first().push(a));
        assert(argss.push(a)[0] == argss[0]);
        assert(step_rel(m0, argss.push(a)[0], mid));
    }
}

/// A completed chain followed by a system whose arguments conflict over key `k`
/// is a failing tick over the concatenated list, stopping at the conflict with
/// the store as reached.
proof fn lemma_pass_then_fail<C>(
    m0: ComponentMap<C>,
    prefix: Seq<Seq<ArgSpec>>,
    m1: ComponentMap<C>,
    rest: Seq<Seq<ArgSpec>>,
    k: u64,
)
    requires
        pass_rel(m0, prefix, m1),
        rest.len() > 0,
        !fetch_ok(m1, rest[0]),
        conflict_key(m1, rest[0], k),
    ensures
        run_fails(m0, prefix + rest, m1, k),
    decreases prefix.len(),
{
    if prefix.len() == 0 {
        assert(m1 == m0);
        assert(prefix + rest =~= rest);
    } else {
        let mid = choose|mid: ComponentMap<C>|
            {
                &&& fetch_ok(m0, prefix[0])
                &&& #[trigger] step_rel(m0, prefix[0], mid)
                &&& pass_rel(mid, prefix.drop_first(), m1)
            };
        lemma_pass_then_fail(mid, prefix.drop_first(), m1, rest, k);
        assert((prefix + rest).drop_first() =~= prefix.drop_first() + rest);
        assert((prefix + rest)[0] == prefix[0]);
        assert(step_rel(m0, (prefix + rest)[0], mid));
    }
}

/// Evaluates whether entity `e` belongs in a query of key `key` with filter `f`.
fn arg_matches_exec<C: Component>(
    m: &ComponentMap<C>,
    key: u64,
    f: QueryFilter,
    e: Entity,
) -> (b: bool)
    requires
        m.wf(),
    ensures
        b == arg_matches(*m, key, f, e),
{
    m.has_component(key, e) && f.accepts(m, e)
}

/// Decides whether two declared arguments conflict on store `m`.
fn pair_conflicts<C: Component>(m: &ComponentMap<C>, a: &ArgSpec, b: &ArgSpec) -> (r: bool)
    requires
        m.wf(),
    ensures
        r == args_conflict(*m, *a, *b),
{
    if a.key != b.key {
        return false;
    }
    let either_exclusive = matches!(a.mode, AccessMode::Exclusive) || matches!(
        b.mode,
        AccessMode::Exclusive,
    );
    if !either_exclusive {
        return false;
    }
    let n = m.table_len(a.key);
    let mut i: usize = 0;
    while i < n
        invariant
            m.wf(),
            a.key == b.key,
            a.mode is Exclusive || b.mode is Exclusive,
            n == m.spec_entities(a.key).len(),
            i <= n,
            forall|j: int|
                0 <= j < i ==> !(arg_matches(*m, a.key, a.filter, #[trigger] m.spec_entities(
                    a.key,
                )[j]) && arg_matches(*m, b.key, b.filter, m.spec_entities(a.key)[j])),
        decreases n - i,
    {
        let e = m.entity_at(a.key, i);
        if arg_matches_exec(m, a.key, a.filter, e) && arg_matches_exec(m, b.key, b.filter, e) {
            proof {
                assert(arg_matches(*m, a.key, a.filter, e) && arg_matches(*m, b.key, b.filter, e));
            }
            return true;
        }
        i += 1;
    }
    proof {
        if args_conflict(*m, *a, *b) {
            let e = choose|e: Entity|
                #[trigger] arg_matches(*m, a.key, a.filter, e) && arg_matches(
                    *m,
                    b.key,
                    b.filter,
                    e,
                );
            assert(m.owns(a.key, e));
            let w = choose|w: int|
                0 <= w < m.spec_entities(a.key).len() && m.spec_entities(a.key)[w] == e;
            assert(!(arg_matches(*m, a.key, a.filter, m.spec_entities(a.key)[w]) && arg_matches(
                *m,
                b.key,
                b.filter,
                m.spec_entities(a.key)[w],
            )));
        }
    }
    false
}

/// Checks whether a declared argument list can be fetched from `m` without an
/// aliasing conflict between any two of its arguments; on a conflict, reports
/// the implicated component type key.
fn check_args<C: Component>(m: &ComponentMap<C>, specs: &Vec<ArgSpec>) -> (r: Option<u64>)
    requires
        m.wf(),
    ensures
        match r {
            None => fetch_ok(*m, specs@),
            Some(k) => !fetch_ok(*m, specs@) && conflict_key(*m, specs@, k),
        },
{
    let n = specs.len();
    let mut i: usize = 0;
    while i < n
        invariant
            m.wf(),
            n == specs@.len(),
            i <= n,
            forall|x: int, y: int|
                0 <= x < y < i ==> !args_conflict(*m, #[trigger] specs@[x], #[trigger] specs@[y]),
        decreases n - i,
    {
        let mut j: usize = 0;
        while j < i
            invariant
                m.wf(),
                n == specs@.len(),
                i < n,
                j <= i,
                forall|x: int, y: int|
                    0 <= x < y < i ==> !args_conflict(
                        *m,
                        #[trigger] specs@[x],
                        #[trigger] specs@[y],
                    ),
                forall|x: int|
                    0 <= x < j ==> !args_conflict(*m, #[trigger] specs@[x], specs@[i as int]),
            decreases i - j,
        {
            if pair_conflicts(m, &specs[j], &specs[i]) {
                proof {
                    assert(args_conflict(*m, specs@[j as int], specs@[i as int]));
                    assert(conflict_key(*m, specs@, specs@[j as int].key));
                }
                return Some(specs[j].key);
            }
            j += 1;
        }
        i += 1;
    }
    None
}

/// Fetches the snapshots a declared argument list asks for, in declared order.
fn fetch_args<C: Component>(m: &ComponentMap<C>, specs: &Vec<ArgSpec>) -> (out: Vec<Fetched<C>>)
    requires
        m.wf(),
    ensures
        out@.len() == specs@.len(),
        forall|i: int|
            0 <= i < out@.len() ==> fetched_matches(*m, specs@[i], #[trigger] out@[i]),
{
    let n = specs.len();
    let mut out: Vec<Fetched<C>> = Vec::new();
    let mut i: usize = 0;
    while i < n
        invariant
            m.wf(),
            n == specs@.len(),
            i <= n,
            out@.len() == i,
            forall|x: int|
                0 <= x < out@.len() ==> fetched_matches(*m, specs@[x], #[trigger] out@[x]),
        decreases n - i,
    {
        let spec = &specs[i];
        match spec.mode {
            AccessMode::Shared => {
                out.push(Fetched::Shared(m.query_components(spec.key, spec.filter)));
            },
            AccessMode::Exclusive => {
                out.push(Fetched::Exclusive(m.query_components_mut(spec.key, spec.filter)));
            },
        }
        i += 1;
    }
    out
}

/// What one fetched snapshot holds for its declared argument: the right borrow
/// mode, and the argument's match set paired with the stored values.
pub open spec fn fetched_matches<C>(m: ComponentMap<C>, a: ArgSpec, f: Fetched<C>) -> bool {
    match f {
        Fetched::Shared(q) => a.mode is Shared && query_snapshot(m, a.key, a.filter, q@),
        Fetched::Exclusive(q) => a.mode is Exclusive && q.spec_key() == a.key && query_snapshot(
            m,
            a.key,
            a.filter,
            q@,
        ),
    }
}

/// The `(entity, value)` rows a fetched snapshot holds.
pub open spec fn snapshot_rows<C>(f: Fetched<C>) -> Seq<(Entity, C)> {
    match f {
        Fetched::Shared(q) => q@,
        Fetched::Exclusive(q) => q@,
    }
}

/// What writing one declared argument back achieves: whenever the argument is
/// exclusive and its fetched slot holds an exclusive snapshot with one row per
/// matched entity — the only shape a system body can leave through the
/// snapshot's own mutators, which keep entities and length — every matched
/// entity's stored value becomes the corresponding snapshot row's value.
pub open spec fn arg_write_applied<C>(
    m0: ComponentMap<C>,
    a: ArgSpec,
    f: Fetched<C>,
    m1: ComponentMap<C>,
) -> bool {
    (a.mode is Exclusive && f is Exclusive && snapshot_rows(f).len() == match_seq(
        m0,
        a.key,
        a.filter,
    ).len()) ==> (forall|j: int|
        0 <= j < match_seq(m0, a.key, a.filter).len() ==> m1.spec_value(
            a.key,
            #[trigger] match_seq(m0, a.key, a.filter)[j],
        ) == snapshot_rows(f)[j].1)
}

/// What write-back achieves for a whole invocation: the rows of every declared
/// exclusive argument's snapshot land in the store, position by position over
/// the argument's match set.
pub open spec fn writes_applied<C>(
    m0: ComponentMap<C>,
    specs: Seq<ArgSpec>,
    fetched: Seq<Fetched<C>>,
    m1: ComponentMap<C>,
) -> bool {
    forall|i: int|
        0 <= i < specs.len() && i < fetched.len() ==> arg_write_applied(
            m0,
            #[trigger] specs[i],
            #[trigger] fetched[i],
            m1,
        )
}

/// Writes one declared exclusive argument's snapshot back: the value of row `j`
/// replaces the stored value of the `j`-th entity of the argument's match set
/// against `m0`, the store as the invocation fetched it. Only pairs the argument
/// matches change. A snapshot whose row count no longer equals the match set's
/// size — impossible through the snapshot mutators — is skipped whole.
fn write_back_arg<C: Component>(
    m: &mut ComponentMap<C>,
    specs: &Vec<ArgSpec>,
    idx: usize,
    q: &QueryMut<C>,
    Ghost(m0): Ghost<ComponentMap<C>>,
)
    requires
        m0.wf(),
        old(m).wf(),
        idx < specs@.len(),
        specs@[idx as int].mode is Exclusive,
        old(m).spec_keys() == m0.spec_keys(),
        forall|k: u64| #[trigger] old(m).spec_entities(k) == m0.spec_entities(k),
    ensures
        final(m).wf(),
        final(m).spec_keys() == m0.spec_keys(),
        forall|k: u64| #[trigger] final(m).spec_entities(k) == m0.spec_entities(k),
        forall|k: u64, e: Entity|
            m0.owns(k, e) && !(k == specs@[idx as int].key && match_seq(
                m0,
                k,
                specs@[idx as int].filter,
            ).contains(e)) ==> #[trigger] final(m).spec_value(k, e) == old(m).spec_value(k, e),
        q@.len() == match_seq(m0, specs@[idx as int].key, specs@[idx as int].filter).len()
            ==> forall|j: int|
            0 <= j < q@.len() ==> final(m).spec_value(
                specs@[idx as int].key,
                #[trigger] match_seq(m0, specs@[idx as int].key, specs@[idx as int].filter)[j],
            ) == q@[j].1,
{
    let a_key = specs[idx].key;
    let a_filter = specs[idx].filter;
    let targets = m.query_components(a_key, a_filter);
    let ghost ms = match_seq(m0, a_key, a_filter);
    proof {
        lemma_match_seq_congruence(*m, m0, a_key, a_filter);
        assert(row_entities(targets@) == ms);
    }
    if q.len() != targets.len() {
        return ;
    }
    let cnt = targets.len();
    let mut j: usize = 0;
    while j < cnt
        invariant
            m0.wf(),
            m.wf(),
            idx < specs@.len(),
            a_key == specs@[idx as int].key,
            a_filter == specs@[idx as int].filter,
            ms == match_seq(m0, a_key, a_filter),
            row_entities(targets@) == ms,
            cnt == ms.len(),
            cnt == q@.len(),
            j <= cnt,
            m.spec_keys() == m0.spec_keys(),
            forall|k: u64| #[trigger] m.spec_entities(k) == m0.spec_entities(k),
            forall|k: u64, e: Entity|
                m0.owns(k, e) && !(k == a_key && ms.contains(e)) ==> #[trigger] m.spec_value(k, e)
                    == old(m).spec_value(k, e),
            forall|j2: int| 0 <= j2 < j ==> m.spec_value(a_key, #[trigger] ms[j2]) == q@[j2].1,
        decreases cnt - j,
    {
        let e = targets.entity(j);
        let v = q.value(j);
        let ghost mpre = *m;
        proof {
            // row j's target is the j-th matched entity, which the store owns
            lemma_filtered_entities(m0, a_filter, m0.spec_entities(a_key));
            assert(targets@[j as int].0 == row_entities(targets@)[j as int]);
            assert(e == ms[j as int]);
            assert(m0.spec_entities(a_key).contains(e));
            assert(mpre.spec_entities(a_key) == m0.spec_entities(a_key));
            assert(mpre.owns(a_key, e));
        }
        m.set_value(a_key, e, v);
        proof {
            // the one changed pair is (a_key, ms[j]): inside this argument's
            // match set, and distinct from every already written row's pair
            lemma_filtered_entities_distinct(m0, a_filter, m0.spec_entities(a_key));
            assert(ms.contains(e)) by {
                assert(ms[j as int] == e);
            }
            assert forall|k: u64, e2: Entity|
                m0.owns(k, e2) && !(k == a_key && ms.contains(e2)) implies #[trigger] m.spec_value(
                k,
                e2,
            ) == old(m).spec_value(k, e2) by {
                assert(!(k == a_key && e2 == e));
                assert(m.spec_value(k, e2) == mpre.spec_value(k, e2));
            }
            assert forall|j2: int| 0 <= j2 < j + 1 implies m.spec_value(
                a_key,
                #[trigger] ms[j2],
            ) == q@[j2].1 by {
                if j2 < j {
                    assert(ms[j2] != ms[j as int]);
                    assert(m.spec_value(a_key, ms[j2]) == mpre.spec_value(a_key, ms[j2]));
                } else {
                    assert(ms[j2] == e);
                }
            }
        }
        j += 1;
    }
}

/// Writes the exclusive snapshots of one invocation back to the store. For each
/// declared exclusive argument, the snapshot rows the system body left replace
/// the stored values of the argument's matched entities, row by row
/// (`writes_applied`): this contract pins the resulting store for every value
/// the body can leave in the snapshots. Every other pair keeps its value, and no
/// table's entity order changes (`step_rel`).
pub fn write_back<C: Component>(
    m: &mut ComponentMap<C>,
    specs: &Vec<ArgSpec>,
    fetched: &Vec<Fetched<C>>,
)
    requires
        old(m).wf(),
        fetch_ok(*old(m), specs@),
    ensures
        step_rel(*old(m), specs@, *final(m)),
        writes_applied(*old(m), specs@, fetched@, *final(m)),
{
    let ghost m0 = *old(m);
    let n = specs.len();
    let mut idx: usize = 0;
    while idx < n
        invariant
            m0 == *old(m),
            m0.wf(),
            m.wf(),
            fetch_ok(m0, specs@),
            n == specs@.len(),
            idx <= n,
            m.spec_keys() == m0.spec_keys(),
            forall|k: u64| #[trigger] m.spec_entities(k) == m0.spec_entities(k),
            forall|k: u64, e: Entity|
                m0.owns(k, e) && !writable(m0, specs@, k, e) ==> #[trigger] m.spec_value(k, e)
                    == m0.spec_value(k, e),
            forall|i: int|
                0 <= i < idx && i < fetched@.len() ==> arg_write_applied(
                    m0,
                    #[trigger] specs@[i],
                    #[trigger] fetched@[i],
                    *m,
                ),
        decreases n - idx,
    {
        if idx < fetched.len() {
            let spec_exclusive = matches!(specs[idx].mode, AccessMode::Exclusive);
            match &fetched[idx] {
                Fetched::Shared(_) => {},
                Fetched::Exclusive(q) => {
                    if spec_exclusive {
                        let ghost mpre = *m;
                        write_back_arg(m, specs, idx, q, Ghost(m0));
                        proof {
                            let a = specs@[idx as int];
                            let ms = match_seq(m0, a.key, a.filter);
                            // pairs this argument wrote are writable, so the
                            // global frame over non-writable pairs is kept
                            assert forall|k: u64, e: Entity|
                                m0.owns(k, e) && !writable(m0, specs@, k, e)
                                    implies #[trigger] m.spec_value(k, e) == m0.spec_value(
                                k,
                                e,
                            ) by {
                                if k == a.key && ms.contains(e) {
                                    lemma_match_seq_contains(m0, a.key, a.filter, e);
                                    assert(arg_matches(m0, k, a.filter, e));
                                    assert(writable(m0, specs@, k, e));
                                } else {
                                    assert(m.spec_value(k, e) == mpre.spec_value(k, e));
                                }
                            }
                            // earlier arguments' landed rows are outside this
                            // argument's match set, else the two would conflict
                            assert forall|i: int|
                                0 <= i < idx + 1 && i < fetched@.len() implies arg_write_applied(
                                    m0,
                                    #[trigger] specs@[i],
                                    #[trigger] fetched@[i],
                                    *m,
                                ) by {
                                if i < idx {
                                    lemma_arg_write_preserved(
                                        m0,
                                        specs@,
                                        i,
                                        idx as int,
                                        fetched@[i],
                                        mpre,
                                        *m,
                                    );
                                } else {
                                    assert(snapshot_rows(fetched@[idx as int]) == q@);
                                }
                            }
                        }
                    }
                },
            }
        }
        idx += 1;
    }
}

/// An earlier exclusive argument's landed rows survive a later argument's
/// write-back: under conflict freedom the two match sets cannot share a pair,
/// so the later argument's writes leave the earlier rows' values alone.
proof fn lemma_arg_write_preserved<C>(
    m0: ComponentMap<C>,
    specs: Seq<ArgSpec>,
    i: int,
    idx: int,
    f: Fetched<C>,
    mpre: ComponentMap<C>,
    mpost: ComponentMap<C>,
)
    requires
        m0.wf(),
        fetch_ok(m0, specs),
        0 <= i < idx < specs.len(),
        specs[idx].mode is Exclusive,
        arg_write_applied(m0, specs[i], f, mpre),
        forall|k: u64, e: Entity|
            m0.owns(k, e) && !(k == specs[idx].key && match_seq(
                m0,
                k,
                specs[idx].filter,
            ).contains(e)) ==> #[trigger] mpost.spec_value(k, e) == mpre.spec_value(k, e),
    ensures
        arg_write_applied(m0, specs[i], f, mpost),
{
    let a = specs[i];
    let b = specs[idx];
    if a.mode is Exclusive && f is Exclusive && snapshot_rows(f).len() == match_seq(
        m0,
        a.key,
        a.filter,
    ).len() {
        let ms = match_seq(m0, a.key, a.filter);
        assert forall|j: int| 0 <= j < ms.len() implies mpost.spec_value(
            a.key,
            #[trigger] ms[j],
        ) == snapshot_rows(f)[j].1 by {
            let e = ms[j];
            lemma_match_seq_contains(m0, a.key, a.filter, e);
            assert(m0.owns(a.key, e));
            if a.key == b.key && match_seq(m0, a.key, b.filter).contains(e) {
                // both arguments would match e exclusively: a conflict
                lemma_match_seq_contains(m0, b.key, b.filter, e);
                assert(arg_matches(m0, a.key, a.filter, e));
                assert(arg_matches(m0, b.key, b.filter, e));
                assert(args_conflict(m0, specs[i], specs[idx]));
                assert(false);
            }
            assert(mpost.spec_value(a.key, e) == mpre.spec_value(a.key, e));
        }
    }
}

/// The aggregate owning entity allocation, the component store and the ordered
/// system list; orchestrates one scheduling pass per [`Master::run`] call.
///
/// `C` is the host's closed component value type; `K` is the host's system body
/// type (usually an enum over its system kinds).
pub struct Master<C: Component, K: System<C>> {
    next_entity: usize,
    components: ComponentMap<C>,
    systems: Vec<(usize, FnSystem<C, K>)>,
    next_system_id: usize,
}

impl<C: Component, K: System<C>> Master<C, K> {
    /// The id the next created entity will carry; every id already issued by this
    /// world is strictly smaller.
    pub closed spec fn spec_next_entity(&self) -> int {
        self.next_entity as int
    }

    /// The component store.
    pub closed spec fn spec_components(&self) -> ComponentMap<C> {
        self.components
    }

    /// The id the next registered system will carry.
    pub closed spec fn spec_next_system_id(&self) -> int {
        self.next_system_id as int
    }

    /// The registered systems in registration order: each one's id and declared
    /// argument list.
    pub closed spec fn spec_systems(&self) -> Seq<(usize, Seq<ArgSpec>)> {
        self.systems@.map_values(|p: (usize, FnSystem<C, K>)| (p.0, p.1.args@))
    }

    /// The registered system ids, in registration order.
    pub open spec fn spec_system_ids(&self) -> Seq<usize> {
        self.spec_systems().map_values(|p: (usize, Seq<ArgSpec>)| p.0)
    }

    /// The registered systems' declared argument lists, in registration order.
    pub open spec fn spec_system_args(&self) -> Seq<Seq<ArgSpec>> {
        self.spec_systems().map_values(|p: (usize, Seq<ArgSpec>)| p.1)
    }

    /// Well-formedness of the world: its component store is well-formed.
    pub open spec fn wf(&self) -> bool {
        self.spec_components().wf()
    }

    /// Builds an empty world: no entities issued, no components stored, no
    /// systems registered.
    pub fn new() -> (w: Master<C, K>)
        ensures
            w.wf(),
            w.spec_next_entity() == 0,
            w.spec_next_system_id() == 0,
            w.spec_components().spec_keys() == Seq::<u64>::empty(),
            forall|k: u64|
                #[trigger] w.spec_components().spec_rows(k) == Seq::<(Entity, C)>::empty(),
            w.spec_systems() == Seq::<(usize, Seq<ArgSpec>)>::empty(),
    {
        let w = Master {
            next_entity: 0,
            components: ComponentMap::new(),
            systems: Vec::new(),
            next_system_id: 0,
        };
        proof {
            assert(w.spec_systems() =~= Seq::<(usize, Seq<ArgSpec>)>::empty());
        }
        w
    }

    /// A view of the component store, for querying outside a scheduling pass.
    pub fn components(&self) -> (m: &ComponentMap<C>)
        ensures
            *m == self.spec_components(),
    {
        &self.components
    }

    /// The id the next created entity will carry. Strictly larger than every id
    /// this world has issued; callers may use it to check that the allocator has
    /// room before creating an entity.
    pub fn next_entity_id(&self) -> (n: usize)
        ensures
            n == self.spec_next_entity(),
    {
        self.next_entity
    }

    /// The id the next registered system will carry.
    pub fn next_system_id(&self) -> (n: usize)
        ensures
            n == self.spec_next_system_id(),
    {
        self.next_system_id
    }

    /// Allocates and returns the next entity id. Ids are issued in strictly
    /// increasing order and never reused within this world's lifetime.
    pub fn create_entity(&mut self) -> (e: Entity)
        requires
            old(self).wf(),
            old(self).spec_next_entity() < usize::MAX,
        ensures
            final(self).wf(),
            e.spec_id() == old(self).spec_next_entity(),
            final(self).spec_next_entity() == old(self).spec_next_entity() + 1,
            final(self).spec_components() == old(self).spec_components(),
            final(self).spec_systems() == old(self).spec_systems(),
            final(self).spec_next_system_id() == old(self).spec_next_system_id(),
    {
        let e = Entity::from_id(self.next_entity);
        self.next_entity += 1;
        e
    }

    /// Attaches component value `v` of type key `key` to entity `e`, overwriting
    /// any value `e` already owned under that key. Must only be invoked between
    /// scheduling passes.
    pub fn add_component(&mut self, e: Entity, key: u64, v: C)
        requires
            old(self).wf(),
        ensures
            final(self).wf(),
            insert_effect(
                old(self).spec_components(),
                key,
                e,
                v,
                final(self).spec_components(),
            ),
            final(self).spec_next_entity() == old(self).spec_next_entity(),
            final(self).spec_systems() == old(self).spec_systems(),
            final(self).spec_next_system_id() == old(self).spec_next_system_id(),
    {
        self.components.insert(key, e, v);
    }

    /// Detaches the component of type key `key` from entity `e`; a no-op, never a
    /// failure, if `e` owns none. Must only be invoked between scheduling passes.
    pub fn remove_component(&mut self, e: Entity, key: u64)
        requires
            old(self).wf(),
        ensures
            final(self).wf(),
            remove_effect(old(self).spec_components(), key, e, final(self).spec_components()),
            final(self).spec_next_entity() == old(self).spec_next_entity(),
            final(self).spec_systems() == old(self).spec_systems(),
            final(self).spec_next_system_id() == old(self).spec_next_system_id(),
    {
        self.components.remove(key, e);
    }

    /// Detaches every component owned by entity `e`, across all component type
    /// keys. The id itself is never reissued. Must only be invoked between
    /// scheduling passes.
    pub fn destroy_entity(&mut self, e: Entity)
        requires
            old(self).wf(),
        ensures
            final(self).wf(),
            destroy_effect(old(self).spec_components(), e, final(self).spec_components()),
            final(self).spec_next_entity() == old(self).spec_next_entity(),
            final(self).spec_systems() == old(self).spec_systems(),
            final(self).spec_next_system_id() == old(self).spec_next_system_id(),
    {
        self.components.remove_entity(e);
    }

    /// Registers a system; registration order fixes execution order. Returns the
    /// system's id, for use with [`Master::remove_system`].
    pub fn add_system(&mut self, s: FnSystem<C, K>) -> (id: usize)
        requires
            old(self).wf(),
            old(self).spec_next_system_id() < usize::MAX,
        ensures
            final(self).wf(),
            id == old(self).spec_next_system_id(),
            final(self).spec_next_system_id() == old(self).spec_next_system_id() + 1,
            final(self).spec_systems() == old(self).spec_systems().push((id, s.spec_args())),
            final(self).spec_next_entity() == old(self).spec_next_entity(),
            final(self).spec_components() == old(self).spec_components(),
    {
        let id = self.next_system_id;
        self.next_system_id += 1;
        self.systems.push((id, s));
        proof {
            s.lemma_spec_args();
            assert(self.spec_systems() =~= old(self).spec_systems().push((id, s.spec_args())));
        }
        id
    }

    /// Unregisters every system carrying `id`, keeping the registration order of
    /// the others; a no-op if no registered system carries it.
    pub fn remove_system(&mut self, id: usize)
        requires
            old(self).wf(),
        ensures
            final(self).wf(),
            final(self).spec_systems() == old(self).spec_systems().filter(
                |p: (usize, Seq<ArgSpec>)| p.0 != id,
            ),
            final(self).spec_next_entity() == old(self).spec_next_entity(),
            final(self).spec_components() == old(self).spec_components(),
            final(self).spec_next_system_id() == old(self).spec_next_system_id(),
    {
        broadcast use vstd::seq_lib::group_filter_ensures;

        let ghost orig = self.spec_systems();
        let n0 = self.systems.len();
        let mut kept: Vec<(usize, FnSystem<C, K>)> = Vec::new();
        let mut consumed: usize = 0;
        proof {
            assert(orig.take(0int).filter(|p: (usize, Seq<ArgSpec>)| p.0 != id) =~= Seq::<
                (usize, Seq<ArgSpec>),
            >::empty()) by {
                reveal_with_fuel(Seq::filter, 2);
                assert(orig.take(0int) =~= Seq::<(usize, Seq<ArgSpec>)>::empty());
            }
            assert(kept@.map_values(|p: (usize, FnSystem<C, K>)| (p.0, p.1.args@)) =~= Seq::<
                (usize, Seq<ArgSpec>),
            >::empty());
        }
        while self.systems.len() > 0
            invariant
                orig == old(self).spec_systems(),
                n0 == orig.len(),
                consumed <= n0,
                consumed + self.systems@.len() == orig.len(),
                self.spec_systems() =~= orig.skip(consumed as int),
                kept@.map_values(|p: (usize, FnSystem<C, K>)| (p.0, p.1.args@)) =~= orig.take(
                    consumed as int,
                ).filter(|p: (usize, Seq<ArgSpec>)| p.0 != id),
                self.spec_components() == old(self).spec_components(),
                self.spec_next_entity() == old(self).spec_next_entity(),
                self.spec_next_system_id() == old(self).spec_next_system_id(),
            decreases self.systems@.len(),
        {
            let ghost pre = *self;
            let p = self.systems.remove(0);
            proof {
                assert(p == pre.systems@[0]);
                assert(pre.spec_systems()[0] == (p.0, p.1.args@));
                assert((p.0, p.1.args@) == orig[consumed as int]);
                pre.systems@.remove_ensures(0);
                assert(self.systems@ == pre.systems@.remove(0));
                assert(self.spec_systems() =~= orig.skip(consumed as int + 1)) by {
                    assert forall|x: int| 0 <= x < self.spec_systems().len() implies self
                        .spec_systems()[x] == orig.skip(consumed as int + 1)[x] by {
                        assert(self.spec_systems()[x] == (
                            self.systems@[x].0,
                            self.systems@[x].1.args@,
                        ));
                        assert(self.systems@[x] == pre.systems@[x + 1]);
                        assert(pre.spec_systems()[x + 1] == (
                            pre.systems@[x + 1].0,
                            pre.systems@[x + 1].1.args@,
                        ));
                        assert(pre.spec_systems()[x + 1] == orig.skip(consumed as int)[x + 1]);
                    }
                }
                assert(orig.take(consumed as int + 1) =~= orig.take(consumed as int).push(
                    orig[consumed as int],
                ));
                Seq::filter_distributes_over_add(
                    orig.take(consumed as int),
                    seq![orig[consumed as int]],
                    |q: (usize, Seq<ArgSpec>)| q.0 != id,
                );
                assert(orig.take(consumed as int).push(orig[consumed as int]) =~= orig.take(
                    consumed as int,
                ) + seq![orig[consumed as int]]);
                assert(seq![orig[consumed as int]].filter(|q: (usize, Seq<ArgSpec>)| q.0 != id)
                    =~= (if orig[consumed as int].0 != id {
                    seq![orig[consumed as int]]
                } else {
                    Seq::<(usize, Seq<ArgSpec>)>::empty()
                })) by {
                    reveal_with_fuel(Seq::filter, 2);
                    assert(seq![orig[consumed as int]].drop_last() =~= Seq::<
                        (usize, Seq<ArgSpec>),
                    >::empty());
                }
            }
            if p.0 != id {
                kept.push(p);
                proof {
                    assert(kept@.map_values(|q: (usize, FnSystem<C, K>)| (q.0, q.1.args@))
                        =~= orig.take(consumed as int + 1).filter(
                        |q: (usize, Seq<ArgSpec>)| q.0 != id,
                    ));
                }
            } else {
                proof {
                    assert(kept@.map_values(|q: (usize, FnSystem<C, K>)| (q.0, q.1.args@))
                        =~= orig.take(consumed as int + 1).filter(
                        |q: (usize, Seq<ArgSpec>)| q.0 != id,
                    ));
                }
            }
            consumed += 1;
        }
        self.systems = kept;
        proof {
            assert(orig.take(consumed as int) =~= orig);
            assert(final(self).spec_systems() =~= orig.filter(
                |p: (usize, Seq<ArgSpec>)| p.0 != id,
            ));
        }
    }

    /// Executes every registered system exactly once, synchronously, in
    /// registration order: one tick.
    ///
    /// Each system's declared arguments are fetched in declared left-to-right
    /// order; an aliasing conflict between two of them is detected at fetch time
    /// and ends the tick with `Err(AliasingConflict)`: systems before the
    /// offending one have run, it and those after it have not, and the store is
    /// left exactly as the offending system found it. On `Ok`, the store is
    /// related to its starting state by a chain of per-system steps — each system
    /// read a conflict-free snapshot and changed only values its exclusive
    /// arguments matched.
    ///
    /// A system body is host code with no contract, so this chain cannot name
    /// the snapshot state a body left behind; what the scheduler does with that
    /// state is pinned instead by [`write_back`], the verified function each
    /// step here calls with the body's output: whatever rows the body left in
    /// the exclusive snapshots land in the store, row by row over each
    /// argument's match set (`writes_applied`).
    pub fn run(&mut self) -> (r: Result<(), EcsError>)
        requires
            old(self).wf(),
        ensures
            final(self).wf(),
            final(self).spec_systems() == old(self).spec_systems(),
            final(self).spec_next_entity() == old(self).spec_next_entity(),
            final(self).spec_next_system_id() == old(self).spec_next_system_id(),
            match r {
                Ok(()) => pass_rel(
                    old(self).spec_components(),
                    old(self).spec_system_args(),
                    final(self).spec_components(),
                ),
                Err(e) => match e {
                    EcsError::AliasingConflict { key } => run_fails(
                        old(self).spec_components(),
                        old(self).spec_system_args(),
                        final(self).spec_components(),
                        key,
                    ),
                    _ => false,
                },
            },
    {
        let ghost m_start = self.spec_components();
        let ghost argss = self.spec_system_args();
        let n = self.systems.len();
        proof {
            assert(argss.len() == n);
            assert(pass_rel(m_start, argss.take(0int), self.spec_components())) by {
                assert(argss.take(0int) =~= Seq::<Seq<ArgSpec>>::empty());
            }
        }
        let mut i: usize = 0;
        while i < n
            invariant
                self.wf(),
                n == self.systems@.len(),
                i <= n,
                self.spec_systems() == old(self).spec_systems(),
                self.spec_next_entity() == old(self).spec_next_entity(),
                self.spec_next_system_id() == old(self).spec_next_system_id(),
                m_start == old(self).spec_components(),
                argss == old(self).spec_system_args(),
                argss.len() == n,
                pass_rel(m_start, argss.take(i as int), self.spec_components()),
            decreases n - i,
        {
            proof {
                assert(self.spec_systems()[i as int] == (
                    self.systems@[i as int].0,
                    self.systems@[i as int].1.args@,
                ));
                assert(argss[i as int] == self.spec_systems()[i as int].1);
            }
            if let Some(key) = check_args(&self.components, &self.systems[i].1.args) {
                proof {
                    assert(argss.skip(i as int)[0] == argss[i as int]);
                    lemma_pass_then_fail(
                        m_start,
                        argss.take(i as int),
                        self.spec_components(),
                        argss.skip(i as int),
                        key,
                    );
                    assert(argss.take(i as int) + argss.skip(i as int) =~= argss);
                }
                return Err(EcsError::AliasingConflict { key });
            }
            let mut fetched = fetch_args(&self.components, &self.systems[i].1.args);
            let ghost m_i = self.spec_components();
            let ghost sys_pre = self.systems@;
            K::run(&mut self.systems[i].1.kernel, &mut fetched);
            proof {
                // the system body only saw the fetched snapshots: the store, the
                // counters and every system's id and argument list are untouched
                assert(self.systems@.len() == sys_pre.len());
                assert(self.spec_systems() =~= old(self).spec_systems()) by {
                    assert forall|x: int| 0 <= x < self.systems@.len() implies self.spec_systems()[x]
                        == old(self).spec_systems()[x] by {
                        assert(self.systems@[x].0 == sys_pre[x].0);
                        assert(self.systems@[x].1.args@ == sys_pre[x].1.args@);
                    }
                }
            }
            write_back(&mut self.components, &self.systems[i].1.args, &fetched);
            proof {
                assert(step_rel(m_i, argss[i as int], self.spec_components()));
                assert(fetch_ok(m_i, argss[i as int]));
                lemma_pass_snoc(
                    m_start,
                    argss.take(i as int),
                    m_i,
                    argss[i as int],
                    self.spec_components(),
                );
                assert(argss.take(i as int + 1) =~= argss.take(i as int).push(argss[i as int]));
            }
            i += 1;
        }
        proof {
            assert(argss.take(n as int) =~= argss);
        }
        Ok(())
    }
}

/// Entity ids are handed out strictly increasingly: an id issued while the
/// allocator stood below `c1` is strictly smaller than an id issued later, when
/// the allocator, which no operation ever decreases, stood at `c2`. Ids returned
/// by any sequence of `create_entity` calls are therefore pairwise distinct.
pub proof fn lemma_entity_ids_strictly_increase(id1: int, c1: int, c2: int, id2: int)
    requires
        id1 < c1,
        c1 <= c2,
        id2 == c2,
    ensures
        id1 < id2,
        id1 != id2,
{
}

/// Consecutive ticks chain: a completed tick over the system lists `l1` followed
/// by a completed tick over `l2` forms one step chain over `l1 + l2`. Since every
/// completed `run` keeps the registered system list, calling `run` k times
/// executes every registered system exactly k times, each pass stepping through
/// the systems in registration order.
pub proof fn lemma_pass_concat<C>(
    m0: ComponentMap<C>,
    l1: Seq<Seq<ArgSpec>>,
    m1: ComponentMap<C>,
    l2: Seq<Seq<ArgSpec>>,
    m2: ComponentMap<C>,
)
    requires
        pass_rel(m0, l1, m1),
        pass_rel(m1, l2, m2),
    ensures
        pass_rel(m0, l1 + l2, m2),
    decreases l1.len(),
{
    if l1.len() == 0 {
        assert(m1 == m0);
        assert(l1 + l2 =~= l2);
    } else {
        let mid = choose|mid: ComponentMap<C>|
            {
                &&& fetch_ok(m0, l1[0])
                &&& #[trigger] step_rel(m0, l1[0], mid)
                &&& pass_rel(mid, l1.drop_first(), m1)
            };
        lemma_pass_concat(mid, l1.drop_first(), m1, l2, m2);
        assert((l1 + l2).drop_first() =~= l1.drop_first() + l2);
        assert((l1 + l2)[0] == l1[0]);
        assert(step_rel(m0, (l1 + l2)[0], mid));
    }
}

/// A system declaring an exclusive query of some key and, anywhere else in the
/// same declared argument list, another query of the same key whose match set
/// shares an entity, cannot be fetched: the tick fails at fetch time instead of
/// yielding two live aliasing views.
pub proof fn lemma_aliasing_conflict_detected<C>(
    m: ComponentMap<C>,
    args: Seq<ArgSpec>,
    i: int,
    j: int,
    e: Entity,
)
    requires
        0 <= i < j < args.len(),
        args[i].key == args[j].key,
        args[i].mode is Exclusive || args[j].mode is Exclusive,
        arg_matches(m, args[i].key, args[i].filter, e),
        arg_matches(m, args[j].key, args[j].filter, e),
    ensures
        !fetch_ok(m, args),
{
    assert(args_conflict(m, args[i], args[j]));
}

} // verus!
