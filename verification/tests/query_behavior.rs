// Behaviour of queries, filters and iterators: the motion scenario, filter
// partitioning, singular access, and empty results.

use ecs::arguments::Fetched;
use ecs::arguments::QueryFilter;
use ecs::store::ComponentMap;
use ecs::systems::AccessMode;
use ecs::systems::ArgSpec;
use ecs::systems::System;
use ecs::systems::SystemBuilder;
use ecs::world::write_back;
use ecs::world::Master;
use ecs::EcsError;
use ecs::Entity;

const POSITION: u64 = 1;
const VELOCITY: u64 = 2;
const TAG: u64 = 3;
const MARKER: u64 = 4;

#[derive(Clone, Copy, PartialEq, Debug)]
struct Position {
    x: i64,
    y: i64,
}

#[derive(Clone, Copy, PartialEq, Debug)]
struct Velocity {
    dx: i64,
    dy: i64,
}

#[derive(Clone, PartialEq, Debug)]
enum Comp {
    Pos(Position),
    Vel(Velocity),
    Tag,
    Marker,
}

impl ecs::Component for Comp {
    fn duplicate(&self) -> Comp {
        self.clone()
    }
}

enum Kern {
    Motion,
}

impl System<Comp> for Kern {
    fn run(&mut self, args: &mut Vec<Fetched<Comp>>) {
        match self {
            Kern::Motion => {
                // declared order: exclusive positions, then shared velocities
                let mut velocities: Vec<(Entity, Velocity)> = Vec::new();
                if let Some(Fetched::Shared(q)) = args.get(1) {
                    for i in 0..q.len() {
                        if let Comp::Vel(v) = q.value(i) {
                            velocities.push((q.entity(i), v));
                        }
                    }
                }
                if let Some(Fetched::Exclusive(q)) = args.get_mut(0) {
                    for i in 0..q.len() {
                        let e = q.entity(i);
                        if let Comp::Pos(p) = q.value(i) {
                            if let Some((_, v)) = velocities.iter().find(|(ve, _)| *ve == e) {
                                q.set(
                                    i,
                                    Comp::Pos(Position { x: p.x + v.dx, y: p.y + v.dy }),
                                );
                            }
                        }
                    }
                }
            }
        }
    }
}

#[test]
fn motion_system_adds_velocity_each_tick() {
    let mut w: Master<Comp, Kern> = Master::new();
    let e = w.create_entity();
    w.add_component(e, POSITION, Comp::Pos(Position { x: 0, y: 0 }));
    w.add_component(e, VELOCITY, Comp::Vel(Velocity { dx: 1, dy: 1 }));
    let mut b = SystemBuilder::new();
    b.writes(POSITION, QueryFilter::Always);
    b.reads(VELOCITY, QueryFilter::Always);
    w.add_system(b.build(Kern::Motion));
    assert_eq!(w.run(), Ok(()));
    let q = w.components().query_components(POSITION, QueryFilter::Always);
    assert_eq!(q.make_singular(), Ok(Comp::Pos(Position { x: 1, y: 1 })));
    assert_eq!(w.run(), Ok(()));
    let q = w.components().query_components(POSITION, QueryFilter::Always);
    assert_eq!(q.make_singular(), Ok(Comp::Pos(Position { x: 2, y: 2 })));
}

#[test]
fn two_owners_iterate_and_refuse_singular() {
    let mut w: Master<Comp, Kern> = Master::new();
    let a = w.create_entity();
    let b = w.create_entity();
    w.add_component(a, TAG, Comp::Tag);
    w.add_component(b, TAG, Comp::Tag);
    let q = w.components().query_components(TAG, QueryFilter::Always);
    assert_eq!(q.len(), 2);
    let mut it = q.iter();
    let mut yielded = 0;
    while let Some(v) = it.next() {
        assert_eq!(v, Comp::Tag);
        yielded += 1;
    }
    assert_eq!(yielded, 2);
    assert_eq!(q.make_singular(), Err(EcsError::SingularMultiple));
}

#[test]
fn never_inserted_type_yields_empty_not_failure() {
    let mut w: Master<Comp, Kern> = Master::new();
    let e = w.create_entity();
    w.add_component(e, TAG, Comp::Tag);
    let q = w.components().query_components(MARKER, QueryFilter::Always);
    assert_eq!(q.len(), 0);
    assert_eq!(q.make_singular(), Err(EcsError::SingularNone));
    let mut it = q.iter();
    assert_eq!(it.next(), None);
}

#[test]
fn with_and_without_partition_the_entities() {
    let mut w: Master<Comp, Kern> = Master::new();
    let marked = w.create_entity();
    let plain = w.create_entity();
    w.add_component(marked, TAG, Comp::Tag);
    w.add_component(plain, TAG, Comp::Tag);
    w.add_component(marked, MARKER, Comp::Marker);
    let with = w
        .components()
        .query_components(TAG, QueryFilter::With { key: MARKER });
    let without = w
        .components()
        .query_components(TAG, QueryFilter::Without { key: MARKER });
    // every tagged entity falls in exactly one of the two
    for e in [marked, plain] {
        let in_with = with.find(e).is_some();
        let in_without = without.find(e).is_some();
        assert_ne!(in_with, in_without);
    }
    assert!(with.find(marked).is_some());
    assert!(without.find(plain).is_some());
    assert_eq!(with.len() + without.len(), 2);
}

#[test]
fn filtered_exclusive_queries_of_same_key_can_coexist() {
    // exclusive and shared query of the same key whose filters make the match
    // sets disjoint: no pair is borrowed twice, so the fetch succeeds
    let mut w: Master<Comp, Kern> = Master::new();
    let marked = w.create_entity();
    let plain = w.create_entity();
    w.add_component(marked, POSITION, Comp::Pos(Position { x: 0, y: 0 }));
    w.add_component(plain, POSITION, Comp::Pos(Position { x: 5, y: 5 }));
    w.add_component(marked, MARKER, Comp::Marker);
    w.add_component(marked, VELOCITY, Comp::Vel(Velocity { dx: 0, dy: 0 }));
    let mut b = SystemBuilder::new();
    b.writes(POSITION, QueryFilter::With { key: MARKER });
    b.reads(POSITION, QueryFilter::Without { key: MARKER });
    w.add_system(b.build(Kern::Motion));
    assert_eq!(w.run(), Ok(()));
}

#[test]
fn query_mut_singular_replaces_the_sole_value() {
    let mut w: Master<Comp, Kern> = Master::new();
    let e = w.create_entity();
    w.add_component(e, TAG, Comp::Tag);
    let mut q = w
        .components()
        .query_components_mut(TAG, QueryFilter::Always);
    assert_eq!(q.make_singular(), Ok(Comp::Tag));
    assert_eq!(q.make_singular_mut(Comp::Marker), Ok(Comp::Tag));
    assert_eq!(q.value(0), Comp::Marker);
}

#[test]
fn query_mut_iterates_rows_in_snapshot_order() {
    let mut w: Master<Comp, Kern> = Master::new();
    let a = w.create_entity();
    let b = w.create_entity();
    w.add_component(a, POSITION, Comp::Pos(Position { x: 1, y: 0 }));
    w.add_component(b, POSITION, Comp::Pos(Position { x: 2, y: 0 }));
    let q = w
        .components()
        .query_components_mut(POSITION, QueryFilter::Always);
    let mut it = q.into_iter();
    let first = it.next().unwrap();
    let second = it.next().unwrap();
    assert_eq!(it.next(), None);
    assert_eq!(first, (a, Comp::Pos(Position { x: 1, y: 0 })));
    assert_eq!(second, (b, Comp::Pos(Position { x: 2, y: 0 })));
}

#[test]
fn filtered_exclusive_write_touches_only_matched_entities() {
    let mut w: Master<Comp, Kern> = Master::new();
    let marked = w.create_entity();
    let plain = w.create_entity();
    w.add_component(marked, POSITION, Comp::Pos(Position { x: 0, y: 0 }));
    w.add_component(plain, POSITION, Comp::Pos(Position { x: 9, y: 9 }));
    w.add_component(marked, MARKER, Comp::Marker);
    w.add_component(marked, VELOCITY, Comp::Vel(Velocity { dx: 2, dy: 3 }));
    w.add_component(plain, VELOCITY, Comp::Vel(Velocity { dx: 2, dy: 3 }));
    let mut b = SystemBuilder::new();
    b.writes(POSITION, QueryFilter::With { key: MARKER });
    b.reads(VELOCITY, QueryFilter::Always);
    w.add_system(b.build(Kern::Motion));
    assert_eq!(w.run(), Ok(()));
    let q = w.components().query_components(POSITION, QueryFilter::Always);
    let im = q.find(marked).unwrap();
    let ip = q.find(plain).unwrap();
    assert_eq!(q.value(im), Comp::Pos(Position { x: 2, y: 3 }));
    assert_eq!(q.value(ip), Comp::Pos(Position { x: 9, y: 9 }));
}

#[test]
fn query_mut_singular_on_empty_fails_and_changes_nothing() {
    let mut w: Master<Comp, Kern> = Master::new();
    let _ = w.create_entity();
    let mut q = w
        .components()
        .query_components_mut(TAG, QueryFilter::Always);
    assert_eq!(q.make_singular_mut(Comp::Marker), Err(EcsError::SingularNone));
    assert_eq!(q.len(), 0);
}

#[test]
fn shared_query_iterates_non_destructively() {
    let mut w: Master<Comp, Kern> = Master::new();
    let a = w.create_entity();
    let b = w.create_entity();
    w.add_component(a, TAG, Comp::Tag);
    w.add_component(b, TAG, Comp::Tag);
    let q = w.components().query_components(TAG, QueryFilter::Always);
    for _ in 0..2 {
        let mut it = q.iter();
        let mut count = 0;
        while it.next().is_some() {
            count += 1;
        }
        assert_eq!(count, 2);
    }
    assert_eq!(q.len(), 2);
}

#[test]
fn write_back_lands_snapshot_rows_in_the_store() {
    let mut m: ComponentMap<Comp> = ComponentMap::new();
    let a = Entity::from_id(0);
    let b = Entity::from_id(1);
    m.insert(POSITION, a, Comp::Pos(Position { x: 0, y: 0 }));
    m.insert(POSITION, b, Comp::Pos(Position { x: 1, y: 1 }));
    let specs = vec![ArgSpec {
        mode: AccessMode::Exclusive,
        key: POSITION,
        filter: QueryFilter::Always,
    }];
    let mut q = m.query_components_mut(POSITION, QueryFilter::Always);
    q.set(0, Comp::Pos(Position { x: 5, y: 6 }));
    q.set(1, Comp::Pos(Position { x: 7, y: 8 }));
    let fetched = vec![Fetched::Exclusive(q)];
    write_back(&mut m, &specs, &fetched);
    let check = m.query_components(POSITION, QueryFilter::Always);
    assert_eq!(check.value(check.find(a).unwrap()), Comp::Pos(Position { x: 5, y: 6 }));
    assert_eq!(check.value(check.find(b).unwrap()), Comp::Pos(Position { x: 7, y: 8 }));
}

#[test]
fn snapshot_is_fixed_at_fetch_time() {
    let mut w: Master<Comp, Kern> = Master::new();
    let e = w.create_entity();
    w.add_component(e, TAG, Comp::Tag);
    let q = w.components().query_components(TAG, QueryFilter::Always);
    // a later snapshot is independent of the earlier one
    let later = w.components().query_components(TAG, QueryFilter::Always);
    assert_eq!(q.len(), later.len());
    assert_eq!(q.make_singular(), later.make_singular());
}
