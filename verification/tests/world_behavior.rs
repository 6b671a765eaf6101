// Behaviour of the world facade: entity allocation, structural edits, and the
// scheduler, driven through small closed component and system types.

use ecs::arguments::Fetched;
use ecs::arguments::QueryFilter;
use ecs::systems::System;
use ecs::systems::SystemBuilder;
use ecs::world::Master;
use ecs::EcsError;
use ecs::Entity;

const COUNTER: u64 = 1;
const TAG: u64 = 2;

#[derive(Clone, PartialEq, Debug)]
enum Comp {
    Counter(i64),
    Tag,
}

impl ecs::Component for Comp {
    fn duplicate(&self) -> Comp {
        self.clone()
    }
}

enum Kern {
    Triple,
    AddOne,
    ReadAndWriteCounter,
    Noop,
}

impl System<Comp> for Kern {
    fn run(&mut self, args: &mut Vec<Fetched<Comp>>) {
        match self {
            Kern::Triple => {
                if let Some(Fetched::Exclusive(q)) = args.get_mut(0) {
                    for i in 0..q.len() {
                        if let Comp::Counter(c) = q.value(i) {
                            q.set(i, Comp::Counter(c * 3));
                        }
                    }
                }
            }
            Kern::AddOne => {
                if let Some(Fetched::Exclusive(q)) = args.get_mut(0) {
                    for i in 0..q.len() {
                        if let Comp::Counter(c) = q.value(i) {
                            q.set(i, Comp::Counter(c + 1));
                        }
                    }
                }
            }
            Kern::ReadAndWriteCounter => {
                // declared as an exclusive and a shared query of the same key;
                // never reached when the match sets overlap
                panic!("fetch should have failed before the body runs");
            }
            Kern::Noop => {}
        }
    }
}

fn world() -> Master<Comp, Kern> {
    Master::new()
}

#[test]
fn create_entity_ids_strictly_increase() {
    let mut w = world();
    let mut previous: Option<Entity> = None;
    let mut seen: Vec<Entity> = Vec::new();
    for _ in 0..5 {
        let e = w.create_entity();
        if let Some(p) = previous {
            assert!(p.id() < e.id());
        }
        assert!(!seen.contains(&e));
        seen.push(e);
        previous = Some(e);
    }
}

#[test]
fn add_component_then_make_singular_returns_value() {
    let mut w = world();
    let e = w.create_entity();
    w.add_component(e, COUNTER, Comp::Counter(42));
    let q = w.components().query_components(COUNTER, QueryFilter::Always);
    assert_eq!(q.make_singular(), Ok(Comp::Counter(42)));
}

#[test]
fn add_component_overwrites_existing_value() {
    let mut w = world();
    let e = w.create_entity();
    w.add_component(e, COUNTER, Comp::Counter(1));
    w.add_component(e, COUNTER, Comp::Counter(2));
    let q = w.components().query_components(COUNTER, QueryFilter::Always);
    assert_eq!(q.len(), 1);
    assert_eq!(q.make_singular(), Ok(Comp::Counter(2)));
}

#[test]
fn remove_component_excludes_from_queries() {
    let mut w = world();
    let e = w.create_entity();
    let other = w.create_entity();
    w.add_component(e, COUNTER, Comp::Counter(7));
    w.add_component(other, COUNTER, Comp::Counter(8));
    w.remove_component(e, COUNTER);
    let q = w.components().query_components(COUNTER, QueryFilter::Always);
    assert_eq!(q.len(), 1);
    assert!(q.find(e).is_none());
    assert_eq!(q.find(other), Some(0));
}

#[test]
fn remove_component_absent_is_noop() {
    let mut w = world();
    let e = w.create_entity();
    w.remove_component(e, COUNTER);
    let q = w.components().query_components(COUNTER, QueryFilter::Always);
    assert_eq!(q.len(), 0);
}

#[test]
fn destroy_entity_removes_from_every_type_map() {
    let mut w = world();
    let e = w.create_entity();
    let other = w.create_entity();
    w.add_component(e, COUNTER, Comp::Counter(1));
    w.add_component(e, TAG, Comp::Tag);
    w.add_component(other, COUNTER, Comp::Counter(2));
    w.destroy_entity(e);
    let counters = w.components().query_components(COUNTER, QueryFilter::Always);
    assert!(counters.find(e).is_none());
    assert_eq!(counters.len(), 1);
    let tags = w.components().query_components(TAG, QueryFilter::Always);
    assert!(tags.find(e).is_none());
    assert_eq!(tags.len(), 0);
}

#[test]
fn aliasing_exclusive_then_shared_fails_at_fetch() {
    let mut w = world();
    let e = w.create_entity();
    w.add_component(e, COUNTER, Comp::Counter(0));
    let mut b = SystemBuilder::new();
    b.writes(COUNTER, QueryFilter::Always);
    b.reads(COUNTER, QueryFilter::Always);
    w.add_system(b.build(Kern::ReadAndWriteCounter));
    assert_eq!(w.run(), Err(EcsError::AliasingConflict { key: COUNTER }));
}

#[test]
fn aliasing_two_exclusives_fails_at_fetch() {
    let mut w = world();
    let e = w.create_entity();
    w.add_component(e, COUNTER, Comp::Counter(0));
    let mut b = SystemBuilder::new();
    b.writes(COUNTER, QueryFilter::Always);
    b.writes(COUNTER, QueryFilter::Always);
    w.add_system(b.build(Kern::ReadAndWriteCounter));
    assert_eq!(w.run(), Err(EcsError::AliasingConflict { key: COUNTER }));
}

#[test]
fn same_key_disjoint_match_sets_do_not_conflict() {
    // the two arguments query the same key, but no entity owns it, so the match
    // sets cannot overlap and the tick completes
    let mut w = world();
    let mut b = SystemBuilder::new();
    b.writes(COUNTER, QueryFilter::Always);
    b.reads(COUNTER, QueryFilter::Always);
    w.add_system(b.build(Kern::Noop));
    assert_eq!(w.run(), Ok(()));
}

#[test]
fn shared_queries_of_same_key_coexist() {
    let mut w = world();
    let e = w.create_entity();
    w.add_component(e, COUNTER, Comp::Counter(0));
    let mut b = SystemBuilder::new();
    b.reads(COUNTER, QueryFilter::Always);
    b.reads(COUNTER, QueryFilter::Always);
    w.add_system(b.build(Kern::Noop));
    assert_eq!(w.run(), Ok(()));
}

#[test]
fn run_executes_every_system_in_registration_order() {
    let mut w = world();
    let e = w.create_entity();
    w.add_component(e, COUNTER, Comp::Counter(1));
    let mut b1 = SystemBuilder::new();
    b1.writes(COUNTER, QueryFilter::Always);
    w.add_system(b1.build(Kern::Triple));
    let mut b2 = SystemBuilder::new();
    b2.writes(COUNTER, QueryFilter::Always);
    w.add_system(b2.build(Kern::AddOne));
    // triple then add one: 1 -> 3 -> 4; the reverse order would give 6
    assert_eq!(w.run(), Ok(()));
    let q = w.components().query_components(COUNTER, QueryFilter::Always);
    assert_eq!(q.make_singular(), Ok(Comp::Counter(4)));
    // a second tick runs both systems exactly once more: 4 -> 12 -> 13
    assert_eq!(w.run(), Ok(()));
    let q = w.components().query_components(COUNTER, QueryFilter::Always);
    assert_eq!(q.make_singular(), Ok(Comp::Counter(13)));
}

#[test]
fn remove_system_keeps_the_others_in_order() {
    let mut w = world();
    let e = w.create_entity();
    w.add_component(e, COUNTER, Comp::Counter(1));
    let mut b1 = SystemBuilder::new();
    b1.writes(COUNTER, QueryFilter::Always);
    let triple_id = w.add_system(b1.build(Kern::Triple));
    let mut b2 = SystemBuilder::new();
    b2.writes(COUNTER, QueryFilter::Always);
    w.add_system(b2.build(Kern::AddOne));
    w.remove_system(triple_id);
    assert_eq!(w.run(), Ok(()));
    let q = w.components().query_components(COUNTER, QueryFilter::Always);
    assert_eq!(q.make_singular(), Ok(Comp::Counter(2)));
}

#[test]
fn structural_edits_leave_other_entities_untouched() {
    let mut w = world();
    let a = w.create_entity();
    let b = w.create_entity();
    let c = w.create_entity();
    w.add_component(a, COUNTER, Comp::Counter(10));
    w.add_component(b, COUNTER, Comp::Counter(20));
    w.add_component(c, COUNTER, Comp::Counter(30));
    w.destroy_entity(b);
    let q = w.components().query_components(COUNTER, QueryFilter::Always);
    assert_eq!(q.len(), 2);
    let ia = q.find(a).unwrap();
    let ic = q.find(c).unwrap();
    assert_eq!(q.value(ia), Comp::Counter(10));
    assert_eq!(q.value(ic), Comp::Counter(30));
    // order of the survivors is preserved
    assert!(ia < ic);
}
