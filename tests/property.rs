use universe::registry::{PropertyRegistry, StoreId};
use universe::value::{PropertyAccess, PropertyUpdateEvent, PropertyValue, Vec3Bits};
use universe::world::PropertyWorld;

fn float(x: f32) -> PropertyValue {
    PropertyValue::Float(x.to_bits())
}

fn update(name: &str, value: PropertyValue) -> PropertyUpdateEvent {
    PropertyUpdateEvent::new(name.to_string(), value)
}

#[test]
fn resolve_before_producer_then_event_reaches_access() {
    let mut w = PropertyWorld::new();
    assert_eq!(w.resolve("ship.velocity"), None);
    w.run_cycle();
    let id = w.lookup("ship.velocity").expect("store after one cycle");
    assert_eq!(*w.store_value(id), PropertyValue::Absent);
    let a = w.declare("ship.velocity");
    w.publish(update("ship.velocity", float(7.2)));
    w.run_cycle();
    assert_eq!(*w.read(a), float(7.2));
    assert_eq!(*w.store_value(id), float(7.2));
}

#[test]
fn two_accesses_around_materialization_agree() {
    let mut w = PropertyWorld::new();
    let before = w.declare("ship.position");
    assert_eq!(w.resolve("ship.position"), None);
    w.create_pending();
    assert!(w.lookup("ship.position").is_some());
    let after = w.declare("ship.position");
    w.detect_change();
    w.update_event_listener();
    assert_eq!(*w.read(before), PropertyValue::Absent);
    assert_eq!(*w.read(before), *w.read(after));
}

#[test]
fn two_accesses_around_materialization_agree_after_update() {
    let mut w = PropertyWorld::new();
    let before = w.declare("ship.position");
    w.resolve("ship.position");
    let v = PropertyValue::Vec3(Vec3Bits { x: 1.0f32.to_bits(), y: 2.0f32.to_bits(), z: 3.0f32.to_bits() });
    w.publish(update("ship.position", v.clone()));
    w.create_pending();
    let after = w.declare("ship.position");
    w.detect_change();
    w.update_event_listener();
    assert_eq!(*w.read(before), v);
    assert_eq!(*w.read(after), v);
}

#[test]
fn repeated_resolve_creates_one_store() {
    let mut w = PropertyWorld::new();
    for _ in 0..5 {
        assert_eq!(w.resolve("hud.fps"), None);
    }
    assert_eq!(w.store_count(), 0);
    w.create_pending();
    assert_eq!(w.store_count(), 1);
    assert_eq!(w.resolve("hud.fps"), Some(StoreId { index: 0 }));
    w.run_cycle();
    assert_eq!(w.store_count(), 1);
}

#[test]
fn access_in_creation_cycle_sees_store_value() {
    let mut w = PropertyWorld::new();
    w.resolve("x");
    let a = w.declare("x");
    w.create_pending();
    w.detect_change();
    let id = w.lookup("x").unwrap();
    assert_eq!(*w.read(a), *w.store_value(id));
    assert_eq!(*w.read(a), PropertyValue::Absent);
}

#[test]
fn new_access_is_seeded_from_current_store_value() {
    let mut w = PropertyWorld::new();
    w.resolve("x");
    w.run_cycle();
    w.publish(update("x", PropertyValue::Bool(true)));
    w.run_cycle();
    let a = w.declare("x");
    assert_eq!(*w.read(a), PropertyValue::Absent);
    w.run_cycle();
    assert_eq!(*w.read(a), PropertyValue::Bool(true));
}

#[test]
fn last_write_wins_within_cycle() {
    let mut w = PropertyWorld::new();
    let a = w.declare("v");
    w.run_cycle();
    w.run_cycle();
    let id = w.lookup("v").unwrap();
    w.publish(update("v", float(1.0)));
    w.publish(update("v", float(2.0)));
    w.run_cycle();
    assert_eq!(*w.read(a), float(2.0));
    assert_eq!(*w.store_value(id), float(2.0));
}

#[test]
fn update_for_one_name_leaves_other_names_alone() {
    let mut w = PropertyWorld::new();
    let a = w.declare("a");
    let b = w.declare("b");
    w.run_cycle();
    w.run_cycle();
    w.publish(update("b", PropertyValue::String("kept".to_string())));
    w.run_cycle();
    w.publish(update("a", float(3.5)));
    w.run_cycle();
    assert_eq!(*w.read(a), float(3.5));
    assert_eq!(*w.read(b), PropertyValue::String("kept".to_string()));
    let sb = w.lookup("b").unwrap();
    assert_eq!(*w.store_value(sb), PropertyValue::String("kept".to_string()));
}

#[test]
fn binding_is_never_replaced() {
    let mut w = PropertyWorld::new();
    w.resolve("p");
    w.run_cycle();
    let id = w.lookup("p").unwrap();
    for _ in 0..3 {
        w.resolve("p");
        w.declare("p");
        w.publish(update("p", PropertyValue::Bool(false)));
        w.run_cycle();
        assert_eq!(w.lookup("p"), Some(id));
        assert_eq!(w.resolve("p"), Some(id));
    }
    assert_eq!(w.store_count(), 1);
}

#[test]
fn declaring_interest_alone_creates_the_store() {
    let mut w = PropertyWorld::new();
    let a = w.declare("only.declared");
    w.run_cycle();
    assert_eq!(w.lookup("only.declared"), None);
    w.run_cycle();
    assert!(w.lookup("only.declared").is_some());
    assert_eq!(*w.read(a), PropertyValue::Absent);
}

#[test]
fn event_for_unknown_name_is_dropped() {
    let mut w = PropertyWorld::new();
    w.publish(update("nobody", float(1.0)));
    w.run_cycle();
    assert_eq!(w.store_count(), 0);
    assert_eq!(w.lookup("nobody"), None);
    w.resolve("nobody");
    w.run_cycle();
    let id = w.lookup("nobody").unwrap();
    assert_eq!(*w.store_value(id), PropertyValue::Absent);
}

#[test]
fn registry_queues_each_name_once() {
    let mut r = PropertyRegistry::new();
    assert_eq!(r.get("a"), None);
    assert_eq!(r.get("b"), None);
    assert_eq!(r.get("a"), None);
    let pending = r.take_pending();
    assert_eq!(pending, vec!["a".to_string(), "b".to_string()]);
    assert!(r.take_pending().is_empty());
    assert_eq!(r.get("a"), None);
    assert_eq!(r.take_pending(), vec!["a".to_string()]);
}

#[test]
fn registry_bind_is_permanent() {
    let mut r = PropertyRegistry::default();
    assert!(r.bind("a".to_string(), StoreId { index: 4 }));
    assert!(!r.bind("a".to_string(), StoreId { index: 9 }));
    assert_eq!(r.get("a"), Some(StoreId { index: 4 }));
    assert_eq!(r.lookup("a"), Some(StoreId { index: 4 }));
    assert!(r.take_pending().is_empty());
}

#[test]
fn registry_bind_takes_name_off_queue() {
    let mut r = PropertyRegistry::new();
    r.get("a");
    r.get("b");
    r.get("c");
    assert!(r.bind("b".to_string(), StoreId { index: 0 }));
    assert_eq!(r.take_pending(), vec!["a".to_string(), "c".to_string()]);
    assert_eq!(r.lookup("b"), Some(StoreId { index: 0 }));
    assert_eq!(r.lookup("a"), None);
}

#[test]
fn duplicate_copies_every_variant() {
    let values = vec![
        PropertyValue::Absent,
        PropertyValue::Bool(true),
        PropertyValue::String("text".to_string()),
        PropertyValue::Color(Vec3Bits { x: 1, y: 2, z: 3 }),
        PropertyValue::Vec3(Vec3Bits { x: 4, y: 5, z: 6 }),
        float(-0.5),
    ];
    for v in values.iter() {
        assert_eq!(v.duplicate(), *v);
    }
}

#[test]
fn new_access_and_event_hold_their_parts() {
    assert_eq!(PropertyAccess::default().cache, PropertyValue::Absent);
    let e = update("n", PropertyValue::Bool(true));
    assert_eq!(e.name, "n");
    assert_eq!(e.value, PropertyValue::Bool(true));
}

#[test]
fn world_default_is_empty() {
    let mut w = PropertyWorld::default();
    assert_eq!(w.store_count(), 0);
    w.run_cycle();
    assert_eq!(w.store_count(), 0);
}
