//! Tests for the entity/component store.

use engine::{ComponentStorage, Entity, Player, Position, Size, Velocity, World};

#[test]
fn entity_uniqueness() {
    let mut world = World::new();
    let mut seen: Vec<Entity> = Vec::new();
    for _ in 0..64 {
        let e = world.create_entity();
        for earlier in &seen {
            assert_ne!(*earlier, e);
        }
        seen.push(e);
    }
}

#[test]
fn storage_overwrite_keeps_second_value() {
    let mut world = World::new();
    let e = world.create_entity();
    let mut storage: ComponentStorage<Position> = ComponentStorage::new();
    storage.insert_component(e, Position { x: 1, y: 2 });
    storage.insert_component(e, Position { x: 7, y: 8 });
    assert_eq!(storage.get(e), Some(&Position { x: 7, y: 8 }));
}

#[test]
fn storage_get_absent_is_none() {
    let mut world = World::new();
    let e = world.create_entity();
    let storage: ComponentStorage<Velocity> = ComponentStorage::new();
    assert_eq!(storage.get(e), None);
}

#[test]
fn storage_remove_unbinds_and_tolerates_absent() {
    let mut world = World::new();
    let a = world.create_entity();
    let b = world.create_entity();
    let mut storage: ComponentStorage<Size> = ComponentStorage::new();
    storage.insert_component(a, Size { width: 3, height: 4 });
    storage.remove(b); // absent: no-op
    assert_eq!(storage.get(a), Some(&Size { width: 3, height: 4 }));
    storage.remove(a);
    assert_eq!(storage.get(a), None);
    storage.remove(a); // absent again: still a no-op
    assert_eq!(storage.get(a), None);
}

#[test]
fn storage_get_mut_writes_through() {
    let mut world = World::new();
    let e = world.create_entity();
    let mut storage: ComponentStorage<Velocity> = ComponentStorage::new();
    storage.insert_component(e, Velocity { x: 1, y: 1 });
    if let Some(v) = storage.get_mut(e) {
        v.x = -4;
    }
    assert_eq!(storage.get(e), Some(&Velocity { x: -4, y: 1 }));
}

#[test]
fn storage_keys_lists_each_entity_once() {
    let mut world = World::new();
    let a = world.create_entity();
    let b = world.create_entity();
    let mut storage: ComponentStorage<Player> = ComponentStorage::new();
    storage.insert_component(a, Player {});
    storage.insert_component(b, Player {});
    storage.insert_component(a, Player {}); // overwrite, not a new key
    let keys = storage.keys();
    assert_eq!(keys.len(), 2);
    assert!(keys.contains(&a));
    assert!(keys.contains(&b));
}

#[test]
fn world_add_component_overwrites() {
    let mut world = World::new();
    let e = world.create_entity();
    world.add_component(e, Position { x: 1, y: 1 });
    world.add_component(e, Position { x: 9, y: 9 });
    assert_eq!(world.get_component::<Position>(e), Some(&Position { x: 9, y: 9 }));
}

#[test]
fn world_get_component_absent_kind_or_entity() {
    let mut world = World::new();
    let e = world.create_entity();
    assert_eq!(world.get_component::<Position>(e), None);
    world.add_component(e, Velocity { x: 1, y: 0 });
    let other = world.create_entity();
    assert_eq!(world.get_component::<Velocity>(other), None);
    assert_eq!(world.get_component::<Velocity>(e), Some(&Velocity { x: 1, y: 0 }));
}

#[test]
fn world_get_component_mut_writes_through() {
    let mut world = World::new();
    let e = world.create_entity();
    world.add_component(e, Position { x: 5, y: 6 });
    if let Some(p) = world.get_component_mut::<Position>(e) {
        p.y = 60;
    }
    assert_eq!(world.get_component::<Position>(e), Some(&Position { x: 5, y: 60 }));
    assert_eq!(world.get_component_mut::<Size>(e), None);
}

#[test]
fn world_components_are_independent_per_kind() {
    let mut world = World::new();
    let e = world.create_entity();
    world.add_component(e, Position { x: 1, y: 2 });
    world.add_component(e, Velocity { x: 3, y: 4 });
    world.add_component(e, Size { width: 5, height: 6 });
    world.add_component(e, Player {});
    assert_eq!(world.get_component::<Position>(e), Some(&Position { x: 1, y: 2 }));
    assert_eq!(world.get_component::<Velocity>(e), Some(&Velocity { x: 3, y: 4 }));
    assert_eq!(world.get_component::<Size>(e), Some(&Size { width: 5, height: 6 }));
    assert!(world.get_component::<Player>(e).is_some());
}

#[test]
fn world_storage_iteration_sees_all_entries() {
    let mut world = World::new();
    let a = world.create_entity();
    let b = world.create_entity();
    world.add_component(a, Velocity { x: 1, y: 0 });
    world.add_component(b, Velocity { x: 0, y: 1 });
    let keys = world.get_storage::<Velocity>().keys();
    assert_eq!(keys.len(), 2);
    assert!(keys.contains(&a));
    assert!(keys.contains(&b));
}

#[test]
fn world_reports_well_formed() {
    let mut world = World::new();
    assert!(world.is_wf());
    let e = world.create_entity();
    world.add_component(e, Position { x: 0, y: 0 });
    world.add_component(e, Position { x: 1, y: 1 });
    assert!(world.is_wf());
}
