use ecs_core::reflect::{ReflectComponent, ReflectComponentFns};
use ecs_core::scene::{Scene, SceneSpawnError, TypeRegistration, TypeRegistry};
use ecs_core::world::World;

fn registry(with_component: &[u64], without: &[u64]) -> TypeRegistry {
    let mut reg = TypeRegistry::new();
    for &k in with_component {
        reg.register(TypeRegistration {
            type_key: k,
            name: format!("T{}", k),
            component: Some(ReflectComponent::new(ReflectComponentFns::new(k))),
        });
    }
    for &k in without {
        reg.register(TypeRegistration { type_key: k, name: format!("T{}", k), component: None });
    }
    reg
}

fn scene() -> Scene {
    let mut w = World::new();
    let a = w.init_component("Pos".to_string(), 1, 1);
    let b = w.init_component("Vel".to_string(), 2, 1);
    w.spawn(vec![a], vec![vec![10]]).unwrap();
    w.spawn(vec![a, b], vec![vec![11], vec![21]]).unwrap();
    w.spawn(vec![b], vec![vec![22]]).unwrap();
    Scene::new(w)
}

#[test]
fn clone_copies_every_entity() {
    let s = scene();
    let copy = s.clone_with(&registry(&[1, 2], &[])).unwrap();
    let w = &copy.world;
    let pos = ReflectComponent::new(ReflectComponentFns::new(1));
    let vel = ReflectComponent::new(ReflectComponentFns::new(2));
    let mut seen = Vec::new();
    for a in 0..w.archetype_count() {
        for e in w.archetype(a).entities() {
            seen.push((pos.reflect(w, *e).cloned(), vel.reflect(w, *e).cloned()));
        }
    }
    seen.sort();
    assert_eq!(
        seen,
        vec![(None, Some(vec![22])), (Some(vec![10]), None), (Some(vec![11]), Some(vec![21]))]
    );
}

#[test]
fn write_maps_scene_entities_to_new_ones() {
    let s = scene();
    let mut target = World::new();
    let other = target.init_component("Other".to_string(), 7, 1);
    let old = target.spawn(vec![other], vec![vec![5]]).unwrap();
    let info = s.write_to_world_with(&mut target, &registry(&[2, 1], &[])).unwrap();
    assert_eq!(info.entity_map.len(), 3);
    for (src, dst) in &info.entity_map {
        assert!(s.world.contains(*src));
        assert!(target.contains(*dst));
        assert_ne!(*dst, old);
    }
    assert_eq!(target.get(old, other), Some(&vec![5]));
    assert_eq!(target.component_id(1), Some(1));
    assert_eq!(target.component_id(2), Some(2));
}

#[test]
fn unregistered_type_is_reported() {
    let s = scene();
    let r = s.clone_with(&registry(&[1], &[]));
    assert!(matches!(r, Err(SceneSpawnError::UnregisteredType { ref name }) if name == "Vel"));
}

#[test]
fn type_without_component_facade_is_reported() {
    let s = scene();
    let mut target = World::new();
    let r = s.write_to_world_with(&mut target, &registry(&[1], &[2]));
    assert!(matches!(r, Err(SceneSpawnError::UnregisteredComponent { ref name }) if name == "Vel"));
    assert_eq!(target.archetype_count(), 0);
    assert_eq!(target.component_count(), 0);
}

#[test]
fn registry_lookup_prefers_the_first_registration() {
    let reg = registry(&[3], &[3]);
    assert!(reg.get(3).unwrap().component.is_some());
    assert!(reg.get(4).is_none());
}

#[test]
fn batch_write_copies_every_entity() {
    let s = scene();
    let mut target = World::new();
    let info = s.very_fast_write_to_world_with(&mut target, &registry(&[1, 2], &[])).unwrap();
    assert_eq!(info.entity_map.len(), 3);
    let pos = ReflectComponent::new(ReflectComponentFns::new(1));
    let vel = ReflectComponent::new(ReflectComponentFns::new(2));
    for (src, dst) in &info.entity_map {
        assert_eq!(pos.reflect(&target, *dst), pos.reflect(&s.world, *src));
        assert_eq!(vel.reflect(&target, *dst), vel.reflect(&s.world, *src));
    }
    let mut dsts: Vec<_> = info.entity_map.iter().map(|p| p.1).collect();
    dsts.sort_by_key(|e| e.index);
    dsts.dedup();
    assert_eq!(dsts.len(), 3);
}

#[test]
fn batch_write_reports_missing_types() {
    let s = scene();
    let mut target = World::new();
    let r = s.very_fast_write_to_world_with(&mut target, &registry(&[2], &[]));
    assert!(matches!(r, Err(SceneSpawnError::UnregisteredType { ref name }) if name == "Pos"));
    assert_eq!(target.component_count(), 0);
}
