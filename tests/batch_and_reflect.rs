use ecs_core::pipeline_layout::{PipelineLayout, TextureDimension};
use ecs_core::reflect::{ReflectComponent, ReflectComponentFns};
use ecs_core::spawn_batch::SpawnBatchIter;
use ecs_core::text_flags::TextFlags;
use ecs_core::world::{EcsError, World};

fn bytes(n: u16) -> Vec<u8> {
    n.to_le_bytes().to_vec()
}

fn setup() -> (World, usize, usize) {
    let mut w = World::new();
    let a = w.init_component("Pos".to_string(), 11, 2);
    let b = w.init_component("Vel".to_string(), 12, 2);
    (w, a, b)
}

#[test]
fn batch_spawn_yields_distinct_entities_in_order() {
    let (w, a, b) = setup();
    let bundles: Vec<Vec<Vec<u8>>> = (0..5).map(|k| vec![bytes(k), bytes(10 * k)]).collect();
    let mut it = SpawnBatchIter::new_dynamic(w, &vec![a, b], bundles);
    assert_eq!(it.len(), 5);
    assert_eq!(it.size_hint(), (5, Some(5)));
    let mut got = Vec::new();
    while let Some(e) = it.next() {
        got.push(e);
    }
    assert_eq!(it.len(), 0);
    let (w, all) = it.finish();
    assert_eq!(all, got);
    assert_eq!(all.len(), 5);
    for (k, e) in all.iter().enumerate() {
        assert!(all[k + 1..].iter().all(|f| f != e));
        assert_eq!(w.get(*e, a), Some(&bytes(k as u16)));
        assert_eq!(w.get(*e, b), Some(&bytes(10 * k as u16)));
    }
}

#[test]
fn finishing_early_spawns_the_rest() {
    let (w, a, _) = setup();
    let bundles: Vec<Vec<Vec<u8>>> = (0..6).map(|k| vec![bytes(k)]).collect();
    let mut w = w;
    let info = w.init_bundle(vec![a]).unwrap();
    let mut it = SpawnBatchIter::new(w, &info, bundles);
    let first = it.next().unwrap();
    let second = it.next().unwrap();
    assert_eq!(it.len(), 4);
    let (w, all) = it.finish();
    assert_eq!(all.len(), 6);
    assert_eq!(all[0], first);
    assert_eq!(all[1], second);
    assert_eq!(w.archetype(info.archetype).len(), 6);
    for (k, e) in all.iter().enumerate() {
        assert!(w.contains(*e));
        assert_eq!(w.get(*e, a), Some(&bytes(k as u16)));
    }
}

#[test]
fn init_bundle_rejects_bad_ids() {
    let (mut w, a, b) = setup();
    assert!(matches!(w.init_bundle(vec![b, a]), Err(EcsError::UnsortedComponents)));
    assert!(matches!(w.init_bundle(vec![a, 9]), Err(EcsError::UnknownComponent)));
    let info = w.init_bundle(vec![a, b]).unwrap();
    let again = w.init_bundle(vec![a, b]).unwrap();
    assert_eq!(info.archetype, again.archetype);
}

#[test]
fn reflect_reads_what_was_spawned() {
    let (mut w, a, b) = setup();
    let pos = ReflectComponent::new(ReflectComponentFns::new(11));
    let vel = ReflectComponent::new(ReflectComponentFns::new(12));
    let e = w.spawn(vec![a], vec![bytes(42)]).unwrap();
    assert_eq!(pos.reflect(&w, e), Some(&bytes(42)));
    assert_eq!(vel.reflect(&w, e), None);
    assert_eq!(pos.component_id(&w), Some(a));
    assert_eq!(vel.component_id(&w), Some(b));
    assert_eq!(pos.fn_pointers().type_key, 11);
    let unknown = ReflectComponent::new(ReflectComponentFns::new(99));
    assert_eq!(unknown.reflect(&w, e), None);
}

#[test]
fn reflect_insert_adds_and_remove_takes_away() {
    let (mut w, a, b) = setup();
    let vel = ReflectComponent::new(ReflectComponentFns::new(12));
    let e = w.spawn(vec![a], vec![bytes(1)]).unwrap();
    assert_eq!(vel.insert(&mut w, e, bytes(5)), Ok(()));
    assert_eq!(w.get(e, b), Some(&bytes(5)));
    assert_eq!(w.get(e, a), Some(&bytes(1)));
    vel.apply(&mut w, e, bytes(6));
    assert_eq!(vel.reflect(&w, e), Some(&bytes(6)));
    assert_eq!(vel.apply_or_insert(&mut w, e, bytes(7)), Ok(()));
    assert_eq!(vel.reflect(&w, e), Some(&bytes(7)));
    assert_eq!(vel.remove(&mut w, e), Some(bytes(7)));
    assert_eq!(vel.reflect(&w, e), None);
    assert_eq!(vel.remove(&mut w, e), None);
    assert_eq!(vel.apply_or_insert(&mut w, e, bytes(8)), Ok(()));
    assert_eq!(w.get(e, b), Some(&bytes(8)));
    let unknown = ReflectComponent::new(ReflectComponentFns::new(99));
    assert_eq!(unknown.insert(&mut w, e, bytes(1)), Err(EcsError::UnknownComponent));
}

#[test]
fn pipeline_layout_starts_empty() {
    let layout = PipelineLayout::new();
    assert!(layout.bind_groups.is_empty());
    assert_eq!(TextureDimension::D2, TextureDimension::D2);
}

#[test]
fn text_flags_default_to_all_work() {
    let flags = TextFlags::default();
    assert!(flags.needs_new_measure_func);
    assert!(flags.needs_recompute);
}

#[test]
fn reflect_mut_writes_in_place() {
    let (mut w, a, b) = setup();
    let pos = ReflectComponent::new(ReflectComponentFns::new(11));
    let e = w.spawn(vec![a, b], vec![bytes(1), bytes(2)]).unwrap();
    {
        let slot = pos.reflect_mut(&mut w, e).unwrap();
        assert_eq!(*slot, bytes(1));
        *slot = bytes(300);
    }
    assert_eq!(pos.reflect(&w, e), Some(&bytes(300)));
    assert_eq!(w.get(e, b), Some(&bytes(2)));
    let other = w.spawn(vec![b], vec![bytes(4)]).unwrap();
    assert!(pos.reflect_mut(&mut w, other).is_none());
    if let Some(v) = w.get_mut(other, b) {
        v[0] = 9;
    }
    assert_eq!(w.get(other, b), Some(&vec![9, 0]));
    assert!(w.get_mut(other, a).is_none());
}

#[test]
fn batch_accepts_ids_in_any_order() {
    let (w, a, b) = setup();
    let bundles: Vec<Vec<Vec<u8>>> = (0..3).map(|k| vec![bytes(100 + k), bytes(k)]).collect();
    let mut it = SpawnBatchIter::new_dynamic(w, &vec![b, a], bundles);
    let first = it.next().unwrap();
    let (w, all) = it.finish();
    assert_eq!(all[0], first);
    let loc = w.location(first).unwrap();
    assert_eq!(w.archetype(loc.archetype_id).component_ids(), &vec![a, b]);
    for (k, e) in all.iter().enumerate() {
        assert_eq!(w.get(*e, b), Some(&bytes(100 + k as u16)));
        assert_eq!(w.get(*e, a), Some(&bytes(k as u16)));
        let l = w.location(*e).unwrap();
        assert_eq!(l.archetype_id, loc.archetype_id);
        assert_eq!(l.row, k);
    }
}
