use ecs_core::archetype::{insertion_point, Archetype};
use ecs_core::entity::{Entities, Entity, EntityLocation};
use ecs_core::world::{EcsError, World};

fn bytes(n: u32) -> Vec<u8> {
    n.to_le_bytes().to_vec()
}

fn world_with(n: usize) -> (World, Vec<usize>) {
    let mut w = World::new();
    let mut ids = Vec::new();
    for k in 0..n {
        ids.push(w.init_component(format!("C{}", k), 100 + k as u64, 4));
    }
    (w, ids)
}

#[test]
fn handle_valid_until_freed_and_never_again() {
    let (mut w, ids) = world_with(1);
    let e = w.spawn(vec![ids[0]], vec![bytes(1)]).unwrap();
    assert!(w.contains(e));
    assert!(w.despawn(e));
    assert!(!w.contains(e));
    // the slot is recycled with a bumped generation
    let f = w.spawn(vec![ids[0]], vec![bytes(2)]).unwrap();
    assert_eq!(f.index, e.index);
    assert_eq!(f.generation, e.generation + 1);
    assert!(!w.contains(e));
    assert!(w.contains(f));
    assert!(!w.despawn(e));
    assert!(w.contains(f));
}

#[test]
fn write_then_read_round_trip() {
    let (mut w, ids) = world_with(2);
    let e = w.spawn(vec![ids[0], ids[1]], vec![bytes(7), bytes(8)]).unwrap();
    assert_eq!(w.get(e, ids[0]), Some(&bytes(7)));
    assert_eq!(w.get(e, ids[1]), Some(&bytes(8)));
    assert!(w.set(e, ids[1], bytes(9)));
    assert_eq!(w.get(e, ids[1]), Some(&bytes(9)));
    let loc = w.location(e).unwrap();
    assert_eq!(w.archetype(loc.archetype_id).entities()[loc.row], e);
}

#[test]
fn adding_a_component_moves_the_entity_and_relocates_the_last_row() {
    let (mut w, ids) = world_with(3);
    let (x, y, z) = (ids[0], ids[1], ids[2]);
    let a = w.spawn(vec![y, z], vec![bytes(1), bytes(2)]).unwrap();
    let b = w.spawn(vec![y, z], vec![bytes(3), bytes(4)]).unwrap();
    let c = w.spawn(vec![y, z], vec![bytes(5), bytes(6)]).unwrap();
    let source = w.location(b).unwrap().archetype_id;
    assert_eq!(w.archetype(source).len(), 3);
    assert_eq!(w.insert(b, x, bytes(9)), Ok(()));
    assert_eq!(w.archetype(source).len(), 2);
    assert_eq!(w.get(b, x), Some(&bytes(9)));
    assert_eq!(w.get(b, y), Some(&bytes(3)));
    assert_eq!(w.get(b, z), Some(&bytes(4)));
    let target = w.location(b).unwrap().archetype_id;
    assert_ne!(target, source);
    assert_eq!(w.archetype(target).component_ids(), &vec![x, y, z]);
    // the last row took the middle place, and its location followed
    let lc = w.location(c).unwrap();
    assert_eq!(lc.archetype_id, source);
    assert_eq!(lc.row, 1);
    assert_eq!(w.archetype(source).entities()[1], c);
    assert_eq!(w.get(c, y), Some(&bytes(5)));
    assert_eq!(w.get(c, z), Some(&bytes(6)));
    assert_eq!(w.get(a, y), Some(&bytes(1)));
    assert_eq!(w.location(a).unwrap().row, 0);
}

#[test]
fn removing_a_component_moves_the_entity() {
    let (mut w, ids) = world_with(2);
    let e = w.spawn(vec![ids[0], ids[1]], vec![bytes(1), bytes(2)]).unwrap();
    assert_eq!(w.remove(e, ids[0]), Some(bytes(1)));
    assert_eq!(w.get(e, ids[0]), None);
    assert_eq!(w.get(e, ids[1]), Some(&bytes(2)));
    assert_eq!(w.remove(e, ids[0]), None);
    let loc = w.location(e).unwrap();
    assert_eq!(w.archetype(loc.archetype_id).component_ids(), &vec![ids[1]]);
}

#[test]
fn despawning_the_middle_row_relocates_the_survivor() {
    let (mut w, ids) = world_with(1);
    let es: Vec<Entity> = (0..3).map(|k| w.spawn(vec![ids[0]], vec![bytes(k)]).unwrap()).collect();
    assert!(w.despawn(es[1]));
    let l2 = w.location(es[2]).unwrap();
    assert_eq!(l2.row, 1);
    assert_eq!(w.archetype(l2.archetype_id).len(), 2);
    assert_eq!(w.get(es[2], ids[0]), Some(&bytes(2)));
    assert_eq!(w.get(es[0], ids[0]), Some(&bytes(0)));
}

#[test]
fn archetypes_are_shared_by_equal_component_sets() {
    let (mut w, ids) = world_with(2);
    let a = w.spawn(vec![ids[0], ids[1]], vec![bytes(1), bytes(2)]).unwrap();
    let b = w.spawn(vec![ids[0], ids[1]], vec![bytes(3), bytes(4)]).unwrap();
    assert_eq!(w.location(a).unwrap().archetype_id, w.location(b).unwrap().archetype_id);
    assert_eq!(w.archetype_count(), 1);
    let e = w.spawn(vec![], vec![]).unwrap();
    assert_eq!(w.archetype_count(), 2);
    assert_eq!(w.get(e, ids[0]), None);
}

#[test]
fn registering_a_type_twice_gives_one_id() {
    let mut w = World::new();
    let a = w.init_component("A".to_string(), 7, 4);
    let b = w.init_component("B".to_string(), 8, 2);
    let again = w.init_component("A".to_string(), 7, 4);
    assert_eq!(a, 0);
    assert_eq!(b, 1);
    assert_eq!(again, a);
    assert_eq!(w.component_count(), 2);
    assert_eq!(w.component_id(8), Some(1));
    assert_eq!(w.component_id(9), None);
}

#[test]
fn spawn_rejects_bad_bundles() {
    let (mut w, ids) = world_with(2);
    assert_eq!(w.spawn(vec![ids[0]], vec![]), Err(EcsError::BundleShape));
    assert_eq!(w.spawn(vec![ids[1], ids[0]], vec![bytes(1), bytes(2)]), Err(EcsError::UnsortedComponents));
    assert_eq!(w.spawn(vec![ids[0], ids[0]], vec![bytes(1), bytes(2)]), Err(EcsError::UnsortedComponents));
    assert_eq!(w.spawn(vec![5], vec![bytes(1)]), Err(EcsError::UnknownComponent));
    assert_eq!(w.spawn(vec![ids[0]], vec![vec![1, 2]]), Err(EcsError::LayoutMismatch));
    assert_eq!(w.archetype_count(), 0);
}

#[test]
fn insert_rejects_bad_requests() {
    let (mut w, ids) = world_with(1);
    let e = w.spawn(vec![], vec![]).unwrap();
    let ghost = Entity { index: 9, generation: 0 };
    assert_eq!(w.insert(ghost, ids[0], bytes(1)), Err(EcsError::NoSuchEntity));
    assert_eq!(w.insert(e, 3, bytes(1)), Err(EcsError::UnknownComponent));
    assert_eq!(w.insert(e, ids[0], vec![0]), Err(EcsError::LayoutMismatch));
    assert_eq!(w.get(e, ids[0]), None);
    assert_eq!(w.insert(e, ids[0], bytes(4)), Ok(()));
    assert_eq!(w.insert(e, ids[0], bytes(5)), Ok(()));
    assert_eq!(w.get(e, ids[0]), Some(&bytes(5)));
}

#[test]
fn entity_room_counts_down() {
    let (mut w, ids) = world_with(1);
    let room = w.entity_room();
    assert_eq!(room, u32::MAX as u64);
    let e = w.spawn(vec![ids[0]], vec![bytes(1)]).unwrap();
    assert_eq!(w.entity_room(), room - 1);
    w.despawn(e);
    assert_eq!(w.entity_room(), room);
}

#[test]
fn partitioned_sums_match_the_whole() {
    let (mut w, ids) = world_with(1);
    let mut es = Vec::new();
    for k in 0..10_000u32 {
        es.push(w.spawn(vec![ids[0]], vec![bytes(k)]).unwrap());
    }
    let left = es[..5_000].to_vec();
    let right = es[5_000..].to_vec();
    let whole = w.sum_field_u32(&es, ids[0]);
    assert_eq!(w.sum_field_u32(&left, ids[0]) + w.sum_field_u32(&right, ids[0]), whole);
    assert_eq!(whole, (0..10_000u64).sum::<u64>());
}

#[test]
fn field_sum_skips_dead_and_odd_entities() {
    let (mut w, ids) = world_with(2);
    let a = w.spawn(vec![ids[0]], vec![bytes(0x0102_0304)]).unwrap();
    let b = w.spawn(vec![ids[1]], vec![bytes(5)]).unwrap();
    let c = w.spawn(vec![ids[0]], vec![bytes(u32::MAX)]).unwrap();
    let d = w.spawn(vec![ids[0]], vec![bytes(9)]).unwrap();
    w.despawn(d);
    let total = w.sum_field_u32(&vec![a, b, c, d], ids[0]);
    assert_eq!(total, 0x0102_0304u64 + u32::MAX as u64);
    assert_eq!(w.sum_field_u32(&vec![], ids[0]), 0);
}

#[test]
fn allocator_recycles_with_bumped_generation() {
    let mut ents = Entities::new();
    let a = ents.allocate();
    let b = ents.allocate();
    assert_eq!((a.index, a.generation), (0, 0));
    assert_eq!((b.index, b.generation), (1, 0));
    assert!(ents.is_valid(a));
    assert!(ents.free(a));
    assert!(!ents.free(a));
    assert!(!ents.is_valid(a));
    let c = ents.allocate();
    assert_eq!((c.index, c.generation), (0, 1));
    assert!(!ents.is_valid(a));
    assert!(ents.is_valid(c));
    assert_eq!(ents.get(c), None);
    ents.set_location(c.index, Some(EntityLocation { archetype_id: 3, row: 4 }));
    assert_eq!(ents.get(c), Some(EntityLocation { archetype_id: 3, row: 4 }));
    assert_eq!(ents.get(a), None);
    assert_eq!(ents.len(), 2);
}

#[test]
fn archetype_rows_stay_dense() {
    let mut t = Archetype::new(vec![1, 4]);
    let e = |i: u32| Entity { index: i, generation: 0 };
    t.push_row(e(0), vec![vec![0], vec![10]]);
    t.push_row(e(1), vec![vec![1], vec![11]]);
    t.push_row(e(2), vec![vec![2], vec![12]]);
    assert_eq!(t.column_index(4), Some(1));
    assert_eq!(t.column_index(2), None);
    let row = t.swap_remove_row(0);
    assert_eq!(row, vec![vec![0], vec![10]]);
    assert_eq!(t.entities(), &vec![e(2), e(1)]);
    assert_eq!(t.value(0, 0), &vec![2]);
    assert_eq!(t.value(1, 0), &vec![12]);
    t.set_value(1, 1, vec![99]);
    assert_eq!(t.value(1, 1), &vec![99]);
    assert_eq!(t.len(), 2);
}

#[test]
fn insertion_point_keeps_ids_sorted() {
    assert_eq!(insertion_point(&vec![], 3), 0);
    assert_eq!(insertion_point(&vec![1, 5, 9], 6), 2);
    assert_eq!(insertion_point(&vec![1, 5, 9], 0), 0);
    assert_eq!(insertion_point(&vec![1, 5, 9], 10), 3);
}

#[test]
fn set_rejects_a_value_of_the_wrong_size() {
    let (mut w, ids) = world_with(1);
    let e = w.spawn(vec![ids[0]], vec![bytes(1)]).unwrap();
    assert!(!w.set(e, ids[0], vec![1, 2]));
    assert_eq!(w.get(e, ids[0]), Some(&bytes(1)));
    assert!(w.set(e, ids[0], bytes(2)));
    assert_eq!(w.get(e, ids[0]), Some(&bytes(2)));
}
