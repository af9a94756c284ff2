use lib::array_vec::ArrayVec;
use lib::dyn_query::FetchType;
use lib::entities::Entities;
use lib::sparse_array::SparseArray;
use lib::static_query::{Fetched, StaticQuery};
use lib::type_id::{TypeIdHasher, TypeIdHasherBuilder};
use lib::untyped_vec::Layout;
use lib::world::{AddRemoveCache, ArchIndex, ComponentMeta};
use lib::{EcsId, World};
use std::hash::{BuildHasher, Hasher};

/// Every row that the query visits, in order.
fn rows<'a>(query: &StaticQuery<'a>) -> Vec<Vec<Fetched<'a>>> {
    let mut it = query.iter();
    let mut out = Vec::new();
    while let Some(items) = it.next() {
        out.push(items);
    }
    out
}

fn bytes_of(f: &Fetched) -> Vec<u8> {
    match f {
        Fetched::Component(b) => b.to_vec(),
        Fetched::Entity(_) => panic!("an entity where a component was asked for"),
    }
}

fn entity_of(f: &Fetched) -> EcsId {
    match f {
        Fetched::Entity(e) => *e,
        Fetched::Component(_) => panic!("a component where the entity was asked for"),
    }
}

/// A world with a 4 byte component `a` and an 8 byte component `b`.
fn two_components() -> (World, EcsId, EcsId) {
    let mut world = World::new();
    let a = world.spawn_with_component_meta(ComponentMeta::from_size_align(4, 4)).build();
    let b = world.spawn_with_component_meta(ComponentMeta::from_size_align(8, 8)).build();
    (world, a, b)
}

#[test]
fn add_then_remove_gives_back_the_values() {
    let (mut world, a, b) = two_components();
    let e = world.spawn().with_dynamic_with_data(&7_u32.to_ne_bytes(), a).build();
    let other = world.spawn().with_dynamic_with_data(&9_u32.to_ne_bytes(), a).build();
    let before = world.get_entity_meta(e).unwrap().instance_meta.archetype;

    world.add_component_dynamic_with_data(e, b, &5_u64.to_ne_bytes());
    assert!(world.get_entity_meta(e).unwrap().instance_meta.archetype != before);
    let with_b = rows(&world.query_dynamic(vec![FetchType::EcsId, FetchType::Immut(a), FetchType::Immut(b)]));
    assert_eq!(with_b.len(), 1);
    assert_eq!(entity_of(&with_b[0][0]), e);
    assert_eq!(bytes_of(&with_b[0][1]), 7_u32.to_ne_bytes().to_vec());
    assert_eq!(bytes_of(&with_b[0][2]), 5_u64.to_ne_bytes().to_vec());

    world.remove_component_dynamic(e, b);
    assert_eq!(world.get_entity_meta(e).unwrap().instance_meta.archetype, before);
    assert!(rows(&world.query_dynamic(vec![FetchType::Immut(b)])).is_empty());
    let only_a = rows(&world.query_dynamic(vec![FetchType::EcsId, FetchType::Immut(a)]));
    assert_eq!(only_a.len(), 2);
    assert_eq!(entity_of(&only_a[0][0]), other);
    assert_eq!(bytes_of(&only_a[0][1]), 9_u32.to_ne_bytes().to_vec());
    assert_eq!(entity_of(&only_a[1][0]), e);
    assert_eq!(bytes_of(&only_a[1][1]), 7_u32.to_ne_bytes().to_vec());
}

#[test]
fn remove_then_add_gives_back_the_values() {
    let (mut world, a, b) = two_components();
    let e = world
        .spawn()
        .with_dynamic_with_data(&7_u32.to_ne_bytes(), a)
        .with_dynamic_with_data(&5_u64.to_ne_bytes(), b)
        .build();
    let before = world.get_entity_meta(e).unwrap().instance_meta.archetype;
    world.remove_component_dynamic(e, a);
    world.add_component_dynamic_with_data(e, a, &7_u32.to_ne_bytes());
    assert_eq!(world.get_entity_meta(e).unwrap().instance_meta.archetype, before);
    let found = rows(&world.query_dynamic(vec![FetchType::Immut(a), FetchType::Immut(b)]));
    assert_eq!(found.len(), 1);
    assert_eq!(bytes_of(&found[0][0]), 7_u32.to_ne_bytes().to_vec());
    assert_eq!(bytes_of(&found[0][1]), 5_u64.to_ne_bytes().to_vec());
}

#[test]
fn adding_or_removing_with_a_dead_entity_does_nothing() {
    let (mut world, a, b) = two_components();
    let e = world.spawn().with_dynamic_with_data(&7_u32.to_ne_bytes(), a).build();
    let dead = world.spawn().build();
    assert!(world.despawn(dead));
    let archetypes = world.archetypes.len();
    world.add_component_dynamic_with_data(dead, b, &5_u64.to_ne_bytes());
    world.remove_component_dynamic(dead, a);
    assert_eq!(world.archetypes.len(), archetypes);
    assert!(rows(&world.query_dynamic(vec![FetchType::Immut(b)])).is_empty());
    assert_eq!(rows(&world.query_dynamic(vec![FetchType::Immut(a)])).len(), 1);
    assert!(world.is_alive(e));
}

#[test]
fn query_visits_each_matching_entity_once() {
    let (mut world, a, b) = two_components();
    let e1 = world.spawn().with_dynamic_with_data(&1_u32.to_ne_bytes(), a).build();
    let e2 = world
        .spawn()
        .with_dynamic_with_data(&2_u32.to_ne_bytes(), a)
        .with_dynamic_with_data(&3_u64.to_ne_bytes(), b)
        .build();
    let _e3 = world.spawn().with_dynamic_with_data(&4_u64.to_ne_bytes(), b).build();
    let e4 = world.spawn().with_dynamic_with_data(&5_u32.to_ne_bytes(), a).build();

    let found: Vec<EcsId> = rows(&world.query_dynamic(vec![FetchType::EcsId, FetchType::Immut(a)]))
        .iter()
        .map(|items| entity_of(&items[0]))
        .collect();
    assert_eq!(found, vec![e1, e4, e2]);

    let everyone: Vec<EcsId> = rows(&world.query_dynamic(vec![FetchType::EcsId]))
        .iter()
        .map(|items| entity_of(&items[0]))
        .collect();
    assert_eq!(everyone.len(), 6);
}

#[test]
fn query_archetypes_lists_holding_archetypes_in_order() {
    let (mut world, a, b) = two_components();
    world.spawn().with_dynamic_with_data(&1_u32.to_ne_bytes(), a).build();
    world.spawn().with_dynamic_with_data(&3_u64.to_ne_bytes(), b).build();
    world
        .spawn()
        .with_dynamic_with_data(&2_u32.to_ne_bytes(), a)
        .with_dynamic_with_data(&3_u64.to_ne_bytes(), b)
        .build();
    assert_eq!(world.query_archetypes(&[a]), vec![1, 3]);
    assert_eq!(world.query_archetypes(&[b]), vec![2, 3]);
    assert_eq!(world.query_archetypes(&[a, b]), vec![3]);
    assert_eq!(world.query_archetypes(&[]), vec![0, 1, 2, 3]);
}

#[test]
fn find_archetype_dynamic_finds_exact_matches() {
    let (mut world, a, b) = two_components();
    world
        .spawn()
        .with_dynamic_with_data(&2_u32.to_ne_bytes(), a)
        .with_dynamic_with_data(&3_u64.to_ne_bytes(), b)
        .build();
    assert_eq!(world.find_archetype_dynamic(&[]), Some(ArchIndex(0)));
    assert_eq!(world.find_archetype_dynamic(&[a, b]), Some(ArchIndex(1)));
    assert_eq!(world.find_archetype_dynamic(&[b, a]), Some(ArchIndex(1)));
    assert_eq!(world.find_archetype_dynamic(&[a]), None);
    assert_eq!(world.find_archetype_dynamic_plus_id(&[a], b), Some(1));
    assert_eq!(world.find_archetype_dynamic_minus_id(&[a, b], b), None);
    assert_eq!(world.find_archetype_dynamic_minus_id(&[a], a), Some(0));
}

#[test]
fn despawn_keeps_the_other_values() {
    let (mut world, a, _b) = two_components();
    let e1 = world.spawn().with_dynamic_with_data(&1_u32.to_ne_bytes(), a).build();
    let e2 = world.spawn().with_dynamic_with_data(&2_u32.to_ne_bytes(), a).build();
    let e3 = world.spawn().with_dynamic_with_data(&3_u32.to_ne_bytes(), a).build();
    assert!(world.despawn(e1));
    assert!(!world.despawn(e1));
    assert!(!world.is_alive(e1));
    let meta = world.get_entity_meta(e3).unwrap();
    assert_eq!(meta.instance_meta.index, 0);
    let found = rows(&world.query_dynamic(vec![FetchType::EcsId, FetchType::Immut(a)]));
    assert_eq!(found.len(), 2);
    assert_eq!(entity_of(&found[0][0]), e3);
    assert_eq!(bytes_of(&found[0][1]), 3_u32.to_ne_bytes().to_vec());
    assert_eq!(entity_of(&found[1][0]), e2);
    assert_eq!(bytes_of(&found[1][1]), 2_u32.to_ne_bytes().to_vec());
}

#[test]
fn written_value_is_read_back() {
    let (mut world, a, b) = two_components();
    let e = world
        .spawn()
        .with_dynamic_with_data(&7_u32.to_ne_bytes(), a)
        .with_dynamic_with_data(&5_u64.to_ne_bytes(), b)
        .build();
    {
        let bytes = world.get_component_mut_dynamic(e, a).unwrap();
        assert_eq!(bytes.to_vec(), 7_u32.to_ne_bytes().to_vec());
        bytes.copy_from_slice(&70_u32.to_ne_bytes());
    }
    let found = rows(&world.query_dynamic(vec![FetchType::Immut(a), FetchType::Immut(b)]));
    assert_eq!(bytes_of(&found[0][0]), 70_u32.to_ne_bytes().to_vec());
    assert_eq!(bytes_of(&found[0][1]), 5_u64.to_ne_bytes().to_vec());
    let dead = world.spawn().build();
    assert!(world.despawn(dead));
    assert!(world.get_component_mut_dynamic(dead, a).is_none());
}

#[test]
fn static_query_get() {
    let (mut world, a, b) = two_components();
    let e = world.spawn().with_dynamic_with_data(&7_u32.to_ne_bytes(), a).build();
    let query = world.query_dynamic(vec![FetchType::EcsId, FetchType::Immut(a)]);
    let items = query.get(e).unwrap();
    assert_eq!(entity_of(&items[0]), e);
    assert_eq!(bytes_of(&items[1]), 7_u32.to_ne_bytes().to_vec());
    let query = world.query_dynamic(vec![FetchType::Immut(b)]);
    assert!(query.get(e).is_none());
}

#[test]
fn unit_component_is_added_as_a_tag() {
    let mut world = World::new();
    let tag = world.spawn().build();
    let e = world.spawn().build();
    world.add_component_dynamic(e, tag);
    let found = rows(&world.query_dynamic(vec![FetchType::EcsId, FetchType::Immut(tag)]));
    assert_eq!(found.len(), 1);
    assert_eq!(entity_of(&found[0][0]), e);
    assert!(bytes_of(&found[0][1]).is_empty());
}

#[test]
fn spawn_after_despawn_reuses_the_slot_at_the_next_generation() {
    let mut entities = Entities::new();
    let first = entities.spawn();
    let second = entities.spawn();
    assert!(entities.despawn(first));
    let third = entities.spawn();
    assert_eq!(third, EcsId::new(first.index(), first.generation() + 1));
    assert!(third != first && third != second);
    assert!(!entities.is_alive(first));
    assert!(entities.is_alive(second) && entities.is_alive(third));
}

#[test]
fn type_id_hasher_keeps_the_native_endian_value() {
    let mut hasher = TypeIdHasherBuilder().build_hasher();
    assert_eq!(hasher.finish(), 0);
    hasher.write(&[1, 2, 3, 4, 5, 6, 7, 8]);
    assert_eq!(hasher.finish(), u64::from_ne_bytes([1, 2, 3, 4, 5, 6, 7, 8]));
    hasher.write(&[9, 9, 9, 9, 9, 9, 9, 9]);
    assert_eq!(hasher.finish(), u64::from_ne_bytes([9; 8]));
    assert_eq!(TypeIdHasher::default().finish(), 0);
}

#[test]
fn component_meta_of_types() {
    let unit = ComponentMeta::from_generic::<()>();
    assert!(unit.is_unit);
    assert_eq!(unit.layout.size(), 0);
    let word = ComponentMeta::from_generic::<u32>();
    assert!(!word.is_unit);
    assert_eq!(word.layout.size(), 4);
    assert_eq!(word.layout.align(), 4);
    assert!(ComponentMeta::unit().is_unit);
    assert_eq!(unit.type_id, Some(std::any::TypeId::of::<()>()));
    assert_eq!(word.type_id, Some(std::any::TypeId::of::<u32>()));
    assert_eq!(ComponentMeta::unit().type_id, Some(std::any::TypeId::of::<()>()));
    assert_eq!(ComponentMeta::from_size_align(4, 4).type_id, None);
    struct Empty;
    let empty = ComponentMeta::from_generic::<Empty>();
    assert!(!empty.is_unit);
    assert_eq!(empty.layout.size(), 0);
}

#[test]
fn type_ids_are_recorded_once_per_type() {
    let mut world = World::new();
    let u32_id = world.get_or_create_type_id_ecsid::<u32>();
    let u64_id = world.get_or_create_type_id_ecsid::<u64>();
    assert!(u32_id != u64_id);
    assert_eq!(world.get_or_create_type_id_ecsid::<u32>(), u32_id);
    assert_eq!(world.get_entity_meta(u64_id).unwrap().component_meta.layout.size(), 8);
    let e = world.spawn().with_dynamic_with_data(&3_u32.to_ne_bytes(), u32_id).build();
    assert!(world.has_component::<u32>(e));
    assert!(!world.has_component::<u64>(e));
    assert!(!world.has_component::<u8>(e));
}

#[test]
fn layouts_are_checked() {
    assert!(Layout::from_size_align(4, 3).is_err());
    assert!(Layout::from_size_align(usize::MAX, 1).is_err());
    let l = Layout::from_size_align(12, 4).unwrap();
    assert_eq!((l.size(), l.align()), (12, 4));
}

#[test]
fn sparse_array_insert_get_remove() {
    let mut sparse: SparseArray<u32, 4> = SparseArray::new();
    assert_eq!(sparse.insert(9, 90), None);
    assert_eq!(sparse.get(9), Some(&90));
    assert_eq!(sparse.get(1), None);
    assert_eq!(sparse.insert(9, 91), Some(90));
    *sparse.get_mut(9).unwrap() = 92;
    assert_eq!(sparse.get(9), Some(&92));
    assert_eq!(sparse.remove(9), Some(92));
    assert_eq!(sparse.get(9), None);
    assert_eq!(sparse.remove(100), None);
    let with_pages: SparseArray<u32, 4> = SparseArray::with_capacity(2);
    assert_eq!(with_pages.get(7), None);
}

#[test]
fn array_vec_push_pop() {
    let mut v: ArrayVec<u32, 2> = ArrayVec::new();
    assert_eq!(v.push(1), Ok(()));
    assert_eq!(v.push(2), Ok(()));
    assert_eq!(v.push(3), Err(()));
    assert_eq!(v.as_slice(), &[1, 2]);
    v.push_start(0);
    assert_eq!(v.as_slice(), &[0, 1]);
    assert_eq!(v.pop(), Some(1));
    assert_eq!(v.len(), 1);
    assert_eq!(v.get(0), Some(&0));
    assert_eq!(v.get(1), None);
}

#[test]
fn add_remove_cache_remembers_the_last_move() {
    let mut cache = AddRemoveCache::new();
    let c = EcsId::new(3, 1);
    assert_eq!(cache.lookup_id(c), None);
    cache.insert_id(c, 4);
    cache.insert_id(EcsId::new(5, 0), 6);
    assert_eq!(cache.lookup_id(c), Some(4));
    cache.insert_id(c, 7);
    assert_eq!(cache.lookup_id(c), Some(7));
    assert_eq!(cache.lookup_id(EcsId::new(3, 0)), None);
}

#[test]
fn recorded_components_are_found_by_key() {
    let mut world = World::new();
    let u32_id = world.get_or_create_type_id_ecsid::<u32>();
    let e = world.spawn().with_dynamic_with_data(&3_u32.to_ne_bytes(), u32_id).build();
    let bare = world.spawn().build();
    let key = *world.type_id_to_ecs_id.iter().find(|(_, id)| **id == u32_id).unwrap().0;
    assert!(world.has_recorded_component(key, e));
    assert!(!world.has_recorded_component(key, bare));
    assert!(!world.has_recorded_component(key.wrapping_add(1), e));
    assert_eq!(lib::static_query::fetch_recorded(&world, key, true), Some(FetchType::Mut(u32_id)));
    assert_eq!(lib::static_query::fetch_recorded(&world, key, false), Some(FetchType::Immut(u32_id)));
    assert_eq!(lib::static_query::fetch_recorded(&world, key.wrapping_add(1), false), None);
}

#[test]
fn dead_identifiers_are_held_by_no_archetype() {
    let (mut world, a, b) = two_components();
    let gone = world.spawn().build();
    world.spawn().with_dynamic_with_data(&2_u32.to_ne_bytes(), a).build();
    assert!(world.despawn(gone));
    assert_eq!(world.find_archetype_dynamic(&[gone]), None);
    assert_eq!(world.find_archetype_dynamic_plus_id(&[], gone), None);
    assert_eq!(world.query_archetypes(&[a, gone]), Vec::<usize>::new());
    assert_eq!(world.query_archetypes(&[a]), vec![1]);
    assert_eq!(world.find_archetype_dynamic_plus_id(&[], b), None);
}

#[test]
fn minus_id_looks_for_one_component_fewer() {
    let (mut world, a, b) = two_components();
    world.spawn().with_dynamic_with_data(&2_u32.to_ne_bytes(), a).build();
    // components of archetype 1 are [a]; taking b away from [a, b] leads there
    assert_eq!(world.find_archetype_dynamic_minus_id(&[a, b], b), Some(1));
    assert_eq!(world.find_archetype_dynamic_minus_id(&[b, a], b), Some(1));
    // taking a away from [a, b] would need an archetype with just b
    assert_eq!(world.find_archetype_dynamic_minus_id(&[a, b], a), None);
    // an identifier that is not there: archetypes with one component fewer, all within the rest
    assert_eq!(world.find_archetype_dynamic_minus_id(&[a, a], b), Some(1));
}

#[test]
fn one_archetype_per_component_set() {
    let (mut world, a, b) = two_components();
    let e1 = world.spawn().with_dynamic_with_data(&1_u32.to_ne_bytes(), a).build();
    let e2 = world.spawn().with_dynamic_with_data(&2_u32.to_ne_bytes(), a).build();
    assert_eq!(world.archetypes.len(), 2);
    let e3 = world
        .spawn()
        .with_dynamic_with_data(&3_u64.to_ne_bytes(), b)
        .with_dynamic_with_data(&3_u32.to_ne_bytes(), a)
        .build();
    assert_eq!(world.archetypes.len(), 3);
    // adding b to e1 reaches the archetype of e3, and no new archetype is made
    world.add_component_dynamic_with_data(e1, b, &4_u64.to_ne_bytes());
    assert_eq!(world.archetypes.len(), 3);
    let m1 = world.get_entity_meta(e1).unwrap().instance_meta;
    let m3 = world.get_entity_meta(e3).unwrap().instance_meta;
    assert_eq!(m1.archetype, m3.archetype);
    assert_eq!(m3.index, 0);
    assert_eq!(m1.index, 1);
    assert_eq!(world.archetypes[m1.archetype.0].entities, vec![e3, e1]);
    // e2 took the place of e1 in archetype 1
    let m2 = world.get_entity_meta(e2).unwrap().instance_meta;
    assert_eq!(m2.archetype, ArchIndex(1));
    assert_eq!(m2.index, 0);
    assert_eq!(world.archetypes[1].entities, vec![e2]);
    // taking a away from e1 makes the archetype with b alone, at the end
    world.remove_component_dynamic(e1, a);
    assert_eq!(world.archetypes.len(), 4);
    let m1 = world.get_entity_meta(e1).unwrap().instance_meta;
    assert_eq!(m1.archetype, ArchIndex(3));
    assert_eq!(m1.index, 0);
    assert_eq!(world.archetypes[3].comp_ids, vec![b]);
}

#[test]
fn built_entity_goes_to_the_last_row() {
    let (mut world, a, _b) = two_components();
    let e1 = world.spawn().with_dynamic_with_data(&1_u32.to_ne_bytes(), a).build();
    let e2 = world.spawn().with_dynamic_with_data(&2_u32.to_ne_bytes(), a).build();
    let m1 = world.get_entity_meta(e1).unwrap().instance_meta;
    let m2 = world.get_entity_meta(e2).unwrap().instance_meta;
    assert_eq!(m1.archetype, m2.archetype);
    assert_eq!((m1.index, m2.index), (0, 1));
    assert_eq!(world.archetypes[m2.archetype.0].entities, vec![e1, e2]);
}

#[test]
fn room_checks() {
    let mut world = World::new();
    assert!(world.has_room_to_spawn());
    assert!(world.has_room_to_grow());
    let a = world.spawn_with_component_meta(ComponentMeta::from_size_align(4, 4)).build();
    world.spawn().with_dynamic_with_data(&1_u32.to_ne_bytes(), a).build();
    assert!(world.has_room_to_spawn());
    assert!(world.has_room_to_grow());
}

#[test]
fn components_are_recorded_per_key() {
    let mut world = World::new();
    let first = world.get_or_create_for_key(7, ComponentMeta::from_size_align(4, 4));
    let again = world.get_or_create_for_key(7, ComponentMeta::from_size_align(8, 8));
    assert_eq!(first, again);
    let other = world.get_or_create_for_key(8, ComponentMeta::from_size_align(8, 8));
    assert_ne!(first, other);
    assert_eq!(world.type_id_to_ecs_id.get(&7), Some(&first));
    assert_eq!(world.type_id_to_ecs_id.get(&8), Some(&other));
    assert_eq!(world.get_entity_meta(first).unwrap().component_meta.layout.size(), 4);
    assert_eq!(world.get_entity_meta(other).unwrap().component_meta.layout.size(), 8);
}

#[test]
fn despawn_clears_the_metadata() {
    let (mut world, a, _b) = two_components();
    let e1 = world.spawn().with_dynamic_with_data(&1_u32.to_ne_bytes(), a).build();
    let e2 = world.spawn().with_dynamic_with_data(&2_u32.to_ne_bytes(), a).build();
    assert!(world.despawn(e1));
    assert!(world.ecs_id_meta[e1.uindex()].is_none());
    assert!(world.get_entity_meta(e1).is_none());
    let m2 = world.get_entity_meta(e2).unwrap().instance_meta;
    assert_eq!(m2.index, 0);
    assert_eq!(world.archetypes[m2.archetype.0].entities, vec![e2]);
}

#[test]
fn spawned_builder_meta_is_unit() {
    let mut world = World::new();
    let builder = world.spawn();
    assert!(builder.component_meta.is_unit);
    assert_eq!(builder.component_meta.layout.size(), 0);
    assert_eq!(builder.component_meta.layout.align(), 1);
}

#[test]
fn removing_a_component_hands_back_its_value() {
    let (mut world, a, b) = two_components();
    let e = world
        .spawn()
        .with_dynamic_with_data(&7_u32.to_ne_bytes(), a)
        .with_dynamic_with_data(&5_u64.to_ne_bytes(), b)
        .build();
    assert_eq!(world.remove_component_dynamic(e, b), Some(5_u64.to_ne_bytes().to_vec()));
    let dead = world.spawn().build();
    assert!(world.despawn(dead));
    assert_eq!(world.remove_component_dynamic(dead, a), None);
}

#[test]
fn despawning_hands_back_the_values() {
    let (mut world, a, b) = two_components();
    let e = world
        .spawn()
        .with_dynamic_with_data(&5_u64.to_ne_bytes(), b)
        .with_dynamic_with_data(&7_u32.to_ne_bytes(), a)
        .build();
    let values = world.despawn_with_values(e).unwrap();
    assert_eq!(values, vec![(a, 7_u32.to_ne_bytes().to_vec()), (b, 5_u64.to_ne_bytes().to_vec())]);
    assert!(!world.is_alive(e));
    assert_eq!(world.despawn_with_values(e), None);
}

#[test]
fn world_answers_for_the_next_identifier_of_a_freed_slot() {
    let mut world = World::new();
    let e = world.spawn().build();
    assert!(world.despawn(e));
    assert!(!world.is_alive(e));
    assert!(world.is_alive(EcsId::new(e.index(), e.generation() + 1)));
    assert!(world.get_entity_meta(EcsId::new(e.index(), e.generation() + 1)).is_none());
}

#[test]
fn builder_bytes_and_room() {
    let (mut world, a, b) = two_components();
    let c = world.spawn_with_component_meta(ComponentMeta::from_size_align(4, 4)).build();
    let builder = world.spawn();
    assert_eq!(builder.cap, 0);
    let builder = builder.with_dynamic_with_data(&1_u32.to_ne_bytes(), a);
    assert_eq!((builder.data.len(), builder.cap), (4, 4));
    let builder = builder.with_dynamic_with_data(&2_u64.to_ne_bytes(), b);
    assert_eq!((builder.data.len(), builder.cap), (12, 12));
    let builder = builder.with_dynamic_with_data(&3_u32.to_ne_bytes(), c);
    assert_eq!((builder.data.len(), builder.cap), (16, 24));
    assert_eq!(builder.num_components, 3);
    let mut expected = 1_u32.to_ne_bytes().to_vec();
    expected.extend_from_slice(&2_u64.to_ne_bytes());
    expected.extend_from_slice(&3_u32.to_ne_bytes());
    assert_eq!(builder.data, expected);
    let e = builder.build();
    let found = rows(&world.query_dynamic(vec![FetchType::EcsId, FetchType::Immut(a), FetchType::Immut(b), FetchType::Immut(c)]));
    assert_eq!(found.len(), 1);
    assert_eq!(entity_of(&found[0][0]), e);
    assert_eq!(bytes_of(&found[0][2]), 2_u64.to_ne_bytes().to_vec());
    assert_eq!(bytes_of(&found[0][3]), 3_u32.to_ne_bytes().to_vec());

    let builder = world.spawn_with_capacity(32);
    assert_eq!(builder.cap, 32);
    let builder = builder.with_dynamic_with_data(&1_u32.to_ne_bytes(), a);
    assert_eq!((builder.data.len(), builder.cap), (4, 32));
}
