use lib::dyn_query::FetchType;
use lib::entity_builder::EntityBuilder;
use lib::static_query::{Fetched, StaticQuery};
use lib::type_id::Component;
use lib::world::ComponentMeta;
use lib::{EcsId, World};

/// Gives the entity being built the value `bytes` for the component of the Rust type `T`.
fn with_value<'a, T: Component>(builder: EntityBuilder<'a>, bytes: &[u8]) -> EntityBuilder<'a> {
    let id = builder.world.get_or_create_type_id_ecsid::<T>();
    builder.with_dynamic_with_data(bytes, id)
}

/// Adds to `entity` the value `bytes` for the component of the Rust type `T`.
fn add_value<T: Component>(world: &mut World, entity: EcsId, bytes: &[u8]) {
    assert!(world.is_alive(entity));
    let id = world.get_or_create_type_id_ecsid::<T>();
    world.add_component_dynamic_with_data(entity, id, bytes);
}

/// Takes the component of the Rust type `T` away from `entity`.
fn remove_value<T: Component>(world: &mut World, entity: EcsId) {
    assert!(world.is_alive(entity));
    let id = world.get_or_create_type_id_ecsid::<T>();
    world.remove_component_dynamic(entity, id);
}

fn as_u32(f: &Fetched) -> u32 {
    match f {
        Fetched::Component(b) => u32::from_ne_bytes((*b).try_into().unwrap()),
        Fetched::Entity(_) => panic!("an entity where a component was asked for"),
    }
}

fn as_u64(f: &Fetched) -> u64 {
    match f {
        Fetched::Component(b) => u64::from_ne_bytes((*b).try_into().unwrap()),
        Fetched::Entity(_) => panic!("an entity where a component was asked for"),
    }
}

fn as_entity(f: &Fetched) -> EcsId {
    match f {
        Fetched::Entity(e) => *e,
        Fetched::Component(_) => panic!("a component where the entity was asked for"),
    }
}

/// Every row that the query visits, in order.
fn rows<'a>(query: &StaticQuery<'a>) -> Vec<Vec<Fetched<'a>>> {
    let mut it = query.iter();
    let mut out = Vec::new();
    while let Some(items) = it.next() {
        out.push(items);
    }
    out
}

/// The value of the `u32` component `comp` of `entity`.
fn read_u32(world: &mut World, entity: EcsId, comp: EcsId) -> u32 {
    let bytes = world.get_component_mut_dynamic(entity, comp).unwrap();
    u32::from_ne_bytes((&*bytes).try_into().unwrap())
}

struct A(f32);
struct B(f32);

fn spawn_u32_u64(world: &mut World, u32_id: EcsId, u64_id: EcsId, a: u32, b: u64) -> EcsId {
    world.spawn().with_dynamic_with_data(&a.to_ne_bytes(), u32_id).with_dynamic_with_data(&b.to_ne_bytes(), u64_id).build()
}

#[test]
fn world_add_component() {
    let mut world = World::new();
    let entity = with_value::<u32>(world.spawn(), &1_u32.to_ne_bytes()).build();
    add_value::<u64>(&mut world, entity, &2_u64.to_ne_bytes());

    assert!(world.archetypes.len() == 3);
    let entity_meta = world.get_entity_meta(entity).unwrap();
    assert!(entity_meta.instance_meta.archetype.0 == 2);
    assert!(entity_meta.instance_meta.index == 0);

    // The two component entities
    assert!(world.archetypes[0].entities.len() == 2);
    assert!(world.archetypes[0].component_storages.len() == 0);

    // The first archetype entity was in
    assert!(world.archetypes[1].entities.len() == 0);
    assert!(world.archetypes[1].component_storages.len() == 1);
    for (_, storage) in world.archetypes[1].component_storages.iter() {
        assert!(storage.len() == 0);
    }

    // The current archetype entity was in
    assert!(world.archetypes[2].entities.len() == 1);
    assert!(world.archetypes[2].component_storages.len() == 2);
    for (_, storage) in world.archetypes[2].component_storages.iter() {
        assert!(storage.len() == 1);
    }

    let mut run_times = 0;
    for items in rows(&world.query::<(&u32, &u64)>()) {
        assert!(as_u32(&items[0]) == 1);
        assert!(as_u64(&items[1]) == 2);
        run_times += 1;
    }
    assert!(run_times == 1);
}

#[test]
fn world_add_component_then_spawn() {
    let mut world = World::new();
    let entity = with_value::<u32>(world.spawn(), &1_u32.to_ne_bytes()).build();
    add_value::<u64>(&mut world, entity, &2_u64.to_ne_bytes());

    let builder = with_value::<u32>(world.spawn(), &3_u32.to_ne_bytes());
    let entity2 = with_value::<u64>(builder, &4_u64.to_ne_bytes()).build();

    assert!(world.archetypes.len() == 3);

    // Component entities
    assert!(world.archetypes[0].entities.len() == 2);
    assert!(world.archetypes[0].component_storages.len() == 0);

    // Original first entity archetype
    assert!(world.archetypes[1].entities.len() == 0);
    assert!(world.archetypes[1].component_storages.len() == 1);
    assert!(world.archetypes[1].component_storages[0].1.len() == 0);

    // Entity2 + Entity1 Archetpye
    assert!(world.archetypes[2].entities.len() == 2);
    assert!(world.archetypes[2].entities[0] == entity);
    assert!(world.archetypes[2].entities[1] == entity2);
    assert!(world.archetypes[2].component_storages.len() == 2);
    assert!(world.archetypes[2].component_storages[0].1.len() == 2);
    assert!(world.archetypes[2].component_storages[1].1.len() == 2);

    let entity_meta = world.get_entity_meta(entity).unwrap();
    assert!(entity_meta.instance_meta.archetype.0 == 2);
    assert!(entity_meta.instance_meta.index == 0);

    let entity_meta = world.get_entity_meta(entity2).unwrap();
    assert!(entity_meta.instance_meta.archetype.0 == 2);
    assert!(entity_meta.instance_meta.index == 1);

    let mut run_times = 0;
    let mut checks = vec![(1, 2), (3, 4)].into_iter();
    for items in rows(&world.query::<(&u32, &u64)>()) {
        assert!(checks.next().unwrap() == (as_u32(&items[0]), as_u64(&items[1])));
        run_times += 1;
    }
    assert!(run_times == 2);
}

#[test]
fn world_add_two() {
    let mut world = World::new();
    let entity_1 = with_value::<A>(world.spawn(), &1.0_f32.to_ne_bytes()).build();
    let entity_2 = with_value::<A>(world.spawn(), &1.0_f32.to_ne_bytes()).build();

    assert!(world.archetypes[0].entities.len() == 1);
    assert!(world.archetypes[0].component_storages.len() == 0);

    let entity_1_meta = world.get_entity_meta(entity_1).unwrap();
    assert!(world.archetypes[1].entities[0] == entity_1);
    assert!(entity_1_meta.instance_meta.archetype.0 == 1);
    assert!(entity_1_meta.instance_meta.index == 0);

    let entity_2_meta = world.get_entity_meta(entity_2).unwrap();
    assert!(world.archetypes[1].entities[1] == entity_2);
    assert!(entity_2_meta.instance_meta.archetype.0 == 1);
    assert!(entity_2_meta.instance_meta.index == 1);

    add_value::<B>(&mut world, entity_1, &2.0_f32.to_ne_bytes());
    assert!(world.archetypes[0].entities.len() == 2);

    assert!(world.archetypes[1].entities[0] == entity_2);
    assert!(world.archetypes[1].entities.len() == 1);
    assert!(world.archetypes[2].entities[0] == entity_1);
    assert!(world.archetypes[2].entities.len() == 1);

    let entity_1_meta = world.get_entity_meta(entity_1).unwrap();
    assert!(entity_1_meta.instance_meta.archetype.0 == 2);
    assert!(entity_1_meta.instance_meta.index == 0);

    let entity_2_meta = world.get_entity_meta(entity_2).unwrap();
    assert!(entity_2_meta.instance_meta.archetype.0 == 1);
    assert!(entity_2_meta.instance_meta.index == 0);

    add_value::<B>(&mut world, entity_2, &2.0_f32.to_ne_bytes());
    assert!(world.archetypes[0].entities.len() == 2);
    assert!(world.archetypes[1].entities.len() == 0);
    assert!(world.archetypes[2].entities.len() == 2);

    assert!(world.archetypes[2].entities[0] == entity_1);
    assert!(world.archetypes[2].entities[1] == entity_2);

    let entity_1_meta = world.get_entity_meta(entity_1).unwrap();
    assert!(entity_1_meta.instance_meta.archetype.0 == 2);
    assert!(entity_1_meta.instance_meta.index == 0);

    let entity_2_meta = world.get_entity_meta(entity_2).unwrap();
    assert!(entity_2_meta.instance_meta.archetype.0 == 2);
    assert!(entity_2_meta.instance_meta.index == 1);
}

#[test]
fn world_add_multiple() {
    let mut world = World::new();
    let mut entities = Vec::with_capacity(500);

    for _ in 0..10 {
        entities.push(with_value::<A>(world.spawn(), &1.0_f32.to_ne_bytes()).build());
    }

    for &entity in entities.iter() {
        add_value::<B>(&mut world, entity, &1.0_f32.to_ne_bytes());
    }
    for &entity in entities.iter() {
        remove_value::<B>(&mut world, entity);
    }
}

#[test]
fn world_despawn_meta_update() {
    let mut world = World::new();

    let e1 = with_value::<u32>(world.spawn(), &10_u32.to_ne_bytes()).build();
    let e2 = with_value::<u32>(world.spawn(), &12_u32.to_ne_bytes()).build();
    let e3 = with_value::<u32>(world.spawn(), &14_u32.to_ne_bytes()).build();
    let u32_id = world.get_or_create_type_id_ecsid::<u32>();

    assert!(world.despawn(e1));

    assert!(world.is_alive(e1) == false);
    assert!(world.get_entity_meta(e1).is_none());

    assert!(world.is_alive(e2));
    assert!(world.is_alive(e3));

    assert!(read_u32(&mut world, e2, u32_id) == 12);
    assert!(read_u32(&mut world, e3, u32_id) == 14);
}

#[test]
fn world_despawn_component_entity() {
    // Removing entities from the archetypes when they are despawned as components is not done
    // by the world, so there is nothing to check.
    let world = World::new();
    assert!(world.archetypes.len() == 0);
}

#[test]
fn world_spawn() {
    let mut world = World::new();
    let entity = world.spawn().build();
    assert_eq!(entity, EcsId::new(0, 0));
}

#[test]
fn world_spawn_with_capacity() {
    let mut world = World::new();
    let entity = world.spawn_with_capacity(32).build();
    assert_eq!(entity, EcsId::new(0, 0));
}

#[test]
fn world_spawn_with_capacity_zero() {
    let mut world = World::new();
    let entity = world.spawn_with_capacity(0).build();
    assert_eq!(entity, EcsId::new(0, 0));
}

#[test]
fn tests_add_component() {
    let mut world = World::new();
    let entity = with_value::<u32>(world.spawn(), &1_u32.to_ne_bytes()).build();
    add_value::<u64>(&mut world, entity, &2_u64.to_ne_bytes());

    assert!(world.archetypes.len() == 3);
    let entity_meta = world.get_entity_meta(entity).unwrap();
    assert!(entity_meta.instance_meta.archetype.0 == 2);
    assert!(entity_meta.instance_meta.index == 0);

    // The two component entities
    assert!(world.archetypes[0].entities.len() == 2);
    assert!(world.archetypes[0].component_storages.len() == 0);

    // The first archetype entity was in
    assert!(world.archetypes[1].entities.len() == 0);
    assert!(world.archetypes[1].component_storages.len() == 1);
    for (_, storage) in world.archetypes[1].component_storages.iter() {
        assert!(storage.len() == 0);
    }

    // The current archetype entity was in
    assert!(world.archetypes[2].entities.len() == 1);
    assert!(world.archetypes[2].component_storages.len() == 2);
    for (_, storage) in world.archetypes[2].component_storages.iter() {
        assert!(storage.len() == 1);
    }

    let mut run_times = 0;
    for items in rows(&world.query::<(&u32, &u64)>()) {
        assert!(as_u32(&items[0]) == 1);
        assert!(as_u64(&items[1]) == 2);
        run_times += 1;
    }
    assert!(run_times == 1);
}

#[test]
fn tests_add_component_then_spawn() {
    let mut world = World::new();
    let entity = with_value::<u32>(world.spawn(), &1_u32.to_ne_bytes()).build();
    add_value::<u64>(&mut world, entity, &2_u64.to_ne_bytes());

    let builder = with_value::<u32>(world.spawn(), &3_u32.to_ne_bytes());
    let entity2 = with_value::<u64>(builder, &4_u64.to_ne_bytes()).build();

    assert!(world.archetypes.len() == 3);

    // Component entities
    assert!(world.archetypes[0].entities.len() == 2);
    assert!(world.archetypes[0].component_storages.len() == 0);

    // Original first entity archetype
    assert!(world.archetypes[1].entities.len() == 0);
    assert!(world.archetypes[1].component_storages.len() == 1);
    assert!(world.archetypes[1].component_storages[0].1.len() == 0);

    // Entity2 + Entity1 Archetpye
    assert!(world.archetypes[2].entities.len() == 2);
    assert!(world.archetypes[2].entities[0] == entity);
    assert!(world.archetypes[2].entities[1] == entity2);
    assert!(world.archetypes[2].component_storages.len() == 2);
    assert!(world.archetypes[2].component_storages[0].1.len() == 2);
    assert!(world.archetypes[2].component_storages[1].1.len() == 2);

    let entity_meta = world.get_entity_meta(entity).unwrap();
    assert!(entity_meta.instance_meta.archetype.0 == 2);
    assert!(entity_meta.instance_meta.index == 0);

    let entity_meta = world.get_entity_meta(entity2).unwrap();
    assert!(entity_meta.instance_meta.archetype.0 == 2);
    assert!(entity_meta.instance_meta.index == 1);

    let mut run_times = 0;
    let mut checks = vec![(1, 2), (3, 4)].into_iter();
    for items in rows(&world.query::<(&u32, &u64)>()) {
        assert!(checks.next().unwrap() == (as_u32(&items[0]), as_u64(&items[1])));
        run_times += 1;
    }
    assert!(run_times == 2);
}

#[test]
fn tests_add_two() {
    let mut world = World::new();
    let entity_1 = with_value::<A>(world.spawn(), &1.0_f32.to_ne_bytes()).build();
    let entity_2 = with_value::<A>(world.spawn(), &1.0_f32.to_ne_bytes()).build();

    assert!(world.archetypes[0].entities.len() == 1);
    assert!(world.archetypes[0].component_storages.len() == 0);

    let entity_1_meta = world.get_entity_meta(entity_1).unwrap();
    assert!(world.archetypes[1].entities[0] == entity_1);
    assert!(entity_1_meta.instance_meta.archetype.0 == 1);
    assert!(entity_1_meta.instance_meta.index == 0);

    let entity_2_meta = world.get_entity_meta(entity_2).unwrap();
    assert!(world.archetypes[1].entities[1] == entity_2);
    assert!(entity_2_meta.instance_meta.archetype.0 == 1);
    assert!(entity_2_meta.instance_meta.index == 1);

    add_value::<B>(&mut world, entity_1, &2.0_f32.to_ne_bytes());
    assert!(world.archetypes[0].entities.len() == 2);

    assert!(world.archetypes[1].entities[0] == entity_2);
    assert!(world.archetypes[1].entities.len() == 1);
    assert!(world.archetypes[2].entities[0] == entity_1);
    assert!(world.archetypes[2].entities.len() == 1);

    let entity_1_meta = world.get_entity_meta(entity_1).unwrap();
    assert!(entity_1_meta.instance_meta.archetype.0 == 2);
    assert!(entity_1_meta.instance_meta.index == 0);

    let entity_2_meta = world.get_entity_meta(entity_2).unwrap();
    assert!(entity_2_meta.instance_meta.archetype.0 == 1);
    assert!(entity_2_meta.instance_meta.index == 0);

    add_value::<B>(&mut world, entity_2, &2.0_f32.to_ne_bytes());
    assert!(world.archetypes[0].entities.len() == 2);
    assert!(world.archetypes[1].entities.len() == 0);
    assert!(world.archetypes[2].entities.len() == 2);

    assert!(world.archetypes[2].entities[0] == entity_1);
    assert!(world.archetypes[2].entities[1] == entity_2);

    let entity_1_meta = world.get_entity_meta(entity_1).unwrap();
    assert!(entity_1_meta.instance_meta.archetype.0 == 2);
    assert!(entity_1_meta.instance_meta.index == 0);

    let entity_2_meta = world.get_entity_meta(entity_2).unwrap();
    assert!(entity_2_meta.instance_meta.archetype.0 == 2);
    assert!(entity_2_meta.instance_meta.index == 1);
}

#[test]
fn tests_add_multiple() {
    let mut world = World::new();
    let mut entities = Vec::with_capacity(500);

    for _ in 0..10 {
        entities.push(with_value::<A>(world.spawn(), &1.0_f32.to_ne_bytes()).build());
    }

    for &entity in entities.iter() {
        add_value::<B>(&mut world, entity, &1.0_f32.to_ne_bytes());
    }
    for &entity in entities.iter() {
        remove_value::<B>(&mut world, entity);
    }
}

#[test]
fn tests_despawn_meta_update() {
    let mut world = World::new();

    let e1 = with_value::<u32>(world.spawn(), &10_u32.to_ne_bytes()).build();
    let e2 = with_value::<u32>(world.spawn(), &12_u32.to_ne_bytes()).build();
    let e3 = with_value::<u32>(world.spawn(), &14_u32.to_ne_bytes()).build();
    let u32_id = world.get_or_create_type_id_ecsid::<u32>();

    assert!(world.despawn(e1));

    assert!(world.is_alive(e1) == false);
    assert!(world.get_entity_meta(e1).is_none());

    assert!(world.is_alive(e2));
    assert!(world.is_alive(e3));

    assert!(read_u32(&mut world, e2, u32_id) == 12);
    assert!(read_u32(&mut world, e3, u32_id) == 14);
}

#[test]
fn tests_despawn_component_entity() {
    // Removing entities from the archetypes when they are despawned as components is not done
    // by the world, so there is nothing to check.
    let world = World::new();
    assert!(world.archetypes.len() == 0);
}

#[test]
fn tests_spawn() {
    let mut world = World::new();
    let entity = world.spawn().build();
    assert_eq!(entity, EcsId::new(0, 0));
}

#[test]
fn tests_spawn_with_capacity() {
    let mut world = World::new();
    let entity = world.spawn_with_capacity(32).build();
    assert_eq!(entity, EcsId::new(0, 0));
}

#[test]
fn tests_spawn_with_capacity_zero() {
    let mut world = World::new();
    let entity = world.spawn_with_capacity(0).build();
    assert_eq!(entity, EcsId::new(0, 0));
}

#[test]
fn dyn_query_for_each_mut() {
    let mut world = World::new();

    let u32_id = world.spawn_with_component_meta(ComponentMeta::from_generic::<u32>()).build();
    let u64_id = world.spawn_with_component_meta(ComponentMeta::from_generic::<u64>()).build();

    spawn_u32_u64(&mut world, u32_id, u64_id, 10, 12);
    spawn_u32_u64(&mut world, u32_id, u64_id, 15, 14);
    spawn_u32_u64(&mut world, u32_id, u64_id, 20, 16);

    let query = world.query_dynamic(vec![FetchType::Mut(u32_id), FetchType::Immut(u64_id)]);
    let mut checks = vec![(10, 12), (15, 14), (20, 16)].into_iter();

    for items in rows(&query) {
        assert_eq!(checks.next().unwrap(), (as_u32(&items[0]), as_u64(&items[1])));
    }
    assert_eq!(checks.next(), None);
}

#[test]
fn dyn_query_for_each_subset_iterator() {
    let mut world = World::new();

    let u32_id = world.spawn_with_component_meta(ComponentMeta::from_generic::<u32>()).build();
    let u64_id = world.spawn_with_component_meta(ComponentMeta::from_generic::<u64>()).build();

    spawn_u32_u64(&mut world, u32_id, u64_id, 10, 12);
    spawn_u32_u64(&mut world, u32_id, u64_id, 15, 14);
    spawn_u32_u64(&mut world, u32_id, u64_id, 20, 16);

    let query = world.query_dynamic(vec![FetchType::Mut(u32_id)]);
    let mut checks = vec![10, 15, 20].into_iter();

    for items in rows(&query) {
        assert_eq!(checks.next().unwrap(), as_u32(&items[0]));
    }
    assert_eq!(checks.next(), None);
}

#[test]
fn dyn_query_for_each_multi_archetype_iterator() {
    let mut world = World::new();

    let u32_id = world.spawn_with_component_meta(ComponentMeta::from_generic::<u32>()).build();
    let u64_id = world.spawn_with_component_meta(ComponentMeta::from_generic::<u64>()).build();
    let u128_id = world.spawn_with_component_meta(ComponentMeta::from_generic::<u128>()).build();

    spawn_u32_u64(&mut world, u32_id, u64_id, 10, 12);
    spawn_u32_u64(&mut world, u32_id, u64_id, 15, 14);
    spawn_u32_u64(&mut world, u32_id, u64_id, 20, 16);

    for (a, b) in [(11_u32, 12_u64), (16, 14), (21, 16)] {
        world
            .spawn()
            .with_dynamic_with_data(&a.to_ne_bytes(), u32_id)
            .with_dynamic_with_data(&b.to_ne_bytes(), u64_id)
            .with_dynamic_with_data(&99_u128.to_ne_bytes(), u128_id)
            .build();
    }

    let query = world.query_dynamic(vec![FetchType::Mut(u32_id)]);
    let mut checks = vec![10, 15, 20, 11, 16, 21].into_iter();

    for items in rows(&query) {
        assert_eq!(checks.next().unwrap(), as_u32(&items[0]));
    }
    assert!(checks.next().is_none());
}

#[test]
fn dyn_query_query_param_in_func() {
    let mut world = World::new();
    let comp_id = world.spawn().build();
    world.spawn().with_dynamic(comp_id).build();
    let query = world.query_dynamic(vec![FetchType::Immut(comp_id)]);
    fn func(query: StaticQuery) {
        let mut ran = false;
        for _ in rows(&query) {
            ran = true;
        }
        assert!(ran);
    }
    func(query);
}

#[test]
fn dyn_query_entity_query() {
    let mut world = World::new();

    let u32_id = world.spawn_with_component_meta(ComponentMeta::from_generic::<u32>()).build();
    let u64_id = world.spawn_with_component_meta(ComponentMeta::from_generic::<u64>()).build();

    let entity = spawn_u32_u64(&mut world, u32_id, u64_id, 1, 12);

    let query = world.query_dynamic(vec![FetchType::EcsId, FetchType::Immut(u32_id), FetchType::Immut(u64_id)]);

    let mut checks = vec![(entity, 1, 12)].into_iter();
    for items in rows(&query) {
        let (entity_check, data1_check, data2_check) = checks.next().unwrap();
        assert_eq!(as_entity(&items[0]), entity_check);
        assert_eq!(as_u32(&items[1]), data1_check);
        assert_eq!(as_u64(&items[2]), data2_check);
    }
    assert!(checks.next().is_none());
}

#[test]
fn non_present_component_query() {
    let mut other_world = World::new();
    let c_id = other_world.spawn().build();
    let world = World::new();
    assert!(rows(&world.query_dynamic(vec![FetchType::Mut(c_id)])).is_empty());
    assert!(rows(&world.query_dynamic(vec![FetchType::Immut(c_id)])).is_empty());
}

#[test]
fn iter() {
    let mut world = World::new();

    let u32_id = world.spawn_with_component_meta(ComponentMeta::from_size_align(4, 4)).build();
    let u64_id = world.spawn_with_component_meta(ComponentMeta::from_size_align(8, 8)).build();

    spawn_u32_u64(&mut world, u32_id, u64_id, 10, 12);
    spawn_u32_u64(&mut world, u32_id, u64_id, 15, 14);
    spawn_u32_u64(&mut world, u32_id, u64_id, 20, 16);

    let query = world.query_dynamic(vec![FetchType::Mut(u32_id), FetchType::Immut(u64_id)]);

    let mut checks = vec![(10, 12), (15, 14), (20, 16)].into_iter();
    for items in rows(&query) {
        let check = checks.next().unwrap();
        assert_eq!(as_u32(&items[0]), check.0);
        assert_eq!(as_u64(&items[1]), check.1);
    }
}
