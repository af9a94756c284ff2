use lib::entities::Entities;
use lib::entity_builder::EntityBuilder;
use lib::type_id::Component;
use lib::{EcsId, World};

/// Gives the entity being built the value `bytes` for the component of the Rust type `T`.
fn with_value<'a, T: Component>(builder: EntityBuilder<'a>, bytes: &[u8]) -> EntityBuilder<'a> {
    let id = builder.world.get_or_create_type_id_ecsid::<T>();
    builder.with_dynamic_with_data(bytes, id)
}

#[test]
fn entities_spawn_one() {
    let mut entities = Entities::new();

    assert_eq!(EcsId::new(0, 0), entities.spawn());
    assert!(entities.despawned.len() == 0);
    assert!(entities.generations.len() == 1);
}

#[test]
fn entities_spawn_multiple() {
    let mut entities = Entities::new();

    assert_eq!(EcsId::new(0, 0), entities.spawn());
    assert!(entities.despawned.len() == 0);
    assert!(entities.generations.len() == 1);

    assert_eq!(EcsId::new(1, 0), entities.spawn());
    assert!(entities.despawned.len() == 0);
    assert!(entities.generations.len() == 2);

    assert_eq!(EcsId::new(2, 0), entities.spawn());
    assert!(entities.despawned.len() == 0);
    assert!(entities.generations.len() == 3);

    assert_eq!(EcsId::new(3, 0), entities.spawn());
    assert!(entities.despawned.len() == 0);
    assert!(entities.generations.len() == 4);
}

#[test]
fn entities_spawn_one_despawn_one() {
    let mut entities = Entities::new();

    let entity = entities.spawn();
    assert_eq!(EcsId::new(0, 0), entity);
    assert!(entities.despawned.len() == 0);
    assert!(entities.generations.len() == 1);

    entities.despawn(entity);
    assert!(entities.despawned.len() == 1);
    assert!(entities.generations.len() == 1);
    assert!(entities.stored_generation_of(0) == 1);
    assert!(entities.is_alive(entity) == false);
}

#[test]
fn entities_reuse_despawned() {
    let mut entities = Entities::new();

    let entity = entities.spawn();
    assert_eq!(EcsId::new(0, 0), entity);
    assert!(entities.despawned.len() == 0);
    assert!(entities.generations.len() == 1);

    entities.despawn(entity);
    assert!(entities.despawned.len() == 1);
    assert!(entities.generations.len() == 1);
    assert!(entities.stored_generation_of(0) == 1);
    assert!(entities.is_alive(entity) == false);

    let entity2 = entities.spawn();
    assert_eq!(EcsId::new(0, 1), entity2);
    assert!(entity != entity2);
    assert!(entities.despawned.len() == 0);
    assert!(entities.generations.len() == 1);
    assert!(entities.stored_generation_of(0) == 1);
    assert!(entities.is_alive(entity) == false);
    assert!(entities.is_alive(entity2) == true);
}

#[test]
fn entities_double_despawn() {
    let mut entities = Entities::new();

    let entity = entities.spawn();
    entities.despawn(entity);

    assert!(entities.despawn(entity) == false);
    assert!(entities.despawned.len() == 1);
    assert!(entities.generations.len() == 1);
    assert!(entities.stored_generation_of(0) == 1);
    assert!(entities.is_alive(entity) == false);

    assert!(entities.spawn() == EcsId::new(0, 1));
}

#[test]
fn entities_reuse_despawn2() {
    let mut entities = Entities::new();

    let entity = entities.spawn();
    assert_eq!(EcsId::new(0, 0), entity);
    assert!(entities.despawned.len() == 0);
    assert!(entities.generations.len() == 1);

    let entity2 = entities.spawn();
    assert_eq!(EcsId::new(1, 0), entity2);
    assert!(entity != entity2);
    assert!(entities.despawned.len() == 0);
    assert!(entities.generations.len() == 2);
    assert!(entities.stored_generation_of(0) == 0);
    assert!(entities.stored_generation_of(1) == 0);
    assert!(entities.is_alive(entity) == true);
    assert!(entities.is_alive(entity2) == true);

    assert!(entities.despawn(entity) == true);
    assert!(entities.is_alive(entity) == false);
    assert!(entities.is_alive(entity2) == true);
    assert!(entities.generations.len() == 2);
    assert!(entities.stored_generation_of(0) == 1);
    assert!(entities.stored_generation_of(1) == 0);
    assert!(entities.despawned.len() == 1);
    assert!(*entities.despawned.get(0).unwrap() == 0);

    let entity3 = entities.spawn();
    assert!(entities.is_alive(entity) == false);
    assert!(entities.is_alive(entity2) == true);
    assert!(entities.is_alive(entity3) == true);

    assert!(entities.generations.len() == 2);
    assert!(entities.stored_generation_of(0) == 1);
    assert!(entities.stored_generation_of(1) == 0);

    assert!(entities.despawned.len() == 0);
}

#[test]
fn entities_generation_wraps() {
    let mut entities = Entities::new();

    entities.generations.push((false, u32::MAX - 1));
    entities.despawned.push(0);
    assert!(entities.stored_generation_of(0) == u32::MAX);

    let entity = entities.spawn();
    entities.despawn(entity);

    let entity = entities.spawn();

    assert!(entities.is_alive(entity));
    assert!(entity == EcsId::new(0, 0));
    assert!(entities.generations.len() == 1);
    assert!(entities.stored_generation_of(0) == 0);
    assert!(entities.despawned.len() == 0);
}

#[test]
fn entities_build_with_zst() {
    struct Zero;

    let mut world = World::new();
    let entity = with_value::<Zero>(world.spawn(), &[]).build();
    assert!(world.is_alive(entity));
}

#[test]
fn tests_spawn_one() {
    let mut entities = Entities::new();

    assert_eq!(EcsId::new(0, 0), entities.spawn());
    assert!(entities.despawned.len() == 0);
    assert!(entities.generations.len() == 1);
}

#[test]
fn tests_spawn_multiple() {
    let mut entities = Entities::new();

    assert_eq!(EcsId::new(0, 0), entities.spawn());
    assert!(entities.despawned.len() == 0);
    assert!(entities.generations.len() == 1);

    assert_eq!(EcsId::new(1, 0), entities.spawn());
    assert!(entities.despawned.len() == 0);
    assert!(entities.generations.len() == 2);

    assert_eq!(EcsId::new(2, 0), entities.spawn());
    assert!(entities.despawned.len() == 0);
    assert!(entities.generations.len() == 3);

    assert_eq!(EcsId::new(3, 0), entities.spawn());
    assert!(entities.despawned.len() == 0);
    assert!(entities.generations.len() == 4);
}

#[test]
fn tests_spawn_one_despawn_one() {
    let mut entities = Entities::new();

    let entity = entities.spawn();
    assert_eq!(EcsId::new(0, 0), entity);
    assert!(entities.despawned.len() == 0);
    assert!(entities.generations.len() == 1);

    entities.despawn(entity);
    assert!(entities.despawned.len() == 1);
    assert!(entities.generations.len() == 1);
    assert!(entities.stored_generation_of(0) == 1);
    assert!(entities.is_alive(entity) == false);
}

#[test]
fn tests_reuse_despawned() {
    let mut entities = Entities::new();

    let entity = entities.spawn();
    assert_eq!(EcsId::new(0, 0), entity);
    assert!(entities.despawned.len() == 0);
    assert!(entities.generations.len() == 1);

    entities.despawn(entity);
    assert!(entities.despawned.len() == 1);
    assert!(entities.generations.len() == 1);
    assert!(entities.stored_generation_of(0) == 1);
    assert!(entities.is_alive(entity) == false);

    let entity2 = entities.spawn();
    assert_eq!(EcsId::new(0, 1), entity2);
    assert!(entity != entity2);
    assert!(entities.despawned.len() == 0);
    assert!(entities.generations.len() == 1);
    assert!(entities.stored_generation_of(0) == 1);
    assert!(entities.is_alive(entity) == false);
    assert!(entities.is_alive(entity2) == true);
}

#[test]
fn tests_double_despawn() {
    let mut entities = Entities::new();

    let entity = entities.spawn();
    entities.despawn(entity);

    assert!(entities.despawn(entity) == false);
    assert!(entities.despawned.len() == 1);
    assert!(entities.generations.len() == 1);
    assert!(entities.stored_generation_of(0) == 1);
    assert!(entities.is_alive(entity) == false);

    assert!(entities.spawn() == EcsId::new(0, 1));
}

#[test]
fn tests_reuse_despawn2() {
    let mut entities = Entities::new();

    let entity = entities.spawn();
    assert_eq!(EcsId::new(0, 0), entity);
    assert!(entities.despawned.len() == 0);
    assert!(entities.generations.len() == 1);

    let entity2 = entities.spawn();
    assert_eq!(EcsId::new(1, 0), entity2);
    assert!(entity != entity2);
    assert!(entities.despawned.len() == 0);
    assert!(entities.generations.len() == 2);
    assert!(entities.stored_generation_of(0) == 0);
    assert!(entities.stored_generation_of(1) == 0);
    assert!(entities.is_alive(entity) == true);
    assert!(entities.is_alive(entity2) == true);

    assert!(entities.despawn(entity) == true);
    assert!(entities.is_alive(entity) == false);
    assert!(entities.is_alive(entity2) == true);
    assert!(entities.generations.len() == 2);
    assert!(entities.stored_generation_of(0) == 1);
    assert!(entities.stored_generation_of(1) == 0);
    assert!(entities.despawned.len() == 1);
    assert!(*entities.despawned.get(0).unwrap() == 0);

    let entity3 = entities.spawn();
    assert!(entities.is_alive(entity) == false);
    assert!(entities.is_alive(entity2) == true);
    assert!(entities.is_alive(entity3) == true);

    assert!(entities.generations.len() == 2);
    assert!(entities.stored_generation_of(0) == 1);
    assert!(entities.stored_generation_of(1) == 0);

    assert!(entities.despawned.len() == 0);
}

#[test]
fn tests_generation_wraps() {
    let mut entities = Entities::new();

    entities.generations.push((false, u32::MAX - 1));
    entities.despawned.push(0);
    assert!(entities.stored_generation_of(0) == u32::MAX);

    let entity = entities.spawn();
    entities.despawn(entity);

    let entity = entities.spawn();

    assert!(entities.is_alive(entity));
    assert!(entity == EcsId::new(0, 0));
    assert!(entities.generations.len() == 1);
    assert!(entities.stored_generation_of(0) == 0);
    assert!(entities.despawned.len() == 0);
}

#[test]
fn tests_build_with_zst() {
    struct Zero;

    let mut world = World::new();
    let entity = with_value::<Zero>(world.spawn(), &[]).build();
    assert!(world.is_alive(entity));
}

#[test]
fn despawned_slot_answers_for_its_next_identifier() {
    let mut entities = Entities::new();
    let entity = entities.spawn();
    assert!(entities.despawn(entity));
    // the stored generation moved on: the old identifier is not alive, the next one is
    assert!(!entities.is_alive(entity));
    assert!(entities.is_alive(EcsId::new(0, 1)));
    assert_eq!(entities.spawn(), EcsId::new(0, 1));
    assert!(entities.is_alive(EcsId::new(0, 1)));
}
