# arche_tape

An archetype-based entity component system. Entities are identifiers; each entity is stored
in the archetype for exactly the set of components it has, one storage per component, and a
bitvec per component records which archetypes hold it, so that a query finds its archetypes
by and-ing bitvecs.

Layout:

- `src/` is the library, checked by Verus. Component values are held as bytes; whatever
  takes a value out of the world (`remove_component_dynamic`, `despawn_with_values`,
  `UntypedVec::take_last`, `UntypedVec::swap_remove`) hands its bytes back, so that the
  owner of the Rust values can drop them.
  - `entities.rs`: identifiers (slot and generation) and their allocator.
  - `bitset_iterator.rs`: bitvecs, the per-component table of bitvecs, and the iterator over
    the positions set in all of several bitvecs.
  - `untyped_vec.rs`: layouts and the byte storage of one component.
  - `world.rs`: archetypes, entity metadata and the world: spawning, despawning, adding and
    removing components, finding archetypes.
  - `entity_builder.rs`: building an entity from its components.
  - `static_query.rs`, `dyn_query.rs`: queries over the entities that have given components.
  - `type_id.rs`: the component identifier of a Rust type.
  - `array_vec.rs`, `sparse_array.rs`, `utils.rs`: small containers and helpers.
- `tests/` runs the library on concrete worlds.
- `app/` gives and reads components as Rust values (`spawn!`, `TypedBuilder`,
  `TypedWorld`), holds the maps from Rust types to values and the resources of a run
  (`WorldWithResources::run`), drops the values the world gives back, and writes components
  through queries (`for_each_mut`).

The main invariant, `World::wf`, ties the archetypes, the entity metadata, the bitvecs and
the archetype caches together, and keeps one archetype per set of components; every
operation keeps it, and states what it does to the components of each entity
(`World::components`) and where the entity is stored (`World::moved_to`, `World::reached`).
