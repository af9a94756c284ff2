//! An archetype-based entity component system whose bookkeeping is verified.
pub mod array_vec;
pub mod bitset_iterator;
pub mod dyn_query;
pub mod entities;
pub mod entity_builder;
pub mod sparse_array;
pub mod type_id;
pub mod static_query;
pub mod untyped_vec;
pub mod utils;
pub mod world;

pub use dyn_query::FetchType;
pub use entities::EcsId;
pub use static_query::{EcsIds, StaticQuery};
pub use world::World;
