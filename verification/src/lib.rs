//! A parent/child entity-relationship management layer for tree-shaped
//! simulation state.
//!
//! Client code declares typed family relationships between entities, issues
//! create/update/delete/clear commands against named entities through an
//! event batch, and lets the expiry engine despawn entities whose age
//! exceeds a component-declared lifetime (cascading from parent to child).

pub mod functions;
pub mod graph;
pub mod keys;
pub mod laws;
pub mod structs;
pub mod systems;

pub use functions::get_entity_by_identifier;
pub use graph::{Entity, EntityGraph, EntityRecord};
pub use keys::lawful_key;
pub use systems::{cud_bundle, refresh_by_own_lifetime, refresh_by_parent_lifetime};
pub use structs::{Action, BiologicalClock, BiologicalTrait, CudEvent, History, Identifier,
    Lifespan, Lineage};
