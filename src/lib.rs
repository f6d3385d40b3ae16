//! An archetype-based entity-component store with a type-erased access layer.
//!
//! Entities are generation-versioned handles (`entity`); the components of
//! each entity live in one archetype table, a column per component
//! (`archetype`); the world keeps the location table that maps every live
//! entity to its row, and moves rows between archetypes when components are
//! added or removed (`world`). Bundles of one kind are spawned in batches
//! (`spawn_batch`); components are reached by run-time type key through
//! reflection façades (`reflect`); scenes copy worlds into worlds through a
//! type registry (`scene`).
use vstd::prelude::*;

pub mod archetype;
pub mod entity;
pub mod pipeline_layout;
pub mod reflect;
pub mod scene;
pub mod spawn_batch;
pub mod text_flags;
pub mod world;

verus! {

} // verus!
