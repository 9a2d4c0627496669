//! An archetype-based entity-component store: a columnar, type-erased
//! container keyed by the set of component types an entity carries, together
//! with a skeletal system scheduler that consumes it.

pub mod archetype;
pub mod entities;
pub mod laws;
pub mod storage;
pub mod system;
pub mod world;
