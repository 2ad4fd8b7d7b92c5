//! The entity system: generational ids and the per-entity stores that sit
//! beside them (names, tags, set memberships, typed columns, u64 and
//! scalar slots, and the weighted relation matrices).

pub mod defs;
pub mod id;
pub mod names;
pub mod relations;
pub mod sets;
pub mod table;
pub mod tags;
pub mod uvars;
pub mod vars;
