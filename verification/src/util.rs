//! Small flat building blocks shared by every store: bit sets, the
//! deterministic random source, and span-addressed linear buffers.

pub mod bitset;
pub mod decimal;
pub mod rng;
pub mod span;
pub mod strings;
pub mod text;
