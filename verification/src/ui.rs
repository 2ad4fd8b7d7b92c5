//! What the sim hands the UI each frame: element ids, the handful of plain
//! layout vocabulary types, and the data bindings a UI script reads.

pub mod layout;
pub mod ir;
pub mod run;
