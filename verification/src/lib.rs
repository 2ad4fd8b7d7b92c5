//! Imperium's simulation core: entity stores, the world map and its
//! derived indexes, the calendar, the command protocol the UI speaks, the
//! tabula data format, and the data bridge into the UI.

pub mod entities;
pub mod util;
pub mod game;
pub mod tabula;
pub mod ui;
