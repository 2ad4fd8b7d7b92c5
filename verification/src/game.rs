//! The sim on top of the entity system: the map, the calendar, the schema
//! and the world state the day pass rewrites.

pub mod map;
pub mod map_text;
pub mod date;
pub mod world;
pub mod defs;
pub mod spatial_map;
pub mod command;
pub mod pathfinding;
pub mod game;
pub mod interaction;
pub mod tick;
pub mod ui_data;
pub mod bootstrap;
pub mod draw_map;
