//! A turn-based dungeon crawl: level generation, combat, monster AI,
//! inventory and equipment, and a byte encoding of the saved game.
//! Rendering, input and field-of-view computation are left to the caller.

pub mod config;
pub mod tile;
pub mod rect;
pub mod map;
pub mod messages;
pub mod game;
pub mod object;
pub mod manager;
pub mod random;
pub mod inventory;
pub mod spells;
pub mod laws;
pub mod codec;
pub mod spawn;
