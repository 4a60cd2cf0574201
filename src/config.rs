use vstd::prelude::*;

verus! {

/// Width of the map, in cells.
pub const MAP_WIDTH: i32 = 80;
/// Height of the map, in cells.
pub const MAP_HEIGHT: i32 = 43;

pub const ROOM_MAX_SIZE: i32 = 10;
pub const ROOM_MIN_SIZE: i32 = 6;
/// Number of candidate rooms tried per level.
pub const MAX_ROOMS: i32 = 30;

/// How many positions are sampled for one spawn before it is given up.
pub const MAX_SPAWN_TRIES: u32 = 10;

/// Number of messages that the log keeps.
pub const MSG_HEIGHT: usize = 6;

pub const MAX_INVENTORY_SIZE: usize = 26;

/// Index of the player in the entity store.
pub const PLAYER: usize = 0;

pub const HEAL_AMOUNT: i32 = 4;

pub const LIGHTNING_RANGE: i32 = 5;
pub const LIGHTNING_DAMAGE: i32 = 20;
pub const CONFUSE_RANGE: i32 = 8;
pub const CONFUSE_NUM_TURNS: i32 = 10;
pub const FIREBALL_RADIUS: i32 = 3;
pub const FIREBALL_DAMAGE: i32 = 12;

pub const LEVEL_UP_BASE: i32 = 200;
pub const LEVEL_UP_FACTOR: i32 = 150;

} // verus!
