//! The constants of the physics of the player, in whole blocks and seconds
//! where they are whole, else in tenths.

use vstd::prelude::*;

verus! {

/// The pull of gravity, in blocks per second and second: downwards.
pub const GRAVITY: i32 = -32;

/// The speed at which a player leaves the ground in a jump, in blocks per second.
pub const JUMP_VELOCITY: i32 = 10;

/// The highest speed of a fall, in tenths of a block per second: downwards.
pub const TERMINAL_VELOCITY_TENTHS: i32 = -784;

/// The width of a player, in tenths of a block.
pub const PLAYER_WIDTH_TENTHS: i32 = 6;

/// The height of a player, in tenths of a block.
pub const PLAYER_HEIGHT_TENTHS: i32 = 18;

} // verus!
