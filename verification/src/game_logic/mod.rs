use vstd::prelude::*;

pub mod blocks;
pub mod game;
pub mod player;

verus! {

/// Player-specific coordinates; in ring mode (0,1) points downwards for the player.
/// These numbers do not wrap around in ring mode, so they can get big.
pub type PlayerPoint = (i32, i32);

/// Coordinates that are the same for all players; they differ from player coordinates
/// only in ring mode.
pub type WorldPoint = (i16, i16);

/// Coordinates relative to the center of a falling block.
pub type BlockRelativeCoords = (i8, i8);

/// One of the four unit vectors (0,-1), (0,1), (-1,0), (1,0).
pub open spec fn is_unit_direction(d: (i8, i8)) -> bool {
    (d.0 == 0 && (d.1 == 1 || d.1 == -1)) || (d.1 == 0 && (d.0 == 1 || d.0 == -1))
}

} // verus!
