//! What can go wrong when a map is made or drawn on.

use crate::tile::Coordinates;
use vstd::prelude::*;

verus! {

/// The ways in which a request to the game can fail.
#[derive(Clone, Copy, Debug, PartialEq, Eq)]
pub enum GameError {
    /// The level cannot be won on the map that was drawn for it: it needs
    /// `min_good_tiles` tiles on the player's side, and only `non_empty_tiles`
    /// tiles are populated at all.
    ConfigurationError { min_good_tiles: u128, non_empty_tiles: usize },
    /// The coordinates lie outside the map, whose side is `map_size`.
    OutOfBoundsAccess { coords: Coordinates, map_size: usize },
    /// The level has only `districts` districts, numbered from zero.
    InvalidDistrictId { district_id: u8, districts: u8 },
}

} // verus!
