//! The rules of a redistricting puzzle: a square map of voters, districts drawn
//! on it by the player, and the levels that the game moves through.
//!
//! Every function of this crate is verified against the contract it carries,
//! but for one: the draw from the generator of random numbers in [`rng`], whose
//! contract is taken on trust.

pub mod contiguity;
pub mod cursor_position;
pub mod district;
pub mod error;
pub mod game;
pub mod grid;
pub mod level;
pub mod map;
pub mod menu;
pub mod rng;
pub mod tile;
