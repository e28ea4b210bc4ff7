//! Where the cursor is in the game world.
//!
//! Lengths and positions of the game world are whole numbers of thousandths
//! of a pixel.

use vstd::prelude::*;

verus! {

/// The length of one pixel in the unit of the game world.
pub const PIXEL: i64 = 1000;

/// A position in the game world, or an extent along both of its axes.
#[derive(Clone, Copy, Debug, PartialEq, Eq, Structural)]
pub struct Point {
    pub x: i64,
    pub y: i64,
}

/// The position of the cursor in the game world; none while the cursor is
/// outside the window.
#[derive(Clone, Copy, Debug, PartialEq, Eq)]
pub struct CursorPosition(pub Option<Point>);

} // verus!
