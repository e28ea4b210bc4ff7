//! Map tiles: where they lie, who lives on them, and which district holds them.

use vstd::prelude::*;

verus! {

/// The position of a tile: column `x` and row `y`, both counted from zero.
#[derive(Clone, Copy, Debug, PartialEq, Eq, Hash, Structural)]
pub struct Coordinates {
    pub x: usize,
    pub y: usize,
}

/// Who lives on a tile.
#[derive(Clone, Copy, Debug, PartialEq, Eq, Hash, Structural)]
pub enum MapTileContent {
    /// Voters of the player's party.
    Good,
    /// Voters of the other party.
    Bad,
    /// Nobody: the tile casts no vote.
    Empty,
}

/// One cell of the map.
#[derive(Clone, Copy, Debug, PartialEq, Eq, Hash)]
pub struct MapTile {
    pub coords: Coordinates,
    pub content: MapTileContent,
    /// The district that the player put the tile in, if any.
    pub district_id: Option<u8>,
}

/// Two positions are adjacent when they differ by exactly one step along
/// exactly one axis.
pub open spec fn adjacent(a: Coordinates, b: Coordinates) -> bool {
    ||| a.y == b.y && (a.x == b.x + 1 || b.x == a.x + 1)
    ||| a.x == b.x && (a.y == b.y + 1 || b.y == a.y + 1)
}

impl MapTile {
    /// Whether this tile is orthogonally adjacent to `other`.
    pub fn adjacent_to(&self, other: &MapTile) -> (b: bool)
        ensures
            b == adjacent(self.coords, other.coords),
    {
        let (sx, sy) = (self.coords.x, self.coords.y);
        let (ox, oy) = (other.coords.x, other.coords.y);
        (sy == oy && ((ox < sx && sx - ox == 1) || (sx < ox && ox - sx == 1)))
            || (sx == ox && ((oy < sy && sy - oy == 1) || (sy < oy && oy - sy == 1)))
    }

    /// Whether the two tiles agree in position, content and district.
    pub fn same_as(&self, other: &MapTile) -> (b: bool)
        ensures
            b == (*self == *other),
    {
        let same_district = match (self.district_id, other.district_id) {
            (Some(a), Some(b)) => a == b,
            (None, None) => true,
            _ => false,
        };
        self.coords == other.coords && self.content == other.content && same_district
    }

    /// A tile at `coords` with the given content, in no district.
    pub fn with_content(coords: Coordinates, content: MapTileContent) -> (tile: MapTile)
        ensures
            tile == (MapTile { coords, content, district_id: None }),
    {
        MapTile { coords, content, district_id: None }
    }

    /// A tile of the player's voters at column `x`, row `y`.
    pub fn new_good(x: usize, y: usize) -> (tile: MapTile)
        ensures
            tile == (MapTile {
                coords: Coordinates { x, y },
                content: MapTileContent::Good,
                district_id: None,
            }),
    {
        MapTile::with_content(Coordinates { x, y }, MapTileContent::Good)
    }

    /// A tile of the other party's voters at column `x`, row `y`.
    pub fn new_bad(x: usize, y: usize) -> (tile: MapTile)
        ensures
            tile == (MapTile {
                coords: Coordinates { x, y },
                content: MapTileContent::Bad,
                district_id: None,
            }),
    {
        MapTile::with_content(Coordinates { x, y }, MapTileContent::Bad)
    }

    /// An unpopulated tile at column `x`, row `y`.
    pub fn new_empty(x: usize, y: usize) -> (tile: MapTile)
        ensures
            tile == (MapTile {
                coords: Coordinates { x, y },
                content: MapTileContent::Empty,
                district_id: None,
            }),
    {
        MapTile::with_content(Coordinates { x, y }, MapTileContent::Empty)
    }
}

} // verus!
