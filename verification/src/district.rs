//! What a district amounts to: its size, who wins it, and whether it counts.

use crate::level::Level;
use vstd::prelude::*;

verus! {

/// Who carries a district.
#[derive(Clone, Copy, Debug, PartialEq, Eq, Structural)]
pub enum DistrictWinner {
    /// The player's party has more tiles.
    Good,
    /// The other party has more tiles.
    Bad,
    /// Both parties have the same number of tiles.
    Tie,
}

/// Whether a district may stand as it is drawn.
#[derive(Clone, Copy, Debug, PartialEq, Eq, Structural)]
pub enum DistrictValidity {
    /// It has fewer tiles than the level asks for.
    TooSmall,
    /// It has more tiles than the level allows.
    TooBig,
    /// Its size is in order, but its tiles do not hang together.
    NonContiguous,
    /// It is of the right size and in one piece.
    Valid,
}

/// The state of one district.
#[derive(Clone, Copy, Debug, PartialEq, Eq)]
pub struct DistrictResult {
    /// The number of tiles in the district.
    pub size: usize,
    /// Who carries the district; nobody while its tiles do not form one
    /// contiguous region.
    pub winner: Option<DistrictWinner>,
}

/// The validity of a district of `size` tiles, contiguous or not, in `level`.
pub open spec fn validity_of(size: int, contiguous: bool, level: Level) -> DistrictValidity {
    if size < level.min_district_size {
        DistrictValidity::TooSmall
    } else if size > level.max_district_size {
        DistrictValidity::TooBig
    } else if !contiguous {
        DistrictValidity::NonContiguous
    } else {
        DistrictValidity::Valid
    }
}

/// Who carries a district with `good` tiles of the player's party and `bad`
/// tiles of the other.
pub open spec fn winner_of(good: int, bad: int) -> DistrictWinner {
    if good > bad {
        DistrictWinner::Good
    } else if good < bad {
        DistrictWinner::Bad
    } else {
        DistrictWinner::Tie
    }
}

impl DistrictResult {
    /// Whether the district may stand in `level`: too small below the least
    /// size, too big above the greatest, else non-contiguous if it has no
    /// winner, else valid.
    pub fn validity(&self, level: &Level) -> (validity: DistrictValidity)
        ensures
            validity == validity_of(self.size as int, self.winner is Some, *level),
    {
        if self.size < level.min_district_size {
            DistrictValidity::TooSmall
        } else if self.size > level.max_district_size {
            DistrictValidity::TooBig
        } else if self.winner.is_none() {
            DistrictValidity::NonContiguous
        } else {
            DistrictValidity::Valid
        }
    }
}

} // verus!
