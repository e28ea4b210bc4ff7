//! Levels: how large the map is, how it is populated, how many districts the
//! player draws, and how one level follows from the one before.
//!
//! Shares of the population are counted in parts per million, so that all of
//! the arithmetic is on integers.

use vstd::prelude::*;

verus! {

/// The fewest districts that a level asks for.
pub const MIN_DISTRICTS: u8 = 3;

/// The most districts that a level asks for.
pub const MAX_DISTRICTS: u8 = 9;

/// The whole, in the unit that shares are counted in.
pub const MILLION: u32 = 1_000_000;

/// The least share of voters on the player's side, in parts per million.
pub const MIN_GOOD_PPM: u32 = 250_000;

/// The greatest share of populated tiles, in parts per million.
pub const MAX_POPULATED_PPM: u32 = 900_000;

/// The greatest side of a map.
pub const MAX_MAP_SIZE: usize = 20;

/// One tile in this many makes a district, when the next level is laid out.
pub const TILES_PER_DISTRICT: usize = 35;

/// One round of the game.
#[derive(Clone, Copy, Debug, PartialEq, Eq)]
pub struct Level {
    /// The number of districts to draw.
    pub districts: u8,
    /// The share of the population that votes with the player, in parts per
    /// million.
    pub good_ppm: u32,
    /// The share of the map that is populated, in parts per million.
    pub populated_ppm: u32,
    /// The number of rows of the map, and of its columns.
    pub map_size: usize,
    /// The least population of a district.
    pub min_district_size: usize,
    /// The greatest population of a district.
    pub max_district_size: usize,
}

/// The quotient `num / den` rounded to the nearest integer, a half rounded up.
pub open spec fn round_div(num: int, den: int) -> int
    recommends
        0 <= num,
        0 < den,
{
    (2 * num + den) / (2 * den)
}

/// The least size of a district when `tiles` populated tiles are shared among
/// `districts` districts: 95% of the average, rounded.
pub open spec fn min_size_for(tiles: int, districts: int) -> int {
    round_div(19 * tiles, 20 * districts)
}

/// The greatest size of a district when `tiles` populated tiles are shared
/// among `districts` districts: 105% of the average, rounded.
pub open spec fn max_size_for(tiles: int, districts: int) -> int {
    round_div(21 * tiles, 20 * districts)
}

/// The number of districts that make a majority of `districts`.
pub open spec fn districts_to_win(districts: int) -> int {
    districts / 2 + 1
}

/// The sizes of all districts taken together, when just enough of them for a
/// majority have the least size and the others the greatest.
pub open spec fn target_district_sizes(level: Level) -> int {
    if level.districts == 0 {
        0
    } else {
        districts_to_win(level.districts as int) * level.min_district_size + (level.districts
            - districts_to_win(level.districts as int)) * level.max_district_size
    }
}

/// The fewest tiles on the player's side with which a level of `tiles`
/// populated tiles can be won: a bare majority in the smallest district, in just
/// enough districts for a majority of them, and half, rounded up, of the tiles
/// that the districts leave over.
pub open spec fn min_good_tiles(level: Level, tiles: int) -> int {
    let extra = if tiles > target_district_sizes(level) {
        tiles - target_district_sizes(level)
    } else {
        0
    };
    (level.min_district_size / 2 + 1) * districts_to_win(level.districts as int) + (extra + 1)
        / 2
}

/// The side of the map that follows one of side `map_size`.
pub open spec fn next_map_size(map_size: int) -> int {
    if map_size + 1 < MAX_MAP_SIZE {
        map_size + 1
    } else {
        MAX_MAP_SIZE as int
    }
}

/// The number of districts on a map of side `map_size`: one for every 35
/// tiles, made odd by adding one where it is even, and kept between the least
/// and the greatest number of districts.
pub open spec fn districts_for(map_size: int) -> int {
    let by_area = map_size * map_size / (TILES_PER_DISTRICT as int);
    let odd = if by_area % 2 == 0 {
        by_area + 1
    } else {
        by_area
    };
    if odd < MIN_DISTRICTS {
        MIN_DISTRICTS as int
    } else if odd > MAX_DISTRICTS {
        MAX_DISTRICTS as int
    } else {
        odd
    }
}

/// The populated share that follows `populated_ppm`: a twentieth more, but no
/// more than the greatest share.
pub open spec fn next_populated_ppm(populated_ppm: int) -> int {
    let grown = round_div(21 * populated_ppm, 20);
    if grown < MAX_POPULATED_PPM {
        grown
    } else {
        MAX_POPULATED_PPM as int
    }
}

/// The player's share that follows `good_ppm`: a tenth less, but no less than
/// the least share.
pub open spec fn next_good_ppm(good_ppm: int) -> int {
    let shrunk = round_div(9 * good_ppm, 10);
    if shrunk > MIN_GOOD_PPM {
        shrunk
    } else {
        MIN_GOOD_PPM as int
    }
}

/// The level that follows `level`. Its district sizes are those for the
/// number of populated tiles that its map is expected to have.
pub open spec fn next_level(level: Level) -> Level {
    let map_size = next_map_size(level.map_size as int);
    let districts = districts_for(map_size);
    let populated_ppm = next_populated_ppm(level.populated_ppm as int);
    Level {
        districts: districts as u8,
        good_ppm: next_good_ppm(level.good_ppm as int) as u32,
        populated_ppm: populated_ppm as u32,
        map_size: map_size as usize,
        min_district_size: round_div(
            19 * (map_size * map_size * populated_ppm),
            20 * (MILLION * districts),
        ) as usize,
        max_district_size: round_div(
            21 * (map_size * map_size * populated_ppm),
            20 * (MILLION * districts),
        ) as usize,
    }
}

/// The level reached from `level` after `steps` steps.
pub open spec fn level_after(level: Level, steps: nat) -> Level
    decreases steps,
{
    if steps == 0 {
        level
    } else {
        next_level(level_after(level, (steps - 1) as nat))
    }
}

/// `num / den` rounded to the nearest integer, a half rounded up.
fn rounded_quotient(num: u128, den: u128) -> (quotient: u128)
    requires
        0 < den,
        2 * num + den <= u128::MAX,
        2 * den <= u128::MAX,
    ensures
        quotient == round_div(num as int, den as int),
{
    (2 * num + den) / (2 * den)
}

/// Rounding `num / den` is monotonic in `num`.
pub proof fn lemma_round_div_monotonic(low: int, high: int, den: int)
    requires
        0 <= low <= high,
        0 < den,
    ensures
        0 <= round_div(low, den) <= round_div(high, den),
{
    assert(0 <= (2 * low + den) / (2 * den) <= (2 * high + den) / (2 * den))
        by (nonlinear_arith)
        requires
            0 <= low <= high,
            0 < den,
    ;
}

/// With at least two districts, no district is larger than the populated part
/// of the map.
pub proof fn lemma_sizes_bounded(tiles: int, districts: int)
    requires
        0 <= tiles,
        2 <= districts,
    ensures
        0 <= min_size_for(tiles, districts) <= max_size_for(tiles, districts) <= tiles,
{
    lemma_round_div_monotonic(19 * tiles, 21 * tiles, 20 * districts);
    assert((2 * (21 * tiles) + 20 * districts) / (2 * (20 * districts)) <= tiles)
        by (nonlinear_arith)
        requires
            0 <= tiles,
            2 <= districts,
    ;
}

/// One step of the progression keeps every level within the bounds of the
/// game, and makes no level easier than the one before: from a level whose map
/// is no larger than the greatest map, the map does not shrink; from a level
/// with at least the least share of voters on the player's side, that share
/// does not grow.
pub proof fn lemma_next_level_bounded(level: Level)
    ensures
        0 < next_level(level).map_size <= MAX_MAP_SIZE,
        MIN_DISTRICTS <= next_level(level).districts <= MAX_DISTRICTS,
        next_level(level).good_ppm >= MIN_GOOD_PPM,
        next_level(level).populated_ppm <= MAX_POPULATED_PPM,
        level.map_size <= MAX_MAP_SIZE ==> next_level(level).map_size >= level.map_size,
        level.good_ppm >= MIN_GOOD_PPM ==> next_level(level).good_ppm <= level.good_ppm,
{
    let map_size = next_map_size(level.map_size as int);
    assert(0 <= map_size * map_size <= 400) by (nonlinear_arith)
        requires
            0 < map_size <= 20,
    ;
}

/// However often the game moves on to the next level, the map is no larger
/// than the greatest map, the districts are no fewer than the least number and
/// no more than the greatest, and the share of voters on the player's side is
/// no less than the least share.
pub proof fn lemma_progression_bounded(level: Level, steps: nat)
    requires
        steps >= 1,
    ensures
        0 < level_after(level, steps).map_size <= MAX_MAP_SIZE,
        MIN_DISTRICTS <= level_after(level, steps).districts <= MAX_DISTRICTS,
        level_after(level, steps).good_ppm >= MIN_GOOD_PPM,
        level_after(level, steps).populated_ppm <= MAX_POPULATED_PPM,
{
    lemma_next_level_bounded(level_after(level, (steps - 1) as nat));
}

/// As the game moves from level to level, the map never shrinks and the share
/// of voters on the player's side never grows. This holds from the first step
/// on; it holds of the level that the game set out from too, if its map is no
/// larger than the greatest map and its share of voters on the player's side
/// is no less than the least share.
pub proof fn lemma_progression_monotonic(level: Level, earlier: nat, later: nat)
    requires
        earlier <= later,
        earlier >= 1 || (level.map_size <= MAX_MAP_SIZE && level.good_ppm >= MIN_GOOD_PPM),
    ensures
        level_after(level, later).map_size >= level_after(level, earlier).map_size,
        level_after(level, later).good_ppm <= level_after(level, earlier).good_ppm,
    decreases later - earlier,
{
    if earlier < later {
        lemma_progression_monotonic(level, earlier, (later - 1) as nat);
        let before = level_after(level, (later - 1) as nat);
        if later - 1 >= 1 {
            lemma_progression_bounded(level, (later - 1) as nat);
        }
        lemma_next_level_bounded(before);
    }
}

impl Level {
    /// What makes a level playable: at least three districts, a share of the
    /// player's voters strictly between nothing and all, some populated tiles,
    /// a map of at least one tile, and district sizes in order.
    pub open spec fn wf(&self) -> bool {
        &&& self.districts >= MIN_DISTRICTS
        &&& 0 < self.good_ppm < MILLION
        &&& 0 < self.populated_ppm <= MILLION
        &&& self.map_size > 0
        &&& self.min_district_size <= self.max_district_size
    }

    /// Whether the level is playable.
    pub fn is_playable(&self) -> (b: bool)
        ensures
            b == self.wf(),
    {
        self.districts >= MIN_DISTRICTS && 0 < self.good_ppm && self.good_ppm < MILLION && 0
            < self.populated_ppm && self.populated_ppm <= MILLION && self.map_size > 0
            && self.min_district_size <= self.max_district_size
    }

    /// The level that the game starts with: three districts on a map of side
    /// eight, seven tiles in ten populated, half of the voters on the player's
    /// side.
    pub open spec fn starting_level() -> Level {
        Level {
            districts: 3,
            good_ppm: 500_000,
            populated_ppm: 700_000,
            map_size: 8,
            min_district_size: 18,
            max_district_size: 20,
        }
    }

    /// The level that the game starts with.
    pub fn starting() -> (level: Level)
        ensures
            level == Level::starting_level(),
            level.wf(),
    {
        Level {
            districts: 3,
            good_ppm: 500_000,
            populated_ppm: 700_000,
            map_size: 8,
            min_district_size: 18,
            max_district_size: 20,
        }
    }

    /// Sets the least and greatest district size for a map with
    /// `num_non_empty_tiles` populated tiles: 95% and 105% of the average
    /// district, each rounded to the nearest integer.
    pub fn set_district_sizes(&mut self, num_non_empty_tiles: usize)
        requires
            old(self).districts > 0,
            max_size_for(num_non_empty_tiles as int, old(self).districts as int) <= usize::MAX,
        ensures
            final(self).min_district_size == min_size_for(
                num_non_empty_tiles as int,
                old(self).districts as int,
            ),
            final(self).max_district_size == max_size_for(
                num_non_empty_tiles as int,
                old(self).districts as int,
            ),
            final(self).min_district_size <= final(self).max_district_size,
            final(self).districts == old(self).districts,
            final(self).good_ppm == old(self).good_ppm,
            final(self).populated_ppm == old(self).populated_ppm,
            final(self).map_size == old(self).map_size,
    {
        let tiles = num_non_empty_tiles as u128;
        let den = 20 * (self.districts as u128);
        proof {
            lemma_round_div_monotonic(19 * tiles, 21 * tiles, den as int);
        }
        let min = rounded_quotient(19 * tiles, den);
        let max = rounded_quotient(21 * tiles, den);
        self.min_district_size = min as usize;
        self.max_district_size = max as usize;
    }
}

/// The fewest tiles on the player's side that a map of `num_non_empty_tiles`
/// populated tiles needs for the level to be winnable.
pub fn determine_min_good_tiles(level: &Level, num_non_empty_tiles: usize) -> (tiles: u128)
    ensures
        tiles == min_good_tiles(*level, num_non_empty_tiles as int),
{
    let min_good_tiles_per_good_district = (level.min_district_size as u128) / 2 + 1;
    let min_districts_to_win = (level.districts as u128) / 2 + 1;
    let other_districts = if level.districts == 0 {
        0
    } else {
        (level.districts as u128) - min_districts_to_win
    };
    assert(min_districts_to_win * (level.min_district_size as u128) <= 128 * usize::MAX)
        by (nonlinear_arith)
        requires
            min_districts_to_win <= 128,
            level.min_district_size <= usize::MAX,
    ;
    assert(other_districts * (level.max_district_size as u128) <= 128 * usize::MAX)
        by (nonlinear_arith)
        requires
            other_districts <= 128,
            level.max_district_size <= usize::MAX,
    ;
    assert(min_good_tiles_per_good_district * min_districts_to_win <= 128 * usize::MAX)
        by (nonlinear_arith)
        requires
            min_districts_to_win <= 128,
            min_good_tiles_per_good_district <= usize::MAX / 2 + 1,
            usize::MAX >= 2,
    ;
    let total_district_sizes = if level.districts == 0 {
        0
    } else {
        min_districts_to_win * (level.min_district_size as u128) + other_districts * (
        level.max_district_size as u128)
    };
    let tiles = num_non_empty_tiles as u128;
    let extra_tiles = if tiles > total_district_sizes {
        tiles - total_district_sizes
    } else {
        0
    };
    min_good_tiles_per_good_district * min_districts_to_win + (extra_tiles + 1) / 2
}

/// The level that follows `old_level`: a larger map, up to the greatest; one
/// district for every 35 tiles, an odd number of them within the bounds; more
/// of the map populated; fewer voters on the player's side.
pub fn generate_next_level(old_level: &Level) -> (level: Level)
    ensures
        level == next_level(*old_level),
        0 < level.map_size <= MAX_MAP_SIZE,
        MIN_DISTRICTS <= level.districts <= MAX_DISTRICTS,
        level.districts % 2 == 1,
        level.good_ppm >= MIN_GOOD_PPM,
        level.populated_ppm <= MAX_POPULATED_PPM,
        level.min_district_size <= level.max_district_size,
        old_level.map_size <= MAX_MAP_SIZE ==> level.map_size >= old_level.map_size,
        old_level.good_ppm >= MIN_GOOD_PPM ==> level.good_ppm <= old_level.good_ppm,
        old_level.populated_ppm <= MAX_POPULATED_PPM ==> level.populated_ppm
            >= old_level.populated_ppm,
        old_level.wf() ==> level.wf(),
{
    let map_size: usize = if old_level.map_size < MAX_MAP_SIZE - 1 {
        old_level.map_size + 1
    } else {
        MAX_MAP_SIZE
    };
    assert(map_size * map_size <= 400) by (nonlinear_arith)
        requires
            map_size <= 20,
    ;
    let by_area: usize = map_size * map_size / TILES_PER_DISTRICT;
    let odd: usize = if by_area % 2 == 0 {
        by_area + 1
    } else {
        by_area
    };
    let districts: u8 = if odd < MIN_DISTRICTS as usize {
        MIN_DISTRICTS
    } else if odd > MAX_DISTRICTS as usize {
        MAX_DISTRICTS
    } else {
        odd as u8
    };
    let grown: u128 = rounded_quotient(21 * (old_level.populated_ppm as u128), 20);
    let populated_ppm: u32 = if grown < MAX_POPULATED_PPM as u128 {
        grown as u32
    } else {
        MAX_POPULATED_PPM
    };
    let shrunk: u128 = rounded_quotient(9 * (old_level.good_ppm as u128), 10);
    let good_ppm: u32 = if shrunk > MIN_GOOD_PPM as u128 {
        shrunk as u32
    } else {
        MIN_GOOD_PPM
    };
    assert((map_size as u128) * (map_size as u128) * (populated_ppm as u128) <= 400 * 900_000)
        by (nonlinear_arith)
        requires
            map_size <= 20,
            populated_ppm <= 900_000,
    ;
    assert((map_size as u128) * (map_size as u128) <= 400) by (nonlinear_arith)
        requires
            map_size <= 20,
    ;
    let expected: u128 = (map_size as u128) * (map_size as u128) * (populated_ppm as u128);
    let den: u128 = 20 * ((MILLION as u128) * (districts as u128));
    proof {
        lemma_round_div_monotonic(19 * expected, 21 * expected, den as int);
        assert((2 * (21 * expected) + den) / (2 * den) <= 400) by (nonlinear_arith)
            requires
                expected <= 400 * 900_000,
                den >= 60_000_000,
        ;
    }
    let min = rounded_quotient(19 * expected, den);
    let max = rounded_quotient(21 * expected, den);
    Level {
        districts,
        good_ppm,
        populated_ppm,
        map_size,
        min_district_size: min as usize,
        max_district_size: max as usize,
    }
}

} // verus!
