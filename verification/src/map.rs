//! The map: a square grid of tiles, and the districts drawn on it.

use crate::contiguity::{are_contiguous, tile_values};
use crate::district::{validity_of, DistrictResult, DistrictValidity, DistrictWinner};
use crate::error::GameError;
use crate::grid::{
    all_tiles, balanced, content_of, count_content, count_non_empty, district_results,
    district_tiles, district_winner, drawn_for, enough_good, exceeds, falls_within, good_wins,
    grid_of, has_content, in_district, is_balanced, is_drawn, is_positioned, is_square,
    is_square_of_contents, kept, lemma_all_populated, lemma_all_tiles_position,
    lemma_all_tiles_push, lemma_count_with_tile, lemma_flip, lemma_good_and_bad_disjoint,
    lemma_kept_is_filter, lemma_non_empty_bounded, lemma_same_populated_twice,
    lemma_tile_set_of_values, none_assigned, rows_of, same_populated, solved, suffices, tile_at,
    too_many_good, with_tile,
};
use crate::level::{
    determine_min_good_tiles, lemma_sizes_bounded, max_size_for, min_good_tiles, min_size_for,
    round_div, Level, MILLION,
};
use crate::rng::random_below;
use crate::tile::{Coordinates, MapTile, MapTileContent};
use rand::rngs::StdRng;
use vstd::prelude::*;

verus! {

/// The number of `tiles` with the given content.
fn count_with_content(tiles: &Vec<&MapTile>, content: MapTileContent) -> (count: usize)
    ensures
        count == tile_values(tiles@).filter(has_content(content)).len(),
{
    let mut count: usize = 0;
    let mut i: usize = 0;
    proof {
        reveal(Seq::filter);
        assert(tile_values(tiles@.take(0)) =~= Seq::<MapTile>::empty());
    }
    while i < tiles.len()
        invariant
            i <= tiles.len(),
            count <= i,
            count == tile_values(tiles@.take(i as int)).filter(has_content(content)).len(),
        decreases tiles.len() - i,
    {
        proof {
            let before = tile_values(tiles@.take(i as int));
            assert(tile_values(tiles@.take(i + 1)) =~= before.push(*tiles@[i as int]));
            before.lemma_filter_push(*tiles@[i as int], has_content(content));
        }
        if tiles[i].content == content {
            count += 1;
        }
        i += 1;
    }
    proof {
        assert(tiles@.take(tiles@.len() as int) =~= tiles@);
    }
    count
}

/// Contents for a map of `level`, row by row, drawn by chance from `rng`: two
/// draws from a million decide the content of each tile, the second of which
/// is made only where the first leaves the tile populated.
fn sample_contents(level: &Level, rng: &mut StdRng) -> (contents: Vec<Vec<MapTileContent>>)
    ensures
        contents@.len() == level.map_size,
        is_square_of_contents(rows_of(contents@)),
        drawn_for(rows_of(contents@), *level),
{
    let size = level.map_size;
    let mut contents: Vec<Vec<MapTileContent>> = Vec::new();
    let mut y: usize = 0;
    while y < size
        invariant
            y <= size,
            contents@.len() == y,
            forall|r: int| 0 <= r < y ==> (#[trigger] contents@[r])@.len() == size,
            forall|r: int, c: int|
                0 <= r < y && 0 <= c < size ==> is_drawn(#[trigger] contents@[r]@[c], *level),
        decreases size - y,
    {
        let mut row: Vec<MapTileContent> = Vec::new();
        let mut x: usize = 0;
        while x < size
            invariant
                x <= size,
                row@.len() == x,
                forall|c: int| 0 <= c < x ==> is_drawn(#[trigger] row@[c], *level),
            decreases size - x,
        {
            let populated_draw = random_below(rng, MILLION as usize);
            let good_draw = if within_share(populated_draw, level.populated_ppm) {
                random_below(rng, MILLION as usize)
            } else {
                0
            };
            let tile = content_for(populated_draw, good_draw, level);
            proof {
                assert(is_drawn(tile, *level));
            }
            row.push(tile);
            x += 1;
        }
        contents.push(row);
        y += 1;
    }
    proof {
        assert forall|r: int| 0 <= r < size implies (#[trigger] rows_of(contents@)[r]).len()
            == size by {
            assert(contents@[r]@.len() == size);
        }
        assert forall|r: int, c: int|
            0 <= r < rows_of(contents@).len() && 0 <= c < rows_of(contents@)[r].len() implies is_drawn(
            #[trigger] rows_of(contents@)[r][c],
            *level,
        ) by {
            assert(is_drawn(contents@[r]@[c], *level));
        }
    }
    contents
}

/// The content of a tile, as two draws from a million decide it for the
/// level: populated if the first is below the populated share, and then on the
/// player's side if the second is below the player's share.
pub fn content_for(populated_draw: usize, good_draw: usize, level: &Level) -> (content:
    MapTileContent)
    ensures
        content == content_of(populated_draw as int, good_draw as int, *level),
{
    if within_share(populated_draw, level.populated_ppm) {
        if within_share(good_draw, level.good_ppm) {
            MapTileContent::Good
        } else {
            MapTileContent::Bad
        }
    } else {
        MapTileContent::Empty
    }
}

/// Whether a draw from a million falls within a share given in parts per
/// million: the draw is below the share.
pub fn within_share(draw: usize, share_ppm: u32) -> (b: bool)
    ensures
        b == falls_within(draw as int, share_ppm as int),
{
    draw < share_ppm as usize
}

/// The map of a level.
#[derive(Clone, Debug, PartialEq, Eq)]
pub struct TileMap {
    tiles: Vec<Vec<MapTile>>,
    num_non_empty_tiles: usize,
}

impl View for TileMap {
    type V = Seq<Seq<MapTile>>;

    /// The rows of the map from the first to the last, each a sequence of
    /// tiles from the first column to the last.
    closed spec fn view(&self) -> Seq<Seq<MapTile>> {
        rows_of(self.tiles@)
    }
}

/// What a map made by chance for a level is like: what every map is, of the
/// side that the level gives, with no tile in a district, with district sizes
/// of the level that fit its populated tiles, and with enough tiles on the
/// player's side, but too many only where one fewer would not be enough.
pub open spec fn fits_level(map: TileMap, level: Level) -> bool {
    let non_empty = count_non_empty(map@) as int;
    let good = count_content(map@, MapTileContent::Good) as int;
    &&& map.wf()
    &&& map@.len() == level.map_size
    &&& none_assigned(map@)
    &&& level.min_district_size == min_size_for(non_empty, level.districts as int)
    &&& level.max_district_size == max_size_for(non_empty, level.districts as int)
    &&& enough_good(level, non_empty, good)
    &&& !too_many_good(level, non_empty, good) || !enough_good(level, non_empty, good - 1)
}

/// What the failure to make a map for a level says: with its number of
/// populated tiles, and the district sizes that `level` has for them, the
/// level needs more tiles on the player's side than are populated.
pub open spec fn tells_why(e: GameError, level: Level) -> bool {
    &&& e matches GameError::ConfigurationError { min_good_tiles: needed, non_empty_tiles }
    &&& non_empty_tiles <= level.map_size * level.map_size
    &&& level.min_district_size == min_size_for(non_empty_tiles as int, level.districts as int)
    &&& level.max_district_size == max_size_for(non_empty_tiles as int, level.districts as int)
    &&& needed == min_good_tiles(level, non_empty_tiles as int)
    &&& needed > non_empty_tiles
}

/// On a map that fits its level, the tiles on the player's side have at least
/// the share that the level asks for, and the level can be won with them.
pub proof fn lemma_fitting_map_has_enough_good(map: TileMap, level: Level)
    requires
        fits_level(map, level),
    ensures
        count_content(map@, MapTileContent::Good) * 1_000_000 >= level.good_ppm * count_non_empty(
            map@,
        ),
        count_content(map@, MapTileContent::Good) >= min_good_tiles(
            level,
            count_non_empty(map@) as int,
        ),
{
}

/// On a map that fits its level, there are as many rows, and as many tiles
/// in each row, as the side of the level's map, and the tile at column `x` of
/// row `y` records that position.
pub proof fn lemma_fitting_map_is_positioned(map: TileMap, level: Level, x: int, y: int)
    requires
        fits_level(map, level),
        0 <= x < level.map_size,
        0 <= y < level.map_size,
    ensures
        map@.len() == level.map_size,
        map@[y].len() == level.map_size,
        map@[y][x].coords == (Coordinates { x: x as usize, y: y as usize }),
{
}

/// What `made_from` says of a map that was made, or of the failure to make
/// one, is what `fits_level` and `tells_why` say of them.
pub proof fn lemma_made_from(
    before: Level,
    contents: Seq<Seq<MapTileContent>>,
    after: Level,
    made: Result<TileMap, GameError>,
)
    requires
        made_from(before, contents, after, made),
        is_square_of_contents(contents),
        contents.len() == before.map_size,
    ensures
        match made {
            Ok(map) => fits_level(map, after),
            Err(e) => tells_why(e, after),
        },
{
    if made is Err {
        let grid = grid_of(contents);
        assert(is_square(grid)) by {
            assert forall|y: int| 0 <= y < grid.len() implies (#[trigger] grid[y]).len()
                == grid.len() by {
                assert(contents[y].len() == contents.len());
            }
        }
        lemma_non_empty_bounded(grid, before.map_size as int);
    }
}

/// What comes of making a map for a level from the contents that were drawn
/// for its tiles. The level keeps all but its district sizes, which are set to
/// fit the populated tiles that were drawn. A map is made if and only if those
/// tiles are no fewer than the tiles that the level needs on the player's side;
/// the map fits the level, has the tiles populated that were drawn so, and is
/// reached from what was drawn by the steps of balancing. Else the error names
/// the two numbers.
pub open spec fn made_from(
    before: Level,
    contents: Seq<Seq<MapTileContent>>,
    after: Level,
    made: Result<TileMap, GameError>,
) -> bool {
    let non_empty = count_non_empty(grid_of(contents)) as int;
    let needed = min_good_tiles(after, non_empty);
    &&& after.districts == before.districts
    &&& after.good_ppm == before.good_ppm
    &&& after.populated_ppm == before.populated_ppm
    &&& after.map_size == before.map_size
    &&& after.min_district_size == min_size_for(non_empty, before.districts as int)
    &&& after.max_district_size == max_size_for(non_empty, before.districts as int)
    &&& made is Ok <==> needed <= non_empty
    &&& made matches Ok(map) ==> {
        &&& fits_level(map, after)
        &&& count_non_empty(map@) == non_empty
        &&& same_populated(map@, grid_of(contents))
        &&& is_balanced(map@, grid_of(contents), after.good_ppm * non_empty, needed)
    }
    &&& made matches Err(e) ==> {
        &&& e matches GameError::ConfigurationError { min_good_tiles: told, non_empty_tiles }
        &&& told == needed
        &&& non_empty_tiles == non_empty
    }
}

/// Given the level, the contents that were drawn for the tiles and the picks
/// of the tiles that change sides, nothing else bears on what is made: two
/// maps made from them are the same tile by tile, with the same count of
/// populated tiles, and leave the level with the same district sizes.
pub proof fn lemma_same_draws_same_map(
    before: Level,
    contents: Seq<Seq<MapTileContent>>,
    picks: Seq<int>,
    first_level: Level,
    first: TileMap,
    second_level: Level,
    second: TileMap,
)
    requires
        made_from(before, contents, first_level, Ok(first)),
        made_from(before, contents, second_level, Ok(second)),
        first@ == balanced(
            grid_of(contents),
            before.good_ppm * count_non_empty(grid_of(contents)),
            min_good_tiles(first_level, count_non_empty(grid_of(contents)) as int),
            picks,
        ).0,
        second@ == balanced(
            grid_of(contents),
            before.good_ppm * count_non_empty(grid_of(contents)),
            min_good_tiles(second_level, count_non_empty(grid_of(contents)) as int),
            picks,
        ).0,
    ensures
        first_level == second_level,
        first@ == second@,
        first.counted_non_empty() == second.counted_non_empty(),
{
}

/// Whether `made` is what comes of making a map for the level that was
/// `before` from contents that two draws from a million decide for each of its
/// tiles.
pub open spec fn is_made(before: Level, after: Level, made: Result<TileMap, GameError>) -> bool {
    exists|contents: Seq<Seq<MapTileContent>>|
        {
            &&& contents.len() == before.map_size
            &&& is_square_of_contents(contents)
            &&& drawn_for(contents, before)
            &&& #[trigger] made_from(before, contents, after, made)
        }
}

impl TileMap {
    /// The number of populated tiles that the map keeps count of.
    pub closed spec fn counted_non_empty(&self) -> nat {
        self.num_non_empty_tiles as nat
    }

    /// What holds of every map that the game makes: it is square, each tile
    /// records its own position, and the count of populated tiles is right.
    pub open spec fn wf(&self) -> bool {
        &&& is_square(self@)
        &&& is_positioned(self@)
        &&& self.counted_non_empty() == count_non_empty(self@)
    }

    /// Whether `coords` lies on the map.
    pub open spec fn in_bounds(&self, coords: Coordinates) -> bool {
        tile_at(self@, coords.x as int, coords.y as int) is Some
    }

    /// The map of no tiles, which stands before the first level is set up.
    pub fn empty() -> (map: TileMap)
        ensures
            map@.len() == 0,
            map.wf(),
    {
        let map = TileMap { tiles: Vec::new(), num_non_empty_tiles: 0 };
        proof {
            reveal(Seq::filter);
            assert(map@ =~= Seq::<Seq<MapTile>>::empty());
        }
        map
    }

    /// The map of unassigned tiles with the given contents, row by row.
    ///
    /// There is no such map unless each row is as long as there are rows,
    /// and the number of tiles can be counted.
    pub fn from_contents(contents: &Vec<Vec<MapTileContent>>) -> (made: Option<TileMap>)
        ensures
            made is Some <==> is_square_of_contents(rows_of(contents@)) && contents@.len()
                * contents@.len() <= usize::MAX,
            made matches Some(map) ==> map.wf() && map@ == grid_of(rows_of(contents@)),
    {
        let size = contents.len();
        let ghost given = rows_of(contents@);
        let mut y: usize = 0;
        while y < size
            invariant
                y <= size,
                size == contents@.len(),
                given == rows_of(contents@),
                forall|r: int| 0 <= r < y ==> (#[trigger] given[r]).len() == size,
            decreases size - y,
        {
            if contents[y].len() != size {
                proof {
                    assert(given[y as int].len() != size);
                }
                return None;
            }
            y += 1;
        }
        if size.checked_mul(size).is_none() {
            return None;
        }
        let mut tiles: Vec<Vec<MapTile>> = Vec::new();
        let mut count: usize = 0;
        y = 0;
        proof {
            reveal(Seq::filter);
            assert(rows_of(tiles@) =~= Seq::<Seq<MapTile>>::empty());
            assert(grid_of(given).take(0) =~= Seq::<Seq<MapTile>>::empty());
        }
        while y < size
            invariant
                y <= size,
                size == contents@.len(),
                size * size <= usize::MAX,
                given == rows_of(contents@),
                is_square_of_contents(given),
                rows_of(tiles@) == grid_of(given).take(y as int),
                count == count_non_empty(rows_of(tiles@)),
                count <= y * size,
            decreases size - y,
        {
            let mut row: Vec<MapTile> = Vec::new();
            let mut x: usize = 0;
            let ghost done = rows_of(tiles@);
            let ghost good = has_content(MapTileContent::Good);
            let ghost bad = has_content(MapTileContent::Bad);
            proof {
                assert(row@ =~= grid_of(given)[y as int].take(0));
            }
            while x < size
                invariant
                    x <= size,
                    y < size,
                    size == contents@.len(),
                    size * size <= usize::MAX,
                    given == rows_of(contents@),
                    is_square_of_contents(given),
                    good == has_content(MapTileContent::Good),
                    bad == has_content(MapTileContent::Bad),
                    row@ == grid_of(given)[y as int].take(x as int),
                    count == count_non_empty(done) + row@.filter(good).len() + row@.filter(
                        bad,
                    ).len(),
                    count <= y * size + x,
                decreases size - x,
            {
                assert(given[y as int].len() == size);
                let content = contents[y][x];
                let tile = MapTile::with_content(Coordinates { x, y }, content);
                proof {
                    assert((y + 1) * size <= size * size) by (nonlinear_arith)
                        requires
                            y < size,
                    ;
                    assert((y + 1) * size == y * size + size) by (nonlinear_arith);
                    row@.lemma_filter_push(tile, good);
                    row@.lemma_filter_push(tile, bad);
                    assert(grid_of(given)[y as int].take(x + 1) =~= row@.push(tile));
                }
                match content {
                    MapTileContent::Empty => {},
                    _ => {
                        count += 1;
                    },
                }
                row.push(tile);
                x += 1;
            }
            proof {
                assert(row@ =~= grid_of(given)[y as int]);
                assert(rows_of(tiles@.push(row)) =~= done.push(row@));
                assert(grid_of(given).take(y + 1) =~= done.push(row@));
                lemma_all_tiles_push(done, row@);
                Seq::filter_distributes_over_add(all_tiles(done), row@, good);
                Seq::filter_distributes_over_add(all_tiles(done), row@, bad);
                assert((y + 1) * size == y * size + size) by (nonlinear_arith);
            }
            tiles.push(row);
            y += 1;
        }
        let map = TileMap { tiles, num_non_empty_tiles: count };
        proof {
            assert(grid_of(given).take(size as int) =~= grid_of(given));
        }
        Some(map)
    }

    /// A map for `level`, drawn by chance from `rng`, and the district sizes of
    /// `level` set to fit it.
    ///
    /// Each tile is populated with the chance that the level gives, and a
    /// populated tile is on the player's side with the chance that the level
    /// gives. Then tiles picked by chance change sides: away from the player
    /// while the player's share is above the level's by more than a tenth of it,
    /// and then towards the player until the share is no less than the level's
    /// and the level can be won.
    ///
    /// Fails when all populated tiles together are too few to win the level
    /// with. Where the level has every tile populated, chance has no part in
    /// that: the side of the map times itself is the number of populated tiles.
    pub fn generate(level: &mut Level, rng: &mut StdRng) -> (made: Result<TileMap, GameError>)
        requires
            old(level).wf(),
            old(level).map_size * old(level).map_size <= usize::MAX,
        ensures
            final(level).districts == old(level).districts,
            final(level).good_ppm == old(level).good_ppm,
            final(level).populated_ppm == old(level).populated_ppm,
            final(level).map_size == old(level).map_size,
            final(level).wf(),
            match made {
                Ok(map) => fits_level(map, *final(level)),
                Err(e) => tells_why(e, *final(level)),
            },
            is_made(*old(level), *final(level), made),
            old(level).populated_ppm == MILLION ==> (made is Ok <==> min_good_tiles(
                *final(level),
                old(level).map_size * old(level).map_size,
            ) <= old(level).map_size * old(level).map_size),
            old(level).populated_ppm == MILLION ==> match made {
                Ok(map) => count_non_empty(map@) == old(level).map_size * old(level).map_size,
                Err(e) => e matches GameError::ConfigurationError { non_empty_tiles, .. }
                    && non_empty_tiles == old(level).map_size * old(level).map_size,
            },
    {
        let contents = sample_contents(level, rng);
        let ghost drawn = rows_of(contents@);
        proof {
            if level.populated_ppm == MILLION {
                assert forall|y: int, x: int|
                    0 <= y < grid_of(drawn).len() && 0 <= x < grid_of(drawn)[y].len() implies (
                #[trigger] grid_of(drawn)[y][x]).content != MapTileContent::Empty by {
                    assert(is_drawn(drawn[y][x], *level));
                }
                lemma_all_populated(grid_of(drawn), level.map_size as int);
            }
        }
        let made = TileMap::generate_from(level, &contents, rng);
        proof {
            assert(made_from(*old(level), drawn, *level, made));
            lemma_made_from(*old(level), drawn, *level, made);
        }
        made
    }

    /// A map for `level` from the contents that were drawn for its tiles, row
    /// by row, and the district sizes of `level` set to fit it.
    ///
    /// Tiles picked by chance from `rng` change sides: away from the player
    /// while the player's share is above the level's by more than a tenth of it,
    /// and then towards the player until the share is no less than the level's
    /// and the level can be won. No tile becomes populated or unpopulated.
    ///
    /// Fails if and only if the populated tiles are fewer than the tiles that
    /// the level then needs on the player's side.
    pub fn generate_from(
        level: &mut Level,
        contents: &Vec<Vec<MapTileContent>>,
        rng: &mut StdRng,
    ) -> (made: Result<TileMap, GameError>)
        requires
            old(level).wf(),
            is_square_of_contents(rows_of(contents@)),
            contents@.len() == old(level).map_size,
            contents@.len() * contents@.len() <= usize::MAX,
        ensures
            final(level).wf(),
            made_from(*old(level), rows_of(contents@), *final(level), made),
    {
        let mut map = TileMap::from_contents(contents).unwrap();
        let num_non_empty_tiles = map.num_non_empty_tiles;
        proof {
            lemma_sizes_bounded(num_non_empty_tiles as int, level.districts as int);
            lemma_non_empty_bounded(map@, level.map_size as int);
        }
        level.set_district_sizes(num_non_empty_tiles);
        let min_good_tiles = determine_min_good_tiles(level, num_non_empty_tiles);
        let share: u128 = level.good_ppm as u128;
        let tiles: u128 = num_non_empty_tiles as u128;
        assert(share * tiles <= 1_000_000 * tiles) by (nonlinear_arith)
            requires
                share <= 1_000_000,
        ;
        if map.balance(share * tiles, min_good_tiles, rng) {
            proof {
                lemma_good_and_bad_disjoint(all_tiles(map@));
            }
            Ok(map)
        } else {
            Err(
                GameError::ConfigurationError {
                    min_good_tiles,
                    non_empty_tiles: num_non_empty_tiles,
                },
            )
        }
    }

    /// Makes tiles picked by chance change sides: away from the player while
    /// the tiles on the player's side are too many, and then towards the player
    /// until they are enough. Tells whether they are enough in the end: they are
    /// not where all populated tiles together would not be.
    fn balance(&mut self, wanted: u128, needed: u128, rng: &mut StdRng) -> (enough: bool)
        requires
            old(self).wf(),
            wanted <= 1_000_000 * count_non_empty(old(self)@),
        ensures
            final(self).wf(),
            final(self)@.len() == old(self)@.len(),
            same_populated(final(self)@, old(self)@),
            none_assigned(old(self)@) ==> none_assigned(final(self)@),
            count_non_empty(final(self)@) == count_non_empty(old(self)@),
            is_balanced(final(self)@, old(self)@, wanted as int, needed as int),
            enough ==> {
                let good = count_content(final(self)@, MapTileContent::Good) as int;
                &&& suffices(wanted as int, needed as int, good)
                &&& !exceeds(wanted as int, good) || !suffices(wanted as int, needed as int, good - 1)
            },
            !enough ==> needed > count_non_empty(old(self)@),
    {
        let num_non_empty_tiles = self.num_non_empty_tiles;
        let mut num_good_tiles = self.get_tiles_with_content(MapTileContent::Good).len();
        let ghost mut picks: Seq<int> = Seq::empty();
        while (num_good_tiles as u128) * 10_000_000 > 11 * wanted
            invariant
                balanced(old(self)@, wanted as int, needed as int, picks) == (self@, false),
                self.wf(),
                self@.len() == old(self)@.len(),
                same_populated(self@, old(self)@),
                none_assigned(old(self)@) ==> none_assigned(self@),
                count_non_empty(self@) == count_non_empty(old(self)@),
                num_non_empty_tiles == count_non_empty(self@),
                num_good_tiles == count_content(self@, MapTileContent::Good),
                wanted <= 1_000_000 * num_non_empty_tiles,
            decreases num_good_tiles,
        {
            let ghost grid = self@;
            let coords = self.find_random_coords_with_content(MapTileContent::Good, rng);
            self.set_content(&coords, MapTileContent::Bad);
            proof {
                lemma_same_populated_twice(self@, grid, old(self)@);
                let pick = choose|pick: int|
                    0 <= pick < count_content(grid, MapTileContent::Good) && coords == (
                    #[trigger] all_tiles(grid).filter(has_content(MapTileContent::Good))[pick]).coords;
                assert(picks.push(pick).drop_last() =~= picks);
                picks = picks.push(pick);
            }
            num_good_tiles -= 1;
        }
        while (num_good_tiles as u128) * 1_000_000 < wanted || (num_good_tiles as u128) < needed
            invariant
                balanced(old(self)@, wanted as int, needed as int, picks).0 == self@,
                balanced(old(self)@, wanted as int, needed as int, picks).1 || !exceeds(
                    wanted as int,
                    num_good_tiles as int,
                ),
                self.wf(),
                self@.len() == old(self)@.len(),
                same_populated(self@, old(self)@),
                none_assigned(old(self)@) ==> none_assigned(self@),
                count_non_empty(self@) == count_non_empty(old(self)@),
                num_non_empty_tiles == count_non_empty(self@),
                num_good_tiles == count_content(self@, MapTileContent::Good),
                wanted <= 1_000_000 * num_non_empty_tiles,
                !exceeds(wanted as int, num_good_tiles as int) || !suffices(
                    wanted as int,
                    needed as int,
                    num_good_tiles - 1,
                ),
            decreases num_non_empty_tiles - num_good_tiles,
        {
            if num_good_tiles == num_non_empty_tiles {
                return false;
            }
            let ghost grid = self@;
            let coords = self.find_random_coords_with_content(MapTileContent::Bad, rng);
            self.set_content(&coords, MapTileContent::Good);
            proof {
                lemma_same_populated_twice(self@, grid, old(self)@);
                let pick = choose|pick: int|
                    0 <= pick < count_content(grid, MapTileContent::Bad) && coords == (
                    #[trigger] all_tiles(grid).filter(has_content(MapTileContent::Bad))[pick]).coords;
                assert(picks.push(pick).drop_last() =~= picks);
                picks = picks.push(pick);
            }
            num_good_tiles += 1;
        }
        true
    }

    /// Gives the tile at `coords`, which is of one party, to the other party.
    fn set_content(&mut self, coords: &Coordinates, content: MapTileContent)
        requires
            old(self).wf(),
            content != MapTileContent::Empty,
            tile_at(old(self)@, coords.x as int, coords.y as int) matches Some(tile)
                && tile.content != MapTileContent::Empty && tile.content != content,
        ensures
            final(self).wf(),
            final(self)@ == with_tile(
                old(self)@,
                coords.x as int,
                coords.y as int,
                MapTile { content, ..old(self)@[coords.y as int][coords.x as int] },
            ),
            final(self)@.len() == old(self)@.len(),
            same_populated(final(self)@, old(self)@),
            none_assigned(old(self)@) ==> none_assigned(final(self)@),
            count_non_empty(final(self)@) == count_non_empty(old(self)@),
            count_content(final(self)@, content) == count_content(old(self)@, content) + 1,
            count_content(
                final(self)@,
                old(self)@[coords.y as int][coords.x as int].content,
            ) == count_content(
                old(self)@,
                old(self)@[coords.y as int][coords.x as int].content,
            ) - 1,
    {
        let ghost before = self@;
        let tile = self.get_mut(coords);
        tile.content = content;
        proof {
            lemma_flip(before, *coords, content);
        }
    }

    /// The coordinates of a tile with the given content, picked by chance
    /// among all such tiles.
    pub fn find_random_coords_with_content(
        &self,
        content: MapTileContent,
        rng: &mut StdRng,
    ) -> (coords: Coordinates)
        requires
            is_positioned(self@),
            count_content(self@, content) > 0,
        ensures
            tile_at(self@, coords.x as int, coords.y as int) matches Some(tile) && tile.content
                == content,
            exists|pick: int|
                0 <= pick < count_content(self@, content) && coords == (#[trigger] all_tiles(
                    self@,
                ).filter(has_content(content))[pick]).coords,
    {
        let count = self.get_tiles_with_content(content).len();
        let picked = random_below(rng, count);
        proof {
            let all = all_tiles(self@);
            let with_it = all.filter(has_content(content));
            all.lemma_filter_pred(has_content(content), picked as int);
            assert(with_it.contains(with_it[picked as int]));
            all.lemma_filter_contains_rev(has_content(content), with_it[picked as int]);
            let k = choose|k: int| 0 <= k < all.len() && all[k] == with_it[picked as int];
            let at = lemma_all_tiles_position(self@, k);
            assert(self@.len() == self.tiles.len());
            assert(self@[at.1].len() == self.tiles@[at.1].len());
            assert(self@[at.1][at.0].coords == (Coordinates {
                x: at.0 as usize,
                y: at.1 as usize,
            }));
        }
        self.nth_coords_with_content(content, picked)
    }

    /// The coordinates that the tile records which, of the tiles with the
    /// given content in reading order, comes at place `pick`, counted from zero.
    pub fn nth_coords_with_content(&self, content: MapTileContent, pick: usize) -> (coords:
        Coordinates)
        requires
            pick < count_content(self@, content),
        ensures
            coords == all_tiles(self@).filter(has_content(content))[pick as int].coords,
    {
        let tiles = self.get_tiles_with_content(content);
        proof {
            assert(tile_values(tiles@)[pick as int] == *tiles@[pick as int]);
        }
        tiles[pick].coords
    }

    /// Whether the map is what every map of the game is: square, with each
    /// tile recording its own position, and with the right count of populated
    /// tiles.
    pub fn is_wf(&self) -> (b: bool)
        ensures
            b == self.wf(),
    {
        let size = self.tiles.len();
        let mut y: usize = 0;
        while y < size
            invariant
                y <= size,
                size == self@.len(),
                forall|r: int| 0 <= r < y ==> (#[trigger] self@[r]).len() == size,
                forall|r: int, c: int|
                    0 <= r < y && 0 <= c < size ==> (#[trigger] self@[r][c]).coords == (
                    Coordinates { x: c as usize, y: r as usize }),
            decreases size - y,
        {
            let row = &self.tiles[y];
            if row.len() != size {
                proof {
                    assert(self@[y as int].len() != self@.len());
                }
                return false;
            }
            let mut x: usize = 0;
            while x < size
                invariant
                    x <= size,
                    y < size,
                    size == self@.len(),
                    row@ == self@[y as int],
                    row@.len() == size,
                    forall|c: int|
                        0 <= c < x ==> (#[trigger] row@[c]).coords == (Coordinates {
                            x: c as usize,
                            y,
                        }),
                decreases size - x,
            {
                if row[x].coords.x != x || row[x].coords.y != y {
                    proof {
                        assert(self@[y as int][x as int].coords != (Coordinates { x, y }));
                    }
                    return false;
                }
                x += 1;
            }
            y += 1;
        }
        let good = self.get_tiles_with_content(MapTileContent::Good).len();
        let bad = self.get_tiles_with_content(MapTileContent::Bad).len();
        good as u128 + bad as u128 == self.num_non_empty_tiles as u128
    }

    /// The number of rows of the map.
    pub fn size(&self) -> (size: usize)
        ensures
            size == self@.len(),
    {
        self.tiles.len()
    }

    /// The number of populated tiles.
    pub fn num_non_empty_tiles(&self) -> (count: usize)
        ensures
            count == self.counted_non_empty(),
    {
        self.num_non_empty_tiles
    }

    /// The tile at `coords`.
    pub fn get(&self, coords: &Coordinates) -> (tile: &MapTile)
        requires
            self.in_bounds(*coords),
        ensures
            Some(*tile) == tile_at(self@, coords.x as int, coords.y as int),
    {
        &self.tiles[coords.y][coords.x]
    }

    /// The tile one row up from `coords`, if the map has one there.
    pub fn get_up(&self, coords: &Coordinates) -> (tile: Option<&MapTile>)
        ensures
            match tile {
                Some(t) => tile_at(self@, coords.x as int, coords.y - 1) == Some(*t),
                None => tile_at(self@, coords.x as int, coords.y - 1) is None,
            },
    {
        if coords.y == 0 {
            None
        } else {
            self.tile_if_any(coords.x, coords.y - 1)
        }
    }

    /// The tile one row down from `coords`, if the map has one there.
    pub fn get_down(&self, coords: &Coordinates) -> (tile: Option<&MapTile>)
        ensures
            match tile {
                Some(t) => tile_at(self@, coords.x as int, coords.y + 1) == Some(*t),
                None => tile_at(self@, coords.x as int, coords.y + 1) is None,
            },
    {
        if coords.y >= self.tiles.len() {
            None
        } else {
            self.tile_if_any(coords.x, coords.y + 1)
        }
    }

    /// The tile one column to the left of `coords`, if the map has one there.
    pub fn get_left(&self, coords: &Coordinates) -> (tile: Option<&MapTile>)
        ensures
            match tile {
                Some(t) => tile_at(self@, coords.x - 1, coords.y as int) == Some(*t),
                None => tile_at(self@, coords.x - 1, coords.y as int) is None,
            },
    {
        if coords.x == 0 {
            None
        } else {
            self.tile_if_any(coords.x - 1, coords.y)
        }
    }

    /// The tile one column to the right of `coords`, if the map has one there.
    pub fn get_right(&self, coords: &Coordinates) -> (tile: Option<&MapTile>)
        ensures
            match tile {
                Some(t) => tile_at(self@, coords.x + 1, coords.y as int) == Some(*t),
                None => tile_at(self@, coords.x + 1, coords.y as int) is None,
            },
    {
        if coords.y >= self.tiles.len() || coords.x >= self.tiles[coords.y].len() {
            None
        } else {
            self.tile_if_any(coords.x + 1, coords.y)
        }
    }

    /// The tile at column `x` and row `y`, if the map reaches there.
    fn tile_if_any(&self, x: usize, y: usize) -> (tile: Option<&MapTile>)
        ensures
            match tile {
                Some(t) => tile_at(self@, x as int, y as int) == Some(*t),
                None => tile_at(self@, x as int, y as int) is None,
            },
    {
        if y < self.tiles.len() && x < self.tiles[y].len() {
            Some(&self.tiles[y][x])
        } else {
            None
        }
    }

    /// The tile at `coords`, or the error that says that the map has none
    /// there.
    pub fn try_get(&self, coords: &Coordinates) -> (tile: Result<&MapTile, GameError>)
        ensures
            match tile {
                Ok(t) => tile_at(self@, coords.x as int, coords.y as int) == Some(*t),
                Err(e) => !self.in_bounds(*coords) && e == (GameError::OutOfBoundsAccess {
                    coords: *coords,
                    map_size: self@.len() as usize,
                }),
            },
    {
        match self.tile_if_any(coords.x, coords.y) {
            Some(tile) => Ok(tile),
            None => Err(GameError::OutOfBoundsAccess { coords: *coords, map_size: self.tiles.len() }),
        }
    }

    /// The tiles for which `filter_fn` returns `true`, in reading order.
    ///
    /// Whatever answers the function gave, tile by tile in reading order, the
    /// result holds the tiles for which the answer was `true`.
    pub fn get_tiles_matching<F>(&self, filter_fn: F) -> (tiles: Vec<&MapTile>) where
        F: Fn(&MapTile) -> bool,

        requires
            forall|t: &MapTile| #[trigger] filter_fn.requires((t,)),
        ensures
            exists|keep: Seq<bool>|
                {
                    &&& keep.len() == all_tiles(self@).len()
                    &&& forall|i: int|
                        0 <= i < keep.len() ==> filter_fn.ensures(
                            (&all_tiles(self@)[i],),
                            #[trigger] keep[i],
                        )
                    &&& tile_values(tiles@) == #[trigger] kept(all_tiles(self@), keep)
                },
    {
        let mut tiles: Vec<&MapTile> = Vec::new();
        let ghost mut keep: Seq<bool> = Seq::empty();
        let mut y: usize = 0;
        proof {
            assert(self@.take(0) =~= Seq::<Seq<MapTile>>::empty());
            assert(tile_values(tiles@) =~= Seq::<MapTile>::empty());
        }
        while y < self.tiles.len()
            invariant
                y <= self.tiles.len(),
                self.tiles.len() == self@.len(),
                forall|t: &MapTile| #[trigger] filter_fn.requires((t,)),
                keep.len() == all_tiles(self@.take(y as int)).len(),
                forall|i: int|
                    0 <= i < keep.len() ==> filter_fn.ensures(
                        (&all_tiles(self@.take(y as int))[i],),
                        #[trigger] keep[i],
                    ),
                tile_values(tiles@) == kept(all_tiles(self@.take(y as int)), keep),
            decreases self.tiles.len() - y,
        {
            let row = &self.tiles[y];
            let ghost before = all_tiles(self@.take(y as int));
            let mut x: usize = 0;
            proof {
                assert(row@ == self@[y as int]);
                assert(before + row@.take(0) =~= before);
            }
            while x < row.len()
                invariant
                    x <= row.len(),
                    y < self.tiles.len(),
                    self.tiles.len() == self@.len(),
                    row@ == self@[y as int],
                    before == all_tiles(self@.take(y as int)),
                    forall|t: &MapTile| #[trigger] filter_fn.requires((t,)),
                    keep.len() == before.len() + x,
                    forall|i: int|
                        0 <= i < keep.len() ==> filter_fn.ensures(
                            (&(before + row@.take(x as int))[i],),
                            #[trigger] keep[i],
                        ),
                    tile_values(tiles@) == kept(before + row@.take(x as int), keep),
                decreases row.len() - x,
            {
                let tile = &row[x];
                let matches = filter_fn(tile);
                proof {
                    let so_far = before + row@.take(x as int);
                    let longer = before + row@.take(x + 1);
                    assert(longer =~= so_far.push(*tile));
                    assert(longer.drop_last() =~= so_far);
                    assert(keep.push(matches).drop_last() =~= keep);
                    assert(tile_values(tiles@.push(tile)) =~= tile_values(tiles@).push(*tile));
                    keep = keep.push(matches);
                }
                if matches {
                    tiles.push(tile);
                }
                x += 1;
            }
            proof {
                assert(row@.take(row@.len() as int) =~= row@);
                assert(self@.take(y + 1) =~= self@.take(y as int).push(row@));
                lemma_all_tiles_push(self@.take(y as int), row@);
            }
            y += 1;
        }
        proof {
            assert(self@.take(self@.len() as int) =~= self@);
            assert(tile_values(tiles@) == kept(all_tiles(self@), keep));
        }
        tiles
    }

    /// The tiles of district `district_id`, in reading order.
    pub fn get_tiles_in_district(&self, district_id: u8) -> (tiles: Vec<&MapTile>)
        ensures
            tile_values(tiles@) == all_tiles(self@).filter(in_district(district_id)),
    {
        let in_it = |tile: &MapTile| -> (b: bool)
            ensures
                b == in_district(district_id)(*tile),
            {
                match tile.district_id {
                    Some(id) => id == district_id,
                    None => false,
                }
            };
        let tiles = self.get_tiles_matching(in_it);
        proof {
            let keep = choose|keep: Seq<bool>|
                {
                    &&& keep.len() == all_tiles(self@).len()
                    &&& forall|i: int|
                        0 <= i < keep.len() ==> in_it.ensures(
                            (&all_tiles(self@)[i],),
                            #[trigger] keep[i],
                        )
                    &&& tile_values(tiles@) == #[trigger] kept(all_tiles(self@), keep)
                };
            assert forall|i: int| 0 <= i < all_tiles(self@).len() implies keep[i] == in_district(
                district_id,
            )(#[trigger] all_tiles(self@)[i]) by {
                assert(in_it.ensures((&all_tiles(self@)[i],), keep[i]));
            }
            lemma_kept_is_filter(all_tiles(self@), keep, in_district(district_id));
        }
        tiles
    }

    /// The tiles with the given content, in reading order.
    pub fn get_tiles_with_content(&self, content: MapTileContent) -> (tiles: Vec<&MapTile>)
        ensures
            tile_values(tiles@) == all_tiles(self@).filter(has_content(content)),
    {
        let has_it = |tile: &MapTile| -> (b: bool)
            ensures
                b == has_content(content)(*tile),
            { tile.content == content };
        let tiles = self.get_tiles_matching(has_it);
        proof {
            let keep = choose|keep: Seq<bool>|
                {
                    &&& keep.len() == all_tiles(self@).len()
                    &&& forall|i: int|
                        0 <= i < keep.len() ==> has_it.ensures(
                            (&all_tiles(self@)[i],),
                            #[trigger] keep[i],
                        )
                    &&& tile_values(tiles@) == #[trigger] kept(all_tiles(self@), keep)
                };
            assert forall|i: int| 0 <= i < all_tiles(self@).len() implies keep[i] == has_content(
                content,
            )(#[trigger] all_tiles(self@)[i]) by {
                assert(has_it.ensures((&all_tiles(self@)[i],), keep[i]));
            }
            lemma_kept_is_filter(all_tiles(self@), keep, has_content(content));
        }
        tiles
    }

    /// The state of each district from the first to the last of
    /// `num_districts`: how many tiles it has, and who carries it.
    ///
    /// The results are those that the map's tiles determine, and nothing
    /// else bears on them: asked again of the same map, the answer is the same.
    pub fn get_district_results(&self, num_districts: u8) -> (results: Vec<DistrictResult>)
        ensures
            results@ == district_results(self@, num_districts),
            results@.len() == num_districts,
            forall|d: int|
                0 <= d < num_districts ==> (#[trigger] results@[d]).size == district_tiles(
                    self@,
                    d as u8,
                ).len(),
            forall|d: int|
                0 <= d < num_districts ==> (#[trigger] results@[d]).winner == district_winner(
                    self@,
                    d as u8,
                ),
    {
        let mut results: Vec<DistrictResult> = Vec::new();
        let mut district_id: u8 = 0;
        while district_id < num_districts
            invariant
                district_id <= num_districts,
                results@.len() == district_id,
                forall|d: int|
                    0 <= d < district_id ==> (#[trigger] results@[d]).size == district_tiles(
                        self@,
                        d as u8,
                    ).len(),
                forall|d: int|
                    0 <= d < district_id ==> (#[trigger] results@[d]).winner == district_winner(
                        self@,
                        d as u8,
                    ),
            decreases num_districts - district_id,
        {
            results.push(self.district_result_of(district_id));
            district_id += 1;
        }
        proof {
            assert(results@ =~= district_results(self@, num_districts));
        }
        results
    }

    /// The state of district `district_id`.
    fn district_result_of(&self, district_id: u8) -> (result: DistrictResult)
        ensures
            result.size == district_tiles(self@, district_id).len(),
            result.winner == district_winner(self@, district_id),
    {
        let tiles = self.get_tiles_in_district(district_id);
        let good_tiles = count_with_content(&tiles, MapTileContent::Good);
        let bad_tiles = count_with_content(&tiles, MapTileContent::Bad);
        proof {
            lemma_tile_set_of_values(tiles@);
        }
        let winner = if are_contiguous(tiles.as_slice()) {
            if good_tiles > bad_tiles {
                Some(DistrictWinner::Good)
            } else if good_tiles < bad_tiles {
                Some(DistrictWinner::Bad)
            } else {
                Some(DistrictWinner::Tie)
            }
        } else {
            None
        };
        DistrictResult { size: tiles.len(), winner }
    }

    /// The state of district `district_id` of `level`: how many tiles it
    /// has, and who carries it.
    ///
    /// Fails for a district that the level does not have.
    pub fn get_district_result(&self, level: &Level, district_id: u8) -> (result: Result<
        DistrictResult,
        GameError,
    >)
        ensures
            match result {
                Ok(r) => {
                    &&& district_id < level.districts
                    &&& r.size == district_tiles(self@, district_id).len()
                    &&& r.winner == district_winner(self@, district_id)
                },
                Err(e) => {
                    &&& district_id >= level.districts
                    &&& e == (GameError::InvalidDistrictId {
                        district_id,
                        districts: level.districts,
                    })
                },
            },
    {
        if district_id < level.districts {
            Ok(self.district_result_of(district_id))
        } else {
            Err(GameError::InvalidDistrictId { district_id, districts: level.districts })
        }
    }

    /// The share of the populated tiles that is on the player's side, in
    /// percent, rounded to the nearest integer; zero on a map without
    /// populated tiles.
    pub fn good_percent(&self) -> (percent: u32)
        requires
            self.wf(),
        ensures
            percent == if count_non_empty(self@) == 0 {
                0
            } else {
                round_div(
                    100 * (count_content(self@, MapTileContent::Good) as int),
                    count_non_empty(self@) as int,
                )
            },
    {
        let non_empty = self.num_non_empty_tiles as u128;
        if non_empty == 0 {
            return 0;
        }
        let good = self.get_tiles_with_content(MapTileContent::Good).len() as u128;
        assert((2 * (100 * good) + non_empty) / (2 * non_empty) <= 100) by (nonlinear_arith)
            requires
                good <= non_empty,
                0 < non_empty,
        ;
        ((2 * (100 * good) + non_empty) / (2 * non_empty)) as u32
    }

    /// Whether the level is solved on this map: every district may stand,
    /// every tile is in a district, and the player's party carries more than
    /// half of the districts.
    pub fn is_solved(&self, level: &Level) -> (b: bool)
        ensures
            b == solved(self@, *level),
    {
        let results = self.get_district_results(level.districts);
        let mut wins: usize = 0;
        let mut d: usize = 0;
        while d < results.len()
            invariant
                d <= results@.len(),
                results@.len() == level.districts,
                wins == good_wins(self@, d as nat),
                wins <= d,
                forall|k: int|
                    0 <= k < results@.len() ==> (#[trigger] results@[k]).size == district_tiles(
                        self@,
                        k as u8,
                    ).len(),
                forall|k: int|
                    0 <= k < results@.len() ==> (#[trigger] results@[k]).winner
                        == district_winner(self@, k as u8),
                forall|k: int|
                    0 <= k < d ==> validity_of(
                        district_tiles(self@, k as u8).len() as int,
                        #[trigger] district_winner(self@, k as u8) is Some,
                        *level,
                    ) == DistrictValidity::Valid,
            decreases results.len() - d,
        {
            let result = &results[d];
            match result.validity(level) {
                DistrictValidity::Valid => {},
                _ => {
                    proof {
                        assert(district_winner(self@, d as u8) == results@[d as int].winner);
                    }
                    return false;
                },
            }
            match result.winner {
                Some(DistrictWinner::Good) => {
                    wins += 1;
                },
                _ => {},
            }
            d += 1;
        }
        let mut y: usize = 0;
        while y < self.tiles.len()
            invariant
                y <= self.tiles.len(),
                self.tiles.len() == self@.len(),
                forall|r: int, c: int|
                    0 <= r < y && 0 <= c < self@[r].len() ==> (#[trigger] self@[r][c]).district_id
                        is Some,
            decreases self.tiles.len() - y,
        {
            let row = &self.tiles[y];
            let mut x: usize = 0;
            while x < row.len()
                invariant
                    x <= row.len(),
                    y < self.tiles.len(),
                    self.tiles.len() == self@.len(),
                    row@ == self@[y as int],
                    forall|r: int, c: int|
                        0 <= r < y && 0 <= c < self@[r].len() ==> (
                        #[trigger] self@[r][c]).district_id is Some,
                    forall|c: int| 0 <= c < x ==> (#[trigger] row@[c]).district_id is Some,
                decreases row.len() - x,
            {
                if row[x].district_id.is_none() {
                    proof {
                        assert(self@[y as int][x as int].district_id is None);
                    }
                    return false;
                }
                x += 1;
            }
            y += 1;
        }
        2 * wins > level.districts as usize
    }

    /// Puts the tile at `coords` in the district `district_id`, or in none.
    ///
    /// Fails, and leaves the map as it is, for coordinates outside the map
    /// and, on the map, for a district that `level` does not have.
    pub fn set_district(
        &mut self,
        level: &Level,
        coords: &Coordinates,
        district_id: Option<u8>,
    ) -> (done: Result<(), GameError>)
        ensures
            final(self).counted_non_empty() == old(self).counted_non_empty(),
            old(self).wf() ==> final(self).wf(),
            match done {
                Ok(()) => {
                    &&& old(self).in_bounds(*coords)
                    &&& district_id matches Some(d) ==> d < level.districts
                    &&& final(self)@ == with_tile(
                        old(self)@,
                        coords.x as int,
                        coords.y as int,
                        MapTile {
                            district_id,
                            ..old(self)@[coords.y as int][coords.x as int]
                        },
                    )
                },
                Err(e) => {
                    &&& final(self)@ == old(self)@
                    &&& if !old(self).in_bounds(*coords) {
                        e == (GameError::OutOfBoundsAccess {
                            coords: *coords,
                            map_size: old(self)@.len() as usize,
                        })
                    } else {
                        district_id matches Some(d) && d >= level.districts && e == (
                        GameError::InvalidDistrictId { district_id: d, districts: level.districts })
                    }
                },
            },
    {
        if coords.y >= self.tiles.len() || coords.x >= self.tiles[coords.y].len() {
            return Err(
                GameError::OutOfBoundsAccess { coords: *coords, map_size: self.tiles.len() },
            );
        }
        if let Some(d) = district_id {
            if d >= level.districts {
                return Err(
                    GameError::InvalidDistrictId { district_id: d, districts: level.districts },
                );
            }
        }
        let ghost before = self@;
        let ghost old_tile = before[coords.y as int][coords.x as int];
        let tile = self.get_mut(coords);
        tile.district_id = district_id;
        proof {
            let new_tile = MapTile { district_id, ..old_tile };
            lemma_count_with_tile(
                before,
                coords.x as int,
                coords.y as int,
                new_tile,
                has_content(MapTileContent::Good),
            );
            lemma_count_with_tile(
                before,
                coords.x as int,
                coords.y as int,
                new_tile,
                has_content(MapTileContent::Bad),
            );
        }
        Ok(())
    }

    /// The tile at `coords`, to be changed in place, or the error that says
    /// that the map has none there; the map then stays as it is.
    pub fn try_get_mut(&mut self, coords: &Coordinates) -> (tile: Result<&mut MapTile, GameError>)
        ensures
            final(self).counted_non_empty() == old(self).counted_non_empty(),
            match tile {
                Ok(t) => {
                    &&& Some(*t) == tile_at(old(self)@, coords.x as int, coords.y as int)
                    &&& final(self)@ == with_tile(
                        old(self)@,
                        coords.x as int,
                        coords.y as int,
                        *final(t),
                    )
                },
                Err(e) => {
                    &&& !old(self).in_bounds(*coords)
                    &&& final(self)@ == old(self)@
                    &&& e == (GameError::OutOfBoundsAccess {
                        coords: *coords,
                        map_size: old(self)@.len() as usize,
                    })
                },
            },
    {
        if coords.y >= self.tiles.len() || coords.x >= self.tiles[coords.y].len() {
            return Err(
                GameError::OutOfBoundsAccess { coords: *coords, map_size: self.tiles.len() },
            );
        }
        Ok(self.get_mut(coords))
    }

    /// The tile at `coords`, to be changed in place.
    pub fn get_mut(&mut self, coords: &Coordinates) -> (tile: &mut MapTile)
        requires
            old(self).in_bounds(*coords),
        ensures
            Some(*tile) == tile_at(old(self)@, coords.x as int, coords.y as int),
            final(self)@ == with_tile(old(self)@, coords.x as int, coords.y as int, *final(tile)),
            final(self).counted_non_empty() == old(self).counted_non_empty(),
    {
        &mut self.tiles[coords.y][coords.x]
    }
}

} // verus!
