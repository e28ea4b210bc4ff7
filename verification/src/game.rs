//! The game screen: the level in play, the map, the player's progress, and
//! what each of the player's moves leads to.

use crate::cursor_position::{CursorPosition, Point, PIXEL};
use crate::error::GameError;
use crate::grid::{count_non_empty, is_positioned, is_square, solved, tile_at};
use crate::level::{
    generate_next_level, min_good_tiles, next_level, Level, MAX_MAP_SIZE, MILLION,
};
use crate::map::{fits_level, is_made, tells_why, TileMap};
use crate::tile::{Coordinates, MapTile};
use rand::rngs::StdRng;
use vstd::prelude::*;

verus! {

/// The side of the square that the tiles are laid out in.
pub const BOARD: i64 = 470 * PIXEL;

/// The gap between two tiles.
pub const SPACING: i64 = PIXEL;

/// How far around a tile the cursor still counts as on it.
pub const REACH: i64 = PIXEL;

/// The years in power that a solved level is worth.
pub const YEARS_PER_LEVEL: u32 = 10;

/// Where a tile is drawn, and how large.
#[derive(Clone, Copy, Debug, PartialEq, Eq, Structural)]
pub struct TileTransform {
    /// The centre of the tile.
    pub centre: Point,
    /// The width and the height of the tile.
    pub scale: Point,
}

/// The sides of a tile on which the border of its district runs.
#[derive(Clone, Copy, Debug, PartialEq, Eq, Structural)]
pub struct Borders {
    pub top: bool,
    pub bottom: bool,
    pub left: bool,
    pub right: bool,
}

/// What is to be done with the button that confirms a solved level.
#[derive(Clone, Copy, Debug, PartialEq, Eq, Structural)]
pub enum ConfirmButton {
    /// There is none yet: make one.
    Spawn,
    /// Show the one there is.
    Show,
    /// Hide the one there is, if there is one.
    Hide,
}

/// The game screen.
#[derive(Debug)]
pub struct GamePlugin {
    /// The level in play.
    pub level: Level,
    /// The map of the level.
    pub map: TileMap,
    /// The district that the player is drawing.
    pub selected_district: u8,
    /// Whether the level is solved as the map stands.
    pub solved: bool,
    /// The player's years in power.
    pub score: u32,
}

/// The width, and the height, of a tile on a map of side `map_size`.
pub open spec fn tile_extent(map_size: int) -> int {
    (BOARD + SPACING) / map_size - SPACING
}

/// Where the tile at `coords` is drawn on a map of side `map_size`: the
/// columns from left to right and the rows from top to bottom, a gap apart,
/// centred on the origin.
pub open spec fn tile_transform_of(map_size: int, coords: Coordinates) -> TileTransform {
    let extent = tile_extent(map_size);
    let offset = -((BOARD - extent) / 2);
    TileTransform {
        centre: Point {
            x: (coords.x * (extent + SPACING) + offset) as i64,
            y: ((map_size - 1 - coords.y) * (extent + SPACING) + offset) as i64,
        },
        scale: Point { x: extent as i64, y: extent as i64 },
    }
}

/// Whether `point` lies on the tile drawn at `transform`, or within reach of
/// it.
pub open spec fn reaches(point: Point, transform: TileTransform) -> bool {
    &&& 2 * (transform.centre.x - point.x) <= transform.scale.x + 2 * REACH
    &&& 2 * (point.x - transform.centre.x) <= transform.scale.x + 2 * REACH
    &&& 2 * (transform.centre.y - point.y) <= transform.scale.y + 2 * REACH
    &&& 2 * (point.y - transform.centre.y) <= transform.scale.y + 2 * REACH
}

/// Whether a border runs between a tile and its neighbour on one side: the
/// two are in different districts, or the map ends there and the tile is in a
/// district.
pub open spec fn needs_border(tile: MapTile, neighbour: Option<MapTile>) -> bool {
    match neighbour {
        Some(other) => tile.district_id != other.district_id,
        None => tile.district_id is Some,
    }
}

/// The tile as the player's move leaves it, on a map of side `map_size`: put
/// in `district_id` if the cursor at `point` reaches it, else as it was.
pub open spec fn painted_tile(
    tile: MapTile,
    map_size: int,
    point: Point,
    district_id: Option<u8>,
) -> MapTile {
    if reaches(point, tile_transform_of(map_size, tile.coords)) {
        MapTile { district_id, ..tile }
    } else {
        tile
    }
}

/// The grid as the player's move leaves it: each tile that the cursor at
/// `point` reaches is put in `district_id`.
pub open spec fn painted(grid: Seq<Seq<MapTile>>, point: Point, district_id: Option<u8>) -> Seq<
    Seq<MapTile>,
> {
    Seq::new(
        grid.len(),
        |y: int|
            Seq::new(
                grid[y].len(),
                |x: int| painted_tile(grid[y][x], grid.len() as int, point, district_id),
            ),
    )
}

/// What setting up a level that was `before` leaves of the game: the map and
/// the level are what comes of making a map from contents that two draws from
/// a million decide for each tile of the level. Where the level has every tile
/// populated, the side of the map times itself is the number of populated
/// tiles, and the level alone decides whether a map is made.
pub open spec fn is_set_up(before: Level, game: GamePlugin, done: Result<(), GameError>) -> bool {
    let tiles = before.map_size * before.map_size;
    &&& match done {
        Ok(()) => is_made(before, game.level, Ok(game.map)),
        Err(e) => is_made(before, game.level, Err(e)),
    }
    &&& before.populated_ppm == MILLION ==> (done is Ok <==> min_good_tiles(game.level, tiles)
        <= tiles)
    &&& before.populated_ppm == MILLION ==> match done {
        Ok(()) => count_non_empty(game.map@) == tiles,
        Err(e) => e matches GameError::ConfigurationError { non_empty_tiles, .. }
            && non_empty_tiles == tiles,
    }
}

impl GamePlugin {
    /// The game screen before the first level is set up: the starting level,
    /// no map, the first district selected, nothing solved, no years in power.
    pub fn new() -> (game: GamePlugin)
        ensures
            game.level == Level::starting_level(),
            game.level.wf(),
            game.map@.len() == 0,
            game.map.wf(),
            game.selected_district == 0,
            !game.solved,
            game.score == 0,
    {
        GamePlugin {
            level: Level::starting(),
            map: TileMap::empty(),
            selected_district: 0,
            solved: false,
            score: 0,
        }
    }
}

/// Sets the level up: draws a map for it by chance, and sets the level's
/// district sizes to fit the map.
///
/// Fails, and leaves the map as it was, when the populated tiles that were
/// drawn are too few to win the level with.
pub fn set_up_game(game: &mut GamePlugin, rng: &mut StdRng) -> (done: Result<(), GameError>)
    requires
        old(game).level.wf(),
        old(game).level.map_size * old(game).level.map_size <= usize::MAX,
    ensures
        final(game).level.districts == old(game).level.districts,
        final(game).level.good_ppm == old(game).level.good_ppm,
        final(game).level.populated_ppm == old(game).level.populated_ppm,
        final(game).level.map_size == old(game).level.map_size,
        final(game).level.wf(),
        final(game).selected_district == old(game).selected_district,
        final(game).solved == old(game).solved,
        final(game).score == old(game).score,
        match done {
            Ok(()) => fits_level(final(game).map, final(game).level),
            Err(e) => final(game).map == old(game).map && tells_why(e, final(game).level),
        },
        is_set_up(old(game).level, *final(game), done),
{
    match TileMap::generate(&mut game.level, rng) {
        Ok(map) => {
            game.map = map;
            Ok(())
        },
        Err(e) => Err(e),
    }
}

/// Selects the district whose button was pressed, if one was.
///
/// Fails, and selects nothing, for a district that the level does not have.
pub fn district_selection_system(game: &mut GamePlugin, clicked: Option<u8>) -> (done: Result<
    (),
    GameError,
>)
    ensures
        final(game).level == old(game).level,
        final(game).map == old(game).map,
        final(game).solved == old(game).solved,
        final(game).score == old(game).score,
        match clicked {
            None => done is Ok && final(game).selected_district == old(game).selected_district,
            Some(district_id) => if district_id < old(game).level.districts {
                done is Ok && final(game).selected_district == district_id
            } else {
                &&& done == Err::<(), GameError>(
                    GameError::InvalidDistrictId {
                        district_id,
                        districts: old(game).level.districts,
                    },
                )
                &&& final(game).selected_district == old(game).selected_district
            },
        },
{
    match clicked {
        None => Ok(()),
        Some(district_id) => {
            if district_id < game.level.districts {
                game.selected_district = district_id;
                Ok(())
            } else {
                Err(GameError::InvalidDistrictId { district_id, districts: game.level.districts })
            }
        },
    }
}

/// Finds out whether the level is solved as the map stands.
pub fn solution_system(game: &mut GamePlugin)
    ensures
        final(game).solved == solved(old(game).map@, old(game).level),
        final(game).level == old(game).level,
        final(game).map == old(game).map,
        final(game).selected_district == old(game).selected_district,
        final(game).score == old(game).score,
{
    game.solved = game.map.is_solved(&game.level);
}

/// What a press of the button that confirms a solved level leads to: ten
/// more years in power, the next level, set up with a map of its own, nothing
/// solved, and the first district selected. With no press, nothing changes.
///
/// Fails as the setting up of the level does; the years, the level and the
/// selection are then those of the next level all the same.
pub fn confirm_button_system(game: &mut GamePlugin, clicked: bool, rng: &mut StdRng) -> (done:
    Result<(), GameError>)
    requires
        clicked ==> old(game).level.wf(),
        clicked ==> old(game).score + YEARS_PER_LEVEL <= u32::MAX,
    ensures
        !clicked ==> done is Ok && *final(game) == *old(game),
        clicked ==> {
            let next = next_level(old(game).level);
            &&& final(game).score == old(game).score + YEARS_PER_LEVEL
            &&& final(game).level.districts == next.districts
            &&& final(game).level.good_ppm == next.good_ppm
            &&& final(game).level.populated_ppm == next.populated_ppm
            &&& final(game).level.map_size == next.map_size
            &&& final(game).level.wf()
            &&& !final(game).solved
            &&& final(game).selected_district == 0
            &&& match done {
                Ok(()) => fits_level(final(game).map, final(game).level),
                Err(e) => final(game).map == old(game).map && tells_why(e, final(game).level),
            }
            &&& is_set_up(next, *final(game), done)
        },
{
    if !clicked {
        return Ok(());
    }
    game.score = game.score + YEARS_PER_LEVEL;
    game.level = generate_next_level(&game.level);
    game.solved = false;
    game.selected_district = 0;
    proof {
        assert(game.level.map_size * game.level.map_size <= 400) by (nonlinear_arith)
            requires
                game.level.map_size <= MAX_MAP_SIZE,
                MAX_MAP_SIZE == 20,
        ;
    }
    set_up_game(game, rng)
}

/// What the player's move on the map leads to. While the left button is
/// down, every tile that the cursor reaches is put in the selected district;
/// while only the right button is down, every such tile is taken out of its
/// district. With no button down, or the cursor outside the window, the map
/// stays as it is.
///
/// Fails, and leaves the map as it is, when the left button is down and the
/// level does not have the selected district.
pub fn tile_click_system(
    game: &mut GamePlugin,
    left_pressed: bool,
    right_pressed: bool,
    cursor_position: &CursorPosition,
) -> (done: Result<(), GameError>)
    requires
        old(game).map.wf(),
    ensures
        final(game).level == old(game).level,
        final(game).selected_district == old(game).selected_district,
        final(game).solved == old(game).solved,
        final(game).score == old(game).score,
        final(game).map.wf(),
        match cursor_position.0 {
            Some(point) if left_pressed || right_pressed => {
                if left_pressed && old(game).selected_district >= old(game).level.districts {
                    &&& final(game).map@ == old(game).map@
                    &&& done == Err::<(), GameError>(
                        GameError::InvalidDistrictId {
                            district_id: old(game).selected_district,
                            districts: old(game).level.districts,
                        },
                    )
                } else {
                    &&& done is Ok
                    &&& final(game).map@ == painted(
                        old(game).map@,
                        point,
                        if left_pressed {
                            Some(old(game).selected_district)
                        } else {
                            None
                        },
                    )
                }
            },
            _ => done is Ok && final(game).map@ == old(game).map@,
        },
{
    if !left_pressed && !right_pressed {
        return Ok(());
    }
    let point = match cursor_position.0 {
        Some(point) => point,
        None => {
            return Ok(());
        },
    };
    let district_id = if left_pressed {
        if game.selected_district >= game.level.districts {
            return Err(
                GameError::InvalidDistrictId {
                    district_id: game.selected_district,
                    districts: game.level.districts,
                },
            );
        }
        Some(game.selected_district)
    } else {
        None
    };
    let ghost before = game.map@;
    let size = game.map.size();
    let mut y: usize = 0;
    while y < size
        invariant
            y <= size,
            size == before.len(),
            is_square(before),
            is_positioned(before),
            game.map.wf(),
            game.map@.len() == size,
            game.level == old(game).level,
            game.selected_district == old(game).selected_district,
            game.solved == old(game).solved,
            game.score == old(game).score,
            district_id matches Some(d) ==> d < game.level.districts,
            forall|r: int, c: int|
                0 <= r < size && 0 <= c < size ==> #[trigger] game.map@[r][c] == if r < y {
                    painted_tile(before[r][c], size as int, point, district_id)
                } else {
                    before[r][c]
                },
        decreases size - y,
    {
        let mut x: usize = 0;
        while x < size
            invariant
                x <= size,
                y < size,
                size == before.len(),
                is_square(before),
                is_positioned(before),
                game.map.wf(),
                game.map@.len() == size,
                game.level == old(game).level,
                game.selected_district == old(game).selected_district,
                game.solved == old(game).solved,
                game.score == old(game).score,
                district_id matches Some(d) ==> d < game.level.districts,
                forall|r: int, c: int|
                    0 <= r < size && 0 <= c < size ==> #[trigger] game.map@[r][c] == if r < y || (r
                        == y && c < x) {
                        painted_tile(before[r][c], size as int, point, district_id)
                    } else {
                        before[r][c]
                    },
            decreases size - x,
        {
            let coords = Coordinates { x, y };
            proof {
                assert(before[y as int][x as int].coords == coords);
                assert(game.map@[y as int].len() == size);
                assert(game.map@[y as int][x as int] == before[y as int][x as int]);
            }
            if intersects(point, &tile_transform(size, &coords)) {
                let ghost grid = game.map@;
                match game.map.set_district(&game.level, &coords, district_id) {
                    Ok(()) => {
                        proof {
                            assert forall|r: int, c: int|
                                0 <= r < size && 0 <= c < size implies #[trigger] game.map@[r][c]
                                == if r < y || (r == y && c < x + 1) {
                                painted_tile(before[r][c], size as int, point, district_id)
                            } else {
                                before[r][c]
                            } by {
                                assert(grid[r].len() == size);
                                assert(grid[r][c] == if r < y || (r == y && c < x) {
                                    painted_tile(before[r][c], size as int, point, district_id)
                                } else {
                                    before[r][c]
                                });
                            }
                        }
                    },
                    Err(e) => {
                        return Err(e);
                    },
                }
            }
            x += 1;
        }
        y += 1;
    }
    proof {
        let after = painted(before, point, district_id);
        assert forall|r: int| 0 <= r < size implies #[trigger] game.map@[r] == after[r] by {
            assert(game.map@[r].len() == size);
            assert(before[r].len() == size);
            assert forall|c: int| 0 <= c < size implies game.map@[r][c] == after[r][c] by {
                assert(game.map@[r][c] == painted_tile(
                    before[r][c],
                    size as int,
                    point,
                    district_id,
                ));
            }
            assert(game.map@[r] =~= after[r]);
        }
        assert(game.map@ =~= after);
    }
    Ok(())
}

/// Where the tile at `coords` is drawn on a map of side `map_size`.
pub fn tile_transform(map_size: usize, coords: &Coordinates) -> (transform: TileTransform)
    requires
        coords.x < map_size,
        coords.y < map_size,
    ensures
        transform == tile_transform_of(map_size as int, *coords),
        transform.centre.x == coords.x * (tile_extent(map_size as int) + SPACING) - (BOARD
            - tile_extent(map_size as int)) / 2,
        transform.centre.y == (map_size - 1 - coords.y) * (tile_extent(map_size as int)
            + SPACING) - (BOARD - tile_extent(map_size as int)) / 2,
        transform.scale.x == tile_extent(map_size as int),
        transform.scale.y == tile_extent(map_size as int),
{
    let size = map_size as u128;
    let pitch: u128 = ((BOARD + SPACING) as u128) / size;
    let column = coords.x as u128;
    let row = (map_size - 1 - coords.y) as u128;
    proof {
        assert(pitch <= 471_000);
        assert(column * pitch <= 471_000) by (nonlinear_arith)
            requires
                column < size,
                pitch == 471_000u128 / size,
        ;
        assert(row * pitch <= 471_000) by (nonlinear_arith)
            requires
                row < size,
                pitch == 471_000u128 / size,
        ;
    }
    let extent: i64 = pitch as i64 - SPACING;
    let offset: i64 = -((BOARD - extent) / 2);
    TileTransform {
        centre: Point {
            x: (column * pitch) as i64 + offset,
            y: (row * pitch) as i64 + offset,
        },
        scale: Point { x: extent, y: extent },
    }
}

/// Whether `point` lies on the tile drawn at `transform`, or within reach of
/// it.
pub fn intersects(point: Point, transform: &TileTransform) -> (b: bool)
    ensures
        b == reaches(point, *transform),
{
    let reach_x: i128 = transform.scale.x as i128 + 2 * (REACH as i128);
    let reach_y: i128 = transform.scale.y as i128 + 2 * (REACH as i128);
    let left: i128 = transform.centre.x as i128 - point.x as i128;
    let right: i128 = point.x as i128 - transform.centre.x as i128;
    let down: i128 = transform.centre.y as i128 - point.y as i128;
    let up: i128 = point.y as i128 - transform.centre.y as i128;
    2 * left <= reach_x && 2 * right <= reach_x && 2 * down <= reach_y && 2 * up <= reach_y
}

/// The sides of the tile at `coords` on which the border of its district
/// runs.
pub fn border_system(map: &TileMap, coords: &Coordinates) -> (borders: Borders)
    requires
        map.in_bounds(*coords),
    ensures
        ({
            let tile = map@[coords.y as int][coords.x as int];
            &&& borders.top == needs_border(tile, tile_at(map@, coords.x as int, coords.y - 1))
            &&& borders.bottom == needs_border(
                tile,
                tile_at(map@, coords.x as int, coords.y + 1),
            )
            &&& borders.left == needs_border(tile, tile_at(map@, coords.x - 1, coords.y as int))
            &&& borders.right == needs_border(tile, tile_at(map@, coords.x + 1, coords.y as int))
        }),
{
    let tile = map.get(coords);
    Borders {
        top: border_towards(tile, map.get_up(coords)),
        bottom: border_towards(tile, map.get_down(coords)),
        left: border_towards(tile, map.get_left(coords)),
        right: border_towards(tile, map.get_right(coords)),
    }
}

/// Whether a border runs between a tile and its neighbour on one side.
fn border_towards(tile: &MapTile, neighbour: Option<&MapTile>) -> (b: bool)
    ensures
        b == needs_border(
            *tile,
            match neighbour {
                Some(other) => Some(*other),
                None => None,
            },
        ),
{
    match neighbour {
        Some(other) => !same_district(tile.district_id, other.district_id),
        None => tile.district_id.is_some(),
    }
}

/// Whether two tiles with these districts are in the same district, or both
/// in none.
fn same_district(first: Option<u8>, second: Option<u8>) -> (b: bool)
    ensures
        b == (first == second),
{
    match (first, second) {
        (Some(a), Some(b)) => a == b,
        (None, None) => true,
        _ => false,
    }
}

/// What is to be done with the button that confirms the level, given
/// whether the level is solved and whether the button exists.
pub fn confirm_button_visibility_system(solved: bool, button_exists: bool) -> (action:
    ConfirmButton)
    ensures
        action == if !solved {
            ConfirmButton::Hide
        } else if button_exists {
            ConfirmButton::Show
        } else {
            ConfirmButton::Spawn
        },
{
    if solved {
        if button_exists {
            ConfirmButton::Show
        } else {
            ConfirmButton::Spawn
        }
    } else {
        ConfirmButton::Hide
    }
}

} // verus!
