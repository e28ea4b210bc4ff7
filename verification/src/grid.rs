//! Grids of tiles: what the tiles of a map amount to, taken together.

use crate::contiguity::{contiguous, tile_set, tile_values};
use crate::district::{validity_of, winner_of, DistrictResult, DistrictValidity, DistrictWinner};
use crate::level::{min_good_tiles, Level};
use crate::tile::{Coordinates, MapTile, MapTileContent};
use vstd::prelude::*;

verus! {

/// The tiles of a grid in reading order: row after row, each from its first
/// column to its last.
pub open spec fn all_tiles(grid: Seq<Seq<MapTile>>) -> Seq<MapTile>
    decreases grid.len(),
{
    if grid.len() == 0 {
        Seq::empty()
    } else {
        all_tiles(grid.drop_last()) + grid.last()
    }
}

/// The test for a tile's content to be `content`.
pub open spec fn has_content(content: MapTileContent) -> spec_fn(MapTile) -> bool {
    |t: MapTile| t.content == content
}

/// The test for a tile to lie in district `district_id`.
pub open spec fn in_district(district_id: u8) -> spec_fn(MapTile) -> bool {
    |t: MapTile| t.district_id == Some(district_id)
}

/// The number of tiles of a grid with the given content.
pub open spec fn count_content(grid: Seq<Seq<MapTile>>, content: MapTileContent) -> nat {
    all_tiles(grid).filter(has_content(content)).len()
}

/// The number of populated tiles of a grid.
pub open spec fn count_non_empty(grid: Seq<Seq<MapTile>>) -> nat {
    count_content(grid, MapTileContent::Good) + count_content(grid, MapTileContent::Bad)
}

/// Whether a grid has as many columns in each row as it has rows.
pub open spec fn is_square(grid: Seq<Seq<MapTile>>) -> bool {
    forall|y: int| 0 <= y < grid.len() ==> (#[trigger] grid[y]).len() == grid.len()
}

/// Whether each tile of a grid records the position at which it lies.
pub open spec fn is_positioned(grid: Seq<Seq<MapTile>>) -> bool {
    forall|y: int, x: int|
        0 <= y < grid.len() && 0 <= x < grid[y].len() ==> (#[trigger] grid[y][x]).coords == (
        Coordinates { x: x as usize, y: y as usize })
}

/// The tile at column `x` and row `y` of a grid, if the grid reaches there.
pub open spec fn tile_at(grid: Seq<Seq<MapTile>>, x: int, y: int) -> Option<MapTile> {
    if 0 <= y < grid.len() && 0 <= x < grid[y].len() {
        Some(grid[y][x])
    } else {
        None
    }
}

/// A grid with the tile at column `x` and row `y` replaced by `tile`.
pub open spec fn with_tile(grid: Seq<Seq<MapTile>>, x: int, y: int, tile: MapTile) -> Seq<
    Seq<MapTile>,
> {
    grid.update(y, grid[y].update(x, tile))
}

/// The tiles of district `district_id`, in reading order.
pub open spec fn district_tiles(grid: Seq<Seq<MapTile>>, district_id: u8) -> Seq<MapTile> {
    all_tiles(grid).filter(in_district(district_id))
}

/// Who carries district `district_id`: nobody unless its tiles form one
/// contiguous region, else the party with more tiles in it.
pub open spec fn district_winner(grid: Seq<Seq<MapTile>>, district_id: u8) -> Option<
    DistrictWinner,
> {
    let tiles = district_tiles(grid, district_id);
    if contiguous(tiles.to_set()) {
        Some(
            winner_of(
                tiles.filter(has_content(MapTileContent::Good)).len() as int,
                tiles.filter(has_content(MapTileContent::Bad)).len() as int,
            ),
        )
    } else {
        None
    }
}

/// The state of district `district_id`: its number of tiles, and its winner.
pub open spec fn district_result(grid: Seq<Seq<MapTile>>, district_id: u8) -> DistrictResult {
    DistrictResult {
        size: district_tiles(grid, district_id).len() as usize,
        winner: district_winner(grid, district_id),
    }
}

/// The states of the first `districts` districts, in their order.
pub open spec fn district_results(grid: Seq<Seq<MapTile>>, districts: u8) -> Seq<DistrictResult> {
    Seq::new(districts as nat, |d: int| district_result(grid, d as u8))
}

/// How many of the first `districts` districts the player's party carries.
pub open spec fn good_wins(grid: Seq<Seq<MapTile>>, districts: nat) -> nat
    decreases districts,
{
    if districts == 0 {
        0
    } else {
        good_wins(grid, (districts - 1) as nat) + if district_winner(
            grid,
            (districts - 1) as u8,
        ) == Some(DistrictWinner::Good) {
            1nat
        } else {
            0nat
        }
    }
}

/// Whether every tile of a grid is in some district.
pub open spec fn all_assigned(grid: Seq<Seq<MapTile>>) -> bool {
    forall|y: int, x: int|
        0 <= y < grid.len() && 0 <= x < grid[y].len() ==> (#[trigger] grid[y][x]).district_id
            is Some
}

/// Whether every district of the level may stand as it is drawn.
pub open spec fn all_valid(grid: Seq<Seq<MapTile>>, level: Level) -> bool {
    forall|d: int|
        0 <= d < level.districts ==> validity_of(
            district_tiles(grid, d as u8).len() as int,
            #[trigger] district_winner(grid, d as u8) is Some,
            level,
        ) == DistrictValidity::Valid
}

/// Whether the level is solved: every district may stand, every tile is in a
/// district, and the player's party carries more than half of the districts.
pub open spec fn solved(grid: Seq<Seq<MapTile>>, level: Level) -> bool {
    &&& all_valid(grid, level)
    &&& all_assigned(grid)
    &&& 2 * good_wins(grid, level.districts as nat) > level.districts
}

/// The rows that a sequence of vectors holds.
pub open spec fn rows_of<T>(rows: Seq<Vec<T>>) -> Seq<Seq<T>> {
    rows.map_values(|row: Vec<T>| row@)
}

/// Whether a draw from a million falls within a share given in parts per
/// million.
pub open spec fn falls_within(draw: int, share_ppm: int) -> bool {
    draw < share_ppm
}

/// The content of a tile, as two draws from a million decide it for a level:
/// populated if the first falls within the populated share, and then on the
/// player's side if the second falls within the player's share.
pub open spec fn content_of(populated_draw: int, good_draw: int, level: Level) -> MapTileContent {
    if falls_within(populated_draw, level.populated_ppm as int) {
        if falls_within(good_draw, level.good_ppm as int) {
            MapTileContent::Good
        } else {
            MapTileContent::Bad
        }
    } else {
        MapTileContent::Empty
    }
}

/// Whether two draws from a million decide the content of each tile for the
/// level.
pub open spec fn drawn_for(contents: Seq<Seq<MapTileContent>>, level: Level) -> bool {
    forall|y: int, x: int|
        0 <= y < contents.len() && 0 <= x < contents[y].len() ==> is_drawn(
            #[trigger] contents[y][x],
            level,
        )
}

/// Whether two draws from a million decide this content for the level.
pub open spec fn is_drawn(content: MapTileContent, level: Level) -> bool {
    exists|populated_draw: int, good_draw: int|
        0 <= populated_draw < 1_000_000 && 0 <= good_draw < 1_000_000 && content
            == #[trigger] content_of(populated_draw, good_draw, level)
}

/// Whether two grids have the same shape and the same tiles populated.
pub open spec fn same_populated(grid: Seq<Seq<MapTile>>, other: Seq<Seq<MapTile>>) -> bool {
    &&& grid.len() == other.len()
    &&& forall|y: int| 0 <= y < grid.len() ==> (#[trigger] grid[y]).len() == other[y].len()
    &&& forall|y: int, x: int|
        0 <= y < grid.len() && 0 <= x < grid[y].len() ==> ((#[trigger] grid[y][x]).content
            == MapTileContent::Empty <==> other[y][x].content == MapTileContent::Empty)
}

/// Having the same tiles populated carries over from grid to grid.
pub(crate) proof fn lemma_same_populated_twice(
    first: Seq<Seq<MapTile>>,
    second: Seq<Seq<MapTile>>,
    third: Seq<Seq<MapTile>>,
)
    requires
        same_populated(first, second),
        same_populated(second, third),
    ensures
        same_populated(first, third),
{
    assert forall|y: int| 0 <= y < first.len() implies (#[trigger] first[y]).len()
        == third[y].len() by {
        assert(second[y].len() == third[y].len());
    }
    assert forall|y: int, x: int| 0 <= y < first.len() && 0 <= x < first[y].len() implies ((
    #[trigger] first[y][x]).content == MapTileContent::Empty <==> third[y][x].content
        == MapTileContent::Empty) by {
        assert(second[y].len() == third[y].len());
        assert(second[y][x].content == MapTileContent::Empty <==> third[y][x].content
            == MapTileContent::Empty);
    }
}

/// Whether every tile of a grid is populated.
pub open spec fn all_populated(grid: Seq<Seq<MapTile>>) -> bool {
    forall|y: int, x: int|
        0 <= y < grid.len() && 0 <= x < grid[y].len() ==> (#[trigger] grid[y][x]).content
            != MapTileContent::Empty
}

/// Whether `good` tiles on the player's side are enough, where `wanted` is
/// the share that is asked for, in parts per million, times the number of
/// populated tiles, and `needed` the number of tiles that it takes to win: the
/// share of the tiles is no less than the share asked for, and they are no fewer
/// than needed.
pub open spec fn suffices(wanted: int, needed: int, good: int) -> bool {
    &&& good * 1_000_000 >= wanted
    &&& good >= needed
}

/// Whether `good` tiles on the player's side are too many, where `wanted` is
/// the share that is asked for, in parts per million, times the number of
/// populated tiles: the share of the tiles is above the share asked for by more
/// than a tenth of it.
pub open spec fn exceeds(wanted: int, good: int) -> bool {
    good * 10_000_000 > 11 * wanted
}

/// Whether `good` tiles on the player's side are enough on a map of
/// `non_empty` populated tiles: their share is no less than the share that the
/// level asks for, and the level can be won with them.
pub open spec fn enough_good(level: Level, non_empty: int, good: int) -> bool {
    suffices(level.good_ppm * non_empty, min_good_tiles(level, non_empty), good)
}

/// Whether `good` tiles on the player's side are too many on a map of
/// `non_empty` populated tiles: their share is above the share that the level
/// asks for by more than a tenth of it.
pub open spec fn too_many_good(level: Level, non_empty: int, good: int) -> bool {
    exceeds(level.good_ppm * non_empty, good)
}

/// The grid with the content `to` given to the tile that comes at place
/// `pick`, counted from zero, among the tiles with the content `from` in reading
/// order.
pub open spec fn with_nth_flipped(
    grid: Seq<Seq<MapTile>>,
    from: MapTileContent,
    to: MapTileContent,
    pick: int,
) -> Seq<Seq<MapTile>> {
    let coords = all_tiles(grid).filter(has_content(from))[pick].coords;
    with_tile(
        grid,
        coords.x as int,
        coords.y as int,
        MapTile { content: to, ..grid[coords.y as int][coords.x as int] },
    )
}

/// One step of balancing a grid, from the grid and whether tiles have begun
/// to move towards the player: while they have not, and the tiles on the
/// player's side are too many, the picked tile of the player's moves away;
/// else, while the tiles on the player's side are not enough, the picked tile
/// of the other party moves towards the player; else nothing moves.
pub open spec fn balance_step(
    state: (Seq<Seq<MapTile>>, bool),
    wanted: int,
    needed: int,
    pick: int,
) -> (Seq<Seq<MapTile>>, bool) {
    let good = count_content(state.0, MapTileContent::Good) as int;
    if !state.1 && exceeds(wanted, good) {
        (with_nth_flipped(state.0, MapTileContent::Good, MapTileContent::Bad, pick), false)
    } else if !suffices(wanted, needed, good) {
        (with_nth_flipped(state.0, MapTileContent::Bad, MapTileContent::Good, pick), true)
    } else {
        state
    }
}

/// The grid after the steps of balancing that `picks` give, one pick to a
/// step, and whether tiles have begun to move towards the player.
pub open spec fn balanced(
    grid: Seq<Seq<MapTile>>,
    wanted: int,
    needed: int,
    picks: Seq<int>,
) -> (Seq<Seq<MapTile>>, bool)
    decreases picks.len(),
{
    if picks.len() == 0 {
        (grid, false)
    } else {
        balance_step(
            balanced(grid, wanted, needed, picks.drop_last()),
            wanted,
            needed,
            picks.last(),
        )
    }
}

/// Whether some picks lead from the grid `from` to `grid` by the steps of
/// balancing.
pub open spec fn is_balanced(
    grid: Seq<Seq<MapTile>>,
    from: Seq<Seq<MapTile>>,
    wanted: int,
    needed: int,
) -> bool {
    exists|picks: Seq<int>| grid == (#[trigger] balanced(from, wanted, needed, picks)).0
}

/// Whether no tile of a grid is in a district.
pub open spec fn none_assigned(grid: Seq<Seq<MapTile>>) -> bool {
    forall|y: int, x: int|
        0 <= y < grid.len() && 0 <= x < grid[y].len() ==> (#[trigger] grid[y][x]).district_id
            is None
}

/// Whether each row of contents is as long as there are rows.
pub open spec fn is_square_of_contents(contents: Seq<Seq<MapTileContent>>) -> bool {
    forall|y: int| 0 <= y < contents.len() ==> (#[trigger] contents[y]).len() == contents.len()
}

/// The grid of unassigned tiles with the given contents.
pub open spec fn grid_of(contents: Seq<Seq<MapTileContent>>) -> Seq<Seq<MapTile>> {
    Seq::new(
        contents.len(),
        |y: int|
            Seq::new(
                contents[y].len(),
                |x: int|
                    MapTile {
                        coords: Coordinates { x: x as usize, y: y as usize },
                        content: contents[y][x],
                        district_id: None,
                    },
            ),
    )
}

/// The set of the tiles that references point at is the set of those tiles.
pub(crate) proof fn lemma_tile_set_of_values(tiles: Seq<&MapTile>)
    ensures
        tile_set(tiles) == tile_values(tiles).to_set(),
{
    let values = tile_values(tiles);
    assert forall|t: MapTile| tile_set(tiles).contains(t) implies values.to_set().contains(t) by {
        let i = choose|i: int| 0 <= i < tiles.len() && *#[trigger] tiles[i] == t;
        assert(values[i] == t);
    }
    assert forall|t: MapTile| values.to_set().contains(t) implies tile_set(tiles).contains(t) by {
        let i = choose|i: int| 0 <= i < values.len() && values[i] == t;
        assert(*tiles[i] == t);
    }
    assert(tile_set(tiles) =~= values.to_set());
}

/// The tiles of `all` for which `keep` holds `true` at the same index, in
/// their order.
pub open spec fn kept(all: Seq<MapTile>, keep: Seq<bool>) -> Seq<MapTile>
    decreases all.len(),
{
    if all.len() == 0 {
        Seq::empty()
    } else {
        let rest = kept(all.drop_last(), keep.drop_last());
        if keep.last() {
            rest.push(all.last())
        } else {
            rest
        }
    }
}

/// One as a number if `b`, else zero.
pub open spec fn one_if(b: bool) -> int {
    if b {
        1
    } else {
        0
    }
}

/// The tiles of a grid with one more row are those of the grid, then those
/// of the row.
pub(crate) proof fn lemma_all_tiles_push(grid: Seq<Seq<MapTile>>, row: Seq<MapTile>)
    ensures
        all_tiles(grid.push(row)) == all_tiles(grid) + row,
{
    assert(grid.push(row).drop_last() =~= grid);
}

/// Keeping by answers that agree with a test is filtering by that test.
pub(crate) proof fn lemma_kept_is_filter(all: Seq<MapTile>, keep: Seq<bool>, test: spec_fn(MapTile) -> bool)
    requires
        keep.len() == all.len(),
        forall|i: int| 0 <= i < all.len() ==> keep[i] == test(#[trigger] all[i]),
    ensures
        kept(all, keep) == all.filter(test),
    decreases all.len(),
{
    reveal(Seq::filter);
    if all.len() > 0 {
        lemma_kept_is_filter(all.drop_last(), keep.drop_last(), test);
    }
}

/// Every tile in the reading order of a grid lies at some position of it.
pub(crate) proof fn lemma_all_tiles_position(grid: Seq<Seq<MapTile>>, k: int) -> (at: (int, int))
    requires
        0 <= k < all_tiles(grid).len(),
    ensures
        0 <= at.1 < grid.len(),
        0 <= at.0 < grid[at.1].len(),
        all_tiles(grid)[k] == grid[at.1][at.0],
    decreases grid.len(),
{
    let before = all_tiles(grid.drop_last());
    if k < before.len() {
        lemma_all_tiles_position(grid.drop_last(), k)
    } else {
        (k - before.len(), grid.len() - 1)
    }
}

/// Replacing one element of a sequence changes the number of elements that
/// pass a test by what the old and the new element contribute.
pub proof fn lemma_filter_len_update(
    tiles: Seq<MapTile>,
    i: int,
    tile: MapTile,
    test: spec_fn(MapTile) -> bool,
)
    requires
        0 <= i < tiles.len(),
    ensures
        tiles.update(i, tile).filter(test).len() == tiles.filter(test).len() - one_if(
            test(tiles[i]),
        ) + one_if(test(tile)),
    decreases tiles.len(),
{
    reveal(Seq::filter);
    let changed = tiles.update(i, tile);
    if i == tiles.len() - 1 {
        assert(changed.drop_last() =~= tiles.drop_last());
    } else {
        assert(changed.drop_last() =~= tiles.drop_last().update(i, tile));
        lemma_filter_len_update(tiles.drop_last(), i, tile, test);
    }
}

/// Replacing one tile of a grid changes the number of tiles that pass a test
/// by what the old and the new tile contribute.
pub proof fn lemma_count_with_tile(
    grid: Seq<Seq<MapTile>>,
    x: int,
    y: int,
    tile: MapTile,
    test: spec_fn(MapTile) -> bool,
)
    requires
        0 <= y < grid.len(),
        0 <= x < grid[y].len(),
    ensures
        all_tiles(with_tile(grid, x, y, tile)).filter(test).len() == all_tiles(grid).filter(
            test,
        ).len() - one_if(test(grid[y][x])) + one_if(test(tile)),
    decreases grid.len(),
{
    let changed = with_tile(grid, x, y, tile);
    Seq::filter_distributes_over_add(all_tiles(grid.drop_last()), grid.last(), test);
    Seq::filter_distributes_over_add(all_tiles(changed.drop_last()), changed.last(), test);
    if y == grid.len() - 1 {
        assert(changed.drop_last() =~= grid.drop_last());
        lemma_filter_len_update(grid[y], x, tile, test);
    } else {
        assert(changed.drop_last() =~= with_tile(grid.drop_last(), x, y, tile));
        lemma_count_with_tile(grid.drop_last(), x, y, tile, test);
    }
}

/// A grid has no more populated tiles than tiles.
pub(crate) proof fn lemma_non_empty_bounded(grid: Seq<Seq<MapTile>>, size: int)
    requires
        grid.len() == size,
        is_square(grid),
    ensures
        count_non_empty(grid) <= size * size,
{
    lemma_all_tiles_len(grid, size);
    lemma_good_and_bad_disjoint(all_tiles(grid));
}

/// The tiles of a grid whose rows all have `width` tiles number its rows times
/// `width`.
pub(crate) proof fn lemma_all_tiles_len(grid: Seq<Seq<MapTile>>, width: int)
    requires
        forall|y: int| 0 <= y < grid.len() ==> (#[trigger] grid[y]).len() == width,
    ensures
        all_tiles(grid).len() == grid.len() * width,
    decreases grid.len(),
{
    if grid.len() > 0 {
        lemma_all_tiles_len(grid.drop_last(), width);
        assert((grid.len() - 1) * width + width == grid.len() * width) by (nonlinear_arith);
    } else {
        assert(0 * width == 0) by (nonlinear_arith);
    }
}

/// Where every tile is of a party, the tiles of both parties together are all
/// the tiles.
pub(crate) proof fn lemma_good_and_bad_are_all(tiles: Seq<MapTile>)
    requires
        forall|k: int| 0 <= k < tiles.len() ==> (#[trigger] tiles[k]).content
            != MapTileContent::Empty,
    ensures
        tiles.filter(has_content(MapTileContent::Good)).len() + tiles.filter(
            has_content(MapTileContent::Bad),
        ).len() == tiles.len(),
    decreases tiles.len(),
{
    reveal(Seq::filter);
    if tiles.len() > 0 {
        assert(tiles.last() == tiles[tiles.len() - 1]);
        assert forall|k: int| 0 <= k < tiles.drop_last().len() implies (
        #[trigger] tiles.drop_last()[k]).content != MapTileContent::Empty by {
            assert(tiles.drop_last()[k] == tiles[k]);
        }
        lemma_good_and_bad_are_all(tiles.drop_last());
    }
}

/// On a square grid on which every tile is populated, the populated tiles
/// number the side times the side.
pub proof fn lemma_all_populated(grid: Seq<Seq<MapTile>>, size: int)
    requires
        grid.len() == size,
        is_square(grid),
        all_populated(grid),
    ensures
        count_non_empty(grid) == size * size,
{
    lemma_all_tiles_len(grid, size);
    let all = all_tiles(grid);
    assert forall|k: int| 0 <= k < all.len() implies (#[trigger] all[k]).content
        != MapTileContent::Empty by {
        let at = lemma_all_tiles_position(grid, k);
        assert(grid[at.1][at.0].content != MapTileContent::Empty);
    }
    lemma_good_and_bad_are_all(all);
}

/// The tiles of either party among some tiles are no more than the tiles.
pub(crate) proof fn lemma_good_and_bad_disjoint(tiles: Seq<MapTile>)
    ensures
        tiles.filter(has_content(MapTileContent::Good)).len() + tiles.filter(
            has_content(MapTileContent::Bad),
        ).len() <= tiles.len(),
    decreases tiles.len(),
{
    reveal(Seq::filter);
    if tiles.len() > 0 {
        lemma_good_and_bad_disjoint(tiles.drop_last());
    }
}

/// What changing the content of the tile at `coords` does to a grid in which
/// the tile is of one party and becomes of the other: the grid stays what a
/// map must be, as many tiles are populated as before, and one tile more is of
/// the party that the tile now has.
pub(crate) proof fn lemma_flip(grid: Seq<Seq<MapTile>>, coords: Coordinates, content: MapTileContent)
    requires
        tile_at(grid, coords.x as int, coords.y as int) is Some,
        content != MapTileContent::Empty,
        grid[coords.y as int][coords.x as int].content != MapTileContent::Empty,
        grid[coords.y as int][coords.x as int].content != content,
    ensures
        ({
            let old_tile = grid[coords.y as int][coords.x as int];
            let flipped = with_tile(
                grid,
                coords.x as int,
                coords.y as int,
                MapTile { content, ..old_tile },
            );
            &&& is_square(grid) ==> is_square(flipped)
            &&& same_populated(flipped, grid)
            &&& is_positioned(grid) ==> is_positioned(flipped)
            &&& none_assigned(grid) ==> none_assigned(flipped)
            &&& flipped.len() == grid.len()
            &&& count_non_empty(flipped) == count_non_empty(grid)
            &&& count_content(flipped, content) == count_content(grid, content) + 1
            &&& count_content(flipped, old_tile.content) == count_content(grid, old_tile.content)
                - 1
        }),
{
    let old_tile = grid[coords.y as int][coords.x as int];
    let new_tile = MapTile { content, ..old_tile };
    lemma_count_with_tile(
        grid,
        coords.x as int,
        coords.y as int,
        new_tile,
        has_content(MapTileContent::Good),
    );
    lemma_count_with_tile(
        grid,
        coords.x as int,
        coords.y as int,
        new_tile,
        has_content(MapTileContent::Bad),
    );
}

/// Wherever some number of tiles on the player's side is enough without being
/// too many, a map made for the level has a share of such tiles that is no
/// less than the level's and above it by no more than a tenth of it.
///
/// `good` stands for the number of such tiles on a map as it is made: enough,
/// and too many only where one fewer would not be enough.
pub proof fn lemma_share_within_band(level: Level, non_empty: int, good: int, fitting: int)
    requires
        enough_good(level, non_empty, good),
        !too_many_good(level, non_empty, good) || !enough_good(level, non_empty, good - 1),
        enough_good(level, non_empty, fitting),
        !too_many_good(level, non_empty, fitting),
    ensures
        good * 1_000_000 >= level.good_ppm * non_empty,
        good * 10_000_000 <= 11 * (level.good_ppm * non_empty),
        good >= min_good_tiles(level, non_empty),
{
    let wanted = level.good_ppm * non_empty;
    if too_many_good(level, non_empty, good) {
        assert(fitting * 1_000_000 >= wanted && fitting >= min_good_tiles(level, non_empty));
        assert((good - 1) * 1_000_000 < wanted || good - 1 < min_good_tiles(level, non_empty));
        assert(fitting >= good);
        assert(fitting * 10_000_000 <= 11 * wanted);
        assert(good * 10_000_000 > 11 * wanted);
    }
}

/// The states of the districts are determined by the tiles of the map and
/// the number of districts: two answers to the same question are the same.
pub proof fn lemma_district_results_repeatable(
    grid: Seq<Seq<MapTile>>,
    districts: u8,
    first: Seq<DistrictResult>,
    second: Seq<DistrictResult>,
)
    requires
        first == district_results(grid, districts),
        second == district_results(grid, districts),
    ensures
        first == second,
{
}

/// With three districts of which the first two may stand and are carried by
/// the player's party, and the third may stand and is carried by the other
/// party, and with every tile in a district, the level is solved.
pub proof fn lemma_two_of_three_solves(grid: Seq<Seq<MapTile>>, level: Level)
    requires
        level.districts == 3,
        all_valid(grid, level),
        all_assigned(grid),
        district_winner(grid, 0) == Some(DistrictWinner::Good),
        district_winner(grid, 1) == Some(DistrictWinner::Good),
        district_winner(grid, 2) == Some(DistrictWinner::Bad),
    ensures
        solved(grid, level),
{
    reveal_with_fuel(good_wins, 4);
}

/// While a tile is in no district, the level is not solved.
pub proof fn lemma_unassigned_tile_unsolved(grid: Seq<Seq<MapTile>>, level: Level, x: int, y: int)
    requires
        tile_at(grid, x, y) matches Some(tile) && tile.district_id is None,
    ensures
        !solved(grid, level),
{
    assert(grid[y][x].district_id is None);
}

} // verus!
