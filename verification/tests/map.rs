use rand::rngs::StdRng;
use rand::SeedableRng;
use redistricting::district::{DistrictResult, DistrictWinner};
use redistricting::error::GameError;
use redistricting::level::{determine_min_good_tiles, Level};
use redistricting::map::{content_for, within_share, TileMap};
use redistricting::tile::{Coordinates, MapTile, MapTileContent};

const G: MapTileContent = MapTileContent::Good;
const B: MapTileContent = MapTileContent::Bad;
const E: MapTileContent = MapTileContent::Empty;

fn at(x: usize, y: usize) -> Coordinates {
    Coordinates { x, y }
}

fn level(districts: u8, min: usize, max: usize) -> Level {
    Level {
        districts,
        good_ppm: 500_000,
        populated_ppm: 700_000,
        map_size: 3,
        min_district_size: min,
        max_district_size: max,
    }
}

/// Rows of contents, and the district of each tile (`-1`: none).
fn map_of(contents: Vec<Vec<MapTileContent>>, districts: Vec<Vec<i16>>) -> TileMap {
    let mut map = TileMap::from_contents(&contents).unwrap();
    for (y, row) in districts.iter().enumerate() {
        for (x, &d) in row.iter().enumerate() {
            if d >= 0 {
                map.get_mut(&at(x, y)).district_id = Some(d as u8);
            }
        }
    }
    map
}

fn three_rows() -> TileMap {
    map_of(
        vec![vec![G, G, B], vec![G, G, B], vec![B, B, G]],
        vec![vec![0, 0, 0], vec![1, 1, 1], vec![2, 2, 2]],
    )
}

fn count(map: &TileMap, content: MapTileContent) -> usize {
    map.get_tiles_with_content(content).len()
}

#[test]
fn from_contents_places_each_tile() {
    let map = TileMap::from_contents(&vec![vec![G, B], vec![E, G]]).unwrap();
    assert_eq!(map.size(), 2);
    assert_eq!(map.num_non_empty_tiles(), 3);
    assert_eq!(*map.get(&at(0, 0)), MapTile::new_good(0, 0));
    assert_eq!(*map.get(&at(1, 0)), MapTile::new_bad(1, 0));
    assert_eq!(*map.get(&at(0, 1)), MapTile::new_empty(0, 1));
    assert_eq!(*map.get(&at(1, 1)), MapTile::new_good(1, 1));
}

#[test]
fn from_contents_refuses_what_is_not_square() {
    assert!(TileMap::from_contents(&vec![vec![G, B]]).is_none());
    assert!(TileMap::from_contents(&vec![vec![G], vec![B]]).is_none());
    assert!(TileMap::from_contents(&vec![vec![G, B], vec![E]]).is_none());
    assert!(TileMap::from_contents(&vec![vec![]]).is_none());
}

#[test]
fn the_empty_map() {
    let map = TileMap::empty();
    assert_eq!(map.size(), 0);
    assert_eq!(map.num_non_empty_tiles(), 0);
    assert_eq!(map, TileMap::from_contents(&Vec::new()).unwrap());
    assert!(map.get_tiles_with_content(G).is_empty());
    assert!(map.get_district_results(0).is_empty());
}

#[test]
fn neighbours_inside_the_map() {
    let map = three_rows();
    let centre = at(1, 1);
    assert_eq!(map.get_up(&centre).unwrap().coords, at(1, 0));
    assert_eq!(map.get_down(&centre).unwrap().coords, at(1, 2));
    assert_eq!(map.get_left(&centre).unwrap().coords, at(0, 1));
    assert_eq!(map.get_right(&centre).unwrap().coords, at(2, 1));
}

#[test]
fn no_neighbours_beyond_the_edges() {
    let map = three_rows();
    assert!(map.get_up(&at(1, 0)).is_none());
    assert!(map.get_down(&at(1, 2)).is_none());
    assert!(map.get_left(&at(0, 1)).is_none());
    assert!(map.get_right(&at(2, 1)).is_none());
    let only = TileMap::from_contents(&vec![vec![G]]).unwrap();
    assert!(only.get_up(&at(0, 0)).is_none());
    assert!(only.get_down(&at(0, 0)).is_none());
    assert!(only.get_left(&at(0, 0)).is_none());
    assert!(only.get_right(&at(0, 0)).is_none());
}

#[test]
fn neighbours_of_positions_outside_the_map() {
    let map = three_rows();
    // just below the last row, the tile above is the last row's
    assert_eq!(map.get_up(&at(1, 3)).unwrap().coords, at(1, 2));
    assert_eq!(map.get_left(&at(3, 1)).unwrap().coords, at(2, 1));
    assert!(map.get_up(&at(1, 4)).is_none());
    assert!(map.get_up(&at(3, 1)).is_none());
    assert!(map.get_down(&at(3, 0)).is_none());
    assert!(map.get_down(&at(0, usize::MAX)).is_none());
    assert!(map.get_right(&at(usize::MAX, 0)).is_none());
    assert!(map.get_right(&at(0, 3)).is_none());
    assert!(map.get_left(&at(4, 1)).is_none());
    assert!(TileMap::empty().get_down(&at(0, 0)).is_none());
    assert!(TileMap::empty().get_right(&at(0, 0)).is_none());
}

#[test]
fn try_get_tells_what_lies_outside() {
    let map = three_rows();
    assert_eq!(map.try_get(&at(2, 2)).unwrap().coords, at(2, 2));
    assert_eq!(
        map.try_get(&at(3, 0)),
        Err(GameError::OutOfBoundsAccess { coords: at(3, 0), map_size: 3 })
    );
    assert_eq!(
        map.try_get(&at(0, 3)),
        Err(GameError::OutOfBoundsAccess { coords: at(0, 3), map_size: 3 })
    );
    assert_eq!(
        TileMap::empty().try_get(&at(0, 0)),
        Err(GameError::OutOfBoundsAccess { coords: at(0, 0), map_size: 0 })
    );
}

#[test]
fn set_district_assigns_and_unassigns() {
    let mut map = TileMap::from_contents(&vec![vec![G, B], vec![E, G]]).unwrap();
    let level = level(3, 1, 2);
    assert_eq!(map.set_district(&level, &at(1, 0), Some(2)), Ok(()));
    assert_eq!(map.get(&at(1, 0)).district_id, Some(2));
    assert_eq!(map.get(&at(1, 0)).content, B);
    assert_eq!(map.get(&at(0, 0)).district_id, None);
    assert_eq!(map.set_district(&level, &at(1, 0), Some(0)), Ok(()));
    assert_eq!(map.get(&at(1, 0)).district_id, Some(0));
    assert_eq!(map.set_district(&level, &at(1, 0), None), Ok(()));
    assert_eq!(map.get(&at(1, 0)).district_id, None);
    assert_eq!(map.num_non_empty_tiles(), 3);
}

#[test]
fn set_district_refuses_a_district_that_the_level_lacks() {
    let mut map = three_rows();
    let before = map.clone();
    assert_eq!(
        map.set_district(&level(3, 1, 2), &at(0, 0), Some(3)),
        Err(GameError::InvalidDistrictId { district_id: 3, districts: 3 })
    );
    assert_eq!(
        map.set_district(&level(0, 1, 2), &at(0, 0), Some(0)),
        Err(GameError::InvalidDistrictId { district_id: 0, districts: 0 })
    );
    assert_eq!(map, before);
}

#[test]
fn set_district_refuses_coordinates_outside_the_map() {
    let mut map = three_rows();
    let before = map.clone();
    assert_eq!(
        map.set_district(&level(3, 1, 2), &at(3, 3), Some(1)),
        Err(GameError::OutOfBoundsAccess { coords: at(3, 3), map_size: 3 })
    );
    // outside the map and a district that the level lacks: the place is named
    assert_eq!(
        map.set_district(&level(3, 1, 2), &at(0, 7), Some(9)),
        Err(GameError::OutOfBoundsAccess { coords: at(0, 7), map_size: 3 })
    );
    assert_eq!(
        map.set_district(&level(3, 1, 2), &at(7, 0), None),
        Err(GameError::OutOfBoundsAccess { coords: at(7, 0), map_size: 3 })
    );
    assert_eq!(map, before);
}

#[test]
fn tiles_in_a_district_come_in_reading_order() {
    let map = map_of(
        vec![vec![G, G, B], vec![G, G, B], vec![B, B, G]],
        vec![vec![0, 1, 0], vec![1, -1, 1], vec![0, 2, 0]],
    );
    let coords = |d: u8| -> Vec<Coordinates> {
        map.get_tiles_in_district(d).iter().map(|t| t.coords).collect()
    };
    assert_eq!(coords(0), vec![at(0, 0), at(2, 0), at(0, 2), at(2, 2)]);
    assert_eq!(coords(1), vec![at(1, 0), at(0, 1), at(2, 1)]);
    assert_eq!(coords(2), vec![at(1, 2)]);
    assert_eq!(coords(3), vec![]);
}

#[test]
fn tiles_with_a_content_come_in_reading_order() {
    let map = TileMap::from_contents(&vec![vec![G, E, B], vec![E, G, B], vec![B, E, E]]).unwrap();
    let coords = |c: MapTileContent| -> Vec<Coordinates> {
        map.get_tiles_with_content(c).iter().map(|t| t.coords).collect()
    };
    assert_eq!(coords(G), vec![at(0, 0), at(1, 1)]);
    assert_eq!(coords(B), vec![at(2, 0), at(2, 1), at(0, 2)]);
    assert_eq!(coords(E), vec![at(1, 0), at(0, 1), at(1, 2), at(2, 2)]);
}

#[test]
fn tiles_matching_a_test_of_the_callers() {
    let map = three_rows();
    let on_diagonal = map.get_tiles_matching(|t| t.coords.x == t.coords.y);
    let coords: Vec<Coordinates> = on_diagonal.iter().map(|t| t.coords).collect();
    assert_eq!(coords, vec![at(0, 0), at(1, 1), at(2, 2)]);
    assert_eq!(map.get_tiles_matching(|_| true).len(), 9);
    assert!(map.get_tiles_matching(|_| false).is_empty());
}

#[test]
fn district_results_of_three_rows() {
    let results = three_rows().get_district_results(3);
    assert_eq!(
        results,
        vec![
            DistrictResult { size: 3, winner: Some(DistrictWinner::Good) },
            DistrictResult { size: 3, winner: Some(DistrictWinner::Good) },
            DistrictResult { size: 3, winner: Some(DistrictWinner::Bad) },
        ]
    );
}

#[test]
fn district_results_count_empty_tiles_in_the_size_but_not_in_the_vote() {
    let map = map_of(
        vec![vec![G, E, E], vec![B, B, E], vec![G, E, B]],
        vec![vec![0, 0, 0], vec![1, 1, 1], vec![2, 2, 2]],
    );
    assert_eq!(
        map.get_district_results(3),
        vec![
            DistrictResult { size: 3, winner: Some(DistrictWinner::Good) },
            DistrictResult { size: 3, winner: Some(DistrictWinner::Bad) },
            DistrictResult { size: 3, winner: Some(DistrictWinner::Tie) },
        ]
    );
}

#[test]
fn a_district_in_two_pieces_has_no_winner() {
    let map = map_of(
        vec![vec![G, G, B], vec![G, G, B], vec![B, B, G]],
        vec![vec![0, 1, 0], vec![1, 1, 1], vec![2, 2, 2]],
    );
    let results = map.get_district_results(3);
    assert_eq!(results[0], DistrictResult { size: 2, winner: None });
    assert_eq!(results[1], DistrictResult { size: 4, winner: Some(DistrictWinner::Good) });
    assert_eq!(results[2], DistrictResult { size: 3, winner: Some(DistrictWinner::Bad) });
}

#[test]
fn a_district_without_tiles_has_no_winner() {
    let map = three_rows();
    let results = map.get_district_results(5);
    assert_eq!(results.len(), 5);
    assert_eq!(results[3], DistrictResult { size: 0, winner: None });
    assert_eq!(results[4], DistrictResult { size: 0, winner: None });
    assert!(map.get_district_results(0).is_empty());
    assert_eq!(map.get_district_results(1).len(), 1);
}

#[test]
fn a_single_district_is_asked_for_by_its_number() {
    let map = three_rows();
    let level = level(3, 3, 3);
    assert_eq!(
        map.get_district_result(&level, 0),
        Ok(DistrictResult { size: 3, winner: Some(DistrictWinner::Good) })
    );
    assert_eq!(
        map.get_district_result(&level, 2),
        Ok(DistrictResult { size: 3, winner: Some(DistrictWinner::Bad) })
    );
    for district_id in 0..3 {
        assert_eq!(
            map.get_district_result(&level, district_id),
            Ok(map.get_district_results(3)[district_id as usize])
        );
    }
}

#[test]
fn a_district_that_the_level_lacks_has_no_result() {
    let map = three_rows();
    assert_eq!(
        map.get_district_result(&level(3, 3, 3), 3),
        Err(GameError::InvalidDistrictId { district_id: 3, districts: 3 })
    );
    assert_eq!(
        map.get_district_result(&level(3, 3, 3), 255),
        Err(GameError::InvalidDistrictId { district_id: 255, districts: 3 })
    );
    assert_eq!(
        map.get_district_result(&level(0, 3, 3), 0),
        Err(GameError::InvalidDistrictId { district_id: 0, districts: 0 })
    );
}

#[test]
fn the_share_of_the_players_tiles_in_percent() {
    let percent = |contents: Vec<Vec<MapTileContent>>| -> u32 {
        TileMap::from_contents(&contents).unwrap().good_percent()
    };
    // two of three
    assert_eq!(percent(vec![vec![G, B], vec![E, G]]), 67);
    // one of three
    assert_eq!(percent(vec![vec![B, B], vec![E, G]]), 33);
    // one of eight: 12.5 is rounded up
    assert_eq!(percent(vec![vec![G, B, B], vec![B, E, B], vec![B, B, B]]), 13);
    // three of eight: 37.5 is rounded up
    assert_eq!(percent(vec![vec![G, G, G], vec![B, E, B], vec![B, B, B]]), 38);
    assert_eq!(percent(vec![vec![G, G], vec![G, G]]), 100);
    assert_eq!(percent(vec![vec![B, B], vec![B, E]]), 0);
    assert_eq!(percent(vec![vec![E]]), 0);
    assert_eq!(TileMap::empty().good_percent(), 0);
}

#[test]
fn district_results_do_not_change_between_calls() {
    let map = map_of(
        vec![vec![G, E, B], vec![B, B, E], vec![G, E, B]],
        vec![vec![0, 0, 1], vec![1, -1, 1], vec![2, 2, 0]],
    );
    let first = map.get_district_results(3);
    let second = map.get_district_results(3);
    assert_eq!(first, second);
}

#[test]
fn two_districts_of_three_solve_the_level() {
    let map = three_rows();
    assert!(map.is_solved(&level(3, 3, 3)));
    assert!(map.is_solved(&level(3, 2, 4)));
}

#[test]
fn an_unassigned_tile_leaves_the_level_unsolved() {
    let mut map = three_rows();
    let level = level(3, 2, 3);
    assert!(map.is_solved(&level));
    // the third district keeps two tiles of the other party: it stays valid
    map.get_mut(&at(2, 2)).district_id = None;
    let results = map.get_district_results(3);
    assert_eq!(results[2], DistrictResult { size: 2, winner: Some(DistrictWinner::Bad) });
    assert!(!map.is_solved(&level));
}

#[test]
fn a_district_out_of_size_leaves_the_level_unsolved() {
    let map = three_rows();
    assert!(!map.is_solved(&level(3, 4, 5)));
    assert!(!map.is_solved(&level(3, 1, 2)));
}

#[test]
fn a_district_in_pieces_leaves_the_level_unsolved() {
    let map = map_of(
        vec![vec![G, G, G], vec![G, G, G], vec![B, B, G]],
        vec![vec![0, 1, 0], vec![0, 1, 1], vec![2, 2, 2]],
    );
    let level = level(3, 3, 3);
    assert_eq!(map.get_district_results(3)[0].winner, None);
    assert!(!map.is_solved(&level));
}

#[test]
fn half_of_the_districts_is_not_a_majority() {
    // four districts; the player's party carries two
    let contents = vec![
        vec![G, G, B, B],
        vec![G, G, B, B],
        vec![G, B, B, G],
        vec![B, B, B, G],
    ];
    let districts =
        vec![vec![0, 0, 0, 0], vec![1, 1, 1, 1], vec![2, 2, 2, 2], vec![3, 3, 3, 3]];
    let map = map_of(contents, districts);
    let mut level = level(4, 4, 4);
    level.map_size = 4;
    let winners: Vec<Option<DistrictWinner>> =
        map.get_district_results(4).iter().map(|r| r.winner).collect();
    assert_eq!(
        winners,
        vec![
            Some(DistrictWinner::Tie),
            Some(DistrictWinner::Tie),
            Some(DistrictWinner::Tie),
            Some(DistrictWinner::Bad)
        ]
    );
    assert!(!map.is_solved(&level));
    let contents = vec![
        vec![G, G, G, B],
        vec![G, G, G, B],
        vec![G, B, B, B],
        vec![B, B, B, G],
    ];
    let districts =
        vec![vec![0, 0, 0, 0], vec![1, 1, 1, 1], vec![2, 2, 2, 2], vec![3, 3, 3, 3]];
    let map = map_of(contents, districts);
    assert!(!map.is_solved(&level));
    let contents = vec![
        vec![G, G, G, B],
        vec![G, G, G, B],
        vec![G, G, B, G],
        vec![B, B, B, G],
    ];
    let districts =
        vec![vec![0, 0, 0, 0], vec![1, 1, 1, 1], vec![2, 2, 2, 2], vec![3, 3, 3, 3]];
    let map = map_of(contents, districts);
    assert!(map.is_solved(&level));
}

#[test]
fn a_tie_is_not_a_win() {
    let map = map_of(
        vec![vec![G, G, B], vec![G, B, E], vec![B, B, G]],
        vec![vec![0, 0, 0], vec![1, 1, 1], vec![2, 2, 2]],
    );
    assert_eq!(map.get_district_results(3)[1].winner, Some(DistrictWinner::Tie));
    assert!(!map.is_solved(&level(3, 3, 3)));
}

#[test]
fn a_tile_in_a_district_that_the_level_lacks_counts_as_assigned() {
    let mut map = three_rows();
    map.get_mut(&at(2, 2)).district_id = Some(7);
    assert!(map.is_solved(&level(3, 2, 3)));
}

#[test]
fn the_empty_map_is_not_solved() {
    assert!(!TileMap::empty().is_solved(&level(3, 0, 0)));
    // without districts nothing is carried
    assert!(!TileMap::empty().is_solved(&level(0, 0, 0)));
}

#[test]
fn a_draw_falls_within_a_share_when_it_is_below_it() {
    assert!(within_share(0, 1));
    assert!(!within_share(0, 0));
    assert!(within_share(699_999, 700_000));
    assert!(!within_share(700_000, 700_000));
    assert!(within_share(999_999, 1_000_000));
}

#[test]
fn the_only_tile_with_a_content_is_the_one_found() {
    let map = TileMap::from_contents(&vec![vec![B, E, B], vec![E, B, G], vec![B, E, E]]).unwrap();
    let mut rng = StdRng::seed_from_u64(1);
    for _ in 0..20 {
        assert_eq!(map.find_random_coords_with_content(G, &mut rng), at(2, 1));
    }
}

#[test]
fn a_tile_found_by_chance_has_the_content_asked_for() {
    let map = TileMap::from_contents(&vec![vec![B, E, B], vec![E, B, G], vec![B, E, E]]).unwrap();
    let mut rng = StdRng::seed_from_u64(2);
    let mut seen = Vec::new();
    for _ in 0..200 {
        let coords = map.find_random_coords_with_content(B, &mut rng);
        assert_eq!(map.get(&coords).content, B);
        if !seen.contains(&coords) {
            seen.push(coords);
        }
    }
    assert_eq!(seen.len(), 4);
}

fn check_generated(level_before: &Level, level: &Level, map: &TileMap) {
    let size = level_before.map_size;
    assert_eq!(map.size(), size);
    assert_eq!(level.map_size, size);
    assert_eq!(level.districts, level_before.districts);
    assert_eq!(level.good_ppm, level_before.good_ppm);
    assert_eq!(level.populated_ppm, level_before.populated_ppm);
    for y in 0..size {
        for x in 0..size {
            let tile = map.get(&at(x, y));
            assert_eq!(tile.coords, at(x, y));
            assert_eq!(tile.district_id, None);
        }
    }
    let good = count(map, G) as u128;
    let bad = count(map, B) as u128;
    let empty = count(map, E) as u128;
    let non_empty = map.num_non_empty_tiles() as u128;
    assert_eq!(good + bad, non_empty);
    assert_eq!(good + bad + empty, (size * size) as u128);
    let mut sizes = *level_before;
    sizes.set_district_sizes(map.num_non_empty_tiles());
    assert_eq!(*level, sizes);
    let wanted = level.good_ppm as u128 * non_empty;
    let min_good = determine_min_good_tiles(level, map.num_non_empty_tiles());
    assert!(good * 1_000_000 >= wanted);
    assert!(good >= min_good);
    let one_fewer_is_enough =
        good > 0 && (good - 1) * 1_000_000 >= wanted && good - 1 >= min_good;
    assert!(good * 10_000_000 <= 11 * wanted || !one_fewer_is_enough);
}

#[test]
fn generated_maps_fit_their_level() {
    for seed in 0..40 {
        let mut rng = StdRng::seed_from_u64(seed);
        let before = Level::starting();
        let mut level = before;
        let map = TileMap::generate(&mut level, &mut rng).unwrap();
        check_generated(&before, &level, &map);
    }
}

#[test]
fn generated_maps_of_later_levels_fit_their_level() {
    let mut rng = StdRng::seed_from_u64(99);
    let mut level = Level::starting();
    for _ in 0..15 {
        level = redistricting::level::generate_next_level(&level);
        let before = level;
        let map = TileMap::generate(&mut level, &mut rng).unwrap();
        check_generated(&before, &level, &map);
    }
}

#[test]
fn the_starting_level_gives_a_map_of_64_tiles() {
    let mut rng = StdRng::seed_from_u64(5);
    let mut level = Level::starting();
    let map = TileMap::generate(&mut level, &mut rng).unwrap();
    assert_eq!(map.size(), 8);
    assert_eq!(map.get_tiles_matching(|_| true).len(), 64);
}

#[test]
fn the_same_seed_gives_the_same_map() {
    for seed in [0, 1, 42, u64::MAX] {
        let mut first_level = Level::starting();
        let mut second_level = Level::starting();
        let first = TileMap::generate(&mut first_level, &mut StdRng::seed_from_u64(seed));
        let second = TileMap::generate(&mut second_level, &mut StdRng::seed_from_u64(seed));
        assert_eq!(first, second);
        assert_eq!(first_level, second_level);
    }
}

#[test]
fn different_seeds_give_different_maps() {
    let mut level = Level::starting();
    let first = TileMap::generate(&mut level, &mut StdRng::seed_from_u64(1)).unwrap();
    let mut level = Level::starting();
    let second = TileMap::generate(&mut level, &mut StdRng::seed_from_u64(2)).unwrap();
    assert_ne!(first, second);
}

#[test]
fn a_fully_populated_level_has_no_empty_tile() {
    let mut level = Level::starting();
    level.populated_ppm = 1_000_000;
    let map = TileMap::generate(&mut level, &mut StdRng::seed_from_u64(3)).unwrap();
    assert_eq!(map.num_non_empty_tiles(), 64);
    assert_eq!(count(&map, E), 0);
    // 64 tiles in 3 districts: 21.33 on average
    assert_eq!((level.min_district_size, level.max_district_size), (20, 22));
    // at least half of them, and no more than 55%, are the player's
    assert!(count(&map, G) >= 32);
    assert!(count(&map, G) <= 35);
}

#[test]
fn a_high_share_moves_tiles_towards_the_player() {
    let mut level = Level::starting();
    level.populated_ppm = 1_000_000;
    level.good_ppm = 999_999;
    let map = TileMap::generate(&mut level, &mut StdRng::seed_from_u64(3)).unwrap();
    assert_eq!(count(&map, G), 64);
}

#[test]
fn a_low_share_moves_tiles_away_from_the_player() {
    let mut level = Level::starting();
    level.populated_ppm = 1_000_000;
    level.map_size = 20;
    level.good_ppm = 100_000;
    let before = level;
    let map = TileMap::generate(&mut level, &mut StdRng::seed_from_u64(3)).unwrap();
    check_generated(&before, &level, &map);
    // 400 tiles in 3 districts of 127 to 140: 64 tiles in each of two
    // districts to win, and half of the 6 tiles that 127 + 127 + 140 leave over
    assert_eq!(level.min_district_size, 127);
    assert_eq!(level.max_district_size, 140);
    assert_eq!(determine_min_good_tiles(&level, 400), 131);
    assert_eq!(count(&map, G), 131);
}

#[test]
fn a_level_that_cannot_be_won_is_refused() {
    // one tile in a million is populated: with none on an 8 by 8 map, the
    // districts are empty, and one tile on the player's side is needed in each
    // of two of them
    let mut level = Level::starting();
    level.populated_ppm = 1;
    let mut failures = 0;
    for seed in 0..20 {
        let mut level = level;
        match TileMap::generate(&mut level, &mut StdRng::seed_from_u64(seed)) {
            Err(GameError::ConfigurationError { min_good_tiles, non_empty_tiles }) => {
                assert!(min_good_tiles > non_empty_tiles as u128);
                let mut sizes = Level::starting();
                sizes.populated_ppm = 1;
                sizes.set_district_sizes(non_empty_tiles);
                assert_eq!(level, sizes);
                assert_eq!(min_good_tiles, determine_min_good_tiles(&level, non_empty_tiles));
                failures += 1;
            }
            Err(other) => panic!("{:?}", other),
            Ok(map) => assert!(map.num_non_empty_tiles() >= 2),
        }
    }
    assert!(failures >= 19);
    // a single populated tile: two for the districts, one for the tile left over
    level.map_size = 1;
    level.populated_ppm = 1_000_000;
    assert_eq!(
        TileMap::generate(&mut level, &mut StdRng::seed_from_u64(0)),
        Err(GameError::ConfigurationError { min_good_tiles: 3, non_empty_tiles: 1 })
    );
    assert_eq!((level.min_district_size, level.max_district_size), (0, 0));
}

#[test]
fn two_draws_decide_the_content_of_a_tile() {
    let level = Level::starting();
    // seven tiles in ten are populated, half of them on the player's side
    assert_eq!(content_for(0, 0, &level), G);
    assert_eq!(content_for(699_999, 499_999, &level), G);
    assert_eq!(content_for(699_999, 500_000, &level), B);
    assert_eq!(content_for(0, 999_999, &level), B);
    assert_eq!(content_for(700_000, 0, &level), E);
    assert_eq!(content_for(999_999, 999_999, &level), E);
    let mut full = level;
    full.populated_ppm = 1_000_000;
    for draw in [0, 1, 500_000, 999_999] {
        assert_ne!(content_for(draw, draw, &full), E);
    }
}

#[test]
fn a_fully_populated_level_of_side_four_has_eight_tiles_of_each_party() {
    for seed in 0..30 {
        let mut level = Level::starting();
        level.populated_ppm = 1_000_000;
        level.map_size = 4;
        let map = TileMap::generate(&mut level, &mut StdRng::seed_from_u64(seed)).unwrap();
        assert_eq!(map.size(), 4);
        assert_eq!(map.num_non_empty_tiles(), 16);
        assert_eq!(count(&map, G), 8);
        assert_eq!(count(&map, B), 8);
        assert_eq!(count(&map, E), 0);
        assert_eq!((level.min_district_size, level.max_district_size), (5, 6));
    }
}

#[test]
fn a_map_from_given_contents_keeps_the_populated_tiles() {
    let contents = vec![
        vec![G, G, G, E],
        vec![G, G, G, E],
        vec![G, G, G, E],
        vec![E, E, E, G],
    ];
    for seed in 0..20 {
        let mut level = Level::starting();
        level.map_size = 4;
        let map =
            TileMap::generate_from(&mut level, &contents, &mut StdRng::seed_from_u64(seed))
                .unwrap();
        // 10 populated tiles in 3 districts of 3 to 4: two tiles in each of
        // two districts to win; half of the tiles is 5, and no more than 5.5
        assert_eq!((level.min_district_size, level.max_district_size), (3, 4));
        assert_eq!(map.num_non_empty_tiles(), 10);
        assert_eq!(count(&map, G), 5);
        assert_eq!(count(&map, B), 5);
        for y in 0..4 {
            for x in 0..4 {
                let tile = map.get(&at(x, y));
                assert_eq!(tile.content == E, contents[y][x] == E);
                assert_eq!(tile.coords, at(x, y));
                assert_eq!(tile.district_id, None);
            }
        }
    }
}

#[test]
fn a_map_from_given_contents_that_fit_stays_as_it_is_drawn() {
    let contents = vec![
        vec![G, B, G, B],
        vec![B, G, B, G],
        vec![G, B, G, B],
        vec![B, G, B, G],
    ];
    let mut level = Level::starting();
    level.map_size = 4;
    let map =
        TileMap::generate_from(&mut level, &contents, &mut StdRng::seed_from_u64(0)).unwrap();
    assert_eq!(map, TileMap::from_contents(&contents).unwrap());
    assert_eq!((level.min_district_size, level.max_district_size), (5, 6));
}

#[test]
fn a_map_from_given_contents_fails_when_too_few_tiles_are_populated() {
    let mut rng = StdRng::seed_from_u64(0);
    // one populated tile: one tile for each of two empty districts, and one
    // for the tile that the districts leave over
    let mut level = Level::starting();
    level.map_size = 2;
    assert_eq!(
        TileMap::generate_from(&mut level, &vec![vec![G, E], vec![E, E]], &mut rng),
        Err(GameError::ConfigurationError { min_good_tiles: 3, non_empty_tiles: 1 })
    );
    assert_eq!((level.min_district_size, level.max_district_size), (0, 0));
    // three populated tiles: districts of one tile, one tile in each of two of
    // them, and none left over
    let mut level = Level::starting();
    level.map_size = 2;
    let map =
        TileMap::generate_from(&mut level, &vec![vec![B, B], vec![E, B]], &mut rng).unwrap();
    assert_eq!((level.min_district_size, level.max_district_size), (1, 1));
    assert_eq!(count(&map, G), 2);
    // two populated tiles: districts of one tile, but two tiles at most
    let mut level = Level::starting();
    level.map_size = 2;
    assert_eq!(
        TileMap::generate_from(&mut level, &vec![vec![B, B], vec![E, E]], &mut rng),
        Ok(TileMap::from_contents(&vec![vec![G, G], vec![E, E]]).unwrap())
    );
    // no populated tile
    let mut level = Level::starting();
    level.map_size = 2;
    assert_eq!(
        TileMap::generate_from(&mut level, &vec![vec![E, E], vec![E, E]], &mut rng),
        Err(GameError::ConfigurationError { min_good_tiles: 2, non_empty_tiles: 0 })
    );
}

#[test]
fn tiles_with_a_content_are_found_by_their_place() {
    let map = TileMap::from_contents(&vec![vec![G, E, B], vec![E, G, B], vec![B, E, E]]).unwrap();
    assert_eq!(map.nth_coords_with_content(G, 0), at(0, 0));
    assert_eq!(map.nth_coords_with_content(G, 1), at(1, 1));
    assert_eq!(map.nth_coords_with_content(B, 0), at(2, 0));
    assert_eq!(map.nth_coords_with_content(B, 1), at(2, 1));
    assert_eq!(map.nth_coords_with_content(B, 2), at(0, 2));
    assert_eq!(map.nth_coords_with_content(E, 3), at(2, 2));
}

#[test]
fn try_get_mut_gives_the_tile_or_tells_what_lies_outside() {
    let mut map = three_rows();
    map.try_get_mut(&at(2, 1)).unwrap().district_id = Some(0);
    assert_eq!(map.get(&at(2, 1)).district_id, Some(0));
    assert_eq!(map.get(&at(2, 1)).coords, at(2, 1));
    assert_eq!(map.get(&at(1, 1)).district_id, Some(1));
    let before = map.clone();
    assert_eq!(
        map.try_get_mut(&at(3, 1)),
        Err(GameError::OutOfBoundsAccess { coords: at(3, 1), map_size: 3 })
    );
    assert_eq!(
        map.try_get_mut(&at(0, usize::MAX)),
        Err(GameError::OutOfBoundsAccess { coords: at(0, usize::MAX), map_size: 3 })
    );
    assert_eq!(map, before);
    assert_eq!(
        TileMap::empty().try_get_mut(&at(0, 0)),
        Err(GameError::OutOfBoundsAccess { coords: at(0, 0), map_size: 0 })
    );
}

#[test]
fn maps_that_the_game_makes_are_well_formed() {
    assert!(TileMap::empty().is_wf());
    assert!(three_rows().is_wf());
    let mut level = Level::starting();
    let mut map = TileMap::generate(&mut level, &mut StdRng::seed_from_u64(8)).unwrap();
    assert!(map.is_wf());
    map.set_district(&level, &at(3, 3), Some(1)).unwrap();
    assert!(map.is_wf());
}

#[test]
fn a_map_spoilt_by_hand_is_not_well_formed() {
    let mut map = three_rows();
    map.get_mut(&at(1, 1)).coords = at(1, 2);
    assert!(!map.is_wf());
    let mut map = three_rows();
    map.get_mut(&at(0, 2)).coords = at(1, 2);
    assert!(!map.is_wf());
    // the count of populated tiles is kept, and no longer right
    let mut map = three_rows();
    map.get_mut(&at(1, 1)).content = E;
    assert!(!map.is_wf());
    let mut map = TileMap::from_contents(&vec![vec![E, G], vec![B, E]]).unwrap();
    map.get_mut(&at(0, 0)).content = B;
    assert!(!map.is_wf());
    // a tile that changes sides leaves the count as it is
    map.get_mut(&at(0, 1)).content = E;
    assert!(map.is_wf());
}
