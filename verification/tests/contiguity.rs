use redistricting::contiguity::{are_contiguous, contains_tile};
use redistricting::tile::MapTile;

fn tiles_at(positions: &[(usize, usize)]) -> Vec<MapTile> {
    positions.iter().map(|&(x, y)| MapTile::new_good(x, y)).collect()
}

fn contiguous_at(positions: &[(usize, usize)]) -> bool {
    let tiles = tiles_at(positions);
    let refs: Vec<&MapTile> = tiles.iter().collect();
    are_contiguous(&refs)
}

#[test]
fn no_tiles_are_not_contiguous() {
    assert!(!contiguous_at(&[]));
}

#[test]
fn a_single_tile_is_contiguous() {
    assert!(contiguous_at(&[(0, 0)]));
    assert!(contiguous_at(&[(17, 3)]));
}

#[test]
fn two_adjacent_tiles_are_contiguous() {
    assert!(contiguous_at(&[(2, 2), (2, 3)]));
    assert!(contiguous_at(&[(3, 2), (2, 2)]));
}

#[test]
fn two_distant_tiles_are_not_contiguous() {
    assert!(!contiguous_at(&[(0, 0), (2, 0)]));
    assert!(!contiguous_at(&[(0, 0), (0, 2)]));
    assert!(!contiguous_at(&[(0, 0), (1, 1)]));
    assert!(!contiguous_at(&[(5, 5), (0, 9)]));
}

#[test]
fn two_distant_tiles_with_a_tile_between_are_contiguous() {
    assert!(contiguous_at(&[(0, 0), (2, 0), (1, 0)]));
}

#[test]
fn an_l_shape_is_contiguous() {
    assert!(contiguous_at(&[(0, 0), (0, 1), (0, 2), (1, 2), (2, 2)]));
}

#[test]
fn a_plus_shape_is_contiguous() {
    assert!(contiguous_at(&[(1, 0), (0, 1), (1, 1), (2, 1), (1, 2)]));
}

#[test]
fn a_ring_is_contiguous() {
    assert!(contiguous_at(&[
        (0, 0),
        (1, 0),
        (2, 0),
        (2, 1),
        (2, 2),
        (1, 2),
        (0, 2),
        (0, 1)
    ]));
}

#[test]
fn two_islands_are_not_contiguous() {
    assert!(!contiguous_at(&[(0, 0), (1, 0), (0, 1), (4, 4), (5, 4), (4, 5)]));
    assert!(!contiguous_at(&[(0, 0), (1, 0), (3, 0), (4, 0)]));
}

#[test]
fn the_order_of_the_tiles_does_not_matter() {
    assert!(contiguous_at(&[(2, 2), (0, 0), (1, 2), (0, 1), (0, 2)]));
    assert!(!contiguous_at(&[(4, 4), (0, 0), (1, 0)]));
    assert!(!contiguous_at(&[(0, 0), (4, 4), (1, 0)]));
}

#[test]
fn a_tile_given_twice_counts_once() {
    assert!(contiguous_at(&[(3, 3), (3, 3)]));
    assert!(contiguous_at(&[(3, 3), (3, 4), (3, 3)]));
    assert!(!contiguous_at(&[(3, 3), (3, 3), (5, 5)]));
}

#[test]
fn tiles_at_one_position_are_joined_only_through_a_neighbour() {
    let good = MapTile::new_good(0, 0);
    let bad = MapTile::new_bad(0, 0);
    let beside = MapTile::new_good(1, 0);
    assert!(!are_contiguous(&[&good, &bad]));
    assert!(are_contiguous(&[&good, &bad, &beside]));
}

#[test]
fn find_adjacent_tiles_keeps_the_neighbours_in_order() {
    let tiles = tiles_at(&[(1, 0), (5, 5), (0, 1), (1, 1), (2, 1), (1, 2), (2, 2)]);
    let refs: Vec<&MapTile> = tiles.iter().collect();
    let centre = MapTile::new_bad(1, 1);
    let found = centre.find_adjacent_tiles(&refs);
    let positions: Vec<(usize, usize)> = found.iter().map(|t| (t.coords.x, t.coords.y)).collect();
    assert_eq!(positions, vec![(1, 0), (0, 1), (2, 1), (1, 2)]);
}

#[test]
fn find_adjacent_tiles_of_a_lonely_tile_is_empty() {
    let tiles = tiles_at(&[(0, 0), (9, 9)]);
    let refs: Vec<&MapTile> = tiles.iter().collect();
    assert!(MapTile::new_good(4, 4).find_adjacent_tiles(&refs).is_empty());
    assert!(MapTile::new_good(4, 4).find_adjacent_tiles(&[]).is_empty());
}

#[test]
fn find_contiguous_tiles_reaches_its_own_island_only() {
    let tiles = tiles_at(&[(0, 0), (1, 0), (1, 1), (5, 5), (5, 6)]);
    let refs: Vec<&MapTile> = tiles.iter().collect();
    let found = tiles[0].find_contiguous_tiles(&refs, Vec::new());
    assert_eq!(found.len(), 3);
    assert!(contains_tile(&found, &tiles[0]));
    assert!(contains_tile(&found, &tiles[1]));
    assert!(contains_tile(&found, &tiles[2]));
    assert!(!contains_tile(&found, &tiles[3]));
    assert!(!contains_tile(&found, &tiles[4]));
    let other = tiles[4].find_contiguous_tiles(&refs, Vec::new());
    assert_eq!(other.len(), 2);
    assert!(contains_tile(&other, &tiles[3]));
    assert!(contains_tile(&other, &tiles[4]));
}

#[test]
fn find_contiguous_tiles_does_not_step_on_checked_tiles() {
    // a row of five; the middle one was checked before
    let tiles = tiles_at(&[(0, 0), (1, 0), (2, 0), (3, 0), (4, 0)]);
    let refs: Vec<&MapTile> = tiles.iter().collect();
    let found = tiles[0].find_contiguous_tiles(&refs, vec![&tiles[2]]);
    assert_eq!(found.len(), 3);
    assert!(found[0].same_as(&tiles[2]));
    assert!(contains_tile(&found, &tiles[0]));
    assert!(contains_tile(&found, &tiles[1]));
    assert!(!contains_tile(&found, &tiles[3]));
    assert!(!contains_tile(&found, &tiles[4]));
}

#[test]
fn find_contiguous_tiles_from_a_checked_tile_adds_nothing() {
    let tiles = tiles_at(&[(0, 0), (1, 0), (2, 0)]);
    let refs: Vec<&MapTile> = tiles.iter().collect();
    let found = tiles[1].find_contiguous_tiles(&refs, vec![&tiles[1]]);
    assert_eq!(found.len(), 1);
    assert!(found[0].same_as(&tiles[1]));
}

#[test]
fn find_contiguous_tiles_starts_from_a_tile_outside_the_others() {
    let tiles = tiles_at(&[(1, 0), (2, 0), (7, 7)]);
    let refs: Vec<&MapTile> = tiles.iter().collect();
    let start = MapTile::new_bad(0, 0);
    let found = start.find_contiguous_tiles(&refs, Vec::new());
    assert_eq!(found.len(), 3);
    assert!(found[0].same_as(&start));
    assert!(contains_tile(&found, &tiles[0]));
    assert!(contains_tile(&found, &tiles[1]));
    assert!(!contains_tile(&found, &tiles[2]));
}

#[test]
fn find_contiguous_tiles_adds_each_tile_once() {
    let tiles = tiles_at(&[(1, 0), (0, 0), (1, 0), (1, 1), (0, 0), (1, 1)]);
    let refs: Vec<&MapTile> = tiles.iter().collect();
    let checked = MapTile::new_bad(9, 9);
    let found = tiles[1].find_contiguous_tiles(&refs, vec![&checked, &checked]);
    assert_eq!(found.len(), 5);
    assert!(found[0].same_as(&checked));
    assert!(found[1].same_as(&checked));
    for i in 2..5 {
        for j in 0..i {
            assert!(!found[i].same_as(found[j]));
        }
    }
    assert!(contains_tile(&found, &MapTile::new_good(0, 0)));
    assert!(contains_tile(&found, &MapTile::new_good(1, 0)));
    assert!(contains_tile(&found, &MapTile::new_good(1, 1)));
}

#[test]
fn contains_tile_goes_by_value() {
    let tiles = tiles_at(&[(0, 0), (1, 0)]);
    let refs: Vec<&MapTile> = tiles.iter().collect();
    assert!(contains_tile(&refs, &MapTile::new_good(1, 0)));
    assert!(!contains_tile(&refs, &MapTile::new_bad(1, 0)));
    assert!(!contains_tile(&refs, &MapTile::new_good(1, 1)));
    assert!(!contains_tile(&Vec::new(), &MapTile::new_good(0, 0)));
}

#[test]
fn a_large_block_is_contiguous() {
    let mut positions = Vec::new();
    for y in 0..20 {
        for x in 0..20 {
            positions.push((x, y));
        }
    }
    assert!(contiguous_at(&positions));
    positions.retain(|&(x, _)| x != 10);
    assert!(!contiguous_at(&positions));
}
