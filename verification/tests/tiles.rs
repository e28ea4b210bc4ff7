use redistricting::tile::{Coordinates, MapTile, MapTileContent};

fn tile(x: usize, y: usize) -> MapTile {
    MapTile::new_good(x, y)
}

#[test]
fn new_good_has_no_district() {
    let tile = MapTile::new_good(2, 3);
    assert_eq!(tile.coords, Coordinates { x: 2, y: 3 });
    assert_eq!(tile.content, MapTileContent::Good);
    assert_eq!(tile.district_id, None);
}

#[test]
fn new_bad_and_new_empty_differ_in_content_only() {
    let bad = MapTile::new_bad(4, 0);
    let empty = MapTile::new_empty(4, 0);
    assert_eq!(bad.content, MapTileContent::Bad);
    assert_eq!(empty.content, MapTileContent::Empty);
    assert_eq!(bad.coords, empty.coords);
    assert_eq!(bad.district_id, None);
    assert_eq!(empty.district_id, None);
}

#[test]
fn with_content_keeps_what_it_is_given() {
    let made = MapTile::with_content(Coordinates { x: 7, y: 9 }, MapTileContent::Bad);
    assert_eq!(
        made,
        MapTile { coords: Coordinates { x: 7, y: 9 }, content: MapTileContent::Bad, district_id: None }
    );
}

#[test]
fn adjacent_along_one_axis_by_one_step() {
    let centre = tile(5, 5);
    assert!(centre.adjacent_to(&tile(4, 5)));
    assert!(centre.adjacent_to(&tile(6, 5)));
    assert!(centre.adjacent_to(&tile(5, 4)));
    assert!(centre.adjacent_to(&tile(5, 6)));
}

#[test]
fn not_adjacent_to_itself_diagonals_or_distant_tiles() {
    let centre = tile(5, 5);
    assert!(!centre.adjacent_to(&tile(5, 5)));
    assert!(!centre.adjacent_to(&tile(4, 4)));
    assert!(!centre.adjacent_to(&tile(6, 6)));
    assert!(!centre.adjacent_to(&tile(6, 4)));
    assert!(!centre.adjacent_to(&tile(7, 5)));
    assert!(!centre.adjacent_to(&tile(5, 3)));
}

#[test]
fn adjacency_does_not_wrap_at_the_edges() {
    assert!(!tile(0, 0).adjacent_to(&tile(usize::MAX, 0)));
    assert!(!tile(0, usize::MAX).adjacent_to(&tile(0, 0)));
    assert!(tile(usize::MAX, 3).adjacent_to(&tile(usize::MAX - 1, 3)));
    assert!(tile(0, 1).adjacent_to(&tile(0, 0)));
}

#[test]
fn adjacency_ignores_content_and_district() {
    let mut other = MapTile::new_empty(1, 0);
    other.district_id = Some(4);
    assert!(tile(0, 0).adjacent_to(&other));
    assert!(other.adjacent_to(&tile(0, 0)));
}

#[test]
fn same_as_compares_every_field() {
    let a = tile(1, 2);
    let mut b = tile(1, 2);
    assert!(a.same_as(&b));
    b.district_id = Some(0);
    assert!(!a.same_as(&b));
    assert!(!a.same_as(&MapTile::new_bad(1, 2)));
    assert!(!a.same_as(&tile(2, 1)));
    let mut c = tile(1, 2);
    c.district_id = Some(0);
    assert!(b.same_as(&c));
    c.district_id = Some(1);
    assert!(!b.same_as(&c));
}
