//! Contiguity of a set of tiles: whether every tile can be walked to from every
//! other in single orthogonal steps without leaving the set.

use crate::tile::{adjacent, Coordinates, MapTile};
use vstd::prelude::*;

verus! {

/// The tiles that a sequence of tile references points at, in the same order.
pub open spec fn tile_values(tiles: Seq<&MapTile>) -> Seq<MapTile> {
    tiles.map_values(|t: &MapTile| *t)
}

/// The tiles that a sequence of references to tile references points at.
pub open spec fn tile_values_twice(tiles: Seq<&&MapTile>) -> Seq<MapTile> {
    tiles.map_values(|t: &&MapTile| **t)
}

/// The set of tiles that occur in a sequence of tile references.
pub open spec fn tile_set(tiles: Seq<&MapTile>) -> Set<MapTile> {
    Set::new(|t: MapTile| exists|i: int| 0 <= i < tiles.len() && *#[trigger] tiles[i] == t)
}

/// A walk through `region`: a non-empty sequence of tiles of the region in
/// which each tile is adjacent to the one before it.
pub open spec fn is_walk(walk: Seq<MapTile>, region: Set<MapTile>) -> bool {
    &&& walk.len() > 0
    &&& forall|i: int| 0 <= i < walk.len() ==> region.contains(#[trigger] walk[i])
    &&& forall|i: int, j: int|
        0 <= i && j == i + 1 && j < walk.len() ==> adjacent(
            (#[trigger] walk[i]).coords,
            (#[trigger] walk[j]).coords,
        )
}

/// Whether a walk through `region` leads from `from` to `to`.
pub open spec fn connected(region: Set<MapTile>, from: MapTile, to: MapTile) -> bool {
    exists|walk: Seq<MapTile>|
        #[trigger] is_walk(walk, region) && walk[0] == from && walk.last() == to
}

/// The tiles of `region` that a walk through it reaches from `from`.
pub open spec fn reachable(region: Set<MapTile>, from: MapTile) -> Set<MapTile> {
    Set::new(|t: MapTile| connected(region, from, t))
}

/// A region is contiguous when it holds a tile and a walk through it leads from
/// each of its tiles to each other.
pub open spec fn contiguous(region: Set<MapTile>) -> bool {
    &&& exists|t: MapTile| region.contains(t)
    &&& forall|a: MapTile, b: MapTile|
        region.contains(a) && region.contains(b) ==> #[trigger] connected(region, a, b)
}

/// A walk read backwards is a walk.
proof fn lemma_walk_reverse(walk: Seq<MapTile>, region: Set<MapTile>)
    requires
        is_walk(walk, region),
    ensures
        is_walk(walk.reverse(), region),
        walk.reverse()[0] == walk.last(),
        walk.reverse().last() == walk[0],
{
    let back = walk.reverse();
    assert forall|i: int, j: int| 0 <= i && j == i + 1 && j < back.len() implies adjacent(
        (#[trigger] back[i]).coords,
        (#[trigger] back[j]).coords,
    ) by {
        let a = walk.len() - 1 - j;
        let b = walk.len() - 1 - i;
        assert(adjacent(walk[a].coords, walk[b].coords));
    }
}

/// Two walks of which the second starts where the first ends join into one.
proof fn lemma_walk_join(first: Seq<MapTile>, second: Seq<MapTile>, region: Set<MapTile>)
    requires
        is_walk(first, region),
        is_walk(second, region),
        first.last() == second[0],
    ensures
        is_walk(first.drop_last() + second, region),
        (first.drop_last() + second)[0] == first[0],
        (first.drop_last() + second).last() == second.last(),
{
    let head = first.drop_last();
    let joined = head + second;
    assert forall|i: int, j: int| 0 <= i && j == i + 1 && j < joined.len() implies adjacent(
        (#[trigger] joined[i]).coords,
        (#[trigger] joined[j]).coords,
    ) by {
        if j < head.len() {
            assert(adjacent(first[i].coords, first[j].coords));
        } else if i < head.len() {
            assert(joined[j] == second[0]);
            assert(adjacent(first[i].coords, first[i + 1].coords));
        } else {
            assert(adjacent(second[i - head.len()].coords, second[j - head.len()].coords));
        }
    }
}

/// A walk with one more adjacent tile of the region at its end is a walk.
proof fn lemma_walk_extend(walk: Seq<MapTile>, region: Set<MapTile>, next: MapTile)
    requires
        is_walk(walk, region),
        region.contains(next),
        adjacent(walk.last().coords, next.coords),
    ensures
        is_walk(walk.push(next), region),
{
    let longer = walk.push(next);
    assert forall|i: int, j: int| 0 <= i && j == i + 1 && j < longer.len() implies adjacent(
        (#[trigger] longer[i]).coords,
        (#[trigger] longer[j]).coords,
    ) by {
        if j < walk.len() {
            assert(adjacent(walk[i].coords, walk[j].coords));
        }
    }
}

/// Being connected is symmetric.
pub proof fn lemma_connected_symmetric(region: Set<MapTile>, a: MapTile, b: MapTile)
    requires
        connected(region, a, b),
    ensures
        connected(region, b, a),
{
    let walk = choose|walk: Seq<MapTile>|
        #[trigger] is_walk(walk, region) && walk[0] == a && walk.last() == b;
    lemma_walk_reverse(walk, region);
    assert(is_walk(walk.reverse(), region));
}

/// Being connected is transitive.
pub proof fn lemma_connected_transitive(region: Set<MapTile>, a: MapTile, b: MapTile, c: MapTile)
    requires
        connected(region, a, b),
        connected(region, b, c),
    ensures
        connected(region, a, c),
{
    let first = choose|walk: Seq<MapTile>|
        #[trigger] is_walk(walk, region) && walk[0] == a && walk.last() == b;
    let second = choose|walk: Seq<MapTile>|
        #[trigger] is_walk(walk, region) && walk[0] == b && walk.last() == c;
    lemma_walk_join(first, second, region);
    assert(is_walk(first.drop_last() + second, region));
}

/// A walk that starts inside a part of the region which no step of the region
/// leads out of stays inside that part.
proof fn lemma_walk_stays_enclosed(
    walk: Seq<MapTile>,
    region: Set<MapTile>,
    part: Set<MapTile>,
    i: int,
)
    requires
        is_walk(walk, region),
        part.contains(walk[0]),
        forall|a: MapTile, b: MapTile|
            part.contains(a) && region.contains(b) && adjacent(a.coords, b.coords)
                ==> part.contains(b),
        0 <= i < walk.len(),
    ensures
        part.contains(walk[i]),
    decreases i,
{
    if i > 0 {
        lemma_walk_stays_enclosed(walk, region, part, i - 1);
        assert(adjacent(walk[i - 1].coords, walk[i].coords));
    }
}

/// A single tile is contiguous.
pub proof fn lemma_single_tile_contiguous(tile: MapTile)
    ensures
        contiguous(Set::<MapTile>::empty().insert(tile)),
{
    let region = Set::<MapTile>::empty().insert(tile);
    assert(region.contains(tile));
    assert(is_walk(seq![tile], region));
    assert(seq![tile][0] == tile);
}

/// No tiles are not contiguous.
pub proof fn lemma_no_tiles_not_contiguous()
    ensures
        !contiguous(Set::<MapTile>::empty()),
{
}

/// Two sets of tiles, with a tile in the first and a tile in the second that
/// is not in the first, are not contiguous together if no tile of the one is
/// adjacent to a tile of the other.
pub proof fn lemma_islands_not_contiguous(first: Set<MapTile>, second: Set<MapTile>)
    requires
        exists|a: MapTile| first.contains(a),
        exists|b: MapTile| second.contains(b) && !first.contains(b),
        forall|a: MapTile, b: MapTile|
            first.contains(a) && second.contains(b) ==> !adjacent(a.coords, b.coords),
    ensures
        !contiguous(first.union(second)),
{
    let region = first.union(second);
    let a = choose|a: MapTile| first.contains(a);
    let b = choose|b: MapTile| second.contains(b) && !first.contains(b);
    if connected(region, a, b) {
        let walk = choose|walk: Seq<MapTile>|
            #[trigger] is_walk(walk, region) && walk[0] == a && walk.last() == b;
        lemma_walk_stays_enclosed(walk, region, first, walk.len() - 1);
    }
    assert(region.contains(a) && region.contains(b));
}

/// The number of single steps between two positions.
pub open spec fn manhattan_distance(a: Coordinates, b: Coordinates) -> int {
    (if a.x >= b.x {
        a.x - b.x
    } else {
        b.x - a.x
    }) + (if a.y >= b.y {
        a.y - b.y
    } else {
        b.y - a.y
    })
}

/// Two tiles that lie more than a step apart are not contiguous by
/// themselves.
pub proof fn lemma_distant_pair_not_contiguous(a: MapTile, b: MapTile)
    requires
        manhattan_distance(a.coords, b.coords) > 1,
    ensures
        !contiguous(Set::<MapTile>::empty().insert(a).insert(b)),
{
    let first = Set::<MapTile>::empty().insert(a);
    let second = Set::<MapTile>::empty().insert(b);
    assert(first.contains(a));
    assert(second.contains(b) && !first.contains(b));
    lemma_islands_not_contiguous(first, second);
    assert(first.union(second) =~= Set::<MapTile>::empty().insert(a).insert(b));
}

/// Adding a reference to a sequence adds its tile to the set.
proof fn lemma_tile_set_push(tiles: Seq<&MapTile>, tile: &MapTile)
    ensures
        tile_set(tiles.push(tile)) == tile_set(tiles).insert(*tile),
{
    let longer = tiles.push(tile);
    assert forall|t: MapTile| tile_set(tiles).insert(*tile).contains(t) implies tile_set(
        longer,
    ).contains(t) by {
        if t == *tile {
            assert(*longer[tiles.len() as int] == t);
        } else {
            let i = choose|i: int| 0 <= i < tiles.len() && *#[trigger] tiles[i] == t;
            assert(*longer[i] == t);
        }
    }
    assert forall|t: MapTile| tile_set(longer).contains(t) implies tile_set(tiles).insert(
        *tile,
    ).contains(t) by {
        let i = choose|i: int| 0 <= i < longer.len() && *#[trigger] longer[i] == t;
        if i < tiles.len() {
            assert(*tiles[i] == t);
        }
    }
    assert(tile_set(longer) =~= tile_set(tiles).insert(*tile));
}

/// The set of a non-empty sequence is that of all but its last reference,
/// with the last one's tile added.
proof fn lemma_tile_set_drop_last(tiles: Seq<&MapTile>)
    requires
        tiles.len() > 0,
    ensures
        tile_set(tiles) == tile_set(tiles.drop_last()).insert(*tiles.last()),
{
    lemma_tile_set_push(tiles.drop_last(), tiles.last());
    assert(tiles.drop_last().push(tiles.last()) =~= tiles);
}

/// How many of the references in `tiles` point at a tile outside `found`.
spec fn missing(tiles: Seq<&MapTile>, found: Set<MapTile>) -> nat
    decreases tiles.len(),
{
    if tiles.len() == 0 {
        0
    } else {
        missing(tiles.drop_last(), found) + if found.contains(*tiles.last()) {
            0nat
        } else {
            1nat
        }
    }
}

/// Finding one more tile leaves no more tiles missing than before, and fewer
/// if the tile occurs in `tiles` and was missing.
proof fn lemma_missing_insert(tiles: Seq<&MapTile>, found: Set<MapTile>, tile: MapTile)
    ensures
        missing(tiles, found.insert(tile)) <= missing(tiles, found),
        tile_set(tiles).contains(tile) && !found.contains(tile) ==> missing(
            tiles,
            found.insert(tile),
        ) < missing(tiles, found),
    decreases tiles.len(),
{
    if tiles.len() > 0 {
        let rest = tiles.drop_last();
        lemma_missing_insert(rest, found, tile);
        if tile_set(tiles).contains(tile) && !found.contains(tile) && *tiles.last() != tile {
            let i = choose|i: int| 0 <= i < tiles.len() && *#[trigger] tiles[i] == tile;
            assert(*rest[i] == tile);
        }
    }
}

/// Whether every tile of `tiles` that is adjacent to `tile` is in `found`.
spec fn neighbours_found(tile: MapTile, tiles: Seq<&MapTile>, found: Set<MapTile>) -> bool {
    forall|j: int|
        0 <= j < tiles.len() && adjacent((#[trigger] tiles[j]).coords, tile.coords)
            ==> found.contains(*tiles[j])
}

/// Whether a tile equal to `tile` occurs in `tiles`.
pub fn contains_tile(tiles: &Vec<&MapTile>, tile: &MapTile) -> (b: bool)
    ensures
        b == tile_set(tiles@).contains(*tile),
{
    let mut i: usize = 0;
    while i < tiles.len()
        invariant
            i <= tiles.len(),
            forall|k: int| 0 <= k < i ==> *tiles@[k] != *tile,
        decreases tiles.len() - i,
    {
        if tiles[i].same_as(tile) {
            return true;
        }
        i += 1;
    }
    false
}

impl MapTile {
    /// The tiles among `tiles` that are orthogonally adjacent to this one, in
    /// the order in which `tiles` holds them.
    pub fn find_adjacent_tiles<'a>(&self, tiles: &'a [&'a MapTile]) -> (found: Vec<&'a &'a MapTile>)
        ensures
            tile_values_twice(found@) == tile_values(tiles@).filter(
                |t: MapTile| adjacent(t.coords, self.coords),
            ),
    {
        let ghost pred = |t: MapTile| adjacent(t.coords, self.coords);
        let mut found: Vec<&'a &'a MapTile> = Vec::new();
        let mut i: usize = 0;
        proof {
            reveal(Seq::filter);
            assert(tile_values(tiles@.take(0)) =~= Seq::<MapTile>::empty());
            assert(tile_values_twice(found@) =~= Seq::<MapTile>::empty());
        }
        while i < tiles.len()
            invariant
                i <= tiles.len(),
                pred == |t: MapTile| adjacent(t.coords, self.coords),
                tile_values_twice(found@) == tile_values(tiles@.take(i as int)).filter(pred),
            decreases tiles.len() - i,
        {
            let tile: &'a &'a MapTile = &tiles[i];
            let ghost before = tile_values(tiles@.take(i as int));
            proof {
                assert(tile_values(tiles@.take(i + 1)) =~= before.push(**tile));
                before.lemma_filter_push(**tile, pred);
            }
            if tile.adjacent_to(self) {
                proof {
                    assert(tile_values_twice(found@.push(tile)) =~= tile_values_twice(found@).push(
                        **tile,
                    ));
                }
                found.push(tile);
            }
            i += 1;
        }
        proof {
            assert(tiles@.take(tiles.len() as int) =~= tiles@);
        }
        found
    }

    /// Adds to `checked_tiles` every tile that can be walked to from this one
    /// through this tile and `tiles`, without stepping on a tile that was
    /// checked before. A tile that was itself checked before adds nothing.
    ///
    /// The tiles checked before come first in the result, in their order;
    /// each tile that was added comes once, and was not checked before.
    pub fn find_contiguous_tiles<'a>(
        &'a self,
        tiles: &'a [&'a MapTile],
        checked_tiles: Vec<&'a MapTile>,
    ) -> (found: Vec<&'a MapTile>)
        ensures
            found@.len() >= checked_tiles@.len(),
            found@.subrange(0, checked_tiles@.len() as int) == checked_tiles@,
            forall|i: int, j: int|
                0 <= i < j < found@.len() && checked_tiles@.len() <= j ==> *found@[i] != *found@[j],
            tile_set(found@) == tile_set(checked_tiles@).union(
                reachable(
                    tile_set(tiles@).insert(*self).difference(tile_set(checked_tiles@)),
                    *self,
                ),
            ),
    {
        let ghost start = checked_tiles@;
        let ghost checked = tile_set(start);
        let ghost region = tile_set(tiles@).insert(*self).difference(checked);
        let mut found = checked_tiles;
        if contains_tile(&found, self) {
            proof {
                assert(found@.subrange(0, start.len() as int) =~= start);
                assert forall|t: MapTile| !connected(region, *self, t) by {
                    if connected(region, *self, t) {
                        let walk = choose|walk: Seq<MapTile>|
                            #[trigger] is_walk(walk, region) && walk[0] == *self && walk.last()
                                == t;
                        assert(region.contains(walk[0]));
                    }
                }
                assert(checked.union(reachable(region, *self)) =~= checked);
            }
            return found;
        }
        let ghost mut seen = checked.insert(*self);
        let ghost mut waiting = Set::<MapTile>::empty().insert(*self);
        proof {
            lemma_tile_set_push(found@, self);
            lemma_tile_set_push(Seq::<&MapTile>::empty(), self);
            assert(tile_set(Seq::<&MapTile>::empty()) =~= Set::<MapTile>::empty());
            assert(is_walk(seq![*self], region));
            assert(seq![*self][0] == *self);
        }
        found.push(self);
        let mut pending: Vec<&'a MapTile> = Vec::new();
        pending.push(self);
        proof {
            assert(found@.subrange(0, start.len() as int) =~= start);
        }
        while pending.len() > 0
            invariant
                found@.len() >= start.len(),
                found@.subrange(0, start.len() as int) == start,
                forall|i: int, j: int|
                    0 <= i < j < found@.len() && start.len() <= j ==> *found@[i] != *found@[j],
                checked == tile_set(start),
                region == tile_set(tiles@).insert(*self).difference(checked),
                seen == tile_set(found@),
                waiting == tile_set(pending@),
                seen.contains(*self),
                !checked.contains(*self),
                forall|t: MapTile| checked.contains(t) ==> seen.contains(t),
                forall|t: MapTile|
                    seen.contains(t) && !checked.contains(t) ==> #[trigger] connected(
                        region,
                        *self,
                        t,
                    ),
                forall|t: MapTile| #[trigger]
                    waiting.contains(t) ==> seen.contains(t) && !checked.contains(t),
                forall|t: MapTile|
                    seen.contains(t) && !checked.contains(t) ==> waiting.contains(t)
                        || #[trigger] neighbours_found(t, tiles@, seen),
            decreases missing(tiles@, seen) + pending.len(),
        {
            proof {
                lemma_tile_set_drop_last(pending@);
            }
            let ghost measure = missing(tiles@, seen) + pending.len() - 1;
            let ghost before = pending@;
            let current: &'a MapTile = pending.pop().unwrap();
            proof {
                assert(pending@ =~= before.drop_last());
                assert(waiting.contains(*current));
                assert(connected(region, *self, *current));
                assert forall|t: MapTile| #[trigger]
                    tile_set(pending@).contains(t) implies seen.contains(t) && !checked.contains(
                    t,
                ) by {
                    assert(tile_set(pending@).insert(*current).contains(t));
                    assert(waiting.contains(t));
                }
                waiting = tile_set(pending@);
            }
            let neighbours = current.find_adjacent_tiles(tiles);
            let ghost beside = |t: MapTile| adjacent(t.coords, current.coords);
            let mut k: usize = 0;
            while k < neighbours.len()
                invariant
                    k <= neighbours.len(),
                    found@.len() >= start.len(),
                    found@.subrange(0, start.len() as int) == start,
                    forall|i: int, j: int|
                        0 <= i < j < found@.len() && start.len() <= j ==> *found@[i] != *found@[j],
                    checked == tile_set(start),
                    region == tile_set(tiles@).insert(*self).difference(checked),
                    seen == tile_set(found@),
                    waiting == tile_set(pending@),
                    seen.contains(*self),
                    !checked.contains(*self),
                    seen.contains(*current),
                    !checked.contains(*current),
                    connected(region, *self, *current),
                    beside == |t: MapTile| adjacent(t.coords, current.coords),
                    tile_values_twice(neighbours@) == tile_values(tiles@).filter(beside),
                    forall|t: MapTile| checked.contains(t) ==> seen.contains(t),
                    forall|t: MapTile|
                        seen.contains(t) && !checked.contains(t) ==> #[trigger] connected(
                            region,
                            *self,
                            t,
                        ),
                    forall|t: MapTile| #[trigger]
                        waiting.contains(t) ==> seen.contains(t) && !checked.contains(t),
                    forall|t: MapTile|
                        seen.contains(t) && !checked.contains(t) ==> waiting.contains(t) || t
                            == *current || #[trigger] neighbours_found(t, tiles@, seen),
                    forall|m: int| 0 <= m < k ==> seen.contains(**#[trigger] neighbours@[m]),
                    missing(tiles@, seen) + pending.len() <= measure,
                decreases neighbours.len() - k,
            {
                let tile: &'a MapTile = *neighbours[k];
                if !contains_tile(&found, tile) {
                    proof {
                        let beside_tiles = tile_values(tiles@).filter(beside);
                        assert(beside_tiles[k as int] == *tile);
                        tile_values(tiles@).lemma_filter_pred(beside, k as int);
                        assert(beside_tiles.contains(*tile));
                        tile_values(tiles@).lemma_filter_contains_rev(beside, *tile);
                        let j = choose|j: int|
                            0 <= j < tile_values(tiles@).len() && tile_values(tiles@)[j] == *tile;
                        assert(*tiles@[j] == *tile);
                        assert(tile_set(tiles@).contains(*tile));
                        assert(region.contains(*tile));
                        let walk = choose|walk: Seq<MapTile>|
                            #[trigger] is_walk(walk, region) && walk[0] == *self && walk.last()
                                == *current;
                        lemma_walk_extend(walk, region, *tile);
                        assert(is_walk(walk.push(*tile), region));
                        assert(walk.push(*tile)[0] == *self);
                        assert(connected(region, *self, *tile));
                        lemma_missing_insert(tiles@, seen, *tile);
                        lemma_tile_set_push(found@, tile);
                        lemma_tile_set_push(pending@, tile);
                        assert(found@.push(tile).subrange(0, start.len() as int) =~= start);
                        assert forall|t: MapTile|
                            seen.contains(t) && !checked.contains(t) && !waiting.contains(t) && t
                                != *current implies #[trigger] neighbours_found(
                            t,
                            tiles@,
                            seen.insert(*tile),
                        ) by {
                            assert(neighbours_found(t, tiles@, seen));
                        }
                        seen = seen.insert(*tile);
                        waiting = waiting.insert(*tile);
                    }
                    found.push(tile);
                    pending.push(tile);
                }
                k += 1;
            }
            proof {
                assert forall|j: int|
                    0 <= j < tiles@.len() && adjacent(
                        (#[trigger] tiles@[j]).coords,
                        current.coords,
                    ) implies seen.contains(*tiles@[j]) by {
                    let all = tile_values(tiles@);
                    assert(all[j] == *tiles@[j]);
                    all.lemma_filter_contains(beside, j);
                    let m = choose|m: int|
                        0 <= m < all.filter(beside).len() && all.filter(beside)[m] == all[j];
                    assert(**neighbours@[m] == all[j]);
                }
                assert(neighbours_found(*current, tiles@, seen));
            }
        }
        proof {
            let part = seen.difference(checked);
            assert(tile_set(pending@) =~= Set::<MapTile>::empty());
            assert forall|a: MapTile, b: MapTile|
                part.contains(a) && region.contains(b) && adjacent(
                    a.coords,
                    b.coords,
                ) implies part.contains(b) by {
                assert(neighbours_found(a, tiles@, seen));
                if b != *self {
                    let j = choose|j: int| 0 <= j < tiles@.len() && *#[trigger] tiles@[j] == b;
                    assert(seen.contains(*tiles@[j]));
                }
            }
            assert forall|t: MapTile| connected(region, *self, t) implies seen.contains(t) by {
                let walk = choose|walk: Seq<MapTile>|
                    #[trigger] is_walk(walk, region) && walk[0] == *self && walk.last() == t;
                lemma_walk_stays_enclosed(walk, region, part, walk.len() - 1);
            }
            assert(seen =~= checked.union(reachable(region, *self)));
        }
        found
    }
}

/// Whether the tiles form one contiguous region. No tiles form none.
pub fn are_contiguous(tiles: &[&MapTile]) -> (b: bool)
    ensures
        b == contiguous(tile_set(tiles@)),
{
    if tiles.len() == 0 {
        return false;
    }
    let first: &MapTile = tiles[0];
    let found = first.find_contiguous_tiles(tiles, Vec::new());
    let ghost region = tile_set(tiles@);
    proof {
        assert(tile_set(Seq::<&MapTile>::empty()) =~= Set::<MapTile>::empty());
        assert(region.contains(*tiles@[0]));
        assert(region.insert(*first).difference(Set::<MapTile>::empty()) =~= region);
        assert(tile_set(found@) =~= reachable(region, *first));
    }
    let mut i: usize = 0;
    while i < tiles.len()
        invariant
            i <= tiles.len(),
            region == tile_set(tiles@),
            tile_set(found@) == reachable(region, *first),
            region.contains(*first),
            forall|k: int| 0 <= k < i ==> connected(region, *first, *#[trigger] tiles@[k]),
        decreases tiles.len() - i,
    {
        if !contains_tile(&found, tiles[i]) {
            proof {
                assert(region.contains(*tiles@[i as int]));
                assert(!connected(region, *first, *tiles@[i as int]));
            }
            return false;
        }
        i += 1;
    }
    proof {
        assert forall|a: MapTile, b: MapTile|
            region.contains(a) && region.contains(b) implies #[trigger] connected(
            region,
            a,
            b,
        ) by {
            let ia = choose|i: int| 0 <= i < tiles@.len() && *#[trigger] tiles@[i] == a;
            let ib = choose|i: int| 0 <= i < tiles@.len() && *#[trigger] tiles@[i] == b;
            assert(connected(region, *first, *tiles@[ia]));
            assert(connected(region, *first, *tiles@[ib]));
            lemma_connected_symmetric(region, *first, a);
            lemma_connected_transitive(region, a, *first, b);
        }
    }
    true
}

} // verus!
