//! Solid tiles sorted by the level that owns them.
//!
//! Rectangles never reach across the border of a level: each level has a set
//! of solid tiles of its own, and its own rectangles.

use crate::grid::{GridCoord, OccupiedSet};
use crate::rects::Rect;
use crate::walls::{is_wall_rect, is_wall_rects, wall_rects};
use crate::plates::{is_run, occupied_at};
use std::collections::HashMap;
use vstd::prelude::*;

verus! {

broadcast use vstd::std_specs::hash::group_hash_axioms;

/// A solid tile and the level that owns it.
#[derive(Clone, Copy, Debug, PartialEq, Eq, Structural, Hash)]
pub struct WallTile {
    pub level: u64,
    pub coord: GridCoord,
}

/// Whether one of the first `n` tiles belongs to `level`.
pub open spec fn has_level(tiles: Seq<WallTile>, n: int, level: u64) -> bool {
    exists|i: int| 0 <= i < n && i < tiles.len() && (#[trigger] tiles[i]).level == level
}

/// The coordinates of those of the first `n` tiles that belong to `level`.
pub open spec fn tiles_of_level(tiles: Seq<WallTile>, n: int, level: u64) -> Set<(int, int)> {
    Set::new(
        |c: (int, int)|
            exists|i: int|
                0 <= i < n && i < tiles.len() && (#[trigger] tiles[i]).level == level
                    && tiles[i].coord.x == c.0 && tiles[i].coord.y == c.1,
    )
}

/// Whether `m` sorts the first `n` tiles by level: it has the levels that own
/// one of them, and for each level the coordinates of its tiles.
pub open spec fn sorts_tiles(m: Map<u64, Set<(int, int)>>, tiles: Seq<WallTile>, n: int) -> bool {
    &&& forall|level: u64| #[trigger] m.contains_key(level) <==> has_level(tiles, n, level)
    &&& forall|level: u64| #[trigger]
        m.contains_key(level) ==> m[level] == tiles_of_level(tiles, n, level)
}

/// The solid tiles of each level.
pub struct LevelWalls {
    levels: HashMap<u64, OccupiedSet>,
}

impl View for LevelWalls {
    type V = Map<u64, Set<(int, int)>>;

    /// From each level that has solid tiles to their coordinates.
    closed spec fn view(&self) -> Map<u64, Set<(int, int)>> {
        Map::new(|level: u64| self.levels@.contains_key(level), |level: u64| self.levels@[level]@)
    }
}

impl LevelWalls {
    /// No level has a solid tile.
    pub fn new() -> (walls: LevelWalls)
        ensures
            walls@ == Map::<u64, Set<(int, int)>>::empty(),
    {
        let walls = LevelWalls { levels: HashMap::new() };
        assert(walls@ =~= Map::<u64, Set<(int, int)>>::empty());
        walls
    }

    /// Marks the tile at `coord` of `level` as solid.
    pub fn insert(&mut self, level: u64, coord: GridCoord)
        ensures
            final(self)@ == old(self)@.insert(
                level,
                if old(self)@.contains_key(level) {
                    old(self)@[level].insert((coord.x as int, coord.y as int))
                } else {
                    Set::<(int, int)>::empty().insert((coord.x as int, coord.y as int))
                },
            ),
    {
        let mut set = match self.levels.remove(&level) {
            Some(set) => set,
            None => OccupiedSet::new(),
        };
        set.insert(coord);
        self.levels.insert(level, set);
        assert(final(self)@ =~= old(self)@.insert(
            level,
            if old(self)@.contains_key(level) {
                old(self)@[level].insert((coord.x as int, coord.y as int))
            } else {
                Set::<(int, int)>::empty().insert((coord.x as int, coord.y as int))
            },
        ));
    }

    /// The solid tiles of `level`, if it has any.
    pub fn get(&self, level: u64) -> (found: Option<&OccupiedSet>)
        ensures
            match found {
                Some(set) => self@.contains_key(level) && set@ == self@[level],
                None => !self@.contains_key(level),
            },
    {
        self.levels.get(&level)
    }

    /// Sorts the solid tiles by the level that owns them.
    pub fn classify(tiles: &Vec<WallTile>) -> (walls: LevelWalls)
        ensures
            sorts_tiles(walls@, tiles@, tiles@.len() as int),
    {
        let mut walls = LevelWalls::new();
        let mut i: usize = 0;
        while i < tiles.len()
            invariant
                i <= tiles@.len(),
                sorts_tiles(walls@, tiles@, i as int),
            decreases tiles.len() - i,
        {
            let tile = tiles[i];
            let ghost before = walls@;
            walls.insert(tile.level, tile.coord);
            proof {
                lemma_sorts_next(before, tiles@, i as int);
            }
            i += 1;
        }
        walls
    }
}

/// Sorting one tile more: its level gains its coordinates.
proof fn lemma_sorts_next(m: Map<u64, Set<(int, int)>>, tiles: Seq<WallTile>, n: int)
    requires
        0 <= n < tiles.len(),
        sorts_tiles(m, tiles, n),
    ensures
        sorts_tiles(
            m.insert(
                tiles[n].level,
                if m.contains_key(tiles[n].level) {
                    m[tiles[n].level].insert((tiles[n].coord.x as int, tiles[n].coord.y as int))
                } else {
                    Set::<(int, int)>::empty().insert(
                        (tiles[n].coord.x as int, tiles[n].coord.y as int),
                    )
                },
            ),
            tiles,
            n + 1,
        ),
{
    let t = tiles[n];
    let c = (t.coord.x as int, t.coord.y as int);
    let added = if m.contains_key(t.level) {
        m[t.level].insert(c)
    } else {
        Set::<(int, int)>::empty().insert(c)
    };
    let m2 = m.insert(t.level, added);
    assert forall|level: u64| #[trigger] m2.contains_key(level) <==> has_level(
        tiles,
        n + 1,
        level,
    ) by {
        if has_level(tiles, n + 1, level) {
            let i = choose|i: int|
                0 <= i < n + 1 && i < tiles.len() && (#[trigger] tiles[i]).level == level;
            if i < n {
                assert(has_level(tiles, n, level));
            }
        }
        if m2.contains_key(level) {
            if level == t.level {
                assert(tiles[n].level == level);
            } else {
                assert(has_level(tiles, n, level));
                let i = choose|i: int|
                    0 <= i < n && i < tiles.len() && (#[trigger] tiles[i]).level == level;
                assert(tiles[i].level == level);
            }
        }
    }
    assert forall|level: u64| #[trigger] m2.contains_key(level) implies m2[level]
        == tiles_of_level(tiles, n + 1, level) by {
        let old_set = tiles_of_level(tiles, n, level);
        let new_set = tiles_of_level(tiles, n + 1, level);
        assert forall|d: (int, int)| new_set.contains(d) <==> (old_set.contains(d) || (level
            == t.level && d == c)) by {
            if new_set.contains(d) {
                let i = choose|i: int|
                    0 <= i < n + 1 && i < tiles.len() && (#[trigger] tiles[i]).level == level
                        && tiles[i].coord.x == d.0 && tiles[i].coord.y == d.1;
                if i < n {
                    assert(old_set.contains(d));
                }
            }
            if old_set.contains(d) {
                let i = choose|i: int|
                    0 <= i < n && i < tiles.len() && (#[trigger] tiles[i]).level == level
                        && tiles[i].coord.x == d.0 && tiles[i].coord.y == d.1;
                assert(tiles[i].level == level);
            }
            if level == t.level && d == c {
                assert(tiles[n].level == level);
            }
        }
        if level == t.level {
            if m.contains_key(level) {
                assert(m2[level] =~= new_set);
            } else {
                assert(!has_level(tiles, n, level));
                assert forall|d: (int, int)| !old_set.contains(d) by {
                    if old_set.contains(d) {
                        let i = choose|i: int|
                            0 <= i < n && i < tiles.len() && (#[trigger] tiles[i]).level == level
                                && tiles[i].coord.x == d.0 && tiles[i].coord.y == d.1;
                        assert(tiles[i].level == level);
                    }
                }
                assert(m2[level] =~= new_set);
            }
        } else {
            assert(m2[level] =~= new_set);
        }
    }
}

/// A level without solid tiles has no rectangle.
pub proof fn lemma_no_walls_no_rects(w: int, h: int, r: Rect)
    ensures
        !is_wall_rect(Set::<(int, int)>::empty(), w, h, r),
{
    let occ = Set::<(int, int)>::empty();
    if is_wall_rect(occ, w, h, r) {
        assert(is_run(occ, w, h, r.bottom as int, r.left as int, r.right as int));
        assert(occupied_at(occ, w, h, r.left as int, r.bottom as int));
    }
}

/// The solid tiles that `walls` has for `level`: none where it does not have
/// the level.
pub open spec fn walls_of(walls: Map<u64, Set<(int, int)>>, level: u64) -> Set<(int, int)> {
    if walls.contains_key(level) {
        walls[level]
    } else {
        Set::empty()
    }
}

/// What is read of the layer that holds the walls of a level: its size in
/// tiles, and the size of a tile in world units.
#[derive(Clone, Copy, Debug, PartialEq, Eq, Structural)]
pub struct Layer {
    pub width: i32,
    pub height: i32,
    pub grid_size: i32,
}

/// The rectangles of one level. A level that is not among `walls` has no
/// solid tile and no rectangle, and neither has a level whose layer is
/// missing.
pub fn level_rects(walls: &LevelWalls, level: u64, layer: Option<Layer>) -> (rects: Vec<Rect>)
    ensures
        match layer {
            Some(l) => is_wall_rects(
                rects@,
                walls_of(walls@, level),
                l.width as int,
                l.height as int,
            ),
            None => rects@.len() == 0,
        },
        !walls@.contains_key(level) ==> rects@.len() == 0,
{
    match (walls.get(level), layer) {
        (Some(level_walls), Some(l)) => wall_rects(l.width, l.height, level_walls),
        (None, Some(l)) => {
            let rects: Vec<Rect> = Vec::new();
            proof {
                assert forall|r: Rect|
                    !is_wall_rect(
                        Set::<(int, int)>::empty(),
                        l.width as int,
                        l.height as int,
                        r,
                    ) by {
                    lemma_no_walls_no_rects(l.width as int, l.height as int, r);
                }
            }
            rects
        },
        (_, None) => Vec::new(),
    }
}

} // verus!
