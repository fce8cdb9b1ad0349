//! Tile coordinates and the set of solid tiles of one level.

use std::collections::HashSet;
use vstd::prelude::*;

verus! {

broadcast use vstd::std_specs::hash::group_hash_axioms;

/// The position of a tile, in tile units.
#[derive(Clone, Copy, Debug, PartialEq, Eq, Structural, Hash)]
pub struct GridCoord {
    pub x: i32,
    pub y: i32,
}

/// The key under which a pair of 32-bit integers is stored: both are shifted
/// into the non-negative range and written side by side.
pub open spec fn spec_pack(a: int, b: int) -> int {
    (a + 0x8000_0000) * 0x1_0000_0000 + (b + 0x8000_0000)
}

/// Two pairs of 32-bit integers with the same key are the same pair.
pub proof fn lemma_pack_injective(a: int, b: int, c: int, d: int)
    requires
        i32::MIN <= a <= i32::MAX,
        i32::MIN <= b <= i32::MAX,
        i32::MIN <= c <= i32::MAX,
        i32::MIN <= d <= i32::MAX,
        spec_pack(a, b) == spec_pack(c, d),
    ensures
        a == c,
        b == d,
{
}

/// Computes the key of a pair.
pub fn pack(a: i32, b: i32) -> (k: u64)
    ensures
        k == spec_pack(a as int, b as int),
{
    let hi: u64 = (a as i64 + 0x8000_0000) as u64;
    let lo: u64 = (b as i64 + 0x8000_0000) as u64;
    hi * 0x1_0000_0000 + lo
}

/// The solid tiles of a layer of `width` columns and `height` rows that is
/// given as one flag for each tile, row by row: the tiles whose flag is set.
/// A layer whose size does not fit its flags has none.
pub open spec fn layer_cells(width: int, height: int, walls: Seq<bool>) -> Set<(int, int)> {
    if width >= 0 && height >= 0 && walls.len() == width * height {
        Set::new(
            |c: (int, int)| 0 <= c.0 < width && 0 <= c.1 < height && walls[c.1 * width + c.0],
        )
    } else {
        Set::empty()
    }
}

/// The solid tiles among the first tiles of a layer: those of the rows before
/// `y`, and those of row `y` before column `x`.
spec fn layer_cells_before(width: int, height: int, walls: Seq<bool>, x: int, y: int) -> Set<
    (int, int),
> {
    Set::new(
        |c: (int, int)|
            0 <= c.0 < width && 0 <= c.1 < height && walls[c.1 * width + c.0] && (c.1 < y || (c.1
                == y && c.0 < x)),
    )
}

/// The place of tile `(x, y)` among the flags of a layer lies within them.
proof fn lemma_layer_index(width: int, height: int, x: int, y: int)
    requires
        0 <= x < width,
        0 <= y < height,
    ensures
        0 <= y * width,
        0 <= y * width + x < width * height,
{
    assert(0 <= y * width) by (nonlinear_arith)
        requires
            0 <= y,
            0 <= width,
    ;
    assert((y + 1) * width <= height * width) by (nonlinear_arith)
        requires
            y + 1 <= height,
            0 <= width,
    ;
    assert((y + 1) * width == y * width + width) by (nonlinear_arith);
    assert(height * width == width * height) by (nonlinear_arith);
}

/// The solid tiles of one level.
pub struct OccupiedSet {
    cells: HashSet<u64>,
}

impl View for OccupiedSet {
    type V = Set<(int, int)>;

    /// The coordinates `(x, y)` of the solid tiles.
    closed spec fn view(&self) -> Set<(int, int)> {
        Set::new(
            |c: (int, int)|
                i32::MIN <= c.0 <= i32::MAX && i32::MIN <= c.1 <= i32::MAX && self.cells@.contains(
                    spec_pack(c.0, c.1) as u64,
                ),
        )
    }
}

impl OccupiedSet {
    /// A level without solid tiles.
    pub fn new() -> (s: OccupiedSet)
        ensures
            s@ == Set::<(int, int)>::empty(),
    {
        let s = OccupiedSet { cells: HashSet::new() };
        assert(s@ =~= Set::<(int, int)>::empty());
        s
    }

    /// The solid tiles of a layer, read from one flag for each tile, row by
    /// row. A layer whose size does not fit its flags is taken to have no
    /// solid tile, and so is one without tiles.
    pub fn from_layer(width: i32, height: i32, walls: &Vec<bool>) -> (s: OccupiedSet)
        ensures
            s@ == layer_cells(width as int, height as int, walls@),
    {
        let mut set = OccupiedSet::new();
        if width < 0 || height < 0 {
            return set;
        }
        let ghost (w, h) = (width as int, height as int);
        assert(0 <= w * h <= 0x7fff_ffff * 0x7fff_ffff) by (nonlinear_arith)
            requires
                0 <= w <= 0x7fff_ffff,
                0 <= h <= 0x7fff_ffff,
        ;
        let tiles: u64 = (width as u64) * (height as u64);
        let len: usize = walls.len();
        if len as u64 != tiles {
            return set;
        }
        proof {
            assert(set@ =~= layer_cells_before(w, h, walls@, 0, 0));
        }
        let mut y: i32 = 0;
        while y < height
            invariant
                w == width,
                h == height,
                0 <= y <= height,
                0 <= width,
                walls@.len() == w * h,
                walls@.len() == len,
                set@ == layer_cells_before(w, h, walls@, 0, y as int),
            decreases height - y,
        {
            let mut x: i32 = 0;
            while x < width
                invariant
                    w == width,
                    h == height,
                    0 <= y < height,
                    0 <= x <= width,
                    walls@.len() == w * h,
                    walls@.len() == len,
                    set@ == layer_cells_before(w, h, walls@, x as int, y as int),
                decreases width - x,
            {
                proof {
                    lemma_layer_index(w, h, x as int, y as int);
                    assert(y * w + x < len);
                }
                let at: usize = (y as usize) * (width as usize) + (x as usize);
                if walls[at] {
                    set.insert(GridCoord { x, y });
                }
                proof {
                    assert(set@ =~= layer_cells_before(w, h, walls@, x + 1, y as int));
                }
                x += 1;
            }
            proof {
                assert(set@ =~= layer_cells_before(w, h, walls@, 0, y + 1));
            }
            y += 1;
        }
        proof {
            assert(set@ =~= layer_cells(w, h, walls@));
        }
        set
    }

    /// Marks the tile at `c` as solid.
    pub fn insert(&mut self, c: GridCoord)
        ensures
            final(self)@ == old(self)@.insert((c.x as int, c.y as int)),
    {
        let k = pack(c.x, c.y);
        self.cells.insert(k);
        proof {
            assert forall|d: (int, int)|
                final(self)@.contains(d) <==> old(self)@.insert((c.x as int, c.y as int)).contains(
                    d,
                ) by {
                if i32::MIN <= d.0 <= i32::MAX && i32::MIN <= d.1 <= i32::MAX {
                    if spec_pack(d.0, d.1) == spec_pack(c.x as int, c.y as int) {
                        lemma_pack_injective(d.0, d.1, c.x as int, c.y as int);
                    }
                }
            }
            assert(final(self)@ =~= old(self)@.insert((c.x as int, c.y as int)));
        }
    }

    /// Whether the tile at `c` is solid.
    pub fn contains(&self, c: GridCoord) -> (b: bool)
        ensures
            b == self@.contains((c.x as int, c.y as int)),
    {
        let k = pack(c.x, c.y);
        self.cells.contains(&k)
    }
}

} // verus!
