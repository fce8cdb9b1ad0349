//! The first pass: the maximal runs of solid tiles in each row.

use crate::grid::{GridCoord, OccupiedSet};
use vstd::prelude::*;

verus! {

/// A wall that is one tile tall: the columns `left` to `right`, both included.
#[derive(Clone, Copy, Debug, PartialEq, Eq, Structural, Hash)]
pub struct Plate {
    pub left: i32,
    pub right: i32,
}

/// Whether `(x, y)` is a solid tile of the grid of `w` columns and `h` rows.
/// A tile outside the grid never is, whatever the set holds.
pub open spec fn occupied_at(occ: Set<(int, int)>, w: int, h: int, x: int, y: int) -> bool {
    0 <= x < w && 0 <= y < h && occ.contains((x, y))
}

/// Whether the columns `l` to `r` of row `y` are a run that cannot be
/// extended: all of them solid, and the tile before and the tile after not.
pub open spec fn is_run(occ: Set<(int, int)>, w: int, h: int, y: int, l: int, r: int) -> bool {
    &&& l <= r
    &&& forall|x: int| l <= x <= r ==> #[trigger] occupied_at(occ, w, h, x, y)
    &&& !occupied_at(occ, w, h, l - 1, y)
    &&& !occupied_at(occ, w, h, r + 1, y)
}

/// Whether the plates of a row stand from left to right.
pub open spec fn row_sorted(s: Seq<Plate>) -> bool {
    forall|i: int, j: int| 0 <= i < j < s.len() ==> s[i].left < s[j].left
}

/// Whether `s` lists the runs of row `y`, each once, from left to right.
pub open spec fn is_row_plates(s: Seq<Plate>, occ: Set<(int, int)>, w: int, h: int, y: int) -> bool {
    &&& row_sorted(s)
    &&& forall|p: Plate|
        #![trigger s.contains(p)]
        #![trigger is_run(occ, w, h, y, p.left as int, p.right as int)]
        s.contains(p) <==> is_run(occ, w, h, y, p.left as int, p.right as int)
}

/// The state of a scan of row `y` that has read the columns before `x`: the
/// runs that ended are in `s`, and `start` is where the open run began.
spec fn scanned(
    s: Seq<Plate>,
    start: Option<i32>,
    occ: Set<(int, int)>,
    w: int,
    h: int,
    y: int,
    x: int,
) -> bool {
    &&& row_sorted(s)
    &&& forall|p: Plate|
        #![trigger s.contains(p)]
        #![trigger is_run(occ, w, h, y, p.left as int, p.right as int)]
        s.contains(p) <==> is_run(occ, w, h, y, p.left as int, p.right as int) && p.right + 1 < x
    &&& match start {
        Some(b) => {
            &&& 0 <= b < x
            &&& forall|c: int| b <= c < x ==> #[trigger] occupied_at(occ, w, h, c, y)
            &&& !occupied_at(occ, w, h, b - 1, y)
        },
        None => !occupied_at(occ, w, h, x - 1, y),
    }
}

/// Reading an empty column ends the open run, if there is one.
proof fn lemma_scan_gap(
    s: Seq<Plate>,
    start: Option<i32>,
    occ: Set<(int, int)>,
    w: int,
    h: int,
    y: int,
    x: int,
)
    requires
        scanned(s, start, occ, w, h, y, x),
        0 <= x <= i32::MAX,
        !occupied_at(occ, w, h, x, y),
    ensures
        match start {
            Some(b) => scanned(
                s.push(Plate { left: b, right: (x - 1) as i32 }),
                None,
                occ,
                w,
                h,
                y,
                x + 1,
            ),
            None => scanned(s, None, occ, w, h, y, x + 1),
        },
{
    match start {
        Some(b) => {
            let q = Plate { left: b, right: (x - 1) as i32 };
            let t = s.push(q);
            assert(is_run(occ, w, h, y, b as int, x - 1));
            assert forall|p: Plate|
                #![trigger t.contains(p)]
                #![trigger is_run(occ, w, h, y, p.left as int, p.right as int)]
                t.contains(p) <==> is_run(occ, w, h, y, p.left as int, p.right as int) && p.right
                    + 1 < x + 1 by {
                vstd::seq_lib::lemma_seq_contains_after_push(s, q, p);
                if is_run(occ, w, h, y, p.left as int, p.right as int) && p.right + 1 == x {
                    if p.left < b {
                        assert(occupied_at(occ, w, h, b - 1, y));
                    }
                    if p.left > b {
                        assert(occupied_at(occ, w, h, p.left - 1, y));
                    }
                    assert(p == q);
                }
            }
            assert forall|i: int, j: int| 0 <= i < j < t.len() implies t[i].left < t[j].left by {
                if j == s.len() {
                    assert(s.contains(s[i]));
                    assert(is_run(occ, w, h, y, s[i].left as int, s[i].right as int));
                    if s[i].left >= b {
                        assert(occupied_at(occ, w, h, s[i].right + 1, y));
                    }
                }
            }
        },
        None => {
            assert forall|p: Plate|
                is_run(occ, w, h, y, p.left as int, p.right as int) && p.right + 1
                    < x + 1 implies p.right + 1 < x by {
                assert(occupied_at(occ, w, h, p.right as int, y));
            }
        },
    }
}

/// Reading a solid column opens a run, or goes on with the open one.
proof fn lemma_scan_wall(
    s: Seq<Plate>,
    start: Option<i32>,
    occ: Set<(int, int)>,
    w: int,
    h: int,
    y: int,
    x: int,
)
    requires
        scanned(s, start, occ, w, h, y, x),
        0 <= x <= i32::MAX,
        occupied_at(occ, w, h, x, y),
    ensures
        match start {
            Some(b) => scanned(s, start, occ, w, h, y, x + 1),
            None => scanned(s, Some(x as i32), occ, w, h, y, x + 1),
        },
{
    assert forall|p: Plate|
        is_run(occ, w, h, y, p.left as int, p.right as int) && p.right + 1 < x + 1 implies p.right
            + 1 < x by {
        if p.right + 1 == x {
            match start {
                Some(b) => {},
                None => {
                    assert(occupied_at(occ, w, h, p.right as int, y));
                },
            }
        }
    }
}

/// The plates of row `y`, from left to right.
///
/// The scan reads one column more than the grid has. That column counts as
/// empty, so a run that touches the right edge is ended like any other.
pub fn row_plates(width: i32, height: i32, y: i32, occupied: &OccupiedSet) -> (row: Vec<Plate>)
    ensures
        is_row_plates(row@, occupied@, width as int, height as int, y as int),
{
    let mut row: Vec<Plate> = Vec::new();
    let mut plate_start: Option<i32> = None;
    let in_grid = 0 <= y && y < height;
    let end: i64 = width as i64;
    let mut x: i64 = 0;
    proof {
        assert forall|p: Plate|
            is_run(
                occupied@,
                width as int,
                height as int,
                y as int,
                p.left as int,
                p.right as int,
            ) implies p.right >= 0 by {
            assert(occupied_at(occupied@, width as int, height as int, p.right as int, y as int));
        }
    }
    while x <= end
        invariant
            end == width,
            in_grid == (0 <= y < height),
            0 <= x,
            end >= 0 ==> x <= end + 1,
            scanned(row@, plate_start, occupied@, width as int, height as int, y as int, x as int),
        decreases end + 1 - x,
    {
        let wall = x < end && in_grid && occupied.contains(GridCoord { x: x as i32, y });
        proof {
            assert(wall == occupied_at(
                occupied@,
                width as int,
                height as int,
                x as int,
                y as int,
            ));
            if wall {
                lemma_scan_wall(
                    row@,
                    plate_start,
                    occupied@,
                    width as int,
                    height as int,
                    y as int,
                    x as int,
                );
            } else {
                lemma_scan_gap(
                    row@,
                    plate_start,
                    occupied@,
                    width as int,
                    height as int,
                    y as int,
                    x as int,
                );
            }
        }
        match (plate_start, wall) {
            (Some(s), false) => {
                row.push(Plate { left: s, right: (x - 1) as i32 });
                plate_start = None;
            },
            (None, true) => {
                plate_start = Some(x as i32);
            },
            _ => {},
        }
        x += 1;
    }
    proof {
        let s = row@;
        let (w, h) = (width as int, height as int);
        assert forall|p: Plate|
            #![trigger s.contains(p)]
            #![trigger is_run(occupied@, w, h, y as int, p.left as int, p.right as int)]
            s.contains(p) <==> is_run(occupied@, w, h, y as int, p.left as int, p.right as int) by {
            if is_run(occupied@, w, h, y as int, p.left as int, p.right as int) {
                assert(occupied_at(occupied@, w, h, p.right as int, y as int));
            }
        }
    }
    row
}

/// The plates of every row of the grid, row 0 first.
pub fn build_plates(width: i32, height: i32, occupied: &OccupiedSet) -> (rows: Vec<Vec<Plate>>)
    ensures
        rows@.len() == if height < 0 { 0 } else { height as int },
        forall|y: int|
            0 <= y < rows@.len() ==> is_row_plates(
                #[trigger] rows@[y]@,
                occupied@,
                width as int,
                height as int,
                y,
            ),
{
    let mut plate_stack: Vec<Vec<Plate>> = Vec::new();
    let mut y: i32 = 0;
    while y < height
        invariant
            0 <= y,
            height >= 0 ==> y <= height,
            height < 0 ==> y == 0,
            plate_stack@.len() == y,
            forall|k: int|
                0 <= k < plate_stack@.len() ==> is_row_plates(
                    #[trigger] plate_stack@[k]@,
                    occupied@,
                    width as int,
                    height as int,
                    k,
                ),
        decreases height - y,
    {
        let row_plates = row_plates(width, height, y, occupied);
        plate_stack.push(row_plates);
        y += 1;
    }
    plate_stack
}

} // verus!
