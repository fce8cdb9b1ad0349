//! Both passes together: from the solid tiles of a level to its rectangles.

use crate::grid::OccupiedSet;
use crate::plates::{build_plates, is_row_plates, is_run, occupied_at, Plate};
use crate::rects::{
    is_stack, merge_plates, rects_sorted, row_at, row_has, rows_of, rows_sorted, Rect,
};
use vstd::prelude::*;

verus! {

/// Whether `r` is a rectangle of the level: its span of columns is a run of
/// each of its rows, and neither of the row below nor of the row above.
pub open spec fn is_wall_rect(occ: Set<(int, int)>, w: int, h: int, r: Rect) -> bool {
    &&& r.bottom <= r.top
    &&& forall|y: int|
        r.bottom <= y <= r.top ==> #[trigger] is_run(occ, w, h, y, r.left as int, r.right as int)
    &&& !is_run(occ, w, h, r.bottom - 1, r.left as int, r.right as int)
    &&& !is_run(occ, w, h, r.top + 1, r.left as int, r.right as int)
}

/// Whether `out` lists the rectangles of the level, each once, by top row and
/// in one row from left to right.
pub open spec fn is_wall_rects(out: Seq<Rect>, occ: Set<(int, int)>, w: int, h: int) -> bool {
    &&& rects_sorted(out)
    &&& forall|r: Rect|
        #![trigger out.contains(r)]
        #![trigger is_wall_rect(occ, w, h, r)]
        out.contains(r) <==> is_wall_rect(occ, w, h, r)
}

/// A row of the grid has a plate exactly where the plate is a run of it.
proof fn lemma_row_has_run(
    rows: Seq<Seq<Plate>>,
    occ: Set<(int, int)>,
    w: int,
    h: int,
    y: int,
    p: Plate,
)
    requires
        rows.len() == if h < 0 { 0 } else { h },
        forall|k: int| 0 <= k < rows.len() ==> is_row_plates(#[trigger] rows[k], occ, w, h, k),
    ensures
        row_has(rows, y, p) <==> is_run(occ, w, h, y, p.left as int, p.right as int),
{
    if 0 <= y < rows.len() {
        assert(is_row_plates(rows[y], occ, w, h, y));
    } else {
        if is_run(occ, w, h, y, p.left as int, p.right as int) {
            assert(occupied_at(occ, w, h, p.left as int, y));
        }
    }
}

/// The rectangles that cover the solid tiles of a grid of `width` columns and
/// `height` rows.
///
/// Tiles of `occupied` outside the grid are not looked at. A grid without
/// columns or rows, or without solid tiles, has no rectangle.
pub fn wall_rects(width: i32, height: i32, occupied: &OccupiedSet) -> (rects: Vec<Rect>)
    ensures
        is_wall_rects(rects@, occupied@, width as int, height as int),
{
    let plate_stack = build_plates(width, height, occupied);
    let ghost rows = rows_of(&plate_stack);
    proof {
        assert forall|k: int| 0 <= k < rows.len() implies is_row_plates(
            #[trigger] rows[k],
            occupied@,
            width as int,
            height as int,
            k,
        ) by {
            assert(is_row_plates(plate_stack@[k]@, occupied@, width as int, height as int, k));
        }
        assert(rows_sorted(rows));
    }
    let rects = merge_plates(&plate_stack);
    proof {
        let (occ, w, h) = (occupied@, width as int, height as int);
        assert forall|r: Rect| is_stack(rows, r) <==> is_wall_rect(occ, w, h, r) by {
            lemma_row_has_run(rows, occ, w, h, r.bottom - 1, r.plate());
            lemma_row_has_run(rows, occ, w, h, r.top + 1, r.plate());
            if is_stack(rows, r) {
                assert forall|y: int| r.bottom <= y <= r.top implies #[trigger] is_run(
                    occ,
                    w,
                    h,
                    y,
                    r.left as int,
                    r.right as int,
                ) by {
                    assert(row_has(rows, y, r.plate()));
                    lemma_row_has_run(rows, occ, w, h, y, r.plate());
                }
            }
            if is_wall_rect(occ, w, h, r) {
                assert forall|y: int| r.bottom <= y <= r.top implies #[trigger] row_has(
                    rows,
                    y,
                    r.plate(),
                ) by {
                    assert(is_run(occ, w, h, y, r.left as int, r.right as int));
                    lemma_row_has_run(rows, occ, w, h, y, r.plate());
                }
            }
        }
    }
    rects
}

} // verus!
