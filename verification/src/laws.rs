//! What holds of the rectangles of every level.

use crate::plates::{is_run, occupied_at, Plate};
use crate::rects::{is_merged, is_open_stack, rect_before, rects_sorted, row_has, Rect};
use crate::walls::{is_wall_rect, is_wall_rects};
use vstd::prelude::*;

verus! {

/// Whether the tile `(x, y)` lies in `r`.
pub open spec fn rect_covers(r: Rect, x: int, y: int) -> bool {
    r.left <= x <= r.right && r.bottom <= y <= r.top
}

/// The tiles of `r`.
pub open spec fn rect_cells(r: Rect) -> Set<(int, int)> {
    Set::new(|c: (int, int)| rect_covers(r, c.0, c.1))
}

/// The tiles that lie in one of the rectangles.
pub open spec fn covered_cells(rects: Seq<Rect>) -> Set<(int, int)> {
    Set::new(
        |c: (int, int)| exists|i: int| 0 <= i < rects.len() && rect_covers(#[trigger] rects[i], c.0, c.1),
    )
}

/// The solid tiles of the grid of `w` columns and `h` rows.
pub open spec fn solid_cells(occ: Set<(int, int)>, w: int, h: int) -> Set<(int, int)> {
    Set::new(|c: (int, int)| occupied_at(occ, w, h, c.0, c.1))
}

/// The column where the run through the solid tile `(x, y)` begins.
spec fn run_left(occ: Set<(int, int)>, w: int, h: int, x: int, y: int) -> int
    decreases x,
{
    if x > 0 && occupied_at(occ, w, h, x - 1, y) {
        run_left(occ, w, h, x - 1, y)
    } else {
        x
    }
}

/// The column where the run through the solid tile `(x, y)` ends.
spec fn run_right(occ: Set<(int, int)>, w: int, h: int, x: int, y: int) -> int
    decreases w - x,
{
    if x + 1 < w && occupied_at(occ, w, h, x + 1, y) {
        run_right(occ, w, h, x + 1, y)
    } else {
        x
    }
}

/// The lowest row of the stack that the run `l` to `r` of row `y` lies in.
spec fn stack_bottom(occ: Set<(int, int)>, w: int, h: int, l: int, r: int, y: int) -> int
    decreases y,
{
    if y > 0 && is_run(occ, w, h, y - 1, l, r) {
        stack_bottom(occ, w, h, l, r, y - 1)
    } else {
        y
    }
}

/// The highest row of the stack that the run `l` to `r` of row `y` lies in.
spec fn stack_top(occ: Set<(int, int)>, w: int, h: int, l: int, r: int, y: int) -> int
    decreases h - y,
{
    if y + 1 < h && is_run(occ, w, h, y + 1, l, r) {
        stack_top(occ, w, h, l, r, y + 1)
    } else {
        y
    }
}

/// The run through a solid tile reaches to the left as far as `run_left` says.
proof fn lemma_run_left(occ: Set<(int, int)>, w: int, h: int, x: int, y: int)
    requires
        occupied_at(occ, w, h, x, y),
    ensures
        0 <= run_left(occ, w, h, x, y) <= x,
        forall|c: int|
            run_left(occ, w, h, x, y) <= c <= x ==> #[trigger] occupied_at(occ, w, h, c, y),
        !occupied_at(occ, w, h, run_left(occ, w, h, x, y) - 1, y),
    decreases x,
{
    if x > 0 && occupied_at(occ, w, h, x - 1, y) {
        lemma_run_left(occ, w, h, x - 1, y);
    }
}

/// The run through a solid tile reaches to the right as far as `run_right` says.
proof fn lemma_run_right(occ: Set<(int, int)>, w: int, h: int, x: int, y: int)
    requires
        occupied_at(occ, w, h, x, y),
    ensures
        x <= run_right(occ, w, h, x, y) < w,
        forall|c: int|
            x <= c <= run_right(occ, w, h, x, y) ==> #[trigger] occupied_at(occ, w, h, c, y),
        !occupied_at(occ, w, h, run_right(occ, w, h, x, y) + 1, y),
    decreases w - x,
{
    if x + 1 < w && occupied_at(occ, w, h, x + 1, y) {
        lemma_run_right(occ, w, h, x + 1, y);
    }
}

/// A run lies in the grid.
pub proof fn lemma_run_in_grid(occ: Set<(int, int)>, w: int, h: int, y: int, l: int, r: int)
    requires
        is_run(occ, w, h, y, l, r),
    ensures
        0 <= l <= r < w,
        0 <= y < h,
{
    assert(occupied_at(occ, w, h, l, y));
    assert(occupied_at(occ, w, h, r, y));
}

/// Two runs of a row that share a column are the same run.
pub proof fn lemma_run_unique(
    occ: Set<(int, int)>,
    w: int,
    h: int,
    y: int,
    x: int,
    l1: int,
    r1: int,
    l2: int,
    r2: int,
)
    requires
        is_run(occ, w, h, y, l1, r1),
        is_run(occ, w, h, y, l2, r2),
        l1 <= x <= r1,
        l2 <= x <= r2,
    ensures
        l1 == l2,
        r1 == r2,
{
    if l1 < l2 {
        assert(occupied_at(occ, w, h, l2 - 1, y));
    }
    if l2 < l1 {
        assert(occupied_at(occ, w, h, l1 - 1, y));
    }
    if r1 < r2 {
        assert(occupied_at(occ, w, h, r1 + 1, y));
    }
    if r2 < r1 {
        assert(occupied_at(occ, w, h, r2 + 1, y));
    }
}

/// The stack through a run reaches down as far as `stack_bottom` says.
proof fn lemma_stack_bottom(occ: Set<(int, int)>, w: int, h: int, l: int, r: int, y: int)
    requires
        is_run(occ, w, h, y, l, r),
    ensures
        0 <= stack_bottom(occ, w, h, l, r, y) <= y,
        forall|k: int|
            stack_bottom(occ, w, h, l, r, y) <= k <= y ==> #[trigger] is_run(occ, w, h, k, l, r),
        !is_run(occ, w, h, stack_bottom(occ, w, h, l, r, y) - 1, l, r),
    decreases y,
{
    lemma_run_in_grid(occ, w, h, y, l, r);
    if y > 0 && is_run(occ, w, h, y - 1, l, r) {
        lemma_stack_bottom(occ, w, h, l, r, y - 1);
    } else if is_run(occ, w, h, y - 1, l, r) {
        lemma_run_in_grid(occ, w, h, y - 1, l, r);
    }
}

/// The stack through a run reaches up as far as `stack_top` says.
proof fn lemma_stack_top(occ: Set<(int, int)>, w: int, h: int, l: int, r: int, y: int)
    requires
        is_run(occ, w, h, y, l, r),
    ensures
        y <= stack_top(occ, w, h, l, r, y) < h,
        forall|k: int|
            y <= k <= stack_top(occ, w, h, l, r, y) ==> #[trigger] is_run(occ, w, h, k, l, r),
        !is_run(occ, w, h, stack_top(occ, w, h, l, r, y) + 1, l, r),
    decreases h - y,
{
    lemma_run_in_grid(occ, w, h, y, l, r);
    if y + 1 < h && is_run(occ, w, h, y + 1, l, r) {
        lemma_stack_top(occ, w, h, l, r, y + 1);
    } else if is_run(occ, w, h, y + 1, l, r) {
        lemma_run_in_grid(occ, w, h, y + 1, l, r);
    }
}

/// Two rectangles of a level that share a tile are the same rectangle.
pub proof fn lemma_wall_rect_unique(
    occ: Set<(int, int)>,
    w: int,
    h: int,
    a: Rect,
    b: Rect,
    x: int,
    y: int,
)
    requires
        is_wall_rect(occ, w, h, a),
        is_wall_rect(occ, w, h, b),
        rect_covers(a, x, y),
        rect_covers(b, x, y),
    ensures
        a == b,
{
    assert(is_run(occ, w, h, y, a.left as int, a.right as int));
    assert(is_run(occ, w, h, y, b.left as int, b.right as int));
    lemma_run_unique(
        occ,
        w,
        h,
        y,
        x,
        a.left as int,
        a.right as int,
        b.left as int,
        b.right as int,
    );
    if a.top < b.top {
        assert(is_run(occ, w, h, a.top + 1, b.left as int, b.right as int));
    }
    if b.top < a.top {
        assert(is_run(occ, w, h, b.top + 1, a.left as int, a.right as int));
    }
    if a.bottom < b.bottom {
        assert(is_run(occ, w, h, b.bottom - 1, a.left as int, a.right as int));
    }
    if b.bottom < a.bottom {
        assert(is_run(occ, w, h, a.bottom - 1, b.left as int, b.right as int));
    }
}

/// Exact coverage: the tiles that lie in one of the rectangles of a level are
/// the solid tiles of its grid, no more and no fewer.
pub proof fn lemma_exact_coverage(rects: Seq<Rect>, occ: Set<(int, int)>, width: i32, height: i32)
    requires
        is_wall_rects(rects, occ, width as int, height as int),
    ensures
        covered_cells(rects) == solid_cells(occ, width as int, height as int),
{
    let (w, h) = (width as int, height as int);
    assert forall|c: (int, int)| covered_cells(rects).contains(c) implies solid_cells(
        occ,
        w,
        h,
    ).contains(c) by {
        let i = choose|i: int| 0 <= i < rects.len() && rect_covers(#[trigger] rects[i], c.0, c.1);
        let r = rects[i];
        assert(rects.contains(r));
        assert(is_wall_rect(occ, w, h, r));
        assert(is_run(occ, w, h, c.1, r.left as int, r.right as int));
        assert(occupied_at(occ, w, h, c.0, c.1));
    }
    assert forall|c: (int, int)| solid_cells(occ, w, h).contains(c) implies covered_cells(
        rects,
    ).contains(c) by {
        let (x, y) = c;
        lemma_run_left(occ, w, h, x, y);
        lemma_run_right(occ, w, h, x, y);
        let l = run_left(occ, w, h, x, y);
        let r = run_right(occ, w, h, x, y);
        assert(is_run(occ, w, h, y, l, r));
        lemma_stack_bottom(occ, w, h, l, r, y);
        lemma_stack_top(occ, w, h, l, r, y);
        let b = stack_bottom(occ, w, h, l, r, y);
        let t = stack_top(occ, w, h, l, r, y);
        let rect = Rect { left: l as i32, right: r as i32, top: t as i32, bottom: b as i32 };
        assert(is_wall_rect(occ, w, h, rect));
        assert(rects.contains(rect));
        let i = choose|i: int| 0 <= i < rects.len() && rects[i] == rect;
        assert(rect_covers(rects[i], c.0, c.1));
    }
    assert(covered_cells(rects) =~= solid_cells(occ, w, h));
}

/// No overlap: two rectangles of a level have no tile in common.
pub proof fn lemma_no_overlap(
    rects: Seq<Rect>,
    occ: Set<(int, int)>,
    width: i32,
    height: i32,
    i: int,
    j: int,
)
    requires
        is_wall_rects(rects, occ, width as int, height as int),
        0 <= i < rects.len(),
        0 <= j < rects.len(),
        i != j,
    ensures
        rect_cells(rects[i]).disjoint(rect_cells(rects[j])),
{
    let (w, h) = (width as int, height as int);
    assert(rects.contains(rects[i]));
    assert(rects.contains(rects[j]));
    assert forall|c: (int, int)|
        !(rect_cells(rects[i]).contains(c) && rect_cells(rects[j]).contains(c)) by {
        if rect_covers(rects[i], c.0, c.1) && rect_covers(rects[j], c.0, c.1) {
            lemma_wall_rect_unique(occ, w, h, rects[i], rects[j], c.0, c.1);
            if i < j {
                assert(rect_before(rects[i], rects[j]));
            } else {
                assert(rect_before(rects[j], rects[i]));
            }
        }
    }
}

/// Two lists in the order of `rect_before` that hold the same rectangles are
/// the same list.
pub proof fn lemma_sorted_unique(a: Seq<Rect>, b: Seq<Rect>)
    requires
        rects_sorted(a),
        rects_sorted(b),
        forall|r: Rect| a.contains(r) <==> b.contains(r),
    ensures
        a == b,
    decreases a.len(),
{
    if a.len() == 0 {
        if b.len() > 0 {
            assert(b.contains(b[0]));
        }
        assert(a =~= b);
    } else {
        let la = a.last();
        assert(a.contains(la));
        assert(b.contains(la));
        let jb = choose|j: int| 0 <= j < b.len() && b[j] == la;
        let lb = b.last();
        assert(b.contains(lb));
        assert(a.contains(lb));
        let ia = choose|i: int| 0 <= i < a.len() && a[i] == lb;
        if ia < a.len() - 1 {
            assert(rect_before(a[ia], la));
            if jb < b.len() - 1 {
                assert(rect_before(b[jb], lb));
            }
        }
        assert(la == lb);
        let a1 = a.drop_last();
        let b1 = b.drop_last();
        assert forall|r: Rect| a1.contains(r) <==> b1.contains(r) by {
            if a1.contains(r) {
                let i = choose|i: int| 0 <= i < a1.len() && a1[i] == r;
                assert(rect_before(a[i], la));
                assert(a.contains(r));
                let j = choose|j: int| 0 <= j < b.len() && b[j] == r;
                assert(b1[j] == r);
            }
            if b1.contains(r) {
                let j = choose|j: int| 0 <= j < b1.len() && b1[j] == r;
                assert(rect_before(b[j], lb));
                assert(b.contains(r));
                let i = choose|i: int| 0 <= i < a.len() && a[i] == r;
                assert(a1[i] == r);
            }
        }
        lemma_sorted_unique(a1, b1);
        assert(a =~= a1.push(la));
        assert(b =~= b1.push(lb));
    }
}

/// Determinism: a level has one list of rectangles. Two lists that both meet
/// what `wall_rects` promises for the same solid tiles are the same list.
pub proof fn lemma_deterministic(
    a: Seq<Rect>,
    b: Seq<Rect>,
    occ: Set<(int, int)>,
    width: i32,
    height: i32,
)
    requires
        is_wall_rects(a, occ, width as int, height as int),
        is_wall_rects(b, occ, width as int, height as int),
    ensures
        a == b,
        a.to_set() == b.to_set(),
{
    assert forall|r: Rect| a.contains(r) <==> b.contains(r) by {
        if a.contains(r) {
            assert(is_wall_rect(occ, width as int, height as int, r));
        }
        if b.contains(r) {
            assert(is_wall_rect(occ, width as int, height as int, r));
        }
    }
    lemma_sorted_unique(a, b);
}

/// Frozen shape: the span of columns of every rectangle of a level is a run
/// of one of the rows of the grid, as it stands there. No span is made up of
/// parts of runs.
pub proof fn lemma_shape_frozen(
    rects: Seq<Rect>,
    occ: Set<(int, int)>,
    width: i32,
    height: i32,
    i: int,
)
    requires
        is_wall_rects(rects, occ, width as int, height as int),
        0 <= i < rects.len(),
    ensures
        forall|y: int|
            rects[i].bottom <= y <= rects[i].top ==> #[trigger] is_run(
                occ,
                width as int,
                height as int,
                y,
                rects[i].left as int,
                rects[i].right as int,
            ),
        0 <= rects[i].bottom <= rects[i].top < height,
        0 <= rects[i].left <= rects[i].right < width,
{
    let (w, h) = (width as int, height as int);
    let r = rects[i];
    assert(rects.contains(r));
    assert(is_wall_rect(occ, w, h, r));
    assert(is_run(occ, w, h, r.bottom as int, r.left as int, r.right as int));
    assert(is_run(occ, w, h, r.top as int, r.left as int, r.right as int));
    lemma_run_in_grid(occ, w, h, r.bottom as int, r.left as int, r.right as int);
    lemma_run_in_grid(occ, w, h, r.top as int, r.left as int, r.right as int);
}

/// Frozen shape, said of the plates: a rectangle that `merge_plates` gives
/// has in each of its rows a plate with its left and right edge.
pub proof fn lemma_span_is_plate(out: Seq<Rect>, rows: Seq<Seq<Plate>>, i: int)
    requires
        is_merged(out, rows),
        0 <= i < out.len(),
    ensures
        0 <= out[i].bottom <= out[i].top < rows.len(),
        forall|y: int|
            out[i].bottom <= y <= out[i].top ==> #[trigger] row_has(rows, y, out[i].plate()),
{
    let r = out[i];
    assert(out.contains(r));
    assert(is_open_stack(rows, r));
    assert(row_has(rows, r.bottom as int, r.plate()));
    assert(row_has(rows, r.top as int, r.plate()));
}

/// Tiles outside the grid do not matter: two sets with the same solid tiles
/// in the grid have the same rectangles.
pub proof fn lemma_same_solid_cells(
    occ1: Set<(int, int)>,
    occ2: Set<(int, int)>,
    w: int,
    h: int,
    r: Rect,
)
    requires
        solid_cells(occ1, w, h) == solid_cells(occ2, w, h),
        is_wall_rect(occ1, w, h, r),
    ensures
        is_wall_rect(occ2, w, h, r),
{
    assert forall|x: int, y: int|
        occupied_at(occ1, w, h, x, y) == #[trigger] occupied_at(occ2, w, h, x, y) by {
        let c = (x, y);
        assert(solid_cells(occ1, w, h).contains(c) == occupied_at(occ1, w, h, c.0, c.1));
        assert(solid_cells(occ2, w, h).contains(c) == occupied_at(occ2, w, h, c.0, c.1));
    }
    assert forall|y: int, l: int, r: int|
        is_run(occ1, w, h, y, l, r) == #[trigger] is_run(occ2, w, h, y, l, r) by {
        if is_run(occ1, w, h, y, l, r) {
            assert forall|x: int| l <= x <= r implies #[trigger] occupied_at(occ2, w, h, x, y) by {
                assert(occupied_at(occ1, w, h, x, y));
            }
        }
        if is_run(occ2, w, h, y, l, r) {
            assert forall|x: int| l <= x <= r implies #[trigger] occupied_at(occ1, w, h, x, y) by {
                assert(occupied_at(occ2, w, h, x, y));
            }
        }
    }
    assert forall|y: int| r.bottom <= y <= r.top implies #[trigger] is_run(
        occ2,
        w,
        h,
        y,
        r.left as int,
        r.right as int,
    ) by {
        assert(is_run(occ1, w, h, y, r.left as int, r.right as int));
    }
}

/// Merging again changes nothing: the rectangles of the tiles that the
/// rectangles of a level cover are the rectangles of the level.
pub proof fn lemma_remerge(
    first: Seq<Rect>,
    second: Seq<Rect>,
    occ: Set<(int, int)>,
    width: i32,
    height: i32,
)
    requires
        is_wall_rects(first, occ, width as int, height as int),
        is_wall_rects(second, covered_cells(first), width as int, height as int),
    ensures
        second == first,
{
    let (w, h) = (width as int, height as int);
    let again = covered_cells(first);
    lemma_exact_coverage(first, occ, width, height);
    assert forall|c: (int, int)|
        solid_cells(again, w, h).contains(c) <==> solid_cells(occ, w, h).contains(c) by {
        if occupied_at(occ, w, h, c.0, c.1) {
            assert(solid_cells(occ, w, h).contains(c));
        }
    }
    assert(solid_cells(again, w, h) =~= solid_cells(occ, w, h));
    assert forall|r: Rect|
        #![trigger second.contains(r)]
        #![trigger is_wall_rect(occ, w, h, r)]
        second.contains(r) <==> is_wall_rect(occ, w, h, r) by {
        if is_wall_rect(occ, w, h, r) {
            lemma_same_solid_cells(occ, again, w, h, r);
        }
        if is_wall_rect(again, w, h, r) {
            lemma_same_solid_cells(again, occ, w, h, r);
        }
    }
    lemma_deterministic(second, first, occ, width, height);
}

} // verus!
