//! The second pass: plates that recur from row to row are stacked into
//! rectangles.

use crate::grid::{lemma_pack_injective, pack, spec_pack};
use crate::plates::{row_sorted, Plate};
use std::collections::HashMap;
use vstd::prelude::*;

verus! {

broadcast use vstd::std_specs::hash::group_hash_axioms;

/// A wall of any size: the columns `left` to `right` of the rows `bottom` to
/// `top`, all four included.
#[derive(Clone, Copy, Debug, PartialEq, Eq, Structural, Hash)]
pub struct Rect {
    pub left: i32,
    pub right: i32,
    pub top: i32,
    pub bottom: i32,
}

impl Rect {
    /// The span of columns that every row of the rectangle has.
    pub open spec fn plate(self) -> Plate {
        Plate { left: self.left, right: self.right }
    }
}

/// The rows of plates as sequences.
pub open spec fn rows_of(rows: &Vec<Vec<Plate>>) -> Seq<Seq<Plate>> {
    Seq::new(rows@.len(), |y: int| rows@[y]@)
}

/// The plates of row `y`; a row that the grid does not have is empty.
pub open spec fn row_at(rows: Seq<Seq<Plate>>, y: int) -> Seq<Plate> {
    if 0 <= y < rows.len() {
        rows[y]
    } else {
        Seq::empty()
    }
}

/// Whether row `y` has the plate `p`.
pub open spec fn row_has(rows: Seq<Seq<Plate>>, y: int, p: Plate) -> bool {
    row_at(rows, y).contains(p)
}

/// Whether every row lists its plates from left to right.
pub open spec fn rows_sorted(rows: Seq<Seq<Plate>>) -> bool {
    forall|y: int| 0 <= y < rows.len() ==> row_sorted(#[trigger] rows[y])
}

/// Whether the plate of `r` stands in each of its rows and not in the row
/// below them.
pub open spec fn is_open_stack(rows: Seq<Seq<Plate>>, r: Rect) -> bool {
    &&& r.bottom <= r.top
    &&& forall|y: int| r.bottom <= y <= r.top ==> #[trigger] row_has(rows, y, r.plate())
    &&& !row_has(rows, r.bottom - 1, r.plate())
}

/// Whether `r` is a stack of one plate that cannot grow: the plate stands in
/// each of its rows, and neither in the row below nor in the row above.
pub open spec fn is_stack(rows: Seq<Seq<Plate>>, r: Rect) -> bool {
    &&& is_open_stack(rows, r)
    &&& !row_has(rows, r.top + 1, r.plate())
}

/// The order in which rectangles are finished: by the row that ends them,
/// and in one row from left to right.
pub open spec fn rect_before(a: Rect, b: Rect) -> bool {
    a.top < b.top || (a.top == b.top && a.left < b.left)
}

/// Whether the rectangles stand in the order in which they are finished.
pub open spec fn rects_sorted(s: Seq<Rect>) -> bool {
    forall|i: int, j: int| 0 <= i < j < s.len() ==> rect_before(s[i], s[j])
}

/// Whether `out` lists the stacks of `rows`, each once, in the order in which
/// they are finished.
pub open spec fn is_merged(out: Seq<Rect>, rows: Seq<Seq<Plate>>) -> bool {
    &&& rects_sorted(out)
    &&& forall|r: Rect|
        #![trigger out.contains(r)]
        #![trigger is_stack(rows, r)]
        out.contains(r) <==> is_stack(rows, r)
}

/// The key under which the rectangle that grows on `p` is kept.
spec fn key_of(p: Plate) -> u64 {
    spec_pack(p.left as int, p.right as int) as u64
}

/// Whether a plate with left edge `l` stands before the plate at index `i` of
/// `s`. Past the end of `s` every plate does.
spec fn left_of(l: int, s: Seq<Plate>, i: int) -> bool {
    i >= s.len() || l < s[i].left
}

/// Whether `e`, kept under `k`, is a rectangle in progress that reaches `top`.
spec fn entry_ok(rows: Seq<Seq<Plate>>, e: Rect, k: u64, top: int) -> bool {
    &&& key_of(e.plate()) == k
    &&& e.top == top
    &&& is_open_stack(rows, e)
}

/// The state between two rows, when the rows before `y` have been read: the
/// stacks that end before row `y - 1` are finished, and each plate of row
/// `y - 1` has its rectangle in progress.
spec fn settled(out: Seq<Rect>, m: Map<u64, Rect>, rows: Seq<Seq<Plate>>, y: int) -> bool {
    &&& rects_sorted(out)
    &&& forall|r: Rect|
        #![trigger out.contains(r)]
        #![trigger is_stack(rows, r)]
        out.contains(r) <==> is_stack(rows, r) && r.top + 1 < y
    &&& forall|k: u64| #[trigger] m.contains_key(k) ==> entry_ok(rows, m[k], k, y - 1)
    &&& forall|p: Plate| row_has(rows, y - 1, p) ==> m.contains_key(#[trigger] key_of(p))
}

/// The state while row `y` ends rectangles, when the plates of row `y - 1`
/// before index `i` have been looked at.
spec fn closing(
    out: Seq<Rect>,
    m: Map<u64, Rect>,
    rows: Seq<Seq<Plate>>,
    y: int,
    i: int,
) -> bool {
    let prev = row_at(rows, y - 1);
    &&& rects_sorted(out)
    &&& forall|r: Rect|
        #![trigger out.contains(r)]
        #![trigger is_stack(rows, r)]
        out.contains(r) <==> is_stack(rows, r) && (r.top + 1 < y || (r.top + 1 == y && left_of(
            r.left as int,
            prev,
            i,
        )))
    &&& forall|k: u64| #[trigger]
        m.contains_key(k) ==> entry_ok(rows, m[k], k, y - 1) && (row_has(rows, y, m[k].plate())
            || !left_of(m[k].left as int, prev, i))
    &&& forall|p: Plate|
        row_has(rows, y - 1, p) && (row_has(rows, y, p) || !left_of(p.left as int, prev, i))
            ==> m.contains_key(#[trigger] key_of(p))
}

/// The state while row `y` extends and starts rectangles, when its plates
/// before index `j` have been looked at.
spec fn opening(
    out: Seq<Rect>,
    m: Map<u64, Rect>,
    rows: Seq<Seq<Plate>>,
    y: int,
    j: int,
) -> bool {
    let cur = row_at(rows, y);
    &&& rects_sorted(out)
    &&& forall|r: Rect|
        #![trigger out.contains(r)]
        #![trigger is_stack(rows, r)]
        out.contains(r) <==> is_stack(rows, r) && r.top < y
    &&& forall|k: u64| #[trigger]
        m.contains_key(k) ==> {
            let e = m[k];
            &&& key_of(e.plate()) == k
            &&& is_open_stack(rows, e)
            &&& row_has(rows, y, e.plate())
            &&& e.top == if left_of(e.left as int, cur, j) {
                y
            } else {
                y - 1
            }
        }
    &&& forall|p: Plate|
        row_has(rows, y, p) && (row_has(rows, y - 1, p) || left_of(p.left as int, cur, j))
            ==> m.contains_key(#[trigger] key_of(p))
}

/// Two plates with the same key are the same plate.
proof fn lemma_key_injective(p: Plate, q: Plate)
    requires
        key_of(p) == key_of(q),
    ensures
        p == q,
{
    lemma_pack_injective(p.left as int, p.right as int, q.left as int, q.right as int);
}

/// In a row that is sorted, the plate at index `idx` stands before the plate
/// at index `i` exactly if `idx` is less than `i`.
proof fn lemma_left_of(s: Seq<Plate>, idx: int, i: int)
    requires
        row_sorted(s),
        0 <= idx < s.len(),
        0 <= i <= s.len(),
    ensures
        left_of(s[idx].left as int, s, i) <==> idx < i,
{
}

/// Two rectangles in progress on the same plate that reach the same row are
/// the same rectangle.
proof fn lemma_open_stack_unique(rows: Seq<Seq<Plate>>, a: Rect, b: Rect)
    requires
        is_open_stack(rows, a),
        is_open_stack(rows, b),
        a.plate() == b.plate(),
        a.top == b.top,
    ensures
        a == b,
{
    if a.bottom < b.bottom {
        assert(row_has(rows, b.bottom - 1, a.plate()));
    }
    if b.bottom < a.bottom {
        assert(row_has(rows, a.bottom - 1, b.plate()));
    }
}

/// Where a plate of a row stands in it, and which plates it stands before.
proof fn lemma_member_index(rows: Seq<Seq<Plate>>, y: int, p: Plate, i: int) -> (idx: int)
    requires
        rows_sorted(rows),
        row_has(rows, y, p),
        0 <= i <= row_at(rows, y).len(),
    ensures
        0 <= y < rows.len(),
        0 <= idx < row_at(rows, y).len(),
        row_at(rows, y)[idx] == p,
        left_of(p.left as int, row_at(rows, y), i) <==> idx < i,
{
    let s = row_at(rows, y);
    let idx = choose|idx: int| 0 <= idx < s.len() && s[idx] == p;
    assert(row_sorted(rows[y]));
    lemma_left_of(s, idx, i);
    idx
}

/// A stack has its plate in its top row.
proof fn lemma_stack_top(rows: Seq<Seq<Plate>>, r: Rect)
    requires
        is_open_stack(rows, r),
    ensures
        row_has(rows, r.top as int, r.plate()),
        row_has(rows, r.bottom as int, r.plate()),
        0 <= r.bottom,
        r.top < rows.len(),
{
    assert(row_has(rows, r.top as int, r.plate()));
    assert(row_has(rows, r.bottom as int, r.plate()));
}

/// Before row `y` ends any rectangle, the state between the rows holds on.
proof fn lemma_start_closing(out: Seq<Rect>, m: Map<u64, Rect>, rows: Seq<Seq<Plate>>, y: int)
    requires
        rows_sorted(rows),
        settled(out, m, rows, y),
    ensures
        closing(out, m, rows, y, 0),
{
    let prev = row_at(rows, y - 1);
    assert forall|r: Rect|
        #![trigger out.contains(r)]
        #![trigger is_stack(rows, r)]
        out.contains(r) <==> is_stack(rows, r) && (r.top + 1 < y || (r.top + 1 == y && left_of(
            r.left as int,
            prev,
            0,
        ))) by {
        if is_stack(rows, r) && r.top + 1 == y {
            lemma_stack_top(rows, r);
            lemma_member_index(rows, y - 1, r.plate(), 0);
        }
    }
    assert forall|k: u64| #[trigger] m.contains_key(k) implies entry_ok(rows, m[k], k, y - 1) && (
    row_has(rows, y, m[k].plate()) || !left_of(m[k].left as int, prev, 0)) by {
        lemma_stack_top(rows, m[k]);
        lemma_member_index(rows, y - 1, m[k].plate(), 0);
    }
}

/// What the plate at index `i` of row `y - 1` does to the state: where row
/// `y` has it too, nothing; where not, its rectangle is finished.
proof fn lemma_close_step(
    out: Seq<Rect>,
    m: Map<u64, Rect>,
    rows: Seq<Seq<Plate>>,
    y: int,
    i: int,
)
    requires
        rows_sorted(rows),
        closing(out, m, rows, y, i),
        0 <= i < row_at(rows, y - 1).len(),
    ensures
        ({
            let p = row_at(rows, y - 1)[i];
            if row_has(rows, y, p) {
                closing(out, m, rows, y, i + 1)
            } else {
                &&& m.contains_key(key_of(p))
                &&& closing(out.push(m[key_of(p)]), m.remove(key_of(p)), rows, y, i + 1)
            }
        }),
{
    let prev = row_at(rows, y - 1);
    let p = prev[i];
    assert(prev.contains(p));
    assert(row_has(rows, y - 1, p));
    assert(row_sorted(rows[y - 1]));
    lemma_left_of(prev, i, i);
    lemma_left_of(prev, i, i + 1);
    assert(m.contains_key(key_of(p)));
    let e = m[key_of(p)];
    lemma_key_injective(e.plate(), p);
    assert(e.plate() == p);
    let stays = row_has(rows, y, p);
    let out2 = if stays { out } else { out.push(e) };
    let m2 = if stays { m } else { m.remove(key_of(p)) };
    assert forall|r: Rect|
        #![trigger out2.contains(r)]
        #![trigger is_stack(rows, r)]
        out2.contains(r) <==> is_stack(rows, r) && (r.top + 1 < y || (r.top + 1 == y && left_of(
            r.left as int,
            prev,
            i + 1,
        ))) by {
        if !stays {
            vstd::seq_lib::lemma_seq_contains_after_push(out, e, r);
        }
        if is_stack(rows, r) && r.top + 1 == y {
            lemma_stack_top(rows, r);
            let idx = lemma_member_index(rows, y - 1, r.plate(), i);
            lemma_left_of(prev, idx, i + 1);
            if idx == i {
                lemma_open_stack_unique(rows, r, e);
            }
        }
    }
    assert forall|k: u64| #[trigger] m2.contains_key(k) implies entry_ok(rows, m2[k], k, y - 1) && (
    row_has(rows, y, m2[k].plate()) || !left_of(m2[k].left as int, prev, i + 1)) by {
        assert(m.contains_key(k));
        lemma_stack_top(rows, m[k]);
        let idx = lemma_member_index(rows, y - 1, m[k].plate(), i);
        lemma_left_of(prev, idx, i + 1);
    }
    assert forall|q: Plate|
        row_has(rows, y - 1, q) && (row_has(rows, y, q) || !left_of(q.left as int, prev, i + 1))
            implies m2.contains_key(#[trigger] key_of(q)) by {
        let idx = lemma_member_index(rows, y - 1, q, i);
        lemma_left_of(prev, idx, i + 1);
        assert(m.contains_key(key_of(q)));
        if key_of(q) == key_of(p) {
            lemma_key_injective(q, p);
        }
    }
    if !stays {
        assert forall|a: int, b: int| 0 <= a < b < out2.len() implies rect_before(
            out2[a],
            out2[b],
        ) by {
            if b == out.len() {
                assert(out.contains(out[a]));
            }
        }
    }
}

/// When row `y` has ended its rectangles, it begins to extend and start
/// others.
proof fn lemma_start_opening(out: Seq<Rect>, m: Map<u64, Rect>, rows: Seq<Seq<Plate>>, y: int)
    requires
        rows_sorted(rows),
        closing(out, m, rows, y, row_at(rows, y - 1).len() as int),
    ensures
        opening(out, m, rows, y, 0),
{
    let cur = row_at(rows, y);
    assert forall|k: u64| #[trigger] m.contains_key(k) implies ({
        let e = m[k];
        &&& key_of(e.plate()) == k
        &&& is_open_stack(rows, e)
        &&& row_has(rows, y, e.plate())
        &&& e.top == if left_of(e.left as int, cur, 0) {
            y
        } else {
            y - 1
        }
    }) by {
        lemma_member_index(rows, y, m[k].plate(), 0);
    }
    assert forall|p: Plate|
        row_has(rows, y, p) && (row_has(rows, y - 1, p) || left_of(p.left as int, cur, 0))
            implies m.contains_key(#[trigger] key_of(p)) by {
        lemma_member_index(rows, y, p, 0);
    }
}

/// What the plate at index `j` of row `y` does to the state: the rectangle
/// that grew on it up to row `y - 1` gains a row, or a new one starts.
proof fn lemma_open_step(
    out: Seq<Rect>,
    m: Map<u64, Rect>,
    rows: Seq<Seq<Plate>>,
    y: int,
    j: int,
)
    requires
        rows_sorted(rows),
        opening(out, m, rows, y, j),
        0 <= j < row_at(rows, y).len(),
        rows.len() <= i32::MAX,
    ensures
        ({
            let p = row_at(rows, y)[j];
            let k = key_of(p);
            if m.contains_key(k) {
                let e = m[k];
                &&& e.top == y - 1
                &&& opening(
                    out,
                    m.insert(
                        k,
                        Rect { left: e.left, right: e.right, top: (e.top + 1) as i32, bottom: e.bottom },
                    ),
                    rows,
                    y,
                    j + 1,
                )
            } else {
                opening(
                    out,
                    m.insert(
                        k,
                        Rect { left: p.left, right: p.right, top: y as i32, bottom: y as i32 },
                    ),
                    rows,
                    y,
                    j + 1,
                )
            }
        }),
{
    let cur = row_at(rows, y);
    let p = cur[j];
    let k = key_of(p);
    assert(cur.contains(p));
    assert(row_has(rows, y, p));
    assert(row_sorted(rows[y]));
    lemma_left_of(cur, j, j);
    lemma_left_of(cur, j, j + 1);
    let e2 = if m.contains_key(k) {
        Rect { left: m[k].left, right: m[k].right, top: (m[k].top + 1) as i32, bottom: m[k].bottom }
    } else {
        Rect { left: p.left, right: p.right, top: y as i32, bottom: y as i32 }
    };
    if m.contains_key(k) {
        lemma_key_injective(m[k].plate(), p);
        assert(m[k].top == y - 1);
        assert forall|yy: int| e2.bottom <= yy <= e2.top implies #[trigger] row_has(
            rows,
            yy,
            e2.plate(),
        ) by {
            if yy < y {
                assert(row_has(rows, yy, m[k].plate()));
            }
        }
    } else {
        assert(!row_has(rows, y - 1, p));
    }
    assert(e2.plate() == p);
    assert(is_open_stack(rows, e2));
    let m2 = m.insert(k, e2);
    assert forall|kk: u64| #[trigger] m2.contains_key(kk) implies ({
        let e = m2[kk];
        &&& key_of(e.plate()) == kk
        &&& is_open_stack(rows, e)
        &&& row_has(rows, y, e.plate())
        &&& e.top == if left_of(e.left as int, cur, j + 1) {
            y
        } else {
            y - 1
        }
    }) by {
        if kk != k {
            assert(m.contains_key(kk));
            let idx = lemma_member_index(rows, y, m[kk].plate(), j);
            lemma_left_of(cur, idx, j + 1);
        }
    }
    assert forall|q: Plate|
        row_has(rows, y, q) && (row_has(rows, y - 1, q) || left_of(q.left as int, cur, j + 1))
            implies m2.contains_key(#[trigger] key_of(q)) by {
        let idx = lemma_member_index(rows, y, q, j);
        lemma_left_of(cur, idx, j + 1);
        if idx != j {
            assert(m.contains_key(key_of(q)));
        }
    }
}

/// When row `y` has been read, the state between the rows holds for the next.
proof fn lemma_end_opening(out: Seq<Rect>, m: Map<u64, Rect>, rows: Seq<Seq<Plate>>, y: int)
    requires
        opening(out, m, rows, y, row_at(rows, y).len() as int),
    ensures
        settled(out, m, rows, y + 1),
{
}

/// Whether `row` has the plate `p`.
pub fn row_contains(row: &Vec<Plate>, p: Plate) -> (b: bool)
    ensures
        b == row@.contains(p),
{
    let mut i: usize = 0;
    while i < row.len()
        invariant
            i <= row.len(),
            forall|k: int| 0 <= k < i ==> row@[k] != p,
        decreases row.len() - i,
    {
        if row[i] == p {
            return true;
        }
        i += 1;
    }
    false
}

/// Stacks the plates of the rows into rectangles.
///
/// The rows are read from row 0 up, and one empty row after the last. A
/// rectangle grows by a row while the row that is read has its plate, with the
/// same left and right edge. The first row that does not have it finishes the
/// rectangle. Plates that only overlap are never joined.
pub fn merge_plates(plate_stack: &Vec<Vec<Plate>>) -> (wall_rects: Vec<Rect>)
    requires
        plate_stack@.len() <= i32::MAX,
        rows_sorted(rows_of(plate_stack)),
    ensures
        is_merged(wall_rects@, rows_of(plate_stack)),
{
    let ghost rows = rows_of(plate_stack);
    let mut rect_builder: HashMap<u64, Rect> = HashMap::new();
    let mut wall_rects: Vec<Rect> = Vec::new();
    let no_plates: Vec<Plate> = Vec::new();
    let mut prev_row: &Vec<Plate> = &no_plates;
    let mut y: usize = 0;
    proof {
        assert forall|r: Rect| is_stack(rows, r) implies r.top + 1 >= 0 by {
            lemma_stack_top(rows, r);
        }
    }
    while y <= plate_stack.len()
        invariant
            rows == rows_of(plate_stack),
            rows_sorted(rows),
            rows.len() <= i32::MAX,
            no_plates@.len() == 0,
            y <= rows.len() + 1,
            prev_row@ == row_at(rows, y - 1),
            settled(wall_rects@, rect_builder@, rows, y as int),
        decreases rows.len() + 1 - y,
    {
        let current_row: &Vec<Plate> = if y < plate_stack.len() {
            &plate_stack[y]
        } else {
            &no_plates
        };
        assert(current_row@ =~= row_at(rows, y as int));
        proof {
            lemma_start_closing(wall_rects@, rect_builder@, rows, y as int);
        }
        let mut i: usize = 0;
        while i < prev_row.len()
            invariant
                rows_sorted(rows),
                i <= prev_row@.len(),
                prev_row@ == row_at(rows, y - 1),
                current_row@ == row_at(rows, y as int),
                closing(wall_rects@, rect_builder@, rows, y as int, i as int),
            decreases prev_row.len() - i,
        {
            let prev_plate = prev_row[i];
            proof {
                lemma_close_step(wall_rects@, rect_builder@, rows, y as int, i as int);
            }
            if !row_contains(current_row, prev_plate) {
                let key = pack(prev_plate.left, prev_plate.right);
                // the finished rect leaves, so that the same plate in a later row starts a new one
                if let Some(rect) = rect_builder.remove(&key) {
                    wall_rects.push(rect);
                }
            }
            i += 1;
        }
        proof {
            lemma_start_opening(wall_rects@, rect_builder@, rows, y as int);
        }
        let mut j: usize = 0;
        while j < current_row.len()
            invariant
                rows_sorted(rows),
                rows.len() <= i32::MAX,
                y <= rows.len(),
                j <= current_row@.len(),
                current_row@ == row_at(rows, y as int),
                opening(wall_rects@, rect_builder@, rows, y as int, j as int),
            decreases current_row.len() - j,
        {
            let plate = current_row[j];
            let key = pack(plate.left, plate.right);
            proof {
                lemma_open_step(wall_rects@, rect_builder@, rows, y as int, j as int);
            }
            let rect = match rect_builder.get(&key) {
                Some(e) => Rect { left: e.left, right: e.right, top: e.top + 1, bottom: e.bottom },
                None => Rect { left: plate.left, right: plate.right, top: y as i32, bottom: y as i32 },
            };
            rect_builder.insert(key, rect);
            j += 1;
        }
        proof {
            lemma_end_opening(wall_rects@, rect_builder@, rows, y as int);
        }
        prev_row = current_row;
        y += 1;
    }
    proof {
        assert forall|r: Rect| is_stack(rows, r) implies r.top + 1 < y by {
            lemma_stack_top(rows, r);
        }
        // the empty row after the last has finished every rectangle: none is left in progress
        assert forall|k: u64| !rect_builder@.contains_key(k) by {
            if rect_builder@.contains_key(k) {
                lemma_stack_top(rows, rect_builder@[k]);
            }
        }
    }
    wall_rects
}

} // verus!
