use tile_game::grid::{GridCoord, OccupiedSet};
use tile_game::plates::{build_plates, row_plates, Plate};
use tile_game::rects::{merge_plates, row_contains, Rect};
use tile_game::walls::wall_rects;

fn occupied(cells: &[(i32, i32)]) -> OccupiedSet {
    let mut set = OccupiedSet::new();
    for &(x, y) in cells {
        set.insert(GridCoord { x, y });
    }
    set
}

fn rect(left: i32, right: i32, top: i32, bottom: i32) -> Rect {
    Rect { left, right, top, bottom }
}

fn plate(left: i32, right: i32) -> Plate {
    Plate { left, right }
}

fn cells_of(rects: &[Rect]) -> Vec<(i32, i32)> {
    let mut cells = Vec::new();
    for r in rects {
        for y in r.bottom..=r.top {
            for x in r.left..=r.right {
                cells.push((x, y));
            }
        }
    }
    cells
}

/// A level shaped like a room with a pillar and a staircase, 8 columns by 6 rows.
fn room() -> Vec<(i32, i32)> {
    let mut cells = Vec::new();
    for x in 0..8 {
        cells.push((x, 0));
        cells.push((x, 5));
    }
    for y in 1..5 {
        cells.push((0, y));
        cells.push((7, y));
    }
    cells.push((3, 2));
    cells.push((4, 2));
    cells.push((3, 3));
    cells.push((4, 3));
    cells.push((5, 3));
    cells
}

#[test]
fn one_row_of_three_tiles_is_one_rect() {
    let set = occupied(&[(0, 0), (1, 0), (2, 0)]);
    assert_eq!(wall_rects(5, 3, &set), vec![rect(0, 2, 0, 0)]);
}

#[test]
fn two_by_two_block_merges_vertically() {
    let set = occupied(&[(0, 0), (1, 0), (0, 1), (1, 1)]);
    assert_eq!(wall_rects(5, 3, &set), vec![rect(0, 1, 1, 0)]);
}

#[test]
fn l_shape_gives_two_rects() {
    let set = occupied(&[(0, 0), (1, 0), (0, 1)]);
    assert_eq!(wall_rects(5, 3, &set), vec![rect(0, 1, 0, 0), rect(0, 0, 1, 1)]);
}

#[test]
fn empty_level_has_no_rect() {
    let set = OccupiedSet::new();
    assert_eq!(wall_rects(5, 3, &set), Vec::<Rect>::new());
}

#[test]
fn single_tile_is_one_rect() {
    let set = occupied(&[(3, 2)]);
    assert_eq!(wall_rects(5, 3, &set), vec![rect(3, 3, 2, 2)]);
}

#[test]
fn grid_without_area_has_no_rect() {
    let set = occupied(&[(0, 0), (1, 1)]);
    assert_eq!(wall_rects(0, 0, &set), Vec::<Rect>::new());
    assert_eq!(wall_rects(0, 3, &set), Vec::<Rect>::new());
    assert_eq!(wall_rects(5, 0, &set), Vec::<Rect>::new());
    assert_eq!(wall_rects(-1, 3, &set), Vec::<Rect>::new());
    assert_eq!(wall_rects(5, -2, &set), Vec::<Rect>::new());
}

#[test]
fn tiles_outside_the_grid_are_not_looked_at() {
    let set = occupied(&[(4, 0), (5, 0), (2, 3), (-1, 1), (0, -1), (0, 1)]);
    assert_eq!(wall_rects(5, 3, &set), vec![rect(4, 4, 0, 0), rect(0, 0, 1, 1)]);
}

#[test]
fn full_grid_is_one_rect() {
    let mut cells = Vec::new();
    for y in 0..3 {
        for x in 0..5 {
            cells.push((x, y));
        }
    }
    assert_eq!(wall_rects(5, 3, &occupied(&cells)), vec![rect(0, 4, 2, 0)]);
}

#[test]
fn rect_touching_the_top_edge_is_finished() {
    let set = occupied(&[(1, 1), (1, 2), (2, 1), (2, 2)]);
    assert_eq!(wall_rects(5, 3, &set), vec![rect(1, 2, 2, 1)]);
}

#[test]
fn overlapping_spans_are_not_joined() {
    // a staircase: each row is shifted by one column
    let set = occupied(&[(0, 0), (1, 0), (1, 1), (2, 1), (2, 2), (3, 2)]);
    assert_eq!(
        wall_rects(5, 3, &set),
        vec![rect(0, 1, 0, 0), rect(1, 2, 1, 1), rect(2, 3, 2, 2)]
    );
}

#[test]
fn same_span_after_a_gap_starts_a_new_rect() {
    let set = occupied(&[(1, 0), (2, 0), (1, 2), (2, 2)]);
    assert_eq!(wall_rects(5, 3, &set), vec![rect(1, 2, 0, 0), rect(1, 2, 2, 2)]);
}

#[test]
fn rects_come_by_top_row_then_from_left_to_right() {
    let set = occupied(&[(0, 0), (0, 1), (0, 2), (2, 0), (2, 1), (4, 0)]);
    assert_eq!(
        wall_rects(5, 3, &set),
        vec![rect(4, 4, 0, 0), rect(2, 2, 1, 0), rect(0, 0, 2, 0)]
    );
}

#[test]
fn room_has_the_expected_rects() {
    let rects = wall_rects(8, 6, &occupied(&room()));
    assert_eq!(
        rects,
        vec![
            rect(0, 7, 0, 0),
            rect(3, 4, 2, 2),
            rect(3, 5, 3, 3),
            rect(0, 0, 4, 1),
            rect(7, 7, 4, 1),
            rect(0, 7, 5, 5),
        ]
    );
}

#[test]
fn rects_cover_exactly_the_solid_tiles() {
    let cells = room();
    let rects = wall_rects(8, 6, &occupied(&cells));
    let mut covered = cells_of(&rects);
    covered.sort();
    let mut solid = cells.clone();
    solid.sort();
    assert_eq!(covered, solid);
}

#[test]
fn rects_do_not_overlap() {
    let rects = wall_rects(8, 6, &occupied(&room()));
    let mut covered = cells_of(&rects);
    let n = covered.len();
    covered.sort();
    covered.dedup();
    assert_eq!(covered.len(), n);
    for (i, a) in rects.iter().enumerate() {
        for b in rects.iter().skip(i + 1) {
            let apart = a.right < b.left || b.right < a.left || a.top < b.bottom || b.top < a.bottom;
            assert!(apart);
        }
    }
}

#[test]
fn same_tiles_give_the_same_rects() {
    let cells = room();
    let mut reversed = cells.clone();
    reversed.reverse();
    let first = wall_rects(8, 6, &occupied(&cells));
    let second = wall_rects(8, 6, &occupied(&cells));
    let third = wall_rects(8, 6, &occupied(&reversed));
    assert_eq!(first, second);
    assert_eq!(first, third);
}

#[test]
fn every_rect_has_the_span_of_a_plate() {
    let set = occupied(&room());
    let rows = build_plates(8, 6, &set);
    for r in wall_rects(8, 6, &set) {
        let span = plate(r.left, r.right);
        for y in r.bottom..=r.top {
            assert!(row_contains(&rows[y as usize], span));
        }
    }
}

#[test]
fn merging_the_covered_tiles_again_gives_the_same_rects() {
    let first = wall_rects(8, 6, &occupied(&room()));
    let second = wall_rects(8, 6, &occupied(&cells_of(&first)));
    assert_eq!(first, second);
}

#[test]
fn row_plates_are_the_runs_from_left_to_right() {
    let set = occupied(&[(0, 1), (1, 1), (3, 1), (5, 1), (6, 1), (7, 1), (2, 0)]);
    assert_eq!(row_plates(8, 3, 1, &set), vec![plate(0, 1), plate(3, 3), plate(5, 7)]);
    assert_eq!(row_plates(8, 3, 0, &set), vec![plate(2, 2)]);
    assert_eq!(row_plates(8, 3, 2, &set), Vec::<Plate>::new());
}

#[test]
fn plate_touching_the_right_edge_is_ended() {
    let set = occupied(&[(3, 0), (4, 0)]);
    assert_eq!(row_plates(5, 1, 0, &set), vec![plate(3, 4)]);
}

#[test]
fn plate_ends_at_the_edge_of_the_grid() {
    let set = occupied(&[(3, 0), (4, 0), (5, 0), (6, 0)]);
    assert_eq!(row_plates(5, 1, 0, &set), vec![plate(3, 4)]);
}

#[test]
fn row_outside_the_grid_has_no_plate() {
    let set = occupied(&[(0, 3), (0, -1)]);
    assert_eq!(row_plates(5, 3, 3, &set), Vec::<Plate>::new());
    assert_eq!(row_plates(5, 3, -1, &set), Vec::<Plate>::new());
}

#[test]
fn build_plates_has_one_row_for_each_row_of_the_grid() {
    let set = occupied(&[(0, 0), (1, 0), (0, 1)]);
    assert_eq!(
        build_plates(5, 3, &set),
        vec![vec![plate(0, 1)], vec![plate(0, 0)], vec![]]
    );
    assert_eq!(build_plates(5, 0, &set), Vec::<Vec<Plate>>::new());
    assert_eq!(build_plates(5, -4, &set), Vec::<Vec<Plate>>::new());
}

#[test]
fn merge_plates_stacks_equal_plates() {
    let rows = vec![
        vec![plate(0, 1), plate(3, 4)],
        vec![plate(0, 1), plate(3, 3)],
        vec![plate(0, 1)],
    ];
    assert_eq!(
        merge_plates(&rows),
        vec![rect(3, 4, 0, 0), rect(3, 3, 1, 1), rect(0, 1, 2, 0)]
    );
}

#[test]
fn merge_plates_of_no_rows_is_empty() {
    assert_eq!(merge_plates(&Vec::new()), Vec::<Rect>::new());
    assert_eq!(merge_plates(&vec![vec![], vec![]]), Vec::<Rect>::new());
}

#[test]
fn row_contains_finds_equal_plates_only() {
    let row = vec![plate(0, 1), plate(3, 4)];
    assert!(row_contains(&row, plate(3, 4)));
    assert!(!row_contains(&row, plate(3, 3)));
    assert!(!row_contains(&row, plate(1, 4)));
}

#[test]
fn occupied_set_holds_what_was_inserted() {
    let mut set = OccupiedSet::new();
    assert!(!set.contains(GridCoord { x: 1, y: 2 }));
    set.insert(GridCoord { x: 1, y: 2 });
    set.insert(GridCoord { x: -1, y: i32::MIN });
    set.insert(GridCoord { x: i32::MAX, y: i32::MAX });
    assert!(set.contains(GridCoord { x: 1, y: 2 }));
    assert!(set.contains(GridCoord { x: -1, y: i32::MIN }));
    assert!(set.contains(GridCoord { x: i32::MAX, y: i32::MAX }));
    assert!(!set.contains(GridCoord { x: 2, y: 1 }));
    assert!(!set.contains(GridCoord { x: 0, y: 2 }));
    assert!(!set.contains(GridCoord { x: i32::MIN, y: -1 }));
}
