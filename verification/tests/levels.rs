use tile_game::grid::{GridCoord, OccupiedSet};
use tile_game::levels::{level_rects, Layer, LevelWalls, WallTile};
use tile_game::placement::{place_rect, place_rects, Placement};
use tile_game::rects::Rect;
use tile_game::walls::wall_rects;

fn tile(level: u64, x: i32, y: i32) -> WallTile {
    WallTile { level, coord: GridCoord { x, y } }
}

fn layer(width: i32, height: i32) -> Option<Layer> {
    Some(Layer { width, height, grid_size: 16 })
}

fn rect(left: i32, right: i32, top: i32, bottom: i32) -> Rect {
    Rect { left, right, top, bottom }
}

#[test]
fn layer_flags_give_the_solid_tiles() {
    // 3 columns, 2 rows, row 0 first
    let flags = vec![true, false, true, false, true, true];
    let set = OccupiedSet::from_layer(3, 2, &flags);
    let solid = [(0, 0), (2, 0), (1, 1), (2, 1)];
    for y in -1..3 {
        for x in -1..4 {
            assert_eq!(set.contains(GridCoord { x, y }), solid.contains(&(x, y)));
        }
    }
    assert_eq!(
        wall_rects(3, 2, &set),
        vec![rect(0, 0, 0, 0), rect(2, 2, 0, 0), rect(1, 2, 1, 1)]
    );
}

#[test]
fn layer_without_tiles_has_no_solid_tile() {
    let set = OccupiedSet::from_layer(0, 0, &Vec::new());
    assert!(!set.contains(GridCoord { x: 0, y: 0 }));
    assert_eq!(wall_rects(0, 0, &set), Vec::<Rect>::new());
}

#[test]
fn layer_whose_size_does_not_fit_has_no_solid_tile() {
    let flags = vec![true, true, true, true, true];
    for (w, h) in [(3, 2), (2, 2), (5, -1), (-5, -1), (-1, 5), (0, 5)] {
        let set = OccupiedSet::from_layer(w, h, &flags);
        for y in 0..3 {
            for x in 0..6 {
                assert!(!set.contains(GridCoord { x, y }));
            }
        }
        assert_eq!(wall_rects(w, h, &set), Vec::<Rect>::new());
    }
    let set = OccupiedSet::from_layer(5, 1, &flags);
    assert_eq!(wall_rects(5, 1, &set), vec![rect(0, 4, 0, 0)]);
}

#[test]
fn tiles_are_sorted_by_level() {
    let tiles = vec![tile(7, 0, 0), tile(9, 0, 0), tile(7, 1, 0), tile(9, 0, 1), tile(7, 0, 0)];
    let walls = LevelWalls::classify(&tiles);
    let seven = walls.get(7).expect("level 7 has tiles");
    assert!(seven.contains(GridCoord { x: 0, y: 0 }));
    assert!(seven.contains(GridCoord { x: 1, y: 0 }));
    assert!(!seven.contains(GridCoord { x: 0, y: 1 }));
    let nine = walls.get(9).expect("level 9 has tiles");
    assert!(nine.contains(GridCoord { x: 0, y: 0 }));
    assert!(nine.contains(GridCoord { x: 0, y: 1 }));
    assert!(!nine.contains(GridCoord { x: 1, y: 0 }));
    assert!(walls.get(8).is_none());
}

#[test]
fn no_tiles_make_no_level() {
    let walls = LevelWalls::classify(&Vec::new());
    assert!(walls.get(0).is_none());
    assert!(LevelWalls::new().get(0).is_none());
}

#[test]
fn inserting_a_tile_makes_its_level() {
    let mut walls = LevelWalls::new();
    walls.insert(3, GridCoord { x: 2, y: 1 });
    walls.insert(3, GridCoord { x: 3, y: 1 });
    assert!(walls.get(4).is_none());
    let three = walls.get(3).expect("level 3 has tiles");
    assert!(three.contains(GridCoord { x: 2, y: 1 }));
    assert!(three.contains(GridCoord { x: 3, y: 1 }));
    assert!(!three.contains(GridCoord { x: 1, y: 2 }));
}

#[test]
fn rects_do_not_reach_across_levels() {
    // the same row of tiles, split between two levels
    let tiles = vec![tile(1, 0, 0), tile(1, 1, 0), tile(2, 2, 0), tile(2, 3, 0), tile(2, 3, 1)];
    let walls = LevelWalls::classify(&tiles);
    assert_eq!(level_rects(&walls, 1, layer(5, 3)), vec![rect(0, 1, 0, 0)]);
    assert_eq!(level_rects(&walls, 2, layer(5, 3)), vec![rect(2, 3, 0, 0), rect(3, 3, 1, 1)]);
}

#[test]
fn level_without_walls_has_no_rect() {
    let walls = LevelWalls::classify(&vec![tile(1, 0, 0)]);
    assert_eq!(level_rects(&walls, 2, layer(5, 3)), Vec::<Rect>::new());
    assert_eq!(level_rects(&walls, 1, layer(0, 0)), Vec::<Rect>::new());
}

#[test]
fn level_without_layer_has_no_rect() {
    let walls = LevelWalls::classify(&vec![tile(1, 0, 0)]);
    assert_eq!(level_rects(&walls, 1, layer(5, 3)), vec![rect(0, 0, 0, 0)]);
    assert_eq!(level_rects(&walls, 1, None), Vec::<Rect>::new());
}

#[test]
fn placement_of_a_single_tile() {
    let p = place_rect(rect(3, 3, 2, 2), 16, 0, 0);
    assert_eq!(
        p,
        Placement { twice_center_x: 112, twice_center_y: 80, width: 16, height: 16 }
    );
    // centre (56, 40), half-extents (8, 8)
    assert_eq!(p.twice_center_x as f64 / 2.0, 56.0);
    assert_eq!(p.twice_center_y as f64 / 2.0, 40.0);
    assert_eq!(p.width as f64 / 2.0, 8.0);
    assert_eq!(p.height as f64 / 2.0, 8.0);
}

#[test]
fn placement_adds_the_anchor() {
    let p = place_rect(rect(0, 2, 1, 0), 8, 100, -40);
    // centre = anchor + 8 * (1.5, 1), half-extents = 8 * (1.5, 1)
    assert_eq!(
        p,
        Placement { twice_center_x: 224, twice_center_y: -64, width: 24, height: 16 }
    );
    assert_eq!(p.twice_center_x as f64 / 2.0, 112.0);
    assert_eq!(p.twice_center_y as f64 / 2.0, -32.0);
}

#[test]
fn placement_of_the_largest_numbers() {
    let p = place_rect(rect(i32::MAX, i32::MAX, i32::MAX, i32::MIN), i32::MAX, i32::MAX, i32::MIN);
    let ts = i32::MAX as i128;
    assert_eq!(p.twice_center_x, 2 * ts + ts * (2 * ts + 1));
    assert_eq!(p.twice_center_y, 2 * (i32::MIN as i128));
    assert_eq!(p.width, ts);
    assert_eq!(p.height, ts * (1i128 << 32));
}

#[test]
fn one_placement_for_each_rect_in_order() {
    let rects = vec![rect(0, 1, 0, 0), rect(0, 0, 1, 1)];
    assert_eq!(
        place_rects(&rects, 16, 0, 0),
        vec![
            Placement { twice_center_x: 32, twice_center_y: 16, width: 32, height: 16 },
            Placement { twice_center_x: 16, twice_center_y: 48, width: 16, height: 16 },
        ]
    );
    assert_eq!(place_rects(&Vec::new(), 16, 5, 5), Vec::<Placement>::new());
}
