//! Where the collider of a rectangle stands in the world.
//!
//! The centre of a rectangle of tiles lies on half a tile as often as on a
//! whole one. All four numbers of a placement are therefore kept doubled, as
//! integers: the centre is half of `twice_center_x` and `twice_center_y`, and
//! the half-extents are half of `width` and `height`.

use crate::rects::Rect;
use vstd::prelude::*;

verus! {

/// The collider of one rectangle, in world units.
#[derive(Clone, Copy, Debug, PartialEq, Eq, Structural)]
pub struct Placement {
    /// Twice the x of the centre.
    pub twice_center_x: i128,
    /// Twice the y of the centre.
    pub twice_center_y: i128,
    /// The full width: twice the half-extent along x.
    pub width: i128,
    /// The full height: twice the half-extent along y.
    pub height: i128,
}

/// Whether `p` is where `r` stands in a level whose tiles are `tile_size`
/// wide and high and whose origin is at `(anchor_x, anchor_y)`: the centre at
/// the anchor plus `tile_size` times `((left + right + 1) / 2,
/// (bottom + top + 1) / 2)`, the half-extents `tile_size` times
/// `((right - left + 1) / 2, (top - bottom + 1) / 2)`.
pub open spec fn is_placement(
    p: Placement,
    r: Rect,
    tile_size: int,
    anchor_x: int,
    anchor_y: int,
) -> bool {
    &&& p.twice_center_x == 2 * anchor_x + tile_size * (r.left + r.right + 1)
    &&& p.twice_center_y == 2 * anchor_y + tile_size * (r.bottom + r.top + 1)
    &&& p.width == tile_size * (r.right - r.left + 1)
    &&& p.height == tile_size * (r.top - r.bottom + 1)
}

/// The product of a tile size and a count of half tiles or tiles.
fn scaled(tile_size: i32, count: i64) -> (product: i128)
    requires
        -0x2_0000_0000 <= count <= 0x2_0000_0000,
    ensures
        product == tile_size * count,
        -0x1_0000_0000_0000_0000 <= product <= 0x1_0000_0000_0000_0000,
{
    assert(-0x1_0000_0000_0000_0000 <= tile_size * count <= 0x1_0000_0000_0000_0000)
        by (nonlinear_arith)
        requires
            -0x8000_0000 <= tile_size <= 0x8000_0000,
            -0x2_0000_0000 <= count <= 0x2_0000_0000,
    ;
    (tile_size as i128) * (count as i128)
}

/// Where the collider of `rect` stands.
pub fn place_rect(rect: Rect, tile_size: i32, anchor_x: i32, anchor_y: i32) -> (p: Placement)
    ensures
        is_placement(p, rect, tile_size as int, anchor_x as int, anchor_y as int),
{
    let (left, right) = (rect.left as i64, rect.right as i64);
    let (bottom, top) = (rect.bottom as i64, rect.top as i64);
    Placement {
        twice_center_x: 2 * (anchor_x as i128) + scaled(tile_size, left + right + 1),
        twice_center_y: 2 * (anchor_y as i128) + scaled(tile_size, bottom + top + 1),
        width: scaled(tile_size, right - left + 1),
        height: scaled(tile_size, top - bottom + 1),
    }
}

/// Where the colliders of the rectangles of a level stand: one placement for
/// each rectangle, in the same order.
pub fn place_rects(rects: &Vec<Rect>, tile_size: i32, anchor_x: i32, anchor_y: i32) -> (placed: Vec<
    Placement,
>)
    ensures
        placed@.len() == rects@.len(),
        forall|i: int|
            0 <= i < rects@.len() ==> is_placement(
                #[trigger] placed@[i],
                rects@[i],
                tile_size as int,
                anchor_x as int,
                anchor_y as int,
            ),
{
    let mut placed: Vec<Placement> = Vec::new();
    let mut i: usize = 0;
    while i < rects.len()
        invariant
            i <= rects@.len(),
            placed@.len() == i,
            forall|k: int|
                0 <= k < i ==> is_placement(
                    #[trigger] placed@[k],
                    rects@[k],
                    tile_size as int,
                    anchor_x as int,
                    anchor_y as int,
                ),
        decreases rects.len() - i,
    {
        placed.push(place_rect(rects[i], tile_size, anchor_x, anchor_y));
        i += 1;
    }
    placed
}

} // verus!
