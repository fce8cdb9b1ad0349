//! The rules of a tile-based game, apart from the engine that runs it.
//!
//! Most of the library is about walls. A level is a grid of tiles, some of
//! them solid. Giving every solid tile a collider of its own makes the cost of
//! physics grow with the size of the level, so the solid tiles are joined into
//! few rectangles instead: first the maximal horizontal runs of each row
//! (`plates`), then the maximal vertical stacks of identical runs (`rects`).
//! `walls` does both, `levels` keeps the tiles of each level apart, and
//! `placement` says where the collider of a rectangle stands. The rectangles
//! cover the solid tiles exactly and never overlap, which `laws` proves.
//!
//! `sprites` and `menu` hold the small decisions that the game makes once a
//! frame: the frame of a character's sprite sheet, and the pause key. `keys`
//! knows the names of the keys that a timeline can bind a response to.

pub mod grid;
pub mod keys;
pub mod laws;
pub mod levels;
pub mod menu;
pub mod placement;
pub mod plates;
pub mod rects;
pub mod sprites;
pub mod walls;
