//! Which frame of a sprite sheet a character shows, and which way it moves.
//!
//! A character's sheet has four frames for each of the eight directions. While
//! a direction is held, the frame cycles through the four of that direction;
//! when none is held, the character rests on the first frame of the direction
//! it was shown in.

use vstd::prelude::*;

verus! {

/// The direction that the held keys ask for. `LAST` stands for none.
#[derive(Clone, Copy, Debug, PartialEq, Eq, Structural)]
pub enum CharacterDirection {
    N,
    NE,
    E,
    SE,
    S,
    SW,
    W,
    NW,
    LAST,
}

/// How fast a character moves along an axis while a key is held.
pub const SPEED: i32 = 100;

/// The number of frames that the sheet has for one direction.
pub const FRAMES_PER_DIRECTION: usize = 4;

/// The number of frames of the sheet.
pub const SHEET_FRAMES: usize = 32;

/// The direction of the held keys: one key alone, or two keys that are not
/// opposite. Any other set of keys gives no direction.
pub open spec fn spec_direction(up: bool, down: bool, right: bool, left: bool) -> CharacterDirection {
    match (up, down, right, left) {
        (true, false, false, false) => CharacterDirection::N,
        (true, false, true, false) => CharacterDirection::NE,
        (false, false, true, false) => CharacterDirection::E,
        (false, true, true, false) => CharacterDirection::SE,
        (false, true, false, false) => CharacterDirection::S,
        (false, true, false, true) => CharacterDirection::SW,
        (false, false, false, true) => CharacterDirection::W,
        (true, false, false, true) => CharacterDirection::NW,
        _ => CharacterDirection::LAST,
    }
}

/// The first of the four frames of a direction, if it is one.
pub open spec fn spec_first_frame(d: CharacterDirection) -> Option<int> {
    match d {
        CharacterDirection::S => Some(0),
        CharacterDirection::SW => Some(4),
        CharacterDirection::W => Some(8),
        CharacterDirection::NW => Some(12),
        CharacterDirection::N => Some(16),
        CharacterDirection::NE => Some(20),
        CharacterDirection::E => Some(24),
        CharacterDirection::SE => Some(28),
        CharacterDirection::LAST => None,
    }
}

/// The frame after `index` in the cycle from `start_frame` to `end_frame`:
/// the next frame inside the cycle, and the start from its end or from
/// outside. Without an update the frame stays.
pub open spec fn spec_animate(start_frame: int, end_frame: int, index: int, update: bool) -> int {
    if !update {
        index
    } else if start_frame <= index < end_frame {
        index + 1
    } else {
        start_frame
    }
}

/// The frame on which a character rests that shows frame `index`: the first
/// frame of the same direction. A frame that the sheet does not have stays.
pub open spec fn spec_rest_frame(index: int) -> int {
    if 0 <= index < SHEET_FRAMES {
        index - index % (FRAMES_PER_DIRECTION as int)
    } else {
        index
    }
}

/// The frame that follows `index` when the keys ask for direction `d`.
pub open spec fn spec_next_frame(d: CharacterDirection, index: int, update: bool) -> int {
    match spec_first_frame(d) {
        Some(first) => spec_animate(first, first + FRAMES_PER_DIRECTION - 1, index, update),
        None => spec_rest_frame(index),
    }
}

/// The direction that the held keys ask for.
pub fn direction(up: bool, down: bool, right: bool, left: bool) -> (d: CharacterDirection)
    ensures
        d == spec_direction(up, down, right, left),
{
    match (up, down, right, left) {
        (true, false, false, false) => CharacterDirection::N,
        (true, false, true, false) => CharacterDirection::NE,
        (false, false, true, false) => CharacterDirection::E,
        (false, true, true, false) => CharacterDirection::SE,
        (false, true, false, false) => CharacterDirection::S,
        (false, true, false, true) => CharacterDirection::SW,
        (false, false, false, true) => CharacterDirection::W,
        (true, false, false, true) => CharacterDirection::NW,
        _ => CharacterDirection::LAST,
    }
}

/// The speed along one axis: `SPEED` towards the key that is held, nothing
/// when both keys or neither are held.
pub fn axis_velocity(forward: bool, backward: bool) -> (v: i32)
    ensures
        v == SPEED * ((if forward { 1int } else { 0int }) - (if backward { 1int } else { 0int })),
{
    let f: i32 = if forward { 1 } else { 0 };
    let b: i32 = if backward { 1 } else { 0 };
    (f - b) * SPEED
}

/// The first of the four frames of a direction, if it is one.
pub fn first_frame(d: CharacterDirection) -> (first: Option<usize>)
    ensures
        match first {
            Some(f) => spec_first_frame(d) == Some(f as int),
            None => spec_first_frame(d).is_none(),
        },
{
    match d {
        CharacterDirection::S => Some(0),
        CharacterDirection::SW => Some(4),
        CharacterDirection::W => Some(8),
        CharacterDirection::NW => Some(12),
        CharacterDirection::N => Some(16),
        CharacterDirection::NE => Some(20),
        CharacterDirection::E => Some(24),
        CharacterDirection::SE => Some(28),
        CharacterDirection::LAST => None,
    }
}

/// Moves a frame one step on in the cycle from `start_frame` to `end_frame`.
pub fn animate(start_frame: usize, end_frame: usize, index: usize, update: bool) -> (next: usize)
    ensures
        next == spec_animate(start_frame as int, end_frame as int, index as int, update),
{
    if (index < start_frame || index > end_frame || index == end_frame) && update {
        start_frame
    } else if update {
        index + 1
    } else {
        index
    }
}

/// The frame on which a character rests that shows frame `index`.
pub fn rest_frame(index: usize) -> (rest: usize)
    ensures
        rest == spec_rest_frame(index as int),
{
    if index < SHEET_FRAMES {
        index - index % FRAMES_PER_DIRECTION
    } else {
        index
    }
}

/// The frame that follows `index` when the keys ask for direction `d`: a step
/// in the cycle of the direction, or the rest frame where there is none.
pub fn next_frame(d: CharacterDirection, index: usize, update: bool) -> (next: usize)
    ensures
        next == spec_next_frame(d, index as int, update),
{
    match first_frame(d) {
        Some(first) => animate(first, first + FRAMES_PER_DIRECTION - 1, index, update),
        None => rest_frame(index),
    }
}

/// The place in a sequence of `frames` frames after `current_frame`, going
/// round from the last to the first.
pub fn next_in_sequence(current_frame: usize, frames: usize) -> (next: usize)
    requires
        frames > 0,
        current_frame < usize::MAX,
    ensures
        next == (current_frame + 1) % (frames as int),
{
    (current_frame + 1) % frames
}

/// Whether a character climbs after a frame in which it was `climbing`: never
/// without something to climb within reach, and from the moment that up or
/// down is pressed with something in reach.
pub fn climbing_after(climbing: bool, in_reach: bool, pressed: bool) -> (now: bool)
    ensures
        now == (in_reach && (pressed || climbing)),
{
    if !in_reach {
        false
    } else if pressed {
        true
    } else {
        climbing
    }
}

} // verus!
