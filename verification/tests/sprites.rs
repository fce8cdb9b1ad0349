use tile_game::menu::{toggle_pause, GameState};
use tile_game::sprites::{
    animate, axis_velocity, climbing_after, direction, first_frame, next_frame, next_in_sequence,
    rest_frame, CharacterDirection,
};

#[test]
fn single_keys_give_the_four_main_directions() {
    assert_eq!(direction(true, false, false, false), CharacterDirection::N);
    assert_eq!(direction(false, true, false, false), CharacterDirection::S);
    assert_eq!(direction(false, false, true, false), CharacterDirection::E);
    assert_eq!(direction(false, false, false, true), CharacterDirection::W);
}

#[test]
fn two_keys_give_the_diagonals() {
    assert_eq!(direction(true, false, true, false), CharacterDirection::NE);
    assert_eq!(direction(false, true, true, false), CharacterDirection::SE);
    assert_eq!(direction(false, true, false, true), CharacterDirection::SW);
    assert_eq!(direction(true, false, false, true), CharacterDirection::NW);
}

#[test]
fn other_keys_give_no_direction() {
    assert_eq!(direction(false, false, false, false), CharacterDirection::LAST);
    assert_eq!(direction(true, true, false, false), CharacterDirection::LAST);
    assert_eq!(direction(false, false, true, true), CharacterDirection::LAST);
    assert_eq!(direction(true, true, true, false), CharacterDirection::LAST);
    assert_eq!(direction(true, false, true, true), CharacterDirection::LAST);
    assert_eq!(direction(true, true, true, true), CharacterDirection::LAST);
}

#[test]
fn velocity_points_to_the_held_key() {
    assert_eq!(axis_velocity(true, false), 100);
    assert_eq!(axis_velocity(false, true), -100);
    assert_eq!(axis_velocity(true, true), 0);
    assert_eq!(axis_velocity(false, false), 0);
}

#[test]
fn each_direction_has_its_frames() {
    assert_eq!(first_frame(CharacterDirection::S), Some(0));
    assert_eq!(first_frame(CharacterDirection::SW), Some(4));
    assert_eq!(first_frame(CharacterDirection::W), Some(8));
    assert_eq!(first_frame(CharacterDirection::NW), Some(12));
    assert_eq!(first_frame(CharacterDirection::N), Some(16));
    assert_eq!(first_frame(CharacterDirection::NE), Some(20));
    assert_eq!(first_frame(CharacterDirection::E), Some(24));
    assert_eq!(first_frame(CharacterDirection::SE), Some(28));
    assert_eq!(first_frame(CharacterDirection::LAST), None);
}

#[test]
fn animate_steps_through_the_cycle() {
    assert_eq!(animate(16, 19, 16, true), 17);
    assert_eq!(animate(16, 19, 17, true), 18);
    assert_eq!(animate(16, 19, 18, true), 19);
    assert_eq!(animate(16, 19, 19, true), 16);
}

#[test]
fn animate_enters_the_cycle_from_outside() {
    assert_eq!(animate(16, 19, 3, true), 16);
    assert_eq!(animate(16, 19, 20, true), 16);
    assert_eq!(animate(0, 3, usize::MAX, true), 0);
}

#[test]
fn animate_waits_for_the_update() {
    assert_eq!(animate(16, 19, 17, false), 17);
    assert_eq!(animate(16, 19, 19, false), 19);
    assert_eq!(animate(16, 19, 3, false), 3);
}

#[test]
fn rest_frame_is_the_first_of_the_direction() {
    for index in 0..32usize {
        assert_eq!(rest_frame(index), index / 4 * 4);
    }
    assert_eq!(rest_frame(18), 16);
    assert_eq!(rest_frame(31), 28);
    assert_eq!(rest_frame(32), 32);
    assert_eq!(rest_frame(1000), 1000);
}

#[test]
fn next_frame_follows_the_direction() {
    assert_eq!(next_frame(CharacterDirection::E, 0, true), 24);
    assert_eq!(next_frame(CharacterDirection::E, 24, true), 25);
    assert_eq!(next_frame(CharacterDirection::E, 27, true), 24);
    assert_eq!(next_frame(CharacterDirection::E, 26, false), 26);
    assert_eq!(next_frame(CharacterDirection::LAST, 26, false), 24);
    assert_eq!(next_frame(CharacterDirection::LAST, 26, true), 24);
    assert_eq!(next_frame(CharacterDirection::LAST, 40, true), 40);
}

#[test]
fn sequence_goes_round() {
    assert_eq!(next_in_sequence(0, 4), 1);
    assert_eq!(next_in_sequence(2, 4), 3);
    assert_eq!(next_in_sequence(3, 4), 0);
    assert_eq!(next_in_sequence(0, 1), 0);
    assert_eq!(next_in_sequence(9, 4), 2);
}

#[test]
fn climbing_needs_something_in_reach() {
    assert!(!climbing_after(true, false, true));
    assert!(!climbing_after(true, false, false));
    assert!(climbing_after(false, true, true));
    assert!(climbing_after(true, true, false));
    assert!(!climbing_after(false, true, false));
}

#[test]
fn pause_key_toggles_between_playing_and_paused() {
    assert_eq!(toggle_pause(true, GameState::Playing), Some(GameState::Paused));
    assert_eq!(toggle_pause(true, GameState::Paused), Some(GameState::Playing));
    assert_eq!(toggle_pause(true, GameState::MainMenu), None);
}

#[test]
fn without_the_pause_key_nothing_changes() {
    assert_eq!(toggle_pause(false, GameState::Playing), None);
    assert_eq!(toggle_pause(false, GameState::Paused), None);
    assert_eq!(toggle_pause(false, GameState::MainMenu), None);
}

#[test]
fn the_game_starts_in_the_main_menu() {
    assert_eq!(GameState::default(), GameState::MainMenu);
}
