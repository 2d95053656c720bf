use game_of_life::state::{handle_click, handle_play_pause, tick_universe};
use game_of_life::{CursorDrawState, GlobalState, Universe};

#[test]
fn simulation_starts_paused() {
    let state = GlobalState::default();
    assert!(state.paused);
}

#[test]
fn painting_starts_with_dead_cells() {
    let draw_state = CursorDrawState::default();
    assert!(!draw_state.cell_state);
}

#[test]
fn click_is_ignored_while_running() {
    let mut universe = Universe::new();
    let mut draw_state = CursorDrawState { cell_state: true };
    let state = GlobalState { paused: false };
    handle_click(&mut universe, &mut draw_state, &state, Some((3, 3)), true, true);
    assert!(universe.chunk_positions().is_empty());
    assert!(draw_state.cell_state);
}

#[test]
fn click_off_the_plane_is_ignored() {
    let mut universe = Universe::new();
    let mut draw_state = CursorDrawState::default();
    let state = GlobalState::default();
    handle_click(&mut universe, &mut draw_state, &state, None, true, true);
    assert!(universe.chunk_positions().is_empty());
    assert!(!draw_state.cell_state);
}

#[test]
fn press_on_a_dead_cell_paints_live_cells() {
    let mut universe = Universe::new();
    let mut draw_state = CursorDrawState::default();
    let state = GlobalState::default();
    handle_click(&mut universe, &mut draw_state, &state, Some((3, 3)), true, true);
    assert!(draw_state.cell_state);
    assert!(universe.get_cell_state((3, 3)));
    handle_click(&mut universe, &mut draw_state, &state, Some((4, 3)), false, true);
    assert!(universe.get_cell_state((4, 3)));
    handle_click(&mut universe, &mut draw_state, &state, Some((3, 3)), false, true);
    assert!(universe.get_cell_state((3, 3)));
}

#[test]
fn press_on_a_live_cell_paints_dead_cells() {
    let mut universe = Universe::new();
    universe.set_cell_state((3, 3), true);
    universe.set_cell_state((4, 3), true);
    let mut draw_state = CursorDrawState { cell_state: true };
    let state = GlobalState::default();
    handle_click(&mut universe, &mut draw_state, &state, Some((3, 3)), true, true);
    assert!(!draw_state.cell_state);
    assert!(!universe.get_cell_state((3, 3)));
    handle_click(&mut universe, &mut draw_state, &state, Some((4, 3)), false, true);
    assert!(!universe.get_cell_state((4, 3)));
}

#[test]
fn pointer_without_button_changes_nothing() {
    let mut universe = Universe::new();
    let mut draw_state = CursorDrawState { cell_state: true };
    let state = GlobalState::default();
    handle_click(&mut universe, &mut draw_state, &state, Some((3, 3)), false, false);
    assert!(universe.chunk_positions().is_empty());
    assert!(draw_state.cell_state);
}

#[test]
fn new_press_without_hold_only_picks_the_state() {
    let mut universe = Universe::new();
    let mut draw_state = CursorDrawState::default();
    let state = GlobalState::default();
    handle_click(&mut universe, &mut draw_state, &state, Some((3, 3)), true, false);
    assert!(draw_state.cell_state);
    assert!(universe.chunk_positions().is_empty());
}

#[test]
fn toggle_key_pauses_and_resumes() {
    let mut universe = Universe::new();
    let mut state = GlobalState::default();
    assert!(!handle_play_pause(&mut state, &mut universe, true, false));
    assert!(!state.paused);
    assert!(!handle_play_pause(&mut state, &mut universe, true, false));
    assert!(state.paused);
    assert!(!handle_play_pause(&mut state, &mut universe, false, false));
    assert!(state.paused);
}

#[test]
fn step_key_advances_one_generation() {
    let mut universe = Universe::new();
    universe.set_cell_state((24, 25), true);
    universe.set_cell_state((25, 25), true);
    universe.set_cell_state((26, 25), true);
    let mut state = GlobalState::default();
    assert!(handle_play_pause(&mut state, &mut universe, false, true));
    assert!(state.paused);
    assert!(universe.get_cell_state((25, 24)));
    assert!(universe.get_cell_state((25, 26)));
    assert!(!universe.get_cell_state((24, 25)));
}

#[test]
fn schedule_advances_a_running_simulation() {
    let mut universe = Universe::new();
    universe.set_cell_state((24, 25), true);
    universe.set_cell_state((25, 25), true);
    universe.set_cell_state((26, 25), true);
    let state = GlobalState { paused: false };
    let redraw = tick_universe(&mut universe, &state);
    assert_eq!(redraw, vec![(0, 0)]);
    assert!(universe.get_cell_state((25, 24)));
    assert_eq!(universe.chunk_positions().len(), 9);
}

#[test]
fn schedule_leaves_a_paused_simulation_and_redraws_all() {
    let mut universe = Universe::new();
    universe.set_cell_state((24, 25), true);
    universe.set_cell_state((25, 25), true);
    universe.set_cell_state((26, 25), true);
    universe.set_cell_state((126, 25), false);
    let state = GlobalState::default();
    let mut redraw = tick_universe(&mut universe, &state);
    redraw.sort();
    assert_eq!(redraw, vec![(0, 0), (2, 0)]);
    assert!(universe.get_cell_state((24, 25)));
    assert!(!universe.get_cell_state((25, 24)));
}

#[test]
fn schedule_redraws_nothing_for_a_still_life() {
    let mut universe = Universe::new();
    universe.set_cell_state((20, 20), true);
    universe.set_cell_state((20, 21), true);
    universe.set_cell_state((21, 20), true);
    universe.set_cell_state((21, 21), true);
    let state = GlobalState { paused: false };
    assert!(tick_universe(&mut universe, &state).is_empty());
    assert!(tick_universe(&mut universe, &state).is_empty());
    assert_eq!(universe.chunk_positions().len(), 9);
}
