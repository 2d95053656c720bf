//! What the application keeps beside the universe, and what it does with
//! the universe on each kind of input.

use crate::universe::{pos_of, Universe};
use crate::world::{advances, cell_at, sets_cell};
use vstd::prelude::*;

verus! {

/// Whether the simulation stands still.
pub struct GlobalState {
    pub paused: bool,
}

impl Default for GlobalState {
    /// The simulation starts paused.
    fn default() -> (state: Self)
        ensures
            state.paused,
    {
        Self { paused: true }
    }
}

/// The state that the pointer paints with while its button is held.
pub struct CursorDrawState {
    pub cell_state: bool,
}

impl Default for CursorDrawState {
    /// Painting starts with dead cells.
    fn default() -> (state: Self)
        ensures
            !state.cell_state,
    {
        Self { cell_state: false }
    }
}

/// The step of the schedule. A running simulation advances by one
/// generation, and the chunks to draw again are those that the step has
/// changed. A paused one is left as it is, and every chunk is drawn again,
/// so that edits show.
pub fn tick_universe(universe: &mut Universe, state: &GlobalState) -> (redraw: Vec<(i32, i32)>)
    requires
        old(universe).wf(),
    ensures
        final(universe).wf(),
        redraw@.no_duplicates(),
        state.paused ==> final(universe)@ == old(universe)@,
        state.paused ==> forall|p: (i32, i32)|
            redraw@.contains(p) <==> final(universe)@.contains_key(pos_of(p)),
        !state.paused ==> advances(old(universe)@, final(universe)@),
        !state.paused ==> forall|p: (i32, i32)|
            redraw@.contains(p) <==> final(universe)@.contains_key(pos_of(p))
                && final(universe)@[pos_of(p)].changed(),
{
    if !state.paused {
        universe.tick();
        universe.changed_chunks()
    } else {
        universe.chunk_positions()
    }
}

/// The world cell under the pointer, as coordinates of the plane.
pub open spec fn cell_under(cursor_pos: Option<(i32, i32)>) -> (int, int) {
    match cursor_pos {
        Some(pos) => pos_of(pos),
        None => (0, 0),
    }
}

/// The pointer at `cursor_pos` with its button newly pressed
/// (`just_pressed`) or held (`pressed`). Nothing happens unless the
/// simulation is paused and the pointer is over the plane. A new press
/// picks the state to paint with: the opposite of the cell under the
/// pointer. While the button is held the cell under the pointer is set to
/// that state.
pub fn handle_click(
    universe: &mut Universe,
    draw_state: &mut CursorDrawState,
    state: &GlobalState,
    cursor_pos: Option<(i32, i32)>,
    just_pressed: bool,
    pressed: bool,
)
    requires
        old(universe).wf(),
    ensures
        final(universe).wf(),
        final(draw_state).cell_state == (if state.paused && cursor_pos is Some && just_pressed {
            !cell_at(old(universe)@, cell_under(cursor_pos).0, cell_under(cursor_pos).1)
        } else {
            old(draw_state).cell_state
        }),
        state.paused && cursor_pos is Some && pressed ==> sets_cell(
            old(universe)@,
            final(universe)@,
            cell_under(cursor_pos).0,
            cell_under(cursor_pos).1,
            final(draw_state).cell_state,
        ),
        !(state.paused && cursor_pos is Some && pressed) ==> final(universe)@ == old(universe)@,
{
    if !state.paused {
        return ;
    }
    if let Some(pos) = cursor_pos {
        if just_pressed {
            draw_state.cell_state = !universe.get_cell_state(pos);
        }
        if pressed {
            universe.set_cell_state(pos, draw_state.cell_state);
        }
    }
}

/// The keys of the simulation: `toggle` pauses a running simulation and
/// lets a paused one run; `step` advances the universe by one generation,
/// paused or not. The result tells whether a step was made.
pub fn handle_play_pause(
    state: &mut GlobalState,
    universe: &mut Universe,
    toggle: bool,
    step: bool,
) -> (stepped: bool)
    requires
        old(universe).wf(),
    ensures
        final(universe).wf(),
        final(state).paused == (old(state).paused != toggle),
        stepped == step,
        step ==> advances(old(universe)@, final(universe)@),
        !step ==> final(universe)@ == old(universe)@,
{
    if toggle {
        state.paused = !state.paused;
    }
    if step {
        universe.tick();
    }
    step
}

} // verus!
