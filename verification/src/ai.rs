use vstd::prelude::*;

verus! {

/// The most actions one entity's turn script may take before its turn is
/// cut off.
pub const MAX_ACTIONS: u32 = 10;

/// What the turn script asked for: keep running, wait the given number of
/// animation ticks, or end the turn.
#[derive(Clone, Copy, Debug, PartialEq, Eq, Structural)]
pub enum State {
    Run,
    Wait(u32),
    End,
}

/// The turn loop's decision before consulting the script: a turn that has
/// spent its action budget, or an entity with no script, ends at once.
pub fn pre_script_state(actions_taken_this_turn: u32, has_script: bool) -> (r: Option<State>)
    ensures
        r == (if actions_taken_this_turn == MAX_ACTIONS || !has_script {
            Some(State::End)
        } else {
            None::<State>
        }),
{
    if actions_taken_this_turn == MAX_ACTIONS {
        return Some(State::End);
    }
    if !has_script {
        return Some(State::End);
    }
    None
}

} // verus!
