use vstd::prelude::*;

verus! {

/// One player's control state for one simulation frame.
///
/// A plain value: copied into the ledger and into messages, never shared.
#[derive(Clone, Copy, Debug, PartialEq, Eq, Structural)]
pub struct GameInput {
    pub left: bool,
    pub right: bool,
    pub up: bool,
    pub down: bool,
    pub jump: bool,
    pub fire: bool,
    pub throw: bool,
}

/// The "no input" value: every control released.
pub open spec fn idle_input() -> GameInput {
    GameInput {
        left: false,
        right: false,
        up: false,
        down: false,
        jump: false,
        fire: false,
        throw: false,
    }
}

impl GameInput {
    /// The input of a player who touches nothing.
    pub fn idle() -> (r: GameInput)
        ensures
            r == idle_input(),
    {
        GameInput {
            left: false,
            right: false,
            up: false,
            down: false,
            jump: false,
            fire: false,
            throw: false,
        }
    }
}

impl Default for GameInput {
    fn default() -> (r: GameInput)
        ensures
            r == idle_input(),
    {
        GameInput::idle()
    }
}

} // verus!
