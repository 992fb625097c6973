use vstd::prelude::*;

use crate::input::GameInput;

verus! {

/// The inputs of both players for one frame; player 0 first.
#[derive(Clone, Copy, Debug, PartialEq, Eq)]
pub struct FrameSlot {
    pub first: Option<GameInput>,
    pub second: Option<GameInput>,
}

impl FrameSlot {
    /// The cell of `player` (0 or 1).
    pub open spec fn cell(self, player: int) -> Option<GameInput> {
        if player == 0 {
            self.first
        } else {
            self.second
        }
    }

    /// The slot with the cell of `player` set to `x`, the other cell kept.
    pub open spec fn with_cell(self, player: int, x: GameInput) -> FrameSlot {
        if player == 0 {
            FrameSlot { first: Some(x), second: self.second }
        } else {
            FrameSlot { first: self.first, second: Some(x) }
        }
    }

    /// Both players' inputs are known.
    pub open spec fn full(self) -> bool {
        self.first is Some && self.second is Some
    }

    /// A slot that holds `x` in the cell of `player` and nothing in the other.
    pub open spec fn own_only(player: int, x: GameInput) -> FrameSlot {
        FrameSlot { first: None, second: None }.with_cell(player, x)
    }

    pub fn new_own(player: usize, x: GameInput) -> (r: FrameSlot)
        requires
            player < 2,
        ensures
            r == FrameSlot::own_only(player as int, x),
    {
        if player == 0 {
            FrameSlot { first: Some(x), second: None }
        } else {
            FrameSlot { first: None, second: Some(x) }
        }
    }

    pub fn get(&self, player: usize) -> (r: Option<GameInput>)
        requires
            player < 2,
        ensures
            r == self.cell(player as int),
    {
        if player == 0 {
            self.first
        } else {
            self.second
        }
    }

    pub fn is_full(&self) -> (r: bool)
        ensures
            r == self.full(),
    {
        self.first.is_some() && self.second.is_some()
    }
}

/// The ledger after `player`'s input `x` for `frame` arrived: the cell is
/// filled when the frame is inside the ledger and the cell is still empty;
/// otherwise nothing changes.
pub open spec fn recorded(s: Seq<FrameSlot>, frame: int, player: int, x: GameInput) -> Seq<FrameSlot> {
    if 0 <= frame < s.len() && s[frame].cell(player) is None {
        s.update(frame, s[frame].with_cell(player, x))
    } else {
        s
    }
}

/// The per-frame record of both players' inputs, indexed by frame number.
/// It only grows at the tail, and a filled cell is never changed.
pub struct FrameLedger {
    slots: Vec<FrameSlot>,
}

impl View for FrameLedger {
    type V = Seq<FrameSlot>;

    closed spec fn view(&self) -> Seq<FrameSlot> {
        self.slots@
    }
}

impl FrameLedger {
    pub fn new() -> (r: FrameLedger)
        ensures
            r@ == Seq::<FrameSlot>::empty(),
    {
        FrameLedger { slots: Vec::new() }
    }

    pub fn len(&self) -> (r: usize)
        ensures
            r == self@.len(),
    {
        self.slots.len()
    }

    pub fn slot(&self, frame: usize) -> (r: FrameSlot)
        requires
            frame < self@.len(),
        ensures
            r == self@[frame as int],
    {
        self.slots[frame]
    }

    /// Fills the cell of `player` at `frame` with `x`, unless the frame lies
    /// beyond the tail or the cell is already filled.
    pub fn record(&mut self, frame: u64, player: usize, x: GameInput)
        requires
            player < 2,
        ensures
            final(self)@ == recorded(old(self)@, frame as int, player as int, x),
    {
        if frame < self.slots.len() as u64 {
            let f = frame as usize;
            let slot = self.slots[f];
            if slot.get(player).is_none() {
                let filled = if player == 0 {
                    FrameSlot { first: Some(x), second: slot.second }
                } else {
                    FrameSlot { first: slot.first, second: Some(x) }
                };
                self.slots[f] = filled;
            }
        }
    }

    /// Adds `slot` at the tail.
    pub fn append(&mut self, slot: FrameSlot)
        ensures
            final(self)@ == old(self)@.push(slot),
    {
        self.slots.push(slot);
    }
}

/// A filled cell keeps its value, and no cell is emptied, whatever arrives.
pub proof fn lemma_record_monotone(s: Seq<FrameSlot>, frame: int, player: int, x: GameInput)
    requires
        0 <= player < 2,
    ensures
        recorded(s, frame, player, x).len() == s.len(),
        forall|g: int, q: int|
            0 <= g < s.len() && 0 <= q < 2 && s[g].cell(q) is Some ==> #[trigger] recorded(
                s,
                frame,
                player,
                x,
            )[g].cell(q) == s[g].cell(q),
        forall|g: int, q: int|
            0 <= g < s.len() && 0 <= q < 2 && q != player ==> #[trigger] recorded(
                s,
                frame,
                player,
                x,
            )[g].cell(q) == s[g].cell(q),
{
}

/// Recording a second value for a cell leaves the first one in it.
pub proof fn lemma_record_keeps_first(
    s: Seq<FrameSlot>,
    frame: int,
    player: int,
    x: GameInput,
    y: GameInput,
)
    requires
        0 <= player < 2,
    ensures
        recorded(recorded(s, frame, player, x), frame, player, y) == recorded(s, frame, player, x),
{
}

/// Recording the same value twice gives the ledger that recording it once gives.
pub proof fn lemma_record_idempotent(s: Seq<FrameSlot>, frame: int, player: int, x: GameInput)
    requires
        0 <= player < 2,
    ensures
        recorded(recorded(s, frame, player, x), frame, player, x) == recorded(s, frame, player, x),
{
    lemma_record_keeps_first(s, frame, player, x, x);
}

/// An input for a frame at or beyond the tail is dropped: the ledger neither
/// grows nor changes.
pub proof fn lemma_record_beyond_tail(s: Seq<FrameSlot>, frame: int, player: int, x: GameInput)
    requires
        frame >= s.len(),
    ensures
        recorded(s, frame, player, x) == s,
{
}

} // verus!
