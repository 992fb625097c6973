use vstd::prelude::*;

use crate::input::{idle_input, GameInput};
use crate::ledger::{lemma_record_idempotent, lemma_record_monotone, recorded, FrameLedger, FrameSlot};
use crate::protocol::NetworkMessage;

verus! {

/// Frames of input latency: the input sampled for frame `n` is applied when
/// the simulation reaches frame `n + CONSTANT_DELAY`.
pub const CONSTANT_DELAY: usize = 8;

pub open spec fn delay() -> int {
    CONSTANT_DELAY as int
}

/// The ledger a session starts with: `CONSTANT_DELAY` frames whose local cell
/// holds the idle input, so that the first frames need no special case.
pub open spec fn warmup_ledger(self_id: int) -> Seq<FrameSlot> {
    Seq::new(CONSTANT_DELAY as nat, |f: int| FrameSlot::own_only(self_id, idle_input()))
}

/// What every ledger of a running session satisfies: the local cell of every
/// frame is filled, and every frame more than `CONSTANT_DELAY` behind the
/// tail has both cells filled.
pub open spec fn ledger_ok(s: Seq<FrameSlot>, self_id: int) -> bool {
    &&& s.len() >= delay()
    &&& forall|f: int| 0 <= f < s.len() ==> (#[trigger] s[f]).cell(self_id) is Some
    &&& forall|f: int| 0 <= f < s.len() - delay() ==> (#[trigger] s[f]).full()
}

/// The ledger after message `m` came from the player `remote`: only `Input`
/// messages count.
pub open spec fn received(s: Seq<FrameSlot>, remote: int, m: NetworkMessage) -> Seq<FrameSlot> {
    match m {
        NetworkMessage::Input { frame, input } => recorded(s, frame as int, remote, input),
        _ => s,
    }
}

/// The ledger after the messages `msgs` came in, in order.
pub open spec fn received_all(s: Seq<FrameSlot>, remote: int, msgs: Seq<NetworkMessage>) -> Seq<
    FrameSlot,
>
    decreases msgs.len(),
{
    if msgs.len() == 0 {
        s
    } else {
        received(received_all(s, remote, msgs.drop_last()), remote, msgs.last())
    }
}

/// First frame that a ledger of length `len` sends again.
pub open spec fn window_start(len: int) -> int {
    if len > 2 * delay() {
        len - 2 * delay()
    } else {
        0
    }
}

/// The local inputs of the trailing `2 * CONSTANT_DELAY` frames, oldest first.
pub open spec fn resend_messages(s: Seq<FrameSlot>, self_id: int) -> Seq<NetworkMessage> {
    let start = window_start(s.len() as int);
    Seq::new(
        (s.len() - start) as nat,
        |k: int|
            NetworkMessage::Input {
                frame: (start + k) as u64,
                input: s[start + k].cell(self_id)->Some_0,
            },
    )
}

/// The frame `CONSTANT_DELAY` behind the tail has both players' inputs.
pub open spec fn can_advance(s: Seq<FrameSlot>) -> bool {
    s.len() >= delay() && s[s.len() - delay()].full()
}

/// The pair of inputs (player 0, player 1) that an advance applies.
pub open spec fn applied(s: Seq<FrameSlot>) -> (GameInput, GameInput) {
    let slot = s[s.len() - delay()];
    (slot.first->Some_0, slot.second->Some_0)
}

/// The ledger after an attempt to advance with the local input `own`.
pub open spec fn advanced(s: Seq<FrameSlot>, self_id: int, own: GameInput) -> Seq<FrameSlot> {
    if can_advance(s) {
        s.push(FrameSlot::own_only(self_id, own))
    } else {
        s
    }
}

/// What one tick hands back to the code around it.
pub struct TickOutput {
    /// The messages to send to the other peer, in order.
    pub outbox: Vec<NetworkMessage>,
    /// The inputs (player 0, player 1) to apply, when the simulation advances.
    pub advanced: Option<(GameInput, GameInput)>,
}

/// The delayed-lockstep synchronizer of one peer.
pub struct NetworkGame {
    self_id: usize,
    // all the inputs from the beginning of the game
    frames_buffer: FrameLedger,
}

impl NetworkGame {
    /// The local player's index.
    pub closed spec fn id(&self) -> int {
        self.self_id as int
    }

    /// The input ledger.
    pub closed spec fn ledger(&self) -> Seq<FrameSlot> {
        self.frames_buffer@
    }

    /// The index of the next frame slot to be appended.
    pub open spec fn current_frame(&self) -> nat {
        self.ledger().len()
    }

    pub open spec fn wf(&self) -> bool {
        &&& 0 <= self.id() < 2
        &&& ledger_ok(self.ledger(), self.id())
    }

    /// A session of the local player `id`, its ledger filled for the first
    /// `CONSTANT_DELAY` frames.
    pub fn new(id: usize) -> (r: NetworkGame)
        requires
            id < 2,
        ensures
            r.wf(),
            r.id() == id,
            r.ledger() == warmup_ledger(id as int),
    {
        let mut frames_buffer = FrameLedger::new();
        let mut i: usize = 0;
        while i < CONSTANT_DELAY
            invariant
                i <= CONSTANT_DELAY,
                id < 2,
                frames_buffer@ =~= Seq::new(
                    i as nat,
                    |f: int| FrameSlot::own_only(id as int, idle_input()),
                ),
            decreases CONSTANT_DELAY - i,
        {
            frames_buffer.append(FrameSlot::new_own(id, GameInput::idle()));
            i += 1;
            assert(frames_buffer@ =~= Seq::new(
                i as nat,
                |f: int| FrameSlot::own_only(id as int, idle_input()),
            ));
        }
        NetworkGame { self_id: id, frames_buffer }
    }

    pub fn self_id(&self) -> (r: usize)
        ensures
            r == self.id(),
    {
        self.self_id
    }

    /// The other player's index.
    pub fn remote_id(&self) -> (r: usize)
        requires
            self.wf(),
        ensures
            r == 1 - self.id(),
    {
        if self.self_id == 1 {
            0
        } else {
            1
        }
    }

    pub fn frame(&self) -> (r: usize)
        ensures
            r == self.current_frame(),
    {
        self.frames_buffer.len()
    }

    pub fn slot(&self, frame: usize) -> (r: FrameSlot)
        requires
            frame < self.current_frame(),
        ensures
            r == self.ledger()[frame as int],
    {
        self.frames_buffer.slot(frame)
    }

    /// The messages that carry the local inputs of the trailing window of
    /// `2 * CONSTANT_DELAY` frames, sent again on every tick to make up for
    /// lost datagrams.
    pub fn resend_window(&self) -> (r: Vec<NetworkMessage>)
        requires
            self.wf(),
        ensures
            r@ == resend_messages(self.ledger(), self.id()),
    {
        let len = self.frames_buffer.len();
        let start: usize = if len > 2 * CONSTANT_DELAY {
            len - 2 * CONSTANT_DELAY
        } else {
            0
        };
        let ghost want = resend_messages(self.ledger(), self.id());
        let mut out: Vec<NetworkMessage> = Vec::new();
        let mut i: usize = start;
        while i < len
            invariant
                self.wf(),
                len == self.ledger().len(),
                start == window_start(len as int),
                start <= i <= len,
                want == resend_messages(self.ledger(), self.id()),
                out@.len() == i - start,
                forall|k: int| 0 <= k < i - start ==> out@[k] == want[k],
            decreases len - i,
        {
            let own = self.frames_buffer.slot(i).get(self.self_id);
            let input = own.unwrap();
            out.push(NetworkMessage::Input { frame: i as u64, input });
            i += 1;
        }
        assert(out@ =~= want);
        out
    }

    /// Takes in one message from the other peer: an `Input` fills the remote
    /// cell of its frame, when that frame is in the ledger and the cell is
    /// still empty; anything else is ignored.
    pub fn receive(&mut self, message: NetworkMessage)
        requires
            old(self).wf(),
        ensures
            final(self).wf(),
            final(self).id() == old(self).id(),
            final(self).ledger() == received(old(self).ledger(), 1 - old(self).id(), message),
    {
        let remote = self.remote_id();
        proof {
            lemma_received_keeps_ok(self.ledger(), self.id(), message);
        }
        if let NetworkMessage::Input { frame, input } = message {
            self.frames_buffer.record(frame, remote, input);
        }
    }

    /// Takes in the messages of `inbox`, in order.
    pub fn receive_all(&mut self, inbox: &Vec<NetworkMessage>)
        requires
            old(self).wf(),
        ensures
            final(self).wf(),
            final(self).id() == old(self).id(),
            final(self).ledger() == received_all(old(self).ledger(), 1 - old(self).id(), inbox@),
    {
        let ghost s0 = self.ledger();
        let ghost id0 = self.id();
        let mut i: usize = 0;
        while i < inbox.len()
            invariant
                self.wf(),
                self.id() == id0,
                i <= inbox@.len(),
                self.ledger() == received_all(s0, 1 - id0, inbox@.take(i as int)),
            decreases inbox@.len() - i,
        {
            let m = inbox[i];
            self.receive(m);
            proof {
                assert(inbox@.take(i + 1).drop_last() =~= inbox@.take(i as int));
            }
            i += 1;
        }
        proof {
            assert(inbox@.take(i as int) =~= inbox@);
        }
    }

    /// Advances when the frame `CONSTANT_DELAY` behind the tail has both
    /// inputs: returns them, and appends a slot holding `own_input` in the
    /// local cell. Otherwise returns `None` and changes nothing.
    pub fn try_advance(&mut self, own_input: GameInput) -> (r: Option<(GameInput, GameInput)>)
        requires
            old(self).wf(),
        ensures
            final(self).wf(),
            final(self).id() == old(self).id(),
            final(self).ledger() == advanced(old(self).ledger(), old(self).id(), own_input),
            r is Some <==> can_advance(old(self).ledger()),
            r is Some ==> r == Some(applied(old(self).ledger())),
    {
        let len = self.frames_buffer.len();
        let slot = self.frames_buffer.slot(len - CONSTANT_DELAY);
        match (slot.first, slot.second) {
            (Some(p1_input), Some(p2_input)) => {
                let new_frame = FrameSlot::new_own(self.self_id, own_input);
                self.frames_buffer.append(new_frame);
                Some((p1_input, p2_input))
            },
            _ => None,
        }
    }

    /// One fixed simulation tick: the resend window is computed, the
    /// messages of `inbox` are taken in, and then the simulation advances if
    /// it can. The current frame grows by one when it advances and stays put
    /// otherwise.
    pub fn fixed_update(&mut self, own_input: GameInput, inbox: &Vec<NetworkMessage>) -> (r:
        TickOutput)
        requires
            old(self).wf(),
        ensures
            final(self).wf(),
            final(self).id() == old(self).id(),
            r.outbox@ == resend_messages(old(self).ledger(), old(self).id()),
            final(self).ledger() == advanced(
                received_all(old(self).ledger(), 1 - old(self).id(), inbox@),
                old(self).id(),
                own_input,
            ),
            r.advanced is Some <==> can_advance(
                received_all(old(self).ledger(), 1 - old(self).id(), inbox@),
            ),
            r.advanced is Some ==> r.advanced == Some(
                applied(received_all(old(self).ledger(), 1 - old(self).id(), inbox@)),
            ),
            final(self).current_frame() == old(self).current_frame() + (if r.advanced is Some {
                1int
            } else {
                0int
            }),
    {
        let outbox = self.resend_window();
        let ghost before = self.ledger();
        self.receive_all(inbox);
        proof {
            lemma_received_all_len(before, 1 - self.id(), inbox@);
        }
        let advanced = self.try_advance(own_input);
        TickOutput { outbox, advanced }
    }
}

/// Delay invariant: in a running session every frame more than
/// `CONSTANT_DELAY` behind the current frame has both inputs; in particular
/// the remote input of every frame before `current_frame - CONSTANT_DELAY - 1`
/// has arrived. An advance past frame `f + CONSTANT_DELAY` needs frame `f`
/// full.
pub proof fn lemma_delay_invariant(g: &NetworkGame, own: GameInput)
    requires
        g.wf(),
    ensures
        forall|f: int|
            0 <= f < g.current_frame() - delay() ==> (#[trigger] g.ledger()[f]).full(),
        forall|f: int|
            0 <= f < g.current_frame() - delay() - 1 ==> (#[trigger] g.ledger()[f]).cell(
                1 - g.id(),
            ) is Some,
        advanced(g.ledger(), g.id(), own).len() > g.current_frame() ==> g.ledger()[g.current_frame()
            - delay()].full(),
{
    assert forall|f: int| 0 <= f < g.current_frame() - delay() - 1 implies (#[trigger] g.ledger()[
        f]).cell(1 - g.id()) is Some by {
        assert(g.ledger()[f].full());
    }
}

/// Every local input of the last `2 * CONSTANT_DELAY` frames is in the
/// resend window, at its place in frame order; so a frame whose datagram
/// was lost goes out again on each tick until the sender is
/// `2 * CONSTANT_DELAY` frames past it.
pub proof fn lemma_resend_covers(s: Seq<FrameSlot>, self_id: int, f: int)
    requires
        0 <= self_id < 2,
        ledger_ok(s, self_id),
        0 <= f < s.len(),
        s.len() <= f + 2 * delay(),
        s.len() <= u64::MAX,
    ensures
        0 <= f - window_start(s.len() as int) < resend_messages(s, self_id).len(),
        resend_messages(s, self_id)[f - window_start(s.len() as int)] == (NetworkMessage::Input {
            frame: f as u64,
            input: s[f].cell(self_id)->Some_0,
        }),
        s[f].cell(self_id) is Some,
{
}

/// Delivering the same message twice leaves the ledger that delivering it
/// once leaves.
pub proof fn lemma_duplicate_delivery(s: Seq<FrameSlot>, remote: int, m: NetworkMessage)
    requires
        0 <= remote < 2,
    ensures
        received(received(s, remote, m), remote, m) == received(s, remote, m),
{
    if let NetworkMessage::Input { frame, input } = m {
        lemma_record_idempotent(s, frame as int, remote, input);
    }
}

/// A tick moves the current frame forward by one or leaves it; it never
/// goes back.
pub proof fn lemma_no_regression(s: Seq<FrameSlot>, self_id: int, inbox: Seq<NetworkMessage>, own: GameInput)
    ensures
        advanced(received_all(s, 1 - self_id, inbox), self_id, own).len() == s.len()
            || advanced(received_all(s, 1 - self_id, inbox), self_id, own).len() == s.len() + 1,
{
    lemma_received_all_len(s, 1 - self_id, inbox);
}

/// A cell that is filled stays filled with the same value while messages
/// come in, and the ledger keeps its length.
pub proof fn lemma_received_all_keeps(s: Seq<FrameSlot>, remote: int, msgs: Seq<NetworkMessage>)
    requires
        0 <= remote < 2,
    ensures
        received_all(s, remote, msgs).len() == s.len(),
        forall|f: int, q: int|
            0 <= f < s.len() && 0 <= q < 2 && s[f].cell(q) is Some ==> #[trigger] received_all(
                s,
                remote,
                msgs,
            )[f].cell(q) == s[f].cell(q),
    decreases msgs.len(),
{
    if msgs.len() > 0 {
        let mid = received_all(s, remote, msgs.drop_last());
        lemma_received_all_keeps(s, remote, msgs.drop_last());
        if let NetworkMessage::Input { frame, input } = msgs.last() {
            lemma_record_monotone(mid, frame as int, remote, input);
        }
        assert forall|f: int, q: int|
            0 <= f < s.len() && 0 <= q < 2 && s[f].cell(q) is Some implies #[trigger] received_all(
                s,
                remote,
                msgs,
            )[f].cell(q) == s[f].cell(q) by {
            assert(mid[f].cell(q) == s[f].cell(q));
        }
    }
}

/// Once any one of `msgs` carries an input for a frame inside the ledger,
/// the remote cell of that frame is filled.
pub proof fn lemma_received_all_fills(
    s: Seq<FrameSlot>,
    remote: int,
    msgs: Seq<NetworkMessage>,
    k: int,
)
    requires
        0 <= remote < 2,
        0 <= k < msgs.len(),
        msgs[k] is Input,
        msgs[k]->frame < s.len(),
    ensures
        received_all(s, remote, msgs)[msgs[k]->frame as int].cell(remote) is Some,
    decreases msgs.len(),
{
    let f = msgs[k]->frame as int;
    let mid = received_all(s, remote, msgs.drop_last());
    lemma_received_all_len(s, remote, msgs.drop_last());
    if k == msgs.len() - 1 {
        assert(msgs.last() == msgs[k]);
    } else {
        assert(msgs.drop_last()[k] == msgs[k]);
        lemma_received_all_fills(s, remote, msgs.drop_last(), k);
        if let NetworkMessage::Input { frame, input } = msgs.last() {
            lemma_record_monotone(mid, frame as int, remote, input);
        }
        assert(received(mid, remote, msgs.last())[f].cell(remote) == mid[f].cell(remote));
    }
}

/// Loss recovery: whatever became of earlier datagrams, one delivered resend
/// window of the sender fills the receiver's remote cell of every frame that
/// the window still holds, that is of each frame the sender is fewer than
/// `2 * CONSTANT_DELAY` frames past. A single lost datagram therefore holds
/// nothing up once a later window arrives.
pub proof fn lemma_lost_input_recovered(
    s: Seq<FrameSlot>,
    self_id: int,
    peer: Seq<FrameSlot>,
    f: int,
)
    requires
        0 <= self_id < 2,
        ledger_ok(peer, 1 - self_id),
        0 <= f < s.len(),
        f < peer.len() <= f + 2 * delay(),
        peer.len() <= u64::MAX,
    ensures
        received_all(s, 1 - self_id, resend_messages(peer, 1 - self_id))[f].cell(1 - self_id) is Some,
{
    let msgs = resend_messages(peer, 1 - self_id);
    let k = f - window_start(peer.len() as int);
    lemma_resend_covers(peer, 1 - self_id, f);
    lemma_received_all_fills(s, 1 - self_id, msgs, k);
}

/// Receiving a message keeps a session's ledger well formed.
pub proof fn lemma_received_keeps_ok(s: Seq<FrameSlot>, self_id: int, m: NetworkMessage)
    requires
        0 <= self_id < 2,
        ledger_ok(s, self_id),
    ensures
        ledger_ok(received(s, 1 - self_id, m), self_id),
{
    if let NetworkMessage::Input { frame, input } = m {
        let t = recorded(s, frame as int, 1 - self_id, input);
        lemma_record_monotone(s, frame as int, 1 - self_id, input);
        assert forall|f: int| 0 <= f < t.len() implies (#[trigger] t[f]).cell(self_id) is Some by {
            assert(s[f].cell(self_id) is Some);
            assert(t[f].cell(self_id) == s[f].cell(self_id));
        }
        assert forall|f: int| 0 <= f < t.len() - delay() implies (#[trigger] t[f]).full() by {
            assert(s[f].full());
            assert(s[f].cell(0) is Some && s[f].cell(1) is Some);
            assert(t[f].cell(0) == s[f].cell(0));
            assert(t[f].cell(1) == s[f].cell(1));
        }
    }
}

/// Receiving messages never changes the ledger's length.
pub proof fn lemma_received_all_len(s: Seq<FrameSlot>, remote: int, msgs: Seq<NetworkMessage>)
    ensures
        received_all(s, remote, msgs).len() == s.len(),
    decreases msgs.len(),
{
    if msgs.len() > 0 {
        lemma_received_all_len(s, remote, msgs.drop_last());
    }
}

} // verus!
