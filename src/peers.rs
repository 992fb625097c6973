use vstd::prelude::*;

use crate::input::GameInput;
use crate::ledger::{recorded, FrameSlot};
use crate::protocol::NetworkMessage;
use crate::sync::{
    advanced, applied, can_advance, delay, ledger_ok, received_all, resend_messages,
    warmup_ledger, window_start,
};

verus! {

/// The ledgers of player 0 (`a`) and player 1 (`b`) agree: they have the
/// same length, each is a well-formed session ledger, and every remote cell
/// is either still empty or holds what the other peer has locally.
pub open spec fn in_step(a: Seq<FrameSlot>, b: Seq<FrameSlot>) -> bool {
    &&& a.len() == b.len()
    &&& a.len() <= u64::MAX
    &&& ledger_ok(a, 0)
    &&& ledger_ok(b, 1)
    &&& forall|f: int| 0 <= f < a.len() ==> (#[trigger] a[f]).second is None || a[f].second == b[f].second
    &&& forall|f: int| 0 <= f < b.len() ==> (#[trigger] b[f]).first is None || b[f].first == a[f].first
}

/// Two fresh sessions are in step.
pub proof fn lemma_warmup_in_step()
    ensures
        in_step(warmup_ledger(0), warmup_ledger(1)),
{
}

/// The messages of `window` that arrive when the message at index `lost`,
/// if any, is lost on the way.
pub open spec fn deliver(window: Seq<NetworkMessage>, lost: Option<int>) -> Seq<NetworkMessage> {
    match lost {
        Some(j) => if 0 <= j < window.len() {
            window.remove(j)
        } else {
            window
        },
        None => window,
    }
}

/// Taking in `x` and then `y` is taking in `x + y`.
proof fn lemma_received_all_concat(
    s: Seq<FrameSlot>,
    r: int,
    x: Seq<NetworkMessage>,
    y: Seq<NetworkMessage>,
)
    ensures
        received_all(s, r, x + y) == received_all(received_all(s, r, x), r, y),
    decreases y.len(),
{
    if y.len() == 0 {
        assert(x + y =~= x);
    } else {
        assert((x + y).drop_last() =~= x + y.drop_last());
        assert((x + y).last() == y.last());
        lemma_received_all_concat(s, r, x, y.drop_last());
    }
}

/// After the messages `lo..hi` of the peer's resend window came in, each
/// cell of their frames holds what it held before if it was filled, or
/// else the peer's local input; every other cell is unchanged.
proof fn lemma_window_segment(s: Seq<FrameSlot>, r: int, peer: Seq<FrameSlot>, lo: int, hi: int)
    requires
        0 <= r < 2,
        s.len() == peer.len(),
        peer.len() <= u64::MAX,
        ledger_ok(peer, r),
        0 <= lo <= hi <= resend_messages(peer, r).len(),
    ensures
        ({
            let t = received_all(s, r, resend_messages(peer, r).subrange(lo, hi));
            let st = window_start(peer.len() as int);
            &&& t.len() == s.len()
            &&& forall|f: int| 0 <= f < s.len() ==> (#[trigger] t[f]).cell(1 - r) == s[f].cell(1 - r)
            &&& forall|f: int|
                0 <= f < s.len() && !(st + lo <= f < st + hi) ==> (#[trigger] t[f]).cell(r) == s[f].cell(r)
            &&& forall|f: int|
                st + lo <= f < st + hi ==> (#[trigger] t[f]).cell(r) == if s[f].cell(r) is Some {
                    s[f].cell(r)
                } else {
                    peer[f].cell(r)
                }
        }),
    decreases hi - lo,
{
    let msgs = resend_messages(peer, r);
    let st = window_start(peer.len() as int);
    if hi == lo {
        assert(msgs.subrange(lo, hi) =~= Seq::<NetworkMessage>::empty());
    } else {
        lemma_window_segment(s, r, peer, lo, hi - 1);
        assert(msgs.subrange(lo, hi).drop_last() =~= msgs.subrange(lo, hi - 1));
        let t0 = received_all(s, r, msgs.subrange(lo, hi - 1));
        let m = msgs.subrange(lo, hi).last();
        assert(m == msgs[hi - 1]);
        let g = st + hi - 1;
        assert(m == (NetworkMessage::Input { frame: g as u64, input: peer[g].cell(r)->Some_0 }));
        let t = received_all(s, r, msgs.subrange(lo, hi));
        assert(t == recorded(t0, g, r, peer[g].cell(r)->Some_0));
        assert(t0[g].cell(r) == s[g].cell(r));
    }
}

/// Receiving the resend window of a peer of equal length, with at most one
/// of its messages lost: every frame of the window but the lost one gets
/// the peer's input in its empty remote cell.
proof fn lemma_window_delivered(s: Seq<FrameSlot>, r: int, peer: Seq<FrameSlot>, lost: Option<int>)
    requires
        0 <= r < 2,
        s.len() == peer.len(),
        peer.len() <= u64::MAX,
        ledger_ok(peer, r),
    ensures
        ({
            let t = received_all(s, r, deliver(resend_messages(peer, r), lost));
            let st = window_start(peer.len() as int);
            let hole = match lost {
                Some(j) => if 0 <= j < resend_messages(peer, r).len() {
                    st + j
                } else {
                    -1
                },
                None => -1,
            };
            &&& t.len() == s.len()
            &&& forall|f: int| 0 <= f < s.len() ==> (#[trigger] t[f]).cell(1 - r) == s[f].cell(1 - r)
            &&& forall|f: int|
                0 <= f < s.len() && (f < st || f == hole) ==> (#[trigger] t[f]).cell(r) == s[f].cell(r)
            &&& forall|f: int|
                st <= f < s.len() && f != hole ==> (#[trigger] t[f]).cell(r) == if s[f].cell(r) is Some {
                    s[f].cell(r)
                } else {
                    peer[f].cell(r)
                }
        }),
{
    let msgs = resend_messages(peer, r);
    let n = msgs.len() as int;
    let st = window_start(peer.len() as int);
    if lost is Some && 0 <= lost->Some_0 < n {
        let j = lost->Some_0;
        assert(msgs.remove(j) =~= msgs.subrange(0, j) + msgs.subrange(j + 1, n));
        lemma_received_all_concat(s, r, msgs.subrange(0, j), msgs.subrange(j + 1, n));
        lemma_window_segment(s, r, peer, 0, j);
        let mid = received_all(s, r, msgs.subrange(0, j));
        lemma_window_segment(mid, r, peer, j + 1, n);
        let t = received_all(s, r, deliver(msgs, lost));
        assert(t == received_all(mid, r, msgs.subrange(j + 1, n)));
        assert forall|f: int|
            st <= f < s.len() && f != st + j implies (#[trigger] t[f]).cell(r) == if s[f].cell(
                r,
            ) is Some {
                s[f].cell(r)
            } else {
                peer[f].cell(r)
            } by {
            if f < st + j {
                assert(t[f].cell(r) == mid[f].cell(r));
            } else {
                assert(mid[f].cell(r) == s[f].cell(r));
            }
        }
    } else {
        lemma_window_segment(s, r, peer, 0, n);
        assert(msgs.subrange(0, n) =~= msgs);
    }
}

/// Lockstep under loss: two peers in step both tick, each taking in the
/// other's resend window of that tick, of which at most one message may be
/// lost on each side. When each peer already holds the remote input of the
/// frame `CONSTANT_DELAY` behind the tail, or nothing on its side is lost,
/// both advance, both apply the same pair of inputs (player 0's and player
/// 1's own inputs of that frame), and they are in step again, one frame
/// further on.
pub proof fn lemma_lockstep_round_lossy(
    a: Seq<FrameSlot>,
    b: Seq<FrameSlot>,
    input_a: GameInput,
    input_b: GameInput,
    lost_to_a: Option<int>,
    lost_to_b: Option<int>,
)
    requires
        in_step(a, b),
        a.len() < u64::MAX,
        lost_to_a is Some ==> a[a.len() - delay()].second is Some,
        lost_to_b is Some ==> b[b.len() - delay()].first is Some,
    ensures
        ({
            let a_mid = received_all(a, 1, deliver(resend_messages(b, 1), lost_to_a));
            let b_mid = received_all(b, 0, deliver(resend_messages(a, 0), lost_to_b));
            &&& can_advance(a_mid)
            &&& can_advance(b_mid)
            &&& applied(a_mid) == applied(b_mid)
            &&& applied(a_mid) == (a[a.len() - delay()].first->Some_0, b[b.len()
                - delay()].second->Some_0)
            &&& advanced(a_mid, 0, input_a).len() == a.len() + 1
            &&& in_step(advanced(a_mid, 0, input_a), advanced(b_mid, 1, input_b))
        }),
{
    let a_mid = received_all(a, 1, deliver(resend_messages(b, 1), lost_to_a));
    let b_mid = received_all(b, 0, deliver(resend_messages(a, 0), lost_to_b));
    let len = a.len() as int;
    let st = window_start(len);
    lemma_window_delivered(a, 1, b, lost_to_a);
    lemma_window_delivered(b, 0, a, lost_to_b);
    assert forall|f: int| 0 <= f < len implies (#[trigger] a_mid[f]).first == a[f].first && (
    a_mid[f].second is None || a_mid[f].second == b[f].second) && b_mid[f].second == b[f].second && (
    b_mid[f].first is None || b_mid[f].first == a[f].first) by {
        assert(a_mid[f].cell(0) == a[f].cell(0));
        assert(b_mid[f].cell(1) == b[f].cell(1));
        if f >= st {
            assert(a_mid[f].cell(1) == a[f].cell(1) || a_mid[f].cell(1) == b[f].cell(1));
            assert(b_mid[f].cell(0) == b[f].cell(0) || b_mid[f].cell(0) == a[f].cell(0));
        } else {
            assert(a_mid[f].cell(1) == a[f].cell(1));
            assert(b_mid[f].cell(0) == b[f].cell(0));
        }
    }
    let k = len - delay();
    assert(a_mid[k].second == b[k].second) by {
        assert(a_mid[k].cell(1) == a[k].cell(1) || a_mid[k].cell(1) == b[k].cell(1));
    }
    assert(b_mid[k].first == a[k].first) by {
        assert(b_mid[k].cell(0) == b[k].cell(0) || b_mid[k].cell(0) == a[k].cell(0));
    }
    assert(a_mid[k] == b_mid[k]);
    let a2 = advanced(a_mid, 0, input_a);
    let b2 = advanced(b_mid, 1, input_b);
    assert forall|f: int| 0 <= f < a2.len() implies (#[trigger] a2[f]).second is None || a2[f].second
        == b2[f].second by {
        if f < len {
            assert(a_mid[f].first == a[f].first);
        }
    }
    assert forall|f: int| 0 <= f < b2.len() implies (#[trigger] b2[f]).first is None || b2[f].first
        == a2[f].first by {
        if f < len {
            assert(a_mid[f].first == a[f].first);
        }
    }
    assert forall|f: int| 0 <= f < a2.len() implies (#[trigger] a2[f]).cell(0) is Some by {
        if f < len {
            assert(a_mid[f].first == a[f].first);
            assert(a[f].cell(0) is Some);
        }
    }
    assert forall|f: int| 0 <= f < b2.len() implies (#[trigger] b2[f]).cell(1) is Some by {
        if f < len {
            assert(b_mid[f].second == b[f].second);
            assert(b[f].cell(1) is Some);
        }
    }
    assert forall|f: int| 0 <= f < a2.len() - delay() implies (#[trigger] a2[f]).full() by {
        if f < k {
            assert(a[f].full());
            assert(a_mid[f].first == a[f].first);
            assert(a_mid[f].second is None || a_mid[f].second == b[f].second);
            assert(a[f].second == b[f].second);
            assert(a_mid[f].cell(1) == a[f].cell(1) || a_mid[f].cell(1) == b[f].cell(1));
        }
    }
    assert forall|f: int| 0 <= f < b2.len() - delay() implies (#[trigger] b2[f]).full() by {
        if f < k {
            assert(b[f].full());
            assert(b_mid[f].cell(0) == b[f].cell(0) || b_mid[f].cell(0) == a[f].cell(0));
        }
    }
}

/// Lossless lockstep: when two peers in step both tick, each taking in the
/// other's whole resend window of that tick, both advance, both apply the
/// same pair of inputs (player 0's and player 1's own inputs of the frame
/// `CONSTANT_DELAY` behind the tail), and they are in step again, one frame
/// further on.
pub proof fn lemma_lockstep_round(
    a: Seq<FrameSlot>,
    b: Seq<FrameSlot>,
    input_a: GameInput,
    input_b: GameInput,
)
    requires
        in_step(a, b),
        a.len() < u64::MAX,
    ensures
        ({
            let a_mid = received_all(a, 1, resend_messages(b, 1));
            let b_mid = received_all(b, 0, resend_messages(a, 0));
            &&& can_advance(a_mid)
            &&& can_advance(b_mid)
            &&& applied(a_mid) == applied(b_mid)
            &&& applied(a_mid) == (a[a.len() - delay()].first->Some_0, b[b.len()
                - delay()].second->Some_0)
            &&& advanced(a_mid, 0, input_a).len() == a.len() + 1
            &&& in_step(advanced(a_mid, 0, input_a), advanced(b_mid, 1, input_b))
        }),
{
    lemma_lockstep_round_lossy(a, b, input_a, input_b, None, None);
}

} // verus!
