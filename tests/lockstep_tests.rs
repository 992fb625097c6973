use lockstep::{
    check_datagram, DatagramError, FrameLedger, FrameSlot, GameInput, NetworkGame,
    NetworkMessage, CONSTANT_DELAY, DATAGRAM_BUFFER,
};

fn pressed(k: usize) -> GameInput {
    GameInput {
        left: k % 2 == 0,
        right: k % 3 == 0,
        up: k % 5 == 0,
        down: k % 7 == 0,
        jump: true,
        fire: k % 11 == 0,
        throw: k % 13 == 0,
    }
}

fn other(k: usize) -> GameInput {
    GameInput {
        left: false,
        right: true,
        up: k % 2 == 1,
        down: k % 3 == 1,
        jump: false,
        fire: true,
        throw: k % 4 == 1,
    }
}

type Pair = Option<(GameInput, GameInput)>;

/// One tick on both peers over a link that delivers what each sent this
/// tick before the other drains, except what `drop` says to lose.
fn round(
    a: &mut NetworkGame,
    b: &mut NetworkGame,
    ia: GameInput,
    ib: GameInput,
    drop: &dyn Fn(bool, &NetworkMessage) -> bool,
) -> (Pair, Pair) {
    let out_a: Vec<NetworkMessage> = a.resend_window().into_iter().filter(|m| !drop(true, m)).collect();
    let out_b: Vec<NetworkMessage> = b.resend_window().into_iter().filter(|m| !drop(false, m)).collect();
    let ra = a.fixed_update(ia, &out_b);
    let rb = b.fixed_update(ib, &out_a);
    (ra.advanced, rb.advanced)
}

fn no_loss(_from_a: bool, _m: &NetworkMessage) -> bool {
    false
}

#[test]
fn new_prefills_delay_frames() {
    for id in 0..2usize {
        let g = NetworkGame::new(id);
        assert_eq!(g.frame(), CONSTANT_DELAY);
        assert_eq!(g.self_id(), id);
        assert_eq!(g.remote_id(), 1 - id);
        for f in 0..CONSTANT_DELAY {
            let s = g.slot(f);
            let idle = Some(GameInput::default());
            if id == 0 {
                assert_eq!(s, FrameSlot { first: idle, second: None });
            } else {
                assert_eq!(s, FrameSlot { first: None, second: idle });
            }
        }
    }
}

#[test]
fn default_input_is_idle() {
    let d = GameInput::default();
    assert_eq!(d, GameInput::idle());
    assert!(!d.left && !d.right && !d.up && !d.down && !d.jump && !d.fire && !d.throw);
}

#[test]
fn record_keeps_first_value() {
    let mut l = FrameLedger::new();
    l.append(FrameSlot { first: None, second: None });
    l.record(0, 1, pressed(1));
    l.record(0, 1, pressed(2));
    assert_eq!(l.slot(0), FrameSlot { first: None, second: Some(pressed(1)) });
    l.record(0, 0, other(3));
    assert_eq!(l.slot(0), FrameSlot { first: Some(other(3)), second: Some(pressed(1)) });
    assert_eq!(l.len(), 1);
}

#[test]
fn append_grows_at_tail() {
    let mut l = FrameLedger::new();
    assert_eq!(l.len(), 0);
    l.append(FrameSlot::new_own(0, pressed(4)));
    l.append(FrameSlot::new_own(1, other(5)));
    assert_eq!(l.len(), 2);
    assert_eq!(l.slot(0), FrameSlot { first: Some(pressed(4)), second: None });
    assert_eq!(l.slot(1), FrameSlot { first: None, second: Some(other(5)) });
    assert!(!l.slot(1).is_full());
    assert_eq!(l.slot(1).get(1), Some(other(5)));
}

#[test]
fn duplicate_input_message_same_ledger() {
    let m = NetworkMessage::Input { frame: 3, input: pressed(6) };
    let mut once = NetworkGame::new(0);
    let mut twice = NetworkGame::new(0);
    once.receive(m);
    twice.receive(m);
    twice.receive(m);
    assert_eq!(once.frame(), twice.frame());
    for f in 0..once.frame() {
        assert_eq!(once.slot(f), twice.slot(f));
    }
    assert_eq!(twice.slot(3).get(1), Some(pressed(6)));
}

#[test]
fn future_frame_is_dropped() {
    let mut g = NetworkGame::new(1);
    g.receive(NetworkMessage::Input { frame: CONSTANT_DELAY as u64, input: pressed(7) });
    g.receive(NetworkMessage::Input { frame: 1000, input: pressed(8) });
    assert_eq!(g.frame(), CONSTANT_DELAY);
    for f in 0..CONSTANT_DELAY {
        assert_eq!(g.slot(f).get(0), None);
    }
    // the frame is accepted once the ledger has grown to it
    g.receive(NetworkMessage::Input { frame: 0, input: pressed(9) });
    assert_eq!(g.try_advance(other(0)), Some((pressed(9), GameInput::idle())));
    g.receive(NetworkMessage::Input { frame: CONSTANT_DELAY as u64, input: pressed(7) });
    assert_eq!(g.slot(CONSTANT_DELAY), FrameSlot { first: Some(pressed(7)), second: Some(other(0)) });
}

#[test]
fn other_messages_are_ignored() {
    let mut g = NetworkGame::new(0);
    let inbox = vec![
        NetworkMessage::Idle,
        NetworkMessage::RelayRequestId,
        NetworkMessage::RelayIdAssigned(4),
        NetworkMessage::RelayConnectTo(5),
        NetworkMessage::RelayConnected,
    ];
    let r = g.fixed_update(pressed(0), &inbox);
    assert_eq!(r.advanced, None);
    assert_eq!(g.frame(), CONSTANT_DELAY);
    for f in 0..CONSTANT_DELAY {
        assert_eq!(g.slot(f).get(1), None);
    }
}

#[test]
fn stalls_without_remote_input() {
    let mut g = NetworkGame::new(0);
    for t in 0..5 {
        let r = g.fixed_update(pressed(t), &vec![]);
        assert_eq!(r.advanced, None);
        assert_eq!(g.frame(), CONSTANT_DELAY);
        assert_eq!(r.outbox.len(), CONSTANT_DELAY);
    }
}

#[test]
fn frame_moves_by_zero_or_one() {
    let mut a = NetworkGame::new(0);
    let mut b = NetworkGame::new(1);
    let mut pending: Vec<NetworkMessage> = vec![];
    for t in 0..40usize {
        let before = a.frame();
        // b is heard from only every third tick
        let inbox = if t % 3 == 0 { std::mem::take(&mut pending) } else { vec![] };
        let r = a.fixed_update(pressed(t), &inbox);
        let after = a.frame();
        assert!(after == before || after == before + 1);
        assert_eq!(after == before + 1, r.advanced.is_some());
        for f in 0..after - CONSTANT_DELAY {
            assert!(a.slot(f).is_full());
        }
        let rb = b.fixed_update(other(t), &r.outbox);
        pending.extend(rb.outbox);
    }
}

#[test]
fn resend_window_covers_last_two_delays() {
    let mut a = NetworkGame::new(0);
    let mut b = NetworkGame::new(1);
    for t in 0..20usize {
        round(&mut a, &mut b, pressed(t), other(t), &no_loss);
    }
    assert_eq!(a.frame(), CONSTANT_DELAY + 20);
    let w = a.resend_window();
    assert_eq!(w.len(), 2 * CONSTANT_DELAY);
    for (k, m) in w.iter().enumerate() {
        let f = a.frame() - 2 * CONSTANT_DELAY + k;
        let want = a.slot(f).get(0).unwrap();
        assert_eq!(*m, NetworkMessage::Input { frame: f as u64, input: want });
    }
    // frame 20 holds the input sampled at tick 12
    assert_eq!(w[8], NetworkMessage::Input { frame: 20, input: pressed(12) });
}

#[test]
fn warmup_advances_idle_then_sampled() {
    let mut a = NetworkGame::new(0);
    let mut b = NetworkGame::new(1);
    let idle = GameInput::idle();
    for t in 0..CONSTANT_DELAY + 3 {
        let (ra, rb) = round(&mut a, &mut b, pressed(t), other(t), &no_loss);
        if t < CONSTANT_DELAY {
            assert_eq!(ra, Some((idle, idle)));
            assert_eq!(rb, Some((idle, idle)));
        } else {
            let k = t - CONSTANT_DELAY;
            assert_eq!(ra, Some((pressed(k), other(k))));
            assert_eq!(rb, Some((pressed(k), other(k))));
        }
    }
}

#[test]
fn end_to_end_lossless() {
    let n = 30usize;
    let mut a = NetworkGame::new(0);
    let mut b = NetworkGame::new(1);
    let mut applied_a = vec![];
    let mut applied_b = vec![];
    for t in 0..n + CONSTANT_DELAY {
        let (ra, rb) = round(&mut a, &mut b, pressed(t), other(t), &no_loss);
        if t >= CONSTANT_DELAY {
            applied_a.push(ra.unwrap());
            applied_b.push(rb.unwrap());
        }
    }
    assert_eq!(applied_a.len(), n);
    assert_eq!(applied_a, applied_b);
    for i in 0..n {
        assert_eq!(applied_a[i], (pressed(i), other(i)));
    }
}

#[test]
fn single_loss_recovers_within_two_delays() {
    let ticks = 40usize;
    let run = |lost: Option<(bool, u64, usize)>| -> (Vec<Pair>, Vec<Pair>) {
        let mut a = NetworkGame::new(0);
        let mut b = NetworkGame::new(1);
        let mut ra_all = vec![];
        let mut rb_all = vec![];
        for t in 0..ticks {
            let drop = |from_a: bool, m: &NetworkMessage| match (lost, m) {
                (Some((la, lf, lt)), NetworkMessage::Input { frame, .. }) => {
                    la == from_a && lf == *frame && lt == t
                }
                _ => false,
            };
            let (ra, rb) = round(&mut a, &mut b, pressed(t), other(t), &drop);
            ra_all.push(ra);
            rb_all.push(rb);
        }
        (ra_all, rb_all)
    };
    let count = |v: &Vec<Pair>| v.iter().filter(|r| r.is_some()).count();
    let (base_a, base_b) = run(None);
    assert_eq!(count(&base_a), ticks);
    for from_a in [true, false] {
        for t in 0..12usize {
            let f = (t + CONSTANT_DELAY - 1) as u64;
            let (la, lb) = run(Some((from_a, f, t)));
            assert!(count(&la) + 2 * CONSTANT_DELAY >= count(&base_a));
            assert!(count(&lb) + 2 * CONSTANT_DELAY >= count(&base_b));
            let got_a: Vec<_> = la.iter().flatten().collect();
            let got_b: Vec<_> = lb.iter().flatten().collect();
            let want: Vec<_> = base_a.iter().flatten().collect();
            assert_eq!(got_a[..], want[..got_a.len()]);
            assert_eq!(got_b[..], want[..got_b.len()]);
        }
    }
}

#[test]
fn datagram_size_limit() {
    assert_eq!(check_datagram(0), Ok(()));
    assert_eq!(check_datagram(DATAGRAM_BUFFER - 1), Ok(()));
    assert_eq!(check_datagram(256), Err(DatagramError::Oversized { len: 256 }));
    assert_eq!(check_datagram(1000), Err(DatagramError::Oversized { len: 1000 }));
}

#[test]
fn lost_first_copy_does_not_stall() {
    let mut a = NetworkGame::new(0);
    let mut b = NetworkGame::new(1);
    for t in 0..30usize {
        // the newest frame of each window goes out for the first time and is lost
        let newest = (a.frame() - 1) as u64;
        let drop = |_from_a: bool, m: &NetworkMessage| {
            matches!(m, NetworkMessage::Input { frame, .. } if *frame == newest && t % 2 == 0)
        };
        let (ra, rb) = round(&mut a, &mut b, pressed(t), other(t), &drop);
        assert!(ra.is_some() && rb.is_some());
        assert_eq!(ra, rb);
        if t >= CONSTANT_DELAY {
            let k = t - CONSTANT_DELAY;
            assert_eq!(ra, Some((pressed(k), other(k))));
        }
    }
}
