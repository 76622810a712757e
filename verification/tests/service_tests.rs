use std::collections::VecDeque;

use rusty_enet::host::Host;
use rusty_enet::packet::{Address, Packet};
use rusty_enet::peer::{Event, PeerID};
use rusty_enet::service::{Action, Input, Phase, Tick};

const LEFT: Address = Address { host: 1, port: 1 };
const RIGHT: Address = Address { host: 2, port: 2 };

/// A host with the datagrams that have arrived at its endpoint.
struct End {
    host: Host,
    address: Address,
    inbox: VecDeque<(Address, Vec<u8>)>,
    waits: Vec<u32>,
}

/// Runs one tick of `end` at `now`; what it sends arrives at `other`.
fn serve(end: &mut End, other: &mut End, now: u32, timeout: u32) -> Option<Event> {
    let (mut tick, mut action) = end.host.service(Tick::over(), Input::Begin { now, timeout });
    loop {
        let input = match action {
            Action::Return(event) => {
                assert_eq!(tick.phase, Phase::Over);
                return event;
            },
            Action::Send(out) => {
                assert_eq!(tick.phase, Phase::Sending);
                assert_eq!(out.address, other.address);
                other.inbox.push_back((end.address, out.bytes));
                Input::Sent
            },
            Action::Receive => {
                assert_eq!(tick.phase, Phase::Receiving);
                match end.inbox.pop_front() {
                    Some((address, bytes)) => Input::Received { address, bytes },
                    None => Input::Drained,
                }
            },
            Action::Wait(milliseconds) => {
                assert_eq!(tick.phase, Phase::Waiting);
                end.waits.push(milliseconds);
                Input::Waited { now: now + milliseconds }
            },
        };
        (tick, action) = end.host.service(tick, input);
    }
}

fn ends() -> (End, End) {
    let left = End {
        host: Host::new(1, 1, 0, 0, 1).unwrap(),
        address: LEFT,
        inbox: VecDeque::new(),
        waits: Vec::new(),
    };
    let right = End {
        host: Host::new(1, 1, 0, 0, 2).unwrap(),
        address: RIGHT,
        inbox: VecDeque::new(),
        waits: Vec::new(),
    };
    (left, right)
}

#[test]
fn ticks_carry_a_session() {
    let (mut left, mut right) = ends();
    left.host.connect(RIGHT, 1, 9).unwrap();
    let mut events = Vec::new();
    for step in 0..10 {
        let now = 10 * step;
        events.extend(serve(&mut left, &mut right, now, 0).map(|e| (LEFT, e)));
        events.extend(serve(&mut right, &mut left, now, 0).map(|e| (RIGHT, e)));
    }
    assert_eq!(
        events,
        vec![
            (LEFT, Event::Connect { peer: PeerID(0), data: 9 }),
            (RIGHT, Event::Connect { peer: PeerID(0), data: 9 })
        ]
    );
    left.host.send(PeerID(0), 0, &Packet::reliable(b"ping".to_vec())).unwrap();
    assert_eq!(serve(&mut left, &mut right, 100, 0), None);
    assert_eq!(
        serve(&mut right, &mut left, 100, 0),
        Some(Event::Receive { peer: PeerID(0), channel_id: 0, packet: Packet::reliable(b"ping".to_vec()) })
    );
    assert!(left.waits.is_empty() && right.waits.is_empty());
}

#[test]
fn tick_returns_one_event_at_a_time() {
    let (mut left, mut right) = ends();
    left.host.connect(RIGHT, 1, 0).unwrap();
    for step in 0..10 {
        serve(&mut left, &mut right, 10 * step, 0);
        serve(&mut right, &mut left, 10 * step, 0);
    }
    for i in 0..3u8 {
        left.host.send(PeerID(0), 0, &Packet::reliable(vec![i])).unwrap();
    }
    serve(&mut left, &mut right, 200, 0);
    // the three messages arrive in one tick and are handed out in three
    let receive = |i: u8| Some(Event::Receive { peer: PeerID(0), channel_id: 0, packet: Packet::reliable(vec![i]) });
    assert_eq!(serve(&mut right, &mut left, 200, 0), receive(0));
    let waiting = left.inbox.len();
    // a tick that has an event to hand out does nothing else
    assert_eq!(serve(&mut right, &mut left, 210, 0), receive(1));
    assert_eq!(left.inbox.len(), waiting);
    assert_eq!(serve(&mut right, &mut left, 220, 0), receive(2));
    assert_eq!(serve(&mut right, &mut left, 230, 0), None);
}

#[test]
fn tick_waits_once_and_goes_through_the_phases_again() {
    let (mut left, mut right) = ends();
    // nothing to do: the tick waits for as long as it may, once
    assert_eq!(serve(&mut left, &mut right, 0, 250), None);
    assert_eq!(left.waits, vec![250]);
    assert_eq!(serve(&mut left, &mut right, 300, 0), None);
    assert_eq!(left.waits, vec![250]);
    // what has arrived during the wait is taken in after it
    left.host.connect(RIGHT, 1, 0).unwrap();
    serve(&mut left, &mut right, 400, 0);
    assert_eq!(right.inbox.len(), 1);
    let (mut tick, mut action) = right.host.service(Tick::over(), Input::Begin { now: 400, timeout: 50 });
    let mut held = right.inbox.pop_front();
    let mut answered = false;
    loop {
        let input = match action {
            Action::Return(event) => {
                assert_eq!(event, None);
                break;
            },
            Action::Send(_) => {
                assert!(tick.waited);
                answered = true;
                Input::Sent
            },
            Action::Receive => {
                if tick.waited {
                    match held.take() {
                        Some((address, bytes)) => Input::Received { address, bytes },
                        None => Input::Drained,
                    }
                } else {
                    Input::Drained
                }
            },
            Action::Wait(milliseconds) => {
                assert_eq!(milliseconds, 50);
                Input::Waited { now: 450 }
            },
        };
        (tick, action) = right.host.service(tick, input);
    }
    // the connect was taken in after the wait; its answer leaves with the
    // next tick
    assert!(!answered);
    let mut sent = 0;
    let (mut tick, mut action) = right.host.service(Tick::over(), Input::Begin { now: 460, timeout: 0 });
    while let Action::Send(_) = action {
        sent += 1;
        (tick, action) = right.host.service(tick, Input::Sent);
    }
    assert_eq!(sent, 1);
    assert_eq!(tick.phase, Phase::Receiving);
    assert_eq!(action, Action::Receive);
}

#[test]
fn input_out_of_turn_ends_the_tick() {
    let (mut left, _right) = ends();
    let over = Tick::over();
    assert_eq!(over, Tick { phase: Phase::Over, now: 0, timeout: 0, waited: false });
    for input in [
        Input::Sent,
        Input::Blocked { out: rusty_enet::peer::Outbound { address: RIGHT, bytes: vec![1] } },
        Input::Drained,
        Input::Waited { now: 5 },
        Input::Received { address: RIGHT, bytes: vec![1, 2, 3] },
    ] {
        assert_eq!(left.host.service(over, input), (over, Action::Return(None)));
    }
    assert_eq!(left.host.dropped(), 0);
    let sending = Tick { phase: Phase::Sending, now: 7, timeout: 3, waited: false };
    assert_eq!(
        left.host.service(sending, Input::Drained),
        (Tick { phase: Phase::Over, ..sending }, Action::Return(None))
    );
    // in turn: a tick with nothing to send reads the endpoint
    assert_eq!(
        left.host.service(sending, Input::Sent),
        (Tick { phase: Phase::Receiving, ..sending }, Action::Receive)
    );
}

#[test]
fn blocked_datagram_is_tried_again_first() {
    let (mut left, mut right) = ends();
    left.host.connect(RIGHT, 1, 0).unwrap();
    let (tick, action) = left.host.service(Tick::over(), Input::Begin { now: 0, timeout: 0 });
    let Action::Send(connect) = action else { panic!("a datagram was expected") };
    // the endpoint is full: the send phase ends and the endpoint is read
    let (tick, action) = left.host.service(tick, Input::Blocked { out: connect.clone() });
    assert_eq!(tick.phase, Phase::Receiving);
    assert_eq!(action, Action::Receive);
    assert_eq!(left.host.held(), 1);
    let (_, action) = left.host.service(tick, Input::Drained);
    assert_eq!(action, Action::Return(None));
    // the next tick hands the same datagram out again, before any other
    left.host.ping(PeerID(0)).unwrap_err();
    let (tick, action) = left.host.service(Tick::over(), Input::Begin { now: 10, timeout: 0 });
    assert_eq!(action, Action::Send(connect.clone()));
    assert_eq!(left.host.held(), 0);
    right.inbox.push_back((LEFT, connect.bytes));
    let (tick, action) = left.host.service(tick, Input::Sent);
    assert_eq!((tick.phase, action), (Phase::Receiving, Action::Receive));
    assert_eq!(serve(&mut right, &mut left, 10, 0), None);
    assert_eq!(left.inbox.len(), 0);
    assert_eq!(serve(&mut right, &mut left, 20, 0), None);
    assert_eq!(left.inbox.len(), 1);
    // outside a tick the host takes a datagram back as well
    let answer = left.inbox.pop_front().unwrap();
    right.host.hold_back(rusty_enet::peer::Outbound { address: LEFT, bytes: answer.1.clone() });
    assert_eq!(right.host.next_datagram(30).map(|out| out.bytes), Some(answer.1));
}
