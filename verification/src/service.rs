//! The service tick as a state machine.
//!
//! A tick hands out a waiting event if there is one. Otherwise it sends
//! what the host has ready, takes in what has arrived, looks at the
//! timeouts, and hands out the event that this has brought about. If there
//! is none and the caller allows a wait, it waits for the endpoint and goes
//! through the phases once more.
//!
//! The host does not touch the endpoint. It says what is to be done next,
//! and is told what came of it: [`Host::service`] takes the state of the
//! tick and what has happened, and returns the next state and the next
//! action.

use vstd::prelude::*;
use crate::host::{Host, HostView};
use crate::packet::Address;
use crate::peer::{Event, EventView, Outbound, OutboundView};

verus! {

/// Where a tick stands.
#[derive(Debug, Clone, Copy, PartialEq, Eq, Structural)]
pub enum Phase {
    /// A datagram is being sent.
    Sending,
    /// The endpoint is being read.
    Receiving,
    /// The endpoint is being waited for.
    Waiting,
    /// The tick is over.
    Over,
}

/// The state of a tick.
#[derive(Debug, Clone, Copy, PartialEq, Eq)]
pub struct Tick {
    /// Where the tick stands.
    pub phase: Phase,
    /// The time of the tick in milliseconds.
    pub now: u32,
    /// How long the tick may wait for the endpoint, in milliseconds.
    pub timeout: u32,
    /// Whether the tick has waited for the endpoint.
    pub waited: bool,
}

/// What has happened since the host was last asked.
#[derive(Debug, Clone, PartialEq, Eq)]
pub enum Input {
    /// The application asks for service at the time `now` and allows a
    /// wait of `timeout` milliseconds.
    Begin { now: u32, timeout: u32 },
    /// The datagram has been handed to the endpoint.
    Sent,
    /// The endpoint cannot take the datagram now.
    Blocked { out: Outbound },
    /// A datagram has arrived.
    Received { address: Address, bytes: Vec<u8> },
    /// The endpoint has no datagram.
    Drained,
    /// The wait is over; the time is `now`.
    Waited { now: u32 },
}

/// What is to be done next.
#[derive(Debug, Clone, PartialEq, Eq)]
pub enum Action {
    /// The tick is over: the event, if there is one, goes to the
    /// application.
    Return(Option<Event>),
    /// The datagram is to be sent; then the host is told [`Input::Sent`],
    /// or [`Input::Blocked`] with the datagram if the endpoint cannot take
    /// it now.
    Send(Outbound),
    /// The endpoint is to be read without waiting; then the host is told
    /// [`Input::Received`] or [`Input::Drained`].
    Receive,
    /// The endpoint is to be waited for, for the given number of
    /// milliseconds at most; then the host is told [`Input::Waited`].
    Wait(u32),
}

/// The mathematical value of an [`Input`].
pub enum InputView {
    Begin { now: u32, timeout: u32 },
    Sent,
    Blocked { out: OutboundView },
    Received { address: Address, bytes: Seq<u8> },
    Drained,
    Waited { now: u32 },
}

/// The mathematical value of an [`Action`].
pub enum ActionView {
    Return(Option<EventView>),
    Send(OutboundView),
    Receive,
    Wait(u32),
}

impl View for Input {
    type V = InputView;

    open spec fn view(&self) -> InputView {
        match *self {
            Input::Begin { now, timeout } => InputView::Begin { now, timeout },
            Input::Sent => InputView::Sent,
            Input::Blocked { out } => InputView::Blocked { out: out@ },
            Input::Received { address, bytes } => InputView::Received { address, bytes: bytes@ },
            Input::Drained => InputView::Drained,
            Input::Waited { now } => InputView::Waited { now },
        }
    }
}

impl View for Action {
    type V = ActionView;

    open spec fn view(&self) -> ActionView {
        match *self {
            Action::Return(None) => ActionView::Return(None),
            Action::Return(Some(event)) => ActionView::Return(Some(event@)),
            Action::Send(out) => ActionView::Send(out@),
            Action::Receive => ActionView::Receive,
            Action::Wait(timeout) => ActionView::Wait(timeout),
        }
    }
}

/// What a step of a tick yields.
pub struct Step {
    pub host: HostView,
    pub tick: Tick,
    pub action: ActionView,
}

impl Tick {
    /// The state of a tick that is over.
    pub open spec fn spec_over() -> Tick {
        Tick { phase: Phase::Over, now: 0, timeout: 0, waited: false }
    }

    /// The state of a tick that is over; the state to begin with.
    pub fn over() -> (tick: Tick)
        ensures
            tick == Tick::spec_over(),
    {
        Tick { phase: Phase::Over, now: 0, timeout: 0, waited: false }
    }
}

impl HostView {
    /// The send phase goes on: the next datagram is to be sent, or, where
    /// there is none, the endpoint is to be read.
    pub open spec fn sending(self, tick: Tick) -> Step {
        let host = self.after_flush(tick.now);
        match self.flush_output(tick.now) {
            Some(out) => Step {
                host,
                tick: Tick { phase: Phase::Sending, ..tick },
                action: ActionView::Send(out),
            },
            None => Step {
                host,
                tick: Tick { phase: Phase::Receiving, ..tick },
                action: ActionView::Receive,
            },
        }
    }

    /// The phases begin: a waiting event ends the tick; otherwise the
    /// bandwidth limiter runs and the send phase begins.
    pub open spec fn starting(self, tick: Tick) -> Step {
        match self.polled() {
            Some(event) => Step {
                host: self.after_poll(),
                tick: Tick { phase: Phase::Over, ..tick },
                action: ActionView::Return(Some(event)),
            },
            None => self.after_poll().after_bandwidth_throttle(tick.now).sending(tick),
        }
    }

    /// The receive phase is over: the timeouts are looked at; an event
    /// that has come about ends the tick; without one the tick waits for
    /// the endpoint, if it may and has not done so, or ends.
    pub open spec fn finishing(self, tick: Tick) -> Step {
        let host = self.after_timeouts(tick.now);
        match host.polled() {
            Some(event) => Step {
                host: host.after_poll(),
                tick: Tick { phase: Phase::Over, ..tick },
                action: ActionView::Return(Some(event)),
            },
            None => if tick.timeout > 0 && !tick.waited {
                Step {
                    host: host.after_poll(),
                    tick: Tick { phase: Phase::Waiting, waited: true, ..tick },
                    action: ActionView::Wait(tick.timeout),
                }
            } else {
                Step {
                    host: host.after_poll(),
                    tick: Tick { phase: Phase::Over, ..tick },
                    action: ActionView::Return(None),
                }
            },
        }
    }

    /// The next step of a tick that stands at `tick`, after `input`.
    ///
    /// - Wherever the tick stands, `Begin` begins a new one.
    /// - While a datagram is being sent, `Sent` lets the send phase go on.
    ///   `Blocked` ends it: the datagram is held back for the next tick,
    ///   and the endpoint is read.
    /// - While the endpoint is being read, `Received` hands the datagram
    ///   to the host and the endpoint is read again; `Drained` ends the
    ///   receive phase.
    /// - While the endpoint is being waited for, `Waited` begins the phases
    ///   once more, at the new time and without a further wait.
    /// - Any other input ends the tick without an event and changes
    ///   nothing.
    pub open spec fn after_service(self, tick: Tick, input: InputView) -> Step {
        match input {
            InputView::Begin { now, timeout } => self.starting(
                Tick { phase: Phase::Over, now, timeout, waited: false },
            ),
            InputView::Sent => if tick.phase == Phase::Sending {
                self.sending(tick)
            } else {
                self.stopped(tick)
            },
            InputView::Blocked { out } => if tick.phase == Phase::Sending {
                Step {
                    host: self.holding(out),
                    tick: Tick { phase: Phase::Receiving, ..tick },
                    action: ActionView::Receive,
                }
            } else {
                self.stopped(tick)
            },
            InputView::Received { address, bytes } => if tick.phase == Phase::Receiving {
                Step {
                    host: self.after_receive(address, bytes, tick.now),
                    tick,
                    action: ActionView::Receive,
                }
            } else {
                self.stopped(tick)
            },
            InputView::Drained => if tick.phase == Phase::Receiving {
                self.finishing(tick)
            } else {
                self.stopped(tick)
            },
            InputView::Waited { now } => if tick.phase == Phase::Waiting {
                self.starting(Tick { now, ..tick })
            } else {
                self.stopped(tick)
            },
        }
    }

    /// The tick ends without an event and the host stays as it is.
    pub open spec fn stopped(self, tick: Tick) -> Step {
        Step {
            host: self,
            tick: Tick { phase: Phase::Over, ..tick },
            action: ActionView::Return(None),
        }
    }
}

impl Host {
    /// Lets the send phase go on.
    fn keep_sending(&mut self, tick: Tick) -> (r: (Tick, Action))
        requires
            old(self).wf(),
        ensures
            final(self).wf(),
            (Step { host: final(self)@, tick: r.0, action: r.1@ }) == old(self)@.sending(tick),
    {
        match self.next_datagram(tick.now) {
            Some(out) => (
                Tick { phase: Phase::Sending, now: tick.now, timeout: tick.timeout, waited: tick.waited },
                Action::Send(out),
            ),
            None => (
                Tick {
                    phase: Phase::Receiving,
                    now: tick.now,
                    timeout: tick.timeout,
                    waited: tick.waited,
                },
                Action::Receive,
            ),
        }
    }

    /// Begins the phases.
    fn start(&mut self, tick: Tick) -> (r: (Tick, Action))
        requires
            old(self).wf(),
        ensures
            final(self).wf(),
            (Step { host: final(self)@, tick: r.0, action: r.1@ }) == old(self)@.starting(tick),
    {
        match self.poll_event() {
            Some(event) => (
                Tick { phase: Phase::Over, now: tick.now, timeout: tick.timeout, waited: tick.waited },
                Action::Return(Some(event)),
            ),
            None => {
                self.bandwidth_throttle(tick.now);
                self.keep_sending(tick)
            },
        }
    }

    /// Ends the receive phase.
    fn finish(&mut self, tick: Tick) -> (r: (Tick, Action))
        requires
            old(self).wf(),
        ensures
            final(self).wf(),
            (Step { host: final(self)@, tick: r.0, action: r.1@ }) == old(self)@.finishing(tick),
    {
        self.service_timeouts(tick.now);
        match self.poll_event() {
            Some(event) => (
                Tick { phase: Phase::Over, now: tick.now, timeout: tick.timeout, waited: tick.waited },
                Action::Return(Some(event)),
            ),
            None => {
                if tick.timeout > 0 && !tick.waited {
                    (
                        Tick {
                            phase: Phase::Waiting,
                            now: tick.now,
                            timeout: tick.timeout,
                            waited: true,
                        },
                        Action::Wait(tick.timeout),
                    )
                } else {
                    (
                        Tick {
                            phase: Phase::Over,
                            now: tick.now,
                            timeout: tick.timeout,
                            waited: tick.waited,
                        },
                        Action::Return(None),
                    )
                }
            },
        }
    }

    /// One step of a service tick: takes the state of the tick and what has
    /// happened since the host was last asked, and returns the next state
    /// and what is to be done next. A tick begins with [`Input::Begin`] and
    /// is over when the action is [`Action::Return`]; it returns at most one
    /// event.
    pub fn service(&mut self, tick: Tick, input: Input) -> (r: (Tick, Action))
        requires
            old(self).wf(),
        ensures
            final(self).wf(),
            (Step { host: final(self)@, tick: r.0, action: r.1@ }) == old(self)@.after_service(
                tick,
                input@,
            ),
    {
        let stopped = Tick {
            phase: Phase::Over,
            now: tick.now,
            timeout: tick.timeout,
            waited: tick.waited,
        };
        match input {
            Input::Begin { now, timeout } => self.start(
                Tick { phase: Phase::Over, now, timeout, waited: false },
            ),
            Input::Sent => {
                if tick.phase == Phase::Sending {
                    self.keep_sending(tick)
                } else {
                    (stopped, Action::Return(None))
                }
            },
            Input::Blocked { out } => {
                if tick.phase == Phase::Sending {
                    self.hold_back(out);
                    (
                        Tick {
                            phase: Phase::Receiving,
                            now: tick.now,
                            timeout: tick.timeout,
                            waited: tick.waited,
                        },
                        Action::Receive,
                    )
                } else {
                    (stopped, Action::Return(None))
                }
            },
            Input::Received { address, bytes } => {
                if tick.phase == Phase::Receiving {
                    self.receive(address, bytes.as_slice(), tick.now);
                    (tick, Action::Receive)
                } else {
                    (stopped, Action::Return(None))
                }
            },
            Input::Drained => {
                if tick.phase == Phase::Receiving {
                    self.finish(tick)
                } else {
                    (stopped, Action::Return(None))
                }
            },
            Input::Waited { now } => {
                if tick.phase == Phase::Waiting {
                    self.start(
                        Tick { phase: tick.phase, now, timeout: tick.timeout, waited: tick.waited },
                    )
                } else {
                    (stopped, Action::Return(None))
                }
            },
        }
    }
}

/// A tick waits for the endpoint at most once: a tick that has waited ends
/// when its receive phase is over.
pub proof fn lemma_one_wait(host: HostView, tick: Tick)
    requires
        tick.waited,
    ensures
        host.finishing(tick).action is Return,
        host.finishing(tick).tick.phase == Phase::Over,
{
}

/// A tick hands out a waiting event before it does anything else.
pub proof fn lemma_event_first(host: HostView, now: u32, timeout: u32)
    requires
        host.polled() is Some,
    ensures
        host.after_service(Tick::spec_over(), InputView::Begin { now, timeout }).action
            == ActionView::Return(host.polled()),
        host.after_service(Tick::spec_over(), InputView::Begin { now, timeout }).host
            == host.after_poll(),
{
}

/// A datagram that the endpoint could not take is tried again: it is the
/// first datagram that the host hands out when it sends again, and it is
/// handed out as it was.
pub proof fn lemma_blocked_datagram_is_tried_again(host: HostView, out: OutboundView, now: u32)
    ensures
        host.holding(out).flush_output(now) == Some(out),
        host.holding(out).after_flush(now) == host,
{
    assert(host.holding(out).held.drop_first() =~= host.held);
}

} // verus!
