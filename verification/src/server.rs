//! The receive loop as a state machine: the host waits and does the I/O,
//! this module decides.

use vstd::prelude::*;
use crate::packet::PacketView;
use crate::reassembly::{
    after_evict, after_receive, delivered, empty_state, lemma_evict_well_formed,
    lemma_receive_well_formed, well_formed, Reassembler, ReassemblerView,
};
use crate::sequence::{is_complete, Sequence};
use crate::wire::{decode, parse_frame};

verus! {

/// What the receive loop is told.
pub enum Event {
    /// A datagram arrived at the given time.
    Datagram(Vec<u8>, u64),
    /// Time has passed: it is now the given time.
    Tick(u64),
    /// The host asked the loop to stop.
    Cancel,
}

/// What the receive loop does next.
#[derive(Debug, Clone, Copy, PartialEq, Eq, Structural)]
pub enum Action {
    /// Wait for a datagram, the clock or the cancellation.
    Receive,
    /// Wait for room at the consumer or for the cancellation, and receive
    /// nothing meanwhile. Once there is room, take the delivery and hand it
    /// over.
    Deliver,
    /// Return: the loop is over.
    Stop,
}

/// One step of the receive loop, as a value.
pub enum Step {
    /// A datagram with these bytes arrived at the given time.
    Datagram(Seq<u8>, u64),
    /// Time has passed to the given time.
    Tick(u64),
    /// The delivery was taken to be handed over.
    Take,
    /// The host asked the loop to stop.
    Cancel,
}

/// The mathematical value of a [`Server`]: the reassembly state, the
/// complete transfer that waits to be handed over, and whether the loop has
/// been asked to stop.
pub struct ServerView {
    pub reassembly: ReassemblerView,
    pub pending: Option<Seq<PacketView>>,
    pub stopped: bool,
}

/// Whether the loop takes datagrams in: it runs, and no transfer waits to
/// be handed over.
pub open spec fn receiving(s: ServerView) -> bool {
    !s.stopped && s.pending is None
}

/// What the loop does next in state `s`.
pub open spec fn next_action(s: ServerView) -> Action {
    if s.stopped {
        Action::Stop
    } else if s.pending is Some {
        Action::Deliver
    } else {
        Action::Receive
    }
}

/// The state after a datagram arrived at time `now`. A loop that does not
/// take datagrams in, and a frame that holds no packet, change nothing.
/// Else the idle transfers are discarded and the packet is received; the
/// transfer that it completes then waits to be handed over.
pub open spec fn after_datagram(s: ServerView, frame: Seq<u8>, now: u64) -> ServerView {
    if !receiving(s) {
        s
    } else {
        match parse_frame(frame) {
            Ok(p) => ServerView {
                reassembly: after_receive(after_evict(s.reassembly, now), p, now),
                pending: delivered(after_evict(s.reassembly, now), p),
                stopped: false,
            },
            Err(_) => s,
        }
    }
}

/// The state after time has passed to `now`: a loop that takes datagrams in
/// discards its idle transfers.
pub open spec fn after_tick(s: ServerView, now: u64) -> ServerView {
    if !receiving(s) {
        s
    } else {
        ServerView { reassembly: after_evict(s.reassembly, now), pending: None, stopped: false }
    }
}

/// The state after the delivery was taken.
pub open spec fn after_take(s: ServerView) -> ServerView {
    ServerView { reassembly: s.reassembly, pending: None, stopped: s.stopped }
}

/// The state after the host asked the loop to stop: the transfers in flight
/// stay as they are, and a transfer that waited to be handed over is
/// dropped.
pub open spec fn after_cancel(s: ServerView) -> ServerView {
    ServerView { reassembly: s.reassembly, pending: None, stopped: true }
}

/// The state after one step.
pub open spec fn after_step(s: ServerView, step: Step) -> ServerView {
    match step {
        Step::Datagram(frame, now) => after_datagram(s, frame, now),
        Step::Tick(now) => after_tick(s, now),
        Step::Take => after_take(s),
        Step::Cancel => after_cancel(s),
    }
}

/// The state after the steps of `steps`, one after the other.
pub open spec fn after_steps(s: ServerView, steps: Seq<Step>) -> ServerView
    decreases steps.len(),
{
    if steps.len() == 0 {
        s
    } else {
        after_step(after_steps(s, steps.drop_last()), steps.last())
    }
}

/// The transfers handed over during the steps of `steps`, in the order in
/// which they are handed over.
pub open spec fn handed_over(s: ServerView, steps: Seq<Step>) -> Seq<Seq<PacketView>>
    decreases steps.len(),
{
    if steps.len() == 0 {
        Seq::empty()
    } else {
        let earlier = handed_over(s, steps.drop_last());
        match (steps.last(), after_steps(s, steps.drop_last()).pending) {
            (Step::Take, Some(sequence)) => earlier.push(sequence),
            _ => earlier,
        }
    }
}

/// The reassembly state is well formed, and a transfer that waits to be
/// handed over is complete.
pub open spec fn server_well_formed(s: ServerView) -> bool {
    &&& well_formed(s.reassembly)
    &&& s.pending matches Some(sequence) ==> is_complete(sequence)
    &&& s.stopped ==> s.pending is None
}

/// Every step keeps the state well formed: whatever is handed over is a
/// complete transfer.
pub proof fn lemma_step_well_formed(s: ServerView, step: Step)
    requires
        server_well_formed(s),
    ensures
        server_well_formed(after_step(s, step)),
{
    match step {
        Step::Datagram(frame, now) => {
            if receiving(s) && parse_frame(frame) is Ok {
                lemma_evict_well_formed(s.reassembly, now);
                lemma_receive_well_formed(
                    after_evict(s.reassembly, now),
                    parse_frame(frame)->Ok_0,
                    now,
                );
            }
        },
        Step::Tick(now) => {
            lemma_evict_well_formed(s.reassembly, now);
        },
        Step::Take => {},
        Step::Cancel => {},
    }
}

/// A frame that holds no packet is dropped: it changes nothing, so no
/// transfer in flight is touched, and nothing is handed over for it.
pub proof fn lemma_malformed_dropped(s: ServerView, frame: Seq<u8>, now: u64)
    requires
        parse_frame(frame) is Err,
    ensures
        after_datagram(s, frame, now) == s,
{
}

/// While a complete transfer waits to be handed over, the loop stands
/// still: it asks to deliver, and neither a datagram nor the clock changes
/// anything, so the transfer is neither dropped nor overtaken. Once it is
/// taken, the same transfer is what is handed over, the reassembly state is
/// as it was, and the loop receives again.
pub proof fn lemma_waits_while_pending(s: ServerView, steps: Seq<Step>)
    requires
        !s.stopped,
        s.pending is Some,
        forall|i: int| 0 <= i < steps.len() ==> #[trigger] steps[i] is Datagram || steps[i] is Tick,
    ensures
        next_action(s) == Action::Deliver,
        after_steps(s, steps) == s,
        handed_over(s, steps) == Seq::<Seq<PacketView>>::empty(),
        handed_over(s, steps.push(Step::Take)) == seq![s.pending->0],
        after_steps(s, steps.push(Step::Take)).reassembly == s.reassembly,
        next_action(after_steps(s, steps.push(Step::Take))) == Action::Receive,
    decreases steps.len(),
{
    if steps.len() > 0 {
        let head = steps.drop_last();
        assert forall|i: int| 0 <= i < head.len() implies #[trigger] head[i] is Datagram
            || head[i] is Tick by {
            assert(head[i] == steps[i]);
        }
        lemma_waits_while_pending(s, head);
        assert(head.push(Step::Take).drop_last() =~= head);
        assert(steps[steps.len() - 1] is Datagram || steps[steps.len() - 1] is Tick);
    }
    assert(steps.push(Step::Take).drop_last() =~= steps);
    assert(steps.push(Step::Take).last() == Step::Take);
}

/// Once the loop has been asked to stop, it asks for nothing but to stop,
/// nothing changes and nothing is handed over, whatever steps follow.
pub proof fn lemma_cancelled_stays_stopped(s: ServerView, steps: Seq<Step>)
    ensures
        next_action(after_cancel(s)) == Action::Stop,
        after_steps(after_cancel(s), steps) == after_cancel(s),
        handed_over(after_cancel(s), steps) == Seq::<Seq<PacketView>>::empty(),
    decreases steps.len(),
{
    if steps.len() > 0 {
        lemma_cancelled_stays_stopped(s, steps.drop_last());
    }
}

/// The decisions of the receive loop: what to do with each datagram, when
/// to hand a transfer over, and when to stop.
pub struct Server {
    reassembler: Reassembler,
    pending: Option<Sequence>,
    stopped: bool,
}

impl View for Server {
    type V = ServerView;

    closed spec fn view(&self) -> ServerView {
        ServerView {
            reassembly: self.reassembler@,
            pending: match self.pending {
                Some(sequence) => Some(sequence@),
                None => None,
            },
            stopped: self.stopped,
        }
    }
}

impl Server {
    /// The invariant of a server.
    pub open spec fn wf(&self) -> bool {
        server_well_formed(self@)
    }

    /// A running server that has seen no packet.
    pub fn new() -> (server: Server)
        ensures
            server.wf(),
            server@ == (ServerView { reassembly: empty_state(), pending: None, stopped: false }),
    {
        Server { reassembler: Reassembler::new(), pending: None, stopped: false }
    }

    /// Whether the loop has been asked to stop.
    pub fn is_stopped(&self) -> (stopped: bool)
        ensures
            stopped == self@.stopped,
    {
        self.stopped
    }

    /// The reassembly state, to look at.
    pub fn reassembler(&self) -> (r: &Reassembler)
        ensures
            r@ == self@.reassembly,
    {
        &self.reassembler
    }

    /// What the loop does next.
    pub fn next_action(&self) -> (action: Action)
        ensures
            action == next_action(self@),
    {
        if self.stopped {
            Action::Stop
        } else if self.pending.is_some() {
            Action::Deliver
        } else {
            Action::Receive
        }
    }

    /// Takes in the datagram that arrived at time `now`. A frame that holds
    /// no packet is dropped. The transfer that the packet completes waits
    /// to be handed over, and until it is taken no datagram is taken in.
    pub fn on_datagram(&mut self, frame: &[u8], now: u64)
        requires
            old(self).wf(),
        ensures
            final(self).wf(),
            final(self)@ == after_datagram(old(self)@, frame@, now),
    {
        proof {
            lemma_step_well_formed(self@, Step::Datagram(frame@, now));
        }
        if self.stopped || self.pending.is_some() {
            return;
        }
        match decode(frame) {
            Ok(packet) => {
                self.reassembler.evict_idle(now);
                self.pending = self.reassembler.receive(packet, now);
            },
            Err(_) => {},
        }
    }

    /// Discards the transfers that are idle at time `now`, where the loop
    /// takes datagrams in.
    pub fn on_tick(&mut self, now: u64)
        requires
            old(self).wf(),
        ensures
            final(self).wf(),
            final(self)@ == after_tick(old(self)@, now),
    {
        if self.stopped || self.pending.is_some() {
            return;
        }
        self.reassembler.evict_idle(now);
    }

    /// Takes the complete transfer that waits to be handed over, if there
    /// is one. The server keeps nothing of it.
    pub fn take_delivery(&mut self) -> (out: Option<Sequence>)
        requires
            old(self).wf(),
        ensures
            final(self).wf(),
            final(self)@ == after_take(old(self)@),
            match out {
                Some(sequence) => old(self)@.pending == Some(sequence@) && is_complete(sequence@),
                None => old(self)@.pending is None,
            },
    {
        self.pending.take()
    }

    /// Stops the loop. The transfers in flight are kept as they are and
    /// never delivered, and a transfer that waits to be handed over is
    /// dropped.
    pub fn cancel(&mut self)
        requires
            old(self).wf(),
        ensures
            final(self).wf(),
            final(self)@ == after_cancel(old(self)@),
    {
        self.stopped = true;
        self.pending = None;
    }

    /// Takes one event in and says what the loop does next.
    pub fn handle(&mut self, event: Event) -> (action: Action)
        requires
            old(self).wf(),
        ensures
            final(self).wf(),
            final(self)@ == match event {
                Event::Datagram(frame, now) => after_datagram(old(self)@, frame@, now),
                Event::Tick(now) => after_tick(old(self)@, now),
                Event::Cancel => after_cancel(old(self)@),
            },
            action == next_action(final(self)@),
    {
        match event {
            Event::Datagram(frame, now) => {
                self.on_datagram(frame.as_slice(), now);
            },
            Event::Tick(now) => {
                self.on_tick(now);
            },
            Event::Cancel => {
                self.cancel();
            },
        }
        self.next_action()
    }
}

} // verus!
