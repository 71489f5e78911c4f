//! The queue itself: the records and pages of both directions, and the
//! events that dispatch leaves behind.

use crate::inbound_state::{lemma_sender_held, queues_of, InboundChannel, InboundState};
use crate::outbound_laws::lemma_held;
use crate::outbound_state::{OutboundChannel, OutboundState};
use crate::store::{PageStore, SignalStore};
use crate::types::{Event, EventKind, ParaId, RelayBlockNumber};
use vstd::prelude::*;

verus! {

/// An event as a mathematical value: its kind and the bytes it is about.
pub type Notice = (EventKind, Seq<u8>);

/// The events of a list as mathematical values.
pub open spec fn notices_of(list: Seq<Event>) -> Seq<Notice> {
    Seq::new(list.len(), |i: int| (list[i].kind, list[i].payload@))
}

/// The mathematical value of the queue.
pub struct QueueState {
    /// Pages received and not yet dispatched.
    pub inbound: InboundState,
    /// Pages and signals waiting for the transport.
    pub outbound: OutboundState,
    /// Events not yet taken by the host, oldest first.
    pub events: Seq<Notice>,
}

impl QueueState {
    /// The invariant of the queue: that of each direction.
    pub open spec fn wf(self) -> bool {
        self.inbound.wf() && self.outbound.wf()
    }
}

/// The message queue between this chain and its siblings.
pub struct Module {
    pub(crate) inbound_status: Vec<InboundChannel>,
    pub(crate) inbound_messages: PageStore,
    pub(crate) outbound_status: Vec<OutboundChannel>,
    pub(crate) outbound_messages: PageStore,
    pub(crate) signal_messages: SignalStore,
    pub(crate) events: Vec<Event>,
}

impl Module {
    /// The queue as a mathematical value.
    pub open(crate) spec fn view(&self) -> QueueState {
        QueueState {
            inbound: InboundState {
                channels: queues_of(self.inbound_status@),
                pages: self.inbound_messages@,
            },
            outbound: OutboundState {
                channels: self.outbound_status@,
                pages: self.outbound_messages@,
                signals: self.signal_messages@,
            },
            events: notices_of(self.events@),
        }
    }

    /// The invariant of the queue.
    pub open spec fn wf(&self) -> bool {
        self@.wf()
    }

    /// A queue without records, pages or events.
    pub fn new() -> (queue: Module)
        ensures
            queue@.inbound == InboundState::empty(),
            queue@.outbound == OutboundState::empty(),
            queue@.events == Seq::<Notice>::empty(),
            queue.wf(),
    {
        let queue = Module {
            inbound_status: Vec::new(),
            inbound_messages: PageStore::new(),
            outbound_status: Vec::new(),
            outbound_messages: PageStore::new(),
            signal_messages: SignalStore::new(),
            events: Vec::new(),
        };
        assert(queue@.inbound.channels =~= Seq::empty());
        assert(queue@.events =~= Seq::empty());
        proof {
            let out = queue@.outbound;
            assert forall|p: u32| !(#[trigger] out.holds(p)) by {
                if out.holds(p) {
                    lemma_held(out.channels, p);
                }
            }
            let inb = queue@.inbound;
            assert forall|p: u32| !(#[trigger] inb.holds(p)) by {
                if inb.holds(p) {
                    lemma_sender_held(inb.channels, p);
                }
            }
        }
        queue
    }

    /// The inbound records, in ascending order of sender.
    pub fn inbound_status(&self) -> (list: &Vec<InboundChannel>)
        ensures
            queues_of(list@) == self@.inbound.channels,
    {
        &self.inbound_status
    }

    /// The outbound records, in the order in which they are served.
    pub fn outbound_status(&self) -> (list: &Vec<OutboundChannel>)
        ensures
            list@ == self@.outbound.channels,
    {
        &self.outbound_status
    }

    /// The body of the page that `sender` sent at `sent_at`, if it is stored.
    pub fn inbound_message(&self, sender: ParaId, sent_at: RelayBlockNumber) -> (page: Option<
        &Vec<u8>,
    >)
        ensures
            match page {
                Some(p) => self@.inbound.pages.contains_key((sender, sent_at))
                    && self@.inbound.pages[(sender, sent_at)] == p@,
                None => !self@.inbound.pages.contains_key((sender, sent_at)),
            },
    {
        self.inbound_messages.get(sender, sent_at)
    }

    /// The data page with the given index that waits for `recipient`, if
    /// there is one.
    pub fn outbound_message(&self, recipient: ParaId, index: u16) -> (page: Option<&Vec<u8>>)
        ensures
            match page {
                Some(p) => self@.outbound.pages.contains_key((recipient, index as u32))
                    && self@.outbound.pages[(recipient, index as u32)] == p@,
                None => !self@.outbound.pages.contains_key((recipient, index as u32)),
            },
    {
        self.outbound_messages.get(recipient, index as u32)
    }

    /// The signal page that waits for `recipient`, if there is one.
    pub fn signal_message(&self, recipient: ParaId) -> (page: Option<&Vec<u8>>)
        ensures
            match page {
                Some(p) => self@.outbound.signals.contains_key(recipient)
                    && self@.outbound.signals[recipient] == p@,
                None => !self@.outbound.signals.contains_key(recipient),
            },
    {
        self.signal_messages.get(recipient)
    }

    /// The events that the host has not taken yet, oldest first.
    pub fn events(&self) -> (list: &Vec<Event>)
        ensures
            notices_of(list@) == self@.events,
    {
        &self.events
    }

    /// Hands the events to the host and forgets them.
    pub fn take_events(&mut self) -> (taken: Vec<Event>)
        ensures
            notices_of(taken@) == old(self)@.events,
            final(self)@ == (QueueState { events: Seq::empty(), ..old(self)@ }),
            old(self).wf() ==> final(self).wf(),
    {
        let mut taken: Vec<Event> = Vec::new();
        std::mem::swap(&mut self.events, &mut taken);
        assert(self@.events =~= Seq::empty());
        taken
    }
}

} // verus!
