//! Dispatch of one inbound page: its fragments are handed to the host one
//! by one, in their order, until the page is used up or a fragment proves
//! too heavy for the weight that is left.

use crate::bytes::copy_from;
use crate::inbound_state::InboundState;
use crate::queue::{Module, Notice, QueueState};
use crate::scale::{
    first_fragment, fragment_encoding, has_fragment, lemma_has_fragment, next_fragment,
};
use crate::types::{
    Config, Event, EventKind, Format, Outcome, ParaId, RelayBlockNumber, Weight, XcmError,
};
use vstd::prelude::*;

verus! {

/// The sum of two weights, capped at the largest weight.
pub open spec fn weight_sum(a: Weight, b: Weight) -> Weight {
    if a + b > u64::MAX {
        u64::MAX
    } else {
        (a + b) as u64
    }
}

/// What is left of weight `a` after `b` was used, and nothing if more was
/// used than there was.
pub open spec fn weight_left(a: Weight, b: Weight) -> Weight {
    if a >= b {
        (a - b) as u64
    } else {
        0
    }
}

/// What dispatch does after an outcome: go on with the weight used, or
/// handle the error.
pub open spec fn verdict_of(outcome: Outcome) -> Result<Weight, XcmError> {
    match outcome {
        Outcome::Complete(used) => Ok(used),
        Outcome::Incomplete(used, _) => Ok(used),
        Outcome::Error(e) => Err(e),
    }
}

/// The event that reports an outcome on `message`.
pub open spec fn notice_of(outcome: Outcome, message: Seq<u8>) -> Notice {
    match outcome {
        Outcome::Complete(_) => (EventKind::Success, message),
        Outcome::Incomplete(_, e) => (EventKind::Fail(e), message),
        Outcome::Error(e) => match e {
            XcmError::WeightLimitReached => (EventKind::TooHeavy, message),
            XcmError::UnhandledXcmVersion => (EventKind::BadVersion, message),
            _ => (EventKind::Fail(e), message),
        },
    }
}

/// What the handling of a blob comes to as an outcome: a blob that is too
/// heavy was not attempted; one that will never be handled is an error for
/// good.
pub open spec fn blob_outcome(handled: Result<Weight, bool>) -> Outcome {
    match handled {
        Ok(used) => Outcome::Complete(used),
        Err(true) => Outcome::Error(XcmError::WeightLimitReached),
        Err(false) => Outcome::Error(XcmError::Unimplemented),
    }
}

/// Where the dispatch of a page stands.
pub struct PageCursor {
    /// The bytes of the page not yet used up.
    pub rest: Seq<u8>,
    /// The weight used so far.
    pub used: Weight,
    /// The events so far, oldest first.
    pub events: Seq<Notice>,
    /// Whether a fragment proved too heavy and dispatch stopped in front of it.
    pub stopped: bool,
}

/// Dispatch of a page is over when the page is used up or a fragment proved
/// too heavy.
pub open spec fn finished(c: PageCursor) -> bool {
    c.stopped || c.rest.len() == 0
}

/// One step of dispatch, the host having answered `outcome` to the fragment
/// at the front. Where dispatch is over, nothing happens. Bytes that do not
/// begin with a fragment, and a page of signals, are discarded as a whole. A
/// fragment that is too heavy stays; any other leaves the page, whatever
/// became of it.
pub open spec fn page_step(format: Format, c: PageCursor, outcome: Outcome) -> PageCursor {
    if finished(c) {
        c
    } else if format == Format::Signals || !has_fragment(c.rest) {
        PageCursor {
            rest: Seq::empty(),
            events: c.events.push((EventKind::BadFormat, c.rest)),
            ..c
        }
    } else {
        let (message, rest) = first_fragment(c.rest);
        let events = c.events.push(notice_of(outcome, message));
        match verdict_of(outcome) {
            Ok(used) => PageCursor { rest, used: weight_sum(c.used, used), events, ..c },
            Err(XcmError::WeightLimitReached) => PageCursor { events, stopped: true, ..c },
            Err(_) => PageCursor { rest, events, ..c },
        }
    }
}

/// Where the dispatch of the page `data` stands after `n` steps, the host
/// having answered `outcomes[k]` at step `k`.
pub open spec fn page_after(format: Format, data: Seq<u8>, outcomes: Seq<Outcome>, n: nat) -> PageCursor
    decreases n,
{
    if n == 0 {
        PageCursor { rest: data, used: 0, events: Seq::empty(), stopped: false }
    } else {
        page_step(format, page_after(format, data, outcomes, (n - 1) as nat), outcomes[n - 1])
    }
}

/// Where the dispatch of the page `data` stands after all of `outcomes`.
pub open spec fn page_run(format: Format, data: Seq<u8>, outcomes: Seq<Outcome>) -> PageCursor {
    page_after(format, data, outcomes, outcomes.len())
}

/// The bytes of a page that an event accounts for: the whole fragment of a
/// message that left the page, the discarded bytes, and nothing where the
/// message stayed.
pub open spec fn accounted_by(notice: Notice) -> Seq<u8> {
    match notice.0 {
        EventKind::TooHeavy => Seq::empty(),
        EventKind::XcmpMessageSent => Seq::empty(),
        EventKind::BadFormat => notice.1,
        _ => fragment_encoding(notice.1),
    }
}

/// The bytes that a list of events accounts for, in order.
pub open spec fn accounted(events: Seq<Notice>) -> Seq<u8>
    decreases events.len(),
{
    if events.len() == 0 {
        Seq::empty()
    } else {
        accounted(events.drop_last()) + accounted_by(events.last())
    }
}

/// The steps of dispatch depend on the answers to those steps only.
pub proof fn lemma_page_after_agrees(
    format: Format,
    data: Seq<u8>,
    a: Seq<Outcome>,
    b: Seq<Outcome>,
    n: nat,
)
    requires
        forall|k: int| 0 <= k < n ==> a[k] == b[k],
    ensures
        page_after(format, data, a, n) == page_after(format, data, b, n),
    decreases n,
{
    if n > 0 {
        lemma_page_after_agrees(format, data, a, b, (n - 1) as nat);
    }
}

/// Every byte of a page is either still in the page or accounted for by
/// exactly one event, and the events come in the order of the bytes: no
/// fragment is handed to the host twice for good, none is passed over, and
/// none overtakes another.
pub proof fn lemma_page_accounted(format: Format, data: Seq<u8>, outcomes: Seq<Outcome>, n: nat)
    ensures
        accounted(page_after(format, data, outcomes, n).events) + page_after(
            format,
            data,
            outcomes,
            n,
        ).rest == data,
    decreases n,
{
    let after = page_after(format, data, outcomes, n);
    if n == 0 {
        assert(accounted(after.events) + after.rest =~= data);
    } else {
        let before = page_after(format, data, outcomes, (n - 1) as nat);
        lemma_page_accounted(format, data, outcomes, (n - 1) as nat);
        if after != before {
            assert(after.events.drop_last() =~= before.events);
            if format == Format::Signals || !has_fragment(before.rest) {
                assert(accounted(after.events) + after.rest =~= accounted(before.events)
                    + before.rest);
            } else {
                let (message, rest) = first_fragment(before.rest);
                lemma_has_fragment(before.rest);
                assert(before.rest == fragment_encoding(message) + rest);
                assert(accounted(after.events) + after.rest =~= accounted(before.events)
                    + before.rest);
            }
        }
    }
}

/// Nothing comes of an empty page.
pub proof fn lemma_empty_page_run(format: Format, outcomes: Seq<Outcome>)
    ensures
        page_run(format, Seq::empty(), outcomes).rest.len() == 0,
{
    lemma_page_accounted(format, Seq::empty(), outcomes, outcomes.len());
}

impl QueueState {
    /// Dispatching a page keeps the invariant.
    pub proof fn lemma_page_processed_wf(
        self,
        sender: ParaId,
        sent_at: RelayBlockNumber,
        format: Format,
        outcomes: Seq<Outcome>,
    )
        requires
            self.inbound.consistent(),
        ensures
            self.page_processed(sender, sent_at, format, outcomes).inbound.consistent(),
            self.wf() ==> self.page_processed(sender, sent_at, format, outcomes).wf(),
    {
        let after = self.page_processed(sender, sent_at, format, outcomes);
        lemma_empty_page_run(format, outcomes);
        assert forall|key: (u32, u32)| #[trigger]
            after.inbound.pages.contains_key(key) implies after.inbound.queued(key) by {
            if key == (sender, sent_at) {
                assert(self.inbound.pages.contains_key(key));
            }
            assert(self.inbound.queued(key));
        }
    }

    /// The body of the page that `sender` sent at `sent_at`; a page that is
    /// not stored is empty.
    pub open spec fn inbound_page(self, sender: ParaId, sent_at: RelayBlockNumber) -> Seq<u8> {
        if self.inbound.pages.contains_key((sender, sent_at)) {
            self.inbound.pages[(sender, sent_at)]
        } else {
            Seq::empty()
        }
    }

    /// The queue after the page that `sender` sent at `sent_at` was
    /// dispatched, the host having given `outcomes`: the events are
    /// recorded, and the page keeps what was not used up or, where nothing
    /// is left, leaves the store.
    pub open spec fn page_processed(
        self,
        sender: ParaId,
        sent_at: RelayBlockNumber,
        format: Format,
        outcomes: Seq<Outcome>,
    ) -> QueueState {
        let run = page_run(format, self.inbound_page(sender, sent_at), outcomes);
        QueueState {
            inbound: InboundState {
                pages: if run.rest.len() == 0 {
                    self.inbound.pages.remove((sender, sent_at))
                } else {
                    self.inbound.pages.insert((sender, sent_at), run.rest)
                },
                ..self.inbound
            },
            events: self.events + run.events,
            ..self
        }
    }
}

/// The bytes of `data` from position `from` on.
pub open spec fn bytes_from(data: Seq<u8>, from: usize) -> Seq<u8> {
    data.skip(from as int)
}

/// The sum of two weights, capped at the largest weight.
pub fn add_weight(a: Weight, b: Weight) -> (sum: Weight)
    ensures
        sum == weight_sum(a, b),
{
    if b > u64::MAX - a {
        u64::MAX
    } else {
        a + b
    }
}

/// What is left of `a` after `b` was used.
pub fn sub_weight(a: Weight, b: Weight) -> (left: Weight)
    ensures
        left == weight_left(a, b),
{
    if a >= b {
        a - b
    } else {
        0
    }
}

/// The outcome that the handling of a blob comes to.
pub fn outcome_of_blob(handled: Result<Weight, bool>) -> (outcome: Outcome)
    ensures
        outcome == blob_outcome(handled),
{
    match handled {
        Ok(used) => Outcome::Complete(used),
        Err(true) => Outcome::Error(XcmError::WeightLimitReached),
        Err(false) => Outcome::Error(XcmError::Unimplemented),
    }
}

/// What dispatch does after an outcome.
pub fn verdict_for(outcome: Outcome) -> (verdict: Result<Weight, XcmError>)
    ensures
        verdict == verdict_of(outcome),
{
    match outcome {
        Outcome::Complete(used) => Ok(used),
        Outcome::Incomplete(used, _) => Ok(used),
        Outcome::Error(e) => Err(e),
    }
}

impl Module {
    /// Records the event that reports `outcome` on `message`, and says what
    /// dispatch does next.
    pub fn note_outcome(&mut self, outcome: Outcome, message: Vec<u8>) -> (verdict: Result<
        Weight,
        XcmError,
    >)
        ensures
            final(self)@ == (QueueState {
                events: old(self)@.events.push(notice_of(outcome, message@)),
                ..old(self)@
            }),
            verdict == verdict_of(outcome),
            old(self).wf() ==> final(self).wf(),
    {
        let kind = match outcome {
            Outcome::Complete(_) => EventKind::Success,
            Outcome::Incomplete(_, e) => EventKind::Fail(e),
            Outcome::Error(e) => match e {
                XcmError::WeightLimitReached => EventKind::TooHeavy,
                XcmError::UnhandledXcmVersion => EventKind::BadVersion,
                _ => EventKind::Fail(e),
            },
        };
        self.events.push(Event { kind, payload: message });
        assert(self@.events =~= old(self)@.events.push(notice_of(outcome, message@)));
        match outcome {
            Outcome::Complete(used) => Ok(used),
            Outcome::Incomplete(used, _) => Ok(used),
            Outcome::Error(e) => Err(e),
        }
    }

    /// Hands one message of `sender` to the executor of the host, with
    /// `max_weight` to spend, and records what became of it. The result is
    /// the weight used, also where the message ran in part only, or the
    /// error of a message that did not run.
    pub fn handle_xcm_message<T: Config>(
        &mut self,
        host: &mut T,
        sender: ParaId,
        _sent_at: RelayBlockNumber,
        xcm: Vec<u8>,
        max_weight: Weight,
    ) -> (handled: Result<Weight, XcmError>)
        ensures
            exists|outcome: Outcome|
                {
                    &&& final(self)@ == (QueueState {
                        events: old(self)@.events.push(#[trigger] notice_of(outcome, xcm@)),
                        ..old(self)@
                    })
                    &&& handled == verdict_of(outcome)
                },
            old(self).wf() ==> final(self).wf(),
    {
        let outcome = host.execute_xcm(sender, &xcm, max_weight);
        self.note_outcome(outcome, xcm)
    }

    /// Hands one blob of `sender` to the host, with `weight_limit` to spend,
    /// and records what became of it.
    pub fn handle_blob_message<T: Config>(
        &mut self,
        host: &mut T,
        sender: ParaId,
        sent_at: RelayBlockNumber,
        blob: Vec<u8>,
        weight_limit: Weight,
    ) -> (handled: Result<Weight, bool>)
        ensures
            final(self)@ == (QueueState {
                events: old(self)@.events.push(notice_of(blob_outcome(handled), blob@)),
                ..old(self)@
            }),
            old(self).wf() ==> final(self).wf(),
    {
        let handled = host.handle_blob(sender, sent_at, &blob, weight_limit);
        let _ = self.note_outcome(outcome_of_blob(handled), blob);
        handled
    }

    /// Dispatches the page that `sender` sent at `sent_at`, with `max_weight`
    /// to spend: fragment by fragment, each offered what is left of the
    /// weight, until the page is used up or a fragment proves too heavy. The
    /// page keeps what was not used up, the heavy fragment first; a page
    /// with nothing left leaves the store. The result is the weight used
    /// and whether the page is used up.
    pub fn process_xcmp_message<T: Config>(
        &mut self,
        host: &mut T,
        sender: ParaId,
        page: (RelayBlockNumber, Format),
        max_weight: Weight,
    ) -> (done: (Weight, bool))
        ensures
            exists|outcomes: Seq<Outcome>|
                {
                    &&& finished(
                        #[trigger] page_run(
                            page.1,
                            old(self)@.inbound_page(sender, page.0),
                            outcomes,
                        ),
                    )
                    &&& final(self)@ == old(self)@.page_processed(
                        sender,
                        page.0,
                        page.1,
                        outcomes,
                    )
                    &&& done.0 == page_run(
                        page.1,
                        old(self)@.inbound_page(sender, page.0),
                        outcomes,
                    ).used
                    &&& done.1 == (page_run(
                        page.1,
                        old(self)@.inbound_page(sender, page.0),
                        outcomes,
                    ).rest.len() == 0)
                },
            old(self).wf() ==> final(self).wf(),
    {
        let sent_at = page.0;
        let format = page.1;
        let ghost before = self@;
        let data: Vec<u8> = match self.inbound_messages.remove(sender, sent_at) {
            Some(stored) => stored,
            None => Vec::new(),
        };
        let mut pos: usize = 0;
        let mut weight_used: Weight = 0;
        let mut stopped = false;
        let ghost mut outcomes: Seq<Outcome> = Seq::empty();
        let ghost mut events: Seq<Notice> = Seq::empty();
        assert(bytes_from(data@, pos) =~= data@);
        assert(before.events + events =~= before.events);
        while pos < data.len() && !stopped
            invariant
                pos <= data.len(),
                stopped ==> pos < data.len(),
                data@ == before.inbound_page(sender, sent_at),
                page_run(format, data@, outcomes) == (PageCursor {
                    rest: bytes_from(data@, pos),
                    used: weight_used,
                    events,
                    stopped,
                }),
                self@ == (QueueState {
                    inbound: InboundState {
                        pages: before.inbound.pages.remove((sender, sent_at)),
                        ..before.inbound
                    },
                    events: before.events + events,
                    ..before
                }),
            decreases
                    data.len() - pos + if stopped {
                        0int
                    } else {
                        1int
                    },
        {
            let ghost earlier = outcomes;
            let ghost here = page_run(format, data@, earlier);
            let fragment = match format {
                Format::Signals => None,
                _ => next_fragment(&data, pos),
            };
            match fragment {
                None => {
                    let raw = copy_from(&data, pos);
                    let ghost mid = self@;
                    self.events.push(Event { kind: EventKind::BadFormat, payload: raw });
                    proof {
                        outcomes = earlier.push(Outcome::Complete(0));
                        assert(self@.events =~= mid.events.push((EventKind::BadFormat, raw@)));
                        assert(self@.events =~= before.events + events.push(
                            (EventKind::BadFormat, bytes_from(data@, pos)),
                        ));
                        events = events.push((EventKind::BadFormat, bytes_from(data@, pos)));
                    }
                    pos = data.len();
                    assert(bytes_from(data@, pos) =~= Seq::<u8>::empty());
                },
                Some((message, next)) => {
                    let weight = sub_weight(max_weight, weight_used);
                    let ghost mid = self@;
                    let ghost payload = message@;
                    let ghost outcome;
                    let verdict = match format {
                        Format::ConcatenatedEncodedBlob => {
                            let handled = self.handle_blob_message(
                                host,
                                sender,
                                sent_at,
                                message,
                                weight,
                            );
                            proof {
                                outcome = blob_outcome(handled);
                            }
                            verdict_for(outcome_of_blob(handled))
                        },
                        _ => {
                            let handled = self.handle_xcm_message(
                                host,
                                sender,
                                sent_at,
                                message,
                                weight,
                            );
                            proof {
                                outcome = choose|o: Outcome|
                                    {
                                        &&& self@ == (QueueState {
                                            events: mid.events.push(
                                                #[trigger] notice_of(o, payload),
                                            ),
                                            ..mid
                                        })
                                        &&& handled == verdict_of(o)
                                    };
                            }
                            handled
                        },
                    };
                    proof {
                        outcomes = earlier.push(outcome);
                        assert(self@.events =~= before.events + events.push(
                            notice_of(outcome, payload),
                        ));
                        events = events.push(notice_of(outcome, payload));
                    }
                    match verdict {
                        Ok(used) => {
                            weight_used = add_weight(weight_used, used);
                            pos = next;
                        },
                        Err(XcmError::WeightLimitReached) => {
                            stopped = true;
                        },
                        Err(_) => {
                            pos = next;
                        },
                    }
                },
            }
            proof {
                lemma_page_after_agrees(format, data@, earlier, outcomes, earlier.len());
                assert(page_run(format, data@, outcomes) == page_step(
                    format,
                    here,
                    outcomes[earlier.len() - 1 + 1],
                ));
                assert(self@.events =~= before.events + events);
            }
        }
        let is_empty = pos >= data.len();
        if !is_empty {
            let rest = copy_from(&data, pos);
            self.inbound_messages.insert(sender, sent_at, rest);
        }
        proof {
            let run = page_run(format, data@, outcomes);
            if before.wf() {
                before.lemma_page_processed_wf(sender, sent_at, format, outcomes);
            }
            if run.rest.len() == 0 {
                assert(pos >= data.len());
            } else {
                assert(self.inbound_messages@ =~= before.inbound.pages.insert(
                    (sender, sent_at),
                    run.rest,
                ));
            }
        }
        (weight_used, is_empty)
    }
}

} // verus!
