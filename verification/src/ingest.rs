//! Receiving: batches that arrived from the siblings are told apart by their
//! format tag. Signals take effect at once; data pages are queued for
//! dispatch, and a sender whose queue grows is told to stop.

use crate::bytes::copy_from;
use crate::inbound_state::{
    distinct_pages, lemma_queues_after_insert, lemma_queues_after_update, lemma_sender_held,
    lemma_sender_rank, lists, queues_of, sender_rank, InboundChannel, InboundQueue, InboundState,
    HARD_LIMIT, RESUME_THRESHOLD, SUSPEND_THRESHOLD,
};
use crate::queue::{Module, QueueState};
use crate::service::{fair_start, service_start, serviced, whole_service, worth_serving};
use crate::types::{
    format_of_tag, signal_of_code, ChannelSignal, Config, Format, InboundStatus, Outcome, ParaId,
    RelayBlockNumber, Weight,
};
use vstd::prelude::*;

verus! {

/// A batch as it arrives: the sender, the relay block at which it was sent,
/// and the bytes.
pub type Batch = (ParaId, RelayBlockNumber, Seq<u8>);

/// The batches of a list as mathematical values.
pub open spec fn batches_of(list: Seq<(ParaId, RelayBlockNumber, Vec<u8>)>) -> Seq<Batch> {
    Seq::new(list.len(), |i: int| (list[i].0, list[i].1, list[i].2@))
}

/// A record that lists one page more keeps listing what it listed, and
/// lists the new page.
pub proof fn lemma_lists_after_push(
    q: InboundQueue,
    entry: (RelayBlockNumber, Format),
    sent_at: RelayBlockNumber,
)
    ensures
        lists(q, sent_at) ==> lists(InboundQueue { pages: q.pages.push(entry), ..q }, sent_at),
        lists(InboundQueue { pages: q.pages.push(entry), ..q }, entry.0),
{
    let t = InboundQueue { pages: q.pages.push(entry), ..q };
    if lists(q, sent_at) {
        let k = choose|k: int| 0 <= k < q.pages.len() && (#[trigger] q.pages[k]).0 == sent_at;
        assert(t.pages[k].0 == sent_at);
    }
    assert(t.pages[q.pages.len() as int].0 == entry.0);
}

impl QueueState {
    /// The queue after `sender` sent the control codes `codes`: each takes
    /// effect on our sending to `sender`, in order, up to the first byte
    /// that is no control code.
    pub open spec fn signals_applied(self, sender: ParaId, codes: Seq<u8>) -> QueueState
        decreases codes.len(),
    {
        if codes.len() == 0 {
            self
        } else {
            match signal_of_code(codes[0]) {
                Some(ChannelSignal::Suspend) => (QueueState {
                    outbound: self.outbound.suspend_channel(sender),
                    ..self
                }).signals_applied(sender, codes.drop_first()),
                Some(ChannelSignal::Resume) => (QueueState {
                    outbound: self.outbound.resume_channel(sender),
                    ..self
                }).signals_applied(sender, codes.drop_first()),
                None => self,
            }
        }
    }

    /// Whether a page more from `sender` makes us tell it to stop: it has
    /// reached the suspend threshold and was not told yet.
    pub open spec fn suspends(self, sender: ParaId) -> bool {
        &&& self.inbound.holds(sender)
        &&& self.inbound.queue(sender).pages.len() >= SUSPEND_THRESHOLD
        &&& self.inbound.queue(sender).state == InboundStatus::Active
    }

    /// The queue after a data page of `sender` arrived. A sender not seen
    /// before gets a record at its place in the order. A sender that has
    /// reached the suspend threshold is suspended and sent the signal. The
    /// page is listed and its body stored unless the sender stands at the
    /// hard limit; then it is dropped.
    pub open spec fn batch_queued(
        self,
        sender: ParaId,
        sent_at: RelayBlockNumber,
        format: Format,
        body: Seq<u8>,
    ) -> QueueState {
        if self.inbound.holds(sender) {
            let i = self.inbound.slot(sender);
            let q = self.inbound.channels[i];
            let state = if self.suspends(sender) {
                InboundStatus::Suspended
            } else {
                q.state
            };
            let outbound = if self.suspends(sender) {
                self.outbound.send_signal(sender, ChannelSignal::Suspend)
            } else {
                self.outbound
            };
            if q.pages.len() < HARD_LIMIT {
                QueueState {
                    inbound: InboundState {
                        channels: self.inbound.channels.update(
                            i,
                            InboundQueue { state, pages: q.pages.push((sent_at, format)), ..q },
                        ),
                        pages: self.inbound.pages.insert((sender, sent_at), body),
                    },
                    outbound,
                    ..self
                }
            } else {
                QueueState {
                    inbound: InboundState {
                        channels: self.inbound.channels.update(i, InboundQueue { state, ..q }),
                        ..self.inbound
                    },
                    outbound,
                    ..self
                }
            }
        } else {
            QueueState {
                inbound: InboundState {
                    channels: self.inbound.channels.insert(
                        sender_rank(self.inbound.channels, sender),
                        InboundQueue {
                            sender,
                            state: InboundStatus::Active,
                            pages: seq![(sent_at, format)],
                        },
                    ),
                    pages: self.inbound.pages.insert((sender, sent_at), body),
                },
                ..self
            }
        }
    }

    /// The queue after one batch arrived: a batch without a known tag is
    /// dropped; signals take effect; a data page is queued without its tag.
    pub open spec fn batch_received(
        self,
        sender: ParaId,
        sent_at: RelayBlockNumber,
        data: Seq<u8>,
    ) -> QueueState {
        if data.len() == 0 {
            self
        } else {
            match format_of_tag(data[0]) {
                None => self,
                Some(Format::Signals) => self.signals_applied(sender, data.skip(1)),
                Some(format) => self.batch_queued(sender, sent_at, format, data.skip(1)),
            }
        }
    }

    /// Whether the batch is no second data page of its sender and block:
    /// no page of `sender` sent at `sent_at` is queued, or the batch is no
    /// data page.
    pub open spec fn takes_fresh(
        self,
        sender: ParaId,
        sent_at: RelayBlockNumber,
        data: Seq<u8>,
    ) -> bool {
        data.len() > 0 && format_of_tag(data[0]) is Some && format_of_tag(data[0])
            != Some(Format::Signals) ==> !self.inbound.queued((sender, sent_at))
    }

    /// Whether each of the first `n` batches is fresh when it arrives.
    pub open spec fn all_fresh(self, batches: Seq<Batch>, n: nat) -> bool
        decreases n,
    {
        if n == 0 {
            true
        } else {
            let batch = batches[n - 1];
            &&& self.all_fresh(batches, (n - 1) as nat)
            &&& self.batches_received(batches, (n - 1) as nat).takes_fresh(
                batch.0,
                batch.1,
                batch.2,
            )
        }
    }

    /// Whether each of `batches` is fresh when it arrives.
    pub open spec fn arrives_fresh(self, batches: Seq<Batch>) -> bool {
        self.all_fresh(batches, batches.len())
    }

    /// A data page that is fresh keeps every listed page stored.
    pub proof fn lemma_batch_queued_stored(
        self,
        sender: ParaId,
        sent_at: RelayBlockNumber,
        format: Format,
        body: Seq<u8>,
    )
        requires
            self.wf(),
            self.inbound.pages_stored(),
            !self.inbound.queued((sender, sent_at)),
        ensures
            self.batch_queued(sender, sent_at, format, body).inbound.pages_stored(),
    {
        let t = self.batch_queued(sender, sent_at, format, body);
        let entry = (sent_at, format);
        if self.inbound.holds(sender) {
            lemma_sender_held(self.inbound.channels, sender);
            let i = self.inbound.slot(sender);
            let q = self.inbound.channels[i];
            let r = t.inbound.channels[i];
            assert forall|j: int| 0 <= j < t.inbound.channels.len() implies distinct_pages(
                #[trigger] t.inbound.channels[j],
            ) by {
                if j == i {
                    assert(distinct_pages(q));
                    assert forall|a: int, b: int| 0 <= a < b < r.pages.len() implies (
                    #[trigger] r.pages[a]).0 != (#[trigger] r.pages[b]).0 by {
                        if b == q.pages.len() {
                            if q.pages[a].0 == sent_at {
                                assert(lists(q, sent_at));
                            }
                        } else {
                            assert(q.pages[a].0 != q.pages[b].0);
                        }
                    }
                } else {
                    assert(t.inbound.channels[j] == self.inbound.channels[j]);
                }
            }
            assert forall|j: int, k: int|
                0 <= j < t.inbound.channels.len() && 0 <= k
                    < t.inbound.channels[j].pages.len() implies t.inbound.pages.contains_key(
                (t.inbound.channels[j].sender, (#[trigger] t.inbound.channels[j].pages[k]).0),
            ) by {
                let c0 = self.inbound.channels[j];
                if k < c0.pages.len() {
                    assert(self.inbound.pages.contains_key((c0.sender, c0.pages[k].0)));
                }
            }
        } else {
            lemma_sender_rank(self.inbound.channels, sender);
            let at = sender_rank(self.inbound.channels, sender);
            let back = |j: int| if j < at { j } else { j - 1 };
            assert forall|j: int| 0 <= j < t.inbound.channels.len() implies distinct_pages(
                #[trigger] t.inbound.channels[j],
            ) by {
                if j != at {
                    assert(t.inbound.channels[j] == self.inbound.channels[back(j)]);
                }
            }
            assert forall|j: int, k: int|
                0 <= j < t.inbound.channels.len() && 0 <= k
                    < t.inbound.channels[j].pages.len() implies t.inbound.pages.contains_key(
                (t.inbound.channels[j].sender, (#[trigger] t.inbound.channels[j].pages[k]).0),
            ) by {
                if j != at {
                    let c0 = self.inbound.channels[back(j)];
                    assert(t.inbound.channels[j] == c0);
                    assert(self.inbound.pages.contains_key((c0.sender, c0.pages[k].0)));
                }
            }
        }
    }

    /// A batch that is fresh keeps every listed page stored.
    pub proof fn lemma_batch_received_stored(
        self,
        sender: ParaId,
        sent_at: RelayBlockNumber,
        data: Seq<u8>,
    )
        requires
            self.wf(),
            self.inbound.pages_stored(),
            self.takes_fresh(sender, sent_at, data),
        ensures
            self.batch_received(sender, sent_at, data).inbound.pages_stored(),
    {
        if data.len() > 0 {
            match format_of_tag(data[0]) {
                None => {},
                Some(Format::Signals) => {
                    self.lemma_signals_applied_wf(sender, data.skip(1));
                },
                Some(format) => {
                    self.lemma_batch_queued_stored(sender, sent_at, format, data.skip(1));
                },
            }
        }
    }

    /// Batches that are fresh keep every listed page stored.
    pub proof fn lemma_batches_received_stored(self, batches: Seq<Batch>, n: nat)
        requires
            self.wf(),
            self.inbound.pages_stored(),
            self.all_fresh(batches, n),
        ensures
            self.batches_received(batches, n).inbound.pages_stored(),
        decreases n,
    {
        if n > 0 {
            self.lemma_batches_received_stored(batches, (n - 1) as nat);
            self.lemma_batches_received_wf(batches, (n - 1) as nat);
            let batch = batches[n - 1];
            self.batches_received(batches, (n - 1) as nat).lemma_batch_received_stored(
                batch.0,
                batch.1,
                batch.2,
            );
        }
    }

    /// The queue after all of `batches` arrived, in order.
    pub open spec fn all_received(self, batches: Seq<Batch>) -> QueueState {
        self.batches_received(batches, batches.len())
    }

    /// The queue after the first `n` batches arrived, in order.
    pub open spec fn batches_received(self, batches: Seq<Batch>, n: nat) -> QueueState
        decreases n,
    {
        if n == 0 {
            self
        } else {
            let batch = batches[n - 1];
            self.batches_received(batches, (n - 1) as nat).batch_received(
                batch.0,
                batch.1,
                batch.2,
            )
        }
    }

    /// Signals keep the invariant, and touch nothing but our sending.
    pub proof fn lemma_signals_applied_wf(self, sender: ParaId, codes: Seq<u8>)
        requires
            self.wf(),
        ensures
            self.signals_applied(sender, codes).wf(),
            self.signals_applied(sender, codes).inbound == self.inbound,
            self.signals_applied(sender, codes).events == self.events,
        decreases codes.len(),
    {
        if codes.len() > 0 {
            match signal_of_code(codes[0]) {
                Some(ChannelSignal::Suspend) => {
                    self.outbound.lemma_suspend_channel_wf(sender);
                    (QueueState {
                        outbound: self.outbound.suspend_channel(sender),
                        ..self
                    }).lemma_signals_applied_wf(sender, codes.drop_first());
                },
                Some(ChannelSignal::Resume) => {
                    self.outbound.lemma_resume_channel_wf(sender);
                    (QueueState {
                        outbound: self.outbound.resume_channel(sender),
                        ..self
                    }).lemma_signals_applied_wf(sender, codes.drop_first());
                },
                None => {},
            }
        }
    }

    /// Queueing a data page keeps the invariant.
    pub proof fn lemma_batch_queued_wf(
        self,
        sender: ParaId,
        sent_at: RelayBlockNumber,
        format: Format,
        body: Seq<u8>,
    )
        requires
            self.wf(),
        ensures
            self.batch_queued(sender, sent_at, format, body).wf(),
    {
        let t = self.batch_queued(sender, sent_at, format, body);
        let entry = (sent_at, format);
        if self.suspends(sender) {
            self.outbound.lemma_send_signal_wf(sender, ChannelSignal::Suspend);
        }
        if self.inbound.holds(sender) {
            lemma_sender_held(self.inbound.channels, sender);
            let i = self.inbound.slot(sender);
            let q = self.inbound.channels[i];
            let r = t.inbound.channels[i];
            lemma_queues_after_update(self.inbound.channels, i, r);
            assert forall|k: int| 0 <= k < t.inbound.channels.len() implies {
                let c = #[trigger] t.inbound.channels[k];
                &&& 1 <= c.pages.len() <= HARD_LIMIT
                &&& c.pages.len() > SUSPEND_THRESHOLD ==> c.state == InboundStatus::Suspended
                &&& c.state == InboundStatus::Suspended ==> c.pages.len()
                    > RESUME_THRESHOLD
            } by {
                let c0 = self.inbound.channels[k];
                assert(1 <= c0.pages.len() <= HARD_LIMIT);
            }
            assert forall|key: (u32, u32)| #[trigger]
                t.inbound.pages.contains_key(key) implies t.inbound.queued(key) by {
                if key == (sender, sent_at) && q.pages.len() < HARD_LIMIT {
                    lemma_lists_after_push(q, entry, sent_at);
                    assert(lists(r, sent_at)) by {
                        assert(r.pages[q.pages.len() as int].0 == sent_at);
                    }
                } else {
                    assert(self.inbound.pages.contains_key(key));
                    assert(self.inbound.queued(key));
                    if key.0 == sender {
                        let w = choose|w: int|
                            0 <= w < q.pages.len() && (#[trigger] q.pages[w]).0 == key.1;
                        assert(r.pages[w].0 == key.1);
                    }
                }
            }
        } else {
            let fresh = InboundQueue {
                sender,
                state: InboundStatus::Active,
                pages: seq![entry],
            };
            lemma_queues_after_insert(self.inbound.channels, fresh);
            lemma_sender_rank(self.inbound.channels, sender);
            let at = sender_rank(self.inbound.channels, sender);
            assert forall|k: int| 0 <= k < t.inbound.channels.len() implies {
                let c = #[trigger] t.inbound.channels[k];
                &&& 1 <= c.pages.len() <= HARD_LIMIT
                &&& c.pages.len() > SUSPEND_THRESHOLD ==> c.state == InboundStatus::Suspended
                &&& c.state == InboundStatus::Suspended ==> c.pages.len()
                    > RESUME_THRESHOLD
            } by {
                if k < at {
                    let c0 = self.inbound.channels[k];
                    assert(t.inbound.channels[k] == c0);
                    assert(1 <= c0.pages.len() <= HARD_LIMIT);
                } else if k > at {
                    let c0 = self.inbound.channels[k - 1];
                    assert(t.inbound.channels[k] == c0);
                    assert(1 <= c0.pages.len() <= HARD_LIMIT);
                }
            }
            assert forall|key: (u32, u32)| #[trigger]
                t.inbound.pages.contains_key(key) implies t.inbound.queued(key) by {
                if key == (sender, sent_at) {
                    assert(fresh.pages[0].0 == sent_at);
                } else {
                    assert(self.inbound.pages.contains_key(key));
                    assert(self.inbound.queued(key));
                }
            }
        }
    }

    /// Receiving a batch keeps the invariant.
    pub proof fn lemma_batch_received_wf(
        self,
        sender: ParaId,
        sent_at: RelayBlockNumber,
        data: Seq<u8>,
    )
        requires
            self.wf(),
        ensures
            self.batch_received(sender, sent_at, data).wf(),
    {
        if data.len() > 0 {
            match format_of_tag(data[0]) {
                None => {},
                Some(Format::Signals) => {
                    self.lemma_signals_applied_wf(sender, data.skip(1));
                },
                Some(format) => {
                    self.lemma_batch_queued_wf(sender, sent_at, format, data.skip(1));
                },
            }
        }
    }

    /// Receiving batches keeps the invariant.
    pub proof fn lemma_batches_received_wf(self, batches: Seq<Batch>, n: nat)
        requires
            self.wf(),
        ensures
            self.batches_received(batches, n).wf(),
        decreases n,
    {
        if n > 0 {
            self.lemma_batches_received_wf(batches, (n - 1) as nat);
            let batch = batches[n - 1];
            self.batches_received(batches, (n - 1) as nat).lemma_batch_received_wf(
                batch.0,
                batch.1,
                batch.2,
            );
        }
    }
}

impl Module {
    /// Finds the record of a sender, or the place where its record would
    /// go.
    pub(crate) fn inbound_slot(&self, sender: ParaId) -> (found: Result<usize, usize>)
        requires
            self@.inbound.consistent(),
        ensures
            match found {
                Ok(i) => self@.inbound.holds(sender) && i == self@.inbound.slot(sender) && i
                    < self.inbound_status.len(),
                Err(at) => !self@.inbound.holds(sender) && at == sender_rank(
                    self@.inbound.channels,
                    sender,
                ) && at <= self.inbound_status.len(),
            },
    {
        let ghost channels = self@.inbound.channels;
        let mut j: usize = self.inbound_status.len();
        assert(channels.subrange(0, j as int) =~= channels);
        while j > 0 && self.inbound_status[j - 1].sender >= sender
            invariant
                j <= self.inbound_status.len(),
                channels == queues_of(self.inbound_status@),
                sender_rank(channels, sender) == sender_rank(
                    channels.subrange(0, j as int),
                    sender,
                ),
            decreases j,
        {
            assert(channels.subrange(0, j as int).drop_last() =~= channels.subrange(0, j - 1));
            j -= 1;
        }
        proof {
            if j > 0 {
                assert(channels.subrange(0, j as int).last() == channels[j - 1]);
            }
            lemma_sender_rank(channels, sender);
        }
        if j < self.inbound_status.len() && self.inbound_status[j].sender == sender {
            Ok(j)
        } else {
            Err(j)
        }
    }

    /// Takes in the control codes that `sender` sent, from position `from`
    /// of `data` on.
    pub fn apply_signals(&mut self, sender: ParaId, data: &Vec<u8>, from: usize)
        requires
            old(self).wf(),
            from <= data.len(),
        ensures
            final(self).wf(),
            final(self)@ == old(self)@.signals_applied(sender, data@.skip(from as int)),
    {
        let mut i: usize = from;
        proof {
            old(self)@.lemma_signals_applied_wf(sender, data@.skip(from as int));
        }
        while i < data.len()
            invariant
                from <= i <= data.len(),
                self.wf(),
                old(self)@.signals_applied(sender, data@.skip(from as int))
                    == self@.signals_applied(sender, data@.skip(i as int)),
            decreases data.len() - i,
        {
            let ghost codes = data@.skip(i as int);
            assert(codes[0] == data@[i as int]);
            assert(codes.drop_first() =~= data@.skip(i + 1));
            match ChannelSignal::from_code(data[i]) {
                Some(ChannelSignal::Suspend) => {
                    self.suspend_channel(sender);
                },
                Some(ChannelSignal::Resume) => {
                    self.resume_channel(sender);
                },
                None => {
                    return ;
                },
            }
            i += 1;
        }
    }

    /// Queues the data page that `sender` sent at `sent_at`; its body is
    /// what `data` holds from position `from` on.
    pub fn queue_batch(
        &mut self,
        sender: ParaId,
        sent_at: RelayBlockNumber,
        format: Format,
        data: &Vec<u8>,
        from: usize,
    )
        requires
            old(self).wf(),
            from <= data.len(),
        ensures
            final(self).wf(),
            final(self)@ == old(self)@.batch_queued(
                sender,
                sent_at,
                format,
                data@.skip(from as int),
            ),
    {
        let ghost before = self@;
        let ghost body = data@.skip(from as int);
        proof {
            before.lemma_batch_queued_wf(sender, sent_at, format, body);
        }
        match self.inbound_slot(sender) {
            Ok(i) => {
                proof {
                    lemma_sender_held(before.inbound.channels, sender);
                }
                let count = self.inbound_status[i].pages.len();
                let ghost q = before.inbound.channels[i as int];
                if count >= SUSPEND_THRESHOLD && self.inbound_status[i].state
                    == InboundStatus::Active {
                    self.inbound_status[i].state = InboundStatus::Suspended;
                    proof {
                        let flipped = InboundQueue { state: InboundStatus::Suspended, ..q };
                        assert(self@.inbound.channels =~= before.inbound.channels.update(
                            i as int,
                            flipped,
                        ));
                        lemma_queues_after_update(before.inbound.channels, i as int, flipped);
                        assert forall|k: int| 0 <= k < self@.inbound.channels.len() implies 1 <= (
                        #[trigger] self@.inbound.channels[k]).pages.len() by {
                            assert(before.inbound.channels[k].pages.len() >= 1);
                        }
                        assert forall|key: (u32, u32)| #[trigger]
                            self@.inbound.pages.contains_key(key) implies self@.inbound.queued(
                            key,
                        ) by {
                            assert(before.inbound.queued(key));
                        }
                    }
                    let _ = self.send_signal(sender, ChannelSignal::Suspend);
                }
                let ghost mid = self@.inbound.channels;
                assert(mid =~= before.inbound.channels.update(
                    i as int,
                    InboundQueue {
                        state: if before.suspends(sender) {
                            InboundStatus::Suspended
                        } else {
                            q.state
                        },
                        ..q
                    },
                ));
                if count < HARD_LIMIT {
                    self.inbound_status[i].pages.push((sent_at, format));
                    self.inbound_messages.insert(sender, sent_at, copy_from(data, from));
                    assert(self@.inbound.channels =~= mid.update(
                        i as int,
                        InboundQueue { pages: mid[i as int].pages.push((sent_at, format)), ..mid[i as int] },
                    )) by {
                        assert forall|k: int| 0 <= k < mid.len() implies #[trigger]
                            self@.inbound.channels[k] == mid.update(
                            i as int,
                            InboundQueue {
                                pages: mid[i as int].pages.push((sent_at, format)),
                                ..mid[i as int]
                            },
                        )[k] by {
                            if k != i {
                                assert(self.inbound_status@[k]@ == mid[k]);
                            }
                        }
                    }
                }
                assert(self@.inbound.channels =~= before.batch_queued(
                    sender,
                    sent_at,
                    format,
                    body,
                ).inbound.channels);
            },
            Err(at) => {
                let mut pages: Vec<(RelayBlockNumber, Format)> = Vec::new();
                pages.push((sent_at, format));
                self.inbound_status.insert(
                    at,
                    InboundChannel { sender, state: InboundStatus::Active, pages },
                );
                self.inbound_messages.insert(sender, sent_at, copy_from(data, from));
                assert(self@.inbound.channels =~= before.batch_queued(
                    sender,
                    sent_at,
                    format,
                    body,
                ).inbound.channels);
            },
        }
    }

    /// Takes in the batches of a block, in order.
    pub fn receive_batches(&mut self, batches: &Vec<(ParaId, RelayBlockNumber, Vec<u8>)>)
        requires
            old(self).wf(),
        ensures
            final(self).wf(),
            final(self)@ == old(self)@.all_received(batches_of(batches@)),
            old(self)@.inbound.pages_stored() && old(self)@.arrives_fresh(batches_of(batches@))
                ==> final(self)@.inbound.pages_stored(),
    {
        proof {
            if old(self)@.inbound.pages_stored() && old(self)@.arrives_fresh(
                batches_of(batches@),
            ) {
                old(self)@.lemma_batches_received_stored(
                    batches_of(batches@),
                    batches.len() as nat,
                );
            }
        }
        let mut i: usize = 0;
        while i < batches.len()
            invariant
                i <= batches.len(),
                self.wf(),
                self@ == old(self)@.batches_received(batches_of(batches@), i as nat),
            decreases batches.len() - i,
        {
            let batch = &batches[i];
            self.receive_batch(batch.0, batch.1, &batch.2);
            i += 1;
        }
    }

    /// Takes in the batches that arrived in a block, in order, and then
    /// serves the inbound queues with up to `max_weight` of execution. The
    /// result is the weight used.
    pub fn handle_xcmp_messages<T: Config>(
        &mut self,
        host: &mut T,
        batches: &Vec<(ParaId, RelayBlockNumber, Vec<u8>)>,
        max_weight: Weight,
    ) -> (used: Weight)
        requires
            old(self).wf(),
        ensures
            final(self).wf(),
            exists|hash: Seq<u8>, rounds: Seq<Seq<Outcome>>|
                {
                    &&& worth_serving(
                        old(self)@.all_received(batches_of(batches@)),
                        max_weight,
                    ) ==> fair_start(
                        service_start(old(self)@.all_received(batches_of(batches@)), hash),
                    ) && whole_service(
                        service_start(old(self)@.all_received(batches_of(batches@)), hash),
                        max_weight,
                        rounds,
                    )
                    &&& (final(self)@, used) == #[trigger] serviced(
                        old(self)@.all_received(batches_of(batches@)),
                        hash,
                        max_weight,
                        rounds,
                    )
                },
            old(self)@.inbound.pages_stored() && old(self)@.arrives_fresh(batches_of(batches@))
                ==> final(self)@.inbound.pages_stored(),
    {
        self.receive_batches(batches);
        self.service_xcmp_queue(host, max_weight)
    }

    /// Takes in one batch of `sender`, sent at `sent_at`: a batch without a
    /// known format tag is dropped; signals take effect at once; a data
    /// page is queued for dispatch.
    pub fn receive_batch(&mut self, sender: ParaId, sent_at: RelayBlockNumber, data: &Vec<u8>)
        requires
            old(self).wf(),
        ensures
            final(self).wf(),
            final(self)@ == old(self)@.batch_received(sender, sent_at, data@),
            old(self)@.inbound.pages_stored() && old(self)@.takes_fresh(sender, sent_at, data@)
                ==> final(self)@.inbound.pages_stored(),
    {
        proof {
            if old(self)@.inbound.pages_stored() && old(self)@.takes_fresh(
                sender,
                sent_at,
                data@,
            ) {
                old(self)@.lemma_batch_received_stored(sender, sent_at, data@);
            }
        }
        if data.len() == 0 {
            return ;
        }
        match Format::from_tag(data[0]) {
            None => {},
            Some(Format::Signals) => {
                self.apply_signals(sender, data, 1);
            },
            Some(format) => {
                self.queue_batch(sender, sent_at, format, data, 1);
            },
        }
    }
}

} // verus!
