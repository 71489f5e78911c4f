//! Sending: queueing fragments and signals for the siblings, and handing
//! pages to the transport.

use crate::bytes::append_bytes;
use crate::outbound_laws::{
    lemma_held, lemma_places_after_push, lemma_places_after_retain, lemma_slot,
    lemma_sort_by_recipient,
};
use crate::outbound_state::{
    ascending, deliveries_of, fresh_channel, held, insertion_point, retained, rotate_left,
    ring_in_order, sort_by_recipient, Collected, Delivery, OutboundChannel,
};
use crate::queue::{Module, QueueState};
use crate::types::{
    ChannelSignal, ChannelStatus, Config, Format, MessageSendError, OutboundStatus, ParaId,
};
use vstd::prelude::*;

verus! {

/// Puts a page for `recipient` into `result` behind the last page whose
/// recipient is not greater.
pub fn insert_delivery(result: &mut Vec<(ParaId, Vec<u8>)>, recipient: ParaId, page: Vec<u8>)
    ensures
        deliveries_of(final(result)@) == deliveries_of(old(result)@).insert(
            insertion_point(deliveries_of(old(result)@), recipient),
            (recipient, page@),
        ),
        final(result)@.len() == old(result)@.len() + 1,
{
    let ghost before = deliveries_of(result@);
    let mut j: usize = result.len();
    assert(before.subrange(0, before.len() as int) =~= before);
    while j > 0 && result[j - 1].0 > recipient
        invariant
            j <= result.len(),
            result@ == old(result)@,
            before == deliveries_of(result@),
            insertion_point(before, recipient) == insertion_point(
                before.subrange(0, j as int),
                recipient,
            ),
        decreases j,
    {
        assert(before.subrange(0, j as int).drop_last() =~= before.subrange(0, j - 1));
        j -= 1;
    }
    proof {
        if j > 0 {
            assert(before.subrange(0, j as int).last() == before[j - 1]);
        }
    }
    result.insert(j, (recipient, page));
    assert(deliveries_of(result@) =~= before.insert(j as int, (recipient, page@)));
}

/// The records of `list` that have a reason to stay, in order.
pub fn retain_channels(list: &Vec<OutboundChannel>) -> (kept: Vec<OutboundChannel>)
    ensures
        kept@ == retained(list@),
{
    let mut kept: Vec<OutboundChannel> = Vec::new();
    let mut j: usize = 0;
    while j < list.len()
        invariant
            j <= list.len(),
            kept@ == retained(list@.subrange(0, j as int)),
        decreases list.len() - j,
    {
        let c = list[j];
        assert(list@.subrange(0, j + 1).drop_last() =~= list@.subrange(0, j as int));
        if c.state == OutboundStatus::Suspended || c.signals_exist || c.first_index
            < c.last_index {
            kept.push(c);
        }
        j += 1;
    }
    assert(list@.subrange(0, j as int) =~= list@);
    kept
}

/// The records of `list` turned left by `turn` places.
pub fn rotate_channels(list: &Vec<OutboundChannel>, turn: usize) -> (turned: Vec<OutboundChannel>)
    requires
        turn <= list.len(),
    ensures
        turned@ == rotate_left(list@, turn as int),
{
    let mut turned: Vec<OutboundChannel> = Vec::new();
    let mut j: usize = turn;
    while j < list.len()
        invariant
            turn <= j <= list.len(),
            turned@ == list@.subrange(turn as int, j as int),
        decreases list.len() - j,
    {
        turned.push(list[j]);
        j += 1;
        assert(turned@ =~= list@.subrange(turn as int, j as int));
    }
    let mut k: usize = 0;
    while k < turn
        invariant
            k <= turn <= list.len(),
            turned@ == list@.subrange(turn as int, list.len() as int) + list@.subrange(
                0,
                k as int,
            ),
        decreases turn - k,
    {
        turned.push(list[k]);
        k += 1;
        assert(turned@ =~= list@.subrange(turn as int, list.len() as int) + list@.subrange(
            0,
            k as int,
        ));
    }
    turned
}

impl Module {
    /// Finds the record of a recipient.
    pub(crate) fn outbound_slot(&self, recipient: ParaId) -> (found: Option<usize>)
        requires
            self@.outbound.recipients().no_duplicates(),
        ensures
            match found {
                Some(i) => self@.outbound.holds(recipient) && i == self@.outbound.slot(recipient)
                    && i < self.outbound_status.len(),
                None => !self@.outbound.holds(recipient),
            },
    {
        let mut i: usize = 0;
        while i < self.outbound_status.len()
            invariant
                i <= self.outbound_status.len(),
                self@.outbound.recipients().no_duplicates(),
                forall|k: int| 0 <= k < i ==> self.outbound_status@[k].recipient != recipient,
            decreases self.outbound_status.len() - i,
        {
            if self.outbound_status[i].recipient == recipient {
                proof {
                    lemma_slot(self.outbound_status@, i as int);
                }
                return Some(i);
            }
            i += 1;
        }
        proof {
            if held(self.outbound_status@, recipient) {
                lemma_held(self.outbound_status@, recipient);
            }
        }
        None
    }

    /// Queues a control code for `dest`; it leaves with the next poll of the
    /// transport that the channel lets through, before any data page.
    pub fn send_signal(&mut self, dest: ParaId, signal: ChannelSignal) -> (sent: Result<(), ()>)
        requires
            old(self)@.outbound.wf(),
        ensures
            final(self)@.outbound.wf(),
            old(self).wf() ==> final(self).wf(),
            sent is Ok,
            final(self)@ == (QueueState {
                outbound: old(self)@.outbound.send_signal(dest, signal),
                ..old(self)@
            }),
    {
        let ghost before = self@.outbound;
        proof {
            before.lemma_send_signal_wf(dest, signal);
            if !before.holds(dest) {
                lemma_places_after_push(before.channels, fresh_channel(dest));
            }
        }
        match self.outbound_slot(dest) {
            Some(i) => {
                let c = self.outbound_status[i];
                self.outbound_status[i] = OutboundChannel { signals_exist: true, ..c };
            },
            None => {
                self.outbound_status.push(
                    OutboundChannel {
                        recipient: dest,
                        state: OutboundStatus::Active,
                        signals_exist: true,
                        first_index: 0,
                        last_index: 0,
                    },
                );
            },
        }
        assert(self.outbound_status@ =~= before.send_signal(dest, signal).channels);
        let code = signal.code();
        let page = match self.signal_messages.remove(dest) {
            Some(mut waiting) => {
                if waiting.len() > 0 {
                    waiting.push(code);
                    waiting
                } else {
                    let mut opened: Vec<u8> = Vec::new();
                    opened.push(Format::Signals.tag());
                    opened.push(code);
                    opened
                }
            },
            None => {
                let mut opened: Vec<u8> = Vec::new();
                opened.push(Format::Signals.tag());
                opened.push(code);
                opened
            },
        };
        assert(page@ =~= before.signal_page_with(dest, signal));
        self.signal_messages.insert(dest, page);
        assert(self.signal_messages@ =~= before.send_signal(dest, signal).signals);
        Ok(())
    }

    /// Takes note that `target` asked us to stop sending to it.
    pub fn suspend_channel(&mut self, target: ParaId)
        requires
            old(self).wf(),
        ensures
            final(self).wf(),
            final(self)@ == (QueueState {
                outbound: old(self)@.outbound.suspend_channel(target),
                ..old(self)@
            }),
    {
        let ghost before = self@.outbound;
        proof {
            before.lemma_suspend_channel_wf(target);
        }
        match self.outbound_slot(target) {
            Some(i) => {
                let c = self.outbound_status[i];
                self.outbound_status[i] = OutboundChannel { state: OutboundStatus::Suspended, ..c };
            },
            None => {
                self.outbound_status.push(
                    OutboundChannel {
                        recipient: target,
                        state: OutboundStatus::Suspended,
                        signals_exist: false,
                        first_index: 0,
                        last_index: 0,
                    },
                );
            },
        }
        assert(self.outbound_status@ =~= before.suspend_channel(target).channels);
    }

    /// Takes note that `target` lets us send again. Its record is dropped if
    /// neither a data page nor a signal waits for it.
    pub fn resume_channel(&mut self, target: ParaId)
        requires
            old(self).wf(),
        ensures
            final(self).wf(),
            final(self)@ == (QueueState {
                outbound: old(self)@.outbound.resume_channel(target),
                ..old(self)@
            }),
    {
        let ghost before = self@.outbound;
        proof {
            before.lemma_resume_channel_wf(target);
        }
        match self.outbound_slot(target) {
            Some(i) => {
                let c = self.outbound_status[i];
                if c.first_index == c.last_index && !c.signals_exist {
                    self.outbound_status.remove(i);
                } else {
                    self.outbound_status[i] = OutboundChannel { state: OutboundStatus::Active, ..c };
                }
            },
            None => {},
        }
        assert(self.outbound_status@ =~= before.resume_channel(target).channels);
    }

    /// Queues a fragment for `recipient`, the host having reported
    /// `max_message_size` as the longest page that the channel takes.
    pub fn queue_fragment(
        &mut self,
        max_message_size: Option<usize>,
        recipient: ParaId,
        format: Format,
        data: &Vec<u8>,
    ) -> (queued: Result<u32, MessageSendError>)
        requires
            old(self).wf(),
        ensures
            final(self).wf(),
            final(self)@ == (QueueState {
                outbound: old(self)@.outbound.send_fragment(
                    max_message_size,
                    recipient,
                    format,
                    data@,
                ).0,
                ..old(self)@
            }),
            queued == old(self)@.outbound.send_fragment(
                max_message_size,
                recipient,
                format,
                data@,
            ).1,
    {
        let ghost before = self@.outbound;
        proof {
            before.lemma_send_fragment_wf(max_message_size, recipient, format, data@);
        }
        let max = match max_message_size {
            None => {
                return Err(MessageSendError::NoChannel);
            },
            Some(max) => max,
        };
        if data.len() > max {
            return Err(MessageSendError::TooBig);
        }
        let found = self.outbound_slot(recipient);
        let tag = format.tag();
        if let Some(i) = found {
            let c = self.outbound_status[i];
            if c.last_index > c.first_index {
                let newest: u32 = (c.last_index - 1) as u32;
                let fits = match self.outbound_messages.get(recipient, newest) {
                    Some(page) => page.len() >= 1 && page[0] == tag && page.len() <= max
                        && data.len() <= max - page.len(),
                    None => false,
                };
                if fits {
                    let taken = self.outbound_messages.remove(recipient, newest);
                    let mut page = match taken {
                        Some(page) => page,
                        None => Vec::new(),
                    };
                    append_bytes(&mut page, data);
                    self.outbound_messages.insert(recipient, newest, page);
                    assert(self.outbound_messages@ =~= before.pages.insert(
                        (recipient, newest),
                        before.pages[(recipient, newest)] + data@,
                    ));
                    return Ok((c.last_index - c.first_index - 1) as u32);
                }
            }
            if c.last_index == u16::MAX {
                return Err(MessageSendError::QueueFull);
            }
        }
        let i = match found {
            Some(i) => i,
            None => {
                proof {
                    lemma_places_after_push(before.channels, fresh_channel(recipient));
                }
                self.outbound_status.push(
                    OutboundChannel {
                        recipient,
                        state: OutboundStatus::Active,
                        signals_exist: false,
                        first_index: 0,
                        last_index: 0,
                    },
                );
                self.outbound_status.len() - 1
            },
        };
        let c = self.outbound_status[i];
        let mut page: Vec<u8> = Vec::new();
        page.push(tag);
        append_bytes(&mut page, data);
        assert(page@ =~= seq![tag] + data@);
        self.outbound_messages.insert(recipient, c.last_index as u32, page);
        self.outbound_status[i] = OutboundChannel { last_index: c.last_index + 1, ..c };
        Ok((c.last_index - c.first_index) as u32)
    }

    /// Places a fragment on the outgoing queue for `recipient`. The fragment
    /// joins the newest page if that carries the same format and stays
    /// within the size that the host reports for the channel; else a new
    /// page is opened. What is decided on the size that the host reports is
    /// what `queue_fragment` decides on it.
    pub fn send_fragment<T: Config>(
        &mut self,
        host: &T,
        recipient: ParaId,
        format: Format,
        data: &Vec<u8>,
    ) -> (queued: Result<u32, MessageSendError>)
        requires
            old(self).wf(),
        ensures
            final(self).wf(),
            exists|max: Option<usize>|
                {
                    &&& final(self)@ == (QueueState {
                        outbound: (#[trigger] old(self)@.outbound.send_fragment(
                            max,
                            recipient,
                            format,
                            data@,
                        )).0,
                        ..old(self)@
                    })
                    &&& queued == old(self)@.outbound.send_fragment(
                        max,
                        recipient,
                        format,
                        data@,
                    ).1
                },
    {
        let max = host.get_channel_max(recipient);
        self.queue_fragment(max, recipient, format, data)
    }

    /// Serves the record at place `i`, the host having reported `status`
    /// for its channel, and returns the page that leaves, if one does.
    pub(crate) fn collect_from(&mut self, i: usize, status: ChannelStatus) -> (delivery: Option<Vec<u8>>)
        requires
            old(self)@.outbound.consistent(),
            i < old(self)@.outbound.channels.len(),
        ensures
            final(self)@ == (QueueState {
                outbound: old(self)@.outbound.collect_one(i as int, status).0,
                ..old(self)@
            }),
            match delivery {
                Some(page) => old(self)@.outbound.collect_one(i as int, status).1 == Some(
                    (old(self)@.outbound.channels[i as int].recipient, page@),
                ),
                None => old(self)@.outbound.collect_one(i as int, status).1 is None,
            },
    {
        let ghost before = self@.outbound;
        let c = self.outbound_status[i];
        if c.state == OutboundStatus::Suspended {
            return None;
        }
        match status {
            ChannelStatus::Closed => {
                let mut k: u16 = c.first_index;
                proof {
                    assert(ring_in_order(before.channels[i as int]));
                }
                while k < c.last_index
                    invariant
                        c.first_index <= k <= c.last_index,
                        self.outbound_messages@ =~= Map::new(
                            |key: (u32, u32)|
                                before.pages.contains_key(key) && !(key.0 == c.recipient
                                    && c.first_index <= key.1 < k),
                            |key: (u32, u32)| before.pages[key],
                        ),
                        self.outbound_status@ == before.channels,
                        self.signal_messages@ == before.signals,
                        self@.inbound == old(self)@.inbound,
                        self@.events == old(self)@.events,
                    decreases c.last_index - k,
                {
                    self.outbound_messages.remove(c.recipient, k as u32);
                    k += 1;
                }
                self.signal_messages.remove(c.recipient);
                self.outbound_status[i] = OutboundChannel {
                    recipient: c.recipient,
                    state: OutboundStatus::Active,
                    signals_exist: false,
                    first_index: 0,
                    last_index: 0,
                };
                assert(self.outbound_messages@ =~= before.pages_without_ring(c));
                None
            },
            ChannelStatus::Full => None,
            ChannelStatus::Ready(max_size_now, max_size_ever) => {
                if c.signals_exist {
                    let fits = match self.signal_messages.get(c.recipient) {
                        Some(page) => page.len() < max_size_now,
                        None => 0 < max_size_now,
                    };
                    if !fits {
                        return None;
                    }
                    let page = match self.signal_messages.remove(c.recipient) {
                        Some(page) => page,
                        None => Vec::new(),
                    };
                    self.outbound_status[i] = OutboundChannel { signals_exist: false, ..c };
                    if page.len() > max_size_ever {
                        None
                    } else {
                        Some(page)
                    }
                } else if c.first_index < c.last_index {
                    let fits = match self.outbound_messages.get(c.recipient, c.first_index as u32) {
                        Some(page) => page.len() < max_size_now,
                        None => 0 < max_size_now,
                    };
                    if !fits {
                        return None;
                    }
                    let page = match self.outbound_messages.remove(
                        c.recipient,
                        c.first_index as u32,
                    ) {
                        Some(page) => page,
                        None => Vec::new(),
                    };
                    if c.first_index + 1 == c.last_index {
                        self.outbound_status[i] = OutboundChannel {
                            first_index: 0,
                            last_index: 0,
                            ..c
                        };
                    } else {
                        self.outbound_status[i] = OutboundChannel {
                            first_index: c.first_index + 1,
                            ..c
                        };
                    }
                    if page.len() > max_size_ever {
                        None
                    } else {
                        Some(page)
                    }
                } else {
                    None
                }
            },
        }
    }

    /// Hands the transport at most `maximum_channels` pages, one per
    /// recipient, in ascending order of recipient. The records are walked in
    /// their order; each is served as `collect_from` says on what the host
    /// reports for its channel. Then the records without a reason to stay
    /// are dropped and the list is turned so that the recipients just served
    /// stand last.
    pub fn take_outbound_messages<T: Config>(&mut self, host: &T, maximum_channels: usize) -> (result:
        Vec<(ParaId, Vec<u8>)>)
        requires
            old(self).wf(),
        ensures
            final(self).wf(),
            exists|answers: Seq<ChannelStatus>|
                {
                    &&& final(self)@ == (QueueState {
                        outbound: (#[trigger] old(self)@.outbound.take_outbound(
                            answers,
                            maximum_channels,
                        )).0,
                        ..old(self)@
                    })
                    &&& deliveries_of(result@) == old(self)@.outbound.take_outbound(
                        answers,
                        maximum_channels,
                    ).1
                },
            result.len() <= maximum_channels,
            ascending(deliveries_of(result@)),
    {
        let ghost start = self@.outbound;
        let old_len = self.outbound_status.len();
        let limit = if old_len <= maximum_channels {
            old_len
        } else {
            maximum_channels
        };
        let mut result: Vec<(ParaId, Vec<u8>)> = Vec::new();
        let ghost mut answers: Seq<ChannelStatus> = Seq::empty();
        let ghost mut taken: Seq<Delivery> = Seq::empty();
        assert(deliveries_of(result@) =~= sort_by_recipient(taken));
        let mut i: usize = 0;
        while i < old_len && result.len() < limit
            invariant
                i <= old_len,
                old_len == self.outbound_status.len(),
                start == old(self)@.outbound,
                start.consistent(),
                start.channels.len() == old_len,
                answers.len() == i,
                (Collected { state: self@.outbound, taken }) == start.collect_upto(
                    answers,
                    limit as nat,
                    i as nat,
                ),
                deliveries_of(result@) == sort_by_recipient(taken),
                result.len() == taken.len(),
                self@.outbound.consistent(),
                self@.inbound == old(self)@.inbound,
                self@.events == old(self)@.events,
            decreases old_len - i,
        {
            let c = self.outbound_status[i];
            let status = if c.state == OutboundStatus::Suspended {
                ChannelStatus::Full
            } else {
                host.get_channel_status(c.recipient)
            };
            let ghost here = self@.outbound;
            let ghost earlier = answers;
            proof {
                answers = answers.push(status);
                start.lemma_collect_upto_agrees(earlier, answers, limit as nat, i as nat);
                here.lemma_collect_one_consistent(i as int, status);
            }
            let delivery = self.collect_from(i, status);
            match delivery {
                Some(page) => {
                    proof {
                        taken = taken.push((c.recipient, page@));
                        assert(taken.drop_last() =~= taken.subrange(0, taken.len() - 1));
                        assert(taken.drop_last() =~= start.collect_upto(
                            earlier,
                            limit as nat,
                            i as nat,
                        ).taken);
                    }
                    insert_delivery(&mut result, c.recipient, page);
                },
                None => {},
            }
            i += 1;
        }
        proof {
            if i < old_len {
                start.lemma_collect_upto_full(answers, limit as nat, i as nat, old_len as nat);
            }
            start.lemma_collect_upto_consistent(answers, limit as nat, old_len as nat);
            start.lemma_take_outbound_wf(answers, maximum_channels);
            lemma_places_after_retain(self.outbound_status@);
            lemma_sort_by_recipient(taken);
        }
        let kept = retain_channels(&self.outbound_status);
        let pruned = old_len - kept.len();
        let turn = if result.len() >= pruned {
            result.len() - pruned
        } else {
            0
        };
        self.outbound_status = rotate_channels(&kept, turn);
        result
    }
}

} // verus!
