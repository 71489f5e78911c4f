//! The outbound half of the queue as a mathematical state: one record per
//! recipient, a ring of data pages each, and a signal page each.

use crate::types::{
    format_of_tag, format_tag, signal_code, signal_of_code, ChannelSignal, ChannelStatus, Format,
    MessageSendError, OutboundStatus, ParaId,
};
use vstd::prelude::*;

verus! {

/// What is known of the channel towards one recipient.
#[derive(Copy, Clone, Debug, PartialEq, Eq, Structural)]
pub struct OutboundChannel {
    /// The sibling chain that the pages are for.
    pub recipient: ParaId,
    /// Whether the recipient lets us send.
    pub state: OutboundStatus,
    /// Whether a signal page waits to be sent.
    pub signals_exist: bool,
    /// Index of the oldest data page.
    pub first_index: u16,
    /// Index one past the newest data page.
    pub last_index: u16,
}

/// A page handed to the transport: the recipient and the page's bytes.
pub type Delivery = (ParaId, Seq<u8>);

/// The outbound state.
pub struct OutboundState {
    /// One record per recipient, in the order in which they are served.
    pub channels: Seq<OutboundChannel>,
    /// Data pages, by recipient and page index.
    pub pages: Map<(u32, u32), Seq<u8>>,
    /// Signal pages, by recipient.
    pub signals: Map<u32, Seq<u8>>,
}

/// A record as it is made for a recipient not seen before.
pub open spec fn fresh_channel(recipient: ParaId) -> OutboundChannel {
    OutboundChannel {
        recipient,
        state: OutboundStatus::Active,
        signals_exist: false,
        first_index: 0,
        last_index: 0,
    }
}

/// Whether a record has a reason to stay in the list: it is suspended, or a
/// signal waits, or a data page waits.
pub open spec fn worth_keeping(c: OutboundChannel) -> bool {
    c.state == OutboundStatus::Suspended || c.signals_exist || c.first_index < c.last_index
}

/// The ring indices of a record are in order, and an empty ring stands at zero.
pub open spec fn ring_in_order(c: OutboundChannel) -> bool {
    &&& c.first_index <= c.last_index
    &&& c.first_index == c.last_index ==> c.first_index == 0
}

/// A signal page is the signals tag followed by at least one control code,
/// and by control codes only.
pub open spec fn signal_page_wf(page: Seq<u8>) -> bool {
    &&& page.len() >= 2
    &&& page[0] == format_tag(Format::Signals)
    &&& forall|k: int| 1 <= k < page.len() ==> signal_of_code(#[trigger] page[k]) is Some
}

/// A data page begins with the tag of a format.
pub open spec fn data_page_wf(page: Seq<u8>) -> bool {
    page.len() >= 1 && format_of_tag(page[0]) is Some
}

/// The list `s` turned left by `k` places.
pub open spec fn rotate_left(s: Seq<OutboundChannel>, k: int) -> Seq<OutboundChannel>
    recommends
        0 <= k <= s.len(),
{
    s.subrange(k, s.len() as int) + s.subrange(0, k)
}

/// Where a delivery for `recipient` goes into `s` so that a list in
/// ascending order of recipient stays so: behind the last entry whose
/// recipient is not greater.
pub open spec fn insertion_point(s: Seq<Delivery>, recipient: ParaId) -> int
    decreases s.len(),
{
    if s.len() == 0 {
        0
    } else if s.last().0 <= recipient {
        s.len() as int
    } else {
        insertion_point(s.drop_last(), recipient)
    }
}

/// The deliveries of `s` in ascending order of recipient; deliveries to one
/// recipient keep their order.
pub open spec fn sort_by_recipient(s: Seq<Delivery>) -> Seq<Delivery>
    decreases s.len(),
{
    if s.len() == 0 {
        s
    } else {
        let sorted = sort_by_recipient(s.drop_last());
        sorted.insert(insertion_point(sorted, s.last().0), s.last())
    }
}

/// Whether `s` is in ascending order of recipient.
pub open spec fn ascending(s: Seq<Delivery>) -> bool {
    forall|i: int, j: int| 0 <= i < j < s.len() ==> s[i].0 <= s[j].0
}

/// The recipients of the records, in order.
pub open spec fn recipients_of(channels: Seq<OutboundChannel>) -> Seq<ParaId> {
    Seq::new(channels.len(), |i: int| channels[i].recipient)
}

/// Whether there is a record for the recipient.
pub open spec fn held(channels: Seq<OutboundChannel>, recipient: ParaId) -> bool {
    recipients_of(channels).contains(recipient)
}

/// The place of the recipient's record in the list.
pub open spec fn slot_of(channels: Seq<OutboundChannel>, recipient: ParaId) -> int {
    recipients_of(channels).index_of(recipient)
}

/// The recipient's record.
pub open spec fn channel_of(channels: Seq<OutboundChannel>, recipient: ParaId) -> OutboundChannel {
    channels[slot_of(channels, recipient)]
}

/// The records that have a reason to stay, in order.
pub open spec fn retained(channels: Seq<OutboundChannel>) -> Seq<OutboundChannel>
    decreases channels.len(),
{
    if channels.len() == 0 {
        channels
    } else if worth_keeping(channels.last()) {
        retained(channels.drop_last()).push(channels.last())
    } else {
        retained(channels.drop_last())
    }
}

/// The deliveries of a list of pages as mathematical values.
pub open spec fn deliveries_of(list: Seq<(ParaId, Vec<u8>)>) -> Seq<Delivery> {
    Seq::new(list.len(), |i: int| (list[i].0, list[i].1@))
}

/// State and deliveries while the records are walked.
pub struct Collected {
    /// The state so far.
    pub state: OutboundState,
    /// The pages taken so far, in the order of the walk.
    pub taken: Seq<Delivery>,
}

impl OutboundState {
    /// The state without any record or page.
    pub open spec fn empty() -> OutboundState {
        OutboundState { channels: Seq::empty(), pages: Map::empty(), signals: Map::empty() }
    }

    /// The recipients of the records, in order.
    pub open spec fn recipients(self) -> Seq<ParaId> {
        recipients_of(self.channels)
    }

    /// Whether there is a record for the recipient.
    pub open spec fn holds(self, recipient: ParaId) -> bool {
        held(self.channels, recipient)
    }

    /// The place of the recipient's record in the list.
    pub open spec fn slot(self, recipient: ParaId) -> int {
        slot_of(self.channels, recipient)
    }

    /// The recipient's record.
    pub open spec fn channel(self, recipient: ParaId) -> OutboundChannel {
        channel_of(self.channels, recipient)
    }

    /// Whether the key names a page inside the ring of some record.
    pub open spec fn in_ring(self, key: (u32, u32)) -> bool {
        &&& self.holds(key.0)
        &&& self.channel(key.0).first_index <= key.1 < self.channel(key.0).last_index
    }

    /// What holds of the state even in the middle of a poll: each recipient
    /// has one record at most; each record has its ring in order; the stored
    /// data pages are exactly those inside the rings, each beginning with a
    /// format tag; a signal page is stored exactly for the records that say
    /// so, and holds control codes only.
    pub open spec fn consistent(self) -> bool {
        &&& self.recipients().no_duplicates()
        &&& forall|i: int|
            0 <= i < self.channels.len() ==> ring_in_order(#[trigger] self.channels[i])
        &&& forall|key: (u32, u32)| #[trigger]
            self.pages.contains_key(key) <==> self.in_ring(key)
        &&& forall|key: (u32, u32)| #[trigger]
            self.pages.contains_key(key) ==> data_page_wf(self.pages[key])
        &&& forall|p: u32| #[trigger]
            self.signals.contains_key(p) <==> self.holds(p) && self.channel(p).signals_exist
        &&& forall|p: u32| #[trigger]
            self.signals.contains_key(p) ==> signal_page_wf(self.signals[p])
    }

    /// The invariant of the outbound state: it is consistent, and each
    /// record has a reason to stay.
    pub open spec fn wf(self) -> bool {
        &&& self.consistent()
        &&& forall|i: int|
            0 <= i < self.channels.len() ==> worth_keeping(#[trigger] self.channels[i])
    }

    /// The state with a record for the recipient, made fresh and put last if
    /// there was none.
    pub open spec fn with_channel(self, recipient: ParaId) -> OutboundState {
        if self.holds(recipient) {
            self
        } else {
            OutboundState { channels: self.channels.push(fresh_channel(recipient)), ..self }
        }
    }

    /// Whether `data_len` more bytes of `format` go onto the newest page of
    /// the recipient: there is such a page, it carries that format, and it
    /// stays within `max`.
    pub open spec fn appendable(
        self,
        recipient: ParaId,
        format: Format,
        data_len: nat,
        max: usize,
    ) -> bool {
        &&& self.holds(recipient)
        &&& self.channel(recipient).first_index < self.channel(recipient).last_index
        &&& self.pages.contains_key(self.newest_key(recipient))
        &&& self.pages[self.newest_key(recipient)].len() >= 1
        &&& self.pages[self.newest_key(recipient)][0] == format_tag(format)
        &&& self.pages[self.newest_key(recipient)].len() + data_len <= max
    }

    /// The key of the recipient's newest data page.
    pub open spec fn newest_key(self, recipient: ParaId) -> (u32, u32) {
        (recipient, (self.channel(recipient).last_index - 1) as u32)
    }

    /// Queues a fragment. `max` is the longest page that the channel takes,
    /// or `None` where there is no channel. The fragment joins the newest page
    /// if that carries the same format and has room; else a new page is
    /// opened behind it. The result is the number of pages before the one
    /// that took the fragment.
    pub open spec fn send_fragment(
        self,
        max: Option<usize>,
        recipient: ParaId,
        format: Format,
        data: Seq<u8>,
    ) -> (OutboundState, Result<u32, MessageSendError>) {
        match max {
            None => (self, Err(MessageSendError::NoChannel)),
            Some(max) => {
                if data.len() > max {
                    (self, Err(MessageSendError::TooBig))
                } else if self.appendable(recipient, format, data.len(), max) {
                    let c = self.channel(recipient);
                    let key = self.newest_key(recipient);
                    (
                        OutboundState { pages: self.pages.insert(key, self.pages[key] + data), ..self },
                        Ok((c.last_index - c.first_index - 1) as u32),
                    )
                } else if self.holds(recipient) && self.channel(recipient).last_index
                    == u16::MAX {
                    (self, Err(MessageSendError::QueueFull))
                } else {
                    let with = self.with_channel(recipient);
                    let i = with.slot(recipient);
                    let c = with.channels[i];
                    let opened = OutboundChannel { last_index: (c.last_index + 1) as u16, ..c };
                    (
                        OutboundState {
                            channels: with.channels.update(i, opened),
                            pages: with.pages.insert(
                                (recipient, c.last_index as u32),
                                seq![format_tag(format)] + data,
                            ),
                            ..with
                        },
                        Ok((c.last_index - c.first_index) as u32),
                    )
                }
            },
        }
    }

    /// The signal page of the recipient after one more control code.
    pub open spec fn signal_page_with(self, recipient: ParaId, signal: ChannelSignal) -> Seq<u8> {
        if self.signals.contains_key(recipient) && self.signals[recipient].len() > 0 {
            self.signals[recipient].push(signal_code(signal))
        } else {
            seq![format_tag(Format::Signals), signal_code(signal)]
        }
    }

    /// Queues a control code for the recipient, behind those that wait.
    pub open spec fn send_signal(self, recipient: ParaId, signal: ChannelSignal) -> OutboundState {
        let with = self.with_channel(recipient);
        let i = with.slot(recipient);
        OutboundState {
            channels: with.channels.update(
                i,
                OutboundChannel { signals_exist: true, ..with.channels[i] },
            ),
            signals: self.signals.insert(recipient, self.signal_page_with(recipient, signal)),
            ..with
        }
    }

    /// The recipient asked us to stop sending.
    pub open spec fn suspend_channel(self, target: ParaId) -> OutboundState {
        if self.holds(target) {
            let i = self.slot(target);
            OutboundState {
                channels: self.channels.update(
                    i,
                    OutboundChannel { state: OutboundStatus::Suspended, ..self.channels[i] },
                ),
                ..self
            }
        } else {
            OutboundState {
                channels: self.channels.push(
                    OutboundChannel { state: OutboundStatus::Suspended, ..fresh_channel(target) },
                ),
                ..self
            }
        }
    }

    /// The recipient lets us send again. A record with nothing to send is
    /// dropped.
    pub open spec fn resume_channel(self, target: ParaId) -> OutboundState {
        if self.holds(target) {
            let i = self.slot(target);
            let c = self.channels[i];
            if c.first_index == c.last_index && !c.signals_exist {
                OutboundState { channels: self.channels.remove(i), ..self }
            } else {
                OutboundState {
                    channels: self.channels.update(
                        i,
                        OutboundChannel { state: OutboundStatus::Active, ..c },
                    ),
                    ..self
                }
            }
        } else {
            self
        }
    }

    /// The record at place `i` after its oldest data page left the ring.
    pub open spec fn after_data(c: OutboundChannel) -> OutboundChannel {
        if c.first_index + 1 == c.last_index {
            OutboundChannel { first_index: 0, last_index: 0, ..c }
        } else {
            OutboundChannel { first_index: (c.first_index + 1) as u16, ..c }
        }
    }

    /// The data pages without those of the ring of `c`.
    pub open spec fn pages_without_ring(self, c: OutboundChannel) -> Map<(u32, u32), Seq<u8>> {
        Map::new(
            |key: (u32, u32)|
                self.pages.contains_key(key) && !(key.0 == c.recipient && c.first_index <= key.1
                    < c.last_index),
            |key: (u32, u32)| self.pages[key],
        )
    }

    /// What a delivery comes to: a page longer than the channel may ever
    /// carry is dropped.
    pub open spec fn deliverable(recipient: ParaId, page: Seq<u8>, max_ever: usize) -> Option<
        Delivery,
    > {
        if page.len() > max_ever {
            None
        } else {
            Some((recipient, page))
        }
    }

    /// Serves the record at place `i`, the host having reported `status` for
    /// its channel. A suspended record is passed over, whatever the status.
    /// A closed channel loses its pages and its record is reset. A ready
    /// channel gives its signal page if one waits, else its oldest data page,
    /// provided the page is shorter than the channel takes now.
    pub open spec fn collect_one(self, i: int, status: ChannelStatus) -> (OutboundState, Option<
        Delivery,
    >)
        recommends
            0 <= i < self.channels.len(),
    {
        let c = self.channels[i];
        if c.state == OutboundStatus::Suspended {
            (self, None)
        } else {
            match status {
                ChannelStatus::Closed => (
                    OutboundState {
                        channels: self.channels.update(i, fresh_channel(c.recipient)),
                        pages: self.pages_without_ring(c),
                        signals: self.signals.remove(c.recipient),
                    },
                    None,
                ),
                ChannelStatus::Full => (self, None),
                ChannelStatus::Ready(max_now, max_ever) => {
                    if c.signals_exist {
                        let page = if self.signals.contains_key(c.recipient) {
                            self.signals[c.recipient]
                        } else {
                            Seq::empty()
                        };
                        if page.len() < max_now {
                            (
                                OutboundState {
                                    channels: self.channels.update(
                                        i,
                                        OutboundChannel { signals_exist: false, ..c },
                                    ),
                                    signals: self.signals.remove(c.recipient),
                                    ..self
                                },
                                Self::deliverable(c.recipient, page, max_ever),
                            )
                        } else {
                            (self, None)
                        }
                    } else if c.first_index < c.last_index {
                        let key = (c.recipient, c.first_index as u32);
                        let page = if self.pages.contains_key(key) {
                            self.pages[key]
                        } else {
                            Seq::empty()
                        };
                        if page.len() < max_now {
                            (
                                OutboundState {
                                    channels: self.channels.update(i, Self::after_data(c)),
                                    pages: self.pages.remove(key),
                                    ..self
                                },
                                Self::deliverable(c.recipient, page, max_ever),
                            )
                        } else {
                            (self, None)
                        }
                    } else {
                        (self, None)
                    }
                },
            }
        }
    }

    /// State and deliveries after the first `n` records were walked, the
    /// host having reported `answers[k]` for the record at place `k`. Once
    /// `limit` pages are taken, the records that follow are left alone.
    pub open spec fn collect_upto(
        self,
        answers: Seq<ChannelStatus>,
        limit: nat,
        n: nat,
    ) -> Collected
        decreases n,
    {
        if n == 0 {
            Collected { state: self, taken: Seq::empty() }
        } else {
            let before = self.collect_upto(answers, limit, (n - 1) as nat);
            if before.taken.len() >= limit {
                before
            } else {
                let (state, delivery) = before.state.collect_one(n - 1, answers[n - 1]);
                match delivery {
                    Some(d) => Collected { state, taken: before.taken.push(d) },
                    None => Collected { state, taken: before.taken },
                }
            }
        }
    }

    /// The records that have a reason to stay, in order.
    pub open spec fn kept(self) -> Seq<OutboundChannel> {
        retained(self.channels)
    }

    /// One poll of the transport for at most `max_channels` pages, the host
    /// having reported `answers[k]` for the record at place `k`: the records
    /// are walked in order; then those without a reason to stay are dropped
    /// and the list is turned left by the number of pages delivered less the
    /// number of records dropped, so that the records just served stand last.
    /// The deliveries come in ascending order of recipient.
    pub open spec fn take_outbound(self, answers: Seq<ChannelStatus>, max_channels: usize) -> (
        OutboundState,
        Seq<Delivery>,
    ) {
        let limit = if self.channels.len() <= max_channels {
            self.channels.len()
        } else {
            max_channels as nat
        };
        let walked = self.collect_upto(answers, limit, self.channels.len());
        let kept = walked.state.kept();
        let pruned = walked.state.channels.len() - kept.len();
        let turn = if walked.taken.len() >= pruned {
            walked.taken.len() - pruned
        } else {
            0
        };
        (
            OutboundState { channels: rotate_left(kept, turn), ..walked.state },
            sort_by_recipient(walked.taken),
        )
    }
}

} // verus!
