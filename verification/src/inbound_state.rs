//! The inbound half of the queue as a mathematical state: one record per
//! sender, in ascending order of sender, with the pages that wait for
//! dispatch.

use crate::types::{Format, InboundStatus, ParaId, RelayBlockNumber};
use vstd::prelude::*;

verus! {

/// Queued pages of one sender at which the sender is told to stop.
pub const SUSPEND_THRESHOLD: usize = 2;

/// Queued pages of one sender beyond which new pages are dropped.
pub const HARD_LIMIT: usize = 5;

/// Queued pages of one sender at or below which the sender may resume.
pub const RESUME_THRESHOLD: usize = 1;

/// Remaining weight below which dispatch stops.
pub const THRESHOLD_WEIGHT: u64 = 100_000;

/// Divisor by which the locked part of the budget shrinks at each step.
pub const WEIGHT_RESTRICT_DECAY: u64 = 2;

/// What is known of the pages that one sender has queued.
#[derive(Clone, Debug, PartialEq, Eq)]
pub struct InboundChannel {
    /// The sibling chain that sent the pages.
    pub sender: ParaId,
    /// Whether the sender was told to stop.
    pub state: InboundStatus,
    /// Arrival block and format of each queued page, oldest first.
    pub pages: Vec<(RelayBlockNumber, Format)>,
}

/// The mathematical value of an `InboundChannel`.
pub struct InboundQueue {
    /// The sibling chain that sent the pages.
    pub sender: ParaId,
    /// Whether the sender was told to stop.
    pub state: InboundStatus,
    /// Arrival block and format of each queued page, oldest first.
    pub pages: Seq<(RelayBlockNumber, Format)>,
}

impl InboundChannel {
    /// The record as a mathematical value.
    pub open spec fn view(&self) -> InboundQueue {
        InboundQueue { sender: self.sender, state: self.state, pages: self.pages@ }
    }
}

/// The records of a list as mathematical values.
pub open spec fn queues_of(list: Seq<InboundChannel>) -> Seq<InboundQueue> {
    Seq::new(list.len(), |i: int| list[i]@)
}

/// The senders of the records, in order.
pub open spec fn senders_of(channels: Seq<InboundQueue>) -> Seq<ParaId> {
    Seq::new(channels.len(), |i: int| channels[i].sender)
}

/// Whether there is a record for the sender.
pub open spec fn sender_held(channels: Seq<InboundQueue>, sender: ParaId) -> bool {
    senders_of(channels).contains(sender)
}

/// The place of the sender's record in the list.
pub open spec fn sender_slot(channels: Seq<InboundQueue>, sender: ParaId) -> int {
    senders_of(channels).index_of(sender)
}

/// The sender's record.
pub open spec fn queue_of(channels: Seq<InboundQueue>, sender: ParaId) -> InboundQueue {
    channels[sender_slot(channels, sender)]
}

/// Whether the records stand in strictly ascending order of sender.
pub open spec fn strictly_ascending(channels: Seq<InboundQueue>) -> bool {
    forall|i: int, j: int| 0 <= i < j < channels.len() ==> channels[i].sender < channels[j].sender
}

/// Whether the record lists a page that arrived at `sent_at`.
pub open spec fn lists(queue: InboundQueue, sent_at: RelayBlockNumber) -> bool {
    exists|k: int| 0 <= k < queue.pages.len() && (#[trigger] queue.pages[k]).0 == sent_at
}

/// Whether no two pages that the record lists arrived at the same block.
pub open spec fn distinct_pages(queue: InboundQueue) -> bool {
    forall|a: int, b: int|
        0 <= a < b < queue.pages.len() ==> (#[trigger] queue.pages[a]).0 != (
        #[trigger] queue.pages[b]).0
}

/// A record is found at its own place.
pub proof fn lemma_sender_slot(channels: Seq<InboundQueue>, i: int)
    requires
        strictly_ascending(channels),
        0 <= i < channels.len(),
    ensures
        sender_held(channels, channels[i].sender),
        sender_slot(channels, channels[i].sender) == i,
        queue_of(channels, channels[i].sender) == channels[i],
{
    let r = senders_of(channels);
    assert(r[i] == channels[i].sender);
    let j = r.index_of(r[i]);
    assert(0 <= j < r.len() && r[j] == r[i]);
    assert(channels[j].sender == channels[i].sender);
}

/// The place of a sender that has a record holds that record.
pub proof fn lemma_sender_held(channels: Seq<InboundQueue>, sender: ParaId)
    requires
        sender_held(channels, sender),
    ensures
        0 <= sender_slot(channels, sender) < channels.len(),
        channels[sender_slot(channels, sender)].sender == sender,
        queue_of(channels, sender).sender == sender,
{
    let r = senders_of(channels);
    let j = r.index_of(sender);
    assert(0 <= j < r.len() && r[j] == sender);
}

/// The place of the first record whose sender is not less than `sender`,
/// in a list in ascending order of sender; the length of the list where
/// every sender is less.
pub open spec fn sender_rank(channels: Seq<InboundQueue>, sender: ParaId) -> int
    decreases channels.len(),
{
    if channels.len() == 0 {
        0
    } else if channels.last().sender < sender {
        channels.len() as int
    } else {
        sender_rank(channels.drop_last(), sender)
    }
}

/// The records that list a page, in order.
pub open spec fn nonempty_queues(channels: Seq<InboundQueue>) -> Seq<InboundQueue>
    decreases channels.len(),
{
    if channels.len() == 0 {
        channels
    } else if channels.last().pages.len() > 0 {
        nonempty_queues(channels.drop_last()).push(channels.last())
    } else {
        nonempty_queues(channels.drop_last())
    }
}

/// In a list in ascending order, the rank of a sender parts the smaller
/// senders from the others.
pub proof fn lemma_sender_rank(channels: Seq<InboundQueue>, sender: ParaId)
    requires
        strictly_ascending(channels),
    ensures
        0 <= sender_rank(channels, sender) <= channels.len(),
        forall|k: int|
            0 <= k < sender_rank(channels, sender) ==> (#[trigger] channels[k]).sender < sender,
        forall|k: int|
            sender_rank(channels, sender) <= k < channels.len() ==> (#[trigger] channels[k]).sender
                >= sender,
        sender_held(channels, sender) <==> sender_rank(channels, sender) < channels.len()
            && channels[sender_rank(channels, sender)].sender == sender,
        sender_held(channels, sender) ==> sender_slot(channels, sender) == sender_rank(
            channels,
            sender,
        ),
    decreases channels.len(),
{
    if channels.len() > 0 {
        let d = channels.drop_last();
        lemma_sender_rank(d, sender);
        if channels.last().sender < sender {
            assert forall|k: int| 0 <= k < channels.len() implies (#[trigger] channels[k]).sender
                < sender by {
                if k < channels.len() - 1 {
                    assert(channels[k].sender < channels[channels.len() - 1].sender);
                }
            }
        } else {
            assert forall|k: int|
                sender_rank(channels, sender) <= k < channels.len() implies (
            #[trigger] channels[k]).sender >= sender by {
                if k < d.len() {
                    assert(d[k] == channels[k]);
                }
            }
            assert forall|k: int| 0 <= k < sender_rank(channels, sender) implies (
            #[trigger] channels[k]).sender < sender by {
                assert(d[k] == channels[k]);
            }
        }
    }
    let r = sender_rank(channels, sender);
    if sender_held(channels, sender) {
        lemma_sender_held(channels, sender);
        let j = sender_slot(channels, sender);
        if j < r {
            assert(channels[j].sender < sender);
        }
        if r < j {
            assert(channels[r].sender >= sender);
            assert(channels[r].sender < channels[j].sender);
        }
    }
    if r < channels.len() && channels[r].sender == sender {
        lemma_sender_slot(channels, r);
    }
}

/// Changing a record but not its sender leaves the order and every other
/// record as they were.
pub proof fn lemma_queues_after_update(channels: Seq<InboundQueue>, i: int, q: InboundQueue)
    requires
        strictly_ascending(channels),
        0 <= i < channels.len(),
        q.sender == channels[i].sender,
    ensures
        ({
            let t = channels.update(i, q);
            &&& strictly_ascending(t)
            &&& senders_of(t) == senders_of(channels)
            &&& forall|p: ParaId| #[trigger] sender_held(t, p) <==> sender_held(channels, p)
            &&& forall|p: ParaId|
                sender_held(channels, p) ==> #[trigger] queue_of(t, p) == (if p == q.sender {
                    q
                } else {
                    queue_of(channels, p)
                })
        }),
{
    let t = channels.update(i, q);
    assert(senders_of(t) =~= senders_of(channels));
    assert forall|a: int, b: int| 0 <= a < b < t.len() implies t[a].sender < t[b].sender by {
        assert(channels[a].sender < channels[b].sender);
    }
    lemma_sender_slot(channels, i);
    assert forall|p: ParaId| sender_held(channels, p) implies #[trigger] queue_of(t, p) == (if p
        == q.sender {
        q
    } else {
        queue_of(channels, p)
    }) by {
        lemma_sender_held(channels, p);
    }
}

/// A record for a new sender, put at its rank, keeps the order and leaves
/// every other record to be found as before.
pub proof fn lemma_queues_after_insert(channels: Seq<InboundQueue>, q: InboundQueue)
    requires
        strictly_ascending(channels),
        !sender_held(channels, q.sender),
    ensures
        ({
            let t = channels.insert(sender_rank(channels, q.sender), q);
            &&& strictly_ascending(t)
            &&& forall|p: ParaId| #[trigger]
                sender_held(t, p) <==> sender_held(channels, p) || p == q.sender
            &&& forall|p: ParaId|
                sender_held(t, p) ==> #[trigger] queue_of(t, p) == (if p == q.sender {
                    q
                } else {
                    queue_of(channels, p)
                })
        }),
{
    let at = sender_rank(channels, q.sender);
    lemma_sender_rank(channels, q.sender);
    let t = channels.insert(at, q);
    let back = |k: int| if k < at { k } else { k - 1 };
    assert forall|k: int| 0 <= k < t.len() && k != at implies #[trigger] t[k] == channels[back(
        k,
    )] by {}
    assert(t[at] == q);
    assert forall|a: int, b: int| 0 <= a < b < t.len() implies t[a].sender < t[b].sender by {
        if a != at && b != at {
            assert(channels[back(a)].sender < channels[back(b)].sender);
        } else if a == at {
            assert(t[b] == channels[back(b)]);
            assert(channels[back(b)].sender >= q.sender);
            if channels[back(b)].sender == q.sender {
                lemma_sender_slot(channels, back(b));
            }
        } else {
            assert(t[a] == channels[back(a)]);
        }
    }
    assert forall|p: ParaId| #[trigger]
        sender_held(t, p) <==> sender_held(channels, p) || p == q.sender by {
        if sender_held(t, p) && p != q.sender {
            lemma_sender_held(t, p);
            let k = sender_slot(t, p);
            assert(senders_of(channels)[back(k)] == p);
        }
        if sender_held(channels, p) {
            lemma_sender_held(channels, p);
            let k0 = sender_slot(channels, p);
            let k = if k0 < at { k0 } else { k0 + 1 };
            assert(t[k] == channels[back(k)]);
            assert(senders_of(t)[k] == p);
        }
        if p == q.sender {
            assert(senders_of(t)[at] == p);
        }
    }
    assert forall|p: ParaId| sender_held(t, p) implies #[trigger] queue_of(t, p) == (if p
        == q.sender {
        q
    } else {
        queue_of(channels, p)
    }) by {
        lemma_sender_held(t, p);
        let k = sender_slot(t, p);
        if p == q.sender {
            lemma_sender_slot(t, at);
        } else {
            lemma_sender_slot(channels, back(k));
        }
    }
}

/// Dropping the records that list no page keeps the order and leaves the
/// others to be found as before.
pub proof fn lemma_queues_after_retain(channels: Seq<InboundQueue>)
    requires
        strictly_ascending(channels),
    ensures
        ({
            let t = nonempty_queues(channels);
            &&& t.len() <= channels.len()
            &&& strictly_ascending(t)
            &&& forall|i: int| 0 <= i < t.len() ==> (#[trigger] t[i]).pages.len() > 0
            &&& forall|i: int| 0 <= i < t.len() ==> sender_held(channels, (#[trigger] t[i]).sender)
            &&& forall|p: ParaId| #[trigger]
                sender_held(t, p) <==> sender_held(channels, p) && queue_of(channels, p).pages.len()
                    > 0
            &&& forall|p: ParaId|
                sender_held(t, p) ==> #[trigger] queue_of(t, p) == queue_of(channels, p)
        }),
    decreases channels.len(),
{
    let t = nonempty_queues(channels);
    if channels.len() == 0 {
        assert forall|p: ParaId| !(#[trigger] sender_held(t, p)) by {
            if sender_held(t, p) {
                lemma_sender_held(t, p);
            }
        }
    } else {
        let d = channels.drop_last();
        let c = channels.last();
        let u = nonempty_queues(d);
        assert forall|a: int, b: int| 0 <= a < b < d.len() implies d[a].sender < d[b].sender by {
            assert(channels[a].sender < channels[b].sender);
        }
        lemma_queues_after_retain(d);
        let n = channels.len() - 1;
        // every sender of `d` is less than that of `c`
        assert forall|p: ParaId| sender_held(d, p) implies p < c.sender by {
            lemma_sender_held(d, p);
            assert(channels[sender_slot(d, p)].sender < channels[n].sender);
        }
        assert forall|p: ParaId| #[trigger]
            sender_held(channels, p) <==> sender_held(d, p) || p == c.sender by {
            if sender_held(channels, p) && p != c.sender {
                lemma_sender_held(channels, p);
                assert(senders_of(d)[sender_slot(channels, p)] == p);
            }
            if sender_held(d, p) {
                lemma_sender_held(d, p);
                assert(senders_of(channels)[sender_slot(d, p)] == p);
            }
            if p == c.sender {
                assert(senders_of(channels)[n] == p);
            }
        }
        assert forall|p: ParaId| sender_held(d, p) implies queue_of(channels, p) == queue_of(
            d,
            p,
        ) by {
            lemma_sender_held(d, p);
            lemma_sender_slot(channels, sender_slot(d, p));
        }
        lemma_sender_slot(channels, n);
        if c.pages.len() > 0 {
            assert(t == u.push(c));
            assert forall|a: int, b: int| 0 <= a < b < t.len() implies t[a].sender
                < t[b].sender by {
                if b < u.len() {
                    assert(u[a].sender < u[b].sender);
                } else {
                    assert(sender_held(d, u[a].sender));
                }
            }
            assert forall|i: int| 0 <= i < t.len() implies (#[trigger] t[i]).pages.len() > 0
                && sender_held(channels, t[i].sender) by {
                if i < u.len() {
                    assert(t[i] == u[i]);
                    assert(sender_held(d, u[i].sender));
                }
            }
            assert forall|p: ParaId| #[trigger]
                sender_held(t, p) <==> sender_held(u, p) || p == c.sender by {
                if sender_held(t, p) && p != c.sender {
                    lemma_sender_held(t, p);
                    assert(senders_of(u)[sender_slot(t, p)] == p);
                }
                if sender_held(u, p) {
                    lemma_sender_held(u, p);
                    assert(senders_of(t)[sender_slot(u, p)] == p);
                }
                if p == c.sender {
                    assert(senders_of(t)[t.len() - 1] == p);
                }
            }
            assert forall|p: ParaId| sender_held(t, p) implies #[trigger] queue_of(t, p)
                == queue_of(channels, p) by {
                if p == c.sender {
                    lemma_sender_slot(t, t.len() - 1);
                } else {
                    lemma_sender_held(u, p);
                    lemma_sender_slot(t, sender_slot(u, p));
                }
            }
        } else {
            assert forall|i: int| 0 <= i < t.len() implies sender_held(
                channels,
                (#[trigger] t[i]).sender,
            ) by {
                assert(sender_held(d, u[i].sender));
            }
        }
    }
}

/// The inbound state.
pub struct InboundState {
    /// One record per sender, in ascending order of sender.
    pub channels: Seq<InboundQueue>,
    /// Page bodies, by sender and arrival block.
    pub pages: Map<(u32, u32), Seq<u8>>,
}

impl InboundState {
    /// The state without any record or page.
    pub open spec fn empty() -> InboundState {
        InboundState { channels: Seq::empty(), pages: Map::empty() }
    }

    /// Whether there is a record for the sender.
    pub open spec fn holds(self, sender: ParaId) -> bool {
        sender_held(self.channels, sender)
    }

    /// The place of the sender's record in the list.
    pub open spec fn slot(self, sender: ParaId) -> int {
        sender_slot(self.channels, sender)
    }

    /// The sender's record.
    pub open spec fn queue(self, sender: ParaId) -> InboundQueue {
        queue_of(self.channels, sender)
    }

    /// Whether the key names a page that some record lists.
    pub open spec fn queued(self, key: (u32, u32)) -> bool {
        self.holds(key.0) && lists(self.queue(key.0), key.1)
    }

    /// What holds of the state even in the middle of dispatch: the records
    /// stand in strictly ascending order of sender; none lists more pages
    /// than the hard limit; a sender with more pages than the suspend
    /// threshold is suspended, and a suspended sender has more pages than
    /// the resume threshold; no page body is stored that no record lists.
    pub open spec fn consistent(self) -> bool {
        &&& strictly_ascending(self.channels)
        &&& forall|i: int|
            0 <= i < self.channels.len() ==> (#[trigger] self.channels[i]).pages.len()
                <= HARD_LIMIT
        &&& forall|i: int|
            0 <= i < self.channels.len() && (#[trigger] self.channels[i]).pages.len()
                > SUSPEND_THRESHOLD ==> self.channels[i].state == InboundStatus::Suspended
        &&& forall|i: int|
            0 <= i < self.channels.len() && (#[trigger] self.channels[i]).state
                == InboundStatus::Suspended ==> self.channels[i].pages.len() > RESUME_THRESHOLD
        &&& forall|key: (u32, u32)| #[trigger] self.pages.contains_key(key) ==> self.queued(key)
    }

    /// Whether every page that a record lists has its body in the store,
    /// and no record lists two pages of the same block. This holds as long
    /// as no sender has two batches of one block queued at a time.
    pub open spec fn pages_stored(self) -> bool {
        &&& forall|i: int|
            0 <= i < self.channels.len() ==> distinct_pages(#[trigger] self.channels[i])
        &&& forall|i: int, k: int|
            0 <= i < self.channels.len() && 0 <= k < self.channels[i].pages.len()
                ==> self.pages.contains_key(
                (self.channels[i].sender, (#[trigger] self.channels[i].pages[k]).0),
            )
    }

    /// The invariant of the inbound state: it is consistent, and each
    /// record lists a page.
    pub open spec fn wf(self) -> bool {
        &&& self.consistent()
        &&& forall|i: int|
            0 <= i < self.channels.len() ==> (#[trigger] self.channels[i]).pages.len() >= 1
    }
}

} // verus!
