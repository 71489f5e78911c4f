//! Service of the inbound queues within a weight budget: the senders are
//! visited in a shuffled order, each has the page at its front dispatched
//! with the part of the budget that is unlocked so far, and a sender that
//! makes progress gets another turn behind the others.

use crate::dispatch::{add_weight, finished, page_run, sub_weight, weight_left, weight_sum};
use crate::inbound_state::{
    distinct_pages, lemma_queues_after_retain, lemma_queues_after_update, lemma_sender_held,
    lemma_sender_slot, lists, nonempty_queues, queues_of, InboundChannel, InboundQueue, InboundState,
    HARD_LIMIT, RESUME_THRESHOLD, SUSPEND_THRESHOLD, THRESHOLD_WEIGHT, WEIGHT_RESTRICT_DECAY,
};
use crate::queue::{Module, QueueState};
use crate::shuffle::{chacha_stream, create_shuffle, is_permutation, padded_seed, swap_shuffle};
use crate::types::{ChannelSignal, Config, InboundStatus, Outcome, Weight};
use vstd::prelude::*;

verus! {

/// The unlocked part of the budget `max_weight` at the next step. On the
/// first round the locked part shrinks by the decay, and what comes within
/// the threshold of the budget is the budget; after the first round the
/// whole budget is unlocked.
pub open spec fn unlocked_weight(available: Weight, max_weight: Weight, first_round: bool) -> Weight {
    if available >= max_weight {
        available
    } else if first_round {
        let grown = available + (max_weight - available) / (WEIGHT_RESTRICT_DECAY as int);
        if max_weight - grown < THRESHOLD_WEIGHT {
            max_weight
        } else {
            grown as u64
        }
    } else {
        max_weight
    }
}

/// Where the service of a block stands.
pub struct ServiceState {
    /// The queue.
    pub queue: QueueState,
    /// The places of the senders in the order of their turns; turns are
    /// added at the end.
    pub order: Seq<usize>,
    /// The number of the next turn.
    pub turn: nat,
    /// The weight used so far.
    pub used: Weight,
    /// The unlocked part of the budget.
    pub available: Weight,
}

/// What the host gave at turn `k`.
pub open spec fn round_at(rounds: Seq<Seq<Outcome>>, k: nat) -> Seq<Outcome> {
    rounds[k as int]
}

impl QueueState {
    /// The inbound record at place `index`.
    pub open spec fn record(self, index: usize) -> InboundQueue {
        self.inbound.channels[index as int]
    }

    /// The queue with the page at the front of the record at place `index`
    /// taken off the record.
    pub open spec fn front_dropped(self, index: usize) -> QueueState {
        QueueState {
            inbound: InboundState {
                channels: self.inbound.channels.update(
                    index as int,
                    InboundQueue {
                        pages: self.record(index).pages.drop_first(),
                        ..self.record(index)
                    },
                ),
                ..self.inbound
            },
            ..self
        }
    }

    /// The page at the front of the record at place `index`, as sender's
    /// bytes; empty where the record lists no page.
    pub open spec fn front_page(self, index: usize) -> Seq<u8> {
        let q = self.inbound.channels[index as int];
        self.inbound_page(q.sender, q.pages[0].0)
    }

    /// Whether the dispatch of the page at the front of the record at place
    /// `index` is over after `outcomes`.
    pub open spec fn front_finished(self, index: usize, outcomes: Seq<Outcome>) -> bool {
        let q = self.inbound.channels[index as int];
        q.pages.len() > 0 ==> finished(page_run(q.pages[0].1, self.front_page(index), outcomes))
    }

    /// The weight that the dispatch of the page at the front of the record
    /// at place `index` uses.
    pub open spec fn front_weight(self, index: usize, outcomes: Seq<Outcome>) -> Weight {
        let q = self.inbound.channels[index as int];
        if q.pages.len() == 0 {
            0
        } else {
            page_run(q.pages[0].1, self.front_page(index), outcomes).used
        }
    }

    /// The queue after the page at the front of the record at place `index`
    /// was dispatched: a page that is used up leaves the record.
    pub open spec fn front_served(self, index: usize, outcomes: Seq<Outcome>) -> QueueState {
        let q = self.inbound.channels[index as int];
        if q.pages.len() == 0 {
            self
        } else {
            let done = self.page_processed(q.sender, q.pages[0].0, q.pages[0].1, outcomes);
            if page_run(q.pages[0].1, self.front_page(index), outcomes).rest.len() == 0 {
                QueueState {
                    inbound: InboundState {
                        channels: done.inbound.channels.update(
                            index as int,
                            InboundQueue { pages: q.pages.drop_first(), ..q },
                        ),
                        ..done.inbound
                    },
                    ..done
                }
            } else {
                done
            }
        }
    }

    /// Whether the sender at place `index` is to be told that it may send
    /// again: it is suspended, and its queue is down to the resume
    /// threshold.
    pub open spec fn resumes(self, index: usize) -> bool {
        let q = self.inbound.channels[index as int];
        q.pages.len() <= RESUME_THRESHOLD && q.state == InboundStatus::Suspended
    }

    /// The queue after the sender at place `index` was told to resume, if
    /// it is to be told.
    pub open spec fn resumed(self, index: usize) -> QueueState {
        let q = self.inbound.channels[index as int];
        if self.resumes(index) {
            QueueState {
                inbound: InboundState {
                    channels: self.inbound.channels.update(
                        index as int,
                        InboundQueue { state: InboundStatus::Active, ..q },
                    ),
                    ..self.inbound
                },
                outbound: self.outbound.send_signal(q.sender, ChannelSignal::Resume),
                ..self
            }
        } else {
            self
        }
    }

    /// The queue without the records that list no page.
    pub open spec fn drained_dropped(self) -> QueueState {
        QueueState {
            inbound: InboundState {
                channels: nonempty_queues(self.inbound.channels),
                ..self.inbound
            },
            ..self
        }
    }

    /// Serving the front page of a record and telling its sender to resume
    /// keeps both halves of the queue consistent.
    pub proof fn lemma_turn_consistent(self, index: usize, outcomes: Seq<Outcome>)
        requires
            self.inbound.consistent(),
            self.outbound.wf(),
            index < self.inbound.channels.len(),
        ensures
            self.front_served(index, outcomes).resumed(index).inbound.consistent(),
            self.front_served(index, outcomes).resumed(index).outbound.wf(),
            self.front_served(index, outcomes).resumed(index).inbound.channels.len()
                == self.inbound.channels.len(),
            self.front_served(index, outcomes).inbound.channels.len()
                == self.inbound.channels.len(),
    {
        let i = index as int;
        let q = self.inbound.channels[i];
        let served = self.front_served(index, outcomes);
        let t = served.resumed(index);
        lemma_sender_slot(self.inbound.channels, i);
        let q1 = served.inbound.channels[i];
        assert(q1.sender == q.sender && q1.state == q.state);
        assert(served.inbound.channels == self.inbound.channels.update(i, q1)) by {
            assert(served.inbound.channels =~= self.inbound.channels.update(i, q1));
        }
        lemma_queues_after_update(self.inbound.channels, i, q1);
        let q2 = t.inbound.channels[i];
        assert(t.inbound.channels =~= served.inbound.channels.update(i, q2));
        lemma_queues_after_update(served.inbound.channels, i, q2);
        if served.resumes(index) {
            served.outbound.lemma_send_signal_wf(q1.sender, ChannelSignal::Resume);
        }
        assert forall|k: int| 0 <= k < t.inbound.channels.len() implies {
            let c = #[trigger] t.inbound.channels[k];
            &&& c.pages.len() <= HARD_LIMIT
            &&& c.pages.len() > SUSPEND_THRESHOLD ==> c.state
                == InboundStatus::Suspended
            &&& c.state == InboundStatus::Suspended ==> c.pages.len() > RESUME_THRESHOLD
        } by {
            let c0 = self.inbound.channels[k];
            assert(c0.pages.len() <= HARD_LIMIT);
            if k != i {
                assert(t.inbound.channels[k] == c0);
            }
        }
        assert forall|key: (u32, u32)| #[trigger]
            t.inbound.pages.contains_key(key) implies t.inbound.queued(key) by {
            assert(t.inbound.holds(key.0) <==> self.inbound.holds(key.0));
            if q.pages.len() > 0 && key == (q.sender, q.pages[0].0) {
                // the page is still stored, so it was not used up and is still listed
                assert(q2.pages == q.pages);
                assert(q2.pages[0].0 == key.1);
                assert(lists(q2, key.1));
            } else {
                assert(self.inbound.pages.contains_key(key));
                assert(self.inbound.queued(key));
                if key.0 == q.sender {
                    let w = choose|w: int|
                        0 <= w < q.pages.len() && (#[trigger] q.pages[w]).0 == key.1;
                    if q2.pages == q.pages {
                        assert(q2.pages[w].0 == key.1);
                    } else {
                        assert(q2.pages == q.pages.drop_first());
                        if w == 0 {
                            assert(key == (q.sender, q.pages[0].0));
                        }
                        assert(q2.pages[w - 1].0 == key.1);
                    }
                    assert(lists(q2, key.1));
                }
            }
        }
    }

    /// Serving the front page of a record keeps every listed page stored.
    pub proof fn lemma_turn_stored(self, index: usize, outcomes: Seq<Outcome>)
        requires
            self.inbound.consistent(),
            self.inbound.pages_stored(),
            index < self.inbound.channels.len(),
        ensures
            self.front_served(index, outcomes).resumed(index).inbound.pages_stored(),
    {
        let i = index as int;
        let q = self.inbound.channels[i];
        let served = self.front_served(index, outcomes);
        let t = served.resumed(index);
        assert forall|j: int| 0 <= j < t.inbound.channels.len() implies distinct_pages(
            #[trigger] t.inbound.channels[j],
        ) by {
            let c0 = self.inbound.channels[j];
            let c = t.inbound.channels[j];
            assert(distinct_pages(c0));
            if c.pages != c0.pages {
                assert(c.pages == c0.pages.drop_first());
                assert forall|a: int, b: int| 0 <= a < b < c.pages.len() implies (
                #[trigger] c.pages[a]).0 != (#[trigger] c.pages[b]).0 by {
                    assert(c0.pages[a + 1].0 != c0.pages[b + 1].0);
                }
            }
        }
        assert forall|j: int, k: int|
            0 <= j < t.inbound.channels.len() && 0 <= k
                < t.inbound.channels[j].pages.len() implies t.inbound.pages.contains_key(
            (t.inbound.channels[j].sender, (#[trigger] t.inbound.channels[j].pages[k]).0),
        ) by {
            let c0 = self.inbound.channels[j];
            let c = t.inbound.channels[j];
            if j != i {
                assert(c == c0);
                assert(self.inbound.pages.contains_key((c0.sender, c0.pages[k].0)));
                if j < i {
                    assert(c0.sender < q.sender);
                } else {
                    assert(q.sender < c0.sender);
                }
            } else if c.pages == c0.pages {
                assert(self.inbound.pages.contains_key((c0.sender, c0.pages[k].0)));
            } else {
                assert(c.pages == c0.pages.drop_first());
                assert(distinct_pages(c0));
                assert(c0.pages[0].0 != c0.pages[k + 1].0);
                assert(self.inbound.pages.contains_key((c0.sender, c0.pages[k + 1].0)));
            }
        }
    }

    /// Dropping the records that list no page keeps every listed page
    /// stored.
    pub proof fn lemma_drained_dropped_stored(self)
        requires
            self.inbound.consistent(),
            self.inbound.pages_stored(),
        ensures
            self.drained_dropped().inbound.pages_stored(),
    {
        let t = self.drained_dropped();
        lemma_queues_after_retain(self.inbound.channels);
        assert forall|j: int| 0 <= j < t.inbound.channels.len() implies {
            &&& distinct_pages(#[trigger] t.inbound.channels[j])
            &&& exists|j0: int|
                0 <= j0 < self.inbound.channels.len() && self.inbound.channels[j0]
                    == t.inbound.channels[j]
        } by {
            let c = t.inbound.channels[j];
            lemma_sender_slot(t.inbound.channels, j);
            assert(t.inbound.holds(c.sender));
            lemma_sender_held(self.inbound.channels, c.sender);
            let j0 = self.inbound.slot(c.sender);
            assert(self.inbound.channels[j0] == c);
            assert(distinct_pages(self.inbound.channels[j0]));
        }
        assert forall|j: int, k: int|
            0 <= j < t.inbound.channels.len() && 0 <= k
                < t.inbound.channels[j].pages.len() implies t.inbound.pages.contains_key(
            (t.inbound.channels[j].sender, (#[trigger] t.inbound.channels[j].pages[k]).0),
        ) by {
            assert(distinct_pages(t.inbound.channels[j]));
            let j0 = choose|j0: int|
                0 <= j0 < self.inbound.channels.len() && self.inbound.channels[j0]
                    == t.inbound.channels[j];
            assert(self.inbound.pages.contains_key(
                (self.inbound.channels[j0].sender, self.inbound.channels[j0].pages[k].0),
            ));
        }
    }

    /// Dropping the records that list no page makes a consistent queue
    /// well-formed.
    pub proof fn lemma_drained_dropped_wf(self)
        requires
            self.inbound.consistent(),
            self.outbound.wf(),
        ensures
            self.drained_dropped().wf(),
    {
        let t = self.drained_dropped();
        lemma_queues_after_retain(self.inbound.channels);
        assert forall|k: int| 0 <= k < t.inbound.channels.len() implies {
            let c = #[trigger] t.inbound.channels[k];
            &&& 1 <= c.pages.len() <= HARD_LIMIT
            &&& c.pages.len() > SUSPEND_THRESHOLD ==> c.state
                == InboundStatus::Suspended
            &&& c.state == InboundStatus::Suspended ==> c.pages.len() > RESUME_THRESHOLD
        } by {
            let c = t.inbound.channels[k];
            lemma_sender_slot(t.inbound.channels, k);
            assert(t.inbound.holds(c.sender));
            assert(self.inbound.holds(c.sender));
            lemma_sender_held(self.inbound.channels, c.sender);
            let c0 = self.inbound.channels[self.inbound.slot(c.sender)];
            assert(c == c0);
            assert(c0.pages.len() <= HARD_LIMIT);
        }
        assert forall|key: (u32, u32)| #[trigger]
            t.inbound.pages.contains_key(key) implies t.inbound.queued(key) by {
            assert(self.inbound.queued(key));
            let w = choose|w: int|
                0 <= w < self.inbound.queue(key.0).pages.len() && (
                #[trigger] self.inbound.queue(key.0).pages[w]).0 == key.1;
            assert(self.inbound.queue(key.0).pages.len() > 0);
            assert(t.inbound.holds(key.0));
        }
    }
}

/// Whether service goes on: a turn is left, and the weight that is left of
/// the budget is not below the threshold.
pub open spec fn continues(s: ServiceState, max_weight: Weight) -> bool {
    s.turn < s.order.len() && weight_left(max_weight, s.used) >= THRESHOLD_WEIGHT
}

/// The sender's place whose turn it is.
pub open spec fn at_turn(s: ServiceState) -> usize {
    s.order[s.turn as int]
}

/// Where service stands, from the numbers that it keeps.
pub open spec fn standing(
    queue: QueueState,
    order: Seq<usize>,
    turn: usize,
    used: Weight,
    available: Weight,
) -> ServiceState {
    ServiceState { queue, order, turn: turn as nat, used, available }
}

/// Whether the sender at turn is visited again: it made progress and has
/// pages left, or the budget is not unlocked in full yet.
pub open spec fn turns_again(
    served: QueueState,
    index: usize,
    processed: Weight,
    available: Weight,
    max_weight: Weight,
) -> bool {
    (served.inbound.channels[index as int].pages.len() > 0 && processed > 0) || available
        != max_weight
}

/// One turn of service, the host having given `outcomes` to the fragments
/// of the page. The budget unlocks a step further; the page at the front of
/// the sender at turn is dispatched; the sender is told to resume if its
/// queue is down to the threshold. A sender that is visited again gets a
/// turn behind the others or, where no other turn is left, the next turn.
pub open spec fn service_round(s: ServiceState, max_weight: Weight, outcomes: Seq<Outcome>) -> ServiceState {
    let index = at_turn(s);
    let available = unlocked_weight(
        s.available,
        max_weight,
        s.turn < s.queue.inbound.channels.len(),
    );
    let processed = s.queue.front_weight(index, outcomes);
    let queue = s.queue.front_served(index, outcomes).resumed(index);
    let used = weight_sum(s.used, processed);
    if turns_again(queue, index, processed, available, max_weight) {
        if s.turn + 1 == s.order.len() {
            ServiceState { queue, used, available, ..s }
        } else {
            ServiceState { queue, order: s.order.push(index), turn: s.turn + 1, used, available }
        }
    } else {
        ServiceState { queue, turn: s.turn + 1, used, available, ..s }
    }
}

/// Where service stands after `n` turns, the host having given
/// `rounds[k]` at turn `k`.
pub open spec fn service_after(
    start: ServiceState,
    max_weight: Weight,
    rounds: Seq<Seq<Outcome>>,
    n: nat,
) -> ServiceState
    decreases n,
{
    if n == 0 {
        start
    } else {
        service_round(
            service_after(start, max_weight, rounds, (n - 1) as nat),
            max_weight,
            rounds[n - 1],
        )
    }
}

/// Where service stands after all of `rounds`.
pub open spec fn service_run(start: ServiceState, max_weight: Weight, rounds: Seq<Seq<Outcome>>) -> ServiceState {
    service_after(start, max_weight, rounds, rounds.len())
}

/// Whether `rounds` is what the host gave in a whole service: at each turn
/// service went on and the page was dispatched to its end, and after the
/// last turn service stopped.
pub open spec fn whole_service(
    start: ServiceState,
    max_weight: Weight,
    rounds: Seq<Seq<Outcome>>,
) -> bool {
    &&& forall|k: nat|
        k < rounds.len() ==> {
            &&& continues(#[trigger] service_after(start, max_weight, rounds, k), max_weight)
            &&& service_after(start, max_weight, rounds, k).queue.front_finished(
                at_turn(service_after(start, max_weight, rounds, k)),
                round_at(rounds, k),
            )
        }
    &&& !continues(service_run(start, max_weight, rounds), max_weight)
}

/// Where service starts in the block whose parent has the hash `hash`:
/// nothing used, nothing unlocked, the senders in the shuffled order of the
/// block.
pub open spec fn service_start(queue: QueueState, hash: Seq<u8>) -> ServiceState {
    ServiceState {
        queue,
        order: swap_shuffle(chacha_stream(padded_seed(hash), queue.inbound.channels.len())),
        turn: 0,
        used: 0,
        available: 0,
    }
}

/// Whether service starts fairly: at the first turn, with an order that
/// names the place of each sender exactly once.
pub open spec fn fair_start(start: ServiceState) -> bool {
    &&& start.turn == 0
    &&& start.order.len() == start.queue.inbound.channels.len()
    &&& start.order.len() <= usize::MAX
    &&& is_permutation(start.order)
}

/// Whether a service of the queue with the budget `max_weight` does
/// anything: there is a sender, and the budget is above the threshold.
pub open spec fn worth_serving(queue: QueueState, max_weight: Weight) -> bool {
    queue.inbound.channels.len() > 0 && max_weight > THRESHOLD_WEIGHT
}

/// The queue after a service in the block whose parent has the hash `hash`,
/// the host having given `rounds`, and the weight used. The records that
/// list no page any more are dropped at the end.
pub open spec fn serviced(
    queue: QueueState,
    hash: Seq<u8>,
    max_weight: Weight,
    rounds: Seq<Seq<Outcome>>,
) -> (QueueState, Weight) {
    if worth_serving(queue, max_weight) {
        let end = service_run(service_start(queue, hash), max_weight, rounds);
        (end.queue.drained_dropped(), end.used)
    } else {
        (queue, 0)
    }
}

/// The turns of service depend on what the host gave at those turns only.
pub proof fn lemma_service_after_agrees(
    start: ServiceState,
    max_weight: Weight,
    a: Seq<Seq<Outcome>>,
    b: Seq<Seq<Outcome>>,
    n: nat,
)
    requires
        forall|k: int| 0 <= k < n ==> a[k] == b[k],
    ensures
        service_after(start, max_weight, a, n) == service_after(start, max_weight, b, n),
    decreases n,
{
    if n > 0 {
        lemma_service_after_agrees(start, max_weight, a, b, (n - 1) as nat);
    }
}

/// The unlocked part of the budget at the next step.
pub fn unlock_weight(available: Weight, max_weight: Weight, first_round: bool) -> (unlocked: Weight)
    ensures
        unlocked == unlocked_weight(available, max_weight, first_round),
        available <= max_weight ==> available <= unlocked <= max_weight,
        available < max_weight ==> unlocked > available,
{
    if available >= max_weight {
        available
    } else if first_round {
        let grown = available + (max_weight - available) / WEIGHT_RESTRICT_DECAY;
        if max_weight - grown < THRESHOLD_WEIGHT {
            max_weight
        } else {
            grown
        }
    } else {
        max_weight
    }
}

/// The records of `list` that list a page, in order.
pub fn retain_nonempty(list: &mut Vec<InboundChannel>)
    ensures
        queues_of(final(list)@) == nonempty_queues(queues_of(old(list)@)),
{
    let ghost whole = queues_of(list@);
    let mut kept: Vec<InboundChannel> = Vec::new();
    let mut rest: Vec<InboundChannel> = Vec::new();
    // Turn the list round, then take the records from its end: this moves
    // every record once and copies none.
    while list.len() > 0
        invariant
            queues_of(list@) + queues_of(rest@).reverse() == whole,
        decreases list.len(),
    {
        let ghost before = queues_of(list@);
        let ghost turned = queues_of(rest@);
        let last = list.pop();
        match last {
            Some(record) => {
                rest.push(record);
                assert(queues_of(list@) + queues_of(rest@).reverse() =~= before
                    + turned.reverse()) by {
                    assert(queues_of(list@) =~= before.drop_last());
                    assert(queues_of(rest@) =~= turned.push(before.last()));
                }
            },
            None => {},
        }
    }
    assert(queues_of(rest@).reverse() =~= whole);
    let ghost mut done: int = 0;
    assert(whole.subrange(0, 0) =~= Seq::<InboundQueue>::empty());
    assert(queues_of(kept@) =~= Seq::<InboundQueue>::empty());
    while rest.len() > 0
        invariant
            0 <= done <= whole.len(),
            queues_of(rest@).reverse() == whole.subrange(done, whole.len() as int),
            queues_of(kept@) == nonempty_queues(whole.subrange(0, done)),
        decreases rest.len(),
    {
        let ghost turned = queues_of(rest@);
        let ghost so_far = queues_of(kept@);
        let last = rest.pop();
        match last {
            Some(record) => {
                proof {
                    let tail = whole.subrange(done, whole.len() as int);
                    assert(turned.reverse() == tail);
                    assert(turned.len() == tail.len());
                    assert(turned.reverse()[0] == turned[turned.len() - 1]);
                    assert(tail[0] == whole[done]);
                    assert(turned[turned.len() - 1] == record@);
                    assert(record@ == whole[done]);
                    assert(queues_of(rest@) =~= turned.drop_last());
                    assert forall|k: int| 0 <= k < turned.len() - 1 implies #[trigger] queues_of(
                        rest@,
                    ).reverse()[k] == whole.subrange(done + 1, whole.len() as int)[k] by {
                        assert(queues_of(rest@).reverse()[k] == turned[turned.len() - 2 - k]);
                        assert(turned.reverse()[k + 1] == turned[turned.len() - 2 - k]);
                        assert(tail[k + 1] == whole[done + 1 + k]);
                    }
                    assert(queues_of(rest@).reverse() =~= whole.subrange(
                        done + 1,
                        whole.len() as int,
                    ));
                    assert(whole.subrange(0, done + 1).drop_last() =~= whole.subrange(0, done));
                    assert(whole.subrange(0, done + 1).last() == whole[done]);
                }
                if record.pages.len() > 0 {
                    kept.push(record);
                    assert(queues_of(kept@) =~= so_far.push(whole[done]));
                } else {
                    assert(queues_of(kept@) =~= so_far);
                }
                proof {
                    done = done + 1;
                }
            },
            None => {},
        }
    }
    assert(whole.subrange(0, done) =~= whole);
    *list = kept;
}

impl Module {
    /// Takes the page at the front of the record at place `index` off the
    /// record.
    pub(crate) fn drop_front(&mut self, index: usize)
        requires
            index < old(self)@.inbound.channels.len(),
            old(self)@.record(index).pages.len() > 0,
        ensures
            final(self)@ == old(self)@.front_dropped(index),
    {
        let ghost before = self@;
        let ghost q = before.record(index);
        self.inbound_status[index].pages.remove(0);
        proof {
            let dropped = InboundQueue { pages: q.pages.drop_first(), ..q };
            assert(q.pages.remove(0) =~= q.pages.drop_first());
            assert forall|k: int| 0 <= k < before.inbound.channels.len() implies #[trigger]
                self@.inbound.channels[k] == before.inbound.channels.update(
                index as int,
                dropped,
            )[k] by {
                if k != index {
                    assert(self.inbound_status@[k]@ == before.inbound.channels[k]);
                }
            }
            assert(self@.inbound.channels =~= before.inbound.channels.update(
                index as int,
                dropped,
            ));
        }
    }

    /// Dispatches the page at the front of the record at place `index`,
    /// with `weight` to spend, and takes the page off the record if it is
    /// used up. The result is the weight used. A record that lists no page
    /// is left alone.
    pub(crate) fn serve_front<T: Config>(&mut self, host: &mut T, index: usize, weight: Weight) -> (processed:
        Weight)
        requires
            index < old(self)@.inbound.channels.len(),
        ensures
            exists|outcomes: Seq<Outcome>|
                {
                    &&& old(self)@.front_finished(index, outcomes)
                    &&& final(self)@ == #[trigger] old(self)@.front_served(index, outcomes)
                    &&& processed == old(self)@.front_weight(index, outcomes)
                },
    {
        let ghost before = self@;
        if self.inbound_status[index].pages.len() == 0 {
            assert(self@ == before.front_served(index, Seq::<Outcome>::empty()));
            return 0;
        }
        let sender = self.inbound_status[index].sender;
        let page = self.inbound_status[index].pages[0];
        assert(before.record(index).sender == sender && before.record(index).pages[0] == page);
        let (processed, is_empty) = self.process_xcmp_message(host, sender, page, weight);
        let ghost outcomes = choose|outcomes: Seq<Outcome>|
            {
                &&& finished(
                    #[trigger] page_run(page.1, before.inbound_page(sender, page.0), outcomes),
                )
                &&& self@ == before.page_processed(sender, page.0, page.1, outcomes)
                &&& processed == page_run(
                    page.1,
                    before.inbound_page(sender, page.0),
                    outcomes,
                ).used
                &&& is_empty == (page_run(
                    page.1,
                    before.inbound_page(sender, page.0),
                    outcomes,
                ).rest.len() == 0)
            };
        if is_empty {
            self.drop_front(index);
        }
        assert(self@ == before.front_served(index, outcomes));
        processed
    }

    /// Tells the sender at place `index` that it may send again, if it is
    /// suspended and its queue is down to the resume threshold.
    pub(crate) fn tell_resume(&mut self, index: usize)
        requires
            index < old(self)@.inbound.channels.len(),
            old(self)@.outbound.wf(),
        ensures
            final(self)@ == old(self)@.resumed(index),
    {
        let ghost before = self@;
        let ghost q = before.inbound.channels[index as int];
        if self.inbound_status[index].pages.len() <= RESUME_THRESHOLD
            && self.inbound_status[index].state == InboundStatus::Suspended {
            let sender = self.inbound_status[index].sender;
            let _ = self.send_signal(sender, ChannelSignal::Resume);
            let ghost mid = self@;
            self.inbound_status[index].state = InboundStatus::Active;
            proof {
                let woken = InboundQueue { state: InboundStatus::Active, ..q };
                assert(self@.inbound.channels =~= before.inbound.channels.update(
                    index as int,
                    woken,
                )) by {
                    assert forall|k: int|
                        0 <= k < mid.inbound.channels.len() implies #[trigger]
                        self@.inbound.channels[k] == before.inbound.channels.update(
                        index as int,
                        woken,
                    )[k] by {
                        if k != index {
                            assert(self.inbound_status@[k]@ == mid.inbound.channels[k]);
                        }
                    }
                }
            }
        }
    }

    /// Serves the inbound queues with up to `max_weight` of execution: the
    /// senders get their turns in the shuffled order of the block, as long
    /// as a turn is left and the weight that is left is not below the
    /// threshold. At the end the senders without pages lose their records.
    /// The result is the weight used. Nothing is done where no sender has a
    /// record or the budget is not above the threshold.
    pub fn service_xcmp_queue<T: Config>(&mut self, host: &mut T, max_weight: Weight) -> (used: Weight)
        requires
            old(self).wf(),
        ensures
            final(self).wf(),
            exists|hash: Seq<u8>, rounds: Seq<Seq<Outcome>>|
                {
                    &&& worth_serving(old(self)@, max_weight) ==> fair_start(
                        service_start(old(self)@, hash),
                    ) && whole_service(service_start(old(self)@, hash), max_weight, rounds)
                    &&& (final(self)@, used) == #[trigger] serviced(
                        old(self)@,
                        hash,
                        max_weight,
                        rounds,
                    )
                },
            old(self)@.inbound.pages_stored() ==> final(self)@.inbound.pages_stored(),
    {
        let count = self.inbound_status.len();
        if count == 0 || max_weight <= THRESHOLD_WEIGHT {
            assert((self@, 0u64) == serviced(
                old(self)@,
                Seq::<u8>::empty(),
                max_weight,
                Seq::<Seq<Outcome>>::empty(),
            ));
            return 0;
        }
        let hash = host.parent_hash();
        let mut shuffled = create_shuffle(&hash, count);
        let ghost start = service_start(self@, hash@);
        assert(fair_start(start));
        let mut weight_used: Weight = 0;
        let mut weight_available: Weight = 0;
        let mut shuffle_index: usize = 0;
        let ghost mut rounds: Seq<Seq<Outcome>> = Seq::empty();
        let mut left = sub_weight(max_weight, weight_used);
        while shuffle_index < shuffled.len() && left >= THRESHOLD_WEIGHT
            invariant
                start == service_start(old(self)@, hash@),
                fair_start(start),
                count == self@.inbound.channels.len(),
                left == weight_left(max_weight, weight_used),
                weight_available <= max_weight,
                shuffle_index <= shuffled.len(),
                forall|k: int| 0 <= k < shuffled.len() ==> (#[trigger] shuffled@[k]) < count,
                self@.inbound.consistent(),
                self@.outbound.wf(),
                old(self)@.inbound.pages_stored() ==> self@.inbound.pages_stored(),
                standing(self@, shuffled@, shuffle_index, weight_used, weight_available)
                    == service_run(start, max_weight, rounds),
                forall|k: nat|
                    k < rounds.len() ==> {
                        &&& continues(
                            #[trigger] service_after(start, max_weight, rounds, k),
                            max_weight,
                        )
                        &&& service_after(start, max_weight, rounds, k).queue.front_finished(
                            at_turn(service_after(start, max_weight, rounds, k)),
                            round_at(rounds, k),
                        )
                    },
            decreases left, max_weight - weight_available, shuffled.len() - shuffle_index,
        {
            let ghost here = service_run(start, max_weight, rounds);
            let ghost earlier = rounds;
            let index = shuffled[shuffle_index];
            weight_available = unlock_weight(weight_available, max_weight, shuffle_index < count);
            let weight_remaining = sub_weight(weight_available, weight_used);
            let ghost before = self@;
            let processed = self.serve_front(host, index, weight_remaining);
            let ghost outcomes = choose|outcomes: Seq<Outcome>|
                {
                    &&& before.front_finished(index, outcomes)
                    &&& self@ == #[trigger] before.front_served(index, outcomes)
                    &&& processed == before.front_weight(index, outcomes)
                };
            proof {
                before.lemma_turn_consistent(index, outcomes);
                if before.inbound.pages_stored() {
                    before.lemma_turn_stored(index, outcomes);
                }
            }
            weight_used = add_weight(weight_used, processed);
            self.tell_resume(index);
            let again = (self.inbound_status[index].pages.len() > 0 && processed > 0)
                || weight_available != max_weight;
            if again {
                if shuffle_index + 1 != shuffled.len() {
                    shuffled.push(index);
                    shuffle_index += 1;
                }
            } else {
                shuffle_index += 1;
            }
            left = sub_weight(max_weight, weight_used);
            proof {
                rounds = earlier.push(outcomes);
                lemma_service_after_agrees(start, max_weight, earlier, rounds, earlier.len());
                assert(service_run(start, max_weight, rounds) == service_round(
                    here,
                    max_weight,
                    outcomes,
                ));
                assert forall|k: nat| k < rounds.len() implies {
                    &&& continues(
                        #[trigger] service_after(start, max_weight, rounds, k),
                        max_weight,
                    )
                    &&& service_after(start, max_weight, rounds, k).queue.front_finished(
                        at_turn(service_after(start, max_weight, rounds, k)),
                        round_at(rounds, k),
                    )
                } by {
                    lemma_service_after_agrees(start, max_weight, earlier, rounds, k);
                    if k < earlier.len() {
                        assert(continues(
                            service_after(start, max_weight, earlier, k),
                            max_weight,
                        ));
                    }
                }
            }
        }
        let ghost end = self@;
        retain_nonempty(&mut self.inbound_status);
        proof {
            if end.inbound.pages_stored() {
                end.lemma_drained_dropped_stored();
            }
            end.lemma_drained_dropped_wf();
            assert(self@ == end.drained_dropped());
            assert(whole_service(start, max_weight, rounds));
            assert(fair_start(start));
            assert((self@, weight_used) == serviced(old(self)@, hash@, max_weight, rounds));
        }
        weight_used
    }
}

} // verus!
