//! What the queue guarantees across its operations: backpressure on the
//! senders, dispatch in order, a turn for every sender, and a slot for every
//! recipient.

use crate::dispatch::{accounted, lemma_page_accounted, page_run};
use crate::inbound_state::{
    lemma_queues_after_update, lemma_sender_held, SUSPEND_THRESHOLD, THRESHOLD_WEIGHT,
};
use crate::queue::QueueState;
use crate::service::{
    at_turn, continues, service_after, service_round, service_run, ServiceState,
};
use crate::shuffle::is_permutation;
use crate::types::{
    signal_code, ChannelSignal, Format, InboundStatus, Outcome, ParaId, RelayBlockNumber, Weight,
};
use crate::dispatch::weight_left;
use vstd::prelude::*;

verus! {

/// A sender whose queue reaches the suspend threshold is told to stop with
/// the next page that arrives: its record is suspended, and the last code of
/// the signal page that waits for it is the suspend code.
pub proof fn lemma_suspend_is_signalled(
    queue: QueueState,
    sender: ParaId,
    sent_at: RelayBlockNumber,
    format: Format,
    body: Seq<u8>,
)
    requires
        queue.wf(),
        queue.suspends(sender),
    ensures
        ({
            let after = queue.batch_queued(sender, sent_at, format, body);
            &&& after.inbound.holds(sender)
            &&& after.inbound.queue(sender).state == InboundStatus::Suspended
            &&& after.outbound.holds(sender)
            &&& after.outbound.channel(sender).signals_exist
            &&& after.outbound.signals.contains_key(sender)
            &&& after.outbound.signals[sender].last() == signal_code(ChannelSignal::Suspend)
        }),
{
    let after = queue.batch_queued(sender, sent_at, format, body);
    queue.outbound.lemma_send_signal_queued(sender, ChannelSignal::Suspend);
    lemma_sender_held(queue.inbound.channels, sender);
    let i = queue.inbound.slot(sender);
    lemma_queues_after_update(queue.inbound.channels, i, after.inbound.channels[i]);
    assert(after.inbound.channels =~= queue.inbound.channels.update(
        i,
        after.inbound.channels[i],
    ));
}

/// A sender with more pages queued than the suspend threshold is suspended.
pub proof fn lemma_long_queue_is_suspended(queue: QueueState, sender: ParaId)
    requires
        queue.wf(),
        queue.inbound.holds(sender),
        queue.inbound.queue(sender).pages.len() > SUSPEND_THRESHOLD,
    ensures
        queue.inbound.queue(sender).state == InboundStatus::Suspended,
{
    lemma_sender_held(queue.inbound.channels, sender);
}

/// A suspended sender whose queue is down to the resume threshold is told
/// that it may send again: its record is active, and the last code of the
/// signal page that waits for it is the resume code.
pub proof fn lemma_resume_is_signalled(queue: QueueState, index: usize)
    requires
        queue.outbound.wf(),
        index < queue.inbound.channels.len(),
        queue.resumes(index),
    ensures
        ({
            let after = queue.resumed(index);
            let sender = queue.record(index).sender;
            &&& after.record(index).state == InboundStatus::Active
            &&& after.record(index).pages == queue.record(index).pages
            &&& after.outbound.holds(sender)
            &&& after.outbound.channel(sender).signals_exist
            &&& after.outbound.signals.contains_key(sender)
            &&& after.outbound.signals[sender].last() == signal_code(ChannelSignal::Resume)
        }),
{
    queue.outbound.lemma_send_signal_queued(queue.record(index).sender, ChannelSignal::Resume);
}

/// A turn dispatches the page at the front of the sender's record and no
/// other: the events of the turn account for the bytes that left that page,
/// in their order; the page stays at the front unless it is used up; the
/// pages behind it, and the records of the other senders, are as they were.
pub proof fn lemma_turn_in_order(queue: QueueState, index: usize, outcomes: Seq<Outcome>)
    requires
        index < queue.inbound.channels.len(),
        queue.record(index).pages.len() > 0,
    ensures
        ({
            let after = queue.front_served(index, outcomes);
            let front = queue.record(index).pages[0];
            let run = page_run(front.1, queue.front_page(index), outcomes);
            &&& after.events == queue.events + run.events
            &&& accounted(run.events) + run.rest == queue.front_page(index)
            &&& after.record(index).pages == (if run.rest.len() == 0 {
                queue.record(index).pages.drop_first()
            } else {
                queue.record(index).pages
            })
            &&& run.rest.len() > 0 ==> after.inbound_page(queue.record(index).sender, front.0)
                == run.rest
            &&& forall|k: int|
                0 <= k < queue.inbound.channels.len() && k != index
                    ==> #[trigger] after.inbound.channels[k] == queue.inbound.channels[k]
        }),
{
    let front = queue.record(index).pages[0];
    lemma_page_accounted(front.1, queue.front_page(index), outcomes, outcomes.len());
}

/// Whether service went on at each of the first `n` turns.
pub open spec fn went_on(
    start: ServiceState,
    max_weight: Weight,
    rounds: Seq<Seq<Outcome>>,
    n: nat,
) -> bool {
    forall|k: nat|
        k < n ==> continues(#[trigger] service_after(start, max_weight, rounds, k), max_weight)
}

/// No turn takes a turn away: the order only grows at its end, and the
/// number of the next turn goes up by one at most and never passes the end
/// of the order.
pub proof fn lemma_order_grows(
    start: ServiceState,
    max_weight: Weight,
    rounds: Seq<Seq<Outcome>>,
    m: nat,
    n: nat,
)
    requires
        m <= n,
        start.turn <= start.order.len(),
        went_on(start, max_weight, rounds, n),
    ensures
        service_after(start, max_weight, rounds, m).order.len() <= service_after(
            start,
            max_weight,
            rounds,
            n,
        ).order.len(),
        service_after(start, max_weight, rounds, n).turn <= service_after(
            start,
            max_weight,
            rounds,
            n,
        ).order.len(),
        service_after(start, max_weight, rounds, m).turn <= service_after(
            start,
            max_weight,
            rounds,
            n,
        ).turn,
        forall|j: int|
            0 <= j < service_after(start, max_weight, rounds, m).order.len()
                ==> #[trigger] service_after(start, max_weight, rounds, n).order[j]
                == service_after(start, max_weight, rounds, m).order[j],
    decreases n,
{
    if n > 0 {
        let last = (n - 1) as nat;
        let before = service_after(start, max_weight, rounds, last);
        let after = service_after(start, max_weight, rounds, n);
        assert(continues(before, max_weight));
        assert(after == service_round(before, max_weight, rounds[n - 1]));
        if m < n {
            lemma_order_grows(start, max_weight, rounds, m, last);
        } else {
            lemma_order_grows(start, max_weight, rounds, last, last);
        }
    }
}

/// Every turn that lies behind was taken: for each turn number below the
/// number of the next turn there is a round at which it was the turn.
pub proof fn lemma_turns_taken(
    start: ServiceState,
    max_weight: Weight,
    rounds: Seq<Seq<Outcome>>,
    n: nat,
    j: nat,
)
    requires
        start.turn == 0,
        went_on(start, max_weight, rounds, n),
        j < service_after(start, max_weight, rounds, n).turn,
    ensures
        exists|k: nat|
            k < n && (#[trigger] service_after(start, max_weight, rounds, k)).turn == j,
    decreases n,
{
    if n > 0 {
        let last = (n - 1) as nat;
        let before = service_after(start, max_weight, rounds, last);
        assert(continues(before, max_weight));
        if j < before.turn {
            lemma_turns_taken(start, max_weight, rounds, last, j);
            let k = choose|k: nat|
                k < last && (#[trigger] service_after(start, max_weight, rounds, k)).turn == j;
            assert(k < n && service_after(start, max_weight, rounds, k).turn == j);
        } else {
            assert(before.turn == j);
            assert(last < n && service_after(start, max_weight, rounds, last).turn == j);
        }
    }
}

/// Every sender gets a turn: in a service that starts with each place named
/// once in the order and ends with weight to spare, each place was at turn
/// in some round, so the page at the front of its record was dispatched.
pub proof fn lemma_every_sender_served(
    start: ServiceState,
    max_weight: Weight,
    rounds: Seq<Seq<Outcome>>,
    place: usize,
)
    requires
        start.turn == 0,
        is_permutation(start.order),
        place < start.order.len() <= usize::MAX,
        went_on(start, max_weight, rounds, rounds.len()),
        !continues(service_run(start, max_weight, rounds), max_weight),
        weight_left(max_weight, service_run(start, max_weight, rounds).used)
            >= THRESHOLD_WEIGHT,
    ensures
        exists|k: nat|
            k < rounds.len() && at_turn(#[trigger] service_after(start, max_weight, rounds, k))
                == place,
{
    let end = service_run(start, max_weight, rounds);
    let n = rounds.len();
    lemma_order_grows(start, max_weight, rounds, 0, n);
    assert(end.turn == end.order.len());
    // The place stands somewhere in the order of the start.
    let j = lemma_permutation_names(start.order, place);
    assert(j < end.turn);
    lemma_turns_taken(start, max_weight, rounds, n, j as nat);
    let k = choose|k: nat|
        k < n && (#[trigger] service_after(start, max_weight, rounds, k)).turn == j;
    assert(went_on(start, max_weight, rounds, k));
    lemma_order_grows(start, max_weight, rounds, 0, k);
    lemma_order_grows(start, max_weight, rounds, k, n);
    let then = service_after(start, max_weight, rounds, k);
    assert(then.order[j] == start.order[j]);
    assert(at_turn(then) == place);
}

/// An order that names each place once names every place: the number of a
/// turn at which `place` stands.
pub proof fn lemma_permutation_names(order: Seq<usize>, place: usize) -> (j: int)
    requires
        is_permutation(order),
        place < order.len() <= usize::MAX,
    ensures
        0 <= j < order.len(),
        order[j] == place,
{
    // If no turn named `place`, the order would fit its distinct entries
    // into one place fewer than it has.
    if !order.contains(place) {
        let places = Set::new(|p: usize| p < order.len() && p != place);
        let all = Set::new(|p: usize| p < order.len());
        lemma_places_finite(order.len());
        assert(places.subset_of(all));
        assert(places =~= all.remove(place));
        assert(all.contains(place));
        assert(places.len() == order.len() - 1);
        assert(order.to_set().subset_of(places)) by {
            assert forall|p: usize| order.to_set().contains(p) implies places.contains(p) by {
                let i = choose|i: int| 0 <= i < order.len() && order[i] == p;
                assert(order[i] < order.len());
            }
        }
        order.unique_seq_to_set();
        vstd::set_lib::lemma_len_subset(order.to_set(), places);
        assert(false);
    }
    order.index_of(place)
}

/// There are exactly `n` places below `n`.
pub proof fn lemma_places_finite(n: nat)
    requires
        n <= usize::MAX + 1,
    ensures
        Set::new(|p: usize| p < n).finite(),
        Set::new(|p: usize| p < n).len() == n,
    decreases n,
{
    let all = Set::new(|p: usize| p < n);
    if n == 0 {
        assert(all =~= Set::<usize>::empty());
    } else {
        lemma_places_finite((n - 1) as nat);
        let fewer = Set::new(|p: usize| p < n - 1);
        assert(all =~= fewer.insert((n - 1) as usize));
    }
}

} // verus!
