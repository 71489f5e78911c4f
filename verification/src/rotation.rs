//! Why no recipient starves: a poll turns the recipients that it served to
//! the end of the list, so those that it did not reach come first at the
//! next poll.

use crate::outbound_laws::lemma_slot;
use crate::outbound_state::{
    retained, rotate_left, worth_keeping, OutboundChannel, OutboundState,
};
use crate::types::{ChannelStatus, ParaId};
use vstd::prelude::*;

verus! {

/// The number of records that a poll for `max_channels` pages may serve.
pub open spec fn reach(state: OutboundState, max_channels: usize) -> nat {
    if state.channels.len() <= max_channels {
        state.channels.len()
    } else {
        max_channels as nat
    }
}

impl OutboundState {
    /// Whether the record at place `i` gives a page, the host reporting
    /// `status` for its channel.
    pub open spec fn serves(self, i: int, status: ChannelStatus) -> bool {
        self.collect_one(i, status).1 is Some
    }

    /// Whether each record within reach of a poll gives a page.
    pub open spec fn generous(self, answers: Seq<ChannelStatus>, max_channels: usize) -> bool {
        forall|k: int| 0 <= k < reach(self, max_channels) ==> self.serves(k, #[trigger] answers[k])
    }

    /// Whether the two states agree on the record at place `k` and on the
    /// pages that wait for its recipient.
    pub open spec fn same_at(self, other: OutboundState, k: int) -> bool {
        let r = self.channels[k].recipient;
        &&& other.channels[k] == self.channels[k]
        &&& other.signals.contains_key(r) == self.signals.contains_key(r)
        &&& self.signals.contains_key(r) ==> other.signals[r] == self.signals[r]
        &&& forall|index: u32| #[trigger]
            other.pages.contains_key((r, index)) == self.pages.contains_key((r, index))
        &&& forall|index: u32|
            self.pages.contains_key((r, index)) ==> #[trigger] other.pages[(r, index)]
                == self.pages[(r, index)]
    }

    /// Serving one record leaves every other record, and the pages that
    /// wait for its recipient, as they were; a page that is given is for
    /// the recipient of the record served.
    pub proof fn lemma_collect_one_local(self, i: int, status: ChannelStatus, k: int)
        requires
            self.consistent(),
            0 <= i < self.channels.len(),
            0 <= k < self.channels.len(),
            k != i,
        ensures
            self.same_at(self.collect_one(i, status).0, k),
            self.collect_one(i, status).1 matches Some(d) ==> d.0 == self.channels[i].recipient,
    {
        lemma_slot(self.channels, i);
        lemma_slot(self.channels, k);
        assert(self.recipients()[i] != self.recipients()[k]);
        let after = self.collect_one(i, status).0;
        let r = self.channels[k].recipient;
        assert(after.channels[k] == self.channels[k]);
        assert forall|index: u32| #[trigger]
            after.pages.contains_key((r, index)) == self.pages.contains_key((r, index)) by {}
        assert forall|index: u32| self.pages.contains_key((r, index)) implies #[trigger]
            after.pages[(r, index)] == self.pages[(r, index)] by {}
    }

    /// Whether a record gives a page depends on the record and on the pages
    /// that wait for its recipient only.
    pub proof fn lemma_serves_same(self, other: OutboundState, k: int, status: ChannelStatus)
        requires
            self.same_at(other, k),
        ensures
            other.serves(k, status) == self.serves(k, status),
    {
        let c = self.channels[k];
        assert(other.pages.contains_key((c.recipient, c.first_index as u32))
            == self.pages.contains_key((c.recipient, c.first_index as u32)));
        if self.pages.contains_key((c.recipient, c.first_index as u32)) {
            assert(other.pages[(c.recipient, c.first_index as u32)] == self.pages[(
                c.recipient,
                c.first_index as u32,
            )]);
        }
    }

    /// Where every record walked gives a page, the walk takes one page from
    /// each, in order, and leaves the records not walked as they were.
    pub proof fn lemma_walk_of_the_generous(self, answers: Seq<ChannelStatus>, limit: nat, n: nat)
        requires
            self.consistent(),
            n <= limit,
            n <= self.channels.len(),
            forall|k: int| 0 <= k < n ==> self.serves(k, #[trigger] answers[k]),
        ensures
            ({
                let walked = self.collect_upto(answers, limit, n);
                &&& walked.taken.len() == n
                &&& walked.state.consistent()
                &&& walked.state.channels.len() == self.channels.len()
                &&& forall|k: int|
                    0 <= k < n ==> (#[trigger] walked.taken[k]).0 == self.channels[k].recipient
                &&& forall|k: int| n <= k < self.channels.len() ==> self.same_at(walked.state, k)
            }),
        decreases n,
    {
        if n > 0 {
            let last = (n - 1) as nat;
            self.lemma_walk_of_the_generous(answers, limit, last);
            let before = self.collect_upto(answers, limit, last);
            let walked = self.collect_upto(answers, limit, n);
            assert(self.same_at(before.state, last as int));
            self.lemma_serves_same(before.state, last as int, answers[last as int]);
            assert(self.serves(last as int, answers[last as int]));
            before.state.lemma_collect_one_consistent(last as int, answers[last as int]);
            let step = before.state.collect_one(last as int, answers[last as int]);
            lemma_slot(before.state.channels, last as int);
            assert(step.1 is Some);
            let given = step.1.unwrap();
            assert(given.0 == self.channels[last as int].recipient);
            assert forall|k: int| n <= k < self.channels.len() implies self.same_at(
                walked.state,
                k,
            ) by {
                assert(self.same_at(before.state, k));
                before.state.lemma_collect_one_local(last as int, answers[last as int], k);
            }
            assert forall|k: int| 0 <= k < n implies (#[trigger] walked.taken[k]).0
                == self.channels[k].recipient by {
                if k < last {
                    assert(walked.taken[k] == before.taken[k]);
                }
            }
        }
    }

    /// A poll turns the recipients that it served to the end of the list.
    /// Where each record within reach gives a page, the poll delivers one
    /// page for each of them, and the list afterwards holds the records
    /// that were out of reach, unchanged and in their order, followed by
    /// those of the served records that have a reason to stay.
    pub proof fn lemma_poll_turns_served_last(self, answers: Seq<ChannelStatus>, max_channels: usize)
        requires
            self.wf(),
            self.generous(answers, max_channels),
        ensures
            ({
                let m = reach(self, max_channels) as int;
                let walked = self.collect_upto(answers, m as nat, self.channels.len());
                let after = self.take_outbound(answers, max_channels).0;
                &&& walked.taken.len() == m
                &&& forall|k: int|
                    0 <= k < m ==> (#[trigger] walked.taken[k]).0 == self.channels[k].recipient
                &&& after.channels == self.channels.subrange(m, self.channels.len() as int)
                    + retained(walked.state.channels.subrange(0, m))
                &&& after.wf()
            }),
    {
        let total = self.channels.len() as int;
        let m = reach(self, max_channels) as int;
        self.lemma_walk_of_the_generous(answers, m as nat, m as nat);
        self.lemma_collect_upto_full(answers, m as nat, m as nat, total as nat);
        self.lemma_take_outbound_wf(answers, max_channels);
        let walked = self.collect_upto(answers, m as nat, total as nat);
        let w = walked.state.channels;
        let served = w.subrange(0, m);
        let rest = self.channels.subrange(m, total);
        assert(w =~= served + rest) by {
            assert forall|k: int| m <= k < total implies w[k] == self.channels[k] by {
                assert(self.same_at(walked.state, k));
            }
        }
        assert forall|k: int| 0 <= k < rest.len() implies worth_keeping(#[trigger] rest[k]) by {
            assert(worth_keeping(self.channels[m + k]));
        }
        lemma_retained_of_concat(served, rest);
        lemma_retained_of_the_kept(rest);
        lemma_retained_len(served);
        let kept = retained(w);
        let r = retained(served).len() as int;
        assert(kept == retained(served) + rest);
        assert(rotate_left(kept, r) =~= rest + retained(served));
    }
}

/// What stays of two lists put together is what stays of each, put
/// together.
pub proof fn lemma_retained_of_concat(a: Seq<OutboundChannel>, b: Seq<OutboundChannel>)
    ensures
        retained(a + b) == retained(a) + retained(b),
    decreases b.len(),
{
    if b.len() == 0 {
        assert(a + b =~= a);
        assert(retained(a) + retained(b) =~= retained(a));
    } else {
        assert((a + b).drop_last() =~= a + b.drop_last());
        assert((a + b).last() == b.last());
        lemma_retained_of_concat(a, b.drop_last());
        if worth_keeping(b.last()) {
            assert(retained(a) + retained(b) =~= (retained(a) + retained(b.drop_last())).push(
                b.last(),
            ));
        }
    }
}

/// A list whose records all have a reason to stay stays as it is.
pub proof fn lemma_retained_of_the_kept(a: Seq<OutboundChannel>)
    requires
        forall|k: int| 0 <= k < a.len() ==> worth_keeping(#[trigger] a[k]),
    ensures
        retained(a) == a,
    decreases a.len(),
{
    if a.len() > 0 {
        assert forall|k: int| 0 <= k < a.drop_last().len() implies worth_keeping(
            #[trigger] a.drop_last()[k],
        ) by {
            assert(a.drop_last()[k] == a[k]);
        }
        lemma_retained_of_the_kept(a.drop_last());
        assert(a.drop_last().push(a.last()) =~= a);
    }
}

/// No more records stay than there were.
pub proof fn lemma_retained_len(a: Seq<OutboundChannel>)
    ensures
        retained(a).len() <= a.len(),
    decreases a.len(),
{
    if a.len() > 0 {
        lemma_retained_len(a.drop_last());
    }
}

/// The state after the first `n` of a row of polls, each for at most
/// `max_channels` pages, the host having reported `rounds[j]` at poll `j`.
pub open spec fn polled(
    state: OutboundState,
    rounds: Seq<Seq<ChannelStatus>>,
    max_channels: usize,
    n: nat,
) -> OutboundState
    decreases n,
{
    if n == 0 {
        state
    } else {
        polled(state, rounds, max_channels, (n - 1) as nat).take_outbound(
            rounds[n - 1],
            max_channels,
        ).0
    }
}

/// Whether the recipient stands within reach of the next poll.
pub open spec fn within_reach(state: OutboundState, max_channels: usize, recipient: ParaId) -> bool {
    exists|k: int|
        0 <= k < reach(state, max_channels) && (#[trigger] state.channels[k]).recipient
            == recipient
}

/// Whether the recipient stands within reach of one of the polls up to
/// poll number `q`.
pub open spec fn reached_by(
    state: OutboundState,
    rounds: Seq<Seq<ChannelStatus>>,
    max_channels: usize,
    recipient: ParaId,
    q: nat,
) -> bool {
    exists|j: nat|
        j <= q && within_reach(
            #[trigger] polled(state, rounds, max_channels, j),
            max_channels,
            recipient,
        )
}

/// Whether every record within reach gives a page at each of the polls up
/// to poll number `q`.
pub open spec fn generous_up_to(
    state: OutboundState,
    rounds: Seq<Seq<ChannelStatus>>,
    max_channels: usize,
    q: nat,
) -> bool {
    forall|j: nat|
        j <= q ==> (#[trigger] polled(state, rounds, max_channels, j)).generous(
            rounds[j as int],
            max_channels,
        )
}

/// No recipient is passed over for long. In a row of polls for at most
/// `max_channels` pages each, at which every record within reach gives a
/// page, the recipient that stands at place `p` of the list is within reach
/// of one of the first `p / max_channels + 1` polls: of `M` recipients, each
/// gets its slot within `M / max_channels`, rounded up, polls.
pub proof fn lemma_slot_within_window(
    state: OutboundState,
    rounds: Seq<Seq<ChannelStatus>>,
    max_channels: usize,
    p: int,
)
    requires
        state.wf(),
        max_channels >= 1,
        0 <= p < state.channels.len(),
        p / (max_channels as int) < rounds.len(),
        generous_up_to(state, rounds, max_channels, (p / (max_channels as int)) as nat),
    ensures
        reached_by(
            state,
            rounds,
            max_channels,
            state.channels[p].recipient,
            (p / (max_channels as int)) as nat,
        ),
{
    let step = max_channels as int;
    let q = p / step;
    lemma_place_moves_up(state, rounds, max_channels, p, q);
    let r = state.channels[p].recipient;
    if !reached_by(state, rounds, max_channels, r, q as nat) {
        let now = polled(state, rounds, max_channels, q as nat);
        let place = p - q * step;
        assert(place < step) by (nonlinear_arith)
            requires
                place == p - q * step,
                q == p / step,
                step >= 1,
                p >= 0,
        ;
        assert(place < reach(now, max_channels));
        assert(now.channels[place].recipient == r);
        assert(within_reach(now, max_channels, r));
        assert(q as nat <= q as nat && within_reach(
            polled(state, rounds, max_channels, q as nat),
            max_channels,
            r,
        ));
    }
}

/// A recipient out of reach moves up by the reach of each poll until it is
/// within reach: for each number `q` of polls up to `p / max_channels`,
/// either it was within reach of one of the polls before poll `q`, or
/// after `q` polls it stands at place `p - q * max_channels`.
pub proof fn lemma_place_moves_up(
    state: OutboundState,
    rounds: Seq<Seq<ChannelStatus>>,
    max_channels: usize,
    p: int,
    q: int,
)
    requires
        state.wf(),
        max_channels >= 1,
        0 <= p < state.channels.len(),
        0 <= q <= p / (max_channels as int) < rounds.len(),
        generous_up_to(state, rounds, max_channels, (p / (max_channels as int)) as nat),
    ensures
        polled(state, rounds, max_channels, q as nat).wf(),
        reached_by(state, rounds, max_channels, state.channels[p].recipient, q as nat) || ({
            let now = polled(state, rounds, max_channels, q as nat);
            let place = p - q * max_channels;
            &&& 0 <= place < now.channels.len()
            &&& now.channels[place] == state.channels[p]
        }),
    decreases q,
{
    let step = max_channels as int;
    let r = state.channels[p].recipient;
    assert(q * step <= p) by (nonlinear_arith)
        requires
            0 <= q <= p / step,
            step >= 1,
    ;
    if q == 0 {
        assert(q * step == 0) by (nonlinear_arith)
            requires
                q == 0,
        ;
        assert(polled(state, rounds, max_channels, 0) == state);
    } else {
        lemma_place_moves_up(state, rounds, max_channels, p, q - 1);
        let earlier = (q - 1) as nat;
        let before = polled(state, rounds, max_channels, earlier);
        let now = polled(state, rounds, max_channels, q as nat);
        let answers = rounds[q - 1];
        assert(now == before.take_outbound(answers, max_channels).0);
        assert(before.generous(rounds[earlier as int], max_channels));
        before.lemma_poll_turns_served_last(answers, max_channels);
        if reached_by(state, rounds, max_channels, r, earlier) {
            let j = choose|j: nat|
                j <= earlier && within_reach(
                    #[trigger] polled(state, rounds, max_channels, j),
                    max_channels,
                    r,
                );
            assert(j <= q && within_reach(
                polled(state, rounds, max_channels, j),
                max_channels,
                r,
            ));
        } else {
            let place = p - (q - 1) * step;
            assert(0 <= place < before.channels.len());
            assert(before.channels[place] == state.channels[p]);
            assert(place - step == p - q * step) by (nonlinear_arith)
                requires
                    place == p - (q - 1) * step,
            ;
            let m = reach(before, max_channels) as int;
            if place < m {
                assert(within_reach(before, max_channels, r));
                assert(earlier <= earlier && within_reach(
                    polled(state, rounds, max_channels, earlier),
                    max_channels,
                    r,
                ));
                assert(false);
            }
            assert(m == step);
            let rest = before.channels.subrange(m, before.channels.len() as int);
            assert(rest[place - step] == before.channels[place]);
            assert(now.channels[place - step] == rest[place - step]);
        }
    }
}

} // verus!
