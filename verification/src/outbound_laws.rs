//! What holds of the outbound state: how the records are found again after
//! the list changed, and that every operation keeps the invariant.

use crate::outbound_state::{
    ascending, channel_of, data_page_wf, fresh_channel, held, insertion_point, recipients_of,
    retained, ring_in_order, rotate_left, signal_page_wf, slot_of, sort_by_recipient,
    worth_keeping, Delivery, OutboundChannel, OutboundState,
};
use crate::types::{
    format_tag, signal_code, signal_of_code, ChannelSignal, ChannelStatus, Format, OutboundStatus,
    ParaId,
};
use vstd::prelude::*;

verus! {

/// In a list in ascending order, the insertion point parts the deliveries
/// whose recipient is not greater from those whose recipient is greater.
pub proof fn lemma_insertion_point(s: Seq<Delivery>, recipient: ParaId)
    requires
        ascending(s),
    ensures
        0 <= insertion_point(s, recipient) <= s.len(),
        forall|k: int| 0 <= k < insertion_point(s, recipient) ==> (#[trigger] s[k]).0 <= recipient,
        forall|k: int|
            insertion_point(s, recipient) <= k < s.len() ==> (#[trigger] s[k]).0 > recipient,
    decreases s.len(),
{
    if s.len() > 0 {
        let d = s.drop_last();
        assert forall|i: int, j: int| 0 <= i < j < d.len() implies d[i].0 <= d[j].0 by {
            assert(s[i].0 <= s[j].0);
        }
        lemma_insertion_point(d, recipient);
        if s.last().0 <= recipient {
            assert forall|k: int| 0 <= k < s.len() implies (#[trigger] s[k]).0 <= recipient by {
                if k < s.len() - 1 {
                    assert(s[k].0 <= s[s.len() - 1].0);
                }
            }
        } else {
            assert forall|k: int| insertion_point(s, recipient) <= k < s.len() implies (
            #[trigger] s[k]).0 > recipient by {
                if k < d.len() {
                    assert(d[k] == s[k]);
                }
            }
            assert forall|k: int| 0 <= k < insertion_point(s, recipient) implies (
            #[trigger] s[k]).0 <= recipient by {
                assert(d[k] == s[k]);
            }
        }
    }
}

/// The deliveries of a poll come in ascending order of recipient, and they
/// are the pages taken, each once.
pub proof fn lemma_sort_by_recipient(s: Seq<Delivery>)
    ensures
        ascending(sort_by_recipient(s)),
        sort_by_recipient(s).len() == s.len(),
        sort_by_recipient(s).to_multiset() == s.to_multiset(),
    decreases s.len(),
{
    if s.len() > 0 {
        let d = s.drop_last();
        let sorted = sort_by_recipient(d);
        lemma_sort_by_recipient(d);
        let at = insertion_point(sorted, s.last().0);
        lemma_insertion_point(sorted, s.last().0);
        let t = sorted.insert(at, s.last());
        assert forall|i: int, j: int| 0 <= i < j < t.len() implies t[i].0 <= t[j].0 by {
            let i0 = if i < at { i } else { i - 1 };
            let j0 = if j < at { j } else { j - 1 };
            if i != at && j != at {
                assert(t[i] == sorted[i0] && t[j] == sorted[j0]);
                assert(sorted[i0].0 <= sorted[j0].0);
            } else if i == at {
                assert(t[j] == sorted[j0]);
            } else {
                assert(t[i] == sorted[i0]);
            }
        }
        vstd::seq_lib::to_multiset_insert(sorted, at, s.last());
        assert(s =~= d.push(s.last()));
        d.to_multiset_ensures();
        assert(s.to_multiset() =~= d.to_multiset().insert(s.last()));
    }
}

/// A record is found at its own place.
pub proof fn lemma_slot(channels: Seq<OutboundChannel>, i: int)
    requires
        recipients_of(channels).no_duplicates(),
        0 <= i < channels.len(),
    ensures
        held(channels, channels[i].recipient),
        slot_of(channels, channels[i].recipient) == i,
        channel_of(channels, channels[i].recipient) == channels[i],
{
    let r = recipients_of(channels);
    assert(r[i] == channels[i].recipient);
    let j = r.index_of(r[i]);
    assert(0 <= j < r.len() && r[j] == r[i]);
}

/// The place of a recipient that has a record holds that record.
pub proof fn lemma_held(channels: Seq<OutboundChannel>, recipient: ParaId)
    requires
        held(channels, recipient),
    ensures
        0 <= slot_of(channels, recipient) < channels.len(),
        channels[slot_of(channels, recipient)].recipient == recipient,
        channel_of(channels, recipient).recipient == recipient,
{
    let r = recipients_of(channels);
    let j = r.index_of(recipient);
    assert(0 <= j < r.len() && r[j] == recipient);
}

/// Changing a record but not its recipient leaves every place as it was,
/// and every other record too.
pub proof fn lemma_places_after_update(channels: Seq<OutboundChannel>, i: int, c: OutboundChannel)
    requires
        recipients_of(channels).no_duplicates(),
        0 <= i < channels.len(),
        c.recipient == channels[i].recipient,
    ensures
        ({
            let t = channels.update(i, c);
            &&& recipients_of(t) == recipients_of(channels)
            &&& forall|p: ParaId| #[trigger] held(t, p) <==> held(channels, p)
            &&& forall|p: ParaId|
                held(channels, p) ==> #[trigger] channel_of(t, p) == (if p == c.recipient {
                    c
                } else {
                    channel_of(channels, p)
                })
        }),
{
    let t = channels.update(i, c);
    assert(recipients_of(t) =~= recipients_of(channels));
    lemma_slot(channels, i);
    assert forall|p: ParaId| held(channels, p) implies #[trigger] channel_of(t, p) == (if p
        == c.recipient {
        c
    } else {
        channel_of(channels, p)
    }) by {
        lemma_held(channels, p);
    }
}

/// A record for a new recipient, put last, leaves the other places as
/// they were.
pub proof fn lemma_places_after_push(channels: Seq<OutboundChannel>, c: OutboundChannel)
    requires
        recipients_of(channels).no_duplicates(),
        !held(channels, c.recipient),
    ensures
        ({
            let t = channels.push(c);
            &&& recipients_of(t).no_duplicates()
            &&& slot_of(t, c.recipient) == channels.len()
            &&& forall|p: ParaId| #[trigger] held(t, p) <==> held(channels, p) || p == c.recipient
            &&& forall|p: ParaId|
                held(t, p) ==> #[trigger] channel_of(t, p) == (if p == c.recipient {
                    c
                } else {
                    channel_of(channels, p)
                })
        }),
{
    let t = channels.push(c);
    let r = recipients_of(channels);
    let q = recipients_of(t);
    assert(q =~= r.push(c.recipient));
    assert forall|a: int, b: int| 0 <= a < q.len() && 0 <= b < q.len() && a != b implies q[a]
        != q[b] by {
        if a < r.len() {
            assert(r[a] == q[a]);
        }
        if b < r.len() {
            assert(r[b] == q[b]);
        }
    }
    lemma_slot(t, channels.len() as int);
    assert forall|p: ParaId| #[trigger] held(t, p) <==> held(channels, p) || p
        == c.recipient by {
        if held(channels, p) {
            lemma_held(channels, p);
            assert(q[slot_of(channels, p)] == p);
        }
        if held(t, p) && p != c.recipient {
            lemma_held(t, p);
            assert(r[slot_of(t, p)] == p);
        }
    }
    assert forall|p: ParaId| held(t, p) implies #[trigger] channel_of(t, p) == (if p
        == c.recipient {
        c
    } else {
        channel_of(channels, p)
    }) by {
        if p != c.recipient {
            lemma_held(channels, p);
            lemma_slot(t, slot_of(channels, p));
        }
    }
}

/// Taking a record out leaves the other records to be found as before.
pub proof fn lemma_places_after_remove(channels: Seq<OutboundChannel>, i: int)
    requires
        recipients_of(channels).no_duplicates(),
        0 <= i < channels.len(),
    ensures
        ({
            let t = channels.remove(i);
            &&& recipients_of(t).no_duplicates()
            &&& forall|p: ParaId| #[trigger]
                held(t, p) <==> held(channels, p) && p != channels[i].recipient
            &&& forall|p: ParaId|
                held(t, p) ==> #[trigger] channel_of(t, p) == channel_of(channels, p)
        }),
{
    let t = channels.remove(i);
    let r = recipients_of(channels);
    let q = recipients_of(t);
    assert(q =~= r.remove(i));
    assert forall|a: int, b: int| 0 <= a < q.len() && 0 <= b < q.len() && a != b implies q[a]
        != q[b] by {
        let a0 = if a < i { a } else { a + 1 };
        let b0 = if b < i { b } else { b + 1 };
        assert(q[a] == r[a0] && q[b] == r[b0]);
    }
    assert forall|p: ParaId| #[trigger]
        held(t, p) <==> held(channels, p) && p != channels[i].recipient by {
        if held(t, p) {
            lemma_held(t, p);
            let a = slot_of(t, p);
            let a0 = if a < i { a } else { a + 1 };
            assert(r[a0] == p);
            assert(r[i] == channels[i].recipient);
        }
        if held(channels, p) && p != channels[i].recipient {
            lemma_held(channels, p);
            let a0 = slot_of(channels, p);
            let a = if a0 < i { a0 } else { a0 - 1 };
            assert(q[a] == p);
        }
    }
    assert forall|p: ParaId| held(t, p) implies #[trigger] channel_of(t, p) == channel_of(
        channels,
        p,
    ) by {
        lemma_held(t, p);
        let a = slot_of(t, p);
        let a0 = if a < i { a } else { a + 1 };
        lemma_slot(channels, a0);
    }
}

/// Dropping the records without a reason to stay leaves the others to be
/// found as before.
pub proof fn lemma_places_after_retain(channels: Seq<OutboundChannel>)
    requires
        recipients_of(channels).no_duplicates(),
    ensures
        ({
            let t = retained(channels);
            &&& t.len() <= channels.len()
            &&& recipients_of(t).no_duplicates()
            &&& forall|i: int| 0 <= i < t.len() ==> worth_keeping(#[trigger] t[i])
            &&& forall|p: ParaId| #[trigger]
                held(t, p) <==> held(channels, p) && worth_keeping(channel_of(channels, p))
            &&& forall|p: ParaId|
                held(t, p) ==> #[trigger] channel_of(t, p) == channel_of(channels, p)
        }),
    decreases channels.len(),
{
    let t = retained(channels);
    if channels.len() == 0 {
        assert forall|p: ParaId| !(#[trigger] held(t, p)) by {
            if held(t, p) {
                lemma_held(t, p);
            }
        }
    } else {
        let d = channels.drop_last();
        let c = channels.last();
        let u = retained(d);
        assert(recipients_of(d) =~= recipients_of(channels).drop_last());
        assert(recipients_of(d).no_duplicates());
        lemma_places_after_retain(d);
        assert(channels =~= d.push(c));
        assert(!held(d, c.recipient)) by {
            if held(d, c.recipient) {
                lemma_held(d, c.recipient);
                let a = slot_of(d, c.recipient);
                assert(recipients_of(channels)[a] == c.recipient);
                assert(recipients_of(channels)[channels.len() - 1] == c.recipient);
            }
        }
        lemma_places_after_push(d, c);
        if worth_keeping(c) {
            lemma_places_after_push(u, c);
            assert forall|i: int| 0 <= i < t.len() implies worth_keeping(#[trigger] t[i]) by {
                if i < u.len() {
                    assert(t[i] == u[i]);
                }
            }
        }
        assert forall|p: ParaId| #[trigger]
            held(t, p) <==> held(channels, p) && worth_keeping(channel_of(channels, p)) by {
            assert(held(u, p) <==> held(d, p) && worth_keeping(channel_of(d, p)));
            assert(held(channels, p) <==> held(d, p) || p == c.recipient);
        }
        assert forall|p: ParaId| held(t, p) implies #[trigger] channel_of(t, p) == channel_of(
            channels,
            p,
        ) by {
            assert(held(u, p) <==> held(d, p) && worth_keeping(channel_of(d, p)));
            assert(held(channels, p) <==> held(d, p) || p == c.recipient);
        }
    }
}

/// Turning the list leaves every record to be found as before.
pub proof fn lemma_places_after_rotate(channels: Seq<OutboundChannel>, k: int)
    requires
        recipients_of(channels).no_duplicates(),
        0 <= k <= channels.len(),
    ensures
        ({
            let t = rotate_left(channels, k);
            &&& t.len() == channels.len()
            &&& recipients_of(t).no_duplicates()
            &&& forall|i: int|
                0 <= i < t.len() ==> #[trigger] t[i] == channels[if i < channels.len() - k {
                    i + k
                } else {
                    i - (channels.len() - k)
                }]
            &&& forall|p: ParaId| #[trigger] held(t, p) <==> held(channels, p)
            &&& forall|p: ParaId|
                held(t, p) ==> #[trigger] channel_of(t, p) == channel_of(channels, p)
        }),
{
    let t = rotate_left(channels, k);
    let n = channels.len() as int;
    let r = recipients_of(channels);
    let q = recipients_of(t);
    let back = |i: int| if i < n - k { i + k } else { i - (n - k) };
    let forth = |i: int| if i < k { i + (n - k) } else { i - k };
    assert forall|i: int| 0 <= i < t.len() implies #[trigger] t[i] == channels[back(i)] by {}
    assert forall|a: int, b: int| 0 <= a < q.len() && 0 <= b < q.len() && a != b implies q[a]
        != q[b] by {
        assert(q[a] == r[back(a)] && q[b] == r[back(b)]);
    }
    assert forall|p: ParaId| #[trigger] held(t, p) <==> held(channels, p) by {
        if held(t, p) {
            lemma_held(t, p);
            assert(r[back(slot_of(t, p))] == p);
        }
        if held(channels, p) {
            lemma_held(channels, p);
            let a = forth(slot_of(channels, p));
            assert(t[a] == channels[back(a)]);
            assert(q[a] == p);
        }
    }
    assert forall|p: ParaId| held(t, p) implies #[trigger] channel_of(t, p) == channel_of(
        channels,
        p,
    ) by {
        lemma_held(t, p);
        lemma_slot(channels, back(slot_of(t, p)));
    }
}

impl OutboundState {
    /// Queueing a fragment keeps the invariant.
    pub proof fn lemma_send_fragment_wf(
        self,
        max: Option<usize>,
        recipient: ParaId,
        format: Format,
        data: Seq<u8>,
    )
        requires
            self.wf(),
        ensures
            self.send_fragment(max, recipient, format, data).0.wf(),
    {
        let t = self.send_fragment(max, recipient, format, data).0;
        if max is Some && data.len() <= max->0 {
            let m = max->0;
            if self.appendable(recipient, format, data.len(), m) {
                let key = self.newest_key(recipient);
                assert forall|k: (u32, u32)| #[trigger]
                    t.pages.contains_key(k) <==> t.in_ring(k) by {
                    assert(self.pages.contains_key(k) <==> self.in_ring(k));
                }
                assert forall|k: (u32, u32)| #[trigger]
                    t.pages.contains_key(k) implies data_page_wf(t.pages[k]) by {
                    assert(self.pages.contains_key(k));
                    assert(data_page_wf(self.pages[k]));
                    if k == key {
                        assert(t.pages[k][0] == self.pages[k][0]);
                    }
                }
            } else if self.holds(recipient) && self.channel(recipient).last_index == u16::MAX {
            } else {
                let with = self.with_channel(recipient);
                if !self.holds(recipient) {
                    lemma_places_after_push(self.channels, fresh_channel(recipient));
                }
                lemma_held(with.channels, recipient);
                let i = with.slot(recipient);
                let c = with.channels[i];
                let opened = OutboundChannel { last_index: (c.last_index + 1) as u16, ..c };
                lemma_places_after_update(with.channels, i, opened);
                assert(ring_in_order(c)) by {
                    if i < self.channels.len() {
                        assert(c == self.channels[i]);
                    }
                }
                assert forall|k: int| 0 <= k < t.channels.len() implies ring_in_order(
                    #[trigger] t.channels[k],
                ) && worth_keeping(t.channels[k]) by {
                    if k != i && k < self.channels.len() {
                        assert(t.channels[k] == self.channels[k]);
                        assert(worth_keeping(self.channels[k]));
                    }
                }
                assert forall|k: (u32, u32)| #[trigger]
                    t.pages.contains_key(k) <==> t.in_ring(k) by {
                    assert(self.pages.contains_key(k) <==> self.in_ring(k));
                    assert(t.holds(k.0) <==> with.holds(k.0));
                }
                assert forall|k: (u32, u32)| #[trigger]
                    t.pages.contains_key(k) implies data_page_wf(t.pages[k]) by {
                    if k == (recipient, c.last_index as u32) {
                        assert(t.pages[k][0] == format_tag(format));
                    } else {
                        assert(self.pages.contains_key(k));
                    }
                }
                assert forall|p: u32| #[trigger]
                    t.signals.contains_key(p) <==> t.holds(p) && t.channel(p).signals_exist by {
                    assert(self.signals.contains_key(p) <==> self.holds(p) && self.channel(
                        p,
                    ).signals_exist);
                    assert(t.holds(p) <==> with.holds(p));
                }
            }
        }
    }

    /// Serving one record keeps the state consistent and every record in
    /// its place.
    pub proof fn lemma_collect_one_consistent(self, i: int, status: ChannelStatus)
        requires
            self.consistent(),
            0 <= i < self.channels.len(),
        ensures
            self.collect_one(i, status).0.consistent(),
            self.collect_one(i, status).0.recipients() == self.recipients(),
            self.collect_one(i, status).0.channels.len() == self.channels.len(),
    {
        let t = self.collect_one(i, status).0;
        let c = self.channels[i];
        lemma_slot(self.channels, i);
        assert(ring_in_order(c));
        if t != self {
            let d = t.channels[i];
            assert(t.channels == self.channels.update(i, d));
            lemma_places_after_update(self.channels, i, d);
            assert forall|k: int| 0 <= k < t.channels.len() implies ring_in_order(
                #[trigger] t.channels[k],
            ) by {
                if k != i {
                    assert(t.channels[k] == self.channels[k]);
                }
            }
            assert forall|k: (u32, u32)| #[trigger]
                t.pages.contains_key(k) <==> t.in_ring(k) by {
                assert(self.pages.contains_key(k) <==> self.in_ring(k));
                assert(t.holds(k.0) <==> self.holds(k.0));
            }
            assert forall|k: (u32, u32)| #[trigger]
                t.pages.contains_key(k) implies data_page_wf(t.pages[k]) by {
                assert(self.pages.contains_key(k));
            }
            assert forall|p: u32| #[trigger]
                t.signals.contains_key(p) <==> t.holds(p) && t.channel(p).signals_exist by {
                assert(self.signals.contains_key(p) <==> self.holds(p) && self.channel(
                    p,
                ).signals_exist);
                assert(t.holds(p) <==> self.holds(p));
            }
            assert forall|p: u32| #[trigger]
                t.signals.contains_key(p) implies signal_page_wf(t.signals[p]) by {
                assert(self.signals.contains_key(p));
            }
        }
    }

    /// Walking the records keeps the state consistent and every record in
    /// its place, and takes no more pages than the limit and than records
    /// walked.
    pub proof fn lemma_collect_upto_consistent(
        self,
        answers: Seq<ChannelStatus>,
        limit: nat,
        n: nat,
    )
        requires
            self.consistent(),
            n <= self.channels.len(),
        ensures
            self.collect_upto(answers, limit, n).state.consistent(),
            self.collect_upto(answers, limit, n).state.recipients() == self.recipients(),
            self.collect_upto(answers, limit, n).state.channels.len() == self.channels.len(),
            self.collect_upto(answers, limit, n).taken.len() <= n,
            self.collect_upto(answers, limit, n).taken.len() <= limit,
        decreases n,
    {
        if n > 0 {
            self.lemma_collect_upto_consistent(answers, limit, (n - 1) as nat);
            let before = self.collect_upto(answers, limit, (n - 1) as nat);
            if before.taken.len() < limit {
                before.state.lemma_collect_one_consistent(n - 1, answers[n - 1]);
            }
        }
    }

    /// A poll keeps the invariant.
    pub proof fn lemma_take_outbound_wf(self, answers: Seq<ChannelStatus>, max_channels: usize)
        requires
            self.consistent(),
        ensures
            self.take_outbound(answers, max_channels).0.wf(),
    {
        let limit = if self.channels.len() <= max_channels {
            self.channels.len()
        } else {
            max_channels as nat
        };
        self.lemma_collect_upto_consistent(answers, limit, self.channels.len());
        let walked = self.collect_upto(answers, limit, self.channels.len());
        let w = walked.state;
        let kept = w.kept();
        lemma_places_after_retain(w.channels);
        let pruned = w.channels.len() - kept.len();
        let turn = if walked.taken.len() >= pruned {
            walked.taken.len() - pruned
        } else {
            0
        };
        lemma_places_after_rotate(kept, turn);
        let t = self.take_outbound(answers, max_channels).0;
        assert(t.channels == rotate_left(kept, turn));
        assert forall|p: ParaId| t.holds(p) implies w.holds(p) && worth_keeping(w.channel(p))
            && t.channel(p) == w.channel(p) by {
            assert(held(kept, p));
        }
        assert forall|p: ParaId| w.holds(p) && worth_keeping(w.channel(p)) implies t.holds(
            p,
        ) by {
            assert(held(kept, p));
        }
        assert forall|k: int| 0 <= k < t.channels.len() implies ring_in_order(
            #[trigger] t.channels[k],
        ) && worth_keeping(t.channels[k]) by {
            lemma_slot(t.channels, k);
            let p = t.channels[k].recipient;
            assert(t.holds(p));
            lemma_held(w.channels, p);
            assert(ring_in_order(w.channels[w.slot(p)]));
        }
        assert forall|key: (u32, u32)| #[trigger]
            t.pages.contains_key(key) <==> t.in_ring(key) by {
            assert(w.pages.contains_key(key) <==> w.in_ring(key));
            if w.in_ring(key) {
                assert(worth_keeping(w.channel(key.0)));
            }
        }
        assert forall|p: u32| #[trigger]
            t.signals.contains_key(p) <==> t.holds(p) && t.channel(p).signals_exist by {
            assert(w.signals.contains_key(p) <==> w.holds(p) && w.channel(p).signals_exist);
            if w.holds(p) && w.channel(p).signals_exist {
                assert(worth_keeping(w.channel(p)));
            }
        }
    }

    /// The walk of the first `n` records depends on the answers for those
    /// records only.
    pub proof fn lemma_collect_upto_agrees(
        self,
        a: Seq<ChannelStatus>,
        b: Seq<ChannelStatus>,
        limit: nat,
        n: nat,
    )
        requires
            forall|k: int| 0 <= k < n ==> a[k] == b[k],
        ensures
            self.collect_upto(a, limit, n) == self.collect_upto(b, limit, n),
        decreases n,
    {
        if n > 0 {
            self.lemma_collect_upto_agrees(a, b, limit, (n - 1) as nat);
        }
    }

    /// Once the limit is reached, walking further changes nothing.
    pub proof fn lemma_collect_upto_full(
        self,
        answers: Seq<ChannelStatus>,
        limit: nat,
        m: nat,
        n: nat,
    )
        requires
            m <= n,
            self.collect_upto(answers, limit, m).taken.len() >= limit,
        ensures
            self.collect_upto(answers, limit, n) == self.collect_upto(answers, limit, m),
        decreases n,
    {
        if n > m {
            self.lemma_collect_upto_full(answers, limit, m, (n - 1) as nat);
        }
    }

    /// A fragment joins only a page that carries its own format, and no
    /// page ever changes its tag: after a fragment of `format` was queued, the
    /// page that took it begins with the tag of `format` and ends with the
    /// fragment; it is the newest page of the recipient; every other page is
    /// as it was, and the page itself has only grown at its end.
    pub proof fn lemma_send_fragment_homogeneous(
        self,
        max: Option<usize>,
        recipient: ParaId,
        format: Format,
        data: Seq<u8>,
    )
        requires
            self.wf(),
            self.send_fragment(max, recipient, format, data).1 is Ok,
        ensures
            ({
                let after = self.send_fragment(max, recipient, format, data).0;
                let key = after.newest_key(recipient);
                &&& after.holds(recipient)
                &&& after.pages.contains_key(key)
                &&& after.pages[key][0] == format_tag(format)
                &&& after.pages[key] == (if self.pages.contains_key(key) {
                    self.pages[key] + data
                } else {
                    seq![format_tag(format)] + data
                })
                &&& forall|other: (u32, u32)|
                    other != key ==> (#[trigger] after.pages.contains_key(other)
                        <==> self.pages.contains_key(other))
                &&& forall|other: (u32, u32)|
                    other != key && self.pages.contains_key(other) ==> #[trigger] after.pages[other]
                        == self.pages[other]
            }),
    {
        let after = self.send_fragment(max, recipient, format, data).0;
        let m = max->0;
        if self.appendable(recipient, format, data.len(), m) {
        } else {
            let with = self.with_channel(recipient);
            if !self.holds(recipient) {
                lemma_places_after_push(self.channels, fresh_channel(recipient));
            }
            lemma_held(with.channels, recipient);
            let i = with.slot(recipient);
            let c = with.channels[i];
            let opened = OutboundChannel { last_index: (c.last_index + 1) as u16, ..c };
            lemma_places_after_update(with.channels, i, opened);
            assert(after.channel(recipient) == opened);
            let key = (recipient, c.last_index as u32);
            assert(!self.pages.contains_key(key)) by {
                if self.pages.contains_key(key) {
                    assert(self.in_ring(key));
                }
            }
        }
    }

    /// A control code that is queued is the last code of the recipient's
    /// signal page, behind those that waited, and the recipient's record
    /// says that a signal waits.
    pub proof fn lemma_send_signal_queued(self, recipient: ParaId, signal: ChannelSignal)
        requires
            self.wf(),
        ensures
            ({
                let after = self.send_signal(recipient, signal);
                &&& after.holds(recipient)
                &&& after.channel(recipient).signals_exist
                &&& after.signals.contains_key(recipient)
                &&& after.signals[recipient].last() == signal_code(signal)
                &&& self.signals.contains_key(recipient) ==> after.signals[recipient]
                    == self.signals[recipient].push(signal_code(signal))
            }),
    {
        self.lemma_send_signal_wf(recipient, signal);
        let after = self.send_signal(recipient, signal);
        let page = self.signal_page_with(recipient, signal);
        assert(after.signals.contains_key(recipient));
        assert(after.signals[recipient] == page);
        if self.signals.contains_key(recipient) {
            assert(signal_page_wf(self.signals[recipient]));
            assert(page.last() == signal_code(signal));
        } else {
            assert(page[1] == signal_code(signal));
        }
    }

    /// Queueing a control code keeps the invariant.
    pub proof fn lemma_send_signal_wf(self, recipient: ParaId, signal: ChannelSignal)
        requires
            self.wf(),
        ensures
            self.send_signal(recipient, signal).wf(),
            self.send_signal(recipient, signal).holds(recipient),
    {
        let with = self.with_channel(recipient);
        if !self.holds(recipient) {
            lemma_places_after_push(self.channels, fresh_channel(recipient));
        }
        lemma_held(with.channels, recipient);
        let i = with.slot(recipient);
        let c = OutboundChannel { signals_exist: true, ..with.channels[i] };
        lemma_places_after_update(with.channels, i, c);
        let t = self.send_signal(recipient, signal);
        let page = self.signal_page_with(recipient, signal);
        assert(signal_page_wf(page)) by {
            assert(signal_of_code(signal_code(signal)) is Some);
            if self.signals.contains_key(recipient) && self.signals[recipient].len() > 0 {
                let old_page = self.signals[recipient];
                assert(signal_page_wf(old_page));
                assert forall|k: int| 1 <= k < page.len() implies signal_of_code(
                    #[trigger] page[k],
                ) is Some by {
                    if k < old_page.len() {
                        assert(page[k] == old_page[k]);
                    }
                }
            }
        }
        assert forall|k: int| 0 <= k < t.channels.len() implies ring_in_order(
            #[trigger] t.channels[k],
        ) && worth_keeping(t.channels[k]) by {
            if k != i && k < self.channels.len() {
                assert(t.channels[k] == self.channels[k]);
                assert(worth_keeping(self.channels[k]));
            }
        }
        assert forall|key: (u32, u32)| #[trigger]
            t.pages.contains_key(key) <==> t.in_ring(key) by {
            assert(self.pages.contains_key(key) <==> self.in_ring(key));
            assert(t.holds(key.0) <==> with.holds(key.0));
        }
        assert forall|p: u32| #[trigger]
            t.signals.contains_key(p) <==> t.holds(p) && t.channel(p).signals_exist by {
            assert(self.signals.contains_key(p) <==> self.holds(p) && self.channel(
                p,
            ).signals_exist);
            assert(t.holds(p) <==> with.holds(p));
        }
    }

    /// Suspending a channel keeps the invariant.
    pub proof fn lemma_suspend_channel_wf(self, target: ParaId)
        requires
            self.wf(),
        ensures
            self.suspend_channel(target).wf(),
    {
        let t = self.suspend_channel(target);
        if self.holds(target) {
            lemma_held(self.channels, target);
            let i = self.slot(target);
            let c = OutboundChannel { state: OutboundStatus::Suspended, ..self.channels[i] };
            lemma_places_after_update(self.channels, i, c);
        } else {
            lemma_places_after_push(
                self.channels,
                OutboundChannel { state: OutboundStatus::Suspended, ..fresh_channel(target) },
            );
        }
        assert forall|k: int| 0 <= k < t.channels.len() implies ring_in_order(
            #[trigger] t.channels[k],
        ) && worth_keeping(t.channels[k]) by {
            if k < self.channels.len() {
                assert(ring_in_order(self.channels[k]) && worth_keeping(self.channels[k]));
            }
        }
        assert forall|key: (u32, u32)| #[trigger]
            t.pages.contains_key(key) <==> t.in_ring(key) by {
            assert(self.pages.contains_key(key) <==> self.in_ring(key));
            assert(t.holds(key.0) <==> self.holds(key.0) || key.0 == target);
        }
        assert forall|p: u32| #[trigger]
            t.signals.contains_key(p) <==> t.holds(p) && t.channel(p).signals_exist by {
            assert(self.signals.contains_key(p) <==> self.holds(p) && self.channel(
                p,
            ).signals_exist);
            assert(t.holds(p) <==> self.holds(p) || p == target);
        }
    }

    /// Resuming a channel keeps the invariant.
    pub proof fn lemma_resume_channel_wf(self, target: ParaId)
        requires
            self.wf(),
        ensures
            self.resume_channel(target).wf(),
    {
        let t = self.resume_channel(target);
        if self.holds(target) {
            lemma_held(self.channels, target);
            let i = self.slot(target);
            let c = self.channels[i];
            if c.first_index == c.last_index && !c.signals_exist {
                lemma_places_after_remove(self.channels, i);
                assert forall|k: int| 0 <= k < t.channels.len() implies ring_in_order(
                    #[trigger] t.channels[k],
                ) && worth_keeping(t.channels[k]) by {
                    let k0 = if k < i { k } else { k + 1 };
                    assert(t.channels[k] == self.channels[k0]);
                }
            } else {
                lemma_places_after_update(
                    self.channels,
                    i,
                    OutboundChannel { state: OutboundStatus::Active, ..c },
                );
                assert forall|k: int| 0 <= k < t.channels.len() implies ring_in_order(
                    #[trigger] t.channels[k],
                ) && worth_keeping(t.channels[k]) by {
                    assert(ring_in_order(self.channels[k]) && worth_keeping(self.channels[k]));
                }
            }
            assert forall|key: (u32, u32)| #[trigger]
                t.pages.contains_key(key) <==> t.in_ring(key) by {
                assert(self.pages.contains_key(key) <==> self.in_ring(key));
                assert(t.holds(key.0) <==> self.holds(key.0) && (key.0 != target || t.holds(
                    target,
                )));
            }
            assert forall|p: u32| #[trigger]
                t.signals.contains_key(p) <==> t.holds(p) && t.channel(p).signals_exist by {
                assert(self.signals.contains_key(p) <==> self.holds(p) && self.channel(
                    p,
                ).signals_exist);
                assert(t.holds(p) <==> self.holds(p) && (p != target || t.holds(target)));
            }
        }
    }
}

} // verus!
