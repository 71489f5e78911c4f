use parity_scale_codec::Encode;
use std::collections::HashMap;
use xcmp_queue::inbound_state::InboundChannel;
use xcmp_queue::outbound_state::OutboundChannel;
use xcmp_queue::queue::Module;
use xcmp_queue::types::{
    ChannelSignal, ChannelStatus, Config, Event, EventKind, InboundStatus, Junction,
    MessageSendError, OutboundStatus, Outcome, XcmError, XcmpMessageFormat,
};

struct Host {
    hash: Vec<u8>,
    sizes: HashMap<u32, usize>,
    states: HashMap<u32, ChannelStatus>,
    cost: u64,
    calls: Vec<(u32, Vec<u8>, u64)>,
    asked: Vec<u32>,
}

impl Host {
    fn new() -> Host {
        Host {
            hash: Vec::new(),
            sizes: HashMap::new(),
            states: HashMap::new(),
            cost: 1000,
            calls: Vec::new(),
            asked: Vec::new(),
        }
    }

    fn with_channel(mut self, id: u32, max: usize) -> Host {
        self.sizes.insert(id, max);
        self.states.insert(id, ChannelStatus::Ready(max + 1, max));
        self
    }
}

impl Config for Host {
    fn parent_hash(&self) -> Vec<u8> {
        self.hash.clone()
    }

    fn execute_xcm(&mut self, origin: u32, message: &Vec<u8>, weight_limit: u64) -> Outcome {
        self.calls.push((origin, message.clone(), weight_limit));
        if message.first() == Some(&0xff) {
            Outcome::Error(XcmError::UnhandledXcmVersion)
        } else if message.first() == Some(&0xfe) {
            Outcome::Incomplete(self.cost, XcmError::FailedToExecute(7))
        } else if self.cost > weight_limit {
            Outcome::Error(XcmError::WeightLimitReached)
        } else {
            Outcome::Complete(self.cost)
        }
    }

    fn handle_blob(
        &mut self,
        _sender: u32,
        _sent_at: u32,
        _blob: &Vec<u8>,
        _weight_limit: u64,
    ) -> Result<u64, bool> {
        Err(false)
    }

    fn get_channel_max(&self, id: u32) -> Option<usize> {
        self.sizes.get(&id).copied()
    }

    fn get_channel_status(&self, id: u32) -> ChannelStatus {
        match self.states.get(&id) {
            Some(status) => *status,
            None => ChannelStatus::Closed,
        }
    }
}

fn xcm_page(messages: &[Vec<u8>]) -> Vec<u8> {
    let mut page = vec![0u8];
    for m in messages {
        page.extend_from_slice(&m.encode());
    }
    page
}

fn outbound(recipient: u32, state: OutboundStatus, signals: bool, first: u16, last: u16) -> OutboundChannel {
    OutboundChannel {
        recipient,
        state,
        signals_exist: signals,
        first_index: first,
        last_index: last,
    }
}

#[test]
fn page_packing_fills_a_page_then_opens_the_next() {
    let host = Host::new().with_channel(7, 100);
    let mut queue = Module::new();
    let fragment = vec![9u8; 30];
    let xcm = XcmpMessageFormat::ConcatenatedVersionedXcm;
    assert_eq!(queue.send_fragment(&host, 7, xcm, &fragment), Ok(0));
    assert_eq!(queue.send_fragment(&host, 7, xcm, &fragment), Ok(0));
    assert_eq!(queue.send_fragment(&host, 7, xcm, &fragment), Ok(0));
    let page = queue.outbound_message(7, 0).unwrap();
    assert_eq!(page.len(), 91);
    assert_eq!(page[0], 0);
    assert_eq!(&page[1..], &vec![9u8; 90][..]);
    assert_eq!(queue.send_fragment(&host, 7, xcm, &fragment), Ok(1));
    let record = queue.outbound_status()[0];
    assert_eq!(record.last_index - record.first_index, 2);
    assert_eq!(queue.outbound_message(7, 1).unwrap().len(), 31);
    assert_eq!(record, outbound(7, OutboundStatus::Active, false, 0, 2));
}

#[test]
fn fragment_of_another_format_opens_a_new_page() {
    let host = Host::new().with_channel(7, 100);
    let mut queue = Module::new();
    assert_eq!(
        queue.send_fragment(&host, 7, XcmpMessageFormat::ConcatenatedVersionedXcm, &vec![1u8; 4]),
        Ok(0)
    );
    assert_eq!(
        queue.send_fragment(&host, 7, XcmpMessageFormat::ConcatenatedEncodedBlob, &vec![2u8; 4]),
        Ok(1)
    );
    assert_eq!(queue.outbound_message(7, 0).unwrap(), &vec![0u8, 1, 1, 1, 1]);
    assert_eq!(queue.outbound_message(7, 1).unwrap(), &vec![1u8, 2, 2, 2, 2]);
}

#[test]
fn fragment_for_an_unknown_recipient_is_refused() {
    let host = Host::new();
    let mut queue = Module::new();
    assert_eq!(
        queue.send_fragment(&host, 7, XcmpMessageFormat::ConcatenatedVersionedXcm, &vec![1u8]),
        Err(MessageSendError::NoChannel)
    );
    assert!(queue.outbound_status().is_empty());
}

#[test]
fn fragment_longer_than_a_page_is_refused() {
    let host = Host::new().with_channel(7, 10);
    let mut queue = Module::new();
    assert_eq!(
        queue.send_fragment(&host, 7, XcmpMessageFormat::ConcatenatedVersionedXcm, &vec![1u8; 11]),
        Err(MessageSendError::TooBig)
    );
    assert_eq!(
        queue.send_fragment(&host, 7, XcmpMessageFormat::ConcatenatedVersionedXcm, &vec![1u8; 10]),
        Ok(0)
    );
    assert_eq!(queue.outbound_message(7, 0).unwrap().len(), 11);
}

#[test]
fn ring_that_used_up_its_indices_is_full() {
    let host = Host::new().with_channel(7, 1);
    let mut queue = Module::new();
    for i in 0..65535u32 {
        assert_eq!(
            queue.queue_fragment(Some(1), 7, XcmpMessageFormat::ConcatenatedEncodedBlob, &vec![3u8]),
            Ok(i)
        );
    }
    assert_eq!(queue.outbound_status()[0].last_index, 65535);
    assert_eq!(
        queue.send_fragment(&host, 7, XcmpMessageFormat::ConcatenatedEncodedBlob, &vec![3u8]),
        Err(MessageSendError::QueueFull)
    );
}

#[test]
fn blob_and_xcm_messages_are_framed() {
    let host = Host::new().with_channel(7, 100);
    let mut queue = Module::new();
    assert_eq!(queue.send_blob_message(&host, 7, vec![5u8, 6]), Ok(0));
    assert_eq!(queue.send_xcm_message(&host, 7, vec![7u8, 8, 9]), Ok(1));
    assert_eq!(queue.send_xcm_message(&host, 7, vec![1u8]), Ok(1));
    assert_eq!(queue.outbound_message(7, 0).unwrap(), &vec![1u8, 8, 5, 6]);
    assert_eq!(queue.outbound_message(7, 1).unwrap(), &vec![0u8, 12, 7, 8, 9, 4, 1]);
}

#[test]
fn send_xcm_reaches_siblings_only() {
    let host = Host::new().with_channel(7, 100);
    let mut queue = Module::new();
    let sibling = vec![Junction::Parent, Junction::Parachain { id: 7 }];
    assert_eq!(queue.send_xcm(&host, &sibling, vec![1u8, 2]), Ok(()));
    assert_eq!(queue.outbound_message(7, 0).unwrap(), &vec![0u8, 8, 1, 2]);
    assert_eq!(
        queue.events(),
        &vec![Event { kind: EventKind::XcmpMessageSent, payload: vec![1u8, 2] }]
    );
    let stranger = vec![Junction::Parent, Junction::Parachain { id: 8 }];
    assert_eq!(
        queue.send_xcm(&host, &stranger, vec![1u8]),
        Err(XcmError::SendFailed(MessageSendError::NoChannel))
    );
    assert_eq!(
        queue.send_xcm(&host, &vec![Junction::Parent], vec![1u8]),
        Err(XcmError::CannotReachDestination)
    );
    assert_eq!(
        queue.send_xcm(&host, &vec![Junction::Parachain { id: 7 }, Junction::Parent], vec![1u8]),
        Err(XcmError::CannotReachDestination)
    );
    assert_eq!(queue.take_events().len(), 1);
    assert!(queue.events().is_empty());
}

#[test]
fn signals_share_one_page() {
    let mut queue = Module::new();
    assert_eq!(queue.send_signal(3, ChannelSignal::Suspend), Ok(()));
    assert_eq!(queue.signal_message(3).unwrap(), &vec![2u8, 0]);
    assert_eq!(queue.send_signal(3, ChannelSignal::Resume), Ok(()));
    assert_eq!(queue.signal_message(3).unwrap(), &vec![2u8, 0, 1]);
    assert_eq!(queue.outbound_status(), &vec![outbound(3, OutboundStatus::Active, true, 0, 0)]);
}

#[test]
fn inbound_suspend_and_hard_limit() {
    let mut queue = Module::new();
    let batch = xcm_page(&[vec![1u8]]);
    queue.receive_batch(5, 10, &batch);
    queue.receive_batch(5, 11, &batch);
    assert_eq!(queue.inbound_status()[0].state, InboundStatus::Active);
    assert_eq!(queue.signal_message(5), None);
    queue.receive_batch(5, 12, &batch);
    assert_eq!(queue.inbound_status()[0].state, InboundStatus::Suspended);
    assert_eq!(queue.signal_message(5).unwrap(), &vec![2u8, 0]);
    queue.receive_batch(5, 13, &batch);
    queue.receive_batch(5, 14, &batch);
    assert_eq!(queue.inbound_status()[0].pages.len(), 5);
    queue.receive_batch(5, 15, &batch);
    assert_eq!(queue.inbound_status()[0].pages.len(), 5);
    assert_eq!(queue.inbound_message(5, 15), None);
    assert_eq!(queue.inbound_message(5, 14).unwrap(), &vec![4u8, 1]);
    // One suspend signal only, however many pages follow.
    assert_eq!(queue.signal_message(5).unwrap(), &vec![2u8, 0]);
}

#[test]
fn inbound_records_stay_in_order_of_sender() {
    let mut queue = Module::new();
    let batch = xcm_page(&[vec![1u8]]);
    queue.receive_batch(9, 1, &batch);
    queue.receive_batch(3, 1, &batch);
    queue.receive_batch(6, 1, &batch);
    queue.receive_batch(3, 2, &batch);
    let senders: Vec<u32> = queue.inbound_status().iter().map(|c| c.sender).collect();
    assert_eq!(senders, vec![3, 6, 9]);
    assert_eq!(
        queue.inbound_status()[0],
        InboundChannel {
            sender: 3,
            state: InboundStatus::Active,
            pages: vec![
                (1, XcmpMessageFormat::ConcatenatedVersionedXcm),
                (2, XcmpMessageFormat::ConcatenatedVersionedXcm)
            ],
        }
    );
}

#[test]
fn batch_with_unknown_tag_is_dropped() {
    let mut queue = Module::new();
    queue.receive_batch(5, 1, &vec![3u8, 1, 2]);
    queue.receive_batch(5, 1, &Vec::new());
    assert!(queue.inbound_status().is_empty());
    assert_eq!(queue.inbound_message(5, 1), None);
}

#[test]
fn received_signals_suspend_and_resume_our_sending() {
    let mut queue = Module::new();
    queue.receive_batch(5, 1, &vec![2u8, 0]);
    assert_eq!(queue.outbound_status(), &vec![outbound(5, OutboundStatus::Suspended, false, 0, 0)]);
    // Resuming a channel with nothing to send drops its record.
    queue.receive_batch(5, 2, &vec![2u8, 1]);
    assert!(queue.outbound_status().is_empty());
    // A signal that waits keeps the record.
    assert_eq!(queue.send_signal(5, ChannelSignal::Suspend), Ok(()));
    queue.receive_batch(5, 3, &vec![2u8, 0, 1]);
    assert_eq!(queue.outbound_status(), &vec![outbound(5, OutboundStatus::Active, true, 0, 0)]);
    // A byte that is no control code ends the batch.
    queue.receive_batch(5, 4, &vec![2u8, 0, 9, 1]);
    assert_eq!(queue.outbound_status()[0].state, OutboundStatus::Suspended);
    assert!(queue.inbound_status().is_empty());
}

#[test]
fn dispatch_rewinds_in_front_of_a_heavy_fragment() {
    let mut host = Host::new();
    let mut queue = Module::new();
    let first = vec![1u8, 1, 1];
    let second = vec![2u8, 2];
    queue.receive_batch(5, 1, &xcm_page(&[first.clone(), second.clone()]));
    let done = queue.process_xcmp_message(
        &mut host,
        5,
        (1, XcmpMessageFormat::ConcatenatedVersionedXcm),
        1500,
    );
    assert_eq!(done, (1000, false));
    assert_eq!(queue.inbound_message(5, 1).unwrap(), &second.encode());
    assert_eq!(host.calls, vec![(5, first.clone(), 1500), (5, second.clone(), 500)]);
    assert_eq!(
        queue.events(),
        &vec![
            Event { kind: EventKind::Success, payload: first },
            Event { kind: EventKind::TooHeavy, payload: second.clone() }
        ]
    );
    // With weight enough the fragment goes through, and the page leaves.
    let done = queue.process_xcmp_message(
        &mut host,
        5,
        (1, XcmpMessageFormat::ConcatenatedVersionedXcm),
        1000,
    );
    assert_eq!(done, (1000, true));
    assert_eq!(queue.inbound_message(5, 1), None);
    assert_eq!(queue.events()[2], Event { kind: EventKind::Success, payload: second });
}

#[test]
fn service_rewinds_in_front_of_a_heavy_fragment() {
    let mut host = Host::new();
    host.cost = 1_000_000;
    let mut queue = Module::new();
    let first = vec![1u8];
    let second = vec![2u8];
    let batches = vec![(5u32, 1u32, xcm_page(&[first.clone(), second.clone()]))];
    let used = queue.handle_xcmp_messages(&mut host, &batches, 1_500_000);
    assert_eq!(used, 1_000_000);
    assert_eq!(queue.inbound_message(5, 1).unwrap(), &second.encode());
    assert_eq!(queue.inbound_status().len(), 1);
    assert_eq!(queue.inbound_status()[0].pages.len(), 1);
    let limits: Vec<u64> = host.calls.iter().map(|c| c.2).collect();
    assert_eq!(limits, vec![750_000, 1_125_000, 125_000, 312_500, 500_000]);
}

#[test]
fn service_does_nothing_at_or_below_the_threshold() {
    let mut host = Host::new();
    let mut queue = Module::new();
    queue.receive_batch(5, 1, &xcm_page(&[vec![1u8]]));
    assert_eq!(queue.service_xcmp_queue(&mut host, 100_000), 0);
    assert!(host.calls.is_empty());
    assert_eq!(queue.inbound_status().len(), 1);
    assert_eq!(queue.service_xcmp_queue(&mut host, 100_001), 1000);
    assert!(queue.inbound_status().is_empty());
}

#[test]
fn dispatch_order_follows_the_shuffle() {
    let mut host = Host::new();
    let mut queue = Module::new();
    let batches = vec![
        (1u32, 1u32, xcm_page(&[vec![0xaau8]])),
        (2u32, 1u32, xcm_page(&[vec![0xbbu8]])),
    ];
    let used = queue.handle_xcmp_messages(&mut host, &batches, 10_000_000);
    assert_eq!(used, 2000);
    // The shuffle of two places under the zero seed is [1, 0].
    let origins: Vec<u32> = host.calls.iter().map(|c| c.0).collect();
    assert_eq!(origins, vec![2, 1]);
    assert_eq!(host.calls[0].2, 5_000_000);
    assert_eq!(host.calls[1].2, 7_500_000 - 1000);
    assert!(queue.inbound_status().is_empty());
    assert_eq!(queue.inbound_message(1, 1), None);

    let mut again = Host::new();
    let mut other = Module::new();
    other.handle_xcmp_messages(&mut again, &batches, 10_000_000);
    assert_eq!(again.calls, host.calls);
}

#[test]
fn service_resumes_a_sender_whose_queue_drained() {
    let mut host = Host::new();
    let mut queue = Module::new();
    let batch = xcm_page(&[vec![1u8]]);
    let batches: Vec<(u32, u32, Vec<u8>)> = (0..3).map(|k| (5u32, k as u32, batch.clone())).collect();
    queue.receive_batches(&batches);
    assert_eq!(queue.inbound_status()[0].state, InboundStatus::Suspended);
    let used = queue.service_xcmp_queue(&mut host, 10_000_000);
    assert_eq!(used, 3000);
    assert!(queue.inbound_status().is_empty());
    assert_eq!(queue.signal_message(5).unwrap(), &vec![2u8, 0, 1]);
}

#[test]
fn failed_and_unreadable_fragments_leave_the_page() {
    let mut host = Host::new();
    let mut queue = Module::new();
    let mut page = xcm_page(&[vec![0xffu8], vec![0xfeu8, 1], vec![3u8]]);
    page.extend_from_slice(&[0x0d, 0x00, 1]);
    queue.receive_batch(5, 1, &page);
    let done = queue.process_xcmp_message(
        &mut host,
        5,
        (1, XcmpMessageFormat::ConcatenatedVersionedXcm),
        5000,
    );
    assert_eq!(done, (2000, true));
    assert_eq!(queue.inbound_message(5, 1), None);
    assert_eq!(
        queue.events(),
        &vec![
            Event { kind: EventKind::BadVersion, payload: vec![0xffu8] },
            Event { kind: EventKind::Fail(XcmError::FailedToExecute(7)), payload: vec![0xfeu8, 1] },
            Event { kind: EventKind::Success, payload: vec![3u8] },
            Event { kind: EventKind::BadFormat, payload: vec![0x0du8, 0x00, 1] }
        ]
    );
}

#[test]
fn blobs_are_not_handled_and_leave_the_page() {
    let mut host = Host::new();
    let mut queue = Module::new();
    let mut page = vec![1u8];
    page.extend_from_slice(&vec![4u8, 4].encode());
    page.extend_from_slice(&vec![5u8].encode());
    queue.receive_batch(5, 1, &page);
    let done = queue.process_xcmp_message(
        &mut host,
        5,
        (1, XcmpMessageFormat::ConcatenatedEncodedBlob),
        5000,
    );
    assert_eq!(done, (0, true));
    assert_eq!(
        queue.events(),
        &vec![
            Event { kind: EventKind::Fail(XcmError::Unimplemented), payload: vec![4u8, 4] },
            Event { kind: EventKind::Fail(XcmError::Unimplemented), payload: vec![5u8] }
        ]
    );
}

#[test]
fn closed_channel_is_purged() {
    let mut host = Host::new().with_channel(4, 100);
    let mut queue = Module::new();
    for _ in 0..3 {
        queue.send_fragment(&host, 4, XcmpMessageFormat::ConcatenatedVersionedXcm, &vec![1u8; 80]).unwrap();
    }
    queue.send_signal(4, ChannelSignal::Suspend).unwrap();
    assert_eq!(queue.outbound_status(), &vec![outbound(4, OutboundStatus::Active, true, 0, 3)]);
    host.states.insert(4, ChannelStatus::Closed);
    let result = queue.take_outbound_messages(&host, 10);
    assert!(result.is_empty());
    assert!(queue.outbound_status().is_empty());
    assert_eq!(queue.signal_message(4), None);
    for i in 0..3 {
        assert_eq!(queue.outbound_message(4, i), None);
    }
}

#[test]
fn collector_rotation_serves_each_recipient_once() {
    let host = Host::new().with_channel(10, 100).with_channel(20, 100).with_channel(30, 100);
    let mut queue = Module::new();
    for id in [20u32, 10, 30] {
        queue.send_fragment(&host, id, XcmpMessageFormat::ConcatenatedVersionedXcm, &vec![id as u8]).unwrap();
    }
    let first = queue.take_outbound_messages(&host, 1);
    let second = queue.take_outbound_messages(&host, 1);
    let third = queue.take_outbound_messages(&host, 1);
    assert_eq!(first, vec![(20u32, vec![0u8, 20])]);
    assert_eq!(second, vec![(10u32, vec![0u8, 10])]);
    assert_eq!(third, vec![(30u32, vec![0u8, 30])]);
    assert!(queue.outbound_status().is_empty());
    assert!(queue.take_outbound_messages(&host, 1).is_empty());
}

#[test]
fn collector_turns_served_recipients_to_the_end() {
    let host = Host::new().with_channel(10, 100).with_channel(20, 100).with_channel(30, 100);
    let mut queue = Module::new();
    let blob = XcmpMessageFormat::ConcatenatedEncodedBlob;
    let xcm = XcmpMessageFormat::ConcatenatedVersionedXcm;
    for id in [10u32, 20, 30] {
        queue.send_fragment(&host, id, xcm, &vec![1u8]).unwrap();
        queue.send_fragment(&host, id, blob, &vec![2u8]).unwrap();
    }
    let result = queue.take_outbound_messages(&host, 2);
    assert_eq!(result, vec![(10u32, vec![0u8, 1]), (20u32, vec![0u8, 1])]);
    let order: Vec<u32> = queue.outbound_status().iter().map(|c| c.recipient).collect();
    assert_eq!(order, vec![30, 10, 20]);
    assert_eq!(queue.outbound_status()[1], outbound(10, OutboundStatus::Active, false, 1, 2));
    let result = queue.take_outbound_messages(&host, 2);
    assert_eq!(result, vec![(10u32, vec![1u8, 2]), (30u32, vec![0u8, 1])]);
    let order: Vec<u32> = queue.outbound_status().iter().map(|c| c.recipient).collect();
    assert_eq!(order, vec![20, 30]);
}

#[test]
fn collector_sends_signals_before_data() {
    let host = Host::new().with_channel(10, 100);
    let mut queue = Module::new();
    queue.send_fragment(&host, 10, XcmpMessageFormat::ConcatenatedVersionedXcm, &vec![1u8]).unwrap();
    queue.send_signal(10, ChannelSignal::Resume).unwrap();
    assert_eq!(queue.take_outbound_messages(&host, 5), vec![(10u32, vec![2u8, 1])]);
    assert_eq!(queue.outbound_status(), &vec![outbound(10, OutboundStatus::Active, false, 0, 1)]);
    assert_eq!(queue.take_outbound_messages(&host, 5), vec![(10u32, vec![0u8, 1])]);
    assert!(queue.outbound_status().is_empty());
}

#[test]
fn collector_passes_over_suspended_full_and_tight_channels() {
    let mut host = Host::new().with_channel(10, 100).with_channel(20, 100).with_channel(30, 100);
    let mut queue = Module::new();
    for id in [10u32, 20, 30] {
        queue.send_fragment(&host, id, XcmpMessageFormat::ConcatenatedVersionedXcm, &vec![1u8, 2, 3]).unwrap();
    }
    queue.suspend_channel(10);
    host.states.insert(20, ChannelStatus::Full);
    // The page has four bytes; it must be shorter than what the channel takes now.
    host.states.insert(30, ChannelStatus::Ready(4, 100));
    assert!(queue.take_outbound_messages(&host, 0).is_empty());
    assert!(queue.take_outbound_messages(&host, 5).is_empty());
    assert_eq!(queue.outbound_status().len(), 3);
    host.states.insert(30, ChannelStatus::Ready(5, 3));
    // Taken, but longer than the channel may ever carry: dropped.
    assert!(queue.take_outbound_messages(&host, 5).is_empty());
    assert_eq!(queue.outbound_message(30, 0), None);
    let order: Vec<u32> = queue.outbound_status().iter().map(|c| c.recipient).collect();
    assert_eq!(order, vec![10, 20]);
    queue.resume_channel(10);
    assert_eq!(queue.take_outbound_messages(&host, 5), vec![(10u32, vec![0u8, 1, 2, 3])]);
}

#[test]
fn collector_sorts_deliveries_by_recipient() {
    let host = Host::new().with_channel(10, 100).with_channel(20, 100).with_channel(30, 100);
    let mut queue = Module::new();
    for id in [30u32, 10, 20] {
        queue.send_fragment(&host, id, XcmpMessageFormat::ConcatenatedVersionedXcm, &vec![id as u8]).unwrap();
    }
    let result = queue.take_outbound_messages(&host, 3);
    let recipients: Vec<u32> = result.iter().map(|d| d.0).collect();
    assert_eq!(recipients, vec![10, 20, 30]);
}

#[test]
fn events_account_for_every_byte_that_left_a_page() {
    let mut host = Host::new();
    let mut queue = Module::new();
    let messages = vec![vec![1u8; 3], vec![0xffu8], vec![2u8; 70], vec![3u8]];
    let page = xcm_page(&messages);
    queue.receive_batch(5, 1, &page);
    let done = queue.process_xcmp_message(
        &mut host,
        5,
        (1, XcmpMessageFormat::ConcatenatedVersionedXcm),
        2500,
    );
    assert_eq!(done, (2000, false));
    let mut accounted = Vec::new();
    for event in queue.events() {
        match event.kind {
            EventKind::TooHeavy => {}
            EventKind::BadFormat => accounted.extend_from_slice(&event.payload),
            _ => accounted.extend_from_slice(&event.payload.encode()),
        }
    }
    accounted.extend_from_slice(queue.inbound_message(5, 1).unwrap());
    assert_eq!(accounted, page[1..].to_vec());
    let dispatched: Vec<Vec<u8>> = host.calls.iter().map(|c| c.1.clone()).collect();
    assert_eq!(dispatched, messages);
}

#[test]
fn page_of_signals_in_the_store_is_discarded() {
    let mut host = Host::new();
    let mut queue = Module::new();
    queue.receive_batch(5, 1, &xcm_page(&[vec![1u8]]));
    let done = queue.process_xcmp_message(&mut host, 5, (1, XcmpMessageFormat::Signals), 5000);
    assert_eq!(done, (0, true));
    assert!(host.calls.is_empty());
    assert_eq!(queue.events(), &vec![Event { kind: EventKind::BadFormat, payload: vec![4u8, 1] }]);
    assert_eq!(queue.inbound_message(5, 1), None);
}

#[test]
fn page_that_is_not_stored_is_empty() {
    let mut host = Host::new();
    let mut queue = Module::new();
    let done = queue.process_xcmp_message(
        &mut host,
        5,
        (1, XcmpMessageFormat::ConcatenatedVersionedXcm),
        5000,
    );
    assert_eq!(done, (0, true));
    assert!(queue.events().is_empty());
}

#[test]
fn second_batch_of_one_block_takes_the_place_of_the_first() {
    let mut host = Host::new();
    let mut queue = Module::new();
    queue.receive_batch(5, 1, &xcm_page(&[vec![1u8]]));
    queue.receive_batch(5, 1, &xcm_page(&[vec![2u8]]));
    assert_eq!(queue.inbound_status()[0].pages.len(), 2);
    assert_eq!(queue.inbound_message(5, 1).unwrap(), &vec![4u8, 2]);
    let used = queue.service_xcmp_queue(&mut host, 10_000_000);
    assert_eq!(used, 1000);
    assert_eq!(host.calls.len(), 1);
    assert_eq!(host.calls[0].1, vec![2u8]);
    assert!(queue.inbound_status().is_empty());
    assert_eq!(queue.inbound_message(5, 1), None);
}

#[test]
fn signal_that_does_not_fit_holds_the_data_back() {
    let mut host = Host::new().with_channel(10, 100);
    let mut queue = Module::new();
    queue.send_fragment(&host, 10, XcmpMessageFormat::ConcatenatedVersionedXcm, &vec![1u8]).unwrap();
    queue.send_signal(10, ChannelSignal::Suspend).unwrap();
    queue.send_signal(10, ChannelSignal::Resume).unwrap();
    // The signal page has three bytes and the data page two.
    host.states.insert(10, ChannelStatus::Ready(3, 100));
    assert!(queue.take_outbound_messages(&host, 5).is_empty());
    assert_eq!(queue.outbound_status(), &vec![outbound(10, OutboundStatus::Active, true, 0, 1)]);
    host.states.insert(10, ChannelStatus::Ready(4, 100));
    assert_eq!(queue.take_outbound_messages(&host, 5), vec![(10u32, vec![2u8, 0, 1])]);
}

#[test]
fn resume_from_a_stranger_changes_nothing() {
    let mut queue = Module::new();
    queue.resume_channel(9);
    assert!(queue.outbound_status().is_empty());
    queue.receive_batch(9, 1, &vec![2u8, 1]);
    assert!(queue.outbound_status().is_empty());
}

#[test]
fn every_recipient_gets_its_slot_within_the_window() {
    let mut host = Host::new();
    let mut queue = Module::new();
    for id in 1..=5u32 {
        host = host.with_channel(id, 100);
    }
    for id in 1..=5u32 {
        for _ in 0..4 {
            queue.send_fragment(&host, id, XcmpMessageFormat::ConcatenatedEncodedBlob, &vec![7u8; 60]).unwrap();
        }
    }
    let mut served = Vec::new();
    for _ in 0..3 {
        for delivery in queue.take_outbound_messages(&host, 2) {
            served.push(delivery.0);
        }
    }
    assert_eq!(served, vec![1, 2, 3, 4, 1, 5]);
    for id in 1..=5u32 {
        assert!(served.contains(&id));
    }
}

#[test]
fn records_keep_their_shape_through_a_mixed_run() {
    let mut host = Host::new().with_channel(1, 50).with_channel(2, 50).with_channel(3, 50);
    let mut queue = Module::new();
    for round in 0..6u32 {
        let batches: Vec<(u32, u32, Vec<u8>)> = (1..=3u32)
            .flat_map(|id| {
                (0..id).map(move |k| (4 - id, round * 10 + k, xcm_page(&[vec![id as u8; 5]])))
            })
            .collect();
        queue.handle_xcmp_messages(&mut host, &batches, 150_000 + (round as u64) * 1000);
        for id in 1..=3u32 {
            queue.send_xcm_message(&host, id, vec![round as u8; 20]).unwrap();
        }
        queue.take_outbound_messages(&host, 2);

        let inbound = queue.inbound_status();
        for pair in inbound.windows(2) {
            assert!(pair[0].sender < pair[1].sender);
        }
        for record in inbound.iter() {
            assert!(!record.pages.is_empty() && record.pages.len() <= 5);
            if record.pages.len() > 2 {
                assert_eq!(record.state, InboundStatus::Suspended);
            }
            for page in record.pages.iter() {
                assert!(queue.inbound_message(record.sender, page.0).is_some());
            }
        }
        let outbound = queue.outbound_status();
        for (i, record) in outbound.iter().enumerate() {
            assert!(outbound[..i].iter().all(|other| other.recipient != record.recipient));
            assert!(record.first_index <= record.last_index);
            assert!(
                record.state == OutboundStatus::Suspended
                    || record.signals_exist
                    || record.first_index < record.last_index
            );
            for index in record.first_index..record.last_index {
                let page = queue.outbound_message(record.recipient, index).unwrap();
                assert!(page[0] <= 2);
            }
            assert_eq!(queue.signal_message(record.recipient).is_some(), record.signals_exist);
        }
    }
}
