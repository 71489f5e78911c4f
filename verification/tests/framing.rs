use parity_scale_codec::Encode;
use xcmp_queue::queue::Module;
use xcmp_queue::scale::next_fragment;
use xcmp_queue::types::{
    ChannelStatus, Config, Event, EventKind, Outcome, XcmError, XcmpMessageFormat,
};

struct Wide;

impl Config for Wide {
    fn parent_hash(&self) -> Vec<u8> {
        Vec::new()
    }

    fn execute_xcm(&mut self, _origin: u32, _message: &Vec<u8>, _weight_limit: u64) -> Outcome {
        Outcome::Complete(0)
    }

    fn get_channel_max(&self, _id: u32) -> Option<usize> {
        Some(1 << 20)
    }

    fn get_channel_status(&self, _id: u32) -> ChannelStatus {
        ChannelStatus::Ready(1 << 20, 1 << 20)
    }
}

fn framed(payload: Vec<u8>) -> Vec<u8> {
    let mut queue = Module::new();
    queue.send_blob_message(&Wide, 1, payload).unwrap();
    let page = queue.outbound_message(1, 0).unwrap();
    assert_eq!(page[0], 1);
    page[1..].to_vec()
}

#[test]
fn short_payload_has_one_byte_prefix() {
    assert_eq!(framed(vec![7u8, 8, 9]), vec![12u8, 7, 8, 9]);
}

#[test]
fn empty_payload_is_a_single_zero() {
    assert_eq!(framed(Vec::new()), vec![0u8]);
}

#[test]
fn payload_of_63_bytes_has_one_byte_prefix() {
    let encoded = framed(vec![5u8; 63]);
    assert_eq!(encoded.len(), 64);
    assert_eq!(encoded[0], 252);
}

#[test]
fn payload_of_64_bytes_has_two_byte_prefix() {
    let payload = vec![5u8; 64];
    let encoded = framed(payload.clone());
    assert_eq!(encoded.len(), 66);
    assert_eq!(encoded[0], 1);
    assert_eq!(encoded[1], 1);
    assert_eq!(&encoded[2..], &payload[..]);
}

#[test]
fn payload_of_16384_bytes_has_four_byte_prefix() {
    let encoded = framed(vec![1u8; 16384]);
    assert_eq!(&encoded[..4], &[2u8, 0, 1, 0]);
    assert_eq!(encoded.len(), 16388);
}

#[test]
fn next_fragment_reads_payload_and_position() {
    let data = vec![9u8, 8, 1, 2, 4, 6];
    assert_eq!(next_fragment(&data, 0), None);
    assert_eq!(next_fragment(&data, 1), Some((vec![1u8, 2], 4)));
    assert_eq!(next_fragment(&data, 4), Some((vec![6u8], 6)));
    assert_eq!(next_fragment(&data, 6), None);
}

#[test]
fn next_fragment_refuses_a_prefix_that_is_not_canonical() {
    // Two-byte form of the length 1, which the one-byte form must carry.
    let data = vec![5u8, 0, 42];
    assert_eq!(next_fragment(&data, 0), None);
}

#[test]
fn next_fragment_refuses_a_truncated_payload() {
    let data = vec![12u8, 1, 2];
    assert_eq!(next_fragment(&data, 0), None);
}

#[test]
fn fragments_round_trip() {
    let mut page = vec![1u8; 70].encode();
    page.extend_from_slice(&framed(vec![2u8; 3]));
    let (first, next) = next_fragment(&page, 0).unwrap();
    assert_eq!(first, vec![1u8; 70]);
    assert_eq!(next, 72);
    let (second, end) = next_fragment(&page, next).unwrap();
    assert_eq!(second, vec![2u8; 3]);
    assert_eq!(end, page.len());
}

#[test]
fn host_without_a_handler_leaves_blobs_unhandled() {
    let mut host = Wide;
    assert_eq!(host.handle_blob(1, 2, &vec![3u8], 10), Err(false));
    assert_eq!(host.handle_blob(9, 0, &Vec::new(), 0), Err(false));

    let mut queue = Module::new();
    let mut page = vec![1u8];
    page.extend_from_slice(&vec![4u8, 4].encode());
    queue.receive_batch(5, 1, &page);
    let done = queue.process_xcmp_message(
        &mut host,
        5,
        (1, XcmpMessageFormat::ConcatenatedEncodedBlob),
        5000,
    );
    assert_eq!(done, (0, true));
    assert_eq!(
        queue.events(),
        &vec![Event { kind: EventKind::Fail(XcmError::Unimplemented), payload: vec![4u8, 4] }]
    );
}
