use xcmp_queue::types::{ChannelSignal, XcmpMessageFormat};

#[test]
fn format_tags_round_trip() {
    assert_eq!(XcmpMessageFormat::ConcatenatedVersionedXcm.tag(), 0);
    assert_eq!(XcmpMessageFormat::ConcatenatedEncodedBlob.tag(), 1);
    assert_eq!(XcmpMessageFormat::Signals.tag(), 2);
    assert_eq!(XcmpMessageFormat::from_tag(1), Some(XcmpMessageFormat::ConcatenatedEncodedBlob));
    assert_eq!(XcmpMessageFormat::from_tag(3), None);
}

#[test]
fn signal_codes_round_trip() {
    assert_eq!(ChannelSignal::Suspend.code(), 0);
    assert_eq!(ChannelSignal::Resume.code(), 1);
    assert_eq!(ChannelSignal::from_code(0), Some(ChannelSignal::Suspend));
    assert_eq!(ChannelSignal::from_code(2), None);
}
