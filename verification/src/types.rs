//! Plain data shared by every part of the queue, and the collaborators that
//! the host chain supplies.

use vstd::prelude::*;

verus! {

/// Identifier of a sibling chain.
pub type ParaId = u32;

/// Relay-chain block number at which a batch was sent.
pub type RelayBlockNumber = u32;

/// Abstract execution cost.
pub type Weight = u64;

/// Whether we have asked a sender to stop sending to us.
#[derive(Copy, Clone, Debug, PartialEq, Eq, Structural)]
pub enum InboundStatus {
    /// The sender may send.
    Active,
    /// The sender was told to stop.
    Suspended,
}

/// Whether a recipient has asked us to stop sending to it.
#[derive(Copy, Clone, Debug, PartialEq, Eq, Structural)]
pub enum OutboundStatus {
    /// We may send.
    Active,
    /// We were told to stop.
    Suspended,
}

/// A control code carried on the signal page.
#[derive(Copy, Clone, Debug, PartialEq, Eq, Structural)]
pub enum ChannelSignal {
    Suspend,
    Resume,
}

/// The format of an aggregate page, carried as its first byte.
#[derive(Copy, Clone, Debug, PartialEq, Eq, Structural)]
pub enum XcmpMessageFormat {
    /// Length-prefixed versioned messages, concatenated.
    ConcatenatedVersionedXcm,
    /// Length-prefixed opaque blobs, concatenated.
    ConcatenatedEncodedBlob,
    /// One-byte channel control codes, concatenated.
    Signals,
}

/// The page format under its short name.
pub type Format = XcmpMessageFormat;

/// What the host reports of the channel towards one recipient.
#[derive(Copy, Clone, Debug, PartialEq, Eq, Structural)]
pub enum ChannelStatus {
    /// The channel does not exist any more.
    Closed,
    /// The channel cannot take another page right now.
    Full,
    /// The channel takes a page shorter than the first number; no page longer
    /// than the second may ever be handed to it.
    Ready(usize, usize),
}

/// Why a fragment could not be queued for sending.
#[derive(Copy, Clone, Debug, PartialEq, Eq, Structural)]
pub enum MessageSendError {
    /// The recipient's page ring has used up its sixteen-bit index space.
    QueueFull,
    /// The host knows no channel to the recipient.
    NoChannel,
    /// The fragment alone is longer than a page of the channel may be.
    TooBig,
    /// Any other failure of the transport.
    Other,
}

/// One step of a location relative to this chain.
#[derive(Copy, Clone, Debug, PartialEq, Eq, Structural)]
pub enum Junction {
    /// The relay chain above us.
    Parent,
    /// The parachain with the given identifier.
    Parachain { id: u32 },
    /// Anything below a chain, by an opaque index.
    Inner(u64),
}

/// An error of message execution or sending.
#[derive(Copy, Clone, Debug, PartialEq, Eq, Structural)]
pub enum XcmError {
    /// The message needs more weight than was on offer; it was not attempted.
    WeightLimitReached,
    /// The message is of a version that the executor does not know.
    UnhandledXcmVersion,
    /// Nothing on this chain handles the payload.
    Unimplemented,
    /// The executor failed for a reason of its own, given by its code.
    FailedToExecute(u32),
    /// The outbound queue refused the message.
    SendFailed(MessageSendError),
    /// The destination is no sibling parachain.
    CannotReachDestination,
}

/// How the executor ended on one message.
#[derive(Copy, Clone, Debug, PartialEq, Eq, Structural)]
pub enum Outcome {
    /// Ran to the end, using the given weight.
    Complete(Weight),
    /// Ran in part, using the given weight, then failed.
    Incomplete(Weight, XcmError),
    /// Did not run.
    Error(XcmError),
}

/// What an event reports.
#[derive(Copy, Clone, Debug, PartialEq, Eq, Structural)]
pub enum EventKind {
    /// A message was executed to its end.
    Success,
    /// A message failed, in part or as a whole.
    Fail(XcmError),
    /// A message needs more weight than was on offer; it stays in its page.
    TooHeavy,
    /// A message was of a version that the executor does not know.
    BadVersion,
    /// The rest of a page could not be read as fragments and was discarded.
    BadFormat,
    /// A message was queued for a sibling.
    XcmpMessageSent,
}

/// Something that happened, and the bytes that it happened to.
#[derive(Clone, Debug, PartialEq, Eq)]
pub struct Event {
    /// What happened.
    pub kind: EventKind,
    /// The message, or the discarded bytes.
    pub payload: Vec<u8>,
}

/// What the host chain supplies to the queue.
pub trait Config {
    /// Hash of the parent block; seeds the dispatch order of a block.
    fn parent_hash(&self) -> Vec<u8>;

    /// Executes one versioned message sent by the sibling `origin`, using no
    /// more than `weight_limit`.
    fn execute_xcm(&mut self, origin: ParaId, message: &Vec<u8>, weight_limit: Weight) -> Outcome;

    /// Handles one opaque blob sent by `sender`. `Err(true)` says that the
    /// blob is too heavy for `weight_limit` and should be offered again,
    /// `Err(false)` that it will never be handled. Unless the host says
    /// otherwise, no blob is handled: a host that keeps this handler leaves
    /// every blob unhandled for good, and is not changed by it.
    fn handle_blob(
        &mut self,
        sender: ParaId,
        sent_at: RelayBlockNumber,
        blob: &Vec<u8>,
        weight_limit: Weight,
    ) -> (handled: Result<Weight, bool>) where Self: Sized
        default_ensures
            handled == Err::<Weight, bool>(false),
            *final(self) == *old(self),
    {
        Err(false)
    }

    /// Largest page that the channel to `id` accepts, if there is a channel.
    fn get_channel_max(&self, id: ParaId) -> Option<usize>;

    /// Current state of the channel to `id`.
    fn get_channel_status(&self, id: ParaId) -> ChannelStatus;
}

/// The byte that stands for a page format on the wire.
pub open spec fn format_tag(format: XcmpMessageFormat) -> u8 {
    match format {
        XcmpMessageFormat::ConcatenatedVersionedXcm => 0u8,
        XcmpMessageFormat::ConcatenatedEncodedBlob => 1u8,
        XcmpMessageFormat::Signals => 2u8,
    }
}

/// The format that a leading byte announces, if it announces one.
pub open spec fn format_of_tag(tag: u8) -> Option<XcmpMessageFormat> {
    if tag == 0 {
        Some(XcmpMessageFormat::ConcatenatedVersionedXcm)
    } else if tag == 1 {
        Some(XcmpMessageFormat::ConcatenatedEncodedBlob)
    } else if tag == 2 {
        Some(XcmpMessageFormat::Signals)
    } else {
        None
    }
}

/// The byte that stands for a control code on the wire.
pub open spec fn signal_code(signal: ChannelSignal) -> u8 {
    match signal {
        ChannelSignal::Suspend => 0u8,
        ChannelSignal::Resume => 1u8,
    }
}

/// The control code that a byte stands for, if any.
pub open spec fn signal_of_code(code: u8) -> Option<ChannelSignal> {
    if code == 0 {
        Some(ChannelSignal::Suspend)
    } else if code == 1 {
        Some(ChannelSignal::Resume)
    } else {
        None
    }
}

impl XcmpMessageFormat {
    /// Encodes the format as its tag byte.
    pub fn tag(self) -> (tag: u8)
        ensures
            tag == format_tag(self),
            format_of_tag(tag) == Some(self),
    {
        match self {
            XcmpMessageFormat::ConcatenatedVersionedXcm => 0,
            XcmpMessageFormat::ConcatenatedEncodedBlob => 1,
            XcmpMessageFormat::Signals => 2,
        }
    }

    /// Decodes a tag byte; any byte above two announces no format.
    pub fn from_tag(tag: u8) -> (format: Option<XcmpMessageFormat>)
        ensures
            format == format_of_tag(tag),
            format matches Some(f) ==> format_tag(f) == tag,
    {
        if tag == 0 {
            Some(XcmpMessageFormat::ConcatenatedVersionedXcm)
        } else if tag == 1 {
            Some(XcmpMessageFormat::ConcatenatedEncodedBlob)
        } else if tag == 2 {
            Some(XcmpMessageFormat::Signals)
        } else {
            None
        }
    }
}

impl ChannelSignal {
    /// Encodes the control code as its byte.
    pub fn code(self) -> (code: u8)
        ensures
            code == signal_code(self),
            signal_of_code(code) == Some(self),
    {
        match self {
            ChannelSignal::Suspend => 0,
            ChannelSignal::Resume => 1,
        }
    }

    /// Decodes a control byte; any byte above one is no control code.
    pub fn from_code(code: u8) -> (signal: Option<ChannelSignal>)
        ensures
            signal == signal_of_code(code),
            signal matches Some(s) ==> signal_code(s) == code,
    {
        if code == 0 {
            Some(ChannelSignal::Suspend)
        } else if code == 1 {
            Some(ChannelSignal::Resume)
        } else {
            None
        }
    }
}

} // verus!
