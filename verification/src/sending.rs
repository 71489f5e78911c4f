//! Sending whole messages: a message is framed as a fragment and queued for
//! its recipient.

use crate::queue::{Module, QueueState};
use crate::scale::{encode_bytes, fragment_encoding};
use crate::types::{
    Config, Event, EventKind, Format, Junction, MessageSendError, ParaId, XcmError,
};
use vstd::prelude::*;

verus! {

/// The sibling parachain that a location names, if it names one: the parent
/// first, then the parachain.
pub open spec fn sibling_of(dest: Seq<Junction>) -> Option<ParaId> {
    if dest.len() == 2 && dest[0] == Junction::Parent {
        match dest[1] {
            Junction::Parachain { id } => Some(id),
            _ => None,
        }
    } else {
        None
    }
}

impl QueueState {
    /// The queue after the message `payload` was framed and queued for
    /// `recipient` on a page of `format`, and the number of pages before
    /// that page. `max` is the longest page that the channel takes.
    pub open spec fn message_sent(
        self,
        max: Option<usize>,
        recipient: ParaId,
        format: Format,
        payload: Seq<u8>,
    ) -> (QueueState, Result<u32, MessageSendError>) {
        let sent = self.outbound.send_fragment(max, recipient, format, fragment_encoding(payload));
        (QueueState { outbound: sent.0, ..self }, sent.1)
    }

    /// The queue after the versioned message `msg` was sent to the location
    /// `dest`. A location that names no sibling cannot be reached. Else the
    /// message is framed and queued, and an event reports it; where the
    /// queue refuses it, the refusal comes back as a failure to send.
    pub open spec fn xcm_sent(self, max: Option<usize>, dest: Seq<Junction>, msg: Seq<u8>) -> (
        QueueState,
        Result<(), XcmError>,
    ) {
        match sibling_of(dest) {
            None => (self, Err(XcmError::CannotReachDestination)),
            Some(id) => {
                let sent = self.message_sent(max, id, Format::ConcatenatedVersionedXcm, msg);
                match sent.1 {
                    Ok(_) => (
                        QueueState {
                            events: sent.0.events.push((EventKind::XcmpMessageSent, msg)),
                            ..sent.0
                        },
                        Ok(()),
                    ),
                    Err(e) => (sent.0, Err(XcmError::SendFailed(e))),
                }
            },
        }
    }

    /// Sending a message keeps the invariant.
    pub proof fn lemma_message_sent_wf(
        self,
        max: Option<usize>,
        recipient: ParaId,
        format: Format,
        payload: Seq<u8>,
    )
        requires
            self.wf(),
        ensures
            self.message_sent(max, recipient, format, payload).0.wf(),
    {
        self.outbound.lemma_send_fragment_wf(max, recipient, format, fragment_encoding(payload));
    }
}

/// The sibling parachain that a location names, if it names one.
pub fn sibling(dest: &Vec<Junction>) -> (id: Option<ParaId>)
    ensures
        id == sibling_of(dest@),
{
    if dest.len() != 2 {
        return None;
    }
    match dest[0] {
        Junction::Parent => {},
        _ => {
            return None;
        },
    }
    match dest[1] {
        Junction::Parachain { id } => Some(id),
        _ => None,
    }
}

impl Module {
    /// Frames the bytes of a message and queues the fragment for
    /// `recipient` on a page of `format`.
    pub fn send_message<T: Config>(
        &mut self,
        host: &T,
        recipient: ParaId,
        format: Format,
        payload: &Vec<u8>,
    ) -> (queued: Result<u32, MessageSendError>)
        requires
            old(self).wf(),
            payload.len() <= u32::MAX,
        ensures
            final(self).wf(),
            exists|max: Option<usize>|
                (final(self)@, queued) == #[trigger] old(self)@.message_sent(
                    max,
                    recipient,
                    format,
                    payload@,
                ),
    {
        let ghost before = self@;
        let data = encode_bytes(payload);
        let queued = self.send_fragment(host, recipient, format, &data);
        proof {
            let max = choose|max: Option<usize>|
                {
                    &&& self@ == (QueueState {
                        outbound: (#[trigger] before.outbound.send_fragment(
                            max,
                            recipient,
                            format,
                            data@,
                        )).0,
                        ..before
                    })
                    &&& queued == before.outbound.send_fragment(max, recipient, format, data@).1
                };
            assert((self@, queued) == before.message_sent(max, recipient, format, payload@));
        }
        queued
    }

    /// Queues an opaque blob for `recipient`. The result is the number of
    /// pages that wait before the page that took it.
    pub fn send_blob_message<T: Config>(&mut self, host: &T, recipient: ParaId, blob: Vec<u8>) -> (queued:
        Result<u32, MessageSendError>)
        requires
            old(self).wf(),
            blob.len() <= u32::MAX,
        ensures
            final(self).wf(),
            exists|max: Option<usize>|
                (final(self)@, queued) == #[trigger] old(self)@.message_sent(
                    max,
                    recipient,
                    Format::ConcatenatedEncodedBlob,
                    blob@,
                ),
    {
        self.send_message(host, recipient, Format::ConcatenatedEncodedBlob, &blob)
    }

    /// Queues the bytes of a versioned message for `recipient`. The result
    /// is the number of pages that wait before the page that took it.
    pub fn send_xcm_message<T: Config>(&mut self, host: &T, recipient: ParaId, xcm: Vec<u8>) -> (queued:
        Result<u32, MessageSendError>)
        requires
            old(self).wf(),
            xcm.len() <= u32::MAX,
        ensures
            final(self).wf(),
            exists|max: Option<usize>|
                (final(self)@, queued) == #[trigger] old(self)@.message_sent(
                    max,
                    recipient,
                    Format::ConcatenatedVersionedXcm,
                    xcm@,
                ),
    {
        self.send_message(host, recipient, Format::ConcatenatedVersionedXcm, &xcm)
    }

    /// Sends the bytes of a versioned message to the location `dest`, which
    /// must name a sibling parachain.
    pub fn send_xcm<T: Config>(&mut self, host: &T, dest: &Vec<Junction>, msg: Vec<u8>) -> (sent:
        Result<(), XcmError>)
        requires
            old(self).wf(),
            msg.len() <= u32::MAX,
        ensures
            final(self).wf(),
            exists|max: Option<usize>|
                (final(self)@, sent) == #[trigger] old(self)@.xcm_sent(max, dest@, msg@),
    {
        let ghost before = self@;
        match sibling(dest) {
            None => {
                assert((self@, Err::<(), XcmError>(XcmError::CannotReachDestination))
                    == before.xcm_sent(None, dest@, msg@));
                Err(XcmError::CannotReachDestination)
            },
            Some(id) => {
                let queued = self.send_message(host, id, Format::ConcatenatedVersionedXcm, &msg);
                let ghost max = choose|max: Option<usize>|
                    (self@, queued) == #[trigger] before.message_sent(
                        max,
                        id,
                        Format::ConcatenatedVersionedXcm,
                        msg@,
                    );
                match queued {
                    Ok(_) => {
                        let ghost mid = self@;
                        self.events.push(Event { kind: EventKind::XcmpMessageSent, payload: msg });
                        proof {
                            assert(self@.events =~= mid.events.push(
                                (EventKind::XcmpMessageSent, msg@),
                            ));
                            assert((self@, Ok::<(), XcmError>(())) == before.xcm_sent(
                                max,
                                dest@,
                                msg@,
                            ));
                        }
                        Ok(())
                    },
                    Err(e) => {
                        assert((self@, Err::<(), XcmError>(XcmError::SendFailed(e)))
                            == before.xcm_sent(max, dest@, msg@));
                        Err(XcmError::SendFailed(e))
                    },
                }
            },
        }
    }
}

} // verus!
