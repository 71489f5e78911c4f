//! Queueing and flow control for messages exchanged between sibling
//! parachains: paging of outbound fragments, weight-bounded shuffled dispatch
//! of inbound pages, and the suspend/resume signals that carry backpressure.

pub mod bytes;
pub mod dispatch;
pub mod guarantees;
pub mod inbound_state;
pub mod ingest;
pub mod outbound;
pub mod outbound_laws;
pub mod outbound_state;
pub mod queue;
pub mod rotation;
pub mod scale;
pub mod sending;
pub mod service;
pub mod shuffle;
pub mod store;
pub mod types;

pub use crate::inbound_state::InboundChannel;
pub use crate::outbound_state::OutboundChannel;
pub use crate::queue::Module;
pub use crate::types::{
    ChannelSignal, ChannelStatus, Config, Event, EventKind, InboundStatus, Junction,
    MessageSendError, OutboundStatus, Outcome, ParaId, RelayBlockNumber, Weight, XcmError,
    XcmpMessageFormat,
};
