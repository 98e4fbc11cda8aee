//! A reliable transport over UDP: the wire format of its datagrams, the
//! per-channel state of both sides, and the state machine that handles what
//! arrives, with their contracts and the laws that tie them together.
pub mod common;
pub mod error;
pub mod laws;
pub mod model;
pub mod reassembly;
pub mod recv;
pub mod send;
pub mod wire;

pub use common::{
    seqnum_after, to_seqnum, CtlType, PeerID, Pkt, PktType, INIT_SEQNUM, NUM_CHANS, PING_TIMEOUT, PROTO_ID,
    REL_BUFFER, TIMEOUT, UDP_PKT_SIZE,
};
pub use error::Error;
pub use recv::{Event, InPkt, Poll, RudpReceiver, Step};
pub use send::{disco_pkt, ping_pkt, RudpShare};
