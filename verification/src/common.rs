use vstd::prelude::*;

verus! {

/// Identifier that opens every datagram of the protocol.
pub const PROTO_ID: u32 = 0x4f457403;
/// Largest datagram that is sent.
pub const UDP_PKT_SIZE: usize = 512;
/// Number of channels of a connection.
pub const NUM_CHANS: usize = 3;
/// Number of slots of the reorder buffer of a channel.
pub const REL_BUFFER: usize = 0x8000;
/// Sequence number that a channel starts with.
pub const INIT_SEQNUM: u16 = 65500;
/// Seconds without traffic after which the remote is taken as gone.
pub const TIMEOUT: u64 = 30;
/// Seconds between two pings.
pub const PING_TIMEOUT: u64 = 5;

/// Slot of the reorder buffer that a sequence number goes to.
pub open spec fn spec_slot(seqnum: u16) -> int {
    seqnum as int % (REL_BUFFER as int)
}

/// Slot of the reorder buffer that a sequence number goes to.
pub fn to_seqnum(seqnum: u16) -> (r: usize)
    ensures
        r as int == spec_slot(seqnum),
        r < REL_BUFFER,
{
    let r = (seqnum as usize) & (REL_BUFFER - 1);
    assert((seqnum as usize) & 0x7fffusize == (seqnum as usize) % 0x8000usize) by (bit_vector);
    assert((seqnum as usize) & 0x7fffusize < 0x8000usize) by (bit_vector);
    r
}

} // verus!

verus! {

/// The sequence number that follows `s`, wrapping at 2^16.
pub open spec fn next_seqnum(s: u16) -> u16 {
    ((s + 1) % 0x1_0000) as u16
}

/// The sequence number that follows `s`, wrapping at 2^16.
pub fn seqnum_after(s: u16) -> (r: u16)
    ensures
        r == next_seqnum(s),
{
    if s == 0xffff {
        0
    } else {
        s + 1
    }
}

/// Peer identifiers with a fixed meaning.
#[derive(Debug, Clone, Copy, PartialEq, Eq, Structural)]
pub enum PeerID {
    Nil,
    Srv,
    CltMin,
}

impl PeerID {
    /// The identifier on the wire.
    pub open spec fn spec_id(self) -> u16 {
        match self {
            PeerID::Nil => 0,
            PeerID::Srv => 1,
            PeerID::CltMin => 2,
        }
    }

    /// The identifier on the wire.
    pub fn id(self) -> (r: u16)
        ensures
            r == self.spec_id(),
    {
        match self {
            PeerID::Nil => 0,
            PeerID::Srv => 1,
            PeerID::CltMin => 2,
        }
    }
}

/// Kinds of packet.
#[derive(Debug, Clone, Copy, PartialEq, Eq, Structural)]
pub enum PktType {
    Ctl,
    Orig,
    Split,
    Rel,
}

impl PktType {
    /// The byte that stands for this kind on the wire.
    pub open spec fn spec_code(self) -> u8 {
        match self {
            PktType::Ctl => 0,
            PktType::Orig => 1,
            PktType::Split => 2,
            PktType::Rel => 3,
        }
    }

    /// The kind that a byte stands for, if any.
    pub open spec fn spec_from_code(n: u8) -> Option<PktType> {
        if n == 0 {
            Some(PktType::Ctl)
        } else if n == 1 {
            Some(PktType::Orig)
        } else if n == 2 {
            Some(PktType::Split)
        } else if n == 3 {
            Some(PktType::Rel)
        } else {
            None
        }
    }

    /// The byte that stands for this kind on the wire.
    pub fn code(self) -> (r: u8)
        ensures
            r == self.spec_code(),
    {
        match self {
            PktType::Ctl => 0,
            PktType::Orig => 1,
            PktType::Split => 2,
            PktType::Rel => 3,
        }
    }

    /// The kind that a byte stands for, if any.
    pub fn from_code(n: u8) -> (r: Option<PktType>)
        ensures
            r == Self::spec_from_code(n),
    {
        if n == 0 {
            Some(PktType::Ctl)
        } else if n == 1 {
            Some(PktType::Orig)
        } else if n == 2 {
            Some(PktType::Split)
        } else if n == 3 {
            Some(PktType::Rel)
        } else {
            None
        }
    }
}

/// Kinds of control packet.
#[derive(Debug, Clone, Copy, PartialEq, Eq, Structural)]
pub enum CtlType {
    Ack,
    SetPeerID,
    Ping,
    Disco,
}

impl CtlType {
    /// The byte that stands for this kind on the wire.
    pub open spec fn spec_code(self) -> u8 {
        match self {
            CtlType::Ack => 0,
            CtlType::SetPeerID => 1,
            CtlType::Ping => 2,
            CtlType::Disco => 3,
        }
    }

    /// The kind that a byte stands for, if any.
    pub open spec fn spec_from_code(n: u8) -> Option<CtlType> {
        if n == 0 {
            Some(CtlType::Ack)
        } else if n == 1 {
            Some(CtlType::SetPeerID)
        } else if n == 2 {
            Some(CtlType::Ping)
        } else if n == 3 {
            Some(CtlType::Disco)
        } else {
            None
        }
    }

    /// The byte that stands for this kind on the wire.
    pub fn code(self) -> (r: u8)
        ensures
            r == self.spec_code(),
    {
        match self {
            CtlType::Ack => 0,
            CtlType::SetPeerID => 1,
            CtlType::Ping => 2,
            CtlType::Disco => 3,
        }
    }

    /// The kind that a byte stands for, if any.
    pub fn from_code(n: u8) -> (r: Option<CtlType>)
        ensures
            r == Self::spec_from_code(n),
    {
        if n == 0 {
            Some(CtlType::Ack)
        } else if n == 1 {
            Some(CtlType::SetPeerID)
        } else if n == 2 {
            Some(CtlType::Ping)
        } else if n == 3 {
            Some(CtlType::Disco)
        } else {
            None
        }
    }
}

/// A packet of a channel: whether it went unreliably, its channel and its data.
#[derive(Debug)]
pub struct Pkt<T> {
    pub unrel: bool,
    pub chan: u8,
    pub data: T,
}

} // verus!
