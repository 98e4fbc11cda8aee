//! The sending side of a connection: identifiers, per-channel sequence
//! numbers and the packets that wait for an acknowledgement.
use vstd::prelude::*;
use std::collections::HashMap;
use crate::common::{next_seqnum, seqnum_after, CtlType, Pkt, PktType, INIT_SEQNUM, NUM_CHANS, PROTO_ID};
use crate::wire::{append_bytes, push_u16, push_u32, u16_bytes, u32_bytes};

verus! {

broadcast use vstd::std_specs::hash::group_hash_axioms;

/// The first seven bytes of every datagram: protocol, peer and channel.
pub open spec fn spec_header(remote_id: u16, chan: u8) -> Seq<u8> {
    u32_bytes(PROTO_ID) + u16_bytes(remote_id) + seq![chan]
}

/// A datagram as the sender builds it: the header, the reliable part when
/// `rel` holds a sequence number, the kind of packet, then the data.
pub open spec fn spec_encode(remote_id: u16, chan: u8, rel: Option<u16>, tp: u8, data: Seq<u8>) -> Seq<u8> {
    spec_header(remote_id, chan) + match rel {
        Some(s) => seq![3u8] + u16_bytes(s),
        None => Seq::<u8>::empty(),
    } + seq![tp] + data
}

/// The sending state of one channel.
pub struct SendChan {
    acks: HashMap<u16, Vec<u8>>,
    seqnum: u16,
}

/// The model of the sending state of one channel: the datagrams that wait for
/// an acknowledgement by sequence number, and the next sequence number.
pub struct SendChanV {
    pub acks: Map<u16, Seq<u8>>,
    pub seqnum: u16,
}

impl View for SendChan {
    type V = SendChanV;

    closed spec fn view(&self) -> SendChanV {
        SendChanV { acks: self.acks@.map_values(|v: Vec<u8>| v@), seqnum: self.seqnum }
    }
}

/// The state that the sending and the receiving side share.
pub struct RudpShare {
    id: u16,
    remote_id: u16,
    chans: Vec<SendChan>,
}

/// The model of the shared state.
pub struct ShareV {
    pub id: u16,
    pub remote_id: u16,
    pub chans: Seq<SendChanV>,
}

impl View for RudpShare {
    type V = ShareV;

    closed spec fn view(&self) -> ShareV {
        ShareV { id: self.id, remote_id: self.remote_id, chans: self.chans@.map_values(|c: SendChan| c@) }
    }
}

/// A fresh channel: nothing waits, and the sequence numbers start at `INIT_SEQNUM`.
pub open spec fn fresh_send_chan() -> SendChanV {
    SendChanV { acks: Map::empty(), seqnum: INIT_SEQNUM }
}

/// The shared state with the remote's identifier set to `remote_id`.
pub open spec fn with_remote_id(s: ShareV, remote_id: u16) -> ShareV {
    ShareV { remote_id, ..s }
}

/// The shared state once nothing waits any more for the acknowledgement of
/// `seqnum` on channel `chan`.
pub open spec fn acked_share(s: ShareV, chan: int, seqnum: u16) -> ShareV {
    ShareV {
        chans: s.chans.update(chan, SendChanV { acks: s.chans[chan].acks.remove(seqnum), ..s.chans[chan] }),
        ..s
    }
}

/// The shared state once the reliable datagram `buf` went out on channel
/// `chan`: it waits under the channel's sequence number, which advances.
pub open spec fn sent_share(s: ShareV, chan: int, buf: Seq<u8>) -> ShareV {
    let c = s.chans[chan];
    ShareV {
        chans: s.chans.update(chan, SendChanV { acks: c.acks.insert(c.seqnum, buf), seqnum: next_seqnum(c.seqnum) }),
        ..s
    }
}

impl RudpShare {
    /// One sending state per channel.
    pub open spec fn wf(&self) -> bool {
        self@.chans.len() == NUM_CHANS
    }

    /// A connection with our identifier `id` and the remote's `remote_id`.
    pub fn new(id: u16, remote_id: u16) -> (r: RudpShare)
        ensures
            r.wf(),
            r@.id == id,
            r@.remote_id == remote_id,
            r@.chans == Seq::new(NUM_CHANS as nat, |i: int| fresh_send_chan()),
    {
        let mut chans: Vec<SendChan> = Vec::new();
        let mut i: usize = 0;
        while i < NUM_CHANS
            invariant
                i <= NUM_CHANS,
                chans@.len() == i,
                forall|j: int| 0 <= j < i ==> #[trigger] chans@[j]@ == fresh_send_chan(),
            decreases NUM_CHANS - i,
        {
            let c = SendChan { acks: HashMap::new(), seqnum: INIT_SEQNUM };
            assert(c@.acks =~= Map::<u16, Seq<u8>>::empty());
            chans.push(c);
            i = i + 1;
        }
        let r = RudpShare { id, remote_id, chans };
        assert(r@.chans =~= Seq::new(NUM_CHANS as nat, |i: int| fresh_send_chan()));
        r
    }

    /// Our identifier.
    pub fn peer_id(&self) -> (r: u16)
        ensures
            r == self@.id,
    {
        self.id
    }

    /// Whether we are the server.
    pub fn is_server(&self) -> (r: bool)
        ensures
            r == (self@.id == 1),
    {
        self.id == 1
    }

    /// The remote's identifier.
    pub fn remote_id(&self) -> (r: u16)
        ensures
            r == self@.remote_id,
    {
        self.remote_id
    }

    /// Removes what waits for the acknowledgement of `seqnum` on channel
    /// `chan`, and says whether anything waited.
    pub fn acknowledge(&mut self, chan: u8, seqnum: u16) -> (r: bool)
        requires
            old(self).wf(),
            chan < NUM_CHANS,
        ensures
            final(self).wf(),
            r == old(self)@.chans[chan as int].acks.contains_key(seqnum),
            final(self)@ == acked_share(old(self)@, chan as int, seqnum),
    {
        let ch = chan as usize;
        let removed = self.chans[ch].acks.remove(&seqnum);
        assert(final(self)@.chans[chan as int].acks =~= old(self)@.chans[chan as int].acks.remove(seqnum));
        assert(final(self)@.chans =~= old(self)@.chans.update(
            chan as int,
            SendChanV {
                acks: old(self)@.chans[chan as int].acks.remove(seqnum),
                ..old(self)@.chans[chan as int]
            },
        ));
        removed.is_some()
    }

    /// Sets the remote's identifier.
    pub fn set_remote_id(&mut self, remote_id: u16)
        ensures
            final(self)@ == with_remote_id(old(self)@, remote_id),
    {
        self.remote_id = remote_id;
    }

    /// The datagram that sends `pkt` as a packet of kind `tp`: reliable ones
    /// carry the channel's next sequence number.
    pub fn encode_pkt(&self, tp: PktType, pkt: &Pkt<Vec<u8>>) -> (r: Vec<u8>)
        requires
            self.wf(),
            pkt.chan < NUM_CHANS,
        ensures
            r@ == spec_encode(
                self@.remote_id,
                pkt.chan,
                if pkt.unrel { None } else { Some(self@.chans[pkt.chan as int].seqnum) },
                tp.spec_code(),
                pkt.data@,
            ),
    {
        let mut buf: Vec<u8> = Vec::new();
        push_u32(&mut buf, PROTO_ID);
        push_u16(&mut buf, self.remote_id);
        buf.push(pkt.chan);
        let seqnum = self.chans[pkt.chan as usize].seqnum;
        if !pkt.unrel {
            buf.push(3u8);
            push_u16(&mut buf, seqnum);
        }
        buf.push(tp.code());
        append_bytes(&mut buf, pkt.data.as_slice());
        assert(buf@ =~= spec_encode(
            self@.remote_id,
            pkt.chan,
            if pkt.unrel { None } else { Some(self@.chans[pkt.chan as int].seqnum) },
            tp.spec_code(),
            pkt.data@,
        ));
        buf
    }

    /// Records that the datagram `buf` of channel `chan` went out. A reliable
    /// one waits for its acknowledgement under the channel's sequence number,
    /// which is returned and then advances; an unreliable one changes nothing.
    pub fn record_sent(&mut self, chan: u8, unrel: bool, buf: Vec<u8>) -> (r: Option<u16>)
        requires
            old(self).wf(),
            chan < NUM_CHANS,
        ensures
            final(self).wf(),
            unrel ==> r is None && final(self)@ == old(self)@,
            !unrel ==> r == Some(old(self)@.chans[chan as int].seqnum),
            !unrel ==> final(self)@ == sent_share(old(self)@, chan as int, buf@),
    {
        if unrel {
            None
        } else {
            let ch = chan as usize;
            let seqnum = self.chans[ch].seqnum;
            self.chans[ch].acks.insert(seqnum, buf);
            self.chans[ch].seqnum = seqnum_after(seqnum);
            assert(final(self)@.chans[chan as int].acks =~= old(self)@.chans[chan as int].acks.insert(seqnum, buf@));
            assert(final(self)@.chans =~= old(self)@.chans.update(
                chan as int,
                SendChanV { acks: old(self)@.chans[chan as int].acks.insert(seqnum, buf@), seqnum: next_seqnum(seqnum) },
            ));
            Some(seqnum)
        }
    }

    /// The datagrams that wait for an acknowledgement on channel `chan`, each
    /// once, in the order in which the map is walked.
    pub fn pending(&self, chan: u8) -> (r: Vec<Vec<u8>>)
        requires
            self.wf(),
            chan < NUM_CHANS,
        ensures
            lists_waiting(self@.chans[chan as int].acks, r@.map_values(|v: Vec<u8>| v@)),
    {
        let m = &self.chans[chan as usize].acks;
        let mut r: Vec<Vec<u8>> = Vec::new();
        let ghost mut keys: Seq<u16> = Seq::empty();
        for (k, v) in it: m.iter()
            invariant
                r@.len() == it.index(),
                keys.len() == it.index(),
                forall|j: int| 0 <= j < it.index() ==> #[trigger] r@[j]@ == (*it.seq()[j].1)@,
                forall|j: int| 0 <= j < it.index() ==> #[trigger] keys[j] == *it.seq()[j].0,
        {
            let c = v.clone();
            assert(c@ =~= v@);
            r.push(c);
            proof {
                keys = keys.push(*k);
            }
        }
        let ghost rem = vstd::std_specs::iter::IteratorSpec::remaining(&m.iter());
        let ghost rv = r@.map_values(|v: Vec<u8>| v@);
        let ghost acks = self@.chans[chan as int].acks;
        assert(acks.dom() =~= m@.dom());
        assert(keys.len() == rem.len());
        assert forall|i: int| 0 <= i < keys.len() implies acks.contains_key(#[trigger] keys[i]) && rv[i] == acks[keys[i]] by {
            assert(m@.contains_key(*rem[i].0) && m@[*rem[i].0] == *rem[i].1);
        }
        assert forall|i: int, j: int| 0 <= i < keys.len() && 0 <= j < keys.len() && i != j implies keys[i] != keys[j] by {
            if keys[i] == keys[j] {
                assert(m@[*rem[i].0] == *rem[i].1);
                assert(m@[*rem[j].0] == *rem[j].1);
                assert(rem[i] == rem[j]);
            }
        }
        assert forall|k: u16| acks.contains_key(k) implies keys.contains(k) by {
            assert(m@.contains_key(k));
            assert(rem.contains((&k, &m@[k])));
            let i = choose|i: int| 0 <= i < rem.len() && rem[i] == (&k, &m@[k]);
            assert(keys[i] == k);
        }
        assert(keys.to_set() =~= acks.dom());
        assert(lists_waiting(acks, rv) ) by {
            assert(keys.no_duplicates());
        }
        r
    }

}

/// The control packet that pings the remote: reliable, on channel 0.
pub fn ping_pkt() -> (r: Pkt<Vec<u8>>)
    ensures
        r.chan == 0,
        !r.unrel,
        r.data@ == seq![CtlType::Ping.spec_code()],
{
    let mut data: Vec<u8> = Vec::new();
    data.push(CtlType::Ping.code());
    assert(data@ =~= seq![CtlType::Ping.spec_code()]);
    Pkt { unrel: false, chan: 0, data }
}

/// The control packet that says we disconnect: unreliable, on channel 0.
pub fn disco_pkt() -> (r: Pkt<Vec<u8>>)
    ensures
        r.chan == 0,
        r.unrel,
        r.data@ == seq![CtlType::Disco.spec_code()],
{
    let mut data: Vec<u8> = Vec::new();
    data.push(CtlType::Disco.code());
    assert(data@ =~= seq![CtlType::Disco.spec_code()]);
    Pkt { unrel: true, chan: 0, data }
}

/// `sent` lists the datagrams that wait in `acks`, each once, in some
/// order: it follows a sequence of the waiting sequence numbers without
/// repetition.
pub open spec fn lists_waiting(acks: Map<u16, Seq<u8>>, sent: Seq<Seq<u8>>) -> bool {
    exists|keys: Seq<u16>|
        #![trigger keys.to_set()]
        {
            &&& keys.len() == sent.len()
            &&& keys.no_duplicates()
            &&& keys.to_set() == acks.dom()
            &&& forall|i: int| 0 <= i < keys.len() ==> #[trigger] sent[i] == acks[keys[i]]
        }
}

/// `sent` lists the datagrams that wait for an acknowledgement on the
/// channels, one channel after the other.
pub open spec fn resends(s: ShareV, sent: Seq<Seq<u8>>) -> bool {
    exists|p0: Seq<Seq<u8>>, p1: Seq<Seq<u8>>, p2: Seq<Seq<u8>>|
        #![trigger p0 + p1 + p2]
        {
            &&& sent == p0 + p1 + p2
            &&& lists_waiting(s.chans[0].acks, p0)
            &&& lists_waiting(s.chans[1].acks, p1)
            &&& lists_waiting(s.chans[2].acks, p2)
        }
}

} // verus!
