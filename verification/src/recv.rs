//! The receiving side of a connection.
use vstd::prelude::*;
use std::collections::{HashMap, VecDeque};
use crate::common::{
    seqnum_after, spec_slot, to_seqnum, CtlType, Pkt, PktType, INIT_SEQNUM, NUM_CHANS, PROTO_ID, REL_BUFFER,
    TIMEOUT,
};
use crate::error::{unexpected_eof, Error, Fault};
use crate::model::{
    advanced, chan_wf, cleaned, cleaned_splits, closed, flatten, fresh_recv, fresh_recv_chan, kept_by_cleanup,
    lemma_count_le, lemma_count_none, lemma_count_update, lemma_drain_fuel, lemma_unwind_fuel, lemma_weight_update,
    no_chunks, queued, rx_wf, set_packet, set_splits, spec_ack_sent, spec_ctl, spec_drain, spec_handle_err,
    spec_handle_pkt, spec_process, spec_settle, spec_split, spec_unwind, split_wf, to_send, weight, with_chan,
    Effect, InPktV, Inter, Outcome, Pause, RecvChanV, RecvV, SplitV, StepV,
};
use crate::send::{resends, RudpShare};
use crate::wire::{append_bytes, be16, push_u16, read_u16_at, read_u32_at, tail, u16_bytes};

verus! {

broadcast use vstd::std_specs::hash::group_hash_axioms;

/// A packet that the receiver hands out, or the error it reports.
pub type InPkt = Result<Pkt<Vec<u8>>, Error>;

/// The bytes of an optional buffer.
pub open spec fn opt_bytes(x: Option<Vec<u8>>) -> Option<Seq<u8>> {
    match x {
        Some(v) => Some(v@),
        None => None,
    }
}

/// The model of a packet that the receiver hands out.
pub open spec fn in_pkt_view(x: InPkt) -> InPktV {
    match x {
        Ok(p) => Ok(Pkt { unrel: p.unrel, chan: p.chan, data: p.data@ }),
        Err(e) => Err(e@),
    }
}

/// The model of a result.
pub open spec fn res_view(x: Result<(), Error>) -> Result<(), Fault> {
    match x {
        Ok(_) => Ok(()),
        Err(e) => Err(e@),
    }
}

/// What the receiver waits for: a close request, a cleanup tick (with the
/// time in milliseconds), a resend tick, the end of the time allowed without
/// traffic, or what the socket gave (with the time in milliseconds).
#[derive(Debug)]
pub enum Event {
    Close,
    Cleanup(u64),
    Resend,
    Timeout,
    Datagram(Result<Vec<u8>, std::io::Error>, u64),
}

/// What the receiver has for its user: nothing more once it is closed, the
/// next packet or error, or nothing yet.
#[derive(Debug)]
pub enum Poll {
    Closed,
    Ready(InPkt),
    Pending,
}

/// What a step asks of its caller: to send the acknowledgement datagram and
/// hand the outcome of the send to `ack_sent`; or nothing more, with the
/// step's result (an error to hand out to the user).
#[derive(Debug)]
pub enum Step {
    SendAck(Vec<u8>),
    Done(Result<(), Error>),
}

/// The model of a step's request.
pub open spec fn step_view(x: Step) -> StepV {
    match x {
        Step::SendAck(d) => StepV::SendAck(d@),
        Step::Done(r) => StepV::Done(res_view(r)),
    }
}

/// The model of the outcome of a send.
pub open spec fn sent_view(x: Result<(), std::io::Error>) -> Result<(), Fault> {
    match x {
        Ok(_) => Ok(()),
        Err(_) => Err(Fault::Io),
    }
}

/// Where the handling of a packet stopped: at an acknowledgement to send,
/// inside a number of handlings of buffered packets; or at its end.
enum Paused {
    Ack(Vec<u8>, u64),
    Ret(Result<(), Error>),
}

/// The model of where the handling of a packet stopped.
spec fn paused_view(x: Paused) -> Pause {
    match x {
        Paused::Ack(a, d) => Pause::Ack(a@, d as nat),
        Paused::Ret(r) => Pause::Ret(res_view(r)),
    }
}

/// The error that handing back `o` queues, if any.
spec fn queued_error(o: Paused) -> Option<Error> {
    match o {
        Paused::Ret(Err(e)) => if e.spec_is_disco() {
            None
        } else {
            Some(e)
        },
        _ => None,
    }
}

/// `b` begins with `a`.
pub open spec fn extends(a: Seq<InPkt>, b: Seq<InPkt>) -> bool {
    &&& a.len() <= b.len()
    &&& forall|i: int| 0 <= i < a.len() ==> #[trigger] b[i] == a[i]
}

/// Beginning with is transitive.
pub proof fn lemma_extends_trans(a: Seq<InPkt>, b: Seq<InPkt>, c: Seq<InPkt>)
    requires
        extends(a, b),
        extends(b, c),
    ensures
        extends(a, c),
{
}

/// A packet that arrives in chunks.
pub struct Split {
    timestamp: Option<u64>,
    chunks: Vec<Option<Vec<u8>>>,
    got: usize,
}

impl View for Split {
    type V = SplitV;

    closed spec fn view(&self) -> SplitV {
        SplitV {
            timestamp: self.timestamp,
            chunks: self.chunks@.map_values(|c: Option<Vec<u8>>| opt_bytes(c)),
            got: self.got as int,
        }
    }
}

/// The receiving state of one channel.
pub struct RecvChan {
    packets: Vec<Option<Vec<u8>>>,
    splits: HashMap<u16, Split>,
    seqnum: u16,
}

impl View for RecvChan {
    type V = RecvChanV;

    closed spec fn view(&self) -> RecvChanV {
        RecvChanV {
            packets: self.packets@.map_values(|c: Option<Vec<u8>>| opt_bytes(c)),
            splits: self.splits@.map_values(|s: Split| s@),
            seqnum: self.seqnum,
        }
    }
}

/// The receiving state of a connection.
pub struct RudpReceiver {
    chans: Vec<RecvChan>,
    closed: bool,
    queue: VecDeque<InPkt>,
    outbox: Vec<Vec<u8>>,
    acked: Vec<(u8, u16)>,
    pending: Option<(u8, u64)>,
}

impl View for RudpReceiver {
    type V = RecvV;

    closed spec fn view(&self) -> RecvV {
        RecvV {
            chans: self.chans@.map_values(|c: RecvChan| c@),
            closed: self.closed,
            queue: self.queue@.map_values(|x: InPkt| in_pkt_view(x)),
            outbox: self.outbox@.map_values(|v: Vec<u8>| v@),
            acked: self.acked@,
            pending: match self.pending {
                Some((c, d)) => Some((c, d as nat)),
                None => None,
            },
        }
    }
}

impl Split {
    /// A packet of `cnt` chunks of which none has come.
    fn fresh(cnt: usize) -> (r: Split)
        requires
            cnt <= 0xffff,
        ensures
            r@ == (SplitV { timestamp: None, chunks: no_chunks(cnt as nat), got: 0 }),
            split_wf(r@),
    {
        let mut chunks: Vec<Option<Vec<u8>>> = Vec::new();
        let mut i: usize = 0;
        while i < cnt
            invariant
                i <= cnt,
                chunks@.len() == i,
                forall|j: int| 0 <= j < i ==> #[trigger] chunks@[j] is None,
            decreases cnt - i,
        {
            chunks.push(None);
            i = i + 1;
        }
        let r = Split { timestamp: None, chunks, got: 0 };
        assert(r@.chunks =~= no_chunks(cnt as nat));
        proof {
            lemma_count_none(cnt as nat);
        }
        r
    }

    /// The chunks one after the other.
    fn concat(&self) -> (r: Vec<u8>)
        ensures
            r@ == flatten(self@.chunks),
    {
        let mut r: Vec<u8> = Vec::new();
        let mut i: usize = 0;
        while i < self.chunks.len()
            invariant
                i <= self.chunks@.len(),
                r@ == flatten(self@.chunks.take(i as int)),
            decreases self.chunks@.len() - i,
        {
            assert(self@.chunks.take(i + 1).drop_last() =~= self@.chunks.take(i as int));
            match &self.chunks[i] {
                Some(c) => {
                    append_bytes(&mut r, c.as_slice());
                },
                None => {},
            }
            i = i + 1;
        }
        assert(self@.chunks.take(i as int) =~= self@.chunks);
        r
    }
}

impl RecvChan {
    /// A fresh channel.
    fn fresh() -> (r: RecvChan)
        ensures
            r@ == fresh_recv_chan(),
    {
        let mut packets: Vec<Option<Vec<u8>>> = Vec::new();
        let mut i: usize = 0;
        while i < REL_BUFFER
            invariant
                i <= REL_BUFFER,
                packets@.len() == i,
                forall|j: int| 0 <= j < i ==> #[trigger] packets@[j] is None,
            decreases REL_BUFFER - i,
        {
            packets.push(None);
            i = i + 1;
        }
        let r = RecvChan { packets, splits: HashMap::new(), seqnum: INIT_SEQNUM };
        assert(r@.packets =~= fresh_recv_chan().packets);
        assert(r@.splits =~= fresh_recv_chan().splits);
        r
    }

    /// Takes the packet out of slot `slot` of the reorder buffer.
    fn take_slot(&mut self, slot: usize) -> (r: Option<Vec<u8>>)
        requires
            slot < old(self)@.packets.len(),
        ensures
            opt_bytes(r) == old(self)@.packets[slot as int],
            final(self)@ == set_packet(old(self)@, slot as int, None),
    {
        let r = self.packets[slot].take();
        assert(final(self)@.packets =~= old(self)@.packets.update(slot as int, None));
        r
    }

    /// Puts the packet `p` into slot `slot` of the reorder buffer.
    fn put_slot(&mut self, slot: usize, p: Vec<u8>)
        requires
            slot < old(self)@.packets.len(),
        ensures
            final(self)@ == set_packet(old(self)@, slot as int, Some(p@)),
    {
        self.packets.set(slot, Some(p));
        assert(final(self)@.packets =~= old(self)@.packets.update(slot as int, Some(p@)));
    }

    /// Drops the packets in chunks that the periodic cleanup does not keep
    /// at time `now`.
    fn cleanup(&mut self, now: u64)
        ensures
            final(self)@ == set_splits(old(self)@, cleaned_splits(old(self)@.splits, now)),
    {
        let ghost m0 = self.splits@;
        let mut doomed: Vec<u16> = Vec::new();
        for k in it: self.splits.keys()
            invariant
                self.splits@ == m0,
                forall|j: int| 0 <= j < doomed@.len() ==> m0.contains_key(#[trigger] doomed@[j])
                    && !kept_by_cleanup(m0[doomed@[j]]@, now),
                forall|j: int| 0 <= j < it.index() ==> m0.contains_key(*#[trigger] it.seq()[j]) && !kept_by_cleanup(m0[*it.seq()[j]]@, now)
                    ==> doomed@.contains(*it.seq()[j]),
        {
            let ghost before = doomed@;
            match self.splits.get(k) {
                Some(sp) => {
                    let fresh = match sp.timestamp {
                        Some(t) => {
                            let el = if now >= t { now - t } else { 0 };
                            el < TIMEOUT * 1000
                        },
                        None => false,
                    };
                    if fresh {
                        doomed.push(*k);
                    }
                },
                None => {},
            }
            proof {
                assert forall|j: int| 0 <= j < doomed@.len() implies m0.contains_key(#[trigger] doomed@[j])
                    && !kept_by_cleanup(m0[doomed@[j]]@, now) by {
                    if j < before.len() {
                        assert(doomed@[j] == before[j]);
                    }
                }
                assert forall|j: int| 0 <= j < it.index() + 1 implies m0.contains_key(*#[trigger] it.seq()[j])
                    && !kept_by_cleanup(m0[*it.seq()[j]]@, now) ==> doomed@.contains(*it.seq()[j]) by {
                    if m0.contains_key(*it.seq()[j]) && !kept_by_cleanup(m0[*it.seq()[j]]@, now) {
                        if j == it.index() {
                            assert(doomed@[doomed@.len() - 1] == *it.seq()[j]);
                        } else {
                            let w = choose|w: int| 0 <= w < before.len() && before[w] == *it.seq()[j];
                            assert(doomed@[w] == before[w]);
                        }
                    }
                }
            }
        }
        proof {
            assert forall|k: u16| m0.contains_key(k) && !kept_by_cleanup(m0[k]@, now) implies doomed@.contains(k) by {
                assert(vstd::std_specs::iter::IteratorSpec::remaining(&self.splits.keys()).unref().to_set().contains(k));
            }
        }
        let mut i: usize = 0;
        while i < doomed.len()
            invariant
                i <= doomed@.len(),
                forall|j: int| 0 <= j < doomed@.len() ==> m0.contains_key(#[trigger] doomed@[j])
                    && !kept_by_cleanup(m0[doomed@[j]]@, now),
                forall|k: u16| m0.contains_key(k) && !kept_by_cleanup(m0[k]@, now) ==> doomed@.contains(k),
                forall|k: u16| #[trigger] self.splits@.contains_key(k) <==> m0.contains_key(k) && !listed(doomed@, i as int, k),
                forall|k: u16| #[trigger] self.splits@.contains_key(k) ==> self.splits@[k] == m0[k],
                self.packets@ == old(self).packets@,
                self.seqnum == old(self).seqnum,
                m0 == old(self).splits@,
            decreases doomed@.len() - i,
        {
            let k = doomed[i];
            self.splits.remove(&k);
            proof {
                assert forall|x: u16| listed(doomed@, i + 1, x) <==> listed(doomed@, i as int, x) || x == k by {
                    if x == k {
                        assert(doomed@[i as int] == x);
                    }
                }
            }
            i = i + 1;
        }
        proof {
            assert forall|k: u16| doomed@.contains(k) implies listed(doomed@, doomed@.len() as int, k) by {
                let w = choose|w: int| 0 <= w < doomed@.len() && doomed@[w] == k;
                assert(doomed@[w] == k);
            }
            assert forall|k: u16| listed(doomed@, doomed@.len() as int, k) implies !kept_by_cleanup(m0[k]@, now)
                && m0.contains_key(k) by {
                let w = choose|w: int| 0 <= w < doomed@.len() && #[trigger] doomed@[w] == k;
                assert(doomed@[w] == k);
            }
        }
        assert(final(self)@.splits =~= cleaned_splits(old(self)@.splits, now));
    }

    /// Expects the next sequence number.
    fn advance(&mut self)
        ensures
            final(self)@ == advanced(old(self)@),
    {
        self.seqnum = seqnum_after(self.seqnum);
    }
}

/// Whether `k` is among the first `i` entries of `s`.
spec fn listed(s: Seq<u16>, i: int, k: u16) -> bool {
    exists|j: int| 0 <= j < i && #[trigger] s[j] == k
}

/// Replacing a channel by a well-formed one keeps the state well formed.
proof fn lemma_with_chan_wf(r: RecvV, ch: int, c: RecvChanV)
    requires
        rx_wf(r),
        chan_wf(c),
        0 <= ch < NUM_CHANS,
    ensures
        rx_wf(with_chan(r, ch, c)),
{
    assert forall|i: int| 0 <= i < NUM_CHANS implies chan_wf(#[trigger] with_chan(r, ch, c).chans[i]) by {
        if i != ch {
            assert(with_chan(r, ch, c).chans[i] == r.chans[i]);
        }
    }
}

impl RudpReceiver {
    /// The state is well formed.
    pub open spec fn wf(&self) -> bool {
        rx_wf(self@)
    }

    /// The packets and errors to hand out, as they are.
    pub closed spec fn items(&self) -> Seq<InPkt> {
        self.queue@
    }

    /// The model's queue is the items' models.
    pub proof fn lemma_items(&self)
        ensures
            self@.queue == self.items().map_values(|x: InPkt| in_pkt_view(x)),
    {
    }

    /// Whether the receiver waits for the outcome of sending an
    /// acknowledgement.
    pub fn awaits_ack(&self) -> (r: bool)
        ensures
            r == self@.pending is Some,
    {
        self.pending.is_some()
    }

    /// Whether the receiver waits for the outcome of sending an
    /// acknowledgement inside fewer than `u64::MAX` handlings of buffered
    /// packets, so that `ack_sent` can take it.
    pub fn can_take_ack(&self) -> (r: bool)
        ensures
            r == (self@.pending matches Some((_, d)) && d < 0xffff_ffff_ffff_ffffnat),
    {
        match self.pending {
            Some((_, d)) => d < 0xffff_ffff_ffff_ffffu64,
            None => false,
        }
    }

    /// A fresh receiving state.
    pub fn new() -> (r: RudpReceiver)
        ensures
            r.wf(),
            r@ == fresh_recv(),
    {
        let mut chans: Vec<RecvChan> = Vec::new();
        let mut i: usize = 0;
        while i < NUM_CHANS
            invariant
                i <= NUM_CHANS,
                chans@.len() == i,
                forall|j: int| 0 <= j < i ==> #[trigger] chans@[j]@ == fresh_recv_chan(),
            decreases NUM_CHANS - i,
        {
            chans.push(RecvChan::fresh());
            i = i + 1;
        }
        let r = RudpReceiver {
            chans,
            closed: false,
            queue: VecDeque::new(),
            outbox: Vec::new(),
            acked: Vec::new(),
            pending: None,
        };
        assert(r@.chans =~= fresh_recv().chans);
        assert(r@.queue =~= fresh_recv().queue);
        assert(r@.outbox =~= fresh_recv().outbox);
        r
    }

    /// Whether the receiver is closed.
    pub fn is_closed(&self) -> (r: bool)
        ensures
            r == self@.closed,
    {
        self.closed
    }

    /// Takes the packet out of slot `slot` of channel `ch`.
    fn take_packet(&mut self, ch: u8, slot: usize) -> (r: Option<Vec<u8>>)
        requires
            rx_wf(old(self)@),
            ch < NUM_CHANS,
            slot < REL_BUFFER,
        ensures
            final(self).items() == old(self).items(),
            rx_wf(final(self)@),
            opt_bytes(r) == old(self)@.chans[ch as int].packets[slot as int],
            final(self)@ == with_chan(old(self)@, ch as int, set_packet(old(self)@.chans[ch as int], slot as int, None)),
    {
        let ghost c0 = self@.chans[ch as int];
        let r = self.chans[ch as usize].take_slot(slot);
        assert(final(self)@.chans =~= old(self)@.chans.update(ch as int, set_packet(c0, slot as int, None)));
        proof {
            lemma_with_chan_wf(old(self)@, ch as int, set_packet(c0, slot as int, None));
        }
        r
    }

    /// Puts the packet `p` into slot `slot` of channel `ch`.
    fn put_packet(&mut self, ch: u8, slot: usize, p: Vec<u8>)
        requires
            rx_wf(old(self)@),
            ch < NUM_CHANS,
            slot < REL_BUFFER,
        ensures
            final(self).items() == old(self).items(),
            rx_wf(final(self)@),
            final(self)@ == with_chan(old(self)@, ch as int, set_packet(old(self)@.chans[ch as int], slot as int, Some(p@))),
    {
        let ghost c0 = self@.chans[ch as int];
        let ghost pv = p@;
        self.chans[ch as usize].put_slot(slot, p);
        assert(final(self)@.chans =~= old(self)@.chans.update(ch as int, set_packet(c0, slot as int, Some(pv))));
        proof {
            lemma_with_chan_wf(old(self)@, ch as int, set_packet(c0, slot as int, Some(pv)));
        }
    }

    /// Channel `ch` expects its next sequence number.
    fn advance(&mut self, ch: u8)
        requires
            rx_wf(old(self)@),
            ch < NUM_CHANS,
        ensures
            final(self).items() == old(self).items(),
            rx_wf(final(self)@),
            final(self)@ == with_chan(old(self)@, ch as int, advanced(old(self)@.chans[ch as int])),
    {
        let ghost c0 = self@.chans[ch as int];
        self.chans[ch as usize].advance();
        assert(final(self)@.chans =~= old(self)@.chans.update(ch as int, advanced(c0)));
        proof {
            lemma_with_chan_wf(old(self)@, ch as int, advanced(c0));
        }
    }

    /// Hands out `x` last.
    fn enqueue(&mut self, x: InPkt)
        ensures
            final(self)@ == queued(old(self)@, in_pkt_view(x)),
            final(self).items() == old(self).items().push(x),
    {
        let ghost xv = in_pkt_view(x);
        self.queue.push_back(x);
        assert(final(self)@.queue =~= old(self)@.queue.push(xv));
    }

    /// An error that ends the connection closes the receiver and is
    /// returned; another one is handed out in the queue, and `Ok` returned.
    pub fn handle_err(&mut self, res: Result<(), Error>) -> (r: Result<(), Error>)
        ensures
            (final(self)@, res_view(r)) == spec_handle_err(old(self)@, res_view(res)),
            r is Err ==> r == res,
            r is Err || res is Ok ==> final(self).items() == old(self).items(),
            r is Ok && res is Err ==> final(self).items() == old(self).items().push(Err(res->Err_0)),
    {
        match res {
            Ok(()) => Ok(()),
            Err(e) => {
                if e.is_disco() {
                    self.closed = true;
                    Err(e)
                } else {
                    self.enqueue(Err(e));
                    Ok(())
                }
            },
        }
    }

    /// Handles the control packet `buf` (its kind first) of channel `ch`.
    fn process_ctl(&mut self, share: &mut RudpShare, buf: &Vec<u8>, ch: u8) -> (r: Result<(), Error>)
        requires
            rx_wf(old(self)@),
            old(share).wf(),
            ch < NUM_CHANS,
        ensures
            rx_wf(final(self)@),
            final(share).wf(),
            spec_ctl(old(self)@, old(share)@, buf@, ch) == (Effect { rx: final(self)@, share: final(share)@, res: res_view(r) }),
            final(self).items() == old(self).items(),
    {
        if buf.len() < 2 {
            return Err(Error::IoError(unexpected_eof()));
        }
        match CtlType::from_code(buf[1]) {
            None => Err(Error::InvalidType(buf[1])),
            Some(CtlType::Ack) => {
                if buf.len() < 4 {
                    return Err(Error::IoError(unexpected_eof()));
                }
                let seqnum = read_u16_at(buf.as_slice(), 2);
                assert(seqnum == be16(buf@[2], buf@[3]) as u16);
                let ghost s0 = share@;
                proof {
                    if !s0.chans[ch as int].acks.contains_key(seqnum) {
                        assert(s0.chans[ch as int].acks.remove(seqnum) =~= s0.chans[ch as int].acks);
                        assert(s0.chans.update(ch as int, s0.chans[ch as int]) =~= s0.chans);
                    }
                }
                if share.acknowledge(ch, seqnum) {
                    self.acked.push((ch, seqnum));
                    assert(self@ == (RecvV { acked: old(self)@.acked.push((ch, seqnum)), ..old(self)@ }));
                }
                Ok(())
            },
            Some(CtlType::SetPeerID) => {
                if share.remote_id() != 0 {
                    return Err(Error::PeerIDAlreadySet);
                }
                if buf.len() < 4 {
                    return Err(Error::IoError(unexpected_eof()));
                }
                let id = read_u16_at(buf.as_slice(), 2);
                assert(id == be16(buf@[2], buf@[3]) as u16);
                share.set_remote_id(id);
                Ok(())
            },
            Some(CtlType::Ping) => Ok(()),
            Some(CtlType::Disco) => Err(Error::RemoteDisco(false)),
        }
    }

    /// Handles chunk `idx` of `cnt` chunks of packet `seqnum` of channel `ch`.
    fn handle_split(
        &mut self,
        ch: u8,
        unrel: bool,
        now: u64,
        seqnum: u16,
        idx: usize,
        cnt: usize,
        payload: Vec<u8>,
    ) -> (r: Result<(), Error>)
        requires
            rx_wf(old(self)@),
            ch < NUM_CHANS,
            cnt <= 0xffff,
        ensures
            rx_wf(final(self)@),
            (final(self)@, res_view(r)) == spec_split(old(self)@, ch, unrel, now, seqnum, idx as int, cnt as int, payload@),
            extends(old(self).items(), final(self).items()),
    {
        let ghost r0 = self@;
        let ghost c0 = self@.chans[ch as int];
        let ch_u = ch as usize;
        assert(chan_wf(c0));
        let existing = self.chans[ch_u].splits.remove(&seqnum);
        let ghost r1 = self@;
        assert(r1.chans[ch as int].splits =~= c0.splits.remove(seqnum));
        assert(r1.chans =~= r0.chans.update(ch as int, set_splits(c0, c0.splits.remove(seqnum))));
        let mut sp = match existing {
            Some(x) => x,
            None => Split::fresh(cnt),
        };
        let ghost sp0 = sp@;
        assert(sp0 == (if c0.splits.contains_key(seqnum) { c0.splits[seqnum] } else {
            SplitV { timestamp: None, chunks: no_chunks(cnt as nat), got: 0 }
        }));
        assert(split_wf(sp0));
        if sp.chunks.len() != cnt {
            let n = sp.chunks.len();
            self.chans[ch_u].splits.insert(seqnum, sp);
            assert(self@.chans[ch as int].splits =~= c0.splits.insert(seqnum, sp0));
            assert(self@.chans =~= r0.chans.update(ch as int, set_splits(c0, c0.splits.insert(seqnum, sp0))));
            proof {
                lemma_with_chan_wf(r0, ch as int, set_splits(c0, c0.splits.insert(seqnum, sp0)));
            }
            return Err(Error::InvalidChunkCount(n, cnt));
        }
        if idx >= cnt {
            self.chans[ch_u].splits.insert(seqnum, sp);
            assert(self@.chans[ch as int].splits =~= c0.splits.insert(seqnum, sp0));
            assert(self@.chans =~= r0.chans.update(ch as int, set_splits(c0, c0.splits.insert(seqnum, sp0))));
            proof {
                lemma_with_chan_wf(r0, ch as int, set_splits(c0, c0.splits.insert(seqnum, sp0)));
            }
            return Err(Error::InvalidChunkIndex(idx, cnt));
        }
        let was_none = sp.chunks[idx].is_none();
        let ghost pv = payload@;
        proof {
            lemma_count_update(sp0.chunks, idx as int, pv);
            lemma_count_le(sp0.chunks);
        }
        sp.chunks.set(idx, Some(payload));
        assert(sp@.chunks =~= sp0.chunks.update(idx as int, Some(pv)));
        if was_none {
            sp.got = sp.got + 1;
        }
        sp.timestamp = if unrel { Some(now) } else { None };
        if sp.got == cnt {
            let data = sp.concat();
            self.enqueue(Ok(Pkt { chan: ch, unrel, data }));
            proof {
                lemma_with_chan_wf(r0, ch as int, set_splits(c0, c0.splits.remove(seqnum)));
            }
        } else {
            let ghost sp2 = sp@;
            self.chans[ch_u].splits.insert(seqnum, sp);
            assert(self@.chans[ch as int].splits =~= c0.splits.insert(seqnum, sp2));
            assert(self@.chans =~= r0.chans.update(ch as int, set_splits(c0, c0.splits.insert(seqnum, sp2))));
            proof {
                lemma_with_chan_wf(r0, ch as int, set_splits(c0, c0.splits.insert(seqnum, sp2)));
            }
        }
        Ok(())
    }

    /// Queues the datagram `d` to be sent.
    fn push_out(&mut self, d: Vec<u8>)
        ensures
            final(self)@ == to_send(old(self)@, d@),
            final(self).items() == old(self).items(),
    {
        let ghost dv = d@;
        self.outbox.push(d);
        assert(final(self)@.outbox =~= old(self)@.outbox.push(dv));
    }

    /// Handles the packet `buf` (its kind first) of channel `ch`; `unrel`
    /// says whether it came unreliably, `now` is the time. A reliable packet
    /// is put into the reorder buffer and its acknowledgement returned.
    fn process_pkt(&mut self, share: &mut RudpShare, buf: Vec<u8>, unrel: bool, ch: u8, now: u64) -> (r: Paused)
        requires
            rx_wf(old(self)@),
            old(share).wf(),
            ch < NUM_CHANS,
        ensures
            rx_wf(final(self)@),
            final(share).wf(),
            spec_process(old(self)@, old(share)@, buf@, unrel, ch, now)
                == (Inter { rx: final(self)@, share: final(share)@, pause: paused_view(r) }),
            extends(old(self).items(), final(self).items()),
            r is Ret ==> final(self)@.chans[ch as int].packets == old(self)@.chans[ch as int].packets,
    {
        if buf.len() < 1 {
            return Paused::Ret(Err(Error::IoError(unexpected_eof())));
        }
        let t = buf[0];
        match PktType::from_code(t) {
            None => Paused::Ret(Err(Error::InvalidType(t))),
            Some(PktType::Ctl) => Paused::Ret(self.process_ctl(share, &buf, ch)),
            Some(PktType::Orig) => {
                let data = tail(buf.as_slice(), 1);
                self.enqueue(Ok(Pkt { chan: ch, unrel, data }));
                Paused::Ret(Ok(()))
            },
            Some(PktType::Split) => {
                if buf.len() < 7 {
                    return Paused::Ret(Err(Error::IoError(unexpected_eof())));
                }
                let seqnum = read_u16_at(buf.as_slice(), 1);
                let idx = read_u16_at(buf.as_slice(), 3) as usize;
                let cnt = read_u16_at(buf.as_slice(), 5) as usize;
                let payload = tail(buf.as_slice(), 7);
                Paused::Ret(self.handle_split(ch, unrel, now, seqnum, idx, cnt, payload))
            },
            Some(PktType::Rel) => {
                if buf.len() < 3 {
                    return Paused::Ret(Err(Error::IoError(unexpected_eof())));
                }
                let seqnum = read_u16_at(buf.as_slice(), 1);
                let payload = tail(buf.as_slice(), 3);
                let slot = to_seqnum(seqnum);
                self.put_packet(ch, slot, payload);
                let mut ack: Vec<u8> = Vec::new();
                ack.push(CtlType::Ack.code());
                push_u16(&mut ack, seqnum);
                assert(ack@ =~= seq![0u8] + u16_bytes(seqnum));
                let d = share.encode_pkt(PktType::Ctl, &Pkt { unrel: true, chan: ch, data: ack });
                Paused::Ack(d, 0)
            },
        }
    }

    /// Handles, in order, the buffered reliable packets of channel `ch` that
    /// are due, until one is missing, an error ends the connection, or one
    /// waits for its acknowledgement. Returns where it stopped and an amount
    /// of fuel with which the model gives the same outcome.
    fn drain(&mut self, share: &mut RudpShare, ch: u8, now: u64) -> (out: (Paused, Ghost<nat>))
        requires
            rx_wf(old(self)@),
            old(share).wf(),
            ch < NUM_CHANS,
        ensures
            rx_wf(final(self)@),
            final(share).wf(),
            spec_drain(old(self)@, old(share)@, ch, now, out.1@)
                == Some(Inter { rx: final(self)@, share: final(share)@, pause: paused_view(out.0) }),
            extends(old(self).items(), final(self).items()),
            out.0 matches Paused::Ack(_, d) ==> d == 1,
        decreases weight(old(self)@.chans[ch as int].packets),
    {
        let ghost r0 = self@;
        let ghost c0 = r0.chans[ch as int];
        let slot = to_seqnum(self.chans[ch as usize].seqnum);
        assert(slot as int == spec_slot(c0.seqnum));
        let taken = self.take_packet(ch, slot);
        match taken {
            None => {
                assert(c0.packets.update(slot as int, None) =~= c0.packets);
                assert(self@.chans =~= r0.chans);
                (Paused::Ret(Ok(())), Ghost(1nat))
            },
            Some(p) => {
                proof {
                    lemma_weight_update(c0.packets, slot as int, None);
                }
                let ghost i1 = self.items();
                match self.process_pkt(share, p, false, ch, now) {
                    Paused::Ack(a, _) => (Paused::Ack(a, 1), Ghost(1nat)),
                    Paused::Ret(res) => {
                        let ghost i2 = self.items();
                        let res2 = self.handle_err(res);
                        let ghost i3 = self.items();
                        assert(extends(i2, i3)) by {
                            assert(i3.take(i2.len() as int) =~= i2);
                        }
                        proof {
                            lemma_extends_trans(i1, i2, i3);
                        }
                        if res2.is_err() {
                            return (Paused::Ret(res2), Ghost(1nat));
                        }
                        self.advance(ch);
                        let (x, Ghost(f)) = self.drain(share, ch, now);
                        proof {
                            lemma_extends_trans(i1, i3, self.items());
                        }
                        (x, Ghost(f + 1))
                    },
                }
            },
        }
    }

    /// The handling of a reliable packet of channel `ch`, inside `depth`
    /// handlings of buffered packets, ended with `res`; those handlings go on
    /// in turn. Returns where it stopped and an amount of fuel with which the
    /// model gives the same outcome.
    fn unwind(
        &mut self,
        share: &mut RudpShare,
        ch: u8,
        depth: u64,
        res: Result<(), Error>,
        now: u64,
    ) -> (out: (Paused, Ghost<nat>))
        requires
            rx_wf(old(self)@),
            old(share).wf(),
            ch < NUM_CHANS,
        ensures
            rx_wf(final(self)@),
            final(share).wf(),
            spec_unwind(old(self)@, old(share)@, ch, depth as nat, res_view(res), now, out.1@)
                == Some(Inter { rx: final(self)@, share: final(share)@, pause: paused_view(out.0) }),
            extends(old(self).items(), final(self).items()),
            out.0 matches Paused::Ack(_, d) ==> d <= depth,
            depth == 0 ==> out.0 == Paused::Ret(res) && final(self).items() == old(self).items(),
            depth > 0 && res is Err && !res->Err_0.spec_is_disco() ==> final(self).items().len() > old(self).items().len()
                && final(self).items()[old(self).items().len() as int] == Err::<Pkt<Vec<u8>>, Error>(res->Err_0),
        decreases depth,
    {
        if depth == 0 {
            return (Paused::Ret(res), Ghost(0nat));
        }
        let ghost i0 = self.items();
        let ghost s0 = share@;
        let ghost was_err = res is Err;
        let res2 = self.handle_err(res);
        let ghost i1 = self.items();
        assert(extends(i0, i1)) by {
            assert(i1.take(i0.len() as int) =~= i0);
        }
        if res2.is_err() {
            let (x, Ghost(f)) = self.unwind(share, ch, depth - 1, res2, now);
            proof {
                lemma_extends_trans(i0, i1, self.items());
            }
            return (x, Ghost(f));
        }
        self.advance(ch);
        let ghost r3 = self@;
        let (o, Ghost(f1)) = self.drain(share, ch, now);
        let ghost i2 = self.items();
        let ghost rd = self@;
        let ghost sd = share@;
        proof {
            lemma_extends_trans(i0, i1, i2);
            if was_err {
                assert(i2[i0.len() as int] == i1[i0.len() as int]);
            }
        }
        match o {
            Paused::Ack(a, _) => (Paused::Ack(a, depth), Ghost(f1)),
            Paused::Ret(res3) => {
                let ghost v3 = res_view(res3);
                let (x, Ghost(f2)) = self.unwind(share, ch, depth - 1, res3, now);
                let ghost f: nat = if f1 >= f2 { f1 } else { f2 };
                proof {
                    lemma_extends_trans(i0, i2, self.items());
                    if was_err {
                        assert(self.items()[i0.len() as int] == i2[i0.len() as int]);
                    }
                    lemma_drain_fuel(r3, s0, ch, now, f1, f);
                    lemma_unwind_fuel(rd, sd, ch, (depth - 1) as nat, v3, now, f2, f);
                }
                (x, Ghost(f))
            },
        }
    }

    /// What the caller of a step gets where the handling of a packet of
    /// channel `ch` stopped: the acknowledgement to send, the receiver now
    /// waiting for how it went; or the result, as `handle_err` makes of it.
    fn settle(&mut self, share: &RudpShare, ch: u8, o: Paused) -> (r: Step)
        requires
            rx_wf(old(self)@),
            ch < NUM_CHANS,
        ensures
            rx_wf(final(self)@),
            spec_settle(Inter { rx: old(self)@, share: share@, pause: paused_view(o) }, ch)
                == (Outcome { rx: final(self)@, share: share@, step: step_view(r) }),
            queued_error(o) matches Some(e) ==> final(self).items() == old(self).items().push(Err(e)),
            queued_error(o) is None ==> final(self).items() == old(self).items(),
    {
        match o {
            Paused::Ack(a, d) => {
                self.pending = Some((ch, d));
                Step::SendAck(a)
            },
            Paused::Ret(res) => Step::Done(self.handle_err(res)),
        }
    }

    /// Handles what the socket gave, at time `now` in milliseconds: an I/O
    /// error is returned as it is; a datagram has its header checked and its
    /// packet handled as one that came unreliably. A reliable packet stops
    /// the step at its acknowledgement, which the caller sends before handing
    /// the outcome to `ack_sent`.
    pub fn handle_pkt(&mut self, share: &mut RudpShare, pkt: Result<Vec<u8>, std::io::Error>, now: u64) -> (r: Step)
        requires
            old(self).wf(),
            old(share).wf(),
            old(self)@.pending is None,
        ensures
            final(self).wf(),
            final(share).wf(),
            pkt is Err ==> final(self)@ == old(self)@ && final(share)@ == old(share)@,
            pkt matches Err(e) ==> r matches Step::Done(Err(Error::IoError(e2))) && e2 == e,
            pkt matches Ok(d) ==> spec_handle_pkt(old(self)@, old(share)@, d@, now)
                == (Outcome { rx: final(self)@, share: final(share)@, step: step_view(r) }),
            extends(old(self).items(), final(self).items()),
    {
        let d = match pkt {
            Ok(d) => d,
            Err(e) => {
                return Step::Done(Err(Error::IoError(e)));
            },
        };
        if d.len() < 4 {
            return Step::Done(Err(Error::IoError(unexpected_eof())));
        }
        let proto_id = read_u32_at(d.as_slice(), 0);
        if proto_id != PROTO_ID {
            return Step::Done(Err(Error::InvalidProtoId(proto_id)));
        }
        if d.len() < 6 {
            return Step::Done(Err(Error::IoError(unexpected_eof())));
        }
        let _peer_id = read_u16_at(d.as_slice(), 4);
        if d.len() < 7 {
            return Step::Done(Err(Error::IoError(unexpected_eof())));
        }
        let chan = d[6];
        if chan >= 3u8 {
            return Step::Done(Err(Error::InvalidChannel(chan)));
        }
        let rest = tail(d.as_slice(), 7);
        let ghost i0 = self.items();
        let o = self.process_pkt(share, rest, true, chan, now);
        let ghost i1 = self.items();
        let r = self.settle(share, chan, o);
        proof {
            assert(extends(i1, self.items())) by {
                assert(self.items().take(i1.len() as int) =~= i1);
            }
            lemma_extends_trans(i0, i1, self.items());
        }
        r
    }

    /// Takes the outcome `sent` of sending the acknowledgement the receiver
    /// waits for, at time `now` in milliseconds. If it went out, the
    /// reliable packets that are due are handled; if it failed, the packet
    /// stays in the buffer, the channel still expects the same sequence
    /// number, and `IoError` with the send's error is handed out (inside
    /// handlings of buffered packets, those go on after it). The step may
    /// stop again at another acknowledgement.
    pub fn ack_sent(&mut self, share: &mut RudpShare, sent: Result<(), std::io::Error>, now: u64) -> (r: Step)
        requires
            old(self).wf(),
            old(share).wf(),
            old(self)@.pending matches Some((_, d)) && d < 0xffff_ffff_ffff_ffffnat,
        ensures
            final(self).wf(),
            final(share).wf(),
            exists|f: nat|
                spec_ack_sent(old(self)@, old(share)@, sent_view(sent), now, f)
                    == Some(Outcome { rx: final(self)@, share: final(share)@, step: step_view(r) }),
            extends(old(self).items(), final(self).items()),
            sent matches Err(e) ==> final(self).items().len() > old(self).items().len()
                && final(self).items()[old(self).items().len() as int]
                == Err::<Pkt<Vec<u8>>, Error>(Error::IoError(e)),
    {
        let ghost r_old = self@;
        let ghost s0 = share@;
        let ghost i0 = self.items();
        let ghost sv = sent_view(sent);
        let ghost failed = sent is Err;
        let ghost eg = sent->Err_0;
        let (ch, depth) = match self.pending {
            Some(p) => p,
            None => (0, 0),
        };
        self.pending = None;
        let ghost r0 = self@;
        assert(r0 == (RecvV { pending: None, ..r_old }));
        let (o, Ghost(f)) = match sent {
            Err(e) => {
                let (o, Ghost(f)) = self.unwind(share, ch, depth, Err(Error::IoError(e)), now);
                (o, Ghost(f))
            },
            Ok(()) => {
                let (o, Ghost(f1)) = self.drain(share, ch, now);
                match o {
                    Paused::Ack(a, _) => (Paused::Ack(a, depth + 1), Ghost(f1)),
                    Paused::Ret(res) => {
                        let ghost rd = self@;
                        let ghost sd = share@;
                        let ghost v = res_view(res);
                        let (x, Ghost(f2)) = self.unwind(share, ch, depth, res, now);
                        let ghost f: nat = if f1 >= f2 { f1 } else { f2 };
                        proof {
                            lemma_drain_fuel(r0, s0, ch, now, f1, f);
                            lemma_unwind_fuel(rd, sd, ch, depth as nat, v, now, f2, f);
                        }
                        (x, Ghost(f))
                    },
                }
            },
        };
        let ghost i1 = self.items();
        let ghost og = o;
        let r = self.settle(share, ch, o);
        proof {
            lemma_extends_trans(i0, i1, self.items());
            if failed {
                if depth == 0 {
                    assert(og == Paused::Ret(Err(Error::IoError(eg))));
                    assert(queued_error(og) == Some(Error::IoError(eg)));
                    assert(self.items() == i1.push(Err(Error::IoError(eg))));
                } else {
                    assert(self.items()[i0.len() as int] == i1[i0.len() as int]);
                }
            }
        }
        assert(spec_ack_sent(r_old, s0, sv, now, f) == Some(Outcome { rx: self@, share: share@, step: step_view(r) }));
        r
    }

    /// The periodic cleanup of the packets in chunks of every channel, at
    /// time `now` in milliseconds.
    pub fn cleanup(&mut self, now: u64)
        requires
            old(self).wf(),
        ensures
            final(self).wf(),
            final(self)@ == cleaned(old(self)@, now),
            final(self).items() == old(self).items(),
    {
        let mut i: usize = 0;
        while i < NUM_CHANS
            invariant
                i <= NUM_CHANS,
                self@.chans.len() == NUM_CHANS,
                forall|j: int| 0 <= j < i ==> #[trigger] self@.chans[j]
                    == set_splits(old(self)@.chans[j], cleaned_splits(old(self)@.chans[j].splits, now)),
                forall|j: int| i <= j < NUM_CHANS ==> #[trigger] self@.chans[j] == old(self)@.chans[j],
                self.closed == old(self).closed,
                self.queue@ == old(self).queue@,
                self.outbox@ == old(self).outbox@,
                self.acked@ == old(self).acked@,
                self.pending == old(self).pending,
            decreases NUM_CHANS - i,
        {
            let ghost before = self@.chans;
            self.chans[i].cleanup(now);
            assert(self@.chans =~= before.update(
                i as int,
                set_splits(before[i as int], cleaned_splits(before[i as int].splits, now)),
            ));
            i = i + 1;
        }
        assert(self@.chans =~= cleaned(old(self)@, now).chans);
        assert forall|j: int| 0 <= j < NUM_CHANS implies chan_wf(#[trigger] self@.chans[j]) by {
            assert(chan_wf(old(self)@.chans[j]));
            let m = old(self)@.chans[j].splits;
            assert forall|k: u16| #[trigger] cleaned_splits(m, now).contains_key(k) implies split_wf(cleaned_splits(m, now)[k]) by {
                assert(m.contains_key(k));
            }
        }
    }

    /// Takes the next packet or error to hand out, if any.
    pub fn pop_queue(&mut self) -> (r: Option<InPkt>)
        ensures
            old(self)@.queue.len() == 0 ==> r is None && final(self)@ == old(self)@,
            old(self)@.queue.len() > 0 ==> (r matches Some(x) && in_pkt_view(x) == old(self)@.queue[0]),
            old(self)@.queue.len() > 0 ==> final(self)@ == (RecvV { queue: old(self)@.queue.drop_first(), ..old(self)@ }),
            old(self).items().len() == 0 ==> final(self).items() == old(self).items(),
            old(self).items().len() > 0 ==> r == Some(old(self).items()[0]) && final(self).items()
                == old(self).items().drop_first(),
    {
        let r = self.queue.pop_front();
        assert(final(self)@.queue =~= old(self)@.queue.drop_first() || old(self)@.queue.len() == 0);
        proof {
            if old(self)@.queue.len() == 0 {
                assert(final(self)@.queue =~= old(self)@.queue);
            }
        }
        r
    }

    /// Takes the datagrams to send, oldest first.
    pub fn take_outbox(&mut self) -> (r: Vec<Vec<u8>>)
        ensures
            r@.map_values(|v: Vec<u8>| v@) == old(self)@.outbox,
            final(self)@ == (RecvV { outbox: Seq::empty(), ..old(self)@ }),
    {
        let mut r: Vec<Vec<u8>> = Vec::new();
        std::mem::swap(&mut r, &mut self.outbox);
        assert(final(self)@.outbox =~= Seq::<Seq<u8>>::empty());
        assert(r@.map_values(|v: Vec<u8>| v@) =~= old(self)@.outbox);
        r
    }

    /// Takes the acknowledgements that came in, oldest first, by channel
    /// and sequence number.
    pub fn take_acked(&mut self) -> (r: Vec<(u8, u16)>)
        ensures
            r@ == old(self)@.acked,
            final(self)@ == (RecvV { acked: Seq::empty(), ..old(self)@ }),
    {
        let mut r: Vec<(u8, u16)> = Vec::new();
        std::mem::swap(&mut r, &mut self.acked);
        assert(final(self)@.acked =~= Seq::<(u8, u16)>::empty());
        r
    }

    /// Queues the datagrams `v` to be sent, in order.
    fn push_all(&mut self, v: Vec<Vec<u8>>)
        ensures
            final(self)@ == (RecvV { outbox: old(self)@.outbox + v@.map_values(|x: Vec<u8>| x@), ..old(self)@ }),
            final(self).items() == old(self).items(),
    {
        let ghost vv = v@.map_values(|x: Vec<u8>| x@);
        let mut i: usize = 0;
        while i < v.len()
            invariant
                i <= v@.len(),
                vv == v@.map_values(|x: Vec<u8>| x@),
                self@ == (RecvV { outbox: old(self)@.outbox + vv.take(i as int), ..old(self)@ }),
                self.items() == old(self).items(),
            decreases v@.len() - i,
        {
            let x = v[i].clone();
            assert(x@ =~= v@[i as int]@);
            self.push_out(x);
            assert(old(self)@.outbox + vv.take(i + 1) =~= (old(self)@.outbox + vv.take(i as int)).push(vv[i as int]));
            i = i + 1;
        }
        assert(vv.take(i as int) =~= vv);
    }

    /// Handles one event. A close request or the end of the time allowed
    /// closes the receiver and gives `LocalDisco` or `RemoteDisco(true)` to
    /// hand out; a cleanup tick drops packets in chunks; a resend tick
    /// queues every datagram that waits for an acknowledgement; what the
    /// socket gave is handled as `handle_pkt` does.
    pub fn handle_event(&mut self, share: &mut RudpShare, ev: Event) -> (r: Step)
        requires
            old(self).wf(),
            old(share).wf(),
            old(self)@.pending is None,
        ensures
            final(self).wf(),
            final(share).wf(),
            extends(old(self).items(), final(self).items()),
            ev is Close ==> final(self)@ == closed(old(self)@) && final(share)@ == old(share)@
                && r matches Step::Done(Err(Error::LocalDisco)),
            ev is Timeout ==> final(self)@ == closed(old(self)@) && final(share)@ == old(share)@
                && r matches Step::Done(Err(Error::RemoteDisco(true))),
            ev matches Event::Cleanup(now) ==> final(self)@ == cleaned(old(self)@, now)
                && final(share)@ == old(share)@ && r matches Step::Done(Ok(())),
            ev is Resend ==> final(share)@ == old(share)@ && (r matches Step::Done(Ok(())))
                && old(self)@.outbox.len() <= final(self)@.outbox.len()
                && final(self)@ == (RecvV { outbox: final(self)@.outbox, ..old(self)@ })
                && final(self)@.outbox.take(old(self)@.outbox.len() as int) == old(self)@.outbox
                && resends(old(share)@, final(self)@.outbox.skip(old(self)@.outbox.len() as int)),
            ev matches Event::Datagram(Err(e), _) ==> final(self)@ == old(self)@ && final(share)@ == old(share)@
                && (r matches Step::Done(Err(Error::IoError(e2))) && e2 == e),
            ev matches Event::Datagram(Ok(d), now) ==> spec_handle_pkt(old(self)@, old(share)@, d@, now)
                == (Outcome { rx: final(self)@, share: final(share)@, step: step_view(r) }),
    {
        match ev {
            Event::Close => {
                self.closed = true;
                Step::Done(Err(Error::LocalDisco))
            },
            Event::Timeout => {
                self.closed = true;
                Step::Done(Err(Error::RemoteDisco(true)))
            },
            Event::Cleanup(now) => {
                self.cleanup(now);
                Step::Done(Ok(()))
            },
            Event::Resend => {
                let ghost o0 = self@.outbox;
                let p0 = share.pending(0);
                let p1 = share.pending(1);
                let p2 = share.pending(2);
                let ghost v0 = p0@.map_values(|x: Vec<u8>| x@);
                let ghost v1 = p1@.map_values(|x: Vec<u8>| x@);
                let ghost v2 = p2@.map_values(|x: Vec<u8>| x@);
                self.push_all(p0);
                self.push_all(p1);
                self.push_all(p2);
                proof {
                    let sent = v0 + v1 + v2;
                    assert(self@.outbox =~= o0 + sent);
                    assert(self@.outbox.take(o0.len() as int) =~= o0);
                    assert(self@.outbox.skip(o0.len() as int) =~= sent);
                    assert(resends(share@, sent));
                }
                Step::Done(Ok(()))
            },
            Event::Datagram(pkt, now) => self.handle_pkt(share, pkt, now),
        }
    }

    /// What the receiver has for its user: once closed, nothing more;
    /// otherwise the next packet or error in the queue, if any.
    pub fn poll(&mut self) -> (r: Poll)
        ensures
            old(self)@.closed ==> r is Closed && final(self)@ == old(self)@,
            !old(self)@.closed && old(self)@.queue.len() == 0 ==> r is Pending && final(self)@ == old(self)@,
            !old(self)@.closed && old(self)@.queue.len() > 0 ==> (r matches Poll::Ready(x) && in_pkt_view(x)
                == old(self)@.queue[0]),
            !old(self)@.closed && old(self)@.queue.len() > 0 ==> final(self)@ == (RecvV {
                queue: old(self)@.queue.drop_first(),
                ..old(self)@
            }),
            !old(self)@.closed && old(self).items().len() > 0 ==> r == Poll::Ready(old(self).items()[0])
                && final(self).items() == old(self).items().drop_first(),
            old(self)@.closed || old(self).items().len() == 0 ==> final(self).items() == old(self).items(),
    {
        if self.closed {
            return Poll::Closed;
        }
        match self.pop_queue() {
            Some(x) => Poll::Ready(x),
            None => Poll::Pending,
        }
    }
}

} // verus!
