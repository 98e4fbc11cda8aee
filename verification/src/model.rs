//! The model of the receiving side: what a datagram does to the state of a
//! connection, stated over plain values.
use vstd::prelude::*;
use crate::common::{next_seqnum, spec_slot, CtlType, Pkt, PktType, INIT_SEQNUM, NUM_CHANS, PROTO_ID, REL_BUFFER, TIMEOUT};
use crate::error::Fault;
use crate::send::{acked_share, spec_encode, with_remote_id, ShareV};
use crate::wire::{be16, be32, u16_bytes};

verus! {

/// A packet that the receiver hands out, or the error it reports.
pub type InPktV = Result<Pkt<Seq<u8>>, Fault>;

/// A packet that arrives in chunks: when the last chunk came unreliably, the
/// chunks received so far, and how many of them there are.
pub struct SplitV {
    pub timestamp: Option<u64>,
    pub chunks: Seq<Option<Seq<u8>>>,
    pub got: int,
}

/// The receiving state of one channel: the reorder buffer of reliable
/// packets, the packets in chunks by sequence number, and the sequence number
/// that is expected next.
pub struct RecvChanV {
    pub packets: Seq<Option<Seq<u8>>>,
    pub splits: Map<u16, SplitV>,
    pub seqnum: u16,
}

/// The receiving state: its channels, whether it is closed, the packets and
/// errors to hand out, the datagrams to resend, the acknowledgements that
/// came in by channel and sequence number, and, while the acknowledgement of
/// a reliable packet is being sent, its channel and how many handlings of
/// buffered packets wait around it.
pub struct RecvV {
    pub chans: Seq<RecvChanV>,
    pub closed: bool,
    pub queue: Seq<InPktV>,
    pub outbox: Seq<Seq<u8>>,
    pub acked: Seq<(u8, u16)>,
    pub pending: Option<(u8, nat)>,
}

/// The state after a step that does not wait, and what it returned.
pub struct Effect {
    pub rx: RecvV,
    pub share: ShareV,
    pub res: Result<(), Fault>,
}

/// Where the handling of a packet stopped: at the acknowledgement that has
/// to be sent first, with how many handlings of buffered packets wait around
/// it; or at its end, with its result.
pub enum Pause {
    Ack(Seq<u8>, nat),
    Ret(Result<(), Fault>),
}

/// The state where the handling of a packet stopped, and why.
pub struct Inter {
    pub rx: RecvV,
    pub share: ShareV,
    pub pause: Pause,
}

/// What a step asks of its caller: to send an acknowledgement and report how
/// that went, or nothing more, with the step's result.
pub enum StepV {
    SendAck(Seq<u8>),
    Done(Result<(), Fault>),
}

/// The state after a step, and what it asks of its caller.
pub struct Outcome {
    pub rx: RecvV,
    pub share: ShareV,
    pub step: StepV,
}

/// How many chunks are there.
pub open spec fn count_some(s: Seq<Option<Seq<u8>>>) -> nat
    decreases s.len(),
{
    if s.len() == 0 {
        0
    } else {
        count_some(s.drop_last()) + if s.last() is Some { 1nat } else { 0nat }
    }
}

/// The chunks one after the other.
pub open spec fn flatten(s: Seq<Option<Seq<u8>>>) -> Seq<u8>
    decreases s.len(),
{
    if s.len() == 0 {
        Seq::empty()
    } else {
        flatten(s.drop_last()) + match s.last() {
            Some(c) => c,
            None => Seq::<u8>::empty(),
        }
    }
}

/// The weight of a buffered packet: its length and one.
pub open spec fn wt(x: Option<Seq<u8>>) -> nat {
    match x {
        Some(p) => p.len() + 1,
        None => 0,
    }
}

/// The weight of a reorder buffer: the sum of the weights of its packets.
pub open spec fn weight(s: Seq<Option<Seq<u8>>>) -> nat
    decreases s.len(),
{
    if s.len() == 0 {
        0
    } else {
        weight(s.drop_last()) + wt(s.last())
    }
}

/// Replacing one entry changes the weight by the difference of the weights.
pub proof fn lemma_weight_update(s: Seq<Option<Seq<u8>>>, i: int, x: Option<Seq<u8>>)
    requires
        0 <= i < s.len(),
    ensures
        weight(s.update(i, x)) + wt(s[i]) == weight(s) + wt(x),
    decreases s.len(),
{
    if i == s.len() - 1 {
        assert(s.update(i, x).drop_last() =~= s.drop_last());
    } else {
        lemma_weight_update(s.drop_last(), i, x);
        assert(s.update(i, x).drop_last() =~= s.drop_last().update(i, x));
    }
}

/// Replacing one entry by a chunk adds one chunk where there was none.
pub proof fn lemma_count_update(s: Seq<Option<Seq<u8>>>, i: int, x: Seq<u8>)
    requires
        0 <= i < s.len(),
    ensures
        count_some(s.update(i, Some(x))) == count_some(s) + if s[i] is None { 1nat } else { 0nat },
    decreases s.len(),
{
    if i == s.len() - 1 {
        assert(s.update(i, Some(x)).drop_last() =~= s.drop_last());
    } else {
        lemma_count_update(s.drop_last(), i, x);
        assert(s.update(i, Some(x)).drop_last() =~= s.drop_last().update(i, Some(x)));
    }
}

/// There are no more chunks than places.
pub proof fn lemma_count_le(s: Seq<Option<Seq<u8>>>)
    ensures
        count_some(s) <= s.len(),
    decreases s.len(),
{
    if s.len() > 0 {
        lemma_count_le(s.drop_last());
    }
}

/// No chunk has come in yet.
pub open spec fn no_chunks(n: nat) -> Seq<Option<Seq<u8>>> {
    Seq::new(n, |i: int| None::<Seq<u8>>)
}

/// Places without chunks hold no chunk.
pub proof fn lemma_count_none(n: nat)
    ensures
        count_some(no_chunks(n)) == 0,
    decreases n,
{
    if n > 0 {
        lemma_count_none((n - 1) as nat);
        assert(no_chunks(n).drop_last() =~= no_chunks((n - 1) as nat));
    }
}

/// A packet in chunks counts its chunks, and has fewer than 2^16 places.
pub open spec fn split_wf(sp: SplitV) -> bool {
    &&& sp.got == count_some(sp.chunks)
    &&& sp.chunks.len() <= 0xffff
}

/// A channel has one place per slot of its reorder buffer, and its packets in
/// chunks are well formed.
pub open spec fn chan_wf(c: RecvChanV) -> bool {
    &&& c.packets.len() == REL_BUFFER
    &&& forall|k: u16| #[trigger] c.splits.contains_key(k) ==> split_wf(c.splits[k])
}

/// The receiving state has one well-formed state per channel, and waits, if
/// at all, on one of its channels.
pub open spec fn rx_wf(r: RecvV) -> bool {
    &&& r.chans.len() == NUM_CHANS
    &&& forall|i: int| 0 <= i < NUM_CHANS ==> chan_wf(#[trigger] r.chans[i])
    &&& r.pending matches Some((ch, _)) ==> ch < NUM_CHANS
}

/// The receiving state with channel `ch` replaced by `c`.
pub open spec fn with_chan(r: RecvV, ch: int, c: RecvChanV) -> RecvV {
    RecvV { chans: r.chans.update(ch, c), ..r }
}

/// The receiving state with `x` handed out last.
pub open spec fn queued(r: RecvV, x: InPktV) -> RecvV {
    RecvV { queue: r.queue.push(x), ..r }
}

/// The receiving state with `d` to be sent last.
pub open spec fn to_send(r: RecvV, d: Seq<u8>) -> RecvV {
    RecvV { outbox: r.outbox.push(d), ..r }
}

/// The receiving state closed.
pub open spec fn closed(r: RecvV) -> RecvV {
    RecvV { closed: true, ..r }
}

/// Whether an error ends the connection.
pub open spec fn is_disco(e: Fault) -> bool {
    e is RemoteDisco || e is LocalDisco
}

/// What becomes of the result of handling a packet: an error that ends the
/// connection closes the receiver and stays; another error is handed out in
/// the queue and the step counts as done.
pub open spec fn spec_handle_err(r: RecvV, res: Result<(), Fault>) -> (RecvV, Result<(), Fault>) {
    match res {
        Ok(_) => (r, res),
        Err(e) => if is_disco(e) {
            (closed(r), res)
        } else {
            (queued(r, Err(e)), Ok(()))
        },
    }
}

/// The channel with slot `slot` of its reorder buffer set to `x`.
pub open spec fn set_packet(c: RecvChanV, slot: int, x: Option<Seq<u8>>) -> RecvChanV {
    RecvChanV { packets: c.packets.update(slot, x), ..c }
}

/// The channel expecting the sequence number after the one it expected.
pub open spec fn advanced(c: RecvChanV) -> RecvChanV {
    RecvChanV { seqnum: next_seqnum(c.seqnum), ..c }
}

/// The channel with its packets in chunks replaced by `m`.
pub open spec fn set_splits(c: RecvChanV, m: Map<u16, SplitV>) -> RecvChanV {
    RecvChanV { splits: m, ..c }
}

/// A fresh channel: an empty reorder buffer, no packets in chunks, and
/// `INIT_SEQNUM` expected.
pub open spec fn fresh_recv_chan() -> RecvChanV {
    RecvChanV { packets: Seq::new(REL_BUFFER as nat, |i: int| None::<Seq<u8>>), splits: Map::empty(), seqnum: INIT_SEQNUM }
}

/// A fresh receiving state: fresh channels, open, with nothing to hand out
/// or to send.
pub open spec fn fresh_recv() -> RecvV {
    RecvV {
        chans: Seq::new(NUM_CHANS as nat, |i: int| fresh_recv_chan()),
        closed: false,
        queue: Seq::empty(),
        outbox: Seq::empty(),
        acked: Seq::empty(),
        pending: None,
    }
}

/// Milliseconds from `t` to `now`; none when `now` comes first.
pub open spec fn elapsed(t: u64, now: u64) -> int {
    if now >= t {
        now - t
    } else {
        0
    }
}

/// Whether the periodic cleanup keeps a packet in chunks at time `now` (in
/// milliseconds): it drops those whose last chunk came unreliably less than
/// `TIMEOUT` seconds ago, and keeps the others.
pub open spec fn kept_by_cleanup(sp: SplitV, now: u64) -> bool {
    match sp.timestamp {
        Some(t) => elapsed(t, now) >= TIMEOUT * 1000,
        None => true,
    }
}

/// The packets in chunks that the periodic cleanup keeps.
pub open spec fn cleaned_splits(m: Map<u16, SplitV>, now: u64) -> Map<u16, SplitV> {
    Map::new(|k: u16| m.contains_key(k) && kept_by_cleanup(m[k], now), |k: u16| m[k])
}

/// The receiving state after the periodic cleanup at time `now`.
pub open spec fn cleaned(r: RecvV, now: u64) -> RecvV {
    RecvV {
        chans: Seq::new(r.chans.len(), |i: int| set_splits(r.chans[i], cleaned_splits(r.chans[i].splits, now))),
        ..r
    }
}

/// A step that leaves the state unchanged.
pub open spec fn unchanged(r: RecvV, s: ShareV, res: Result<(), Fault>) -> Effect {
    Effect { rx: r, share: s, res }
}

/// The end of the handling of a packet.
pub open spec fn ret(e: Effect) -> Inter {
    Inter { rx: e.rx, share: e.share, pause: Pause::Ret(e.res) }
}

/// The acknowledgement of the reliable packet `seqnum` of channel `ch`.
pub open spec fn ack_datagram(remote_id: u16, ch: u8, seqnum: u16) -> Seq<u8> {
    spec_encode(remote_id, ch, None, 0, seq![0u8] + u16_bytes(seqnum))
}

/// What a chunk with index `idx` of `cnt` chunks of packet `seqnum` does.
pub open spec fn spec_split(
    r: RecvV,
    ch: u8,
    unrel: bool,
    now: u64,
    seqnum: u16,
    idx: int,
    cnt: int,
    payload: Seq<u8>,
) -> (RecvV, Result<(), Fault>) {
    let c = r.chans[ch as int];
    let sp = if c.splits.contains_key(seqnum) {
        c.splits[seqnum]
    } else {
        SplitV { timestamp: None, chunks: no_chunks(cnt as nat), got: 0 }
    };
    let kept = with_chan(r, ch as int, RecvChanV { splits: c.splits.insert(seqnum, sp), ..c });
    if sp.chunks.len() != cnt {
        (kept, Err(Fault::InvalidChunkCount(sp.chunks.len() as usize, cnt as usize)))
    } else if idx >= cnt {
        (kept, Err(Fault::InvalidChunkIndex(idx as usize, cnt as usize)))
    } else {
        let got = if sp.chunks[idx] is None { sp.got + 1 } else { sp.got };
        let chunks = sp.chunks.update(idx, Some(payload));
        if got == cnt {
            let done = with_chan(r, ch as int, RecvChanV { splits: c.splits.remove(seqnum), ..c });
            (queued(done, Ok(Pkt { chan: ch, unrel, data: flatten(chunks) })), Ok(()))
        } else {
            let sp2 = SplitV { timestamp: if unrel { Some(now) } else { None }, chunks, got };
            (with_chan(r, ch as int, RecvChanV { splits: c.splits.insert(seqnum, sp2), ..c }), Ok(()))
        }
    }
}

/// What a control packet `buf` (its kind first) of channel `ch` does.
pub open spec fn spec_ctl(r: RecvV, s: ShareV, buf: Seq<u8>, ch: u8) -> Effect {
    if buf.len() < 2 {
        unchanged(r, s, Err(Fault::Io))
    } else {
        match CtlType::spec_from_code(buf[1]) {
            None => unchanged(r, s, Err(Fault::InvalidType(buf[1]))),
            Some(CtlType::Ack) => if buf.len() < 4 {
                unchanged(r, s, Err(Fault::Io))
            } else {
                let seqnum = be16(buf[2], buf[3]) as u16;
                if s.chans[ch as int].acks.contains_key(seqnum) {
                    Effect {
                        rx: RecvV { acked: r.acked.push((ch, seqnum)), ..r },
                        share: acked_share(s, ch as int, seqnum),
                        res: Ok(()),
                    }
                } else {
                    unchanged(r, s, Ok(()))
                }
            },
            Some(CtlType::SetPeerID) => if s.remote_id != 0 {
                unchanged(r, s, Err(Fault::PeerIDAlreadySet))
            } else if buf.len() < 4 {
                unchanged(r, s, Err(Fault::Io))
            } else {
                unchanged(r, with_remote_id(s, be16(buf[2], buf[3]) as u16), Ok(()))
            },
            Some(CtlType::Ping) => unchanged(r, s, Ok(())),
            Some(CtlType::Disco) => unchanged(r, s, Err(Fault::RemoteDisco(false))),
        }
    }
}

/// What the packet `buf` (its kind first) of channel `ch` does; `unrel` says
/// whether it came unreliably, `now` is the time. A reliable packet is put
/// into the reorder buffer, and its handling stops at its acknowledgement.
pub open spec fn spec_process(r: RecvV, s: ShareV, buf: Seq<u8>, unrel: bool, ch: u8, now: u64) -> Inter {
    if buf.len() < 1 {
        ret(unchanged(r, s, Err(Fault::Io)))
    } else {
        match PktType::spec_from_code(buf[0]) {
            None => ret(unchanged(r, s, Err(Fault::InvalidType(buf[0])))),
            Some(PktType::Ctl) => ret(spec_ctl(r, s, buf, ch)),
            Some(PktType::Orig) => ret(unchanged(queued(r, Ok(Pkt { chan: ch, unrel, data: buf.skip(1) })), s, Ok(()))),
            Some(PktType::Split) => if buf.len() < 7 {
                ret(unchanged(r, s, Err(Fault::Io)))
            } else {
                let (r2, res) = spec_split(
                    r,
                    ch,
                    unrel,
                    now,
                    be16(buf[1], buf[2]) as u16,
                    be16(buf[3], buf[4]),
                    be16(buf[5], buf[6]),
                    buf.skip(7),
                );
                ret(unchanged(r2, s, res))
            },
            Some(PktType::Rel) => if buf.len() < 3 {
                ret(unchanged(r, s, Err(Fault::Io)))
            } else {
                let seqnum = be16(buf[1], buf[2]) as u16;
                let c = r.chans[ch as int];
                Inter {
                    rx: with_chan(r, ch as int, set_packet(c, spec_slot(seqnum), Some(buf.skip(3)))),
                    share: s,
                    pause: Pause::Ack(ack_datagram(s.remote_id, ch, seqnum), 0),
                }
            },
        }
    }
}

/// Handles, in order, the buffered reliable packets of channel `ch` that are
/// due, until the next one is missing, an error ends the connection, or the
/// handling of one stops at its acknowledgement (which then waits inside one
/// handling of a buffered packet). `fuel` bounds the number of packets
/// handled: `None` when it runs out.
pub open spec fn spec_drain(r: RecvV, s: ShareV, ch: u8, now: u64, fuel: nat) -> Option<Inter>
    decreases fuel,
{
    if fuel == 0 {
        None
    } else {
        let c = r.chans[ch as int];
        let slot = spec_slot(c.seqnum);
        match c.packets[slot] {
            None => Some(ret(unchanged(r, s, Ok(())))),
            Some(p) => {
                let r1 = with_chan(r, ch as int, set_packet(c, slot, None));
                let o = spec_process(r1, s, p, false, ch, now);
                match o.pause {
                    Pause::Ack(a, _) => Some(Inter { rx: o.rx, share: o.share, pause: Pause::Ack(a, 1) }),
                    Pause::Ret(res) => {
                        let (r2, res2) = spec_handle_err(o.rx, res);
                        if res2 is Err {
                            Some(ret(unchanged(r2, o.share, res2)))
                        } else {
                            let r3 = with_chan(r2, ch as int, advanced(r2.chans[ch as int]));
                            spec_drain(r3, o.share, ch, now, (fuel - 1) as nat)
                        }
                    },
                }
            },
        }
    }
}

/// The handling of a reliable packet of channel `ch` that waits inside
/// `depth` handlings of buffered packets ended with `res`: each of those in
/// turn takes the result as its own (an error that ends the connection
/// closes the receiver and ends it too; another error is handed out), moves
/// on to the next sequence number and handles what is due next.
pub open spec fn spec_unwind(
    r: RecvV,
    s: ShareV,
    ch: u8,
    depth: nat,
    res: Result<(), Fault>,
    now: u64,
    fuel: nat,
) -> Option<Inter>
    decreases depth,
{
    if depth == 0 {
        Some(ret(unchanged(r, s, res)))
    } else {
        let (r2, res2) = spec_handle_err(r, res);
        if res2 is Err {
            spec_unwind(r2, s, ch, (depth - 1) as nat, res2, now, fuel)
        } else {
            let r3 = with_chan(r2, ch as int, advanced(r2.chans[ch as int]));
            match spec_drain(r3, s, ch, now, fuel) {
                None => None,
                Some(o) => match o.pause {
                    Pause::Ack(a, _) => Some(Inter { rx: o.rx, share: o.share, pause: Pause::Ack(a, depth) }),
                    Pause::Ret(res3) => spec_unwind(o.rx, o.share, ch, (depth - 1) as nat, res3, now, fuel),
                },
            }
        }
    }
}

/// The acknowledgement that a reliable packet of channel `ch`, inside
/// `depth` handlings of buffered packets, waited for was sent (`Ok`) or
/// failed to go out (`Err`). Once sent, the packets that are due are
/// handled; if it failed, the handling of that packet ends with the error,
/// which leaves the packet in the buffer.
pub open spec fn spec_resume(
    r: RecvV,
    s: ShareV,
    ch: u8,
    depth: nat,
    sent: Result<(), Fault>,
    now: u64,
    fuel: nat,
) -> Option<Inter> {
    match sent {
        Err(e) => spec_unwind(r, s, ch, depth, Err(e), now, fuel),
        Ok(_) => match spec_drain(r, s, ch, now, fuel) {
            None => None,
            Some(o) => match o.pause {
                Pause::Ack(a, _) => Some(Inter { rx: o.rx, share: o.share, pause: Pause::Ack(a, depth + 1) }),
                Pause::Ret(res) => spec_unwind(o.rx, o.share, ch, depth, res, now, fuel),
            },
        },
    }
}

/// What the caller of a step gets where the handling of a packet of channel
/// `ch` stopped: the acknowledgement to send, with the receiver waiting for
/// how it went; or the result, as `spec_handle_err` makes of it.
pub open spec fn spec_settle(o: Inter, ch: u8) -> Outcome {
    match o.pause {
        Pause::Ack(a, d) => Outcome { rx: RecvV { pending: Some((ch, d)), ..o.rx }, share: o.share, step: StepV::SendAck(a) },
        Pause::Ret(res) => {
            let (r2, res2) = spec_handle_err(o.rx, res);
            Outcome { rx: r2, share: o.share, step: StepV::Done(res2) }
        },
    }
}

/// A step that ends at once with `res`, leaving the state unchanged.
pub open spec fn done(r: RecvV, s: ShareV, res: Result<(), Fault>) -> Outcome {
    Outcome { rx: r, share: s, step: StepV::Done(res) }
}

/// What a datagram `d` does: its header is checked, then its packet is
/// handled as one that came unreliably.
pub open spec fn spec_handle_pkt(r: RecvV, s: ShareV, d: Seq<u8>, now: u64) -> Outcome {
    if d.len() < 4 {
        done(r, s, Err(Fault::Io))
    } else if be32(d[0], d[1], d[2], d[3]) != PROTO_ID as int {
        done(r, s, Err(Fault::InvalidProtoId(be32(d[0], d[1], d[2], d[3]) as u32)))
    } else if d.len() < 7 {
        done(r, s, Err(Fault::Io))
    } else if d[6] >= NUM_CHANS {
        done(r, s, Err(Fault::InvalidChannel(d[6])))
    } else {
        spec_settle(spec_process(r, s, d.skip(7), true, d[6], now), d[6])
    }
}

/// What the outcome `sent` of sending the acknowledgement that the receiver
/// waits for does, at time `now`. `fuel` bounds the number of buffered
/// packets handled: `None` when it runs out, or when nothing waits.
pub open spec fn spec_ack_sent(r: RecvV, s: ShareV, sent: Result<(), Fault>, now: u64, fuel: nat) -> Option<Outcome> {
    match r.pending {
        None => None,
        Some((ch, depth)) => match spec_resume(RecvV { pending: None, ..r }, s, ch, depth, sent, now, fuel) {
            None => None,
            Some(o) => Some(spec_settle(o, ch)),
        },
    }
}

/// More fuel gives the same outcome.
pub proof fn lemma_drain_fuel(r: RecvV, s: ShareV, ch: u8, now: u64, f1: nat, f2: nat)
    requires
        f1 <= f2,
        spec_drain(r, s, ch, now, f1) is Some,
    ensures
        spec_drain(r, s, ch, now, f2) == spec_drain(r, s, ch, now, f1),
    decreases f1,
{
    let c = r.chans[ch as int];
    let slot = spec_slot(c.seqnum);
    if let Some(p) = c.packets[slot] {
        let r1 = with_chan(r, ch as int, set_packet(c, slot, None));
        let o = spec_process(r1, s, p, false, ch, now);
        if let Pause::Ret(res) = o.pause {
            let (r2, res2) = spec_handle_err(o.rx, res);
            if res2 is Ok {
                let r3 = with_chan(r2, ch as int, advanced(r2.chans[ch as int]));
                lemma_drain_fuel(r3, o.share, ch, now, (f1 - 1) as nat, (f2 - 1) as nat);
            }
        }
    }
}

/// More fuel gives the same outcome.
pub proof fn lemma_unwind_fuel(
    r: RecvV,
    s: ShareV,
    ch: u8,
    depth: nat,
    res: Result<(), Fault>,
    now: u64,
    f1: nat,
    f2: nat,
)
    requires
        f1 <= f2,
        spec_unwind(r, s, ch, depth, res, now, f1) is Some,
    ensures
        spec_unwind(r, s, ch, depth, res, now, f2) == spec_unwind(r, s, ch, depth, res, now, f1),
    decreases depth,
{
    if depth > 0 {
        let (r2, res2) = spec_handle_err(r, res);
        if res2 is Err {
            lemma_unwind_fuel(r2, s, ch, (depth - 1) as nat, res2, now, f1, f2);
        } else {
            let r3 = with_chan(r2, ch as int, advanced(r2.chans[ch as int]));
            lemma_drain_fuel(r3, s, ch, now, f1, f2);
            let o = spec_drain(r3, s, ch, now, f1).unwrap();
            if let Pause::Ret(res3) = o.pause {
                lemma_unwind_fuel(o.rx, o.share, ch, (depth - 1) as nat, res3, now, f1, f2);
            }
        }
    }
}

/// More fuel gives the same outcome.
pub proof fn lemma_resume_fuel(
    r: RecvV,
    s: ShareV,
    ch: u8,
    depth: nat,
    sent: Result<(), Fault>,
    now: u64,
    f1: nat,
    f2: nat,
)
    requires
        f1 <= f2,
        spec_resume(r, s, ch, depth, sent, now, f1) is Some,
    ensures
        spec_resume(r, s, ch, depth, sent, now, f2) == spec_resume(r, s, ch, depth, sent, now, f1),
{
    match sent {
        Err(e) => {
            lemma_unwind_fuel(r, s, ch, depth, Err(e), now, f1, f2);
        },
        Ok(_) => {
            lemma_drain_fuel(r, s, ch, now, f1, f2);
            let o = spec_drain(r, s, ch, now, f1).unwrap();
            if let Pause::Ret(res) = o.pause {
                lemma_unwind_fuel(o.rx, o.share, ch, depth, res, now, f1, f2);
            }
        },
    }
}

/// Any two amounts of fuel that suffice give the same outcome of sending an
/// acknowledgement.
pub proof fn lemma_ack_sent_fuel(r: RecvV, s: ShareV, sent: Result<(), Fault>, now: u64, f1: nat, f2: nat)
    requires
        spec_ack_sent(r, s, sent, now, f1) is Some,
        spec_ack_sent(r, s, sent, now, f2) is Some,
    ensures
        spec_ack_sent(r, s, sent, now, f1) == spec_ack_sent(r, s, sent, now, f2),
{
    let (ch, depth) = r.pending.unwrap();
    let r0 = RecvV { pending: None, ..r };
    if f1 <= f2 {
        lemma_resume_fuel(r0, s, ch, depth, sent, now, f1, f2);
    } else {
        lemma_resume_fuel(r0, s, ch, depth, sent, now, f2, f1);
    }
}

} // verus!
