//! Laws of the protocol: what the receiving side makes of what the sending
//! side builds.
use vstd::prelude::*;
use crate::common::{next_seqnum, spec_slot, Pkt, PktType, NUM_CHANS, PROTO_ID, TIMEOUT};
use crate::error::Fault;
use crate::model::{
    ack_datagram, advanced, chan_wf, cleaned, closed, is_disco, done, flatten, no_chunks, queued, rx_wf, set_packet,
    spec_ack_sent, spec_drain, spec_handle_err, spec_handle_pkt, spec_process, spec_split, spec_unwind,
    with_chan, Inter, Outcome, Pause, RecvChanV, RecvV, SplitV, StepV,
};
use crate::send::{acked_share, sent_share, spec_encode, spec_header, ShareV};
use crate::wire::{be16, be32, u16_bytes, u32_bytes};

verus! {

/// The two bytes of a 16-bit value read back as that value.
pub proof fn lemma_u16_bytes(v: u16)
    ensures
        be16(u16_bytes(v)[0], u16_bytes(v)[1]) == v as int,
{
    assert((v / 256) as u8 as int == v as int / 256) by (bit_vector);
    assert((v % 256) as u8 as int == v as int % 256) by (bit_vector);
}

/// A datagram starts with the protocol identifier and ends its header with
/// its channel; the rest follows the header.
pub proof fn lemma_header(remote_id: u16, chan: u8, rest: Seq<u8>)
    ensures
        ({
            let d = spec_header(remote_id, chan) + rest;
            &&& d.len() == 7 + rest.len()
            &&& be32(d[0], d[1], d[2], d[3]) == PROTO_ID as int
            &&& d[6] == chan
            &&& d.skip(7) == rest
        }),
{
    let d = spec_header(remote_id, chan) + rest;
    assert(u32_bytes(PROTO_ID) =~= seq![0x4fu8, 0x45u8, 0x74u8, 0x03u8]);
    assert(d.skip(7) =~= rest);
}

/// A reliable packet of channel `chan` with sequence number `seqnum`: its
/// datagram comes apart into header and the rest, and the rest into the
/// reliable part and the packet `[1] + data`.
proof fn lemma_reliable(remote_id: u16, chan: u8, seqnum: u16, data: Seq<u8>)
    ensures
        ({
            let d = spec_encode(remote_id, chan, Some(seqnum), PktType::Orig.spec_code(), data);
            let rest = d.skip(7);
            &&& d.len() == 7 + rest.len()
            &&& be32(d[0], d[1], d[2], d[3]) == PROTO_ID as int
            &&& d[6] == chan
            &&& rest.len() >= 3
            &&& rest[0] == 3u8
            &&& be16(rest[1], rest[2]) == seqnum as int
            &&& rest.skip(3) == seq![1u8] + data
            &&& (seq![1u8] + data).skip(1) == data
        }),
{
    let rest = seq![3u8] + u16_bytes(seqnum) + seq![1u8] + data;
    lemma_header(remote_id, chan, rest);
    assert(spec_encode(remote_id, chan, Some(seqnum), PktType::Orig.spec_code(), data) =~= spec_header(remote_id, chan) + rest);
    lemma_u16_bytes(seqnum);
    assert(rest.skip(3) =~= seq![1u8] + data);
    assert((seq![1u8] + data).skip(1) =~= data);
}

/// A packet sent unreliably on a channel is handed out as it was sent, and
/// nothing else changes.
pub proof fn law_unreliable_delivery(r: RecvV, s: ShareV, remote_id: u16, chan: u8, data: Seq<u8>, now: u64)
    requires
        chan < NUM_CHANS,
    ensures
        spec_handle_pkt(r, s, spec_encode(remote_id, chan, None, PktType::Orig.spec_code(), data), now)
            == done(queued(r, Ok(Pkt { chan, unrel: true, data })), s, Ok(())),
{
    let rest = seq![1u8] + data;
    lemma_header(remote_id, chan, rest);
    assert(spec_encode(remote_id, chan, None, PktType::Orig.spec_code(), data) =~= spec_header(remote_id, chan) + rest);
    assert(rest.skip(1) =~= data);
}

/// The state of a receiver that holds the reliable packet `[1] + data` in
/// the slot of `seqnum` on channel `chan` and waits for its acknowledgement
/// to go out.
pub open spec fn holding(r: RecvV, chan: u8, seqnum: u16, data: Seq<u8>) -> RecvV {
    RecvV {
        pending: Some((chan, 0)),
        ..with_chan(r, chan as int, set_packet(r.chans[chan as int], spec_slot(seqnum), Some(seq![1u8] + data)))
    }
}

/// A reliable packet is kept in the buffer, and the step stops at its
/// acknowledgement. When the one the channel expects is acknowledged, it is
/// handed out and the channel expects the next number (nothing else changes
/// when no later packet waits); when its acknowledgement fails to go out,
/// the packet stays in the buffer, the channel expects the same number, and
/// the failure is handed out.
pub proof fn law_reliable_delivery(
    r: RecvV,
    s: ShareV,
    remote_id: u16,
    chan: u8,
    data: Seq<u8>,
    now: u64,
    fuel: nat,
)
    requires
        rx_wf(r),
        r.pending is None,
        chan < NUM_CHANS,
        fuel >= 2,
        r.chans[chan as int].packets[spec_slot(r.chans[chan as int].seqnum)] is None,
        r.chans[chan as int].packets[spec_slot(next_seqnum(r.chans[chan as int].seqnum))] is None,
    ensures
        ({
            let n = r.chans[chan as int].seqnum;
            let h = holding(r, chan, n, data);
            &&& spec_handle_pkt(r, s, spec_encode(remote_id, chan, Some(n), PktType::Orig.spec_code(), data), now)
                == (Outcome { rx: h, share: s, step: StepV::SendAck(ack_datagram(s.remote_id, chan, n)) })
            &&& spec_ack_sent(h, s, Ok(()), now, fuel) == Some(
                done(
                    queued(with_chan(r, chan as int, advanced(r.chans[chan as int])), Ok(Pkt { chan, unrel: false, data })),
                    s,
                    Ok(()),
                ),
            )
            &&& spec_ack_sent(h, s, Err(Fault::Io), now, fuel) == Some(
                done(queued(RecvV { pending: None, ..h }, Err(Fault::Io)), s, Ok(())),
            )
        }),
{
    let ch = chan as int;
    let c = r.chans[ch];
    let n = c.seqnum;
    let slot = spec_slot(n);
    let p = seq![1u8] + data;
    lemma_reliable(remote_id, chan, n, data);
    assert(chan_wf(c));
    let h = holding(r, chan, n, data);
    let h0 = RecvV { pending: None, ..h };
    let c0 = h0.chans[ch];
    assert(c0.packets.update(slot, None) =~= c.packets);
    let r1 = with_chan(h0, ch, set_packet(c0, slot, None));
    assert(r1.chans =~= r.chans);
    assert(r1 == r);
    let r2 = queued(r, Ok(Pkt { chan, unrel: false, data }));
    assert(spec_process(r1, s, p, false, chan, now).rx == r2);
    let r3 = with_chan(r2, ch, advanced(r2.chans[ch]));
    let fin = queued(with_chan(r, ch, advanced(c)), Ok(Pkt { chan, unrel: false, data }));
    assert(r3.chans =~= fin.chans);
    assert(r3 == fin);
    assert(spec_drain(r3, s, chan, now, (fuel - 1) as nat).unwrap().rx == fin);
    assert(spec_drain(h0, s, chan, now, fuel).unwrap().rx == fin);
}

/// The acknowledgement that the receiver of a reliable packet sends back,
/// once handled by the sender, removes the datagram that waited for it and
/// reports it; an acknowledgement of nothing that waits changes nothing.
pub proof fn law_acknowledgement(r: RecvV, s: ShareV, remote_id: u16, chan: u8, seqnum: u16, now: u64)
    requires
        chan < NUM_CHANS,
    ensures
        s.chans[chan as int].acks.contains_key(seqnum) ==> spec_handle_pkt(r, s, ack_datagram(remote_id, chan, seqnum), now)
            == done(RecvV { acked: r.acked.push((chan, seqnum)), ..r }, acked_share(s, chan as int, seqnum), Ok(())),
        !s.chans[chan as int].acks.contains_key(seqnum) ==> spec_handle_pkt(r, s, ack_datagram(remote_id, chan, seqnum), now)
            == done(r, s, Ok(())),
{
    let rest = seq![0u8] + (seq![0u8] + u16_bytes(seqnum));
    lemma_header(remote_id, chan, rest);
    assert(ack_datagram(remote_id, chan, seqnum) =~= spec_header(remote_id, chan) + rest);
    lemma_u16_bytes(seqnum);
}

/// A reliable datagram that went out waits under the channel's sequence
/// number; its acknowledgement leaves the channel waiting for what it waited
/// for before, with the sequence number advanced.
pub proof fn law_sent_then_acknowledged(s: ShareV, chan: int, buf: Seq<u8>)
    requires
        0 <= chan < s.chans.len(),
        !s.chans[chan].acks.contains_key(s.chans[chan].seqnum),
    ensures
        sent_share(s, chan, buf).chans[chan].acks.contains_key(s.chans[chan].seqnum),
        sent_share(s, chan, buf).chans[chan].acks[s.chans[chan].seqnum] == buf,
        acked_share(sent_share(s, chan, buf), chan, s.chans[chan].seqnum).chans[chan].acks == s.chans[chan].acks,
        acked_share(sent_share(s, chan, buf), chan, s.chans[chan].seqnum).chans[chan].seqnum == next_seqnum(
            s.chans[chan].seqnum,
        ),
{
    let c = s.chans[chan];
    assert(c.acks.insert(c.seqnum, buf).remove(c.seqnum) =~= c.acks);
}

/// A reliable packet is kept in the buffer of its channel, in the slot of
/// its sequence number, and the step stops at its acknowledgement.
pub proof fn law_reliable_held(r: RecvV, s: ShareV, remote_id: u16, chan: u8, seqnum: u16, data: Seq<u8>, now: u64)
    requires
        chan < NUM_CHANS,
    ensures
        spec_handle_pkt(r, s, spec_encode(remote_id, chan, Some(seqnum), PktType::Orig.spec_code(), data), now)
            == (Outcome {
                rx: holding(r, chan, seqnum, data),
                share: s,
                step: StepV::SendAck(ack_datagram(s.remote_id, chan, seqnum)),
            }),
{
    lemma_reliable(remote_id, chan, seqnum, data);
}

/// Two reliable packets that arrive in the wrong order are handed out in
/// the order of their sequence numbers: once the later one is acknowledged,
/// it waits in the buffer and nothing is handed out; once the earlier one is
/// acknowledged, both are handed out and the channel expects the number after
/// them, its buffer as it was.
#[verifier::rlimit(60)]
#[verifier::spinoff_prover]
pub proof fn law_reordering(
    r: RecvV,
    s: ShareV,
    remote_id: u16,
    chan: u8,
    d1: Seq<u8>,
    d2: Seq<u8>,
    now: u64,
    fuel: nat,
)
    requires
        rx_wf(r),
        r.pending is None,
        chan < NUM_CHANS,
        fuel >= 3,
        r.chans[chan as int].packets[spec_slot(r.chans[chan as int].seqnum)] is None,
        r.chans[chan as int].packets[spec_slot(next_seqnum(r.chans[chan as int].seqnum))] is None,
        r.chans[chan as int].packets[spec_slot(next_seqnum(next_seqnum(r.chans[chan as int].seqnum)))] is None,
    ensures
        ({
            let c = r.chans[chan as int];
            let n = c.seqnum;
            let o1 = spec_handle_pkt(r, s, spec_encode(remote_id, chan, Some(next_seqnum(n)), 1, d2), now);
            let o2 = spec_ack_sent(o1.rx, s, Ok(()), now, fuel);
            &&& o1.step == StepV::SendAck(ack_datagram(s.remote_id, chan, next_seqnum(n)))
            &&& o2 == Some(done(RecvV { pending: None, ..o1.rx }, s, Ok(())))
            &&& o2.unwrap().rx.queue == r.queue
            &&& ({
                let o3 = spec_handle_pkt(o2.unwrap().rx, s, spec_encode(remote_id, chan, Some(n), 1, d1), now);
                let o4 = spec_ack_sent(o3.rx, s, Ok(()), now, fuel);
                &&& o3.step == StepV::SendAck(ack_datagram(s.remote_id, chan, n))
                &&& o4 == Some(
                    done(
                        RecvV {
                            chans: r.chans.update(chan as int, RecvChanV { seqnum: next_seqnum(next_seqnum(n)), ..c }),
                            queue: r.queue.push(Ok(Pkt { chan, unrel: false, data: d1 })).push(
                                Ok(Pkt { chan, unrel: false, data: d2 }),
                            ),
                            ..r
                        },
                        s,
                        Ok(()),
                    ),
                )
            })
        }),
{
    let ch = chan as int;
    let c = r.chans[ch];
    let n = c.seqnum;
    let n1 = next_seqnum(n);
    let n2 = next_seqnum(n1);
    let sl0 = spec_slot(n);
    let sl1 = spec_slot(n1);
    let sl2 = spec_slot(n2);
    assert(chan_wf(c));
    assert(sl0 != sl1);
    assert(sl1 != sl2);
    let p1 = seq![1u8] + d1;
    let p2 = seq![1u8] + d2;
    lemma_reliable(remote_id, chan, n1, d2);
    lemma_reliable(remote_id, chan, n, d1);
    // the later packet, then its acknowledgement
    let h1 = holding(r, chan, n1, d2);
    assert(spec_handle_pkt(r, s, spec_encode(remote_id, chan, Some(n1), 1, d2), now).rx == h1);
    let g1 = RecvV { pending: None, ..h1 };
    let c1 = g1.chans[ch];
    assert(c1.packets[sl0] is None);
    assert(spec_drain(g1, s, chan, now, fuel) == Some(crate::model::ret(crate::model::unchanged(g1, s, Ok(())))));
    assert(spec_ack_sent(h1, s, Ok(()), now, fuel) == Some(done(g1, s, Ok(()))));
    // the earlier packet, then its acknowledgement
    let h3 = holding(g1, chan, n, d1);
    assert(spec_handle_pkt(g1, s, spec_encode(remote_id, chan, Some(n), 1, d1), now).rx == h3);
    let g3 = RecvV { pending: None, ..h3 };
    let c3 = g3.chans[ch];
    assert(c3.packets.update(sl0, None) =~= c1.packets);
    let t1 = with_chan(g3, ch, set_packet(c3, sl0, None));
    assert(t1.chans =~= g1.chans);
    assert(t1 == g1);
    let q1 = queued(g1, Ok(Pkt { chan, unrel: false, data: d1 }));
    assert(spec_process(t1, s, p1, false, chan, now).rx == q1);
    let a1 = with_chan(q1, ch, advanced(q1.chans[ch]));
    let ca1 = a1.chans[ch];
    assert(ca1.seqnum == n1);
    assert(ca1.packets[sl1] == Some(p2));
    let t2 = with_chan(a1, ch, set_packet(ca1, sl1, None));
    let q2 = queued(t2, Ok(Pkt { chan, unrel: false, data: d2 }));
    assert(spec_process(t2, s, p2, false, chan, now).rx == q2);
    let a2 = with_chan(q2, ch, advanced(q2.chans[ch]));
    let fin = RecvV {
        chans: r.chans.update(ch, RecvChanV { seqnum: n2, ..c }),
        queue: r.queue.push(Ok(Pkt { chan, unrel: false, data: d1 })).push(Ok(Pkt { chan, unrel: false, data: d2 })),
        ..r
    };
    assert(a2.chans[ch].packets =~= c.packets);
    assert(a2.chans =~= fin.chans);
    assert(a2.queue =~= fin.queue);
    assert(a2 == fin);
    assert(a2.chans[ch].packets[sl2] is None);
    assert(spec_drain(a2, s, chan, now, (fuel - 2) as nat) == Some(crate::model::ret(crate::model::unchanged(a2, s, Ok(())))));
    assert(spec_drain(a1, s, chan, now, (fuel - 1) as nat) == Some(crate::model::ret(crate::model::unchanged(a2, s, Ok(())))));
    assert(spec_drain(g3, s, chan, now, fuel) == Some(crate::model::ret(crate::model::unchanged(a2, s, Ok(())))));
}

/// A reliable packet that is not the one its channel expects (one that
/// came early, or again) is kept in the buffer; once it is acknowledged,
/// nothing is handed out while the expected one is missing.
pub proof fn law_not_expected_waits(
    r: RecvV,
    s: ShareV,
    remote_id: u16,
    chan: u8,
    seqnum: u16,
    data: Seq<u8>,
    now: u64,
    fuel: nat,
)
    requires
        rx_wf(r),
        chan < NUM_CHANS,
        fuel >= 1,
        spec_slot(seqnum) != spec_slot(r.chans[chan as int].seqnum),
        r.chans[chan as int].packets[spec_slot(r.chans[chan as int].seqnum)] is None,
    ensures
        spec_ack_sent(holding(r, chan, seqnum, data), s, Ok(()), now, fuel) == Some(
            done(RecvV { pending: None, ..holding(r, chan, seqnum, data) }, s, Ok(())),
        ),
{
    assert(chan_wf(r.chans[chan as int]));
}

/// The datagram that carries chunk `idx` of `cnt` chunks of packet `seqnum`.
pub open spec fn chunk_datagram(remote_id: u16, chan: u8, seqnum: u16, idx: u16, cnt: u16, chunk: Seq<u8>) -> Seq<u8> {
    spec_encode(remote_id, chan, None, PktType::Split.spec_code(), u16_bytes(seqnum) + u16_bytes(idx) + u16_bytes(cnt) + chunk)
}

/// A packet in two chunks that arrive in the wrong order is handed out
/// whole, its chunks in the order of their indices, once both came; until
/// then nothing is handed out, and afterwards no trace of it stays.
pub proof fn law_reassembly(
    r: RecvV,
    s: ShareV,
    remote_id: u16,
    chan: u8,
    seqnum: u16,
    c0: Seq<u8>,
    c1: Seq<u8>,
    now: u64,
)
    requires
        rx_wf(r),
        chan < NUM_CHANS,
        !r.chans[chan as int].splits.contains_key(seqnum),
    ensures
        ({
            let o1 = spec_handle_pkt(r, s, chunk_datagram(remote_id, chan, seqnum, 1, 2, c1), now);
            &&& o1.rx.queue == r.queue
            &&& o1.step == StepV::Done(Ok(()))
            &&& spec_handle_pkt(o1.rx, s, chunk_datagram(remote_id, chan, seqnum, 0, 2, c0), now)
                == done(queued(r, Ok(Pkt { chan, unrel: true, data: c0 + c1 })), s, Ok(()))
        }),
{
    let ch = chan as int;
    let c = r.chans[ch];
    lemma_u16_bytes(seqnum);
    lemma_u16_bytes(1);
    lemma_u16_bytes(2);
    lemma_u16_bytes(0);
    let b1 = u16_bytes(seqnum) + u16_bytes(1) + u16_bytes(2) + c1;
    let rest1 = seq![2u8] + b1;
    lemma_header(remote_id, chan, rest1);
    assert(chunk_datagram(remote_id, chan, seqnum, 1, 2, c1) =~= spec_header(remote_id, chan) + rest1);
    assert(rest1.skip(7) =~= c1);
    let sp1 = SplitV { timestamp: Some(now), chunks: no_chunks(2).update(1, Some(c1)), got: 1 };
    let r1 = with_chan(r, ch, RecvChanV { splits: c.splits.insert(seqnum, sp1), ..c });
    assert(spec_split(r, chan, true, now, seqnum, 1, 2, c1) == (r1, Ok::<(), Fault>(())));
    assert(spec_handle_pkt(r, s, chunk_datagram(remote_id, chan, seqnum, 1, 2, c1), now) == done(r1, s, Ok(())));
    let b0 = u16_bytes(seqnum) + u16_bytes(0) + u16_bytes(2) + c0;
    let rest0 = seq![2u8] + b0;
    lemma_header(remote_id, chan, rest0);
    assert(chunk_datagram(remote_id, chan, seqnum, 0, 2, c0) =~= spec_header(remote_id, chan) + rest0);
    assert(rest0.skip(7) =~= c0);
    let chunks = sp1.chunks.update(0, Some(c0));
    assert(chunks =~= seq![Some(c0), Some(c1)]);
    assert(chunks.drop_last() =~= seq![Some(c0)]);
    assert(chunks.drop_last().drop_last() =~= Seq::<Option<Seq<u8>>>::empty());
    assert(flatten(chunks.drop_last().drop_last()) =~= Seq::<u8>::empty());
    assert(flatten(chunks.drop_last()) =~= c0);
    assert(flatten(chunks) =~= c0 + c1);
    let c1v = r1.chans[ch];
    assert(c1v.splits.remove(seqnum) =~= c.splits);
    let r2 = queued(with_chan(r1, ch, RecvChanV { splits: c1v.splits.remove(seqnum), ..c1v }), Ok(Pkt { chan, unrel: true, data: c0 + c1 }));
    assert(r2.chans =~= r.chans);
    assert(spec_split(r1, chan, true, now, seqnum, 0, 2, c0) == (r2, Ok::<(), Fault>(())));
}


/// The shared state once the reliable datagrams `bufs` went out on channel
/// `chan`, one after the other.
pub open spec fn sent_all(s: ShareV, chan: int, bufs: Seq<Seq<u8>>) -> ShareV
    decreases bufs.len(),
{
    if bufs.len() == 0 {
        s
    } else {
        sent_share(sent_all(s, chan, bufs.drop_last()), chan, bufs.last())
    }
}

/// Reliable sends in a row on one channel: after `k` of them the channel's
/// sequence number has moved on by `k`, wrapping at 2^16, the other channels
/// and the identifiers are as they were, and the next reliable datagram
/// carries that number big-endian in its bytes 8 and 9. One more send is what
/// `record_sent` does to the state, so a loop of `encode_pkt` and
/// `record_sent` keeps `sent_all` of what it sent as its invariant.
pub proof fn law_reliable_numbering(s: ShareV, chan: u8, bufs: Seq<Seq<u8>>)
    requires
        s.chans.len() == NUM_CHANS,
        chan < NUM_CHANS,
    ensures
        forall|k: int|
            0 <= k <= bufs.len() ==> (#[trigger] sent_all(s, chan as int, bufs.take(k))).chans[chan as int].seqnum
                == (s.chans[chan as int].seqnum + k) % 0x1_0000,
        forall|k: int, tp: u8, data: Seq<u8>|
            0 <= k < bufs.len() ==> (#[trigger] spec_encode(
                sent_all(s, chan as int, bufs.take(k)).remote_id,
                chan,
                Some(sent_all(s, chan as int, bufs.take(k)).chans[chan as int].seqnum),
                tp,
                data,
            )).subrange(8, 10) == u16_bytes(((s.chans[chan as int].seqnum + k) % 0x1_0000) as u16),
        sent_all(s, chan as int, bufs).chans.len() == NUM_CHANS,
        sent_all(s, chan as int, bufs).chans[chan as int].seqnum == (s.chans[chan as int].seqnum + bufs.len()) % 0x1_0000,
        sent_all(s, chan as int, bufs).id == s.id,
        sent_all(s, chan as int, bufs).remote_id == s.remote_id,
        forall|c: int| 0 <= c < NUM_CHANS && c != chan ==> #[trigger] sent_all(s, chan as int, bufs).chans[c] == s.chans[c],
        forall|b: Seq<u8>| #[trigger] sent_all(s, chan as int, bufs.push(b)) == sent_share(sent_all(s, chan as int, bufs), chan as int, b),
{
    lemma_sent_all(s, chan, bufs);
    assert forall|b: Seq<u8>| #[trigger] sent_all(s, chan as int, bufs.push(b)) == sent_share(sent_all(s, chan as int, bufs), chan as int, b) by {
        assert(bufs.push(b).drop_last() =~= bufs);
    }
    assert(bufs.take(bufs.len() as int) =~= bufs);
    assert forall|k: int| 0 <= k <= bufs.len() implies (#[trigger] sent_all(s, chan as int, bufs.take(k))).chans[chan as int].seqnum
        == (s.chans[chan as int].seqnum + k) % 0x1_0000 by {
        lemma_sent_all(s, chan, bufs.take(k));
    }
    assert forall|k: int, tp: u8, data: Seq<u8>| 0 <= k < bufs.len() implies (#[trigger] spec_encode(
        sent_all(s, chan as int, bufs.take(k)).remote_id,
        chan,
        Some(sent_all(s, chan as int, bufs.take(k)).chans[chan as int].seqnum),
        tp,
        data,
    )).subrange(8, 10) == u16_bytes(((s.chans[chan as int].seqnum + k) % 0x1_0000) as u16) by {
        let t = sent_all(s, chan as int, bufs.take(k));
        lemma_sent_all(s, chan, bufs.take(k));
        let q = t.chans[chan as int].seqnum;
        let d = spec_encode(t.remote_id, chan, Some(q), tp, data);
        assert(d =~= spec_header(t.remote_id, chan) + (seq![3u8] + u16_bytes(q) + seq![tp] + data));
        assert(d.subrange(8, 10) =~= u16_bytes(q));
    }
}

/// What `law_reliable_numbering` states of all of `bufs`, by induction on
/// their number.
proof fn lemma_sent_all(s: ShareV, chan: u8, bufs: Seq<Seq<u8>>)
    requires
        s.chans.len() == NUM_CHANS,
        chan < NUM_CHANS,
    ensures
        sent_all(s, chan as int, bufs).chans.len() == NUM_CHANS,
        sent_all(s, chan as int, bufs).chans[chan as int].seqnum == (s.chans[chan as int].seqnum + bufs.len()) % 0x1_0000,
        sent_all(s, chan as int, bufs).id == s.id,
        sent_all(s, chan as int, bufs).remote_id == s.remote_id,
        forall|c: int| 0 <= c < NUM_CHANS && c != chan ==> #[trigger] sent_all(s, chan as int, bufs).chans[c] == s.chans[c],
    decreases bufs.len(),
{
    if bufs.len() > 0 {
        lemma_sent_all(s, chan, bufs.drop_last());
    }
}


/// Handling one packet never reopens the receiver.
proof fn lemma_process_keeps_closed(r: RecvV, s: ShareV, buf: Seq<u8>, unrel: bool, ch: u8, now: u64)
    ensures
        spec_process(r, s, buf, unrel, ch, now).rx.closed == r.closed,
{
}

/// Handling the buffered packets that are due never reopens the receiver.
proof fn lemma_drain_keeps_closed(r: RecvV, s: ShareV, ch: u8, now: u64, fuel: nat)
    ensures
        spec_drain(r, s, ch, now, fuel) matches Some(o) ==> (r.closed ==> o.rx.closed),
    decreases fuel,
{
    if fuel > 0 {
        let c = r.chans[ch as int];
        let slot = spec_slot(c.seqnum);
        if let Some(p) = c.packets[slot] {
            let r1 = with_chan(r, ch as int, set_packet(c, slot, None));
            lemma_process_keeps_closed(r1, s, p, false, ch, now);
            let o = spec_process(r1, s, p, false, ch, now);
            if let Pause::Ret(res) = o.pause {
                let (r2, res2) = spec_handle_err(o.rx, res);
                if res2 is Ok {
                    let r3 = with_chan(r2, ch as int, advanced(r2.chans[ch as int]));
                    lemma_drain_keeps_closed(r3, o.share, ch, now, (fuel - 1) as nat);
                }
            }
        }
    }
}

/// Handing a result back through the handlings of buffered packets never
/// reopens the receiver.
proof fn lemma_unwind_keeps_closed(
    r: RecvV,
    s: ShareV,
    ch: u8,
    depth: nat,
    res: Result<(), Fault>,
    now: u64,
    fuel: nat,
)
    ensures
        spec_unwind(r, s, ch, depth, res, now, fuel) matches Some(o) ==> (r.closed ==> o.rx.closed),
    decreases depth,
{
    if depth > 0 {
        let (r2, res2) = spec_handle_err(r, res);
        if res2 is Err {
            lemma_unwind_keeps_closed(r2, s, ch, (depth - 1) as nat, res2, now, fuel);
        } else {
            let r3 = with_chan(r2, ch as int, advanced(r2.chans[ch as int]));
            lemma_drain_keeps_closed(r3, s, ch, now, fuel);
            if let Some(o) = spec_drain(r3, s, ch, now, fuel) {
                if let Pause::Ret(res3) = o.pause {
                    lemma_unwind_keeps_closed(o.rx, o.share, ch, (depth - 1) as nat, res3, now, fuel);
                }
            }
        }
    }
}

/// A closed receiver stays closed: no datagram, no outcome of sending an
/// acknowledgement, no cleanup, no error and no further close reopens it.
/// (Handing out, `poll`, answers `Closed` and changes nothing once closed,
/// and a resend tick changes only what waits to be sent.)
pub proof fn law_closed_stays_closed(
    r: RecvV,
    s: ShareV,
    d: Seq<u8>,
    sent: Result<(), Fault>,
    res: Result<(), Fault>,
    now: u64,
    fuel: nat,
)
    requires
        r.closed,
    ensures
        spec_handle_pkt(r, s, d, now).rx.closed,
        spec_ack_sent(r, s, sent, now, fuel) matches Some(o) ==> o.rx.closed,
        cleaned(r, now).closed,
        spec_handle_err(r, res).0.closed,
        closed(r).closed,
{
    if d.len() >= 7 && d[6] < NUM_CHANS {
        lemma_process_keeps_closed(r, s, d.skip(7), true, d[6], now);
    }
    if let Some((ch, depth)) = r.pending {
        let r0 = RecvV { pending: None, ..r };
        match sent {
            Err(e) => {
                lemma_unwind_keeps_closed(r0, s, ch, depth, Err(e), now, fuel);
            },
            Ok(_) => {
                lemma_drain_keeps_closed(r0, s, ch, now, fuel);
                if let Some(o) = spec_drain(r0, s, ch, now, fuel) {
                    if let Pause::Ret(x) = o.pause {
                        lemma_unwind_keeps_closed(o.rx, o.share, ch, depth, x, now, fuel);
                    }
                }
            },
        }
    }
}


/// The bytes of a datagram as the sender builds it: the protocol identifier,
/// the remote's identifier and the channel; for a reliable one the marker 3
/// and the sequence number; then the code of the packet's kind, whatever the
/// kind, and the data.
pub proof fn law_datagram_bytes(remote_id: u16, chan: u8, rel: Option<u16>, tp: u8, data: Seq<u8>)
    ensures
        ({
            let d = spec_encode(remote_id, chan, rel, tp, data);
            let k: int = if rel is Some { 11 } else { 8 };
            &&& d.len() == k + data.len()
            &&& be32(d[0], d[1], d[2], d[3]) == PROTO_ID as int
            &&& be16(d[4], d[5]) == remote_id as int
            &&& d[6] == chan
            &&& d[k - 1] == tp
            &&& d.skip(k) == data
            &&& (rel matches Some(q) ==> d[7] == 3u8 && be16(d[8], d[9]) == q as int)
        }),
{
    let d = spec_encode(remote_id, chan, rel, tp, data);
    let mid = match rel {
        Some(q) => seq![3u8] + u16_bytes(q),
        None => Seq::<u8>::empty(),
    };
    let rest = mid + seq![tp] + data;
    lemma_header(remote_id, chan, rest);
    assert(d =~= spec_header(remote_id, chan) + rest);
    lemma_u16_bytes(remote_id);
    assert(d[4] == u16_bytes(remote_id)[0] && d[5] == u16_bytes(remote_id)[1]);
    if let Some(q) = rel {
        lemma_u16_bytes(q);
        assert(d[8] == u16_bytes(q)[0] && d[9] == u16_bytes(q)[1]);
        assert(d.skip(11) =~= data);
    } else {
        assert(d.skip(8) =~= data);
    }
}

/// The periodic cleanup goes through every channel: each keeps exactly the
/// packets in chunks whose last chunk came reliably or at least `TIMEOUT`
/// seconds before `now`, unchanged, and nothing else of the receiver changes.
pub proof fn law_cleanup(r: RecvV, now: u64)
    ensures
        cleaned(r, now).chans.len() == r.chans.len(),
        forall|c: int, k: u16|
            0 <= c < r.chans.len() ==> (#[trigger] cleaned(r, now).chans[c].splits.contains_key(k) <==> (
            r.chans[c].splits.contains_key(k) && (r.chans[c].splits[k].timestamp matches Some(t) ==> t
                + TIMEOUT * 1000 <= now))),
        forall|c: int, k: u16|
            0 <= c < r.chans.len() && #[trigger] cleaned(r, now).chans[c].splits.contains_key(k)
                ==> cleaned(r, now).chans[c].splits[k] == r.chans[c].splits[k],
        forall|c: int|
            0 <= c < r.chans.len() ==> (#[trigger] cleaned(r, now).chans[c]).packets == r.chans[c].packets
                && cleaned(r, now).chans[c].seqnum == r.chans[c].seqnum,
        cleaned(r, now).closed == r.closed,
        cleaned(r, now).queue == r.queue,
        cleaned(r, now).outbox == r.outbox,
        cleaned(r, now).acked == r.acked,
        cleaned(r, now).pending == r.pending,
{
}

/// A control packet does the same whether it came reliably or not.
pub proof fn law_control_either_way(r: RecvV, s: ShareV, buf: Seq<u8>, ch: u8, now: u64)
    requires
        buf.len() >= 1,
        buf[0] == PktType::Ctl.spec_code(),
    ensures
        spec_process(r, s, buf, false, ch, now) == spec_process(r, s, buf, true, ch, now),
{
}

/// What the control packets do, however they came: a ping nothing; a
/// disconnect ends the connection; setting the remote's identifier sets it
/// when none was set, and is refused otherwise; an acknowledgement of what
/// waits removes it and reports it, of anything else changes nothing; a
/// packet too short for its kind, or of a kind `x` that does not exist, is
/// an error. Only an acknowledgement changes the receiving state.
pub proof fn law_control(r: RecvV, s: ShareV, v: u16, x: u8, unrel: bool, ch: u8, now: u64)
    ensures
        spec_process(r, s, seq![0u8, 2u8], unrel, ch, now) == (Inter { rx: r, share: s, pause: Pause::Ret(Ok(())) }),
        spec_process(r, s, seq![0u8, 3u8], unrel, ch, now) == (Inter {
            rx: r,
            share: s,
            pause: Pause::Ret(Err(Fault::RemoteDisco(false))),
        }),
        s.remote_id == 0 ==> spec_process(r, s, seq![0u8, 1u8] + u16_bytes(v), unrel, ch, now) == (Inter {
            rx: r,
            share: ShareV { remote_id: v, ..s },
            pause: Pause::Ret(Ok(())),
        }),
        s.remote_id != 0 ==> spec_process(r, s, seq![0u8, 1u8] + u16_bytes(v), unrel, ch, now) == (Inter {
            rx: r,
            share: s,
            pause: Pause::Ret(Err(Fault::PeerIDAlreadySet)),
        }),
        ch < s.chans.len() && s.chans[ch as int].acks.contains_key(v) ==> spec_process(
            r,
            s,
            seq![0u8, 0u8] + u16_bytes(v),
            unrel,
            ch,
            now,
        ) == (Inter {
            rx: RecvV { acked: r.acked.push((ch, v)), ..r },
            share: acked_share(s, ch as int, v),
            pause: Pause::Ret(Ok(())),
        }),
        !s.chans[ch as int].acks.contains_key(v) ==> spec_process(r, s, seq![0u8, 0u8] + u16_bytes(v), unrel, ch, now)
            == (Inter { rx: r, share: s, pause: Pause::Ret(Ok(())) }),
        spec_process(r, s, seq![0u8], unrel, ch, now) == (Inter { rx: r, share: s, pause: Pause::Ret(Err(Fault::Io)) }),
        x >= 4 ==> spec_process(r, s, seq![0u8, x], unrel, ch, now) == (Inter {
            rx: r,
            share: s,
            pause: Pause::Ret(Err(Fault::InvalidType(x))),
        }),
{
    lemma_u16_bytes(v);
    let a = seq![0u8, 0u8] + u16_bytes(v);
    assert(a.len() == 4 && a[1] == 0u8 && a[2] == u16_bytes(v)[0] && a[3] == u16_bytes(v)[1]);
    let b = seq![0u8, 1u8] + u16_bytes(v);
    assert(b.len() == 4 && b[1] == 1u8 && b[2] == u16_bytes(v)[0] && b[3] == u16_bytes(v)[1]);
}


/// A reliable packet with content of any kind but a nested reliable one: its
/// datagram comes apart into header, reliable part and content.
proof fn lemma_reliable_content(remote_id: u16, chan: u8, seqnum: u16, tp: u8, data: Seq<u8>)
    ensures
        ({
            let d = spec_encode(remote_id, chan, Some(seqnum), tp, data);
            let rest = d.skip(7);
            &&& d.len() == 7 + rest.len()
            &&& be32(d[0], d[1], d[2], d[3]) == PROTO_ID as int
            &&& d[6] == chan
            &&& rest.len() >= 3
            &&& rest[0] == 3u8
            &&& be16(rest[1], rest[2]) == seqnum as int
            &&& rest.skip(3) == seq![tp] + data
        }),
{
    let rest = seq![3u8] + u16_bytes(seqnum) + seq![tp] + data;
    lemma_header(remote_id, chan, rest);
    assert(spec_encode(remote_id, chan, Some(seqnum), tp, data) =~= spec_header(remote_id, chan) + rest);
    lemma_u16_bytes(seqnum);
    assert(rest.skip(3) =~= seq![tp] + data);
}

/// Handling a packet that is not a reliable one never stops at an
/// acknowledgement, leaves the reorder buffer and the expected sequence
/// number of its channel alone, and ends the connection only for a
/// disconnect.
proof fn lemma_process_plain(r: RecvV, s: ShareV, buf: Seq<u8>, unrel: bool, ch: u8, now: u64)
    requires
        r.chans.len() == NUM_CHANS,
        ch < NUM_CHANS,
        buf.len() >= 1,
        buf[0] != PktType::Rel.spec_code(),
    ensures
        ({
            let o = spec_process(r, s, buf, unrel, ch, now);
            &&& o.pause is Ret
            &&& o.rx.chans.len() == NUM_CHANS
            &&& o.rx.chans[ch as int].packets == r.chans[ch as int].packets
            &&& o.rx.chans[ch as int].seqnum == r.chans[ch as int].seqnum
            &&& o.rx.pending == r.pending
            &&& o.rx.closed == r.closed
            &&& ((o.pause matches Pause::Ret(Err(e)) && is_disco(e)) <==> (buf.len() >= 2 && buf[0] == 0 && buf[1] == 3))
            &&& (o.pause matches Pause::Ret(Err(e)) && is_disco(e)) ==> o.pause == Pause::Ret(Err(Fault::RemoteDisco(false)))
            &&& (buf.len() >= 4 && buf[0] == 0 && buf[1] == 1 && s.remote_id == 0) ==> o.share.remote_id == be16(buf[2], buf[3])
        }),
{
}

/// A reliable packet is handled when it is the one its channel expects,
/// whatever its content (but a nested reliable packet): once its
/// acknowledgement went out, the channel expects the next sequence number
/// and its buffer is as it was, unless the packet is a disconnect, which
/// ends the connection there. A reliable request to set the remote's
/// identifier sets it.
#[verifier::rlimit(40)]
pub proof fn law_reliable_any_content(
    r: RecvV,
    s: ShareV,
    remote_id: u16,
    chan: u8,
    tp: u8,
    data: Seq<u8>,
    now: u64,
    fuel: nat,
)
    requires
        rx_wf(r),
        r.pending is None,
        chan < NUM_CHANS,
        fuel >= 2,
        tp != PktType::Rel.spec_code(),
        r.chans[chan as int].packets[spec_slot(r.chans[chan as int].seqnum)] is None,
        r.chans[chan as int].packets[spec_slot(next_seqnum(r.chans[chan as int].seqnum))] is None,
    ensures
        ({
            let c = r.chans[chan as int];
            let n = c.seqnum;
            let h = RecvV {
                pending: Some((chan, 0)),
                ..with_chan(r, chan as int, set_packet(c, spec_slot(n), Some(seq![tp] + data)))
            };
            let disco = tp == 0 && data.len() >= 1 && data[0] == 3;
            let o = spec_ack_sent(h, s, Ok(()), now, fuel);
            &&& spec_handle_pkt(r, s, spec_encode(remote_id, chan, Some(n), tp, data), now)
                == (Outcome { rx: h, share: s, step: StepV::SendAck(ack_datagram(s.remote_id, chan, n)) })
            &&& o is Some
            &&& o.unwrap().rx.pending is None
            &&& o.unwrap().rx.chans.len() == NUM_CHANS
            &&& o.unwrap().rx.chans[chan as int].packets == c.packets
            &&& !disco ==> o.unwrap().step == StepV::Done(Ok(()))
                && o.unwrap().rx.chans[chan as int].seqnum == next_seqnum(n)
                && o.unwrap().rx.closed == r.closed
            &&& disco ==> o.unwrap().step == StepV::Done(Err(Fault::RemoteDisco(false)))
                && o.unwrap().rx.chans[chan as int].seqnum == n
                && o.unwrap().rx.closed
            &&& (tp == 0 && data.len() >= 3 && data[0] == 1 && s.remote_id == 0) ==> o.unwrap().share.remote_id
                == be16(data[1], data[2])
            &&& tp == PktType::Orig.spec_code() ==> o.unwrap().rx.queue == r.queue.push(
                Ok(Pkt { chan, unrel: false, data }),
            )
            &&& tp > 3 ==> o.unwrap().rx.queue == r.queue.push(Err(Fault::InvalidType(tp)))
                && o.unwrap().share == s
        }),
{
    let ch = chan as int;
    let c = r.chans[ch];
    let n = c.seqnum;
    let slot = spec_slot(n);
    let p = seq![tp] + data;
    lemma_reliable_content(remote_id, chan, n, tp, data);
    assert(chan_wf(c));
    let h = RecvV { pending: Some((chan, 0)), ..with_chan(r, ch, set_packet(c, slot, Some(p))) };
    let h0 = RecvV { pending: None, ..h };
    let c0 = h0.chans[ch];
    assert(c0.packets.update(slot, None) =~= c.packets);
    let r1 = with_chan(h0, ch, set_packet(c0, slot, None));
    assert(r1.chans =~= r.chans);
    assert(r1 == r);
    lemma_process_plain(r, s, p, false, chan, now);
    assert(p.skip(1) =~= data);
    let o = spec_process(r, s, p, false, chan, now);
    let res = o.pause->Ret_0;
    let (r2, res2) = spec_handle_err(o.rx, res);
    if res2 is Ok {
        let r3 = with_chan(r2, ch, advanced(r2.chans[ch]));
        assert(r3.chans[ch].packets == c.packets);
        assert(spec_drain(r3, o.share, chan, now, (fuel - 1) as nat) == Some(
            Inter { rx: r3, share: o.share, pause: Pause::Ret(Ok(())) },
        ));
    }
    assert(spec_drain(h0, s, chan, now, fuel) is Some);
}



/// A datagram with a broken header changes nothing and is answered with its
/// error: too short for the protocol identifier or for the channel, another
/// protocol's identifier, or a channel that does not exist.
pub proof fn law_header_errors(r: RecvV, s: ShareV, d: Seq<u8>, now: u64)
    ensures
        d.len() < 4 ==> spec_handle_pkt(r, s, d, now) == done(r, s, Err(Fault::Io)),
        d.len() >= 4 && be32(d[0], d[1], d[2], d[3]) != PROTO_ID as int ==> spec_handle_pkt(r, s, d, now) == done(
            r,
            s,
            Err(Fault::InvalidProtoId(be32(d[0], d[1], d[2], d[3]) as u32)),
        ),
        d.len() >= 4 && be32(d[0], d[1], d[2], d[3]) == PROTO_ID as int && d.len() < 7 ==> spec_handle_pkt(r, s, d, now)
            == done(r, s, Err(Fault::Io)),
        d.len() >= 7 && be32(d[0], d[1], d[2], d[3]) == PROTO_ID as int && d[6] >= NUM_CHANS ==> spec_handle_pkt(
            r,
            s,
            d,
            now,
        ) == done(r, s, Err(Fault::InvalidChannel(d[6]))),
{
}

/// The result of handling a packet: an error that ends the connection
/// closes the receiver and is returned, without being handed out; any other
/// error is handed out last and the step counts as done; success changes
/// nothing.
pub proof fn law_handle_err(r: RecvV, res: Result<(), Fault>)
    ensures
        res is Ok ==> spec_handle_err(r, res) == (r, res),
        res is Err && (res->Err_0 is RemoteDisco || res->Err_0 is LocalDisco) ==> spec_handle_err(r, res) == (
            RecvV { closed: true, ..r },
            res,
        ),
        res is Err && !(res->Err_0 is RemoteDisco || res->Err_0 is LocalDisco) ==> spec_handle_err(r, res) == (
            RecvV { queue: r.queue.push(Err(res->Err_0)), ..r },
            Ok::<(), Fault>(()),
        ),
{
}

} // verus!
