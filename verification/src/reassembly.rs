//! Packets in chunks: a packet in any number of chunks is handed out once,
//! whole, when its last chunk came.
use vstd::prelude::*;
use crate::common::{Pkt, NUM_CHANS};
use crate::error::Fault;
use crate::laws::{chunk_datagram, lemma_header, lemma_u16_bytes};
use crate::model::{
    done, flatten, no_chunks, queued, rx_wf, spec_handle_err, spec_handle_pkt, spec_process, spec_split, with_chan,
    Outcome, Pause, RecvChanV, RecvV, SplitV, StepV,
};
use crate::send::{spec_header, ShareV};
use crate::wire::u16_bytes;

verus! {

/// The chunks `cs`, one after the other.
pub open spec fn concat(cs: Seq<Seq<u8>>) -> Seq<u8>
    decreases cs.len(),
{
    if cs.len() == 0 {
        Seq::empty()
    } else {
        concat(cs.drop_last()) + cs.last()
    }
}

/// What handing the receiver the first `k` of the chunks `cs` of packet
/// `seqnum` of channel `chan` gives, each chunk unreliably, in the order of
/// their indices.
pub open spec fn fed_chunks(
    r: RecvV,
    s: ShareV,
    remote_id: u16,
    chan: u8,
    seqnum: u16,
    cs: Seq<Seq<u8>>,
    k: nat,
    now: u64,
) -> Outcome
    decreases k,
{
    if k == 0 {
        done(r, s, Ok(()))
    } else {
        let o = fed_chunks(r, s, remote_id, chan, seqnum, cs, (k - 1) as nat, now);
        chunk_arrives(o.rx, o.share, remote_id, chan, seqnum, (k - 1) as u16, cs.len() as u16, cs[k - 1], now)
    }
}

/// What the datagram of chunk `idx` of `cnt` chunks of packet `seqnum` gives.
#[verifier::opaque]
pub open spec fn chunk_arrives(
    r: RecvV,
    s: ShareV,
    remote_id: u16,
    chan: u8,
    seqnum: u16,
    idx: u16,
    cnt: u16,
    chunk: Seq<u8>,
    now: u64,
) -> Outcome {
    spec_handle_pkt(r, s, chunk_datagram(remote_id, chan, seqnum, idx, cnt, chunk), now)
}

/// The chunks of `cs` received when the first `k` came.
spec fn got_chunks(cs: Seq<Seq<u8>>, k: nat) -> Seq<Option<Seq<u8>>> {
    Seq::new(cs.len(), |i: int| if i < k { Some(cs[i]) } else { None })
}

/// The receiver while the first `k` chunks of `cs` of packet `seqnum` came.
spec fn partway(r: RecvV, chan: u8, seqnum: u16, cs: Seq<Seq<u8>>, k: nat, now: u64) -> RecvV {
    let c = r.chans[chan as int];
    with_chan(
        r,
        chan as int,
        RecvChanV {
            splits: c.splits.insert(seqnum, SplitV { timestamp: Some(now), chunks: got_chunks(cs, k), got: k as int }),
            ..c
        },
    )
}

/// The datagram of a chunk goes to the handling of chunks, as one that came
/// unreliably.
proof fn lemma_chunk_datagram(
    r: RecvV,
    s: ShareV,
    remote_id: u16,
    chan: u8,
    seqnum: u16,
    idx: u16,
    cnt: u16,
    chunk: Seq<u8>,
    now: u64,
)
    requires
        chan < NUM_CHANS,
    ensures
        ({
            let (r2, res) = spec_split(r, chan, true, now, seqnum, idx as int, cnt as int, chunk);
            let (r3, res3) = spec_handle_err(r2, res);
            chunk_arrives(r, s, remote_id, chan, seqnum, idx, cnt, chunk, now) == done(r3, s, res3)
        }),
{
    reveal(chunk_arrives);
    lemma_u16_bytes(seqnum);
    lemma_u16_bytes(idx);
    lemma_u16_bytes(cnt);
    let b = u16_bytes(seqnum) + u16_bytes(idx) + u16_bytes(cnt) + chunk;
    let rest = seq![2u8] + b;
    lemma_header(remote_id, chan, rest);
    assert(chunk_datagram(remote_id, chan, seqnum, idx, cnt, chunk) =~= spec_header(remote_id, chan) + rest);
    assert(rest.skip(7) =~= chunk);
}

/// All chunks received, put together, are the chunks one after the other.
proof fn lemma_flatten_all(cs: Seq<Seq<u8>>)
    ensures
        flatten(got_chunks(cs, cs.len())) == concat(cs),
    decreases cs.len(),
{
    if cs.len() > 0 {
        lemma_flatten_all(cs.drop_last());
        assert(got_chunks(cs, cs.len()).drop_last() =~= got_chunks(cs.drop_last(), cs.drop_last().len()));
    }
}

/// Before the last chunk, the packet waits with the chunks that came.
proof fn lemma_fed(r: RecvV, s: ShareV, remote_id: u16, chan: u8, seqnum: u16, cs: Seq<Seq<u8>>, k: nat, now: u64)
    requires
        rx_wf(r),
        chan < NUM_CHANS,
        1 <= k < cs.len() <= 0xffff,
        !r.chans[chan as int].splits.contains_key(seqnum),
    ensures
        fed_chunks(r, s, remote_id, chan, seqnum, cs, k, now) == done(partway(r, chan, seqnum, cs, k, now), s, Ok(())),
    decreases k,
{
    let ch = chan as int;
    let c = r.chans[ch];
    let cnt = cs.len() as u16;
    let i = (k - 1) as nat;
    if k == 1 {
        lemma_chunk_datagram(r, s, remote_id, chan, seqnum, 0, cnt, cs[0], now);
        assert(no_chunks(cs.len()).update(0, Some(cs[0])) =~= got_chunks(cs, 1));
    } else {
        lemma_fed(r, s, remote_id, chan, seqnum, cs, i, now);
        let p = partway(r, chan, seqnum, cs, i, now);
        lemma_chunk_datagram(p, s, remote_id, chan, seqnum, i as u16, cnt, cs[i as int], now);
        let cp = p.chans[ch];
        assert(cp.splits.contains_key(seqnum));
        assert(got_chunks(cs, i).update(i as int, Some(cs[i as int])) =~= got_chunks(cs, k));
        let sp2 = SplitV { timestamp: Some(now), chunks: got_chunks(cs, k), got: k as int };
        assert(cp.splits.insert(seqnum, sp2) =~= c.splits.insert(seqnum, sp2));
        let q = with_chan(p, ch, RecvChanV { splits: cp.splits.insert(seqnum, sp2), ..cp });
        assert(q.chans =~= partway(r, chan, seqnum, cs, k, now).chans);
    }
}

/// A packet in any number of chunks that arrive in the order of their
/// indices: until the last one came, nothing is handed out; once it came,
/// exactly the packet is handed out, its data the chunks one after the
/// other, and no trace of it stays.
pub proof fn law_reassembly_in_order(
    r: RecvV,
    s: ShareV,
    remote_id: u16,
    chan: u8,
    seqnum: u16,
    cs: Seq<Seq<u8>>,
    now: u64,
)
    requires
        rx_wf(r),
        chan < NUM_CHANS,
        1 <= cs.len() <= 0xffff,
        !r.chans[chan as int].splits.contains_key(seqnum),
    ensures
        forall|k: nat|
            1 <= k < cs.len() ==> (#[trigger] fed_chunks(r, s, remote_id, chan, seqnum, cs, k, now)).rx.queue == r.queue
                && fed_chunks(r, s, remote_id, chan, seqnum, cs, k, now).step == StepV::Done(Ok(())),
        fed_chunks(r, s, remote_id, chan, seqnum, cs, cs.len(), now) == done(
            queued(r, Ok(Pkt { chan, unrel: true, data: concat(cs) })),
            s,
            Ok(()),
        ),
{
    let ch = chan as int;
    let c = r.chans[ch];
    let n = cs.len();
    let cnt = n as u16;
    assert forall|k: nat| 1 <= k < cs.len() implies (#[trigger] fed_chunks(r, s, remote_id, chan, seqnum, cs, k, now)).rx.queue
        == r.queue && fed_chunks(r, s, remote_id, chan, seqnum, cs, k, now).step == StepV::Done(Ok(())) by {
        lemma_fed(r, s, remote_id, chan, seqnum, cs, k, now);
    }
    let i = (n - 1) as nat;
    let p = if n == 1 { r } else { partway(r, chan, seqnum, cs, i, now) };
    if n == 1 {
        assert(no_chunks(1).update(0, Some(cs[0])) =~= got_chunks(cs, 1));
    } else {
        lemma_fed(r, s, remote_id, chan, seqnum, cs, i, now);
        assert(got_chunks(cs, i).update(i as int, Some(cs[i as int])) =~= got_chunks(cs, n));
    }
    lemma_chunk_datagram(p, s, remote_id, chan, seqnum, i as u16, cnt, cs[i as int], now);
    lemma_flatten_all(cs);
    let cp = p.chans[ch];
    assert(cp.splits.remove(seqnum) =~= c.splits);
    let q = with_chan(p, ch, RecvChanV { splits: cp.splits.remove(seqnum), ..cp });
    assert(q.chans =~= r.chans);
    assert(q == r);
}


/// A chunk sent again before the packet is whole replaces the one that came
/// before under its index and does not count twice: the receiver is as if the
/// chunks had been the new ones from the start.
pub proof fn law_chunk_resent(
    r: RecvV,
    s: ShareV,
    remote_id: u16,
    chan: u8,
    seqnum: u16,
    cs: Seq<Seq<u8>>,
    k: nat,
    j: nat,
    x: Seq<u8>,
    now: u64,
)
    requires
        rx_wf(r),
        chan < NUM_CHANS,
        1 <= k < cs.len() <= 0xffff,
        j < k,
        !r.chans[chan as int].splits.contains_key(seqnum),
    ensures
        chunk_arrives(
            fed_chunks(r, s, remote_id, chan, seqnum, cs, k, now).rx,
            s,
            remote_id,
            chan,
            seqnum,
            j as u16,
            cs.len() as u16,
            x,
            now,
        ) == fed_chunks(r, s, remote_id, chan, seqnum, cs.update(j as int, x), k, now),
{
    let ch = chan as int;
    let c = r.chans[ch];
    let cs2 = cs.update(j as int, x);
    lemma_fed(r, s, remote_id, chan, seqnum, cs, k, now);
    lemma_fed(r, s, remote_id, chan, seqnum, cs2, k, now);
    let p = partway(r, chan, seqnum, cs, k, now);
    lemma_chunk_datagram(p, s, remote_id, chan, seqnum, j as u16, cs.len() as u16, x, now);
    let cp = p.chans[ch];
    assert(cp.splits.contains_key(seqnum));
    assert(got_chunks(cs, k).update(j as int, Some(x)) =~= got_chunks(cs2, k));
    let sp2 = SplitV { timestamp: Some(now), chunks: got_chunks(cs2, k), got: k as int };
    assert(cp.splits.insert(seqnum, sp2) =~= c.splits.insert(seqnum, sp2));
    let q = with_chan(p, ch, RecvChanV { splits: cp.splits.insert(seqnum, sp2), ..cp });
    assert(q.chans =~= partway(r, chan, seqnum, cs2, k, now).chans);
}

/// The first chunk of a packet of several: it is kept under its index, with
/// the time when it came unreliably and none when it came reliably, and
/// nothing is handed out.
pub proof fn law_first_chunk(
    r: RecvV,
    s: ShareV,
    seqnum: u16,
    idx: u16,
    cnt: u16,
    chunk: Seq<u8>,
    unrel: bool,
    chan: u8,
    now: u64,
)
    requires
        rx_wf(r),
        chan < NUM_CHANS,
        2 <= cnt,
        idx < cnt,
        !r.chans[chan as int].splits.contains_key(seqnum),
    ensures
        ({
            let o = spec_process(
                r,
                s,
                seq![2u8] + u16_bytes(seqnum) + u16_bytes(idx) + u16_bytes(cnt) + chunk,
                unrel,
                chan,
                now,
            );
            let sp = o.rx.chans[chan as int].splits[seqnum];
            &&& o.pause == Pause::Ret(Ok(()))
            &&& o.share == s
            &&& o.rx.queue == r.queue
            &&& o.rx.chans[chan as int].splits.contains_key(seqnum)
            &&& sp.timestamp == (if unrel { Some(now) } else { None::<u64> })
            &&& sp.chunks.len() == cnt
            &&& sp.chunks[idx as int] == Some(chunk)
            &&& forall|i: int| 0 <= i < cnt && i != idx ==> sp.chunks[i] is None
            &&& sp.got == 1
            &&& o.rx.chans[chan as int].packets == r.chans[chan as int].packets
            &&& o.rx.chans[chan as int].seqnum == r.chans[chan as int].seqnum
        }),
{
    lemma_u16_bytes(seqnum);
    lemma_u16_bytes(idx);
    lemma_u16_bytes(cnt);
    let b = seq![2u8] + u16_bytes(seqnum) + u16_bytes(idx) + u16_bytes(cnt) + chunk;
    assert(b.len() >= 7 && b[0] == 2u8);
    assert(b[1] == u16_bytes(seqnum)[0] && b[2] == u16_bytes(seqnum)[1]);
    assert(b[3] == u16_bytes(idx)[0] && b[4] == u16_bytes(idx)[1]);
    assert(b[5] == u16_bytes(cnt)[0] && b[6] == u16_bytes(cnt)[1]);
    assert(b.skip(7) =~= chunk);
}

/// A chunk that does not fit is an error that is handed out: a count other
/// than the one the packet's first chunk gave, or an index past the count.
/// The chunks that came stay as they were.
pub proof fn law_chunk_errors(
    r: RecvV,
    s: ShareV,
    remote_id: u16,
    chan: u8,
    seqnum: u16,
    idx: u16,
    cnt: u16,
    chunk: Seq<u8>,
    now: u64,
)
    requires
        rx_wf(r),
        chan < NUM_CHANS,
    ensures
        ({
            let c = r.chans[chan as int];
            let o = chunk_arrives(r, s, remote_id, chan, seqnum, idx, cnt, chunk, now);
            &&& c.splits.contains_key(seqnum) && c.splits[seqnum].chunks.len() != cnt ==> o == done(
                queued(r, Err(Fault::InvalidChunkCount(c.splits[seqnum].chunks.len() as usize, cnt as usize))),
                s,
                Ok(()),
            )
            &&& c.splits.contains_key(seqnum) && c.splits[seqnum].chunks.len() == cnt && idx >= cnt ==> o == done(
                queued(r, Err(Fault::InvalidChunkIndex(idx as usize, cnt as usize))),
                s,
                Ok(()),
            )
            &&& !c.splits.contains_key(seqnum) && idx >= cnt ==> o.step == StepV::Done(Ok(()))
                && o.share == s
                && o.rx.queue == r.queue.push(Err(Fault::InvalidChunkIndex(idx as usize, cnt as usize)))
                && o.rx.chans[chan as int].splits[seqnum].got == 0
                && o.rx.chans[chan as int].splits[seqnum].chunks == no_chunks(cnt as nat)
        }),
{
    let ch = chan as int;
    let c = r.chans[ch];
    lemma_chunk_datagram(r, s, remote_id, chan, seqnum, idx, cnt, chunk, now);
    if c.splits.contains_key(seqnum) {
        assert(c.splits.insert(seqnum, c.splits[seqnum]) =~= c.splits);
        assert(with_chan(r, ch, RecvChanV { splits: c.splits.insert(seqnum, c.splits[seqnum]), ..c }).chans =~= r.chans);
    }
}

} // verus!
