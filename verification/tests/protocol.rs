use mt_rudp::{
    disco_pkt, ping_pkt, seqnum_after, to_seqnum, CtlType, Error, Event, InPkt, PeerID, Pkt, PktType, Poll,
    RudpReceiver, RudpShare, Step, INIT_SEQNUM, NUM_CHANS, PROTO_ID, REL_BUFFER,
};

fn header(remote_id: u16, chan: u8) -> Vec<u8> {
    let mut v = PROTO_ID.to_be_bytes().to_vec();
    v.extend_from_slice(&remote_id.to_be_bytes());
    v.push(chan);
    v
}

fn datagram(chan: u8, body: &[u8]) -> Vec<u8> {
    let mut v = header(7, chan);
    v.extend_from_slice(body);
    v
}

fn rel(chan: u8, seqnum: u16, body: &[u8]) -> Vec<u8> {
    let mut b = vec![3];
    b.extend_from_slice(&seqnum.to_be_bytes());
    b.extend_from_slice(body);
    datagram(chan, &b)
}

fn split(chan: u8, seqnum: u16, idx: u16, cnt: u16, chunk: &[u8]) -> Vec<u8> {
    let mut b = vec![2];
    b.extend_from_slice(&seqnum.to_be_bytes());
    b.extend_from_slice(&idx.to_be_bytes());
    b.extend_from_slice(&cnt.to_be_bytes());
    b.extend_from_slice(chunk);
    datagram(chan, &b)
}

fn pair() -> (RudpReceiver, RudpShare) {
    (RudpReceiver::new(), RudpShare::new(PeerID::Srv.id(), PeerID::Nil.id()))
}

fn boom() -> std::io::Error {
    std::io::Error::new(std::io::ErrorKind::Other, "boom")
}

/// Hands `d` to the receiver and sends every acknowledgement it asks for,
/// successfully; returns the step's result and the acknowledgements.
fn feed(rx: &mut RudpReceiver, share: &mut RudpShare, d: Vec<u8>, now: u64) -> (Result<(), Error>, Vec<Vec<u8>>) {
    let mut acks = Vec::new();
    let mut step = rx.handle_pkt(share, Ok(d), now);
    loop {
        match step {
            Step::SendAck(a) => {
                acks.push(a);
                assert!(rx.awaits_ack());
                step = rx.ack_sent(share, Ok(()), now);
            },
            Step::Done(r) => {
                assert!(!rx.awaits_ack());
                return (r, acks);
            },
        }
    }
}

fn ack_of(remote_id: u16, chan: u8, seqnum: u16) -> Vec<u8> {
    let mut a = header(remote_id, chan);
    a.extend_from_slice(&[0, 0]);
    a.extend_from_slice(&seqnum.to_be_bytes());
    a
}

fn expect_pkt(x: Option<InPkt>, chan: u8, unrel: bool, data: &[u8]) {
    match x {
        Some(Ok(p)) => {
            assert_eq!(p.chan, chan);
            assert_eq!(p.unrel, unrel);
            assert_eq!(p.data, data.to_vec());
        },
        other => panic!("expected a packet, got {:?}", other),
    }
}

#[test]
fn constants_and_codes() {
    assert_eq!(PROTO_ID, 0x4f457403);
    assert_eq!(NUM_CHANS, 3);
    assert_eq!(REL_BUFFER, 0x8000);
    assert_eq!(INIT_SEQNUM, 65500);
    assert_eq!(PeerID::Nil.id(), 0);
    assert_eq!(PeerID::Srv.id(), 1);
    assert_eq!(PeerID::CltMin.id(), 2);
    assert_eq!(PktType::Rel.code(), 3);
    assert_eq!(PktType::from_code(2), Some(PktType::Split));
    assert_eq!(PktType::from_code(4), None);
    assert_eq!(CtlType::Disco.code(), 3);
    assert_eq!(CtlType::from_code(1), Some(CtlType::SetPeerID));
    assert_eq!(CtlType::from_code(200), None);
}

#[test]
fn sequence_numbers_wrap() {
    assert_eq!(to_seqnum(65500), 32732);
    assert_eq!(to_seqnum(32768), 0);
    assert_eq!(to_seqnum(5), 5);
    assert_eq!(to_seqnum(32767 + 32768), 32767);
    assert_eq!(seqnum_after(65535), 0);
    assert_eq!(seqnum_after(65500), 65501);
}

#[test]
fn encode_unreliable() {
    let share = RudpShare::new(2, 1);
    assert_eq!(share.peer_id(), 2);
    assert!(!share.is_server());
    assert_eq!(share.remote_id(), 1);
    let d = share.encode_pkt(PktType::Orig, &Pkt { unrel: true, chan: 1, data: vec![9, 8] });
    assert_eq!(d, vec![0x4f, 0x45, 0x74, 0x03, 0, 1, 1, 1, 9, 8]);
}

#[test]
fn encode_reliable_and_record() {
    let mut share = RudpShare::new(1, 0x1234);
    assert!(share.is_server());
    let pkt = Pkt { unrel: false, chan: 0, data: vec![5] };
    let d = share.encode_pkt(PktType::Orig, &pkt);
    assert_eq!(d, vec![0x4f, 0x45, 0x74, 0x03, 0x12, 0x34, 0, 3, 0xff, 0xdc, 1, 5]);
    assert_eq!(share.record_sent(0, false, d.clone()), Some(65500));
    assert_eq!(share.pending(0), vec![d]);
    assert!(share.pending(1).is_empty());
    let d2 = share.encode_pkt(PktType::Orig, &pkt);
    assert_eq!(&d2[8..10], &[0xff, 0xdd]);
    assert_eq!(share.record_sent(2, true, d2), None);
    assert!(share.pending(2).is_empty());
}

#[test]
fn ping_and_disco_packets() {
    let p = ping_pkt();
    assert_eq!((p.chan, p.unrel, p.data), (0, false, vec![2]));
    let d = disco_pkt();
    assert_eq!((d.chan, d.unrel, d.data), (0, true, vec![3]));
}

#[test]
fn unreliable_round_trip() {
    let sender = RudpShare::new(2, 1);
    let d = sender.encode_pkt(PktType::Orig, &Pkt { unrel: true, chan: 2, data: vec![1, 2, 3] });
    let (mut rx, mut share) = pair();
    assert!(matches!(rx.handle_pkt(&mut share, Ok(d), 0), Step::Done(Ok(()))));
    expect_pkt(rx.pop_queue(), 2, true, &[1, 2, 3]);
    assert!(rx.pop_queue().is_none());
    assert!(rx.take_outbox().is_empty());
}

#[test]
fn reliable_round_trip_and_ack() {
    let mut sender = RudpShare::new(2, 1);
    let mut sender_rx = RudpReceiver::new();
    let pkt = Pkt { unrel: false, chan: 1, data: vec![42] };
    let d = sender.encode_pkt(PktType::Orig, &pkt);
    assert_eq!(sender.record_sent(1, false, d.clone()), Some(INIT_SEQNUM));

    let (mut rx, mut share) = pair();
    share.set_remote_id(2);
    let ack = match rx.handle_pkt(&mut share, Ok(d), 0) {
        Step::SendAck(a) => a,
        other => panic!("expected an acknowledgement to send, got {:?}", other),
    };
    assert_eq!(ack, ack_of(2, 1, INIT_SEQNUM));
    // nothing is handed out before the acknowledgement went out
    assert!(rx.awaits_ack());
    assert!(rx.can_take_ack());
    assert!(rx.pop_queue().is_none());
    assert!(matches!(rx.ack_sent(&mut share, Ok(()), 0), Step::Done(Ok(()))));
    assert!(!rx.awaits_ack());
    expect_pkt(rx.pop_queue(), 1, false, &[42]);
    assert!(rx.take_outbox().is_empty());

    assert_eq!(sender.pending(1).len(), 1);
    assert!(feed(&mut sender_rx, &mut sender, ack, 0).0.is_ok());
    assert!(sender.pending(1).is_empty());
    assert_eq!(sender_rx.take_acked(), vec![(1, INIT_SEQNUM)]);
    assert!(sender_rx.pop_queue().is_none());
}

#[test]
fn reliable_packets_are_reordered() {
    let (mut rx, mut share) = pair();
    let (r, acks) = feed(&mut rx, &mut share, rel(0, 65501, &[1, 20]), 0);
    assert!(r.is_ok());
    assert_eq!(acks, vec![ack_of(0, 0, 65501)]);
    assert!(rx.pop_queue().is_none());
    let (r, acks) = feed(&mut rx, &mut share, rel(0, 65500, &[1, 10]), 0);
    assert!(r.is_ok());
    assert_eq!(acks, vec![ack_of(0, 0, 65500)]);
    expect_pkt(rx.pop_queue(), 0, false, &[10]);
    expect_pkt(rx.pop_queue(), 0, false, &[20]);
    assert!(rx.pop_queue().is_none());
    assert!(rx.take_outbox().is_empty());
    assert!(feed(&mut rx, &mut share, rel(0, 65502, &[1, 30]), 0).0.is_ok());
    expect_pkt(rx.pop_queue(), 0, false, &[30]);
}

#[test]
fn reliable_split_and_errors_inside() {
    let (mut rx, mut share) = pair();
    // a reliable packet whose content has an invalid type: the error is queued
    assert!(feed(&mut rx, &mut share, rel(1, 65500, &[9]), 0).0.is_ok());
    assert!(matches!(rx.pop_queue(), Some(Err(Error::InvalidType(9)))));
    // the next one is still delivered in order
    assert!(feed(&mut rx, &mut share, rel(1, 65501, &[1, 7]), 0).0.is_ok());
    expect_pkt(rx.pop_queue(), 1, false, &[7]);
}

#[test]
fn split_reassembly_in_any_order() {
    let (mut rx, mut share) = pair();
    assert!(feed(&mut rx, &mut share, split(0, 9, 1, 2, &[3, 4]), 0).0.is_ok());
    assert!(rx.pop_queue().is_none());
    assert!(feed(&mut rx, &mut share, split(0, 9, 0, 2, &[1, 2]), 0).0.is_ok());
    expect_pkt(rx.pop_queue(), 0, true, &[1, 2, 3, 4]);
    // the same packet again starts afresh
    assert!(feed(&mut rx, &mut share, split(0, 9, 0, 2, &[5]), 0).0.is_ok());
    assert!(feed(&mut rx, &mut share, split(0, 9, 0, 2, &[6]), 0).0.is_ok());
    assert!(rx.pop_queue().is_none());
    assert!(feed(&mut rx, &mut share, split(0, 9, 1, 2, &[7]), 0).0.is_ok());
    expect_pkt(rx.pop_queue(), 0, true, &[6, 7]);
}

#[test]
fn split_errors() {
    let (mut rx, mut share) = pair();
    assert!(feed(&mut rx, &mut share, split(2, 1, 0, 3, &[1]), 0).0.is_ok());
    assert!(feed(&mut rx, &mut share, split(2, 1, 0, 4, &[1]), 0).0.is_ok());
    assert!(matches!(rx.pop_queue(), Some(Err(Error::InvalidChunkCount(3, 4)))));
    assert!(feed(&mut rx, &mut share, split(2, 1, 5, 3, &[1]), 0).0.is_ok());
    assert!(matches!(rx.pop_queue(), Some(Err(Error::InvalidChunkIndex(5, 3)))));
    assert!(feed(&mut rx, &mut share, split(2, 2, 0, 0, &[1]), 0).0.is_ok());
    assert!(matches!(rx.pop_queue(), Some(Err(Error::InvalidChunkIndex(0, 0)))));
}

#[test]
fn header_errors() {
    let (mut rx, mut share) = pair();
    assert!(matches!(rx.handle_pkt(&mut share, Ok(vec![0x4f, 0x45]), 0), Step::Done(Err(Error::IoError(_)))));
    assert!(matches!(
        rx.handle_pkt(&mut share, Ok(vec![0, 0, 0, 1, 0, 0, 0, 1]), 0),
        Step::Done(Err(Error::InvalidProtoId(1)))
    ));
    assert!(matches!(
        rx.handle_pkt(&mut share, Ok(header(0, 0)[..6].to_vec()), 0),
        Step::Done(Err(Error::IoError(_)))
    ));
    assert!(matches!(
        rx.handle_pkt(&mut share, Ok(datagram(3, &[1])), 0),
        Step::Done(Err(Error::InvalidChannel(3)))
    ));
    match rx.handle_pkt(&mut share, Err(boom()), 0) {
        Step::Done(Err(Error::IoError(e))) => assert_eq!(e.to_string(), "boom"),
        other => panic!("expected the I/O error, got {:?}", other),
    }
    assert!(rx.pop_queue().is_none());
    assert!(!rx.is_closed());
    assert!(!rx.awaits_ack());
}

#[test]
fn packet_errors_are_queued() {
    let (mut rx, mut share) = pair();
    assert!(feed(&mut rx, &mut share, datagram(0, &[]), 0).0.is_ok());
    assert!(matches!(rx.pop_queue(), Some(Err(Error::IoError(_)))));
    assert!(feed(&mut rx, &mut share, datagram(0, &[4]), 0).0.is_ok());
    assert!(matches!(rx.pop_queue(), Some(Err(Error::InvalidType(4)))));
    assert!(feed(&mut rx, &mut share, datagram(0, &[0, 4]), 0).0.is_ok());
    assert!(matches!(rx.pop_queue(), Some(Err(Error::InvalidType(4)))));
    assert!(feed(&mut rx, &mut share, datagram(0, &[3, 1]), 0).0.is_ok());
    assert!(matches!(rx.pop_queue(), Some(Err(Error::IoError(_)))));
    assert!(feed(&mut rx, &mut share, datagram(0, &[2, 0, 1]), 0).0.is_ok());
    assert!(matches!(rx.pop_queue(), Some(Err(Error::IoError(_)))));
    assert!(!rx.is_closed());
}

#[test]
fn control_packets() {
    let (mut rx, mut share) = pair();
    assert!(feed(&mut rx, &mut share, datagram(0, &[0, 2]), 0).0.is_ok());
    assert!(rx.pop_queue().is_none());
    assert!(feed(&mut rx, &mut share, datagram(0, &[0, 1, 0x01, 0x02]), 0).0.is_ok());
    assert_eq!(share.remote_id(), 0x0102);
    assert!(feed(&mut rx, &mut share, datagram(0, &[0, 1, 0, 9]), 0).0.is_ok());
    assert!(matches!(rx.pop_queue(), Some(Err(Error::PeerIDAlreadySet))));
    assert_eq!(share.remote_id(), 0x0102);
    // an acknowledgement of nothing changes nothing
    assert!(feed(&mut rx, &mut share, datagram(0, &[0, 0, 0, 1]), 0).0.is_ok());
    assert!(rx.take_acked().is_empty());
    assert!(matches!(
        rx.handle_pkt(&mut share, Ok(datagram(1, &[0, 3])), 0),
        Step::Done(Err(Error::RemoteDisco(false)))
    ));
    assert!(rx.is_closed());
}

#[test]
fn events() {
    let (mut rx, mut share) = pair();
    assert!(matches!(rx.handle_event(&mut share, Event::Resend), Step::Done(Ok(()))));
    assert!(rx.take_outbox().is_empty());
    let d = share.encode_pkt(PktType::Ctl, &ping_pkt());
    share.record_sent(0, false, d.clone());
    assert!(matches!(rx.handle_event(&mut share, Event::Resend), Step::Done(Ok(()))));
    assert_eq!(rx.take_outbox(), vec![d]);
    assert!(matches!(
        rx.handle_event(&mut share, Event::Datagram(Err(boom()), 0)),
        Step::Done(Err(Error::IoError(_)))
    ));
    assert!(matches!(
        rx.handle_event(&mut share, Event::Datagram(Ok(datagram(5, &[])), 0)),
        Step::Done(Err(Error::InvalidChannel(5)))
    ));
    assert!(matches!(
        rx.handle_event(&mut share, Event::Datagram(Ok(datagram(0, &[1, 1])), 0)),
        Step::Done(Ok(()))
    ));
    expect_pkt(rx.pop_queue(), 0, true, &[1]);
    match rx.handle_event(&mut share, Event::Datagram(Ok(rel(0, 65500, &[1, 2])), 0)) {
        Step::SendAck(a) => assert_eq!(a, ack_of(0, 0, 65500)),
        other => panic!("expected an acknowledgement to send, got {:?}", other),
    }
    assert!(matches!(rx.ack_sent(&mut share, Ok(()), 0), Step::Done(Ok(()))));
    expect_pkt(rx.pop_queue(), 0, false, &[2]);
    assert!(!rx.is_closed());
    assert!(matches!(rx.handle_event(&mut share, Event::Timeout), Step::Done(Err(Error::RemoteDisco(true)))));
    assert!(rx.is_closed());
    let (mut rx, mut share) = pair();
    assert!(matches!(rx.handle_event(&mut share, Event::Close), Step::Done(Err(Error::LocalDisco))));
    assert!(rx.is_closed());
}

#[test]
fn cleanup_drops_recent_unreliable_splits() {
    let (mut rx, mut share) = pair();
    // an unreliable chunk at 1s, cleaned at 2s: dropped
    assert!(feed(&mut rx, &mut share, split(0, 1, 0, 2, &[1]), 1_000).0.is_ok());
    assert!(matches!(rx.handle_event(&mut share, Event::Cleanup(2_000)), Step::Done(Ok(()))));
    assert!(feed(&mut rx, &mut share, split(0, 1, 1, 2, &[2]), 2_000).0.is_ok());
    assert!(rx.pop_queue().is_none());
    // an unreliable chunk that is old enough: kept
    assert!(feed(&mut rx, &mut share, split(0, 2, 0, 2, &[1]), 1_000).0.is_ok());
    rx.cleanup(31_000);
    assert!(feed(&mut rx, &mut share, split(0, 2, 1, 2, &[2]), 31_000).0.is_ok());
    expect_pkt(rx.pop_queue(), 0, true, &[1, 2]);
    // a chunk that came reliably: kept
    let mut b = vec![2];
    b.extend_from_slice(&3u16.to_be_bytes());
    b.extend_from_slice(&0u16.to_be_bytes());
    b.extend_from_slice(&2u16.to_be_bytes());
    b.push(5);
    assert!(feed(&mut rx, &mut share, rel(1, INIT_SEQNUM, &b), 1_000).0.is_ok());
    rx.cleanup(2_000);
    assert!(feed(&mut rx, &mut share, split(1, 3, 1, 2, &[6]), 2_000).0.is_ok());
    expect_pkt(rx.pop_queue(), 1, true, &[5, 6]);
}

#[test]
fn handle_err_sorts_errors() {
    let mut rx = RudpReceiver::new();
    assert!(rx.handle_err(Ok(())).is_ok());
    assert!(rx.handle_err(Err(Error::InvalidChannel(4))).is_ok());
    assert!(matches!(rx.pop_queue(), Some(Err(Error::InvalidChannel(4)))));
    assert!(!rx.is_closed());
    assert!(matches!(rx.handle_err(Err(Error::LocalDisco)), Err(Error::LocalDisco)));
    assert!(rx.is_closed());
    assert!(rx.pop_queue().is_none());
}

#[test]
fn error_messages() {
    assert_eq!(Error::InvalidProtoId(1234).message(), "rudp: invalid protocol ID: 1234");
    assert_eq!(Error::InvalidChannel(3).message(), "rudp: invalid channel: 3");
    assert_eq!(Error::InvalidType(0).message(), "rudp: invalid type: 0");
    assert_eq!(Error::InvalidCtlType(77).message(), "rudp: invalid control type: 77");
    assert_eq!(Error::PeerIDAlreadySet.message(), "rudp: peer ID already set");
    assert_eq!(Error::InvalidChunkIndex(5, 3).message(), "rudp: chunk index 5 bigger than chunk count 3");
    assert_eq!(Error::InvalidChunkCount(3, 40).message(), "rudp: chunk count changed from 3 to 40");
    assert_eq!(Error::RemoteDisco(true).message(), "rudp: remote disconnected (timeout)");
    assert_eq!(Error::RemoteDisco(false).message(), "rudp: remote disconnected");
    assert_eq!(Error::LocalDisco.message(), "rudp: local disconnected");
    let e = Error::IoError(std::io::Error::new(std::io::ErrorKind::Other, "boom"));
    assert_eq!(e.message(), "rudp: IO error: boom");
}

#[test]
fn io_errors_convert() {
    let e: Error = std::io::Error::new(std::io::ErrorKind::Other, "boom").into();
    assert!(matches!(e, Error::IoError(_)));
}

#[test]
fn poll_hands_out_until_closed() {
    let (mut rx, mut share) = pair();
    assert!(matches!(rx.poll(), Poll::Pending));
    assert!(feed(&mut rx, &mut share, datagram(0, &[1, 4]), 0).0.is_ok());
    assert!(feed(&mut rx, &mut share, datagram(0, &[1, 5]), 0).0.is_ok());
    match rx.poll() {
        Poll::Ready(Ok(p)) => assert_eq!(p.data, vec![4]),
        other => panic!("expected a packet, got {:?}", other),
    }
    assert!(matches!(
        rx.handle_pkt(&mut share, Ok(datagram(0, &[0, 3])), 0),
        Step::Done(Err(Error::RemoteDisco(false)))
    ));
    assert!(matches!(rx.poll(), Poll::Closed));
    assert!(matches!(rx.poll(), Poll::Closed));
}

#[test]
fn duplicate_reliable_packet_is_acknowledged_not_handed_out() {
    let (mut rx, mut share) = pair();
    let (r, acks) = feed(&mut rx, &mut share, rel(2, 65500, &[1, 1]), 0);
    assert!(r.is_ok());
    assert_eq!(acks.len(), 1);
    expect_pkt(rx.pop_queue(), 2, false, &[1]);
    let (r, acks) = feed(&mut rx, &mut share, rel(2, 65500, &[1, 1]), 0);
    assert!(r.is_ok());
    assert!(rx.pop_queue().is_none());
    assert_eq!(acks, vec![ack_of(0, 2, 65500)]);
    assert!(rx.take_outbox().is_empty());
}

#[test]
fn failed_acknowledgement_keeps_the_packet() {
    let (mut rx, mut share) = pair();
    assert!(matches!(rx.handle_pkt(&mut share, Ok(rel(0, 65500, &[1, 10])), 0), Step::SendAck(_)));
    assert!(matches!(rx.ack_sent(&mut share, Err(boom()), 0), Step::Done(Ok(()))));
    assert!(!rx.awaits_ack());
    match rx.pop_queue() {
        Some(Err(Error::IoError(e))) => assert_eq!(e.to_string(), "boom"),
        other => panic!("expected the send's error, got {:?}", other),
    }
    // the packet stays buffered and the channel still expects 65500
    assert!(rx.pop_queue().is_none());
    let (r, acks) = feed(&mut rx, &mut share, rel(0, 65501, &[1, 20]), 0);
    assert!(r.is_ok());
    assert_eq!(acks, vec![ack_of(0, 0, 65501)]);
    expect_pkt(rx.pop_queue(), 0, false, &[10]);
    expect_pkt(rx.pop_queue(), 0, false, &[20]);
    assert!(rx.pop_queue().is_none());
}

#[test]
fn failed_acknowledgement_then_resend_delivers() {
    let (mut rx, mut share) = pair();
    assert!(matches!(rx.handle_pkt(&mut share, Ok(rel(1, 65500, &[1, 10])), 0), Step::SendAck(_)));
    assert!(matches!(rx.ack_sent(&mut share, Err(boom()), 0), Step::Done(Ok(()))));
    assert!(matches!(rx.pop_queue(), Some(Err(Error::IoError(_)))));
    let (r, acks) = feed(&mut rx, &mut share, rel(1, 65500, &[1, 10]), 0);
    assert!(r.is_ok());
    assert_eq!(acks, vec![ack_of(0, 1, 65500)]);
    expect_pkt(rx.pop_queue(), 1, false, &[10]);
    assert!(rx.pop_queue().is_none());
}

#[test]
fn nested_reliable_packets_acknowledge_in_turn() {
    let (mut rx, mut share) = pair();
    // a reliable packet that holds the reliable packet 65501
    let outer = rel(0, 65500, &[3, 0xff, 0xdd, 1, 7]);
    match rx.handle_pkt(&mut share, Ok(outer), 0) {
        Step::SendAck(a) => assert_eq!(a, ack_of(0, 0, 65500)),
        other => panic!("expected an acknowledgement to send, got {:?}", other),
    }
    match rx.ack_sent(&mut share, Ok(()), 0) {
        Step::SendAck(a) => assert_eq!(a, ack_of(0, 0, 65501)),
        other => panic!("expected the inner acknowledgement, got {:?}", other),
    }
    assert!(rx.awaits_ack());
    assert!(rx.pop_queue().is_none());
    assert!(matches!(rx.ack_sent(&mut share, Ok(()), 0), Step::Done(Ok(()))));
    expect_pkt(rx.pop_queue(), 0, false, &[7]);
    assert!(rx.pop_queue().is_none());
}

#[test]
fn nested_acknowledgement_failure_is_handed_out_first() {
    let (mut rx, mut share) = pair();
    let outer = rel(0, 65500, &[3, 0xff, 0xdd, 1, 7]);
    assert!(matches!(rx.handle_pkt(&mut share, Ok(outer), 0), Step::SendAck(_)));
    assert!(matches!(rx.ack_sent(&mut share, Ok(()), 0), Step::SendAck(_)));
    assert!(matches!(rx.ack_sent(&mut share, Err(boom()), 0), Step::Done(Ok(()))));
    match rx.pop_queue() {
        Some(Err(Error::IoError(e))) => assert_eq!(e.to_string(), "boom"),
        other => panic!("expected the send's error, got {:?}", other),
    }
    expect_pkt(rx.pop_queue(), 0, false, &[7]);
    assert!(rx.pop_queue().is_none());
}

#[test]
fn queued_io_error_comes_out_as_it_went_in() {
    let mut rx = RudpReceiver::new();
    assert!(rx.handle_err(Err(Error::IoError(boom()))).is_ok());
    assert!(rx.handle_err(Err(Error::InvalidType(9))).is_ok());
    match rx.poll() {
        Poll::Ready(Err(Error::IoError(e))) => {
            assert_eq!(e.kind(), std::io::ErrorKind::Other);
            assert_eq!(e.to_string(), "boom");
        },
        other => panic!("expected the queued error, got {:?}", other),
    }
    assert!(matches!(rx.poll(), Poll::Ready(Err(Error::InvalidType(9)))));
    assert!(matches!(rx.poll(), Poll::Pending));
}

#[test]
fn reliable_numbering_wraps() {
    let mut share = RudpShare::new(1, 0);
    let pkt = Pkt { unrel: false, chan: 2, data: vec![1] };
    for k in 0..40u32 {
        let d = share.encode_pkt(PktType::Orig, &pkt);
        let expected = ((65500 + k) % 65536) as u16;
        assert_eq!(&d[8..10], &expected.to_be_bytes());
        assert_eq!(share.record_sent(2, false, d), Some(expected));
    }
    let d = share.encode_pkt(PktType::Orig, &pkt);
    assert_eq!(&d[8..10], &4u16.to_be_bytes());
    for c in 0..2u8 {
        let d = share.encode_pkt(PktType::Orig, &Pkt { unrel: false, chan: c, data: vec![1] });
        assert_eq!(&d[8..10], &INIT_SEQNUM.to_be_bytes());
    }
    assert_eq!(share.pending(2).len(), 40);
}

#[test]
fn closed_receiver_stays_closed() {
    let (mut rx, mut share) = pair();
    assert!(matches!(rx.handle_event(&mut share, Event::Close), Step::Done(Err(Error::LocalDisco))));
    assert!(matches!(rx.poll(), Poll::Closed));
    assert!(matches!(rx.handle_pkt(&mut share, Ok(datagram(0, &[1, 4])), 0), Step::Done(Ok(()))));
    assert!(rx.is_closed());
    assert!(matches!(rx.handle_pkt(&mut share, Ok(rel(0, 65500, &[1, 5])), 0), Step::SendAck(_)));
    assert!(matches!(rx.ack_sent(&mut share, Err(boom()), 0), Step::Done(Ok(()))));
    assert!(matches!(rx.handle_event(&mut share, Event::Cleanup(60_000)), Step::Done(Ok(()))));
    assert!(matches!(rx.handle_event(&mut share, Event::Resend), Step::Done(Ok(()))));
    assert!(rx.handle_err(Err(Error::InvalidType(9))).is_ok());
    assert!(rx.is_closed());
    assert!(matches!(rx.poll(), Poll::Closed));
    assert!(matches!(rx.poll(), Poll::Closed));
}

#[test]
fn io_error_message_has_its_prefix() {
    let m = Error::IoError(boom()).message();
    assert!(m.starts_with("rudp: IO error: "));
    assert_eq!(m, "rudp: IO error: boom");
}
