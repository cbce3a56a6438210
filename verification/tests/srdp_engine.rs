use rdproto::srdp_engine::Packet;
use rdproto::srdp_engine::SrdpAction;
use rdproto::srdp_engine::SrdpState;

const A: u64 = 1;
const B: u64 = 2;

fn sent_bytes(action: &SrdpAction) -> Vec<u8> {
    match action {
        SrdpAction::Send { bytes, .. } => bytes.clone(),
        SrdpAction::Deliver { .. } => panic!("expected a send"),
    }
}

fn delivered(action: &SrdpAction) -> (Vec<u8>, u64) {
    match action {
        SrdpAction::Deliver { payload, peer } => (payload.clone(), *peer),
        SrdpAction::Send { .. } => panic!("expected a delivery"),
    }
}

fn important(id: u8, payload: &[u8]) -> Vec<u8> {
    let mut buf = vec![0b10000000 | id];
    buf.extend_from_slice(payload);
    buf
}

#[test]
fn normal_and_important_interleave() {
    let mut sender = SrdpState::new();
    let mut receiver = SrdpState::new();

    // "ping" travels unreliably, "do-x" reliably under id 0.
    let ping = sender.send_to(Packet::Normal(b"ping".to_vec()), B, 0).unwrap();
    assert_eq!(ping[0], 0);
    let dox = sender.send_to(Packet::Important(b"do-x".to_vec()), B, 0).unwrap();
    assert_eq!(dox[0], 0b10000000);

    // the receiver delivers both, in arrival order.
    let acts1 = receiver.handle_datagram(ping.as_slice(), A, 5);
    assert_eq!(acts1.len(), 1);
    let (p1, from) = delivered(&acts1[0]);
    assert_eq!(p1.as_slice(), b"ping");
    assert_eq!(from, A);

    let acts2 = receiver.handle_datagram(dox.as_slice(), A, 5);
    assert_eq!(acts2.len(), 1);
    let (p2, _) = delivered(&acts2[0]);
    assert_eq!(p2.as_slice(), b"do-x");

    // the scheduled acknowledgement is coalesced and flushed only after a
    // third of the average round-trip time (100 ms seeded, so 33 ms).
    assert!(receiver.tick(30).is_empty());
    let flushed = receiver.tick(39);
    assert_eq!(flushed.len(), 1);
    let ack = sent_bytes(&flushed[0]);
    assert_eq!(ack.as_slice(), &[0b01000000]);
    // exactly one acknowledgement: nothing more is owed on the next tick.
    assert!(receiver.tick(40).is_empty());

    // the sender handles the acknowledgement; id 0 is free again and the
    // next Important send draws id 1 from the pool.
    assert!(sender.handle_datagram(ack.as_slice(), B, 100).is_empty());
    let next = sender.send_to(Packet::Important(vec![7]), B, 100).unwrap();
    assert_eq!(next[0], 0b10000001);
}

#[test]
fn out_of_order_triggers_expect() {
    let mut receiver = SrdpState::new();

    // id 0 arrives and is delivered.
    let acts0 = receiver.handle_datagram(important(0, &[10]).as_slice(), A, 0);
    assert_eq!(acts0.len(), 1);
    assert_eq!(delivered(&acts0[0]).0.as_slice(), &[10]);

    // id 2 arrives while 1 is missing: no delivery, one EXPECT carrying 1.
    let acts2 = receiver.handle_datagram(important(2, &[12]).as_slice(), A, 1);
    assert_eq!(acts2.len(), 1);
    assert_eq!(sent_bytes(&acts2[0]).as_slice(), &[0b11000001]);

    // the retransmitted id 1 is delivered, then the retransmitted id 2: in
    // order.
    let acts1 = receiver.handle_datagram(important(1, &[11]).as_slice(), A, 2);
    assert_eq!(acts1.len(), 1);
    assert_eq!(delivered(&acts1[0]).0.as_slice(), &[11]);
    let acts2b = receiver.handle_datagram(important(2, &[12]).as_slice(), A, 3);
    assert_eq!(acts2b.len(), 1);
    assert_eq!(delivered(&acts2b[0]).0.as_slice(), &[12]);
}

#[test]
fn expect_drains_strict_prefix_and_paces_retransmits() {
    let mut sender = SrdpState::new();
    sender.send_to(Packet::Important(vec![10]), B, 0).unwrap();
    sender.send_to(Packet::Important(vec![11]), B, 0).unwrap();
    sender.send_to(Packet::Important(vec![12]), B, 0).unwrap();

    // EXPECT(1) frees id 0 alone; ids 1 and 2 stay in flight.
    assert!(sender.handle_datagram(&[0b11000001], B, 10).is_empty());

    // nothing is due before the average round-trip time (100 ms) passes.
    assert!(sender.tick(99).is_empty());
    let resends = sender.tick(100);
    assert_eq!(resends.len(), 2);
    assert_eq!(sent_bytes(&resends[0]).as_slice(), &[0b10000001, 11]);
    assert_eq!(sent_bytes(&resends[1]).as_slice(), &[0b10000010, 12]);
}

#[test]
fn duplicate_suppression() {
    let mut receiver = SrdpState::new();

    // the first receipt of id 0 is delivered.
    let first = receiver.handle_datagram(important(0, &[5]).as_slice(), A, 0);
    assert_eq!(first.len(), 1);
    assert_eq!(delivered(&first[0]).0.as_slice(), &[5]);

    // the retransmitted duplicate is dropped silently: delivered exactly
    // once, and no EXPECT goes out.
    let second = receiver.handle_datagram(important(0, &[5]).as_slice(), A, 1);
    assert!(second.is_empty());

    // the next in-order id is still accepted.
    let third = receiver.handle_datagram(important(1, &[6]).as_slice(), A, 2);
    assert_eq!(third.len(), 1);
    assert_eq!(delivered(&third[0]).0.as_slice(), &[6]);
}

#[test]
fn ack_handled_idempotently() {
    let mut sender = SrdpState::new();
    sender.send_to(Packet::Important(vec![9]), B, 0).unwrap();

    // the first ACK of id 0 frees it; the second finds nothing to drain
    // and changes nothing.
    assert!(sender.handle_datagram(&[0b01000000], B, 50).is_empty());
    assert!(sender.handle_datagram(&[0b01000000], B, 60).is_empty());

    // nothing is left to retransmit.
    assert!(sender.tick(1000).is_empty());
}

#[test]
fn cumulative_ack_drains_prefix() {
    let mut sender = SrdpState::new();
    sender.send_to(Packet::Important(vec![10]), B, 0).unwrap();
    sender.send_to(Packet::Important(vec![11]), B, 0).unwrap();
    sender.send_to(Packet::Important(vec![12]), B, 0).unwrap();

    // ACK(1) frees ids 0 and 1 and leaves id 2 unacknowledged.
    assert!(sender.handle_datagram(&[0b01000001], B, 40).is_empty());
    let resends = sender.tick(100);
    assert_eq!(resends.len(), 1);
    assert_eq!(sent_bytes(&resends[0]).as_slice(), &[0b10000010, 12]);

    // the freed ids come back in drain order: 0, then 1.
    let next = sender.send_to(Packet::Important(vec![13]), B, 100).unwrap();
    assert_eq!(next[0], 0b10000011);
}

#[test]
fn ack_updates_rtt_pacing() {
    let mut sender = SrdpState::new();
    sender.send_to(Packet::Important(vec![1]), B, 0).unwrap();
    // the ACK arrives 400 ms after the first transmission: one ring slot
    // moves from 100 to 400, so the average becomes 130 ms.
    assert!(sender.handle_datagram(&[0b01000000], B, 400).is_empty());
    sender.send_to(Packet::Important(vec![2]), B, 1000).unwrap();
    assert!(sender.tick(1129).is_empty());
    assert_eq!(sender.tick(1130).len(), 1);
}

#[test]
fn pool_exhaustion_would_block() {
    let mut sender = SrdpState::new();
    for i in 0..64u8 {
        let bytes = sender.send_to(Packet::Important(vec![i]), B, 0).unwrap();
        assert_eq!(bytes[0], 0b10000000 | i);
    }
    // all 64 ids are in flight: the caller must wait.
    assert!(sender.send_to(Packet::Important(vec![99]), B, 0).is_none());
    // an acknowledgement of id 0 frees exactly one id again.
    assert!(sender.handle_datagram(&[0b01000000], B, 10).is_empty());
    let bytes = sender.send_to(Packet::Important(vec![100]), B, 10).unwrap();
    assert_eq!(bytes[0], 0b10000000);
}

#[test]
fn in_order_stream_wraps_the_id_space() {
    let mut receiver = SrdpState::new();
    // 70 Important datagrams in exactly the expected order: ids 0..63 and
    // then 0..5 again, every payload delivered in send order.
    for n in 0..70u32 {
        let id = (n % 64) as u8;
        let body = [(n % 251) as u8];
        let acts = receiver.handle_datagram(important(id, &body).as_slice(), A, n as u64);
        assert_eq!(acts.len(), 1);
        assert_eq!(delivered(&acts[0]).0.as_slice(), &body);
    }
}
