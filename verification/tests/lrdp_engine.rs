use rdproto::lrdp_engine::ClientTable;
use rdproto::lrdp_engine::LrdpAction;

const A: u64 = 10;
const B: u64 = 20;

fn sent_bytes(action: &LrdpAction) -> Vec<u8> {
    match action {
        LrdpAction::Send { bytes, .. } => bytes.clone(),
        LrdpAction::Deliver { .. } => panic!("expected a send"),
    }
}

fn delivered(action: &LrdpAction) -> (Vec<u8>, u64) {
    match action {
        LrdpAction::Deliver { payload, peer } => (payload.clone(), *peer),
        LrdpAction::Send { .. } => panic!("expected a delivery"),
    }
}

#[test]
fn happy_path_two_datagrams() {
    let mut sender = ClientTable::new();
    let mut receiver = ClientTable::new();

    // the sender frames and queues two datagrams for B.
    let first = sender.send_to(B, &[1, 2, 3], 0);
    let second = sender.send_to(B, &[4, 5, 6], 0);

    // the receiver consumes them in order and acknowledges each.
    let acts1 = receiver.handle_datagram(A, first.as_slice());
    assert_eq!(acts1.len(), 2);
    let (payload1, from1) = delivered(&acts1[0]);
    assert_eq!(payload1.as_slice(), &[1, 2, 3]);
    assert_eq!(from1, A);
    let ack1 = sent_bytes(&acts1[1]);

    let acts2 = receiver.handle_datagram(A, second.as_slice());
    assert_eq!(acts2.len(), 2);
    let (payload2, _) = delivered(&acts2[0]);
    assert_eq!(payload2.as_slice(), &[4, 5, 6]);
    let ack2 = sent_bytes(&acts2[1]);

    // the sender consumes both acknowledgements; its queue empties.
    assert!(sender.handle_datagram(B, ack1.as_slice()).is_empty());
    assert!(sender.handle_datagram(B, ack2.as_slice()).is_empty());
    assert!(sender.client(B).unwrap().next_packet().is_none());
}

#[test]
fn retransmit_after_lost_ack() {
    let mut sender = ClientTable::new();
    let mut receiver = ClientTable::new();

    // the sender transmits [9] at time 0; the receiver takes it, but its
    // acknowledgement is lost.
    let first = sender.send_to(B, &[9], 0);
    let acts = receiver.handle_datagram(A, first.as_slice());
    assert_eq!(acts.len(), 2);

    // nothing is due before the resend delay has passed.
    assert!(sender.tick(299).is_empty());

    // at 300 ms the sender retransmits the same DATA packet, sequence 0.
    let resends = sender.tick(300);
    assert_eq!(resends.len(), 1);
    let again = sent_bytes(&resends[0]);
    assert_eq!(again, first);

    // the receiver has advanced to 1: it does not deliver again, and
    // answers with an ACK carrying the expected sequence number 1.
    let acts2 = receiver.handle_datagram(A, again.as_slice());
    assert_eq!(acts2.len(), 1);
    let resync = sent_bytes(&acts2[0]);
    assert_eq!(resync.as_slice(), &[0b01000001]);

    // that acknowledgement is past everything the sender still holds: the
    // queue drains, and the peer is kept.
    assert!(sender.handle_datagram(B, resync.as_slice()).is_empty());
    assert!(sender.client(B).is_some());
    assert!(sender.client(B).unwrap().next_packet().is_none());
}

#[test]
fn resynchronisation_sends_expected() {
    let mut receiver = ClientTable::new();
    // sequence 5 arrives when 0 is expected: no delivery, one ACK carrying
    // the expected number 0.
    let stray = rdproto::lrdp_packet::LrdpPacket::create(vec![1], None, Some(5)).as_buffer();
    let acts = receiver.handle_datagram(A, stray.as_slice());
    assert_eq!(acts.len(), 1);
    assert_eq!(sent_bytes(&acts[0]).as_slice(), &[0b01000000]);
}

#[test]
fn wrong_ack_drops_peer() {
    let mut sender = ClientTable::new();
    sender.send_to(B, &[1], 0);
    // an acknowledgement that is neither queued nor at the cursor drops
    // the peer.
    let bad_ack = rdproto::lrdp_packet::LrdpPacket::create(Vec::new(), Some(5), None).as_buffer();
    assert!(sender.handle_datagram(B, bad_ack.as_slice()).is_empty());
    assert!(sender.client(B).is_none());
}

#[test]
fn peer_lifecycle_close_and_return() {
    let mut receiver = ClientTable::new();

    // three datagrams from A are taken in order.
    let mut payload: u8 = 1;
    for seq in 0..3 {
        let bytes =
            rdproto::lrdp_packet::LrdpPacket::create(vec![payload], None, Some(seq)).as_buffer();
        let acts = receiver.handle_datagram(A, bytes.as_slice());
        assert_eq!(acts.len(), 2);
        payload += 1;
    }
    assert!(receiver.client(A).is_some());

    // a zero-length datagram is the close sentinel: A's state is removed.
    assert!(receiver.handle_datagram(A, &[]).is_empty());
    assert!(receiver.client(A).is_none());

    // a subsequent datagram from A creates a fresh state expecting
    // sequence 0.
    let fresh = rdproto::lrdp_packet::LrdpPacket::create(vec![7], None, Some(0)).as_buffer();
    let acts = receiver.handle_datagram(A, fresh.as_slice());
    assert_eq!(acts.len(), 2);
    let (payload, _) = delivered(&acts[0]);
    assert_eq!(payload.as_slice(), &[7]);
}

#[test]
fn tick_updates_only_due_peers() {
    let mut sender = ClientTable::new();
    sender.send_to(B, &[1], 0);
    sender.send_to(30, &[2], 200);
    // at 300 only the first peer's packet has waited long enough.
    let resends = sender.tick(300);
    assert_eq!(resends.len(), 1);
    match &resends[0] {
        LrdpAction::Send { peer, .. } => assert_eq!(*peer, B),
        _ => panic!("expected a send"),
    }
    // the second peer becomes due at 500, the first again at 600.
    assert!(sender.tick(499).is_empty());
    let at_500 = sender.tick(500);
    assert_eq!(at_500.len(), 1);
    match &at_500[0] {
        LrdpAction::Send { peer, .. } => assert_eq!(*peer, 30),
        _ => panic!("expected a send"),
    }
    let at_600 = sender.tick(600);
    assert_eq!(at_600.len(), 1);
    match &at_600[0] {
        LrdpAction::Send { peer, .. } => assert_eq!(*peer, B),
        _ => panic!("expected a send"),
    }
}
