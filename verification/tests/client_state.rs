use rdproto::client_state::ClientError;
use rdproto::client_state::ClientState;
use rdproto::lrdp_packet::LrdpPacket;

#[test]
fn enqueue_good_seq_num() {
    let mut state = ClientState::new(0);
    assert!(matches!(
        state.enqueue(LrdpPacket::create(Vec::new(), None, Some(0))),
        Ok(_)
    ));
}

#[test]
fn enqueue_bad_seq_num() {
    let mut state = ClientState::new(0);
    assert!(matches!(
        state.enqueue(LrdpPacket::create(Vec::new(), None, Some(2))),
        Err(ClientError::WrongSeq(2, 0))
    ));
}

#[test]
fn ack_good_seq_num() {
    let mut state = ClientState::new(0);
    state
        .enqueue(LrdpPacket::create(Vec::new(), None, Some(0)))
        .unwrap();
    assert!(matches!(state.ack(0), Ok(_)));
}

#[test]
fn ack_bad_seq_num() {
    let mut state = ClientState::new(0);
    state
        .enqueue(LrdpPacket::create(Vec::new(), None, Some(0)))
        .unwrap();
    // 2 is neither queued nor the number the peer would ask for next.
    assert!(matches!(state.ack(2), Err(ClientError::WrongAck(2))));
}

#[test]
fn ack_mechanism_sequential() {
    let mut state = ClientState::new(0);

    // enqueue a few packets.
    for i in 0..4 {
        state
            .enqueue(LrdpPacket::create(Vec::new(), None, Some(i)))
            .unwrap();
    }

    for i in 0..4 {
        // check that the expected packet is next in the queue.
        let packet = state.next_packet().unwrap();
        assert_eq!(packet.seq_num(), i);
        // ack it so that it is removed from the queue.
        state.ack(i).unwrap();
    }
}

#[test]
fn ack_mechanism_delayed() {
    let mut state = ClientState::new(0);

    // enqueue a few packets.
    for i in 0..4 {
        state
            .enqueue(LrdpPacket::create(Vec::new(), None, Some(i)))
            .unwrap();
    }

    // ack a whole bunch of the enqueued packets.
    state.ack(2).unwrap();

    // make sure the expected packet is next.
    let packet = state.next_packet().unwrap();
    assert_eq!(packet.seq_num(), 3);
}

#[test]
fn ack_exhausted_drains_queue() {
    let mut state = ClientState::new(0);
    state
        .enqueue(LrdpPacket::create(vec![9], None, Some(0)))
        .unwrap();
    // the peer acknowledges past everything sent: it already has packet 0
    // and expects 1.
    assert!(matches!(state.ack(1), Err(ClientError::Exhausted)));
    assert!(state.next_packet().is_none());
}

#[test]
fn recv_in_order_and_out_of_order() {
    let mut state = ClientState::new(0);
    assert!(matches!(state.recv(0), Ok(_)));
    assert!(matches!(state.recv(1), Ok(_)));
    // the same number again is no longer expected.
    assert!(matches!(state.recv(1), Err(ClientError::WrongSeq(1, 2))));
}

#[test]
fn recv_wraps_modulo_eight() {
    let mut state = ClientState::new(0);
    for i in 0..8 {
        assert!(matches!(state.recv(i), Ok(_)));
    }
    // after eight in-order receives the expected number is 0 again.
    assert!(matches!(state.recv(0), Ok(_)));
}

#[test]
fn enqueue_in_order_full_window() {
    let mut state = ClientState::new(0);
    // enqueuing in order succeeds for the whole 8-slot window.
    for i in 0..8 {
        assert!(matches!(
            state.enqueue(LrdpPacket::create(vec![i], None, Some(i))),
            Ok(_)
        ));
    }
    assert_eq!(state.next_packet().unwrap().seq_num(), 0);
    assert_eq!(state.next_seq_num(), 0);
    // a cumulative ack of 6 leaves only packet 7.
    state.ack(6).unwrap();
    assert_eq!(state.next_packet().unwrap().seq_num(), 7);
}
