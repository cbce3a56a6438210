use rdproto::lrdp_packet::LrdpPacket;

#[test]
fn test_from_buffer_ack() {
    let packet = LrdpPacket::from_buffer(&[0b01000010]);
    assert!(packet.has_ack());
    assert_eq!(packet.ack_num(), 2);
}

#[test]
fn test_from_buffer_data() {
    let packet = LrdpPacket::from_buffer(&[0b10110000, 1, 2, 3]);
    assert!(packet.has_data());
    assert_eq!(packet.seq_num(), 6);
    assert_eq!(packet.data().as_slice(), &[1, 2, 3]);
}

#[test]
fn test_create() {
    let packet = LrdpPacket::create(vec![1, 2, 3], Some(2), Some(3));
    assert_eq!(packet.data().as_slice(), &[1, 2, 3]);
    assert!(packet.has_data());
    assert!(packet.has_ack());
    assert_eq!(packet.ack_num(), 2);
    assert_eq!(packet.seq_num(), 3);
}

#[test]
fn test_as_buffer() {
    let packet = LrdpPacket::create(vec![4, 5, 6], None, Some(1));
    let buf = packet.as_buffer();
    assert_eq!(buf.as_slice(), &[0b10001000, 4, 5, 6]);
}

#[test]
fn round_trip_all_fields() {
    let packet = LrdpPacket::create(vec![7, 8], Some(3), Some(5));
    let decoded = LrdpPacket::from_buffer(packet.as_buffer().as_slice());
    assert!(decoded.has_ack());
    assert!(decoded.has_data());
    assert_eq!(decoded.ack_num(), 3);
    assert_eq!(decoded.seq_num(), 5);
    assert_eq!(decoded.data().as_slice(), &[7, 8]);
}

#[test]
fn round_trip_pure_ack() {
    let packet = LrdpPacket::create(Vec::new(), Some(7), None);
    let buf = packet.as_buffer();
    assert_eq!(buf.as_slice(), &[0b01000111]);
    let decoded = LrdpPacket::from_buffer(buf.as_slice());
    assert!(decoded.has_ack());
    assert!(!decoded.has_data());
    assert_eq!(decoded.ack_num(), 7);
    assert!(decoded.data().is_empty());
}

#[test]
fn empty_header_is_neither() {
    let packet = LrdpPacket::from_buffer(&[0]);
    assert!(!packet.has_ack());
    assert!(!packet.has_data());
    assert_eq!(packet.ack_num(), 0);
    assert_eq!(packet.seq_num(), 0);
    assert!(packet.data().is_empty());
}
