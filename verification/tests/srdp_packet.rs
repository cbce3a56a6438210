use rdproto::srdp_packet::{decode_frame, encode_ack, encode_expect, encode_important, encode_normal, SrdpFrame};

#[test]
fn normal_frame_round_trip() {
    let bytes = encode_normal(&[1, 2, 3]);
    assert_eq!(bytes.as_slice(), &[0, 1, 2, 3]);
    match decode_frame(bytes.as_slice()) {
        SrdpFrame::Normal(payload) => assert_eq!(payload.as_slice(), &[1, 2, 3]),
        _ => panic!("expected a Normal frame"),
    }
}

#[test]
fn important_frame_round_trip() {
    let bytes = encode_important(5, &[9]);
    assert_eq!(bytes.as_slice(), &[0b10000101, 9]);
    match decode_frame(bytes.as_slice()) {
        SrdpFrame::Important(id, payload) => {
            assert_eq!(id, 5);
            assert_eq!(payload.as_slice(), &[9]);
        }
        _ => panic!("expected an Important frame"),
    }
}

#[test]
fn ack_frame_round_trip() {
    let bytes = encode_ack(63);
    assert_eq!(bytes.as_slice(), &[0b01111111]);
    match decode_frame(bytes.as_slice()) {
        SrdpFrame::Ack(id) => assert_eq!(id, 63),
        _ => panic!("expected an Ack frame"),
    }
}

#[test]
fn expect_frame_round_trip() {
    let bytes = encode_expect(17);
    assert_eq!(bytes.as_slice(), &[0b11010001]);
    match decode_frame(bytes.as_slice()) {
        SrdpFrame::Expect(id) => assert_eq!(id, 17),
        _ => panic!("expected an Expect frame"),
    }
}
