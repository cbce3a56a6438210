use rdproto::payload::create_payload;

#[test]
fn payload_cycles_through_bytes() {
    let buf = create_payload(600);
    assert_eq!(buf.len(), 600);
    assert_eq!(buf[0], 0);
    assert_eq!(buf[254], 254);
    // the values cycle with period 255, not 256.
    assert_eq!(buf[255], 0);
    assert_eq!(buf[510], 0);
    assert_eq!(buf[599], 89);
}

#[test]
fn payload_empty() {
    assert!(create_payload(0).is_empty());
}
