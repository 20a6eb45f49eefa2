use dns_transport::transport::{
    recv_buffer, reply_window, DatagramPlan, IpFamily, PeerTarget, TransportError, UdpTransport,
    DNS_PORT, RECV_BUFFER_LEN,
};

#[test]
fn constants_match_the_wire_defaults() {
    assert_eq!(DNS_PORT, 53);
    assert_eq!(RECV_BUFFER_LEN, 4096);
}

#[test]
fn new_keeps_the_destination_as_given() {
    let t = UdpTransport::new(String::from("8.8.8.8"));
    assert_eq!(t.addr(), "8.8.8.8");
    let t = UdpTransport::new(String::from("not an address"));
    assert_eq!(t.addr(), "not an address");
}

#[test]
fn plan_for_bare_ipv4_binds_v4_and_uses_port_53() {
    let t = UdpTransport::new(String::from("8.8.8.8"));
    assert_eq!(
        t.plan(),
        Ok(DatagramPlan { family: IpFamily::V4, target: PeerTarget::HostWithDefaultPort })
    );
}

#[test]
fn plan_for_ipv4_with_port_pins_the_given_target() {
    let t = UdpTransport::new(String::from("8.8.8.8:9000"));
    assert_eq!(
        t.plan(),
        Ok(DatagramPlan { family: IpFamily::V4, target: PeerTarget::FullAddrAsGiven })
    );
}

#[test]
fn plan_for_ipv6_binds_v6_and_uses_port_53() {
    let t = UdpTransport::new(String::from("2001:db8::1"));
    assert_eq!(
        t.plan(),
        Ok(DatagramPlan { family: IpFamily::V6, target: PeerTarget::HostWithDefaultPort })
    );
}

#[test]
fn plan_refuses_a_non_literal_before_any_socket() {
    let t = UdpTransport::new(String::from("example.com"));
    assert_eq!(t.plan(), Err(TransportError::UnsupportedAddress));
    let t = UdpTransport::new(String::from(""));
    assert_eq!(t.plan(), Err(TransportError::UnsupportedAddress));
}

#[test]
fn recv_buffer_is_fresh_and_fixed_size() {
    let b = recv_buffer();
    assert_eq!(b.len(), RECV_BUFFER_LEN);
    assert!(b.iter().all(|&x| x == 0));
}

#[test]
fn reply_window_keeps_only_the_bytes_read() {
    let buf = vec![1u8, 2, 3, 4, 5, 6, 7, 8];
    assert_eq!(reply_window(buf, 3), vec![1u8, 2, 3]);
    let buf = vec![9u8, 8, 7];
    assert_eq!(reply_window(buf, 0), Vec::<u8>::new());
    let buf = vec![9u8, 8, 7];
    assert_eq!(reply_window(buf, 3), vec![9u8, 8, 7]);
}

#[test]
fn oversize_reply_is_cut_at_the_buffer_capacity() {
    // A peer reply longer than the buffer is delivered cut to the buffer:
    // the window over a full buffer is exactly RECV_BUFFER_LEN bytes.
    let mut buf = recv_buffer();
    for (i, slot) in buf.iter_mut().enumerate() {
        *slot = (i % 251) as u8;
    }
    let windowed = reply_window(buf, RECV_BUFFER_LEN);
    assert_eq!(windowed.len(), RECV_BUFFER_LEN);
    assert_eq!(windowed[0], 0);
    assert_eq!(windowed[4095], (4095 % 251) as u8);
}

#[test]
fn error_variants_cover_the_failure_taxonomy() {
    let e = TransportError::UnsupportedAddress;
    assert_eq!(e.clone(), TransportError::UnsupportedAddress);
    let e = TransportError::NetworkError(String::from("no route"));
    assert!(matches!(e, TransportError::NetworkError(_)));
    let e = TransportError::SerializationError(String::from("bad request"));
    assert!(matches!(e, TransportError::SerializationError(_)));
    let e = TransportError::ParseError(String::from("bad reply"));
    assert!(matches!(e, TransportError::ParseError(_)));
}
