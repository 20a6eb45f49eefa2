use dns_transport::addr::{classify, AddressClass};

#[test]
fn ipv4_bare_literals() {
    assert_eq!(classify("127.0.0.1"), AddressClass::Ipv4 { explicit_port: false });
    assert_eq!(classify("8.8.8.8"), AddressClass::Ipv4 { explicit_port: false });
    assert_eq!(classify("0.0.0.0"), AddressClass::Ipv4 { explicit_port: false });
    assert_eq!(classify("255.255.255.255"), AddressClass::Ipv4 { explicit_port: false });
    assert_eq!(classify("192.168.0.10"), AddressClass::Ipv4 { explicit_port: false });
}

#[test]
fn ipv4_with_explicit_port() {
    assert_eq!(classify("127.0.0.1:5353"), AddressClass::Ipv4 { explicit_port: true });
    assert_eq!(classify("8.8.8.8:53"), AddressClass::Ipv4 { explicit_port: true });
    // The port text is taken as given; a bad port fails later, at the pin.
    assert_eq!(classify("1.2.3.4:"), AddressClass::Ipv4 { explicit_port: true });
    assert_eq!(classify("1.2.3.4:port"), AddressClass::Ipv4 { explicit_port: true });
    // The IPv4 host portion wins over any reading of the rest: the colon
    // text after it is the peer pin's problem, not the classifier's.
    assert_eq!(classify("1.2.3.4::5"), AddressClass::Ipv4 { explicit_port: true });
}

#[test]
fn ipv4_malformed_literals() {
    assert_eq!(classify("256.1.1.1"), AddressClass::Invalid);
    assert_eq!(classify("01.2.3.4"), AddressClass::Invalid);
    assert_eq!(classify("1.2.3"), AddressClass::Invalid);
    assert_eq!(classify("1.2.3.4.5"), AddressClass::Invalid);
    assert_eq!(classify("1..2.3"), AddressClass::Invalid);
    assert_eq!(classify("1.2.3."), AddressClass::Invalid);
    assert_eq!(classify(".1.2.3.4"), AddressClass::Invalid);
    assert_eq!(classify("1.2.3.4 "), AddressClass::Invalid);
}

#[test]
fn ipv6_literals() {
    assert_eq!(classify("::"), AddressClass::Ipv6);
    assert_eq!(classify("::1"), AddressClass::Ipv6);
    assert_eq!(classify("1::"), AddressClass::Ipv6);
    assert_eq!(classify("2001:db8::1"), AddressClass::Ipv6);
    assert_eq!(classify("fe80::"), AddressClass::Ipv6);
    assert_eq!(classify("1:2:3:4:5:6:7:8"), AddressClass::Ipv6);
    assert_eq!(classify("0:0:0:0:0:0:0:0"), AddressClass::Ipv6);
    assert_eq!(classify("0000:0000:0000:0000:0000:0000:0000:0001"), AddressClass::Ipv6);
    assert_eq!(classify("abcd:EF01:2345:6789:abcd:ef01:2345:6789"), AddressClass::Ipv6);
    assert_eq!(classify("1:2:3:4:5:6:7::"), AddressClass::Ipv6);
    assert_eq!(classify("::1:2:3:4:5:6:7"), AddressClass::Ipv6);
}

#[test]
fn ipv6_with_embedded_ipv4_tail() {
    assert_eq!(classify("::ffff:1.2.3.4"), AddressClass::Ipv6);
    assert_eq!(classify("1:2:3:4:5:6:1.2.3.4"), AddressClass::Ipv6);
    assert_eq!(classify("::1.2.3.4"), AddressClass::Ipv6);
    assert_eq!(classify("1::2:1.2.3.4"), AddressClass::Ipv6);
    // The tail's IPv4 part stands for two words: these spill past eight.
    assert_eq!(classify("1:2:3:4:5:6:7:1.2.3.4"), AddressClass::Invalid);
    assert_eq!(classify("1:2:3:4:5:6::1.2.3.4"), AddressClass::Invalid);
    // And the IPv4 part must itself be well formed.
    assert_eq!(classify("::ffff:1.2.3.4.5"), AddressClass::Invalid);
    assert_eq!(classify("::ffff:1.2.3.256"), AddressClass::Invalid);
}

#[test]
fn ipv6_malformed_literals() {
    assert_eq!(classify(":"), AddressClass::Invalid);
    assert_eq!(classify(":::"), AddressClass::Invalid);
    assert_eq!(classify("1::2::3"), AddressClass::Invalid);
    assert_eq!(classify("1:2:3:4:5:6:7"), AddressClass::Invalid);
    assert_eq!(classify("1:2:3:4:5:6:7:8:9"), AddressClass::Invalid);
    assert_eq!(classify("1:2:3:4:5:6:7:8::"), AddressClass::Invalid);
    assert_eq!(classify("::1:2:3:4:5:6:7:8"), AddressClass::Invalid);
    assert_eq!(classify("12345::"), AddressClass::Invalid);
    assert_eq!(classify("1:2::3:4:5:6:7:8"), AddressClass::Invalid);
    assert_eq!(classify("1:2:"), AddressClass::Invalid);
    assert_eq!(classify(":1:2"), AddressClass::Invalid);
    assert_eq!(classify("fe80::1%eth0"), AddressClass::Invalid);
    assert_eq!(classify("g::1"), AddressClass::Invalid);
    // No bracketed form is accepted: an IPv6 destination never carries a port.
    assert_eq!(classify("[::1]:53"), AddressClass::Invalid);
}

#[test]
fn non_literals_are_invalid() {
    assert_eq!(classify("example.com"), AddressClass::Invalid);
    assert_eq!(classify("localhost"), AddressClass::Invalid);
    assert_eq!(classify(""), AddressClass::Invalid);
    assert_eq!(classify("dns.example:53"), AddressClass::Invalid);
    assert_eq!(classify("héllo"), AddressClass::Invalid);
}
