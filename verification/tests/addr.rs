use static_routing::addr::{IpAddress, Ipv4Address, Ipv6Address};

fn v4(a: u8, b: u8, c: u8, d: u8) -> Option<IpAddress> {
    Some(IpAddress::V4(Ipv4Address::new(a, b, c, d)))
}

fn v6(g: [u16; 8]) -> Option<IpAddress> {
    Some(IpAddress::V6(Ipv6Address::new(g)))
}

#[test]
fn dotted_quads_that_are_addresses() {
    assert_eq!(IpAddress::parse("1.2.3.4"), v4(1, 2, 3, 4));
    assert_eq!(IpAddress::parse("255.255.255.255"), v4(255, 255, 255, 255));
    assert_eq!(IpAddress::parse("0.0.0.0"), v4(0, 0, 0, 0));
    assert_eq!(IpAddress::parse("10.0.0.0"), v4(10, 0, 0, 0));
    assert_eq!(IpAddress::parse("192.0.2.1"), v4(192, 0, 2, 1));
}

#[test]
fn texts_that_are_no_address() {
    let cases = [
        "", "1", "1.2.3", "1.2.3.4.5", "256.1.1.1", "01.2.3.4", "00.0.0.0", "1.2.3.", ".1.2.3",
        "1..2.3", "1.2.3.4 ", " 1.2.3.4", "+1.2.3.4", "1.2.3.1234", "1.2.3.a", ":", ":::",
        "1:2:3:4:5:6:7", "1:2:3:4:5:6:7:8:9", "1:2:3:4:5:6:7:8::", "::1:2:3:4:5:6:7:8", "1::2::3",
        "1:::2", ":1", "1:", "2001:db8::g", "12345::", "1.2.3.4::", "1:2:3:4:5:6:7:1.2.3.4",
        "1:2:3:4:5:6::1.2.3.4", "::1.2.3.4:5", "::1.2.3", "::1.2.3.4.5", "::01.2.3.4",
        "fe80::1%eth0", "::00000", "1:2:3:4:5:6:7:", ":1:2:3:4:5:6:7", "é::", "1.2.3.4\u{e9}",
        "::1.2.3.4::", "1:2::3:4:5:6:7:8", "::ffff:256.0.0.0", "1.2.3.4:5::", "eth0", "::/0",
    ];
    for s in cases {
        assert_eq!(IpAddress::parse(s), None, "{:?}", s);
    }
}

#[test]
fn ipv6_written_short() {
    assert_eq!(IpAddress::parse("::"), v6([0; 8]));
    assert_eq!(IpAddress::parse("::1"), v6([0, 0, 0, 0, 0, 0, 0, 1]));
    assert_eq!(IpAddress::parse("1::"), v6([1, 0, 0, 0, 0, 0, 0, 0]));
    assert_eq!(IpAddress::parse("1::2"), v6([1, 0, 0, 0, 0, 0, 0, 2]));
    assert_eq!(IpAddress::parse("2001:db8::"), v6([0x2001, 0xdb8, 0, 0, 0, 0, 0, 0]));
    assert_eq!(IpAddress::parse("2001:DB8::aBcD"), v6([0x2001, 0xdb8, 0, 0, 0, 0, 0, 0xabcd]));
    assert_eq!(IpAddress::parse("1:2:3:4:5:6:7::"), v6([1, 2, 3, 4, 5, 6, 7, 0]));
    assert_eq!(IpAddress::parse("::1:2:3:4:5:6:7"), v6([0, 1, 2, 3, 4, 5, 6, 7]));
    assert_eq!(IpAddress::parse("1:2::3:4:5:6:7"), v6([1, 2, 0, 3, 4, 5, 6, 7]));
    assert_eq!(IpAddress::parse("::0000"), v6([0; 8]));
}

#[test]
fn ipv6_written_in_full() {
    assert_eq!(IpAddress::parse("1:2:3:4:5:6:7:8"), v6([1, 2, 3, 4, 5, 6, 7, 8]));
    assert_eq!(IpAddress::parse("0:0:0:0:0:0:0:0"), v6([0; 8]));
    assert_eq!(IpAddress::parse("a:b:c:d:e:f:0:1"), v6([10, 11, 12, 13, 14, 15, 0, 1]));
    assert_eq!(
        IpAddress::parse("ffff:ffff:ffff:ffff:ffff:ffff:ffff:ffff"),
        v6([0xffff; 8])
    );
}

#[test]
fn ipv6_that_ends_in_a_dotted_quad() {
    assert_eq!(IpAddress::parse("::ffff:1.2.3.4"), v6([0, 0, 0, 0, 0, 0xffff, 0x0102, 0x0304]));
    assert_eq!(IpAddress::parse("::1.2.3.4"), v6([0, 0, 0, 0, 0, 0, 0x0102, 0x0304]));
    assert_eq!(IpAddress::parse("1:2:3:4:5:6:1.2.3.4"), v6([1, 2, 3, 4, 5, 6, 0x0102, 0x0304]));
    assert_eq!(IpAddress::parse("1:2:3:4:5::1.2.3.4"), v6([1, 2, 3, 4, 5, 0, 0x0102, 0x0304]));
    assert_eq!(
        IpAddress::parse("::ffff:255.255.255.255"),
        v6([0, 0, 0, 0, 0, 0xffff, 0xffff, 0xffff])
    );
}

#[test]
fn dotted_quad() {
    assert_eq!(Ipv4Address::parse("192.0.2.1"), Some(Ipv4Address::new(192, 0, 2, 1)));
    assert_eq!(Ipv4Address::parse("192.0.2"), None);
    assert_eq!(Ipv4Address::parse("192.0.2.01"), None);
    assert_eq!(Ipv4Address::parse("2001:db8::"), None);
}

#[test]
fn one_family_only() {
    let want = Ipv6Address::new([0x2001, 0xdb8, 0, 0, 0, 0, 0, 1]);
    assert_eq!(Ipv6Address::parse("2001:db8::1"), Some(want));
    assert_eq!(Ipv6Address::parse("2001:db8:0:0:0:0:0:1"), Some(want));
    assert_eq!(Ipv6Address::parse("10.0.0.0"), None);
}
