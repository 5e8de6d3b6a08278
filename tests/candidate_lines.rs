use rtc_keepalive::address::{IpAddress, Ipv4, Ipv6, SocketAddress};
use rtc_keepalive::candidate::{
    encode_candidate, parse_candidate, parse_decimal, parse_hex_group, parse_ipv4, parse_ipv6, split_fields,
};

fn addr(a: u8, b: u8, c: u8, d: u8, port: u16) -> SocketAddress {
    SocketAddress { ip: IpAddress::V4(Ipv4 { a, b, c, d }), port }
}

#[test]
fn parses_host_candidate() {
    let r = parse_candidate("candidate:1 1 UDP 2122260223 192.0.2.5 54321 typ host");
    assert_eq!(r, Some(addr(192, 0, 2, 5, 54321)));
}

#[test]
fn other_fields_do_not_matter() {
    let r = parse_candidate("foo bar baz qux 10.1.2.3 9 whatever");
    assert_eq!(r, Some(addr(10, 1, 2, 3, 9)));
    let r = parse_candidate("candidate:7 2 TCP 1 10.1.2.3 9 typ srflx raddr 0.0.0.0 rport 0");
    assert_eq!(r, Some(addr(10, 1, 2, 3, 9)));
    let r = parse_candidate("a b c d 10.1.2.3 9");
    assert_eq!(r, Some(addr(10, 1, 2, 3, 9)));
}

#[test]
fn too_few_fields_give_nothing() {
    assert_eq!(parse_candidate(""), None);
    assert_eq!(parse_candidate("candidate:1 1 UDP 2122260223 192.0.2.5"), None);
}

#[test]
fn non_numeric_port_gives_nothing() {
    assert_eq!(parse_candidate("candidate:1 1 UDP 2122260223 192.0.2.5 54a21 typ host"), None);
    assert_eq!(parse_candidate("candidate:1 1 UDP 2122260223 192.0.2.5  typ host"), None);
    assert_eq!(parse_candidate("candidate:1 1 UDP 2122260223 192.0.2.5 65536 typ host"), None);
    assert_eq!(parse_candidate("candidate:1 1 UDP 2122260223 192.0.2.5 -1 typ host"), None);
}

#[test]
fn bad_addresses_give_nothing() {
    assert_eq!(parse_candidate("candidate:1 1 UDP 2122260223 192.0.2.256 5 typ host"), None);
    assert_eq!(parse_candidate("candidate:1 1 UDP 2122260223 192.0.02.5 5 typ host"), None);
    assert_eq!(parse_candidate("candidate:1 1 UDP 2122260223 192.0.2 5 typ host"), None);
    assert_eq!(parse_candidate("candidate:1 1 UDP 2122260223 host.local 5 typ host"), None);
}

#[test]
fn port_edges() {
    assert_eq!(parse_candidate("a b c d 0.0.0.0 0"), Some(addr(0, 0, 0, 0, 0)));
    assert_eq!(parse_candidate("a b c d 255.255.255.255 65535"), Some(addr(255, 255, 255, 255, 65535)));
    assert_eq!(parse_candidate("a b c d 1.2.3.4 0080"), Some(addr(1, 2, 3, 4, 80)));
}

#[test]
fn split_keeps_empty_fields() {
    let f = split_fields("a  b ", ' ');
    assert_eq!(f, vec!["a", "", "b", ""]);
    assert_eq!(split_fields("", ' '), vec![""]);
}

#[test]
fn decimal_values() {
    assert_eq!(parse_decimal("0", 255), Some(0));
    assert_eq!(parse_decimal("255", 255), Some(255));
    assert_eq!(parse_decimal("256", 255), None);
    assert_eq!(parse_decimal("99999999999", 65535), None);
    assert_eq!(parse_decimal("", 65535), None);
    assert_eq!(parse_decimal("+5", 65535), None);
}

#[test]
fn ipv4_values() {
    assert_eq!(parse_ipv4("127.0.0.1"), Some(Ipv4 { a: 127, b: 0, c: 0, d: 1 }));
    assert_eq!(parse_ipv4("1.2.3.4.5"), None);
    assert_eq!(parse_ipv4("1..3.4"), None);
}

#[test]
fn encodes_host_candidate() {
    let line = encode_candidate(&addr(192, 0, 2, 5, 54321));
    assert_eq!(line, "candidate:1 1 UDP 2122260223 192.0.2.5 54321 typ host");
}

#[test]
fn encoded_line_parses_back() {
    for a in [
        addr(192, 0, 2, 5, 54321),
        addr(0, 0, 0, 0, 0),
        addr(255, 255, 255, 255, 65535),
        addr(10, 0, 100, 9, 10),
        addr(127, 0, 0, 1, 14192),
    ] {
        let line = encode_candidate(&a);
        assert_eq!(parse_candidate(&line), Some(a));
    }
}

#[test]
fn address_text() {
    assert_eq!(addr(192, 0, 2, 5, 54321).to_text(), "192.0.2.5:54321");
    assert_eq!(addr(0, 0, 0, 0, 0).to_text(), "0.0.0.0:0");
    assert_eq!(addr(255, 255, 255, 255, 65535).to_text(), "255.255.255.255:65535");
}

fn v6(g: [u16; 8], port: u16) -> SocketAddress {
    SocketAddress {
        ip: IpAddress::V6(Ipv6 { g0: g[0], g1: g[1], g2: g[2], g3: g[3], g4: g[4], g5: g[5], g6: g[6], g7: g[7] }),
        port,
    }
}

#[test]
fn parses_ipv6_candidates() {
    assert_eq!(
        parse_candidate("candidate:1 1 UDP 2122260223 ::1 5000 typ host"),
        Some(v6([0, 0, 0, 0, 0, 0, 0, 1], 5000))
    );
    assert_eq!(
        parse_candidate("candidate:1 1 UDP 2122260223 2001:db8::8:800:200C:417A 9 typ host"),
        Some(v6([0x2001, 0xdb8, 0, 0, 0x8, 0x800, 0x200c, 0x417a], 9))
    );
    assert_eq!(
        parse_candidate("candidate:1 1 UDP 1 fe80:0:0:0:0:0:0:1 80 typ host"),
        Some(v6([0xfe80, 0, 0, 0, 0, 0, 0, 1], 80))
    );
    assert_eq!(parse_candidate("a b c d :: 1"), Some(v6([0; 8], 1)));
    assert_eq!(parse_candidate("a b c d 1:: 1"), Some(v6([1, 0, 0, 0, 0, 0, 0, 0], 1)));
}

#[test]
fn bad_ipv6_gives_nothing() {
    for ip in [":::", "1:::2", "1::2::3", "1:2:3:4:5:6:7", "1:2:3:4:5:6:7:8:9", "12345::1", "g::1", ":1:2:3:4:5:6:7", "1:2:3:4::5:6:7:8", ""] {
        assert_eq!(parse_ipv6(ip), None, "{}", ip);
    }
    assert_eq!(parse_ipv6("1:2:3:4:5:6::7"), Some(Ipv6 { g0: 1, g1: 2, g2: 3, g3: 4, g4: 5, g5: 6, g6: 0, g7: 7 }));
}

#[test]
fn hex_groups() {
    assert_eq!(parse_hex_group("ffff"), Some(0xffff));
    assert_eq!(parse_hex_group("0"), Some(0));
    assert_eq!(parse_hex_group("Ab"), Some(0xab));
    assert_eq!(parse_hex_group("10000"), None);
    assert_eq!(parse_hex_group(""), None);
}

#[test]
fn ipv6_text_is_compressed() {
    assert_eq!(v6([0, 0, 0, 0, 0, 0, 0, 1], 5000).to_text(), "[::1]:5000");
    assert_eq!(v6([0; 8], 0).to_text(), "[::]:0");
    assert_eq!(v6([0x2001, 0xdb8, 0, 0, 0x8, 0x800, 0x200c, 0x417a], 9).to_text(), "[2001:db8::8:800:200c:417a]:9");
    assert_eq!(v6([1, 0, 0, 2, 0, 0, 0, 3], 1).to_text(), "[1:0:0:2::3]:1");
    assert_eq!(v6([1, 0, 0, 2, 0, 0, 3, 4], 1).to_text(), "[1::2:0:0:3:4]:1");
    assert_eq!(v6([1, 0, 2, 3, 4, 5, 6, 7], 1).to_text(), "[1:0:2:3:4:5:6:7]:1");
}

#[test]
fn ipv6_candidate_round_trip() {
    for a in [
        v6([0, 0, 0, 0, 0, 0, 0, 1], 5000),
        v6([0xffff; 8], 65535),
        v6([0x2001, 0xdb8, 0, 0, 0x8, 0x800, 0x200c, 0x417a], 9),
        v6([0, 0, 0, 0, 0, 0xffff, 0xc000, 0x0205], 5),
        v6([0; 8], 0),
        v6([1, 0, 2, 0, 0, 3, 0, 0], 7),
        v6([1, 2, 3, 4, 5, 6, 7, 0], 7),
    ] {
        let line = encode_candidate(&a);
        assert_eq!(parse_candidate(&line), Some(a));
    }
    assert_eq!(
        encode_candidate(&v6([0, 0, 0, 0, 0, 0, 0, 1], 5000)),
        "candidate:1 1 UDP 2122260223 ::1 5000 typ host"
    );
    assert_eq!(
        encode_candidate(&v6([0, 0, 0, 0, 0, 0xffff, 0xc000, 0x0205], 5)),
        "candidate:1 1 UDP 2122260223 ::ffff:192.0.2.5 5 typ host"
    );
}

#[test]
fn ipv6_with_ipv4_tail() {
    assert_eq!(
        parse_candidate("candidate:1 1 UDP 2122260223 ::ffff:192.0.2.5 5 typ host"),
        Some(v6([0, 0, 0, 0, 0, 0xffff, 0xc000, 0x0205], 5))
    );
    assert_eq!(parse_ipv6("1:2:3:4:5:6:1.2.3.4"), Some(Ipv6 { g0: 1, g1: 2, g2: 3, g3: 4, g4: 5, g5: 6, g6: 0x0102, g7: 0x0304 }));
    assert_eq!(parse_ipv6("1::1.2.3.4"), Some(Ipv6 { g0: 1, g1: 0, g2: 0, g3: 0, g4: 0, g5: 0, g6: 0x0102, g7: 0x0304 }));
    assert_eq!(parse_ipv6("1.2.3.4::"), None);
    assert_eq!(parse_ipv6("1:2:3:4:5:6:7:1.2.3.4"), None);
    assert_eq!(parse_ipv6("1:2:3:4:5:1.2.3.4"), None);
    assert_eq!(parse_ipv6("::1.2.3.256"), None);
}

#[test]
fn mapped_ipv4_text() {
    assert_eq!(v6([0, 0, 0, 0, 0, 0xffff, 0xc000, 0x0205], 5).to_text(), "[::ffff:192.0.2.5]:5");
    assert_eq!(v6([0, 0, 0, 0, 0, 0xfffe, 0xc000, 0x0205], 5).to_text(), "[::fffe:c000:205]:5");
}

#[test]
fn port_with_plus_sign() {
    assert_eq!(parse_candidate("a b c d 1.2.3.4 +80"), Some(addr(1, 2, 3, 4, 80)));
    assert_eq!(parse_candidate("a b c d 1.2.3.4 +"), None);
    assert_eq!(parse_candidate("a b c d 1.2.3.4 ++5"), None);
    assert_eq!(parse_candidate("a b c d 1.2.3.4 +65536"), None);
}
