use rtc_keepalive::address::{IpAddress, Ipv4, Ipv6, SocketAddress};
use rtc_keepalive::addr_cell::ServerAddr;

fn found(a: u8, b: u8, c: u8, d: u8, port: u16) -> ServerAddr {
    ServerAddr::Found(SocketAddress { ip: IpAddress::V4(Ipv4 { a, b, c, d }), port })
}

#[test]
fn candidate_resolves_address() {
    let mut s = ServerAddr::Finding;
    s.receive_candidate("candidate:1 1 UDP 2122260223 192.0.2.5 54321 typ host");
    assert_eq!(s, found(192, 0, 2, 5, 54321));
}

#[test]
fn malformed_lines_leave_address_finding() {
    let mut s = ServerAddr::Finding;
    s.receive_candidate("candidate:1 1 UDP 2122260223 192.0.2.5");
    assert_eq!(s, ServerAddr::Finding);
    s.receive_candidate("candidate:1 1 UDP 2122260223 192.0.2.5 port typ host");
    assert_eq!(s, ServerAddr::Finding);
    s.receive_candidate("");
    assert_eq!(s, ServerAddr::Finding);
}

#[test]
fn found_never_goes_back() {
    let mut s = ServerAddr::Finding;
    s.receive_candidate("candidate:1 1 UDP 2122260223 192.0.2.5 54321 typ host");
    s.receive_candidate("garbage");
    assert_eq!(s, found(192, 0, 2, 5, 54321));
    s.receive_candidate("candidate:2 1 UDP 1 10.0.0.1 1 typ host");
    assert_eq!(s, found(192, 0, 2, 5, 54321));
}

#[test]
fn transition_is_write_once() {
    let s = ServerAddr::Finding.with_candidate("x");
    assert_eq!(s, ServerAddr::Finding);
    let s = s.with_candidate("a b c d 1.2.3.4 5");
    assert_eq!(s, found(1, 2, 3, 4, 5));
    let s = s.with_candidate("a b c d 9.9.9.9 9");
    assert_eq!(s, found(1, 2, 3, 4, 5));
}

#[test]
fn tags() {
    assert_eq!(ServerAddr::Finding.tag(), "");
    assert_eq!(found(192, 0, 2, 5, 54321).tag(), "192.0.2.5:54321");
}
