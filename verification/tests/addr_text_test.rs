use vchat::addr::{IpAddr, SocketAddr};
use vchat::addr_text::{parse_ip, parse_ipv4, parse_ipv6, parse_socket, parse_socket_v4, parse_socket_v6};
use vchat::friend_code::FriendCode;

#[test]
fn parses_dotted_ipv4() {
    assert_eq!(parse_ipv4(b"192.168.0.1"), Some([192, 168, 0, 1]));
    assert_eq!(parse_ipv4(b"0.0.0.0"), Some([0, 0, 0, 0]));
    assert_eq!(parse_ipv4(b"255.255.255.255"), Some([255, 255, 255, 255]));
}

#[test]
fn refuses_malformed_ipv4() {
    assert_eq!(parse_ipv4(b""), None);
    assert_eq!(parse_ipv4(b"192.168.0"), None);
    assert_eq!(parse_ipv4(b"192.168.0.1.5"), None);
    assert_eq!(parse_ipv4(b"256.0.0.1"), None);
    assert_eq!(parse_ipv4(b"01.2.3.4"), None);
    assert_eq!(parse_ipv4(b"1..2.3"), None);
    assert_eq!(parse_ipv4(b" 1.2.3.4"), None);
    assert_eq!(parse_ipv4(b"1.2.3.4 "), None);
    assert_eq!(parse_ipv4(b"a.b.c.d"), None);
}

#[test]
fn parses_socket_addresses() {
    assert_eq!(parse_socket_v4(b"192.168.0.1:22000"), Some(([192, 168, 0, 1], 22000)));
    assert_eq!(parse_socket_v4(b"10.0.0.1:0"), Some(([10, 0, 0, 1], 0)));
    assert_eq!(parse_socket_v4(b"10.0.0.1:65535"), Some(([10, 0, 0, 1], 65535)));
}

#[test]
fn refuses_malformed_socket_addresses() {
    assert_eq!(parse_socket_v4(b"10.0.0.1"), None);
    assert_eq!(parse_socket_v4(b"10.0.0.1:"), None);
    assert_eq!(parse_socket_v4(b"10.0.0.1:65536"), None);
    assert_eq!(parse_socket_v4(b"10.0.0.1:-1"), None);
    assert_eq!(parse_socket_v4(b"10.0.0.1:80x"), None);
    assert_eq!(parse_socket_v4(b"10.0.0:80"), None);
}

#[test]
fn friend_code_from_address_text() {
    let fc = FriendCode::from_string(String::from("192.168.0.1:22000")).unwrap();
    assert_eq!(fc.as_str(), "c0 a8 00 01 55 f0");
    assert!(FriendCode::from_string(String::from("192.168.0.1")).is_err());
    assert!(FriendCode::from_string(String::from("example.org:80")).is_err());
}

#[test]
fn friend_code_from_ip_text_and_port() {
    let fc = FriendCode::from_string_ip(String::from("127.0.0.1"), 80).unwrap();
    assert_eq!(fc.as_str(), "7f 00 00 01 00 50");
    assert_eq!(
        fc.to_socket_addr(),
        Ok(SocketAddr { ip: IpAddr::V4([127, 0, 0, 1]), port: 80 })
    );
    assert!(FriendCode::from_string_ip(String::from("127.0.0.1:80"), 80).is_err());
}

fn v6(groups: [u16; 8]) -> [u8; 16] {
    let mut o = [0u8; 16];
    for (k, g) in groups.iter().enumerate() {
        o[2 * k] = (g >> 8) as u8;
        o[2 * k + 1] = *g as u8;
    }
    o
}

#[test]
fn parses_ipv6_forms() {
    assert_eq!(parse_ipv6(b"::"), Some([0u8; 16]));
    assert_eq!(parse_ipv6(b"::1"), Some(v6([0, 0, 0, 0, 0, 0, 0, 1])));
    assert_eq!(parse_ipv6(b"1::"), Some(v6([1, 0, 0, 0, 0, 0, 0, 0])));
    assert_eq!(parse_ipv6(b"2001:db8::1"), Some(v6([0x2001, 0xdb8, 0, 0, 0, 0, 0, 1])));
    assert_eq!(parse_ipv6(b"1:2:3:4:5:6:7:8"), Some(v6([1, 2, 3, 4, 5, 6, 7, 8])));
    assert_eq!(parse_ipv6(b"1:2:3:4:5:6:7::"), Some(v6([1, 2, 3, 4, 5, 6, 7, 0])));
    assert_eq!(parse_ipv6(b"ABCD:ef01::0000"), Some(v6([0xabcd, 0xef01, 0, 0, 0, 0, 0, 0])));
    assert_eq!(
        parse_ipv6(b"::ffff:192.168.0.1"),
        Some(v6([0, 0, 0, 0, 0, 0xffff, 0xc0a8, 0x0001]))
    );
    assert_eq!(parse_ipv6(b"1:2:3:4:5:6:1.2.3.4"), Some(v6([1, 2, 3, 4, 5, 6, 0x0102, 0x0304])));
}

#[test]
fn refuses_malformed_ipv6() {
    assert_eq!(parse_ipv6(b""), None);
    assert_eq!(parse_ipv6(b":"), None);
    assert_eq!(parse_ipv6(b":::"), None);
    assert_eq!(parse_ipv6(b"1:2:3:4:5:6:7"), None);
    assert_eq!(parse_ipv6(b"1:2:3:4:5:6:7:8:9"), None);
    assert_eq!(parse_ipv6(b"1::2:3:4:5:6:7:8"), None);
    assert_eq!(parse_ipv6(b"1::2::3"), None);
    assert_eq!(parse_ipv6(b":1::2"), None);
    assert_eq!(parse_ipv6(b"1:::2"), None);
    assert_eq!(parse_ipv6(b"12345::"), None);
    assert_eq!(parse_ipv6(b"1.2.3.4::"), None);
    assert_eq!(parse_ipv6(b"1:2:1.2.3.4::"), None);
    assert_eq!(parse_ipv6(b"1:2:3:4:5:6:7:1.2.3.4"), None);
    assert_eq!(parse_ipv6(b"::1.2.3"), None);
    assert_eq!(parse_ipv6(b"g::"), None);
}

#[test]
fn parses_ipv6_socket_addresses() {
    assert_eq!(parse_socket_v6(b"[::1]:22000"), Some((v6([0, 0, 0, 0, 0, 0, 0, 1]), 22000)));
    assert_eq!(parse_socket_v6(b"[fe80::1%2]:80"), Some((v6([0xfe80, 0, 0, 0, 0, 0, 0, 1]), 80)));
    assert_eq!(parse_socket_v6(b"[::1]:080"), Some((v6([0, 0, 0, 0, 0, 0, 0, 1]), 80)));
    assert_eq!(parse_socket_v6(b"[::1%4294967295]:1"), Some((v6([0, 0, 0, 0, 0, 0, 0, 1]), 1)));
    assert_eq!(parse_socket_v6(b"[::1%4294967296]:1"), None);
    assert_eq!(parse_socket_v6(b"[::1%]:80"), None);
    assert_eq!(parse_socket_v6(b"[::1]"), None);
    assert_eq!(parse_socket_v6(b"[::1]:"), None);
    assert_eq!(parse_socket_v6(b"[::1]:65536"), None);
    assert_eq!(parse_socket_v6(b"::1:80"), None);
    assert_eq!(parse_socket_v6(b"[1.2.3.4]:80"), None);
}

#[test]
fn parses_addresses_of_either_family() {
    assert_eq!(parse_ip(b"10.0.0.1"), Some(IpAddr::V4([10, 0, 0, 1])));
    assert_eq!(parse_ip(b"::1"), Some(IpAddr::V6(v6([0, 0, 0, 0, 0, 0, 0, 1]))));
    assert_eq!(parse_ip(b"10.0.0.1:80"), None);
    assert_eq!(
        parse_socket(b"10.0.0.1:80"),
        Some(SocketAddr { ip: IpAddr::V4([10, 0, 0, 1]), port: 80 })
    );
    assert_eq!(
        parse_socket(b"[::1]:80"),
        Some(SocketAddr { ip: IpAddr::V6(v6([0, 0, 0, 0, 0, 0, 0, 1])), port: 80 })
    );
    assert_eq!(parse_socket(b"::1"), None);
}

#[test]
fn friend_code_from_ipv6_text() {
    let fc = FriendCode::from_string(String::from("[::1]:22000")).unwrap();
    assert_eq!(fc.as_str(), "00 00 00 00 00 00 00 00 00 00 00 00 00 00 00 01 55 f0");
    let fc = FriendCode::from_string_ip(String::from("2001:db8::1"), 80).unwrap();
    assert_eq!(fc.as_str(), "20 01 0d b8 00 00 00 00 00 00 00 00 00 00 00 01 00 50");
}
