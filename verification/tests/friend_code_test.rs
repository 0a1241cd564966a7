use vchat::addr::{IpAddr, SocketAddr};
use vchat::friend_code::{decode_friend_code, FriendCode};

fn v4(a: u8, b: u8, c: u8, d: u8, port: u16) -> SocketAddr {
    SocketAddr { ip: IpAddr::V4([a, b, c, d]), port }
}

#[test]
fn friend_code_of_ipv4() {
    let fc = FriendCode::from_ip_port(IpAddr::V4([192, 168, 0, 1]), 22000);
    assert_eq!(fc.as_str(), "c0 a8 00 01 55 f0");
    assert_eq!(fc.to_socket_addr(), Ok(v4(192, 168, 0, 1, 22000)));
}

#[test]
fn friend_code_of_ipv6() {
    let mut o = [0u8; 16];
    o[0] = 0x20;
    o[1] = 0x01;
    o[15] = 0xab;
    let a = SocketAddr { ip: IpAddr::V6(o), port: 1 };
    let fc = FriendCode::from_socket_addr(a);
    assert_eq!(
        fc.as_str(),
        "20 01 00 00 00 00 00 00 00 00 00 00 00 00 00 ab 00 01"
    );
    assert_eq!(fc.to_socket_addr(), Ok(a));
}

#[test]
fn typed_friend_codes_may_use_any_spacing_and_case() {
    assert_eq!(decode_friend_code("C0A8 0001 55F0"), Ok(v4(192, 168, 0, 1, 22000)));
    assert_eq!(decode_friend_code(" c0a8000155f0 "), Ok(v4(192, 168, 0, 1, 22000)));
    let fc = FriendCode::from_string_friend_code("7F0000010050").unwrap();
    assert_eq!(fc.as_str(), "7f 00 00 01 00 50");
}

#[test]
fn invalid_friend_codes() {
    assert_eq!(decode_friend_code(""), Err(()));
    assert_eq!(decode_friend_code("c0 a8 00 01 55"), Err(()));
    assert_eq!(decode_friend_code("c0 a8 00 01 55 f"), Err(()));
    assert_eq!(decode_friend_code("c0 a8 00 01 55 fg"), Err(()));
    assert_eq!(decode_friend_code("c0 a8 00 01 55 f0 00"), Err(()));
    assert_eq!(decode_friend_code("c0\ta8 00 01 55 f0"), Err(()));
    assert!(FriendCode::from_string_friend_code("é0 a8 00 01 55 f0").is_err());
}

#[test]
fn friend_code_roundtrip_examples() {
    for a in [v4(0, 0, 0, 0, 0), v4(255, 255, 255, 255, 65535), v4(10, 0, 0, 7, 443)] {
        let fc = FriendCode::from_socket_addr(a);
        assert_eq!(decode_friend_code(fc.as_str()), Ok(a));
    }
}
