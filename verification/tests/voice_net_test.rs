use vchat::addr::{IpAddr, SocketAddr};
use vchat::packet::{Header, Packet};
use vchat::version::current_version;
use vchat::voice_net::VoiceNet;
use vchat::time::UtcTime;

fn src() -> SocketAddr {
    SocketAddr { ip: IpAddr::V4([127, 0, 0, 1]), port: 9 }
}

fn packet_with_version(version: u32) -> Packet {
    packet_at(version, 1_000, 1)
}

fn packet_at(version: u32, millis: i64, tag: u8) -> Packet {
    let payload = vec![tag, 2];
    let checksum = vchat::hash::Sha256::checksum(&payload);
    let mut b = [0u8; 16];
    b[..4].copy_from_slice(&version.to_be_bytes());
    b[4..12].copy_from_slice(&millis.to_be_bytes());
    b[12..].copy_from_slice(&checksum);
    Packet::new(Header::from_bytes(b), payload).unwrap()
}

#[test]
fn other_versions_are_dropped() {
    let mut net = VoiceNet::new(current_version());
    assert!(net.read_packet(packet_with_version(current_version() + 1), src()).is_err());
}

#[test]
fn a_packet_older_than_everything_queued_is_dropped() {
    let v = current_version();
    let mut net = VoiceNet::new(v);
    assert!(net.read_packet(packet_at(v, 2_000, 1), src()).is_ok());
    assert!(net.read_packet(packet_at(v, 1_000, 2), src()).is_err());
    assert!(net.read_packet(packet_at(v, 2_000, 3), src()).is_err());
    assert!(net.read_packet(packet_at(v, 3_000, 4), src()).is_ok());
    assert!(net.read_packet(packet_at(v, 2_500, 5), src()).is_ok());
    let at = UtcTime { secs: 100, nanos: 0 };
    let tags: Vec<u8> = (0..3).map(|_| net.recv_at(at).unwrap().payload[0]).collect();
    assert_eq!(tags, vec![1, 5, 4]);
    assert!(net.recv_at(at).is_none());
    assert!(net.recv().is_none());
}

#[test]
fn packets_wait_until_due() {
    let v = current_version();
    let mut net = VoiceNet::new(v);
    assert!(net.read_packet(packet_at(v, 1_000, 1), src()).is_ok());
    assert!(net.recv_at(UtcTime { secs: 1, nanos: 100_000_000 }).is_none());
    let p = net.recv_at(UtcTime { secs: 1, nanos: 100_000_001 }).unwrap();
    assert_eq!(p.payload, vec![1, 2]);
    assert_eq!(p.src, src());
    assert_eq!(p.timestamp, UtcTime { secs: 1, nanos: 0 });
}

#[test]
fn recv_hands_out_an_old_packet_now() {
    let v = current_version();
    let mut net = VoiceNet::new(v);
    assert!(net.read_packet(packet_at(v, 1_000, 7), src()).is_ok());
    let p = net.recv().unwrap();
    assert_eq!(p.payload, vec![7, 2]);
    assert!(net.recv().is_none());
}
