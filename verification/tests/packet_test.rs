use vchat::hash::Sha256;
use vchat::packet::{Header, Packet, PacketError, HEADER_LEN, MAX_PAYLOAD_SIZE};
use vchat::time::UtcTime;
use vchat::version::{calculate_version, current_version};

fn header_bytes(version: u32, millis: i64, checksum: [u8; 4]) -> [u8; HEADER_LEN] {
    let mut b = [0u8; HEADER_LEN];
    b[..4].copy_from_slice(&version.to_be_bytes());
    b[4..12].copy_from_slice(&millis.to_be_bytes());
    b[12..].copy_from_slice(&checksum);
    b
}

#[test]
fn version_formula_examples() {
    assert_eq!(calculate_version(2, 50), 250);
    assert_eq!(calculate_version(1, 0), 10);
    assert_eq!(calculate_version(0, 1), 1);
    assert_eq!(calculate_version(3, 7), 37);
    assert_eq!(calculate_version(12, 345), 12345);
    assert_eq!(current_version(), 1);
}

#[test]
fn checksum_is_first_four_digest_bytes() {
    assert_eq!(Sha256::checksum(b""), [0xe3, 0xb0, 0xc4, 0x42]);
    assert_eq!(Sha256::checksum(b"abc"), [0xba, 0x78, 0x16, 0xbf]);
    assert_eq!(Sha256::digest(b"abc").len(), 32);
    assert_eq!(&Sha256::digest(b"abc")[..4], &[0xba, 0x78, 0x16, 0xbf]);
}

#[test]
fn verify_checksum_compares_all_four_bytes() {
    assert!(Sha256::verify_checksum(b"abc", &[0xba, 0x78, 0x16, 0xbf]));
    assert!(!Sha256::verify_checksum(b"abc", &[0xba, 0x78, 0x16, 0xbe]));
    assert!(!Sha256::verify_checksum(b"abc", &[0xba, 0x78, 0x16]));
    assert!(!Sha256::verify_checksum(b"abc", &[0xba, 0x78, 0x16, 0xbf, 0]));
}

#[test]
fn header_bytes_roundtrip() {
    let b = header_bytes(250, 1_700_000_000_123, [1, 2, 3, 4]);
    let h = Header::from_bytes(b);
    assert_eq!(h.version(), 250);
    assert_eq!(h.timestamp(), UtcTime { secs: 1_700_000_000, nanos: 123_000_000 });
    let mut out = [0u8; HEADER_LEN];
    h.to_bytes(&mut out);
    assert_eq!(out, b);
}

#[test]
fn header_negative_timestamp() {
    let h = Header::from_bytes(header_bytes(1, -1, [0; 4]));
    assert_eq!(h.timestamp(), UtcTime { secs: -1, nanos: 999_000_000 });
}

#[test]
fn header_out_of_range_timestamp_reads_as_epoch() {
    let h = Header::from_bytes(header_bytes(1, i64::MAX, [0; 4]));
    assert_eq!(h.timestamp(), UtcTime { secs: 0, nanos: 0 });
    let h = Header::from_bytes(header_bytes(1, i64::MIN, [0; 4]));
    assert_eq!(h.timestamp(), UtcTime { secs: 0, nanos: 0 });
}

#[test]
fn header_new_stamps_version_and_checksum() {
    let payload = b"hello";
    let h = Header::new(payload).unwrap();
    assert_eq!(h.version(), current_version());
    assert!(h.verify_checksum(payload));
    assert!(!h.verify_checksum(b"hellO"));
    assert!(h.timestamp().secs > 1_600_000_000);
}

#[test]
fn packet_new_checks_checksum() {
    let payload = vec![1u8, 2, 3];
    let h = Header::new(&payload).unwrap();
    assert!(Packet::new(h.clone(), payload.clone()).is_ok());
    assert!(Packet::new(h, vec![1, 2, 4]).is_err());
}

#[test]
fn packet_bytes_are_header_then_payload() {
    let hb = header_bytes(7, 42, Sha256::checksum(&[9, 8]));
    let p = Packet::new(Header::from_bytes(hb), vec![9, 8]).unwrap();
    assert!(p.verify_checksum());
    let bytes = p.to_bytes();
    assert_eq!(&bytes[..HEADER_LEN], &hb);
    assert_eq!(&bytes[HEADER_LEN..], &[9, 8]);
}

#[test]
fn packet_roundtrip_through_bytes() {
    let p = Packet::from_payload(vec![5u8; 100]).unwrap();
    let t = p.header().timestamp();
    let v = p.header().version();
    let q = Packet::from_bytes(&p.to_bytes()).unwrap();
    assert_eq!(q.payload(), &[5u8; 100][..]);
    assert_eq!(q.header().version(), v);
    assert_eq!(q.header().timestamp().secs, t.secs);
    assert_eq!(q.header().timestamp().nanos, t.nanos / 1_000_000 * 1_000_000);
    let (h, payload) = q.split();
    assert!(h.verify_checksum(&payload));
}

#[test]
fn packet_from_bytes_errors() {
    assert_eq!(Packet::from_bytes(&[0u8; 15]).unwrap_err(), PacketError::Truncated);
    let hb = header_bytes(1, 0, [0, 0, 0, 0]);
    let mut bytes = hb.to_vec();
    bytes.push(1);
    assert_eq!(Packet::from_bytes(&bytes).unwrap_err(), PacketError::ChecksumMismatch);
    let hb = header_bytes(1, 0, Sha256::checksum(&[]));
    assert!(Packet::from_bytes(&hb).is_ok());
}

#[test]
fn max_payload_leaves_room_for_header() {
    assert_eq!(MAX_PAYLOAD_SIZE, 496);
}

#[test]
fn utc_time_millis() {
    assert_eq!(
        UtcTime::from_timestamp_millis(-1),
        Some(UtcTime { secs: -1, nanos: 999_000_000 })
    );
    assert_eq!(UtcTime::from_timestamp_millis(i64::MAX), None);
    assert_eq!(UtcTime { secs: 3, nanos: 456_789_000 }.timestamp_millis(), 3456);
    assert!(UtcTime { secs: 3, nanos: 1 }.lt(&UtcTime { secs: 3, nanos: 2 }));
    assert!(!UtcTime { secs: 4, nanos: 0 }.lt(&UtcTime { secs: 3, nanos: 999_999_999 }));
    assert_eq!(UtcTime::unix_epoch(), UtcTime { secs: 0, nanos: 0 });
}

#[test]
fn header_bytes_read_back_unchanged() {
    let mut b = [0u8; 16];
    b[..4].copy_from_slice(&250u32.to_be_bytes());
    b[4..12].copy_from_slice(&1_234_567i64.to_be_bytes());
    b[12..].copy_from_slice(&[1, 2, 3, 4]);
    let h = vchat::packet::Header::from_bytes(b);
    let mut b2 = [0u8; 16];
    h.to_bytes(&mut b2);
    assert_eq!(b2, b);
    let h2 = vchat::packet::Header::from_bytes(b2);
    assert_eq!(h2.version(), 250);
    assert_eq!(h2.timestamp(), h.timestamp());
}

#[test]
fn header_new_at_stamps_the_given_time() {
    let t = UtcTime { secs: 1_700_000_000, nanos: 5_000_000 };
    let h = Header::new_at(b"abc", t);
    assert_eq!(h.timestamp(), t);
    assert_eq!(h.version(), current_version());
    assert!(h.verify_checksum(b"abc"));
}

#[test]
fn earliest_timestamp_reads_back_and_one_before_does_not() {
    let min_ms: i64 = -8_334_601_228_800 * 1000;
    let h = Header::from_bytes(header_bytes(1, min_ms, [0; 4]));
    assert_eq!(h.timestamp(), UtcTime { secs: -8_334_601_228_800, nanos: 0 });
    let h = Header::from_bytes(header_bytes(1, min_ms - 1, [0; 4]));
    assert_eq!(h.timestamp(), UtcTime { secs: 0, nanos: 0 });
    let max_ms: i64 = 8_210_266_876_799 * 1000 + 999;
    let h = Header::from_bytes(header_bytes(1, max_ms, [0; 4]));
    assert_eq!(h.timestamp(), UtcTime { secs: 8_210_266_876_799, nanos: 999_000_000 });
    let h = Header::from_bytes(header_bytes(1, max_ms + 1, [0; 4]));
    assert_eq!(h.timestamp(), UtcTime { secs: 0, nanos: 0 });
}
