//! Voice packets and their wire format.
//!
//! | VERSION | TIMESTAMP ms | CHECKSUM | PAYLOAD |
//! | ------- | ------------ | -------- | ------- |
//! | 4 be    | 8 be in ms   | 4 be     | XXX be  |
//!
//! The version is `Major * 10^(places of Minor) + Minor` (see [`crate::version`]); the
//! timestamp counts milliseconds since the Unix epoch; the checksum is the first four
//! bytes of the SHA-256 digest of the payload.

use vstd::prelude::*;

use crate::bytes::{
    i64_be_bytes, i64_from_be_at, i64_from_be_seq, i64_to_be, lemma_i64_be_roundtrip,
    lemma_i64_from_be_roundtrip, lemma_u32_be_roundtrip, lemma_u32_from_be_roundtrip, u32_be_bytes,
    u32_from_be_at, u32_from_be_seq, u32_to_be,
};
use crate::hash::{checksum_of, ChecksumMismatch, Sha256};
use crate::time::UtcTime;
use crate::version::{current_version, version_number, VERSION_MAJOR, VERSION_MINOR};

verus! {

/// Length of an encoded header in bytes.
pub const HEADER_LEN: usize = 16;

/// Largest datagram that is sent.
pub const MAX_PACKET_SIZE: usize = 512;

/// The max payload size is 512 bytes minus the header.
///
/// This is to maximize throughput and minimize latency and bytes lost.
pub const MAX_PAYLOAD_SIZE: usize = MAX_PACKET_SIZE - HEADER_LEN;

/// Oldest packet age, in seconds, that is still of interest.
pub const MAX_PACKAGE_AGE_SEC: i64 = 10;

/// What a header holds.
pub struct HeaderView {
    pub version: u32,
    pub timestamp: UtcTime,
    pub checksum: Seq<u8>,
}

/// Packet header: protocol version, creation time and payload checksum.
#[derive(Debug)]
pub struct Header {
    version: u32,
    timestamp: UtcTime,
    checksum: [u8; 4],
}

/// A header together with the payload it describes.
#[derive(Debug, Clone)]
pub struct Packet {
    pub header: Header,
    pub payload: Vec<u8>,
}

/// Why a datagram is not a packet.
#[derive(Debug, Clone, Copy, PartialEq, Eq, Structural)]
pub enum PacketError {
    /// Shorter than a header.
    Truncated,
    /// The payload does not match the header's checksum.
    ChecksumMismatch,
}

impl View for Header {
    type V = HeaderView;

    closed spec fn view(&self) -> HeaderView {
        HeaderView { version: self.version, timestamp: self.timestamp, checksum: self.checksum@ }
    }
}

impl HeaderView {
    /// The header's timestamp is a representable date-time and its checksum is 4 bytes long.
    pub open spec fn wf(self) -> bool {
        self.timestamp.wf() && self.checksum.len() == 4
    }

    /// The header with its timestamp cut to whole milliseconds, as the wire keeps it.
    pub open spec fn truncated(self) -> HeaderView {
        HeaderView {
            version: self.version,
            timestamp: UtcTime::from_millis(self.timestamp.millis()),
            checksum: self.checksum,
        }
    }
}

/// The 16 bytes that encode header `h`.
pub open spec fn header_bytes(h: HeaderView) -> Seq<u8> {
    u32_be_bytes(h.version) + i64_be_bytes(h.timestamp.millis() as i64) + h.checksum
}

/// The timestamp encoded by the 8 bytes `b`: the Unix epoch where they are out of range.
pub open spec fn timestamp_from_bytes(b: Seq<u8>) -> UtcTime {
    let ms = i64_from_be_seq(b) as int;
    if UtcTime::millis_in_range(ms) {
        UtcTime::from_millis(ms)
    } else {
        UtcTime { secs: 0, nanos: 0 }
    }
}

/// The header encoded by the 16 bytes `b`.
pub open spec fn header_from_bytes(b: Seq<u8>) -> HeaderView {
    HeaderView {
        version: u32_from_be_seq(b.subrange(0, 4)),
        timestamp: timestamp_from_bytes(b.subrange(4, 12)),
        checksum: b.subrange(12, 16),
    }
}

/// Bytes `b` parsed as a packet: its header and its payload.
pub open spec fn packet_from_bytes(b: Seq<u8>) -> Result<(HeaderView, Seq<u8>), PacketError> {
    if b.len() < HEADER_LEN {
        Err(PacketError::Truncated)
    } else {
        let h = header_from_bytes(b.subrange(0, HEADER_LEN as int));
        let payload = b.subrange(HEADER_LEN as int, b.len() as int);
        if h.checksum == checksum_of(payload) {
            Ok((h, payload))
        } else {
            Err(PacketError::ChecksumMismatch)
        }
    }
}

impl Header {
    #[verifier::type_invariant]
    spec fn inv(self) -> bool {
        self.timestamp.wf()
    }

    /// A header for `payload`, stamped with the current version and time; `None` where the
    /// system clock cannot be read as a date-time (see [`crate::time`]).
    pub fn new(payload: &[u8]) -> (h: Option<Header>)
        requires
            payload@.len() <= u16::MAX,
        ensures
            h matches Some(h) ==> h@.version == version_number(
                VERSION_MAJOR as nat,
                VERSION_MINOR as nat,
            ) && h@.checksum == checksum_of(payload@) && h@.wf(),
    {
        match crate::time::now() {
            Some(t) => Some(Self::new_at(payload, t)),
            None => None,
        }
    }

    /// A header for `payload`, stamped with the current version and the time `timestamp`.
    pub fn new_at(payload: &[u8], timestamp: UtcTime) -> (h: Header)
        requires
            payload@.len() <= u16::MAX,
            timestamp.wf(),
        ensures
            h@.version == version_number(VERSION_MAJOR as nat, VERSION_MINOR as nat),
            h@.checksum == checksum_of(payload@),
            h@.timestamp == timestamp,
            h@.wf(),
    {
        let checksum = Sha256::checksum(payload);
        Header { version: current_version(), timestamp, checksum }
    }

    /// The protocol version the packet was made with.
    pub fn version(&self) -> (v: u32)
        ensures
            v == self@.version,
            self@.wf(),
    {
        proof {
            use_type_invariant(self);
        }
        self.version
    }

    /// When the packet was made.
    pub fn timestamp(&self) -> (t: UtcTime)
        ensures
            t == self@.timestamp,
            t.wf(),
            self@.wf(),
    {
        proof {
            use_type_invariant(self);
        }
        self.timestamp
    }

    /// Whether this header's checksum is the checksum of `payload`.
    pub fn verify_checksum(&self, payload: &[u8]) -> (ok: bool)
        ensures
            ok == (self@.checksum == checksum_of(payload@)),
    {
        Sha256::verify_checksum(payload, &self.checksum)
    }

    /// Writes this header into `buf`, which must hold exactly [`HEADER_LEN`] bytes.
    pub fn to_bytes(&self, buf: &mut [u8])
        requires
            old(buf)@.len() == HEADER_LEN,
        ensures
            final(buf)@ == header_bytes(self@),
            self@.wf(),
    {
        proof {
            use_type_invariant(self);
        }
        let v = u32_to_be(self.version);
        let t = i64_to_be(self.timestamp.timestamp_millis());
        buf[0] = v[0];
        buf[1] = v[1];
        buf[2] = v[2];
        buf[3] = v[3];
        buf[4] = t[0];
        buf[5] = t[1];
        buf[6] = t[2];
        buf[7] = t[3];
        buf[8] = t[4];
        buf[9] = t[5];
        buf[10] = t[6];
        buf[11] = t[7];
        buf[12] = self.checksum[0];
        buf[13] = self.checksum[1];
        buf[14] = self.checksum[2];
        buf[15] = self.checksum[3];
        assert(buf@ =~= header_bytes(self@));
    }

    /// Reads a header from its 16 bytes. A timestamp out of range reads as the Unix epoch.
    pub fn from_bytes(header_bytes: [u8; HEADER_LEN]) -> (h: Header)
        ensures
            h@ == header_from_bytes(header_bytes@),
            h@.wf(),
    {
        let h = Self::from_slice(&header_bytes);
        assert(header_bytes@.subrange(0, HEADER_LEN as int) =~= header_bytes@);
        h
    }

    /// Reads a header from the first 16 bytes of `b`.
    fn from_slice(b: &[u8]) -> (h: Header)
        requires
            HEADER_LEN <= b@.len(),
        ensures
            h@ == header_from_bytes(b@.subrange(0, HEADER_LEN as int)),
            h@.wf(),
    {
        let ghost hb = b@.subrange(0, HEADER_LEN as int);
        let version = u32_from_be_at(b, 0);
        let ms = i64_from_be_at(b, 4);
        let timestamp = match UtcTime::from_timestamp_millis(ms) {
            Some(t) => t,
            None => UtcTime::unix_epoch(),
        };
        let checksum = [b[12], b[13], b[14], b[15]];
        assert(hb.subrange(0, 4) =~= b@.subrange(0, 4));
        assert(hb.subrange(4, 12) =~= b@.subrange(4, 12));
        assert(checksum@ =~= hb.subrange(12, 16));
        Header { version, timestamp, checksum }
    }
}

impl Clone for Header {
    fn clone(&self) -> (h: Self)
        ensures
            h@ == self@,
            h@.wf(),
    {
        proof {
            use_type_invariant(self);
        }
        Header { version: self.version, timestamp: self.timestamp, checksum: self.checksum }
    }
}

impl Packet {
    /// Pairs `header` with `payload`, where the header's checksum matches the payload.
    pub fn new(header: Header, payload: Vec<u8>) -> (r: Result<Packet, ChecksumMismatch>)
        ensures
            r is Ok <==> header@.checksum == checksum_of(payload@),
            r matches Ok(p) ==> p.header@ == header@ && p.payload@ == payload@,
    {
        if header.verify_checksum(payload.as_slice()) {
            Ok(Packet { header, payload })
        } else {
            Err(ChecksumMismatch)
        }
    }

    /// A packet for `payload`, with a fresh header; `None` where the system clock cannot be
    /// read as a date-time.
    pub fn from_payload(payload: Vec<u8>) -> (p: Option<Packet>)
        requires
            payload@.len() <= u16::MAX,
        ensures
            p matches Some(p) ==> {
                &&& p.payload@ == payload@
                &&& p.header@.version == version_number(VERSION_MAJOR as nat, VERSION_MINOR as nat)
                &&& p.header@.checksum == checksum_of(payload@)
                &&& p.header@.wf()
            },
    {
        match Header::new(payload.as_slice()) {
            Some(header) => Some(Packet { header, payload }),
            None => None,
        }
    }

    /// Whether the header's checksum matches the payload.
    pub fn verify_checksum(&self) -> (ok: bool)
        ensures
            ok == (self.header@.checksum == checksum_of(self.payload@)),
    {
        self.header.verify_checksum(self.payload.as_slice())
    }

    /// The header.
    pub fn header(&self) -> (h: &Header)
        ensures
            h == &self.header,
            h@.wf(),
    {
        proof {
            use_type_invariant(&self.header);
        }
        &self.header
    }

    /// The payload.
    pub fn payload(&self) -> (p: &[u8])
        ensures
            p@ == self.payload@,
    {
        self.payload.as_slice()
    }

    /// The header and the payload, apart.
    pub fn split(self) -> (parts: (Header, Vec<u8>))
        ensures
            parts.0 == self.header,
            parts.1 == self.payload,
    {
        (self.header, self.payload)
    }

    /// The packet's bytes on the wire: the header followed by the payload.
    pub fn to_bytes(self) -> (b: Vec<u8>)
        ensures
            b@ == header_bytes(self.header@) + self.payload@,
            self.header@.wf(),
    {
        let mut buf: Vec<u8> = vec![0u8; HEADER_LEN];
        self.header.to_bytes(buf.as_mut_slice());
        let mut payload = self.payload;
        buf.append(&mut payload);
        buf
    }

    /// Parses the bytes of a datagram as a packet.
    pub fn from_bytes(bytes: &[u8]) -> (r: Result<Packet, PacketError>)
        ensures
            r matches Ok(p) ==> packet_from_bytes(bytes@) == Ok::<_, PacketError>(
                (p.header@, p.payload@),
            ) && p.header@.wf(),
            r matches Err(e) ==> packet_from_bytes(bytes@) == Err::<(HeaderView, Seq<u8>), _>(e),
    {
        if bytes.len() < HEADER_LEN {
            return Err(PacketError::Truncated);
        }
        let header = Header::from_slice(bytes);
        let mut payload: Vec<u8> = Vec::new();
        let mut i: usize = HEADER_LEN;
        while i < bytes.len()
            invariant
                HEADER_LEN <= i <= bytes@.len(),
                payload@ == bytes@.subrange(HEADER_LEN as int, i as int),
            decreases bytes@.len() - i,
        {
            payload.push(bytes[i]);
            i = i + 1;
            assert(payload@ =~= bytes@.subrange(HEADER_LEN as int, i as int));
        }
        if header.verify_checksum(payload.as_slice()) {
            Ok(Packet { header, payload })
        } else {
            Err(PacketError::ChecksumMismatch)
        }
    }
}

/// Reading back the bytes of a header gives the header with its timestamp cut to whole
/// milliseconds.
pub proof fn lemma_header_roundtrip(h: HeaderView)
    requires
        h.wf(),
    ensures
        header_bytes(h).len() == HEADER_LEN,
        header_from_bytes(header_bytes(h)) == h.truncated(),
{
    let b = header_bytes(h);
    let ms = h.timestamp.millis();
    lemma_u32_be_roundtrip(h.version);
    assert(h.timestamp.millis() >= i64::MIN && h.timestamp.millis() <= i64::MAX) by (
    nonlinear_arith)
        requires
            crate::time::MIN_TIMESTAMP_SECS <= h.timestamp.secs <= crate::time::MAX_TIMESTAMP_SECS,
            h.timestamp.nanos < 1_000_000_000,
            h.timestamp.millis() == h.timestamp.secs * 1000 + h.timestamp.nanos / 1_000_000,
    ;
    lemma_i64_be_roundtrip(ms as i64);
    assert(b.subrange(0, 4) =~= u32_be_bytes(h.version));
    assert(b.subrange(4, 12) =~= i64_be_bytes(ms as i64));
    assert(b.subrange(12, 16) =~= h.checksum);
    assert(UtcTime::millis_in_range(ms)) by (nonlinear_arith)
        requires
            crate::time::MIN_TIMESTAMP_SECS <= h.timestamp.secs <= crate::time::MAX_TIMESTAMP_SECS,
            0 <= h.timestamp.nanos < 1_000_000_000,
            ms == h.timestamp.secs * 1000 + h.timestamp.nanos / 1_000_000,
    ;
}

/// A header whose timestamp falls on a whole millisecond reads back from its bytes
/// unchanged: version, timestamp and checksum.
pub proof fn lemma_header_roundtrip_whole_millis(h: HeaderView)
    requires
        h.wf(),
        h.timestamp.nanos % 1_000_000 == 0,
    ensures
        header_from_bytes(header_bytes(h)) == h,
{
    lemma_header_roundtrip(h);
    let t = h.timestamp;
    let ms = t.millis();
    assert(ms / 1000 == t.secs && (ms % 1000) * 1_000_000 == t.nanos) by (nonlinear_arith)
        requires
            ms == t.secs * 1000 + t.nanos / 1_000_000,
            0 <= t.nanos < 1_000_000_000,
            t.nanos % 1_000_000 == 0,
    ;
    assert(UtcTime::from_millis(ms) == t);
}

/// Encoding a header read from 16 bytes gives those bytes back, where their timestamp
/// is in range.
pub proof fn lemma_header_bytes_roundtrip(b: Seq<u8>)
    requires
        b.len() == HEADER_LEN,
        UtcTime::millis_in_range(i64_from_be_seq(b.subrange(4, 12)) as int),
    ensures
        header_bytes(header_from_bytes(b)) == b,
{
    let h = header_from_bytes(b);
    let ms = i64_from_be_seq(b.subrange(4, 12)) as int;
    lemma_u32_from_be_roundtrip(b.subrange(0, 4));
    lemma_i64_from_be_roundtrip(b.subrange(4, 12));
    let t = UtcTime::from_millis(ms);
    assert(t.millis() == ms) by (nonlinear_arith)
        requires
            t.secs == ms / 1000,
            t.nanos == (ms % 1000) * 1_000_000,
            0 <= ms % 1000 < 1000,
    ;
    assert(header_bytes(h) =~= b);
}

/// A packet read back from its own bytes has the same payload and the header cut to
/// whole milliseconds; where its checksum does not match, reading it fails with
/// `ChecksumMismatch`.
pub proof fn lemma_packet_roundtrip(h: HeaderView, payload: Seq<u8>)
    requires
        h.wf(),
    ensures
        h.checksum == checksum_of(payload) ==> packet_from_bytes(header_bytes(h) + payload)
            == Ok::<_, PacketError>((h.truncated(), payload)),
        h.checksum != checksum_of(payload) ==> packet_from_bytes(header_bytes(h) + payload)
            == Err::<(HeaderView, Seq<u8>), _>(PacketError::ChecksumMismatch),
{
    lemma_header_roundtrip(h);
    let b = header_bytes(h) + payload;
    assert(b.subrange(0, HEADER_LEN as int) =~= header_bytes(h));
    assert(b.subrange(HEADER_LEN as int, b.len() as int) =~= payload);
}

} // verus!
