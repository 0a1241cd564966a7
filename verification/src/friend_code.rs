//! Friend codes: socket addresses written as space-separated lowercase hex bytes.
//!
//! The address `192.168.0.1:22000` has the friend code `c0 a8 00 01 55 f0`: the octets
//! of the IP address followed by the big-endian port.

use vstd::prelude::*;
use vstd::string::StringSliceAdditionalSpecFns;
use vstd::utf8::{encode_utf8, is_ascii_chars, is_ascii_chars_encode_utf8};

use crate::addr::{IpAddr, SocketAddr};
use crate::addr_text::{ip_text, parse_ip, parse_socket, socket_text};
use crate::strings::utf8;

verus! {

/// The lowercase hexadecimal digits, by value.
pub open spec fn hex_chars() -> Seq<char> {
    seq!['0', '1', '2', '3', '4', '5', '6', '7', '8', '9', 'a', 'b', 'c', 'd', 'e', 'f']
}

/// The two lowercase hex digits of byte `b`.
pub open spec fn byte_hex(b: u8) -> Seq<char> {
    seq![hex_chars()[(b / 16) as int], hex_chars()[(b % 16) as int]]
}

/// The lowercase hex encoding of `b`: two digits per byte.
pub open spec fn hex_lower(b: Seq<u8>) -> Seq<char>
    decreases b.len(),
{
    if b.len() == 0 {
        seq![]
    } else {
        hex_lower(b.drop_last()) + byte_hex(b.last())
    }
}

/// The hex digits of the bytes `b`, two per byte, the bytes separated by single spaces.
pub open spec fn friend_code_text(b: Seq<u8>) -> Seq<char>
    decreases b.len(),
{
    if b.len() == 0 {
        seq![]
    } else if b.len() == 1 {
        byte_hex(b[0])
    } else {
        friend_code_text(b.drop_last()) + seq![' '] + byte_hex(b.last())
    }
}

/// `c` is the ASCII code of a hex digit, in either case.
pub open spec fn is_hex_digit(c: u8) -> bool {
    (48 <= c <= 57) || (97 <= c <= 102) || (65 <= c <= 70)
}

/// The value of the hex digit with ASCII code `c`.
pub open spec fn hex_value(c: u8) -> int {
    if c <= 57 {
        c - 48
    } else if c >= 97 {
        c - 87
    } else {
        c - 55
    }
}

/// The bytes that the hex string `s` (given by its bytes) encodes: `None` where its length
/// is odd or it holds a byte that is no hex digit.
pub open spec fn hex_decode(s: Seq<u8>) -> Option<Seq<u8>> {
    if s.len() % 2 == 0 && (forall|i: int| 0 <= i < s.len() ==> is_hex_digit(#[trigger] s[i])) {
        Some(
            Seq::new(
                (s.len() / 2) as nat,
                |i: int| (hex_value(s[2 * i]) * 16 + hex_value(s[2 * i + 1])) as u8,
            ),
        )
    } else {
        None
    }
}

/// `s` without its spaces.
pub open spec fn strip_spaces(s: Seq<u8>) -> Seq<u8> {
    s.filter(|c: u8| c != 32u8)
}

/// The bytes a friend code encodes for `a`: the IP octets, then the big-endian port.
pub open spec fn addr_bytes(a: SocketAddr) -> Seq<u8> {
    a.ip.octets() + seq![(a.port >> 8u16) as u8, a.port as u8]
}

/// The address that `text` is the friend code of, if it is one: where its bytes, spaces
/// removed, are hex for 6 bytes (IPv4) or 18 bytes (IPv6).
pub open spec fn decodes_to(text: Seq<char>, a: SocketAddr) -> bool {
    hex_decode(strip_spaces(encode_utf8(text))) == Some(addr_bytes(a))
}

/// The text is a friend code of some address.
pub open spec fn is_friend_code(text: Seq<char>) -> bool {
    match hex_decode(strip_spaces(encode_utf8(text))) {
        Some(d) => d.len() == 6 || d.len() == 18,
        None => false,
    }
}

/// `hex::encode`: the lowercase hex encoding of `data`.
///
/// hex maps every byte to the digit of its high nibble and the digit of its low nibble,
/// from the table `0123456789abcdef`, and collects the characters into a `String`.
#[verifier::external_body]
fn hex_encode(data: &[u8]) -> (s: String)
    ensures
        s@ == hex_lower(data@),
{
    hex::encode(data)
}

#[verifier::external_type_specification]
#[verifier::external_body]
pub struct ExFromHexError(hex::FromHexError);

/// `hex::decode` on the bytes of a string.
///
/// hex returns `OddLength` for an odd number of bytes and `InvalidHexCharacter` at the first
/// byte that is not `0-9`, `a-f` or `A-F`; otherwise each pair of bytes becomes the byte
/// `high * 16 + low`.
#[verifier::external_body]
fn hex_decode_bytes(data: &[u8]) -> (r: Result<Vec<u8>, hex::FromHexError>)
    ensures
        r is Ok <==> hex_decode(data@) is Some,
        r matches Ok(v) ==> hex_decode(data@) == Some(v@),
{
    hex::decode(data)
}

/// A socket address written as a friend code.
#[derive(Debug, Clone, PartialEq, Eq, PartialOrd, Ord, Hash)]
pub struct FriendCode(String);

impl View for FriendCode {
    type V = Seq<char>;

    closed spec fn view(&self) -> Seq<char> {
        self.0@
    }
}

/// The big-endian bytes of a socket address, as a friend code holds them.
fn addr_to_bytes(addr: &SocketAddr) -> (b: Vec<u8>)
    ensures
        b@ == addr_bytes(*addr),
{
    let mut b = addr.ip.octets_vec();
    b.push((addr.port >> 8u16) as u8);
    b.push(addr.port as u8);
    assert(b@ =~= addr_bytes(*addr));
    b
}

impl FriendCode {
    /// The friend code of `addr`.
    fn new(addr: SocketAddr) -> (fc: FriendCode)
        ensures
            fc@ == friend_code_text(addr_bytes(addr)),
    {
        let bytes = addr_to_bytes(&addr);
        let mut s = String::new();
        let mut i: usize = 0;
        while i < bytes.len()
            invariant
                i <= bytes@.len(),
                s@ == friend_code_text(bytes@.subrange(0, i as int)),
            decreases bytes@.len() - i,
        {
            let ghost prev = bytes@.subrange(0, i as int);
            let ghost next = bytes@.subrange(0, i + 1);
            assert(next.drop_last() =~= prev);
            let ghost s0 = s@;
            if i > 0 {
                s.append(" ");
                proof {
                    reveal_strlit(" ");
                }
                assert(s@ =~= s0 + seq![' ']);
            }
            let one = [bytes[i]];
            assert(one@.drop_last() =~= Seq::<u8>::empty());
            assert(one@.last() == bytes@[i as int]);
            assert(hex_lower(Seq::<u8>::empty()) == Seq::<char>::empty());
            let h = hex_encode(&one);
            assert(h@ =~= byte_hex(bytes@[i as int]));
            assert(next.last() == bytes@[i as int]);
            assert(next[0] == bytes@[0]);
            s.append(h.as_str());
            if i == 0 {
                assert(prev =~= Seq::<u8>::empty());
                assert(s0 == Seq::<char>::empty());
                assert(friend_code_text(next) == byte_hex(next[0]));
                assert(s@ =~= friend_code_text(next));
            } else {
                assert(friend_code_text(next) == friend_code_text(next.drop_last()) + seq![' ']
                    + byte_hex(next.last()));
                assert(s@ =~= friend_code_text(next));
            }
            i = i + 1;
        }
        assert(bytes@.subrange(0, i as int) =~= bytes@);
        FriendCode(s)
    }

    /// The friend code of `ip` and `port`.
    pub fn from_ip_port(ip: IpAddr, port: u16) -> (fc: FriendCode)
        ensures
            fc@ == friend_code_text(addr_bytes(SocketAddr { ip, port })),
    {
        Self::new(SocketAddr { ip, port })
    }

    /// The friend code of `addr`.
    pub fn from_socket_addr(addr: SocketAddr) -> (fc: FriendCode)
        ensures
            fc@ == friend_code_text(addr_bytes(addr)),
    {
        Self::new(addr)
    }

    /// The friend code of the socket address written in `addr`, e.g. `192.168.0.1:22000`
    /// or `[2001:db8::1]:22000`; `Err` where `addr` is no such text.
    pub fn from_string(addr: String) -> (r: Result<FriendCode, ()>)
        ensures
            r is Ok <==> exists|a: SocketAddr| socket_text(utf8(addr@), a),
            r matches Ok(fc) ==> exists|a: SocketAddr|
                socket_text(utf8(addr@), a) && fc@ == friend_code_text(#[trigger] addr_bytes(a)),
    {
        let b = addr.as_str().as_bytes();
        match parse_socket(b) {
            Some(a) => {
                assert(socket_text(utf8(addr@), a));
                Ok(Self::new(a))
            },
            None => Err(()),
        }
    }

    /// The friend code of the IP address written in `ip`, e.g. `192.168.0.1` or `::1`, and
    /// `port`; `Err` where `ip` is no such text.
    pub fn from_string_ip(ip: String, port: u16) -> (r: Result<FriendCode, ()>)
        ensures
            r is Ok <==> exists|a: IpAddr| ip_text(utf8(ip@), a),
            r matches Ok(fc) ==> exists|a: IpAddr|
                ip_text(utf8(ip@), a) && fc@ == friend_code_text(
                    #[trigger] addr_bytes(SocketAddr { ip: a, port }),
                ),
    {
        let b = ip.as_str().as_bytes();
        match parse_ip(b) {
            Some(a) => {
                assert(ip_text(utf8(ip@), a));
                Ok(Self::new(SocketAddr { ip: a, port }))
            },
            None => Err(()),
        }
    }

    /// The friend code as text.
    pub fn as_str(&self) -> (s: &str)
        ensures
            s@ == self@,
    {
        self.0.as_str()
    }

    /// The address this friend code stands for.
    pub fn to_socket_addr(&self) -> (r: Result<SocketAddr, ()>)
        ensures
            r is Ok <==> is_friend_code(self@),
            r matches Ok(a) ==> decodes_to(self@, a),
    {
        decode_friend_code(self.0.as_str())
    }

    /// Reads friend code `text`, as typed: spaces anywhere, hex digits in either case.
    /// The result is written in the canonical form.
    pub fn from_string_friend_code(text: &str) -> (r: Result<FriendCode, ()>)
        ensures
            r is Ok <==> is_friend_code(text@),
            r matches Ok(fc) ==> exists|a: SocketAddr|
                decodes_to(text@, a) && fc@ == friend_code_text(#[trigger] addr_bytes(a)),
    {
        match decode_friend_code(text) {
            Ok(a) => Ok(Self::new(a)),
            Err(()) => Err(()),
        }
    }
}

/// The address that friend code `text` stands for.
pub fn decode_friend_code(text: &str) -> (r: Result<SocketAddr, ()>)
    ensures
        r is Ok <==> is_friend_code(text@),
        r matches Ok(a) ==> decodes_to(text@, a),
{
    let bytes = text.as_bytes();
    let mut stripped: Vec<u8> = Vec::new();
    let mut i: usize = 0;
    while i < bytes.len()
        invariant
            i <= bytes@.len(),
            stripped@ == strip_spaces(bytes@.subrange(0, i as int)),
        decreases bytes@.len() - i,
    {
        let ghost prev = bytes@.subrange(0, i as int);
        assert(bytes@.subrange(0, i + 1) =~= prev.push(bytes@[i as int]));
        proof {
            Seq::<u8>::filter_distributes_over_add(prev, seq![bytes@[i as int]], |c: u8| c != 32u8);
            assert(prev + seq![bytes@[i as int]] =~= prev.push(bytes@[i as int]));
            reveal_with_fuel(Seq::filter, 2);
            assert(seq![bytes@[i as int]].drop_last() =~= Seq::<u8>::empty());
        }
        if bytes[i] != 32u8 {
            stripped.push(bytes[i]);
        }
        i = i + 1;
    }
    assert(bytes@.subrange(0, i as int) =~= bytes@);
    let d = match hex_decode_bytes(stripped.as_slice()) {
        Ok(d) => d,
        Err(_) => return Err(()),
    };
    if d.len() == 6 {
        let ip = IpAddr::V4([d[0], d[1], d[2], d[3]]);
        let a = SocketAddr { ip, port: ((d[4] as u16) << 8u16) | d[5] as u16 };
        proof {
            lemma_port_bytes(d@[4], d@[5]);
            assert(addr_bytes(a) =~= d@);
        }
        Ok(a)
    } else if d.len() == 18 {
        let ip = IpAddr::V6(
            [
                d[0],
                d[1],
                d[2],
                d[3],
                d[4],
                d[5],
                d[6],
                d[7],
                d[8],
                d[9],
                d[10],
                d[11],
                d[12],
                d[13],
                d[14],
                d[15],
            ],
        );
        let a = SocketAddr { ip, port: ((d[16] as u16) << 8u16) | d[17] as u16 };
        proof {
            lemma_port_bytes(d@[16], d@[17]);
            assert(addr_bytes(a) =~= d@);
        }
        Ok(a)
    } else {
        Err(())
    }
}

/// The port read from two big-endian bytes writes back as those bytes.
proof fn lemma_port_bytes(hi: u8, lo: u8)
    ensures
        ((((hi as u16) << 8u16) | lo as u16) >> 8u16) as u8 == hi,
        (((hi as u16) << 8u16) | lo as u16) as u8 == lo,
{
    assert(((((hi as u16) << 8u16) | lo as u16) >> 8u16) as u8 == hi) by (bit_vector);
    assert((((hi as u16) << 8u16) | lo as u16) as u8 == lo) by (bit_vector);
}

/// The ASCII codes of the characters `t`.
pub open spec fn ascii_codes(t: Seq<char>) -> Seq<u8> {
    t.map_values(|c: char| c as u8)
}

/// Each hex digit of the table reads back as its value.
proof fn lemma_hex_digit(n: int)
    requires
        0 <= n < 16,
    ensures
        '\0' <= hex_chars()[n] <= '\u{7f}',
        hex_chars()[n] != ' ',
        is_hex_digit(hex_chars()[n] as u8),
        hex_value(hex_chars()[n] as u8) == n,
{
}

/// The hex encoding has two digits per byte: those of its high and its low nibble.
proof fn lemma_hex_lower_index(b: Seq<u8>)
    ensures
        hex_lower(b).len() == 2 * b.len(),
        forall|i: int|
            0 <= i < b.len() ==> hex_lower(b)[2 * i] == hex_chars()[(#[trigger] b[i] / 16) as int]
                && hex_lower(b)[2 * i + 1] == hex_chars()[(b[i] % 16) as int],
    decreases b.len(),
{
    if b.len() > 0 {
        lemma_hex_lower_index(b.drop_last());
        assert forall|i: int| 0 <= i < b.len() implies hex_lower(b)[2 * i] == hex_chars()[(
        #[trigger] b[i] / 16) as int] && hex_lower(b)[2 * i + 1] == hex_chars()[(b[i] % 16)
            as int] by {
            if i < b.len() - 1 {
                assert(b.drop_last()[i] == b[i]);
            }
        }
    }
}

/// A friend code is plain ASCII.
proof fn lemma_friend_code_ascii(b: Seq<u8>)
    ensures
        is_ascii_chars(friend_code_text(b)),
    decreases b.len(),
{
    if b.len() == 1 {
        lemma_hex_digit((b[0] / 16) as int);
        lemma_hex_digit((b[0] % 16) as int);
    } else if b.len() > 1 {
        lemma_friend_code_ascii(b.drop_last());
        lemma_hex_digit((b.last() / 16) as int);
        lemma_hex_digit((b.last() % 16) as int);
        let t = friend_code_text(b);
        let p = friend_code_text(b.drop_last());
        assert forall|i: int| 0 <= i < t.len() implies '\0' <= #[trigger] t[i] <= '\u{7f}' by {
            if i < p.len() {
                assert(t[i] == p[i]);
            }
        }
    }
}

/// Removing the spaces of a friend code leaves the hex encoding of its bytes.
proof fn lemma_strip_friend_code(b: Seq<u8>)
    ensures
        strip_spaces(ascii_codes(friend_code_text(b))) == ascii_codes(hex_lower(b)),
    decreases b.len(),
{
    let keep = |c: u8| c != 32u8;
    if b.len() == 0 {
        assert(ascii_codes(friend_code_text(b)) =~= Seq::<u8>::empty());
        assert(ascii_codes(hex_lower(b)) =~= Seq::<u8>::empty());
    } else {
        let last = b.last();
        lemma_hex_digit((last / 16) as int);
        lemma_hex_digit((last % 16) as int);
        let pair = ascii_codes(byte_hex(last));
        assert(pair.filter(keep) =~= pair) by {
            reveal_with_fuel(Seq::filter, 3);
            assert(pair.drop_last().drop_last() =~= Seq::<u8>::empty());
        }
        if b.len() == 1 {
            assert(b.drop_last() =~= Seq::<u8>::empty());
            assert(hex_lower(b.drop_last()) == Seq::<char>::empty());
            assert(hex_lower(b) =~= byte_hex(last));
            assert(friend_code_text(b) == byte_hex(b[0]));
        } else {
            lemma_strip_friend_code(b.drop_last());
            let prev = ascii_codes(friend_code_text(b.drop_last()));
            let space = seq![32u8];
            assert(ascii_codes(friend_code_text(b)) =~= prev + space + pair);
            assert(space.filter(keep) =~= Seq::<u8>::empty()) by {
                reveal_with_fuel(Seq::filter, 2);
                assert(space.drop_last() =~= Seq::<u8>::empty());
            }
            Seq::<u8>::filter_distributes_over_add(prev + space, pair, keep);
            Seq::<u8>::filter_distributes_over_add(prev, space, keep);
            assert(ascii_codes(hex_lower(b)) =~= ascii_codes(hex_lower(b.drop_last())) + pair);
        }
    }
}

/// Decoding the hex encoding of bytes gives the bytes back.
proof fn lemma_hex_roundtrip(b: Seq<u8>)
    ensures
        hex_decode(ascii_codes(hex_lower(b))) == Some(b),
{
    lemma_hex_lower_index(b);
    let s = ascii_codes(hex_lower(b));
    assert forall|i: int| 0 <= i < s.len() implies is_hex_digit(#[trigger] s[i]) by {
        let k = i / 2;
        assert(0 <= k < b.len());
        lemma_hex_digit((b[k] / 16) as int);
        lemma_hex_digit((b[k] % 16) as int);
        if i % 2 == 0 {
            assert(i == 2 * k);
        } else {
            assert(i == 2 * k + 1);
        }
    }
    assert forall|i: int| 0 <= i < b.len() implies #[trigger] b[i] == (hex_value(s[2 * i]) * 16
        + hex_value(s[2 * i + 1])) as u8 by {
        lemma_hex_digit((b[i] / 16) as int);
        lemma_hex_digit((b[i] % 16) as int);
    }
    assert(hex_decode(s).unwrap() =~= b);
}

/// The bytes of a friend code determine the address.
pub proof fn lemma_addr_bytes_injective(a: SocketAddr, b: SocketAddr)
    requires
        addr_bytes(a) == addr_bytes(b),
    ensures
        a == b,
{
    broadcast use vstd::array::axiom_array_ext_equal;

    let (x, y) = (addr_bytes(a), addr_bytes(b));
    let n = x.len() - 2;
    assert(x[n] == y[n] && x[n + 1] == y[n + 1]);
    let (pa, pb) = (a.port, b.port);
    assert(pa == pb) by (bit_vector)
        requires
            (pa >> 8u16) as u8 == (pb >> 8u16) as u8,
            pa as u8 == pb as u8,
    ;
    match (a.ip, b.ip) {
        (IpAddr::V4(o), IpAddr::V4(p)) => {
            assert(o@ =~= x.subrange(0, 4));
            assert(p@ =~= y.subrange(0, 4));
            assert(o =~= p);
        },
        (IpAddr::V6(o), IpAddr::V6(p)) => {
            assert(o@ =~= x.subrange(0, 16));
            assert(p@ =~= y.subrange(0, 16));
            assert(o =~= p);
        },
        _ => {
            assert(x.len() != y.len());
        },
    }
}

/// The friend code of an address is a friend code, and it decodes to that address and
/// to no other.
pub proof fn lemma_friend_code_roundtrip(a: SocketAddr)
    ensures
        is_friend_code(friend_code_text(addr_bytes(a))),
        decodes_to(friend_code_text(addr_bytes(a)), a),
        forall|b: SocketAddr| decodes_to(friend_code_text(addr_bytes(a)), b) ==> b == a,
{
    let b = addr_bytes(a);
    let t = friend_code_text(b);
    lemma_friend_code_ascii(b);
    is_ascii_chars_encode_utf8(t);
    assert(encode_utf8(t) =~= ascii_codes(t));
    lemma_strip_friend_code(b);
    lemma_hex_roundtrip(b);
    assert forall|c: SocketAddr| decodes_to(t, c) implies c == a by {
        lemma_addr_bytes_injective(c, a);
    }
}

} // verus!
