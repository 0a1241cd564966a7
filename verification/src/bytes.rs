//! Big-endian byte encodings of fixed-width integers.

use vstd::prelude::*;

verus! {

/// The four big-endian bytes of `x`.
pub open spec fn u32_be_bytes(x: u32) -> Seq<u8> {
    seq![(x >> 24u32) as u8, (x >> 16u32) as u8, (x >> 8u32) as u8, x as u8]
}

/// The `u32` whose big-endian bytes are `b0 b1 b2 b3`.
pub open spec fn u32_from_be(b0: u8, b1: u8, b2: u8, b3: u8) -> u32 {
    ((b0 as u32) << 24u32) | ((b1 as u32) << 16u32) | ((b2 as u32) << 8u32) | (b3 as u32)
}

/// The `u32` whose big-endian bytes are the first four of `s`.
pub open spec fn u32_from_be_seq(s: Seq<u8>) -> u32 {
    u32_from_be(s[0], s[1], s[2], s[3])
}

/// The eight big-endian bytes of `x`.
pub open spec fn u64_be_bytes(x: u64) -> Seq<u8> {
    seq![
        (x >> 56u64) as u8,
        (x >> 48u64) as u8,
        (x >> 40u64) as u8,
        (x >> 32u64) as u8,
        (x >> 24u64) as u8,
        (x >> 16u64) as u8,
        (x >> 8u64) as u8,
        x as u8,
    ]
}

/// The `u64` whose big-endian bytes are the first eight of `s`.
pub open spec fn u64_from_be_seq(s: Seq<u8>) -> u64 {
    ((s[0] as u64) << 56u64) | ((s[1] as u64) << 48u64) | ((s[2] as u64) << 40u64) | ((
    s[3] as u64) << 32u64) | ((s[4] as u64) << 24u64) | ((s[5] as u64) << 16u64) | ((
    s[6] as u64) << 8u64) | (s[7] as u64)
}

/// The eight big-endian bytes of the two's complement of `x`.
pub open spec fn i64_be_bytes(x: i64) -> Seq<u8> {
    u64_be_bytes(x as u64)
}

/// The `i64` whose two's complement big-endian bytes are the first eight of `s`.
pub open spec fn i64_from_be_seq(s: Seq<u8>) -> i64 {
    u64_from_be_seq(s) as i64
}

/// Decoding the big-endian bytes of a `u32` gives it back.
pub proof fn lemma_u32_be_roundtrip(x: u32)
    ensures
        u32_be_bytes(x).len() == 4,
        u32_from_be_seq(u32_be_bytes(x)) == x,
{
    let b0 = (x >> 24u32) as u8;
    let b1 = (x >> 16u32) as u8;
    let b2 = (x >> 8u32) as u8;
    let b3 = x as u8;
    assert(u32_from_be(b0, b1, b2, b3) == x) by (bit_vector)
        requires
            b0 == (x >> 24u32) as u8,
            b1 == (x >> 16u32) as u8,
            b2 == (x >> 8u32) as u8,
            b3 == x as u8,
    ;
}

/// Encoding the `u32` read from four bytes gives those bytes back.
pub proof fn lemma_u32_from_be_roundtrip(s: Seq<u8>)
    requires
        s.len() == 4,
    ensures
        u32_be_bytes(u32_from_be_seq(s)) == s,
{
    let (b0, b1, b2, b3) = (s[0], s[1], s[2], s[3]);
    let x = u32_from_be(b0, b1, b2, b3);
    assert((x >> 24u32) as u8 == b0 && (x >> 16u32) as u8 == b1 && (x >> 8u32) as u8 == b2
        && x as u8 == b3) by (bit_vector)
        requires
            x == u32_from_be(b0, b1, b2, b3),
    ;
    assert(u32_be_bytes(x) =~= s);
}

/// Decoding the big-endian bytes of a `u64` gives it back.
pub proof fn lemma_u64_be_roundtrip(x: u64)
    ensures
        u64_be_bytes(x).len() == 8,
        u64_from_be_seq(u64_be_bytes(x)) == x,
{
    let s = u64_be_bytes(x);
    let (b0, b1, b2, b3, b4, b5, b6, b7) = (s[0], s[1], s[2], s[3], s[4], s[5], s[6], s[7]);
    assert(((b0 as u64) << 56u64) | ((b1 as u64) << 48u64) | ((b2 as u64) << 40u64) | ((
    b3 as u64) << 32u64) | ((b4 as u64) << 24u64) | ((b5 as u64) << 16u64) | ((b6 as u64)
        << 8u64) | (b7 as u64) == x) by (bit_vector)
        requires
            b0 == (x >> 56u64) as u8,
            b1 == (x >> 48u64) as u8,
            b2 == (x >> 40u64) as u8,
            b3 == (x >> 32u64) as u8,
            b4 == (x >> 24u64) as u8,
            b5 == (x >> 16u64) as u8,
            b6 == (x >> 8u64) as u8,
            b7 == x as u8,
    ;
}

/// Encoding the `u64` read from eight bytes gives those bytes back.
pub proof fn lemma_u64_from_be_roundtrip(s: Seq<u8>)
    requires
        s.len() == 8,
    ensures
        u64_be_bytes(u64_from_be_seq(s)) == s,
{
    let (b0, b1, b2, b3, b4, b5, b6, b7) = (s[0], s[1], s[2], s[3], s[4], s[5], s[6], s[7]);
    let x = u64_from_be_seq(s);
    assert((x >> 56u64) as u8 == b0 && (x >> 48u64) as u8 == b1 && (x >> 40u64) as u8 == b2
        && (x >> 32u64) as u8 == b3 && (x >> 24u64) as u8 == b4 && (x >> 16u64) as u8 == b5
        && (x >> 8u64) as u8 == b6 && x as u8 == b7) by (bit_vector)
        requires
            x == ((b0 as u64) << 56u64) | ((b1 as u64) << 48u64) | ((b2 as u64) << 40u64) | ((
            b3 as u64) << 32u64) | ((b4 as u64) << 24u64) | ((b5 as u64) << 16u64) | ((
            b6 as u64) << 8u64) | (b7 as u64),
    ;
    assert(u64_be_bytes(x) =~= s);
}

/// Decoding the big-endian bytes of an `i64` gives it back.
pub proof fn lemma_i64_be_roundtrip(x: i64)
    ensures
        i64_be_bytes(x).len() == 8,
        i64_from_be_seq(i64_be_bytes(x)) == x,
{
    lemma_u64_be_roundtrip(x as u64);
    assert((x as u64) as i64 == x) by (bit_vector);
}

/// Encoding the `i64` read from eight bytes gives those bytes back.
pub proof fn lemma_i64_from_be_roundtrip(s: Seq<u8>)
    requires
        s.len() == 8,
    ensures
        i64_be_bytes(i64_from_be_seq(s)) == s,
{
    let u = u64_from_be_seq(s);
    assert((u as i64) as u64 == u) by (bit_vector);
    lemma_u64_from_be_roundtrip(s);
}

/// The big-endian bytes of `x`.
pub fn u32_to_be(x: u32) -> (b: [u8; 4])
    ensures
        b@ == u32_be_bytes(x),
{
    let b = [(x >> 24u32) as u8, (x >> 16u32) as u8, (x >> 8u32) as u8, x as u8];
    assert(b@ =~= u32_be_bytes(x));
    b
}

/// The `u32` whose big-endian bytes are `b[start..start + 4]`.
pub fn u32_from_be_at(b: &[u8], start: usize) -> (x: u32)
    requires
        start + 4 <= b@.len(),
    ensures
        x == u32_from_be_seq(b@.subrange(start as int, start + 4)),
{
    ((b[start] as u32) << 24u32) | ((b[start + 1] as u32) << 16u32) | ((b[start + 2] as u32)
        << 8u32) | (b[start + 3] as u32)
}

/// The big-endian bytes of the two's complement of `x`.
pub fn i64_to_be(x: i64) -> (b: [u8; 8])
    ensures
        b@ == i64_be_bytes(x),
{
    let u = x as u64;
    let b = [
        (u >> 56u64) as u8,
        (u >> 48u64) as u8,
        (u >> 40u64) as u8,
        (u >> 32u64) as u8,
        (u >> 24u64) as u8,
        (u >> 16u64) as u8,
        (u >> 8u64) as u8,
        u as u8,
    ];
    assert(b@ =~= i64_be_bytes(x));
    b
}

/// The `i64` whose two's complement big-endian bytes are `b[start..start + 8]`.
pub fn i64_from_be_at(b: &[u8], start: usize) -> (x: i64)
    requires
        start + 8 <= b@.len(),
    ensures
        x == i64_from_be_seq(b@.subrange(start as int, start + 8)),
{
    let u = ((b[start] as u64) << 56u64) | ((b[start + 1] as u64) << 48u64) | ((b[start
        + 2] as u64) << 40u64) | ((b[start + 3] as u64) << 32u64) | ((b[start + 4] as u64)
        << 24u64) | ((b[start + 5] as u64) << 16u64) | ((b[start + 6] as u64) << 8u64) | (b[start
        + 7] as u64);
    u as i64
}

} // verus!
