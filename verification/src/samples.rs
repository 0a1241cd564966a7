//! Audio samples: formats, silence levels, wire encoding and the output buffer filler.

use std::collections::VecDeque;
use vstd::prelude::*;

use crate::bytes::{lemma_u32_be_roundtrip, u32_be_bytes, u32_from_be_seq};
use crate::packet::MAX_PAYLOAD_SIZE;

verus! {

/// The sample formats an audio device may use.
#[derive(Clone, Copy, Debug, PartialEq, Eq, Structural)]
pub enum SampleFormat {
    I8,
    I16,
    I24,
    I32,
    I64,
    U8,
    U16,
    U24,
    U32,
    U64,
    F32,
    F64,
}

/// Messages from the audio input callback to the network side.
#[derive(Clone, Copy, Debug, PartialEq, Eq, PartialOrd, Hash, Structural)]
pub enum InputMessage {
    /// New samples are in the ring buffer.
    Samples,
    /// The network side shall stop.
    Exit,
}

/// Which side of the audio hardware an error concerns.
#[derive(Clone, Copy, Debug, PartialEq, Eq, Structural)]
pub enum DeviceType {
    Input,
    Output,
}

impl DeviceType {
    /// The name shown for the device type.
    pub fn as_str(&self) -> (s: &'static str)
        ensures
            *self == DeviceType::Input ==> s@ == "Input"@,
            *self == DeviceType::Output ==> s@ == "Output"@,
    {
        match self {
            DeviceType::Input => "Input",
            DeviceType::Output => "Output",
        }
    }
}

/// `format` is one a `u32` sample can be in: none given, `U24` or `U32`.
pub open spec fn u32_format_ok(format: Option<SampleFormat>) -> bool {
    match format {
        None => true,
        Some(SampleFormat::U24) | Some(SampleFormat::U32) => true,
        _ => false,
    }
}

/// `format` is one an `i32` sample can be in: none given, `I24` or `I32`.
pub open spec fn i32_format_ok(format: Option<SampleFormat>) -> bool {
    match format {
        None => true,
        Some(SampleFormat::I24) | Some(SampleFormat::I32) => true,
        _ => false,
    }
}

/// The silence level of an unsigned 32-bit sample: `1 << 23` for 24-bit samples, `1 << 31`
/// for 32-bit ones (also where no format is given).
pub fn origin_u32(format: Option<SampleFormat>) -> (o: u32)
    requires
        u32_format_ok(format),
    ensures
        o == (if format == Some(SampleFormat::U24) {
            0x80_0000u32
        } else {
            0x8000_0000u32
        }),
{
    match format {
        Some(SampleFormat::U24) => 0x80_0000,
        _ => 0x8000_0000,
    }
}

/// The silence level of a signed 32-bit sample, 24 or 32 bits wide: zero.
pub fn origin_i32(format: Option<SampleFormat>) -> (o: i32)
    requires
        i32_format_ok(format),
    ensures
        o == 0,
{
    0
}

/// The silence level of an unsigned 8-bit sample.
pub fn origin_u8() -> (o: u8)
    ensures
        o == 128,
{
    0x80
}

/// The silence level of an unsigned 16-bit sample.
pub fn origin_u16() -> (o: u16)
    ensures
        o == 32768,
{
    0x8000
}

/// The silence level of an unsigned 64-bit sample.
pub fn origin_u64() -> (o: u64)
    ensures
        o == 0x8000_0000_0000_0000,
{
    0x8000_0000_0000_0000
}

/// Samples that go into one packet: the payload holds four bytes per sample.
pub const SAMPLES_PER_PACKET: usize = MAX_PAYLOAD_SIZE / 4;

/// Bytes per sample on the wire.
pub const AUDIO_VALUE_BYTE_LEN: usize = 4;

/// The big-endian bytes of the sample words `s`, one after the other.
pub open spec fn words_be(s: Seq<u32>) -> Seq<u8>
    decreases s.len(),
{
    if s.len() == 0 {
        seq![]
    } else {
        words_be(s.drop_last()) + u32_be_bytes(s.last())
    }
}

/// The words read from `b`, four big-endian bytes each.
pub open spec fn words_from_be(b: Seq<u8>) -> Seq<u32> {
    Seq::new(b.len() / 4, |i: int| u32_from_be_seq(b.subrange(4 * i, 4 * i + 4)))
}

/// The samples of packet `k` when samples `s` are split into packets of 124.
pub open spec fn chunk(s: Seq<u32>, k: int) -> Seq<u32> {
    let start = k * 124;
    let end = if start + 124 < s.len() {
        start + 124
    } else {
        s.len() as int
    };
    s.subrange(start, end)
}

/// The number of packets `n` samples take, 124 to a packet.
pub open spec fn packet_count(n: nat) -> nat {
    ((n + 123) / 124) as nat
}

/// `words_be` has four bytes per word, and byte `4 * i + j` is byte `j` of word `i`.
pub proof fn lemma_words_be_index(s: Seq<u32>)
    ensures
        words_be(s).len() == 4 * s.len(),
        forall|i: int| #![trigger s[i]]
            0 <= i < s.len() ==> words_be(s).subrange(4 * i, 4 * i + 4) == u32_be_bytes(s[i]),
    decreases s.len(),
{
    if s.len() > 0 {
        let p = s.drop_last();
        lemma_words_be_index(p);
        let w = words_be(s);
        assert forall|i: int| #![trigger s[i]] 0 <= i < s.len() implies w.subrange(4 * i, 4 * i + 4)
            == u32_be_bytes(s[i]) by {
            if i < p.len() {
                assert(p[i] == s[i]);
                assert(w.subrange(4 * i, 4 * i + 4) =~= words_be(p).subrange(4 * i, 4 * i + 4));
            } else {
                assert(w.subrange(4 * i, 4 * i + 4) =~= u32_be_bytes(s.last()));
            }
        }
    }
}

/// Reading the words back from their bytes gives the words.
pub proof fn lemma_words_roundtrip(s: Seq<u32>)
    ensures
        words_from_be(words_be(s)) == s,
{
    lemma_words_be_index(s);
    let r = words_from_be(words_be(s));
    assert forall|i: int| 0 <= i < s.len() implies r[i] == s[i] by {
        assert(words_be(s).subrange(4 * i, 4 * i + 4) == u32_be_bytes(s[i]));
        lemma_u32_be_roundtrip(s[i]);
    }
    assert(r =~= s);
}

/// Splits sample words into packet payloads of at most [`SAMPLES_PER_PACKET`] words each,
/// every word as four big-endian bytes.
pub fn encode_sample_packets(samples: &[u32]) -> (packets: Vec<Vec<u8>>)
    ensures
        packets@.len() == packet_count(samples@.len()),
        forall|k: int|
            0 <= k < packets@.len() ==> (#[trigger] packets@[k])@ == words_be(
                chunk(samples@, k),
            ),
        flatten(decoded_payloads(packets@)) == samples@,
        forall|k: int|
            0 <= k < packets@.len() ==> {
                &&& (#[trigger] packets@[k])@.len() % 4 == 0
                &&& 0 < packets@[k]@.len() <= MAX_PAYLOAD_SIZE
                &&& k + 1 < packets@.len() ==> packets@[k]@.len() == MAX_PAYLOAD_SIZE
            },
{
    let n = samples.len();
    assert(SAMPLES_PER_PACKET == 124);
    let mut packets: Vec<Vec<u8>> = Vec::new();
    let mut start: usize = 0;
    while start < n
        invariant
            n == samples@.len(),
            start <= n,
            start < n ==> start == packets@.len() * 124,
            packets@.len() == packet_count(start as nat),
            forall|k: int|
                0 <= k < packets@.len() ==> (#[trigger] packets@[k])@ == words_be(
                    chunk(samples@, k),
                ),
        decreases n - start,
    {
        assert(SAMPLES_PER_PACKET == 124);
        let end = if n - start > SAMPLES_PER_PACKET {
            start + SAMPLES_PER_PACKET
        } else {
            n
        };
        let mut bytes: Vec<u8> = Vec::new();
        let mut i: usize = start;
        while i < end
            invariant
                start <= i <= end <= n,
                n == samples@.len(),
                bytes@ == words_be(samples@.subrange(start as int, i as int)),
            decreases end - i,
        {
            let w = samples[i];
            bytes.push((w >> 24u32) as u8);
            bytes.push((w >> 16u32) as u8);
            bytes.push((w >> 8u32) as u8);
            bytes.push(w as u8);
            assert(samples@.subrange(start as int, i + 1).drop_last() =~= samples@.subrange(
                start as int,
                i as int,
            ));
            assert(bytes@ =~= words_be(samples@.subrange(start as int, i + 1)));
            i = i + 1;
        }
        let ghost k = packets@.len() as int;
        assert(chunk(samples@, k) =~= samples@.subrange(start as int, end as int));
        packets.push(bytes);
        assert(packet_count(end as nat) == k + 1) by (nonlinear_arith)
            requires
                start == k * 124,
                end == start + 124 || (end == n && n - start <= 124),
                start < end,
                packet_count(end as nat) == (end + 124 - 1) / 124,
        ;
        start = end;
    }
    proof {
        let c = packets@.len();
        lemma_chunks_cover(samples@);
        assert forall|k: int| 0 <= k < c implies #[trigger] decoded_payloads(packets@)[k]
            == chunks(samples@)[k] by {
            lemma_words_roundtrip(chunk(samples@, k));
        }
        assert(decoded_payloads(packets@) =~= chunks(samples@));
        assert forall|k: int| 0 <= k < c implies {
            &&& (#[trigger] packets@[k])@.len() % 4 == 0
            &&& 0 < packets@[k]@.len() <= MAX_PAYLOAD_SIZE
            &&& k + 1 < packets@.len() ==> packets@[k]@.len() == MAX_PAYLOAD_SIZE
        } by {
            lemma_words_be_index(chunk(samples@, k));
            assert(chunks(samples@)[k] == chunk(samples@, k));
        }
    }
    packets
}

/// The sample words that the payloads `p` decode to, payload by payload.
pub open spec fn decoded_payloads(p: Seq<Vec<u8>>) -> Seq<Seq<u32>> {
    Seq::new(p.len(), |k: int| words_from_be(p[k]@))
}

/// Reads sample words from received bytes, four big-endian bytes each.
pub fn decode_samples(bytes: &[u8]) -> (words: Vec<u32>)
    requires
        bytes@.len() % 4 == 0,
    ensures
        words@ == words_from_be(bytes@),
{
    let mut words: Vec<u32> = Vec::new();
    let mut i: usize = 0;
    while i < bytes.len()
        invariant
            i % 4 == 0,
            i <= bytes@.len(),
            bytes@.len() % 4 == 0,
            words@.len() == i / 4,
            forall|k: int|
                0 <= k < words@.len() ==> #[trigger] words@[k] == u32_from_be_seq(
                    bytes@.subrange(4 * k, 4 * k + 4),
                ),
        decreases bytes@.len() - i,
    {
        let w = crate::bytes::u32_from_be_at(bytes, i);
        words.push(w);
        i = i + AUDIO_VALUE_BYTE_LEN;
    }
    assert(words@ =~= words_from_be(bytes@));
    words
}

/// A packet's samples decode back from its payload, and the payload fits in a packet.
pub proof fn lemma_sample_packet_roundtrip(s: Seq<u32>, k: int)
    requires
        0 <= k < packet_count(s.len()),
    ensures
        words_from_be(words_be(chunk(s, k))) == chunk(s, k),
        words_be(chunk(s, k)).len() <= MAX_PAYLOAD_SIZE,
{
    lemma_words_roundtrip(chunk(s, k));
    lemma_words_be_index(chunk(s, k));
    assert(k * 124 < s.len()) by (nonlinear_arith)
        requires
            0 <= k < (s.len() + 123) / 124,
    ;
    assert(MAX_PAYLOAD_SIZE == 496);
}

/// The samples `s` split into packets of 124, in order.
pub open spec fn chunks(s: Seq<u32>) -> Seq<Seq<u32>> {
    Seq::new(packet_count(s.len()), |k: int| chunk(s, k))
}

/// Splitting samples into packets covers them in order: joined, the packets give the
/// samples back, every packet but the last holds 124 samples, and the last holds the rest
/// (one to 124).
pub proof fn lemma_chunks_cover(s: Seq<u32>)
    ensures
        flatten(chunks(s)) == s,
        forall|k: int|
            0 <= k < chunks(s).len() ==> {
                &&& 0 < (#[trigger] chunks(s)[k]).len() <= 124
                &&& k + 1 < chunks(s).len() ==> chunks(s)[k].len() == 124
                &&& chunks(s)[k] == s.subrange(124 * k, 124 * k + chunks(s)[k].len())
            },
    decreases s.len(),
{
    let n = s.len();
    let c = packet_count(n);
    if n == 0 {
        assert(c == 0);
        assert(chunks(s) =~= Seq::<Seq<u32>>::empty());
    } else if n <= 124 {
        assert(c == 1);
        assert(chunks(s)[0] =~= s);
        assert(chunks(s).drop_first() =~= Seq::<Seq<u32>>::empty());
        assert(flatten(chunks(s).drop_first()) =~= Seq::<u32>::empty());
        assert(flatten(chunks(s)) =~= s);
    } else {
        let t = s.skip(124);
        lemma_chunks_cover(t);
        assert(packet_count(t.len()) == c - 1);
        assert forall|k: int| 0 <= k < c - 1 implies #[trigger] chunks(s).drop_first()[k]
            == chunks(t)[k] by {
            assert(chunk(s, k + 1) =~= chunk(t, k));
        }
        assert(chunks(s).drop_first() =~= chunks(t));
        assert(chunks(s)[0] =~= s.subrange(0, 124));
        assert(flatten(chunks(s)) =~= s.subrange(0, 124) + t);
        assert(s.subrange(0, 124) + t =~= s);
        assert forall|k: int| 0 <= k < c implies {
            &&& 0 < (#[trigger] chunks(s)[k]).len() <= 124
            &&& k + 1 < c ==> chunks(s)[k].len() == 124
            &&& chunks(s)[k] == s.subrange(124 * k, 124 * k + chunks(s)[k].len())
        } by {
            if k > 0 {
                assert(chunks(s)[k] == chunks(t)[k - 1]);
                assert(chunks(s)[k] =~= s.subrange(124 * k, 124 * k + chunks(s)[k].len()));
            }
        }
    }
}

/// The contents of the queued sample chunks.
pub open spec fn chunk_views<T>(q: Seq<Vec<T>>) -> Seq<Seq<T>> {
    q.map_values(|v: Vec<T>| v@)
}

/// Filling `space` free slots from the queued chunks `q`, front first: the samples taken
/// and the chunks left. A chunk longer than the space left gives up its first samples and
/// stays queued with the rest; a chunk that fits is taken whole and leaves the queue.
pub open spec fn fill<T>(q: Seq<Seq<T>>, space: nat) -> (Seq<T>, Seq<Seq<T>>)
    decreases q.len(),
{
    if space == 0 || q.len() == 0 {
        (seq![], q)
    } else if q[0].len() > space {
        (q[0].take(space as int), seq![q[0].skip(space as int)] + q.drop_first())
    } else {
        let r = fill(q.drop_first(), (space - q[0].len()) as nat);
        (q[0] + r.0, r.1)
    }
}

/// The concatenation of the chunks `q`.
pub open spec fn flatten<T>(q: Seq<Seq<T>>) -> Seq<T>
    decreases q.len(),
{
    if q.len() == 0 {
        seq![]
    } else {
        q[0] + flatten(q.drop_first())
    }
}

/// Filling takes the next `min(space, total)` samples in order, and the chunks left hold
/// exactly the samples not taken: none is lost or doubled.
pub proof fn lemma_fill_conserves<T>(q: Seq<Seq<T>>, space: nat)
    ensures
        fill(q, space).0 + flatten(fill(q, space).1) == flatten(q),
        fill(q, space).0.len() == if space < flatten(q).len() {
            space as int
        } else {
            flatten(q).len() as int
        },
    decreases q.len(),
{
    if space == 0 || q.len() == 0 {
        assert(Seq::<T>::empty() + flatten(q) =~= flatten(q));
        if q.len() == 0 {
            assert(flatten(q) =~= Seq::<T>::empty());
        }
    } else if q[0].len() > space {
        let r = seq![q[0].skip(space as int)] + q.drop_first();
        assert(r.drop_first() =~= q.drop_first());
        assert(q[0].take(space as int) + (q[0].skip(space as int) + flatten(q.drop_first()))
            =~= q[0] + flatten(q.drop_first()));
    } else {
        lemma_fill_conserves(q.drop_first(), (space - q[0].len()) as nat);
        let r = fill(q.drop_first(), (space - q[0].len()) as nat);
        assert(q[0] + r.0 + flatten(r.1) =~= q[0] + (r.0 + flatten(r.1)));
    }
}

/// The free slots from `used` up to `len`: none where `used` is already at or past `len`.
pub open spec fn free_space(used: usize, len: usize) -> nat {
    if used < len {
        (len - used) as nat
    } else {
        0
    }
}

/// Fills the free part `buf[*buf_used..buf_len]` of an output buffer from the queued sample
/// chunks, front first (see [`fill`]); `*buf_used` grows by the number of samples copied.
/// The slots from `buf_len` on keep their values.
pub fn try_fill_buf<T: Copy>(
    pending: &mut VecDeque<Vec<T>>,
    buf: &mut [T],
    buf_used: &mut usize,
    buf_len: usize,
)
    requires
        *old(buf_used) < buf_len && old(pending)@.len() > 0 ==> *old(buf_used) + fill(
            chunk_views(old(pending)@),
            (buf_len - *old(buf_used)) as nat,
        ).0.len() <= old(buf)@.len(),
    ensures
        ({
            let (taken, rest) = fill(chunk_views(old(pending)@), free_space(*old(buf_used), buf_len));
            &&& *final(buf_used) == *old(buf_used) + taken.len()
            &&& chunk_views(final(pending)@) == rest
            &&& *old(buf_used) < buf_len && old(pending)@.len() > 0 ==> final(buf)@ == old(
                buf,
            )@.subrange(0, *old(buf_used) as int) + taken + old(buf)@.subrange(
                *final(buf_used) as int,
                old(buf)@.len() as int,
            )
            &&& !(*old(buf_used) < buf_len && old(pending)@.len() > 0) ==> final(buf)@ == old(buf)@
        }),
{
    if *buf_used >= buf_len || pending.len() == 0 {
        return;
    }
    let ghost q0 = chunk_views(pending@);
    let ghost used0 = *buf_used;
    let ghost buf0 = buf@;
    let ghost space0 = (buf_len - used0) as nat;
    let ghost mut taken: Seq<T> = seq![];
    while *buf_used < buf_len
        invariant
            buf@.len() == buf0.len(),
            used0 + fill(q0, space0).0.len() <= buf0.len(),
            used0 <= *buf_used <= buf_len,
            *buf_used == used0 + taken.len(),
            buf@ == buf0.subrange(0, used0 as int) + taken + buf0.subrange(
                *buf_used as int,
                buf0.len() as int,
            ),
            fill(q0, space0) == (taken + fill(
                chunk_views(pending@),
                (buf_len - *buf_used) as nat,
            ).0, fill(chunk_views(pending@), (buf_len - *buf_used) as nat).1),
        ensures
            *buf_used == buf_len || pending@.len() == 0,
        decreases buf_len - *buf_used, pending@.len(),
    {
        if pending.len() == 0 {
            break;
        }
        let space = buf_len - *buf_used;
        let ghost q = chunk_views(pending@);
        let sample_len = pending[0].len();
        let mut front = match pending.pop_front() {
            Some(f) => f,
            None => {
                proof {
                    assert(false);
                }
                break;
            },
        };
        assert(front@ == q[0]);
        assert(chunk_views(pending@) =~= q.drop_first());
        proof {
            let f = fill(q, space as nat);
            assert(f.0.len() >= (if sample_len > space { space } else { sample_len }));
        }
        let used = *buf_used;
        let n = if sample_len > space {
            space
        } else {
            sample_len
        };
        let mut k: usize = 0;
        while k < n
            invariant
                n <= front@.len(),
                used + n <= buf_len,
                used + n <= buf0.len(),
                buf@.len() == buf0.len(),
                used0 <= used,
                k <= n,
                buf@ == buf0.subrange(0, used0 as int) + taken + front@.take(k as int)
                    + buf0.subrange(used + k, buf0.len() as int),
                used == used0 + taken.len(),
            decreases n - k,
        {
            buf[used + k] = front[k];
            assert(front@.take(k + 1) =~= front@.take(k as int).push(front@[k as int]));
            k = k + 1;
            assert(buf@ =~= buf0.subrange(0, used0 as int) + taken + front@.take(k as int)
                + buf0.subrange(used + k, buf0.len() as int));
        }
        proof {
            taken = taken + front@.take(n as int);
            assert(buf@ =~= buf0.subrange(0, used0 as int) + taken + buf0.subrange(
                used + n,
                buf0.len() as int,
            ));
        }
        if sample_len > space {
            let rest = front.split_off(space);
            pending.push_front(rest);
            assert(chunk_views(pending@) =~= seq![q[0].skip(space as int)] + q.drop_first());
            *buf_used = buf_len;
        } else {
            assert(front@.take(n as int) =~= q[0]);
            *buf_used = used + sample_len;
        }
    }
    proof {
        let s = (buf_len - *buf_used) as nat;
        let q = chunk_views(pending@);
        assert(fill(q, s) == (Seq::<T>::empty(), q));
        assert(taken + Seq::<T>::empty() =~= taken);
    }
}

} // verus!
