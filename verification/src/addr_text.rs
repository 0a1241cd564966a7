//! Reading IP addresses and socket addresses from text, as the standard library reads
//! them.

use vstd::prelude::*;

use crate::addr::{IpAddr, SocketAddr};

verus! {

/// `c` is the ASCII code of a decimal digit.
pub open spec fn is_dec_digit(c: u8) -> bool {
    48 <= c <= 57
}

/// The decimal numeral of `n`, without leading zeros (zero is `0`), as ASCII codes.
pub open spec fn dec_text(n: nat) -> Seq<u8>
    decreases n,
{
    if n < 10 {
        seq![(48 + n) as u8]
    } else {
        dec_text(n / 10) + seq![(48 + n % 10) as u8]
    }
}

/// The value of the decimal digits `d`.
pub open spec fn dec_value(d: Seq<u8>) -> nat
    decreases d.len(),
{
    if d.len() == 0 {
        0
    } else {
        dec_value(d.drop_last()) * 10 + (d.last() - 48) as nat
    }
}

/// `d` is a nonempty run of decimal digits.
pub open spec fn all_dec_digits(d: Seq<u8>) -> bool {
    d.len() > 0 && forall|i: int| 0 <= i < d.len() ==> is_dec_digit(#[trigger] d[i])
}

/// `10^k`.
pub open spec fn pow10(k: nat) -> nat
    decreases k,
{
    if k == 0 {
        1
    } else {
        10 * pow10((k - 1) as nat)
    }
}

/// The numerals of the octets `o`, separated by dots.
pub open spec fn dotted_text(o: Seq<u8>) -> Seq<u8>
    decreases o.len(),
{
    if o.len() <= 1 {
        if o.len() == 1 {
            dec_text(o[0] as nat)
        } else {
            seq![]
        }
    } else {
        dec_text(o[0] as nat) + seq![46u8] + dotted_text(o.drop_first())
    }
}

/// The dotted-decimal text of the IPv4 address with octets `o`, e.g. `192.168.0.1`.
pub open spec fn ipv4_text(o: Seq<u8>) -> Seq<u8> {
    dotted_text(o)
}

/// `b[start..end]` is the text of the IPv4 address `o`, and no digit follows it.
pub open spec fn ipv4_at(b: Seq<u8>, start: int, end: int, o: Seq<u8>) -> bool {
    &&& o.len() == 4
    &&& 0 <= start <= end <= b.len()
    &&& b.subrange(start, end) == ipv4_text(o)
    &&& end < b.len() ==> !is_dec_digit(b[end])
}

/// `s` is the text of the IPv4 socket address `o:port`; the port may have leading zeros.
pub open spec fn socket_v4_text(s: Seq<u8>, o: Seq<u8>, port: u16) -> bool {
    exists|e: int|
        ipv4_at(s, 0, e, o) && e < s.len() && s[e] == 58u8 && all_dec_digits(
            s.subrange(e + 1, s.len() as int),
        ) && dec_value(s.subrange(e + 1, s.len() as int)) == port
}

// ---------------------------------------------------------------------------------------
// A deterministic reading of the grammar, used to prove the readers below.

/// Where the run of digits of `b` that starts at `i` ends.
spec fn run_end(b: Seq<u8>, i: int) -> int
    decreases b.len() - i,
{
    if 0 <= i < b.len() && is_dec_digit(b[i]) {
        run_end(b, i + 1)
    } else {
        i
    }
}

/// The octet written at `i` (1 to 3 digits, no leading zero, at most 255), and where it
/// ends.
spec fn octet_at(b: Seq<u8>, i: int) -> Option<(u8, int)> {
    let e = run_end(b, i);
    let d = b.subrange(i, e);
    if d.len() == 0 || d.len() > 3 || (d.len() > 1 && d[0] == 48) || dec_value(d) > 255 {
        None
    } else {
        Some((dec_value(d) as u8, e))
    }
}

/// The octet at `i` followed by a dot: the octet and where the text after the dot starts.
spec fn octet_dot_at(b: Seq<u8>, i: int) -> Option<(u8, int)> {
    match octet_at(b, i) {
        Some((a, e)) => if e < b.len() && b[e] == 46u8 {
            Some((a, e + 1))
        } else {
            None
        },
        None => None,
    }
}

/// The `n` dot-separated octets written at `i` and where they end.
spec fn octets_read(b: Seq<u8>, i: int, n: nat) -> Option<(Seq<u8>, int)>
    decreases n,
{
    if n <= 1 {
        match octet_at(b, i) {
            Some((a, e)) => Some((seq![a], e)),
            None => None,
        }
    } else {
        match octet_dot_at(b, i) {
            Some((a, i1)) => match octets_read(b, i1, (n - 1) as nat) {
                Some((rest, e)) => Some((seq![a] + rest, e)),
                None => None,
            },
            None => None,
        }
    }
}

/// The IPv4 address written at `i` and where it ends.
spec fn ipv4_read(b: Seq<u8>, i: int) -> Option<(Seq<u8>, int)> {
    octets_read(b, i, 4)
}

// ---------------------------------------------------------------------------------------
// Facts about numerals.

/// `k` digits are worth less than `10^k`.
proof fn lemma_dec_value_bound(d: Seq<u8>)
    requires
        forall|i: int| 0 <= i < d.len() ==> is_dec_digit(#[trigger] d[i]),
    ensures
        dec_value(d) < pow10(d.len()),
    decreases d.len(),
{
    if d.len() > 0 {
        let p = d.drop_last();
        assert forall|i: int| 0 <= i < p.len() implies is_dec_digit(#[trigger] p[i]) by {
            assert(p[i] == d[i]);
        }
        lemma_dec_value_bound(p);
        assert(is_dec_digit(d[d.len() - 1]));
        let (v, q) = (dec_value(p) as int, pow10(p.len()) as int);
        assert(v * 10 + 9 < q * 10) by (nonlinear_arith)
            requires
                v < q,
        ;
    }
}

/// The numeral of a number is made of digits, has no leading zero, and reads back as the
/// number.
proof fn lemma_dec_text(n: nat)
    ensures
        all_dec_digits(dec_text(n)),
        dec_value(dec_text(n)) == n,
        n < 10 <==> dec_text(n).len() == 1,
        n < 100 ==> dec_text(n).len() <= 2,
        n < 1000 ==> dec_text(n).len() <= 3,
        dec_text(n).len() > 1 ==> dec_text(n)[0] != 48,
    decreases n,
{
    let t = dec_text(n);
    if n >= 10 {
        lemma_dec_text(n / 10);
        assert(t.drop_last() =~= dec_text(n / 10));
        assert forall|i: int| 0 <= i < t.len() implies is_dec_digit(#[trigger] t[i]) by {
            if i < t.len() - 1 {
                assert(t[i] == dec_text(n / 10)[i]);
            }
        }
        assert(t[0] == dec_text(n / 10)[0]);
        assert(t.last() == (48 + n % 10) as u8);
        assert(dec_value(t) == dec_value(t.drop_last()) * 10 + (t.last() - 48) as nat);
    } else {
        assert(t.drop_last() =~= Seq::<u8>::empty());
        assert(dec_value(t.drop_last()) == 0);
        assert(dec_value(t) == dec_value(t.drop_last()) * 10 + (t.last() - 48) as nat);
    }
}

/// Digits without a leading zero (or a lone `0`) are the numeral of their value.
proof fn lemma_dec_canonical(d: Seq<u8>)
    requires
        all_dec_digits(d),
        d.len() > 1 ==> d[0] != 48,
    ensures
        dec_text(dec_value(d)) == d,
    decreases d.len(),
{
    if d.len() == 1 {
        assert(d.drop_last() =~= Seq::<u8>::empty());
        assert(dec_value(d.drop_last()) == 0);
        assert(is_dec_digit(d[0]));
        assert(dec_value(d) == d[0] - 48);
        assert(dec_text(dec_value(d)) =~= d);
    } else {
        let p = d.drop_last();
        assert(p[0] == d[0]);
        assert forall|i: int| 0 <= i < p.len() implies is_dec_digit(#[trigger] p[i]) by {
            assert(p[i] == d[i]);
        }
        lemma_dec_canonical(p);
        lemma_dec_text_ge10(p);
        let v = dec_value(d);
        assert(is_dec_digit(d[d.len() - 1]));
        assert(v / 10 == dec_value(p) && v % 10 == d.last() - 48);
        assert(dec_text(v) =~= d);
    }
}

/// Digits with a nonzero first digit, two or more of them, are worth at least 1.
proof fn lemma_dec_text_ge10(p: Seq<u8>)
    requires
        all_dec_digits(p),
        p[0] != 48,
    ensures
        dec_value(p) >= 1,
    decreases p.len(),
{
    if p.len() == 1 {
        assert(p.drop_last() =~= Seq::<u8>::empty());
    } else {
        let q = p.drop_last();
        assert(q[0] == p[0]);
        assert forall|i: int| 0 <= i < q.len() implies is_dec_digit(#[trigger] q[i]) by {
            assert(q[i] == p[i]);
        }
        lemma_dec_text_ge10(q);
        assert(is_dec_digit(p[p.len() - 1]));
    }
}

/// A run of digits from `i` that no digit follows ends where the run ends.
proof fn lemma_run_end(b: Seq<u8>, i: int, j: int)
    requires
        0 <= i <= j <= b.len(),
        forall|k: int| i <= k < j ==> is_dec_digit(#[trigger] b[k]),
        j < b.len() ==> !is_dec_digit(b[j]),
    ensures
        run_end(b, i) == j,
    decreases j - i,
{
    if i < j {
        lemma_run_end(b, i + 1, j);
    }
}

/// `run_end` lies at or after `i`, covers digits only, and stops before a non-digit.
proof fn lemma_run_end_props(b: Seq<u8>, i: int)
    requires
        0 <= i <= b.len(),
    ensures
        i <= run_end(b, i) <= b.len(),
        forall|k: int| i <= k < run_end(b, i) ==> is_dec_digit(#[trigger] b[k]),
        run_end(b, i) < b.len() ==> !is_dec_digit(b[run_end(b, i)]),
    decreases b.len() - i,
{
    if i < b.len() && is_dec_digit(b[i]) {
        lemma_run_end_props(b, i + 1);
    }
}

/// An octet read at `i` is the numeral of its value, and no digit follows it.
proof fn lemma_octet_sound(b: Seq<u8>, i: int)
    requires
        0 <= i <= b.len(),
        octet_at(b, i) is Some,
    ensures
        ({
            let (a, e) = octet_at(b, i).unwrap();
            &&& i < e <= b.len()
            &&& b.subrange(i, e) == dec_text(a as nat)
            &&& e < b.len() ==> !is_dec_digit(b[e])
        }),
{
    lemma_run_end_props(b, i);
    let e = run_end(b, i);
    let d = b.subrange(i, e);
    assert forall|k: int| 0 <= k < d.len() implies is_dec_digit(#[trigger] d[k]) by {
        assert(d[k] == b[i + k]);
    }
    lemma_dec_canonical(d);
}

/// The numeral of an octet at `i`, followed by no digit, reads as that octet.
proof fn lemma_octet_complete(b: Seq<u8>, i: int, a: u8)
    requires
        0 <= i,
        i + dec_text(a as nat).len() <= b.len(),
        b.subrange(i, i + dec_text(a as nat).len()) == dec_text(a as nat),
        i + dec_text(a as nat).len() < b.len() ==> !is_dec_digit(
            b[i + dec_text(a as nat).len()],
        ),
    ensures
        octet_at(b, i) == Some((a, i + dec_text(a as nat).len())),
{
    let t = dec_text(a as nat);
    lemma_dec_text(a as nat);
    assert forall|k: int| i <= k < i + t.len() implies is_dec_digit(#[trigger] b[k]) by {
        assert(b[k] == t[k - i]);
    }
    lemma_run_end(b, i, i + t.len());
}

/// `b[i..e]` is the text of the `n` octets `o`, and no digit follows it.
spec fn octets_at(b: Seq<u8>, i: int, e: int, o: Seq<u8>, n: nat) -> bool {
    &&& o.len() == n
    &&& 0 <= i <= e <= b.len()
    &&& b.subrange(i, e) == dotted_text(o)
    &&& e < b.len() ==> !is_dec_digit(b[e])
}

/// Reading `n` octets at `i` finds exactly the texts of `n` octets there.
proof fn lemma_octets_read(b: Seq<u8>, i: int, n: nat)
    requires
        0 <= i <= b.len(),
        n >= 1,
    ensures
        octets_read(b, i, n) matches Some((o, e)) ==> octets_at(b, i, e, o, n),
        forall|o: Seq<u8>, e: int| octets_at(b, i, e, o, n) ==> octets_read(b, i, n) == Some((o, e)),
    decreases n,
{
    if n == 1 {
        if octet_at(b, i) is Some {
            lemma_octet_sound(b, i);
            let (a, e) = octet_at(b, i).unwrap();
            assert(dotted_text(seq![a]) == dec_text(a as nat));
        }
        assert forall|o: Seq<u8>, e: int| octets_at(b, i, e, o, n) implies octets_read(b, i, n)
            == Some((o, e)) by {
            assert(dotted_text(o) == dec_text(o[0] as nat));
            lemma_octet_complete(b, i, o[0]);
            assert(seq![o[0]] =~= o);
        }
    } else {
        if octet_dot_at(b, i) is Some {
            lemma_octet_sound(b, i);
            let (a, i1) = octet_dot_at(b, i).unwrap();
            lemma_octets_read(b, i1, (n - 1) as nat);
            if octets_read(b, i1, (n - 1) as nat) is Some {
                let (rest, e) = octets_read(b, i1, (n - 1) as nat).unwrap();
                let o = seq![a] + rest;
                assert(o.drop_first() =~= rest);
                assert(b.subrange(i, e) =~= b.subrange(i, i1 - 1) + seq![46u8] + b.subrange(i1, e));
            }
        }
        assert forall|o: Seq<u8>, e: int| octets_at(b, i, e, o, n) implies octets_read(b, i, n)
            == Some((o, e)) by {
            let t0 = dec_text(o[0] as nat);
            let rest = o.drop_first();
            let i1 = i + t0.len() + 1;
            let s = b.subrange(i, e);
            assert(s == t0 + seq![46u8] + dotted_text(rest));
            assert(b.subrange(i, i + t0.len()) =~= t0) by {
                assert forall|k: int| 0 <= k < t0.len() implies b[i + k] == t0[k] by {
                    assert(s[k] == b[i + k]);
                }
            }
            assert(b[i + t0.len()] == 46u8) by {
                assert(s[t0.len() as int] == b[i + t0.len()]);
            }
            lemma_octet_complete(b, i, o[0]);
            assert(b.subrange(i1, e) =~= dotted_text(rest)) by {
                assert forall|k: int| 0 <= k < e - i1 implies b.subrange(i1, e)[k] == dotted_text(
                    rest,
                )[k] by {
                    assert(s[t0.len() + 1 + k] == b[i1 + k]);
                }
            }
            lemma_octets_read(b, i1, (n - 1) as nat);
            assert(octets_at(b, i1, e, rest, (n - 1) as nat));
            assert(seq![o[0]] + rest =~= o);
        }
    }
}

/// The reading of an IPv4 address at `start` finds exactly the texts described by
/// `ipv4_at`.
proof fn lemma_ipv4_read(b: Seq<u8>, start: int)
    requires
        0 <= start <= b.len(),
    ensures
        ipv4_read(b, start) matches Some((o, e)) ==> ipv4_at(b, start, e, o),
        forall|o: Seq<u8>, e: int| ipv4_at(b, start, e, o) ==> ipv4_read(b, start) == Some((o, e)),
{
    lemma_octets_read(b, start, 4);
    assert forall|o: Seq<u8>, e: int| ipv4_at(b, start, e, o) implies ipv4_read(b, start) == Some(
        (o, e),
    ) by {
        assert(octets_at(b, start, e, o, 4));
    }
}

/// A run of digits from `i` to `j` ends at or after `j`.
proof fn lemma_run_end_ge(b: Seq<u8>, i: int, j: int)
    requires
        0 <= i <= j <= b.len(),
        forall|k: int| i <= k < j ==> is_dec_digit(#[trigger] b[k]),
    ensures
        run_end(b, i) >= j,
    decreases j - i,
{
    lemma_run_end_props(b, i);
    if i < j {
        lemma_run_end_ge(b, i + 1, j);
    }
}

/// A longer run of digits is worth at least as much as its prefix.
proof fn lemma_dec_value_prefix(d: Seq<u8>, k: int)
    requires
        0 <= k <= d.len(),
        forall|i: int| 0 <= i < d.len() ==> is_dec_digit(#[trigger] d[i]),
    ensures
        dec_value(d.subrange(0, k)) <= dec_value(d),
    decreases d.len() - k,
{
    if k < d.len() {
        let p = d.drop_last();
        assert forall|i: int| 0 <= i < p.len() implies is_dec_digit(#[trigger] p[i]) by {
            assert(p[i] == d[i]);
        }
        lemma_dec_value_prefix(p, k);
        assert(p.subrange(0, k) =~= d.subrange(0, k));
        assert(is_dec_digit(d[d.len() - 1]));
    } else {
        assert(d.subrange(0, k) =~= d);
    }
}

/// Reads the octet written at `i`.
fn read_octet(b: &[u8], i: usize) -> (r: Option<(u8, usize)>)
    requires
        i <= b@.len(),
    ensures
        r matches Some((a, e)) ==> octet_at(b@, i as int) == Some((a, e as int)),
        r is None ==> octet_at(b@, i as int) is None,
{
    let mut j = i;
    let mut v: u32 = 0;
    while j < b.len() && j - i < 4
        invariant
            i <= j <= b@.len(),
            j - i <= 4,
            forall|k: int| i <= k < j ==> is_dec_digit(#[trigger] b@[k]),
            v == dec_value(b@.subrange(i as int, j as int)),
            v < 10000,
        ensures
            i <= j <= b@.len(),
            j - i <= 4,
            forall|k: int| i <= k < j ==> is_dec_digit(#[trigger] b@[k]),
            v == dec_value(b@.subrange(i as int, j as int)),
            j - i < 4 ==> (j < b@.len() ==> !is_dec_digit(b@[j as int])),
        decreases b@.len() - j,
    {
        let c = b[j];
        if c < 48 || c > 57 {
            break;
        }
        proof {
            assert(b@.subrange(i as int, j + 1).drop_last() =~= b@.subrange(i as int, j as int));
            lemma_dec_value_bound(b@.subrange(i as int, j + 1));
            reveal_with_fuel(pow10, 5);
        }
        v = v * 10 + (c - 48) as u32;
        j = j + 1;
    }
    proof {
        lemma_run_end_props(b@, i as int);
        if j - i < 4 {
            lemma_run_end(b@, i as int, j as int);
        } else {
            lemma_run_end_ge(b@, i as int, j as int);
        }
    }
    if j == i || j - i == 4 {
        return None;
    }
    if j - i > 1 && b[i] == 48 {
        return None;
    }
    if v > 255 {
        return None;
    }
    Some((v as u8, j))
}

/// Reads the octet written at `i` and the dot after it.
fn read_octet_dot(b: &[u8], i: usize) -> (r: Option<(u8, usize)>)
    requires
        i <= b@.len(),
    ensures
        r matches Some((a, e)) ==> octet_dot_at(b@, i as int) == Some((a, e as int)),
        r is None ==> octet_dot_at(b@, i as int) is None,
        r matches Some((_, e)) ==> e <= b@.len(),
{
    match read_octet(b, i) {
        Some((a, e)) => {
            proof {
                lemma_octet_sound(b@, i as int);
            }
            if e < b.len() && b[e] == 46 {
                Some((a, e + 1))
            } else {
                None
            }
        },
        None => None,
    }
}

/// Reads the IPv4 address written at `i`, and where it ends.
fn read_ipv4(b: &[u8], i: usize) -> (r: Option<([u8; 4], usize)>)
    requires
        i <= b@.len(),
    ensures
        r matches Some((o, e)) ==> ipv4_read(b@, i as int) == Some((o@, e as int)),
        r is None ==> ipv4_read(b@, i as int) is None,
{
    let (a0, i1) = match read_octet_dot(b, i) {
        Some(x) => x,
        None => return None,
    };
    let (a1, i2) = match read_octet_dot(b, i1) {
        Some(x) => x,
        None => return None,
    };
    let (a2, i3) = match read_octet_dot(b, i2) {
        Some(x) => x,
        None => return None,
    };
    let (a3, e) = match read_octet(b, i3) {
        Some(x) => x,
        None => return None,
    };
    let o = [a0, a1, a2, a3];
    proof {
        assert(octets_read(b@, i3 as int, 1) == Some((seq![a3], e as int)));
        assert(octets_read(b@, i2 as int, 2) == Some((seq![a2] + seq![a3], e as int)));
        assert(octets_read(b@, i1 as int, 3) == Some((seq![a1] + (seq![a2] + seq![a3]), e as int)));
        assert(o@ =~= seq![a0] + (seq![a1] + (seq![a2] + seq![a3])));
    }
    Some((o, e))
}

/// Reads the text of an IPv4 address, e.g. `192.168.0.1`.
pub fn parse_ipv4(b: &[u8]) -> (r: Option<[u8; 4]>)
    ensures
        r matches Some(o) ==> b@ == ipv4_text(o@),
        r is None ==> forall|o: Seq<u8>| o.len() == 4 ==> b@ != ipv4_text(o),
{
    proof {
        lemma_ipv4_read(b@, 0);
        assert(b@.subrange(0, b@.len() as int) =~= b@);
    }
    match read_ipv4(b, 0) {
        Some((o, e)) => {
            if e == b.len() {
                Some(o)
            } else {
                proof {
                    assert forall|o2: Seq<u8>| o2.len() == 4 implies b@ != ipv4_text(o2) by {
                        if b@ == ipv4_text(o2) {
                            assert(ipv4_at(b@, 0, b@.len() as int, o2));
                        }
                    }
                }
                None
            }
        },
        None => {
            proof {
                assert forall|o2: Seq<u8>| o2.len() == 4 implies b@ != ipv4_text(o2) by {
                    if b@ == ipv4_text(o2) {
                        assert(ipv4_at(b@, 0, b@.len() as int, o2));
                    }
                }
            }
            None
        },
    }
}

/// Reads the decimal port written from `i` to the end: digits only, at least one, worth at
/// most 65535.
fn read_port(b: &[u8], i: usize) -> (r: Option<u16>)
    requires
        i <= b@.len(),
    ensures
        r matches Some(p) ==> all_dec_digits(b@.subrange(i as int, b@.len() as int)) && dec_value(
            b@.subrange(i as int, b@.len() as int),
        ) == p,
        r is None ==> !(all_dec_digits(b@.subrange(i as int, b@.len() as int)) && dec_value(
            b@.subrange(i as int, b@.len() as int),
        ) <= 65535),
{
    if i == b.len() {
        return None;
    }
    let mut j = i;
    let mut v: u32 = 0;
    while j < b.len()
        invariant
            i <= j <= b@.len(),
            forall|k: int| i <= k < j ==> is_dec_digit(#[trigger] b@[k]),
            v == dec_value(b@.subrange(i as int, j as int)),
            v <= 65535,
        decreases b@.len() - j,
    {
        let c = b[j];
        let ghost rest = b@.subrange(i as int, b@.len() as int);
        if c < 48 || c > 57 {
            proof {
                assert(rest[j - i] == c);
            }
            return None;
        }
        proof {
            assert(b@.subrange(i as int, j + 1).drop_last() =~= b@.subrange(i as int, j as int));
        }
        v = v * 10 + (c - 48) as u32;
        j = j + 1;
        if v > 65535 {
            proof {
                if all_dec_digits(rest) {
                    lemma_dec_value_prefix(rest, j - i);
                    assert(rest.subrange(0, j - i) =~= b@.subrange(i as int, j as int));
                }
            }
            return None;
        }
    }
    proof {
        let rest = b@.subrange(i as int, b@.len() as int);
        assert(rest =~= b@.subrange(i as int, j as int));
        assert forall|k: int| 0 <= k < rest.len() implies is_dec_digit(#[trigger] rest[k]) by {
            assert(rest[k] == b@[i + k]);
        }
    }
    Some(v as u16)
}

/// Reads the text of an IPv4 socket address, e.g. `192.168.0.1:22000`.
pub fn parse_socket_v4(b: &[u8]) -> (r: Option<([u8; 4], u16)>)
    ensures
        r matches Some((o, p)) ==> socket_v4_text(b@, o@, p),
        r is None ==> forall|o: Seq<u8>, p: u16| !socket_v4_text(b@, o, p),
{
    proof {
        lemma_ipv4_read(b@, 0);
    }
    let (o, e) = match read_ipv4(b, 0) {
        Some(x) => x,
        None => {
            proof {
                assert forall|o: Seq<u8>, p: u16| !socket_v4_text(b@, o, p) by {
                    if socket_v4_text(b@, o, p) {
                        let e2 = choose|e2: int|
                            ipv4_at(b@, 0, e2, o) && e2 < b@.len() && b@[e2] == 58u8 && all_dec_digits(
                                b@.subrange(e2 + 1, b@.len() as int),
                            ) && dec_value(b@.subrange(e2 + 1, b@.len() as int)) == p;
                        assert(ipv4_at(b@, 0, e2, o));
                    }
                }
            }
            return None;
        },
    };
    proof {
        assert forall|o2: Seq<u8>, e2: int| ipv4_at(b@, 0, e2, o2) implies o2 == o@ && e2 == e by {}
    }
    if e < b.len() && b[e] == 58 {
        match read_port(b, e + 1) {
            Some(p) => {
                assert(socket_v4_text(b@, o@, p));
                Some((o, p))
            },
            None => None,
        }
    } else {
        None
    }
}

// ---------------------------------------------------------------------------------------
// IPv6 addresses.

/// `c` is the ASCII code of a hexadecimal digit, in either case.
pub open spec fn is_hex_char(c: u8) -> bool {
    is_dec_digit(c) || (97 <= c <= 102) || (65 <= c <= 70)
}

/// The value of the hexadecimal digit with ASCII code `c`.
pub open spec fn hex_char_value(c: u8) -> nat {
    if is_dec_digit(c) {
        (c - 48) as nat
    } else if 97 <= c {
        (c - 87) as nat
    } else {
        (c - 55) as nat
    }
}

/// The value of the hexadecimal digits `d`.
pub open spec fn hex_digits_value(d: Seq<u8>) -> nat
    decreases d.len(),
{
    if d.len() == 0 {
        0
    } else {
        hex_digits_value(d.drop_last()) * 16 + hex_char_value(d.last())
    }
}

/// `g` is the text of one 16-bit group of an IPv6 address: one to four hex digits.
pub open spec fn is_group_text(g: Seq<u8>) -> bool {
    1 <= g.len() <= 4 && forall|i: int| 0 <= i < g.len() ==> is_hex_char(#[trigger] g[i])
}

/// The texts `gs` joined by colons.
pub open spec fn colon_join(gs: Seq<Seq<u8>>) -> Seq<u8>
    decreases gs.len(),
{
    if gs.len() == 0 {
        seq![]
    } else if gs.len() == 1 {
        gs[0]
    } else {
        gs[0] + seq![58u8] + colon_join(gs.drop_first())
    }
}

/// Groups written `gs`, then, where `v4` is given, an embedded IPv4 address, all joined by
/// colons.
pub open spec fn groups_part_text(gs: Seq<Seq<u8>>, v4: Option<Seq<u8>>) -> Seq<u8> {
    match v4 {
        None => colon_join(gs),
        Some(o) => if gs.len() == 0 {
            ipv4_text(o)
        } else {
            colon_join(gs) + seq![58u8] + ipv4_text(o)
        },
    }
}

/// Every text of `gs` is a group's, and `v4` has four octets.
pub open spec fn groups_part_ok(gs: Seq<Seq<u8>>, v4: Option<Seq<u8>>) -> bool {
    &&& forall|i: int| 0 <= i < gs.len() ==> is_group_text(#[trigger] gs[i])
    &&& v4 matches Some(o) ==> o.len() == 4
}

/// The two 16-bit groups of an embedded IPv4 address.
pub open spec fn v4_groups(o: Seq<u8>) -> Seq<nat> {
    seq![(o[0] * 256 + o[1]) as nat, (o[2] * 256 + o[3]) as nat]
}

/// The 16-bit groups that `gs` and `v4` write.
pub open spec fn groups_part_values(gs: Seq<Seq<u8>>, v4: Option<Seq<u8>>) -> Seq<nat> {
    gs.map_values(|g: Seq<u8>| hex_digits_value(g)) + match v4 {
        None => Seq::<nat>::empty(),
        Some(o) => v4_groups(o),
    }
}

/// `n` zero groups.
pub open spec fn zero_groups(n: nat) -> Seq<nat> {
    Seq::new(n, |i: int| 0nat)
}

/// The 16 octets of eight 16-bit groups, each group big-endian.
pub open spec fn groups_octets(v: Seq<nat>) -> Seq<u8> {
    Seq::new(16, |i: int| if i % 2 == 0 { (v[i / 2] / 256) as u8 } else { (v[i / 2] % 256) as u8 })
}

/// `s` is a text of the IPv6 address with the eight 16-bit groups `v`: all eight groups
/// (the last two possibly written as an IPv4 address), or the groups before and after a
/// `::` that stands for one or more zero groups (an IPv4 address only after it). Groups
/// have one to four hex digits, in either case.
pub open spec fn ipv6_text(s: Seq<u8>, v: Seq<nat>) -> bool {
    ||| exists|gs: Seq<Seq<u8>>, v4: Option<Seq<u8>>|
        {
            &&& groups_part_ok(gs, v4)
            &&& s == groups_part_text(gs, v4)
            &&& v == groups_part_values(gs, v4)
            &&& v.len() == 8
        }
    ||| exists|hs: Seq<Seq<u8>>, ts: Seq<Seq<u8>>, v4: Option<Seq<u8>>|
        {
            &&& groups_part_ok(hs, None)
            &&& groups_part_ok(ts, v4)
            &&& hs.len() + groups_part_values(ts, v4).len() <= 7
            &&& s == colon_join(hs) + seq![58u8, 58u8] + groups_part_text(ts, v4)
            &&& v == groups_part_values(hs, None) + zero_groups(
                (8 - hs.len() - groups_part_values(ts, v4).len()) as nat,
            ) + groups_part_values(ts, v4)
        }
}

/// `s` is a text of the IPv6 address with octets `a`.
pub open spec fn ipv6_addr_text(s: Seq<u8>, a: Seq<u8>) -> bool {
    exists|v: Seq<nat>| ipv6_text(s, v) && groups_octets(v) == a
}

// A deterministic reading of the IPv6 grammar.

/// Where the run of hex digits of `b` that starts at `i` ends.
spec fn hex_run_end(b: Seq<u8>, i: int) -> int
    decreases b.len() - i,
{
    if 0 <= i < b.len() && is_hex_char(b[i]) {
        hex_run_end(b, i + 1)
    } else {
        i
    }
}

/// The group written at `i` (one to four hex digits) and where it ends.
spec fn group_at(b: Seq<u8>, i: int) -> Option<(nat, int)> {
    let e = hex_run_end(b, i);
    if e == i || e - i > 4 {
        None
    } else {
        Some((hex_digits_value(b.subrange(i, e)), e))
    }
}

/// The colon-separated groups read from `i` once `n` of at most `limit` groups are read:
/// at each place an IPv4 address is tried first, where two groups are left, then a group.
/// Gives the groups, where the reading stopped, and whether it ended with an IPv4 address.
spec fn groups_read(b: Seq<u8>, i: int, n: nat, limit: nat) -> (Seq<nat>, int, bool)
    decreases limit - n,
{
    if n >= limit {
        (seq![], i, false)
    } else if n > 0 && !(0 <= i < b.len() && b[i] == 58u8) {
        (seq![], i, false)
    } else {
        let p = if n > 0 {
            i + 1
        } else {
            i
        };
        if n + 1 < limit && ipv4_read(b, p) is Some {
            (v4_groups(ipv4_read(b, p).unwrap().0), ipv4_read(b, p).unwrap().1, true)
        } else {
            match group_at(b, p) {
                Some((g, e)) => {
                    let (rest, e2, f) = groups_read(b, e, n + 1, limit);
                    (seq![g] + rest, e2, f)
                },
                None => (seq![], i, false),
            }
        }
    }
}

/// The IPv6 address read at `i`: its groups and where it ends.
spec fn ipv6_read(b: Seq<u8>, i: int) -> Option<(Seq<nat>, int)> {
    let (head, e1, f1) = groups_read(b, i, 0, 8);
    if head.len() == 8 {
        Some((head, e1))
    } else if f1 {
        None
    } else if 0 <= e1 && e1 + 2 <= b.len() && b[e1] == 58u8 && b[e1 + 1] == 58u8 {
        let (tail, e2, f2) = groups_read(b, e1 + 2, 0, (7 - head.len()) as nat);
        Some((head + zero_groups((8 - head.len() - tail.len()) as nat) + tail, e2))
    } else {
        None
    }
}

/// A run of hex digits from `i` that no hex digit follows ends where the run ends.
proof fn lemma_hex_run_end(b: Seq<u8>, i: int, j: int)
    requires
        0 <= i <= j <= b.len(),
        forall|k: int| i <= k < j ==> is_hex_char(#[trigger] b[k]),
        j < b.len() ==> !is_hex_char(b[j]),
    ensures
        hex_run_end(b, i) == j,
    decreases j - i,
{
    if i < j {
        lemma_hex_run_end(b, i + 1, j);
    }
}

/// `hex_run_end` lies at or after `i`, covers hex digits only, and stops before another.
proof fn lemma_hex_run_end_props(b: Seq<u8>, i: int)
    requires
        0 <= i <= b.len(),
    ensures
        i <= hex_run_end(b, i) <= b.len(),
        forall|k: int| i <= k < hex_run_end(b, i) ==> is_hex_char(#[trigger] b[k]),
        hex_run_end(b, i) < b.len() ==> !is_hex_char(b[hex_run_end(b, i)]),
    decreases b.len() - i,
{
    if i < b.len() && is_hex_char(b[i]) {
        lemma_hex_run_end_props(b, i + 1);
    }
}

/// A run of decimal digits ends no later than the run of hex digits from the same place.
proof fn lemma_run_end_le_hex(b: Seq<u8>, i: int)
    requires
        0 <= i <= b.len(),
    ensures
        run_end(b, i) <= hex_run_end(b, i),
    decreases b.len() - i,
{
    if i < b.len() && is_dec_digit(b[i]) {
        lemma_run_end_le_hex(b, i + 1);
        assert(is_hex_char(b[i]));
    } else {
        lemma_hex_run_end_props(b, i);
    }
}

/// No IPv4 address can be read where a group is written that no dot follows.
proof fn lemma_ipv4_fails_on_group(b: Seq<u8>, p: int, q: int)
    requires
        0 <= p <= q <= b.len(),
        forall|k: int| p <= k < q ==> is_hex_char(#[trigger] b[k]),
        q < b.len() ==> !is_hex_char(b[q]) && b[q] != 46u8,
    ensures
        ipv4_read(b, p) is None,
{
    lemma_hex_run_end(b, p, q);
    lemma_run_end_le_hex(b, p);
    lemma_run_end_props(b, p);
    let e = run_end(b, p);
    if e < q {
        assert(is_hex_char(b[e]));
        assert(!is_dec_digit(b[e]));
    }
    assert(octet_dot_at(b, p) is None);
}

/// A group or an IPv4 address and what follows it.
proof fn lemma_part_text_first(gs: Seq<Seq<u8>>, v4: Option<Seq<u8>>)
    requires
        gs.len() > 0,
    ensures
        groups_part_text(gs, v4) == gs[0] + (if gs.len() > 1 || v4 is Some {
            seq![58u8] + groups_part_text(gs.drop_first(), v4)
        } else {
            Seq::<u8>::empty()
        }),
        groups_part_values(gs, v4) == seq![hex_digits_value(gs[0])] + groups_part_values(
            gs.drop_first(),
            v4,
        ),
{
    let rest = gs.drop_first();
    if gs.len() > 1 {
        assert(colon_join(gs) == gs[0] + seq![58u8] + colon_join(rest));
        assert(rest.len() > 0);
        match v4 {
            Some(o) => {
                assert(groups_part_text(gs, v4) =~= gs[0] + (seq![58u8] + groups_part_text(rest, v4)));
            },
            None => {
                assert(groups_part_text(gs, v4) =~= gs[0] + (seq![58u8] + groups_part_text(rest, v4)));
            },
        }
    } else {
        assert(colon_join(gs) == gs[0]);
        assert(rest =~= Seq::<Seq<u8>>::empty());
        match v4 {
            Some(o) => {
                assert(groups_part_text(gs, v4) =~= gs[0] + (seq![58u8] + groups_part_text(rest, v4)));
            },
            None => {
                assert(groups_part_text(gs, v4) =~= gs[0] + Seq::<u8>::empty());
            },
        }
    }
    let f = |g: Seq<u8>| hex_digits_value(g);
    assert(gs.map_values(f) =~= seq![hex_digits_value(gs[0])] + rest.map_values(f));
    assert(groups_part_values(gs, v4) =~= seq![hex_digits_value(gs[0])] + groups_part_values(rest, v4));
}

/// Reading groups stops at `e`: the text ends there, or nothing that follows continues a
/// group, an IPv4 address or the list of groups.
spec fn groups_stop(b: Seq<u8>, e: int) -> bool {
    e == b.len() || (!is_hex_char(b[e]) && b[e] != 46u8 && (b[e] == 58u8 ==> (e + 1 == b.len()
        || !is_hex_char(b[e + 1]))))
}

/// The text at `i`: a colon first where `n` groups were read before and the part is not
/// empty, then the part.
spec fn part_at(n: nat, gs: Seq<Seq<u8>>, v4: Option<Seq<u8>>) -> Seq<u8> {
    if n > 0 && (gs.len() > 0 || v4 is Some) {
        seq![58u8] + groups_part_text(gs, v4)
    } else {
        groups_part_text(gs, v4)
    }
}

/// Reading groups where a part is written finds that part's groups and stops at its end.
proof fn lemma_groups_complete(
    b: Seq<u8>,
    i: int,
    n: nat,
    limit: nat,
    gs: Seq<Seq<u8>>,
    v4: Option<Seq<u8>>,
    e: int,
)
    requires
        0 <= i <= e <= b.len(),
        groups_part_ok(gs, v4),
        n + groups_part_values(gs, v4).len() <= limit,
        b.subrange(i, e) == part_at(n, gs, v4),
        e < b.len() ==> !is_hex_char(b[e]),
        n + groups_part_values(gs, v4).len() < limit ==> groups_stop(b, e),
    ensures
        groups_read(b, i, n, limit) == (groups_part_values(gs, v4), e, v4 is Some),
    decreases gs.len(),
{
    let p = if n > 0 {
        i + 1
    } else {
        i
    };
    if gs.len() == 0 {
        match v4 {
            None => {
                assert(groups_part_values(gs, v4) =~= Seq::<nat>::empty());
                assert(e == i);
                if n < limit {
                    if n > 0 && 0 <= i < b.len() && b[i] == 58u8 {
                        lemma_run_end_props(b, i + 1);
                        lemma_hex_run_end_props(b, i + 1);
                        if i + 1 < b.len() {
                            assert(!is_hex_char(b[i + 1]));
                        }
                        assert(octet_dot_at(b, i + 1) is None);
                        assert(ipv4_read(b, p) is None);
                        assert(group_at(b, p) is None);
                    } else if n == 0 {
                        lemma_run_end_props(b, i);
                        lemma_hex_run_end_props(b, i);
                        assert(octet_dot_at(b, i) is None);
                        assert(ipv4_read(b, p) is None);
                        assert(group_at(b, p) is None);
                    }
                }
            },
            Some(o) => {
                assert(groups_part_values(gs, v4) =~= v4_groups(o));
                let x = ipv4_text(o);
                assert(groups_part_text(gs, v4) == x);
                if n > 0 {
                    let w = b.subrange(i, e);
                    assert(w == seq![58u8] + x);
                    assert(w[0] == b[i]);
                    assert(b.subrange(p, e) =~= w.subrange(1, w.len() as int));
                    assert(w.subrange(1, w.len() as int) =~= x);
                } else {
                    assert(b.subrange(p, e) == x);
                }
                lemma_ipv4_read(b, p);
                assert(ipv4_at(b, p, e, o));
            },
        }
    } else {
        let g = gs[0];
        let rest = gs.drop_first();
        lemma_part_text_first(gs, v4);
        let q = p + g.len();
        let more = gs.len() > 1 || v4 is Some;
        let t = part_at(n, gs, v4);
        assert(t.len() == e - i);
        if n > 0 {
            assert(b[i] == 58u8) by {
                assert(b.subrange(i, e)[0] == t[0]);
            }
        }
        assert(q <= e);
        assert forall|k: int| p <= k < q implies is_hex_char(#[trigger] b[k]) && b[k] == g[k - p] by {
            assert(b.subrange(i, e)[k - i] == b[k]);
            assert(is_group_text(gs[0]));
            assert(is_hex_char(g[k - p]));
        }
        assert(b.subrange(p, q) =~= g);
        if more {
            assert(q < e);
            assert(b[q] == 58u8) by {
                assert(b.subrange(i, e)[q - i] == b[q]);
            }
        } else {
            assert(q == e);
        }
        let cnt = groups_part_values(gs, v4).len();
        assert(cnt == 1 + groups_part_values(rest, v4).len());
        if n + 1 < limit {
            lemma_ipv4_fails_on_group(b, p, q);
        }
        lemma_hex_run_end(b, p, q);
        assert(group_at(b, p) == Some((hex_digits_value(g), q)));
        assert(b.subrange(q, e) =~= part_at(n + 1, rest, v4)) by {
            if more {
                assert forall|k: int| 0 <= k < e - q implies b.subrange(q, e)[k] == part_at(
                    n + 1,
                    rest,
                    v4,
                )[k] by {
                    assert(b.subrange(i, e)[q - i + k] == b[q + k]);
                }
            } else {
                assert(rest.len() == 0);
            }
        }
        assert(groups_part_ok(rest, v4)) by {
            assert forall|k: int| 0 <= k < rest.len() implies is_group_text(#[trigger] rest[k]) by {
                assert(rest[k] == gs[k + 1]);
            }
        }
        lemma_groups_complete(b, q, n + 1, limit, rest, v4, e);
    }
}

/// What reading groups finds is a part written there: the returned group texts and
/// IPv4 address.
proof fn lemma_groups_sound(b: Seq<u8>, i: int, n: nat, limit: nat) -> (w: (
    Seq<Seq<u8>>,
    Option<Seq<u8>>,
))
    requires
        0 <= i <= b.len(),
        n <= limit,
    ensures
        ({
            let (vals, e, f) = groups_read(b, i, n, limit);
            &&& i <= e <= b.len()
            &&& groups_part_ok(w.0, w.1)
            &&& vals == groups_part_values(w.0, w.1)
            &&& f == (w.1 is Some)
            &&& b.subrange(i, e) == part_at(n, w.0, w.1)
            &&& n + vals.len() <= limit
        }),
    decreases limit - n,
{
    let none = (Seq::<Seq<u8>>::empty(), None::<Seq<u8>>);
    assert(groups_part_values(none.0, none.1) =~= Seq::<nat>::empty());
    assert(b.subrange(i, i) =~= part_at(n, none.0, none.1));
    if n >= limit {
        return none;
    }
    if n > 0 && !(0 <= i < b.len() && b[i] == 58u8) {
        return none;
    }
    let p = if n > 0 {
        i + 1
    } else {
        i
    };
    if n + 1 < limit && ipv4_read(b, p) is Some {
        lemma_ipv4_read(b, p);
        let (o, e) = ipv4_read(b, p).unwrap();
        assert(ipv4_at(b, p, e, o));
        let w = (Seq::<Seq<u8>>::empty(), Some(o));
        assert(groups_part_values(w.0, w.1) =~= v4_groups(o));
        assert(b.subrange(i, e) =~= part_at(n, w.0, w.1)) by {
            if n > 0 {
                assert(b.subrange(i, e) =~= seq![58u8] + b.subrange(p, e));
            }
        }
        return w;
    }
    match group_at(b, p) {
        Some((g, e)) => {
            lemma_hex_run_end_props(b, p);
            let gt = b.subrange(p, e);
            assert(is_group_text(gt));
            let w2 = lemma_groups_sound(b, e, n + 1, limit);
            let gs = seq![gt] + w2.0;
            assert(gs.drop_first() =~= w2.0);
            assert(gs[0] == gt);
            lemma_part_text_first(gs, w2.1);
            assert(groups_part_ok(gs, w2.1)) by {
                assert forall|k: int| 0 <= k < gs.len() implies is_group_text(#[trigger] gs[k]) by {
                    if k > 0 {
                        assert(gs[k] == w2.0[k - 1]);
                    }
                }
            }
            let (rest, e2, f) = groups_read(b, e, n + 1, limit);
            assert(b.subrange(p, e2) =~= gt + b.subrange(e, e2));
            assert(b.subrange(p, e2) =~= groups_part_text(gs, w2.1));
            if n > 0 {
                assert(b.subrange(i, e2) =~= seq![58u8] + b.subrange(p, e2));
            }
            (gs, w2.1)
        },
        None => none,
    }
}

/// The reading of an IPv6 address at `i` finds a text of it.
proof fn lemma_ipv6_sound(b: Seq<u8>, i: int)
    requires
        0 <= i <= b.len(),
        ipv6_read(b, i) is Some,
    ensures
        ({
            let (v, e) = ipv6_read(b, i).unwrap();
            &&& i <= e <= b.len()
            &&& v.len() == 8
            &&& ipv6_text(b.subrange(i, e), v)
        }),
{
    let (head, e1, f1) = groups_read(b, i, 0, 8);
    let wh = lemma_groups_sound(b, i, 0, 8);
    if head.len() == 8 {
        assert(b.subrange(i, e1) == groups_part_text(wh.0, wh.1));
    } else {
        let limit = (7 - head.len()) as nat;
        let (tail, e2, f2) = groups_read(b, e1 + 2, 0, limit);
        let wt = lemma_groups_sound(b, e1 + 2, 0, limit);
        let hs = wh.0;
        let ts = wt.0;
        let v4 = wt.1;
        assert(wh.1 is None);
        assert(head == groups_part_values(hs, None));
        assert(head.len() == hs.len());
        let v = head + zero_groups((8 - head.len() - tail.len()) as nat) + tail;
        assert(b.subrange(i, e2) =~= b.subrange(i, e1) + seq![58u8, 58u8] + b.subrange(
            e1 + 2,
            e2,
        ));
        assert(b.subrange(i, e1) == colon_join(hs));
        assert(b.subrange(e1 + 2, e2) == groups_part_text(ts, v4));
        assert(groups_part_ok(hs, None));
        assert(ipv6_text(b.subrange(i, e2), v));
    }
}

/// The reading of an IPv6 address at `i` finds every text of one that nothing continues.
proof fn lemma_ipv6_complete(b: Seq<u8>, i: int, e: int, v: Seq<nat>)
    requires
        0 <= i <= e <= b.len(),
        ipv6_text(b.subrange(i, e), v),
        e < b.len() ==> !is_hex_char(b[e]) && b[e] != 46u8 && b[e] != 58u8,
    ensures
        ipv6_read(b, i) == Some((v, e)),
{
    let s = b.subrange(i, e);
    if exists|gs: Seq<Seq<u8>>, v4: Option<Seq<u8>>|
        {
            &&& groups_part_ok(gs, v4)
            &&& s == groups_part_text(gs, v4)
            &&& v == groups_part_values(gs, v4)
            &&& v.len() == 8
        } {
        let (gs, v4) = choose|gs: Seq<Seq<u8>>, v4: Option<Seq<u8>>|
            {
                &&& groups_part_ok(gs, v4)
                &&& s == groups_part_text(gs, v4)
                &&& v == groups_part_values(gs, v4)
                &&& v.len() == 8
            };
        lemma_groups_complete(b, i, 0, 8, gs, v4, e);
    } else {
        let (hs, ts, v4) = choose|hs: Seq<Seq<u8>>, ts: Seq<Seq<u8>>, v4: Option<Seq<u8>>|
            {
                &&& groups_part_ok(hs, None)
                &&& groups_part_ok(ts, v4)
                &&& hs.len() + groups_part_values(ts, v4).len() <= 7
                &&& s == colon_join(hs) + seq![58u8, 58u8] + groups_part_text(ts, v4)
                &&& v == groups_part_values(hs, None) + zero_groups(
                    (8 - hs.len() - groups_part_values(ts, v4).len()) as nat,
                ) + groups_part_values(ts, v4)
            };
        let h = colon_join(hs);
        let e1 = i + h.len();
        let t = groups_part_text(ts, v4);
        assert(s.len() == h.len() + 2 + t.len());
        assert(b.subrange(i, e1) =~= h) by {
            assert forall|k: int| 0 <= k < h.len() implies b.subrange(i, e1)[k] == h[k] by {
                assert(s[k] == b[i + k]);
            }
        }
        assert(b[e1] == 58u8 && b[e1 + 1] == 58u8) by {
            assert(s[h.len() as int] == b[e1]);
            assert(s[h.len() + 1int] == b[e1 + 1]);
        }
        assert(b.subrange(e1 + 2, e) =~= t) by {
            assert forall|k: int| 0 <= k < t.len() implies b.subrange(e1 + 2, e)[k] == t[k] by {
                assert(s[h.len() + 2int + k] == b[e1 + 2 + k]);
            }
        }
        let hv = groups_part_values(hs, None);
        assert(hv.len() == hs.len());
        assert(b.subrange(i, e1) == part_at(0, hs, None));
        lemma_groups_complete(b, i, 0, 8, hs, None, e1);
        let limit = (7 - hs.len()) as nat;
        assert(b.subrange(e1 + 2, e) == part_at(0, ts, v4));
        lemma_groups_complete(b, e1 + 2, 0, limit, ts, v4, e);
    }
}

/// A run of hex digits from `i` to `j` ends at or after `j`.
proof fn lemma_hex_run_end_ge(b: Seq<u8>, i: int, j: int)
    requires
        0 <= i <= j <= b.len(),
        forall|k: int| i <= k < j ==> is_hex_char(#[trigger] b[k]),
    ensures
        hex_run_end(b, i) >= j,
    decreases j - i,
{
    lemma_hex_run_end_props(b, i);
    if i < j {
        lemma_hex_run_end_ge(b, i + 1, j);
    }
}

/// Reads the group written at `i`.
fn read_group(b: &[u8], i: usize) -> (r: Option<(u16, usize)>)
    requires
        i <= b@.len(),
    ensures
        r matches Some((g, e)) ==> group_at(b@, i as int) == Some((g as nat, e as int)),
        r is None ==> group_at(b@, i as int) is None,
{
    let mut j = i;
    let mut v: u32 = 0;
    while j < b.len() && j - i < 5
        invariant
            i <= j <= b@.len(),
            j - i <= 5,
            forall|k: int| i <= k < j ==> is_hex_char(#[trigger] b@[k]),
            v == hex_digits_value(b@.subrange(i as int, j as int)),
            j - i <= 4 ==> v < 65536,
            j - i <= 3 ==> v < 4096,
            j - i <= 2 ==> v < 256,
            j - i <= 1 ==> v < 16,
            j - i == 0 ==> v == 0,
            v < 1048576,
        ensures
            i <= j <= b@.len(),
            j - i <= 5,
            forall|k: int| i <= k < j ==> is_hex_char(#[trigger] b@[k]),
            v == hex_digits_value(b@.subrange(i as int, j as int)),
            j - i <= 4 ==> v < 65536,
            j - i < 5 ==> (j < b@.len() ==> !is_hex_char(b@[j as int])),
        decreases b@.len() - j,
    {
        let c = b[j];
        let d: u32 = if 48 <= c && c <= 57 {
            (c - 48) as u32
        } else if 97 <= c && c <= 102 {
            (c - 87) as u32
        } else if 65 <= c && c <= 70 {
            (c - 55) as u32
        } else {
            break;
        };
        proof {
            assert(b@.subrange(i as int, j + 1).drop_last() =~= b@.subrange(i as int, j as int));
            assert(d == hex_char_value(c));
        }
        v = v * 16 + d;
        j = j + 1;
    }
    proof {
        lemma_hex_run_end_props(b@, i as int);
        if j - i < 5 {
            lemma_hex_run_end(b@, i as int, j as int);
        } else {
            lemma_hex_run_end_ge(b@, i as int, j as int);
        }
    }
    if j == i || j - i == 5 {
        return None;
    }
    Some((v as u16, j))
}

/// The groups as numbers.
spec fn nat_groups(s: Seq<u16>) -> Seq<nat> {
    s.map_values(|x: u16| x as nat)
}

/// Reads at most `limit` colon-separated groups written at `i`; see [`groups_read`].
fn read_groups(b: &[u8], i: usize, limit: usize) -> (r: (Vec<u16>, usize, bool))
    requires
        i <= b@.len(),
        limit <= 8,
    ensures
        (nat_groups(r.0@), r.1 as int, r.2) == groups_read(b@, i as int, 0, limit as nat),
{
    let mut vals: Vec<u16> = Vec::new();
    let mut pos = i;
    let mut n: usize = 0;
    loop
        invariant
            i <= pos <= b@.len(),
            n <= limit <= 8,
            vals@.len() == n,
            ({
                let (rv, re, rf) = groups_read(b@, pos as int, n as nat, limit as nat);
                groups_read(b@, i as int, 0, limit as nat) == (nat_groups(vals@) + rv, re, rf)
            }),
        decreases limit - n,
    {
        let ghost here = groups_read(b@, pos as int, n as nat, limit as nat);
        if n >= limit {
            assert(nat_groups(vals@) + here.0 =~= nat_groups(vals@));
            return (vals, pos, false);
        }
        if n > 0 && !(pos < b.len() && b[pos] == 58) {
            assert(nat_groups(vals@) + here.0 =~= nat_groups(vals@));
            return (vals, pos, false);
        }
        let p = if n > 0 {
            pos + 1
        } else {
            pos
        };
        if n + 1 < limit {
            match read_ipv4(b, p) {
                Some((o, e)) => {
                    let g0 = (o[0] as u16) * 256 + o[1] as u16;
                    let g1 = (o[2] as u16) * 256 + o[3] as u16;
                    let ghost before = vals@;
                    vals.push(g0);
                    vals.push(g1);
                    assert(nat_groups(vals@) =~= nat_groups(before) + v4_groups(o@));
                    return (vals, e, true);
                },
                None => {},
            }
        }
        proof {
            lemma_hex_run_end_props(b@, p as int);
        }
        match read_group(b, p) {
            Some((g, e)) => {
                let ghost before = vals@;
                vals.push(g);
                assert(nat_groups(vals@) =~= nat_groups(before) + seq![g as nat]);
                proof {
                    let (rv, re, rf) = groups_read(b@, e as int, (n + 1) as nat, limit as nat);
                    assert(here == (seq![g as nat] + rv, re, rf));
                    assert(nat_groups(before) + here.0 =~= nat_groups(vals@) + rv);
                }
                pos = e;
                n = n + 1;
            },
            None => {
                assert(nat_groups(vals@) + here.0 =~= nat_groups(vals@));
                return (vals, pos, false);
            },
        }
    }
}

/// Reads the IPv6 address written at `i`; see [`ipv6_read`].
fn read_ipv6(b: &[u8], i: usize) -> (r: Option<(Vec<u16>, usize)>)
    requires
        i <= b@.len(),
    ensures
        r matches Some((v, e)) ==> ipv6_read(b@, i as int) == Some((nat_groups(v@), e as int)),
        r is None ==> ipv6_read(b@, i as int) is None,
{
    proof {
        let _ = lemma_groups_sound(b@, i as int, 0, 8);
    }
    let (head, e1, f1) = read_groups(b, i, 8);
    assert(nat_groups(head@).len() == head@.len());
    if head.len() == 8 {
        return Some((head, e1));
    }
    if f1 {
        return None;
    }
    if !(e1 < b.len() && b.len() - e1 >= 2 && b[e1] == 58 && b[e1 + 1] == 58) {
        return None;
    }
    let limit = 7 - head.len();
    proof {
        let _ = lemma_groups_sound(b@, e1 + 2, 0, limit as nat);
    }
    let (tail, e2, _f2) = read_groups(b, e1 + 2, limit);
    assert(nat_groups(tail@).len() == tail@.len());
    let zeros = 8 - head.len() - tail.len();
    let mut out = head;
    let ghost h = out@;
    let mut k: usize = 0;
    while k < zeros
        invariant
            k <= zeros,
            h.len() + zeros + tail@.len() == 8,
            out@.len() == h.len() + k,
            nat_groups(out@) == nat_groups(h) + zero_groups(k as nat),
        decreases zeros - k,
    {
        let ghost before = out@;
        out.push(0);
        assert(nat_groups(out@) =~= nat_groups(before) + seq![0nat]);
        assert(zero_groups((k + 1) as nat) =~= zero_groups(k as nat) + seq![0nat]);
        k = k + 1;
    }
    let mut t: usize = 0;
    let ghost mid = out@;
    while t < tail.len()
        invariant
            t <= tail@.len(),
            out@.len() == mid.len() + t,
            nat_groups(out@) == nat_groups(mid) + nat_groups(tail@.subrange(0, t as int)),
        decreases tail@.len() - t,
    {
        let ghost before = out@;
        out.push(tail[t]);
        assert(nat_groups(out@) =~= nat_groups(before) + seq![tail@[t as int] as nat]);
        assert(nat_groups(tail@.subrange(0, t + 1)) =~= nat_groups(tail@.subrange(0, t as int))
            + seq![tail@[t as int] as nat]);
        t = t + 1;
    }
    assert(tail@.subrange(0, t as int) =~= tail@);
    assert(nat_groups(out@) =~= nat_groups(h) + zero_groups(zeros as nat) + nat_groups(tail@));
    Some((out, e2))
}

/// The 16 octets of eight 16-bit groups.
fn octets_of_groups(v: &Vec<u16>) -> (o: [u8; 16])
    requires
        v@.len() == 8,
    ensures
        o@ == groups_octets(nat_groups(v@)),
{
    let o = [
        (v[0] >> 8u16) as u8,
        v[0] as u8,
        (v[1] >> 8u16) as u8,
        v[1] as u8,
        (v[2] >> 8u16) as u8,
        v[2] as u8,
        (v[3] >> 8u16) as u8,
        v[3] as u8,
        (v[4] >> 8u16) as u8,
        v[4] as u8,
        (v[5] >> 8u16) as u8,
        v[5] as u8,
        (v[6] >> 8u16) as u8,
        v[6] as u8,
        (v[7] >> 8u16) as u8,
        v[7] as u8,
    ];
    proof {
        assert forall|x: u16| #![trigger (x >> 8u16)]
            ((x >> 8u16) as u8) as nat == (x as nat) / 256 && (x as u8) as nat == (x as nat) % 256 by {
            assert(((x >> 8u16) as u8) == x / 256) by (bit_vector);
            assert((x as u8) == x % 256) by (bit_vector);
        }
        let g = nat_groups(v@);
        assert forall|k: int| 0 <= k < 16 implies o@[k] == groups_octets(g)[k] by {
            let x = v@[k / 2];
            assert(g[k / 2] == x as nat);
            assert(((x >> 8u16) as u8) as nat == (x as nat) / 256);
        }
        assert(o@ =~= groups_octets(g));
    }
    o
}

/// Reads the text of an IPv6 address, e.g. `2001:db8::1` or `::ffff:192.168.0.1`.
pub fn parse_ipv6(b: &[u8]) -> (r: Option<[u8; 16]>)
    ensures
        r matches Some(o) ==> ipv6_addr_text(b@, o@),
        r is None ==> forall|v: Seq<nat>| !ipv6_text(b@, v),
{
    assert(b@.subrange(0, b@.len() as int) =~= b@);
    match read_ipv6(b, 0) {
        Some((v, e)) => {
            proof {
                lemma_ipv6_sound(b@, 0);
            }
            if e == b.len() {
                let o = octets_of_groups(&v);
                assert(ipv6_text(b@, nat_groups(v@)));
                Some(o)
            } else {
                proof {
                    assert forall|w: Seq<nat>| !ipv6_text(b@, w) by {
                        if ipv6_text(b@, w) {
                            lemma_ipv6_complete(b@, 0, b@.len() as int, w);
                        }
                    }
                }
                None
            }
        },
        None => {
            proof {
                assert forall|w: Seq<nat>| !ipv6_text(b@, w) by {
                    if ipv6_text(b@, w) {
                        lemma_ipv6_complete(b@, 0, b@.len() as int, w);
                    }
                }
            }
            None
        },
    }
}

/// `b[i..f]` is a run of decimal digits that no digit follows.
spec fn digit_run(b: Seq<u8>, i: int, f: int) -> bool {
    &&& 0 <= i < f <= b.len()
    &&& all_dec_digits(b.subrange(i, f))
    &&& f < b.len() ==> !is_dec_digit(b[f])
}

/// A run of digits that no digit follows has one end.
proof fn lemma_digit_run_unique(b: Seq<u8>, i: int, f1: int, f2: int)
    requires
        digit_run(b, i, f1),
        digit_run(b, i, f2),
    ensures
        f1 == f2,
{
    if f1 < f2 {
        assert(b.subrange(i, f2)[f1 - i] == b[f1]);
    }
    if f2 < f1 {
        assert(b.subrange(i, f1)[f2 - i] == b[f2]);
    }
}

/// Reads the decimal zone index written at `i`, worth less than `2^32`, and where it ends.
fn read_zone(b: &[u8], i: usize) -> (r: Option<usize>)
    requires
        i <= b@.len(),
    ensures
        r matches Some(f) ==> digit_run(b@, i as int, f as int) && dec_value(
            b@.subrange(i as int, f as int),
        ) <= 0xffff_ffff,
        r is None ==> forall|f: int|
            digit_run(b@, i as int, f) ==> dec_value(b@.subrange(i as int, f)) > 0xffff_ffff,
{
    let mut j = i;
    let mut v: u64 = 0;
    while j < b.len()
        invariant
            i <= j <= b@.len(),
            forall|k: int| i <= k < j ==> is_dec_digit(#[trigger] b@[k]),
            v == dec_value(b@.subrange(i as int, j as int)),
            v <= 0xffff_ffff,
        ensures
            i <= j <= b@.len(),
            forall|k: int| i <= k < j ==> is_dec_digit(#[trigger] b@[k]),
            v == dec_value(b@.subrange(i as int, j as int)),
            j < b@.len() ==> (!is_dec_digit(b@[j as int]) || v * 10 + (b@[j as int] - 48)
                > 0xffff_ffff),
        decreases b@.len() - j,
    {
        let c = b[j];
        if c < 48 || c > 57 {
            break;
        }
        let w = v * 10 + (c - 48) as u64;
        if w > 0xffff_ffff {
            break;
        }
        proof {
            assert(b@.subrange(i as int, j + 1).drop_last() =~= b@.subrange(i as int, j as int));
        }
        v = w;
        j = j + 1;
    }
    if j < b.len() && 48 <= b[j] && b[j] <= 57 {
        proof {
            assert forall|f: int| digit_run(b@, i as int, f) implies dec_value(
                b@.subrange(i as int, f),
            ) > 0xffff_ffff by {
                let d = b@.subrange(i as int, f);
                if f <= j {
                    assert(is_dec_digit(b@[f]));
                }
                assert(f > j);
                assert(d.subrange(0, j + 1 - i) =~= b@.subrange(i as int, j + 1));
                assert(b@.subrange(i as int, j + 1).drop_last() =~= b@.subrange(i as int, j as int));
                assert forall|k: int| 0 <= k < d.len() implies is_dec_digit(#[trigger] d[k]) by {
                    assert(d[k] == b@[i + k]);
                }
                lemma_dec_value_prefix(d, j + 1 - i);
            }
        }
        return None;
    }
    if j == i {
        proof {
            assert forall|f: int| digit_run(b@, i as int, f) implies dec_value(
                b@.subrange(i as int, f),
            ) > 0xffff_ffff by {
                assert(b@.subrange(i as int, f)[0] == b@[i as int]);
            }
        }
        return None;
    }
    proof {
        let d = b@.subrange(i as int, j as int);
        assert forall|k: int| 0 <= k < d.len() implies is_dec_digit(#[trigger] d[k]) by {
            assert(d[k] == b@[i + k]);
        }
    }
    Some(j)
}

/// `s` is the text of the IPv6 socket address with octets `a` and port `port`: the
/// address in square brackets, where a `%` and a decimal zone index below `2^32` may follow
/// the address inside them, then a colon and the port (leading zeros allowed). The zone
/// index does not belong to the address.
pub open spec fn socket_v6_text(s: Seq<u8>, a: Seq<u8>, port: u16) -> bool {
    exists|e: int, f: int|
        #![trigger ipv6_addr_text(s.subrange(1, e), a), s[f]]
        {
            &&& 1 <= e <= f
            &&& f + 1 < s.len()
            &&& s[0] == 91u8
            &&& ipv6_addr_text(s.subrange(1, e), a)
            &&& (f == e || (s[e] == 37u8 && all_dec_digits(s.subrange(e + 1, f)) && dec_value(
                s.subrange(e + 1, f),
            ) <= 0xffff_ffff))
            &&& s[f] == 93u8
            &&& s[f + 1] == 58u8
            &&& all_dec_digits(s.subrange(f + 2, s.len() as int))
            &&& dec_value(s.subrange(f + 2, s.len() as int)) == port
        }
}

/// Every text of an IPv6 socket address starts with the reading of its address.
proof fn lemma_socket_v6_shape(b: Seq<u8>, a: Seq<u8>, port: u16) -> (ef: (Seq<nat>, int, int))
    requires
        socket_v6_text(b, a, port),
    ensures
        ({
            let (v, e, f) = ef;
            &&& 1 <= e <= f
            &&& f + 1 < b.len()
            &&& b[0] == 91u8
            &&& ipv6_read(b, 1) == Some((v, e))
            &&& groups_octets(v) == a
            &&& (f == e <==> b[e] != 37u8)
            &&& f > e ==> digit_run(b, e + 1, f) && dec_value(b.subrange(e + 1, f)) <= 0xffff_ffff
            &&& b[f] == 93u8
            &&& b[f + 1] == 58u8
            &&& all_dec_digits(b.subrange(f + 2, b.len() as int))
            &&& dec_value(b.subrange(f + 2, b.len() as int)) == port
        }),
{
    let (e, f) = choose|e: int, f: int|
        #![trigger ipv6_addr_text(b.subrange(1, e), a), b[f]]
        {
            &&& 1 <= e <= f
            &&& f + 1 < b.len()
            &&& b[0] == 91u8
            &&& ipv6_addr_text(b.subrange(1, e), a)
            &&& (f == e || (b[e] == 37u8 && all_dec_digits(b.subrange(e + 1, f)) && dec_value(
                b.subrange(e + 1, f),
            ) <= 0xffff_ffff))
            &&& b[f] == 93u8
            &&& b[f + 1] == 58u8
            &&& all_dec_digits(b.subrange(f + 2, b.len() as int))
            &&& dec_value(b.subrange(f + 2, b.len() as int)) == port
        };
    let v = choose|v: Seq<nat>| ipv6_text(b.subrange(1, e), v) && groups_octets(v) == a;
    lemma_ipv6_complete(b, 1, e, v);
    if f > e {
        let d = b.subrange(e + 1, f);
        assert forall|k: int| e + 1 <= k < f implies is_dec_digit(#[trigger] b[k]) by {
            assert(d[k - e - 1] == b[k]);
        }
    }
    (v, e, f)
}

/// Reads the text of an IPv6 socket address, e.g. `[2001:db8::1]:22000`.
pub fn parse_socket_v6(b: &[u8]) -> (r: Option<([u8; 16], u16)>)
    ensures
        r matches Some((o, p)) ==> socket_v6_text(b@, o@, p),
        r is None ==> forall|a: Seq<u8>, p: u16| !socket_v6_text(b@, a, p),
{
    if b.len() == 0 || b[0] != 91 {
        proof {
            assert forall|a: Seq<u8>, p: u16| !socket_v6_text(b@, a, p) by {
                if socket_v6_text(b@, a, p) {
                    let _ = lemma_socket_v6_shape(b@, a, p);
                }
            }
        }
        return None;
    }
    let (v, e) = match read_ipv6(b, 1) {
        Some(x) => x,
        None => {
            proof {
                assert forall|a: Seq<u8>, p: u16| !socket_v6_text(b@, a, p) by {
                    if socket_v6_text(b@, a, p) {
                        let _ = lemma_socket_v6_shape(b@, a, p);
                    }
                }
            }
            return None;
        },
    };
    proof {
        lemma_ipv6_sound(b@, 1);
    }
    let f = if e < b.len() && b[e] == 37 {
        match read_zone(b, e + 1) {
            Some(f) => f,
            None => {
                proof {
                    assert forall|a: Seq<u8>, p: u16| !socket_v6_text(b@, a, p) by {
                        if socket_v6_text(b@, a, p) {
                            let _ = lemma_socket_v6_shape(b@, a, p);
                        }
                    }
                }
                return None;
            },
        }
    } else {
        e
    };
    if !(f < b.len() && b.len() - f >= 2 && b[f] == 93 && b[f + 1] == 58) {
        proof {
            assert forall|a: Seq<u8>, p: u16| !socket_v6_text(b@, a, p) by {
                if socket_v6_text(b@, a, p) {
                    let (w, e2, f2) = lemma_socket_v6_shape(b@, a, p);
                    if f2 > e2 {
                        lemma_digit_run_unique(b@, e + 1, f as int, f2);
                    }
                }
            }
        }
        return None;
    }
    match read_port(b, f + 2) {
        Some(p) => {
            let o = octets_of_groups(&v);
            proof {
                let ghost s = b@;
                assert(ipv6_text(s.subrange(1, e as int), nat_groups(v@)));
                assert(ipv6_addr_text(s.subrange(1, e as int), o@));
                if f > e {
                    let d = s.subrange(e + 1, f as int);
                    assert forall|k: int| 0 <= k < d.len() implies is_dec_digit(#[trigger] d[k]) by {
                        assert(d[k] == s[e + 1 + k]);
                    }
                }
                assert(socket_v6_text(s, o@, p));
            }
            Some((o, p))
        },
        None => {
            proof {
                assert forall|a: Seq<u8>, p: u16| !socket_v6_text(b@, a, p) by {
                    if socket_v6_text(b@, a, p) {
                        let (w, e2, f2) = lemma_socket_v6_shape(b@, a, p);
                        if f2 > e2 {
                            lemma_digit_run_unique(b@, e + 1, f as int, f2);
                        }
                    }
                }
            }
            None
        },
    }
}

/// `s` is the text of `ip`: dotted decimal for IPv4, the forms of [`ipv6_text`] for IPv6.
pub open spec fn ip_text(s: Seq<u8>, ip: IpAddr) -> bool {
    match ip {
        IpAddr::V4(o) => s == ipv4_text(o@),
        IpAddr::V6(o) => ipv6_addr_text(s, o@),
    }
}

/// `s` is the text of the socket address `a`.
pub open spec fn socket_text(s: Seq<u8>, a: SocketAddr) -> bool {
    match a.ip {
        IpAddr::V4(o) => socket_v4_text(s, o@, a.port),
        IpAddr::V6(o) => socket_v6_text(s, o@, a.port),
    }
}

/// Reads the text of an IP address of either family.
pub fn parse_ip(b: &[u8]) -> (r: Option<IpAddr>)
    ensures
        r matches Some(ip) ==> ip_text(b@, ip),
        r is None ==> forall|ip: IpAddr| !ip_text(b@, ip),
{
    if let Some(o) = parse_ipv4(b) {
        return Some(IpAddr::V4(o));
    }
    match parse_ipv6(b) {
        Some(o) => Some(IpAddr::V6(o)),
        None => None,
    }
}

/// Reads the text of a socket address of either family, e.g. `192.168.0.1:22000` or
/// `[::1]:22000`.
pub fn parse_socket(b: &[u8]) -> (r: Option<SocketAddr>)
    ensures
        r matches Some(a) ==> socket_text(b@, a),
        r is None ==> forall|a: SocketAddr| !socket_text(b@, a),
{
    if let Some((o, port)) = parse_socket_v4(b) {
        return Some(SocketAddr { ip: IpAddr::V4(o), port });
    }
    match parse_socket_v6(b) {
        Some((o, port)) => Some(SocketAddr { ip: IpAddr::V6(o), port }),
        None => None,
    }
}

/// The first byte of the text of an IPv4 address is a digit.
proof fn lemma_ipv4_text_starts_with_digit(o: Seq<u8>)
    requires
        o.len() == 4,
    ensures
        ipv4_text(o).len() > 0,
        is_dec_digit(ipv4_text(o)[0]),
{
    lemma_dec_text(o[0] as nat);
    assert(dotted_text(o) == dec_text(o[0] as nat) + seq![46u8] + dotted_text(o.drop_first()));
    assert(ipv4_text(o)[0] == dec_text(o[0] as nat)[0]);
}

/// A text names at most one IP address.
pub proof fn lemma_ip_text_unique(s: Seq<u8>, a: IpAddr, b: IpAddr)
    requires
        ip_text(s, a),
        ip_text(s, b),
    ensures
        a == b,
{
    broadcast use vstd::array::axiom_array_ext_equal;

    match (a, b) {
        (IpAddr::V4(x), IpAddr::V4(y)) => {
            lemma_ipv4_read(s, 0);
            assert(s.subrange(0, s.len() as int) =~= s);
            assert(ipv4_at(s, 0, s.len() as int, x@));
            assert(ipv4_at(s, 0, s.len() as int, y@));
            assert(x@ =~= y@);
            assert(x =~= y);
        },
        (IpAddr::V6(x), IpAddr::V6(y)) => {
            let v = choose|v: Seq<nat>| ipv6_text(s, v) && groups_octets(v) == x@;
            let w = choose|w: Seq<nat>| ipv6_text(s, w) && groups_octets(w) == y@;
            assert(s.subrange(0, s.len() as int) =~= s);
            lemma_ipv6_complete(s, 0, s.len() as int, v);
            lemma_ipv6_complete(s, 0, s.len() as int, w);
            assert(x@ =~= y@);
            assert(x =~= y);
        },
        (IpAddr::V4(x), IpAddr::V6(y)) => {
            lemma_v4_not_v6(x@, y@);
        },
        (IpAddr::V6(x), IpAddr::V4(y)) => {
            lemma_v4_not_v6(y@, x@);
        },
    }
}

/// No text is that of an IPv4 and of an IPv6 address.
proof fn lemma_v4_not_v6(o: Seq<u8>, a: Seq<u8>)
    requires
        o.len() == 4,
    ensures
        !ipv6_addr_text(ipv4_text(o), a),
{
    let s = ipv4_text(o);
    if ipv6_addr_text(s, a) {
        let v = choose|v: Seq<nat>| ipv6_text(s, v) && groups_octets(v) == a;
        assert(s.subrange(0, s.len() as int) =~= s);
        lemma_ipv6_complete(s, 0, s.len() as int, v);
        lemma_ipv4_read(s, 0);
        assert(ipv4_at(s, 0, s.len() as int, o));
        assert(ipv4_read(s, 0) == Some((o, s.len() as int)));
        assert(groups_read(s, 0, 0, 8) == (v4_groups(o), s.len() as int, true));
    }
}

/// A text names at most one socket address.
pub proof fn lemma_socket_text_unique(s: Seq<u8>, a: SocketAddr, b: SocketAddr)
    requires
        socket_text(s, a),
        socket_text(s, b),
    ensures
        a == b,
{
    broadcast use vstd::array::axiom_array_ext_equal;

    match (a.ip, b.ip) {
        (IpAddr::V4(x), IpAddr::V4(y)) => {
            lemma_ipv4_read(s, 0);
            let e1 = choose|e: int|
                ipv4_at(s, 0, e, x@) && e < s.len() && s[e] == 58u8 && all_dec_digits(
                    s.subrange(e + 1, s.len() as int),
                ) && dec_value(s.subrange(e + 1, s.len() as int)) == a.port;
            let e2 = choose|e: int|
                ipv4_at(s, 0, e, y@) && e < s.len() && s[e] == 58u8 && all_dec_digits(
                    s.subrange(e + 1, s.len() as int),
                ) && dec_value(s.subrange(e + 1, s.len() as int)) == b.port;
            assert(x@ =~= y@);
            assert(x =~= y);
        },
        (IpAddr::V6(x), IpAddr::V6(y)) => {
            let (v1, e1, f1) = lemma_socket_v6_shape(s, x@, a.port);
            let (v2, e2, f2) = lemma_socket_v6_shape(s, y@, b.port);
            if f1 > e1 {
                lemma_digit_run_unique(s, e1 + 1, f1, f2);
            }
            assert(x@ =~= y@);
            assert(x =~= y);
        },
        (IpAddr::V4(x), IpAddr::V6(y)) => {
            let (v, e, f) = lemma_socket_v6_shape(s, y@, b.port);
            let e1 = choose|e: int|
                ipv4_at(s, 0, e, x@) && e < s.len() && s[e] == 58u8 && all_dec_digits(
                    s.subrange(e + 1, s.len() as int),
                ) && dec_value(s.subrange(e + 1, s.len() as int)) == a.port;
            lemma_ipv4_text_starts_with_digit(x@);
            assert(s.subrange(0, e1)[0] == s[0]);
        },
        (IpAddr::V6(x), IpAddr::V4(y)) => {
            let (v, e, f) = lemma_socket_v6_shape(s, x@, a.port);
            let e1 = choose|e: int|
                ipv4_at(s, 0, e, y@) && e < s.len() && s[e] == 58u8 && all_dec_digits(
                    s.subrange(e + 1, s.len() as int),
                ) && dec_value(s.subrange(e + 1, s.len() as int)) == b.port;
            lemma_ipv4_text_starts_with_digit(y@);
            assert(s.subrange(0, e1)[0] == s[0]);
        },
    }
}

} // verus!
