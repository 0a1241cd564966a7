//! IP addresses and socket addresses, ordered as the standard library orders them.

use vstd::prelude::*;

verus! {

/// An IPv4 or IPv6 address, by its octets in network order.
#[derive(Clone, Copy, Debug, PartialEq, Eq, Hash)]
pub enum IpAddr {
    V4([u8; 4]),
    V6([u8; 16]),
}

/// An IP address and a port.
#[derive(Clone, Copy, Debug, PartialEq, Eq, Hash)]
pub struct SocketAddr {
    pub ip: IpAddr,
    pub port: u16,
}

/// The number whose big-endian bytes are `s`.
pub open spec fn be_value(s: Seq<u8>) -> nat
    decreases s.len(),
{
    if s.len() == 0 {
        0
    } else {
        (be_value(s.drop_last()) * 256 + s.last()) as nat
    }
}

/// `256^n`.
pub open spec fn pow256(n: nat) -> nat
    decreases n,
{
    if n == 0 {
        1
    } else {
        256 * pow256((n - 1) as nat)
    }
}

/// `2^144`, the weight of the address family in [`SocketAddr::rank`].
pub open spec fn family_weight() -> int {
    0x1_0000_0000_0000_0000_0000_0000_0000_0000_0000int
}

/// A number of `n` big-endian bytes is below `256^n`.
pub proof fn lemma_be_value_bound(s: Seq<u8>)
    ensures
        be_value(s) < pow256(s.len()),
    decreases s.len(),
{
    if s.len() > 0 {
        lemma_be_value_bound(s.drop_last());
        let v = be_value(s.drop_last());
        let p = pow256(s.drop_last().len());
        assert(v * 256 + s.last() < p * 256) by (nonlinear_arith)
            requires
                v < p,
                s.last() < 256,
        ;
    }
}

impl IpAddr {
    /// The octets in network order.
    pub open spec fn octets(self) -> Seq<u8> {
        match self {
            IpAddr::V4(o) => o@,
            IpAddr::V6(o) => o@,
        }
    }

    /// 0 for IPv4, 1 for IPv6.
    pub open spec fn family(self) -> int {
        match self {
            IpAddr::V4(_) => 0,
            IpAddr::V6(_) => 1,
        }
    }

    /// The address as a number.
    pub open spec fn value(self) -> nat {
        be_value(self.octets())
    }

    /// The address as a number.
    pub fn to_u128(&self) -> (v: u128)
        ensures
            v == self.value(),
    {
        match self {
            IpAddr::V4(o) => be_u128(o),
            IpAddr::V6(o) => be_u128(o),
        }
    }

    /// The octets in network order.
    pub fn octets_vec(&self) -> (v: Vec<u8>)
        ensures
            v@ == self.octets(),
    {
        match self {
            IpAddr::V4(o) => vstd::slice::slice_to_vec(o),
            IpAddr::V6(o) => vstd::slice::slice_to_vec(o),
        }
    }
}

/// The number whose big-endian bytes are `b` (at most 16 of them).
fn be_u128(b: &[u8]) -> (v: u128)
    requires
        b@.len() <= 16,
    ensures
        v == be_value(b@),
{
    let mut acc: u128 = 0;
    let mut i: usize = 0;
    while i < b.len()
        invariant
            i <= b@.len() <= 16,
            acc == be_value(b@.subrange(0, i as int)),
        decreases b@.len() - i,
    {
        proof {
            lemma_be_value_bound(b@.subrange(0, i as int));
            assert(pow256(i as nat) <= pow256(15)) by {
                lemma_pow256_mono(i as nat, 15);
            }
            lemma_pow256_16();
            assert(b@.subrange(0, i + 1).drop_last() =~= b@.subrange(0, i as int));
        }
        acc = acc * 256 + b[i] as u128;
        i = i + 1;
    }
    assert(b@.subrange(0, i as int) =~= b@);
    acc
}

/// `256^15 = 2^120` and `256^16 = 2^128`.
pub proof fn lemma_pow256_16()
    ensures
        pow256(15) == 0x1_0000_0000_0000_0000_0000_0000_0000_00,
        pow256(16) == 0x1_0000_0000_0000_0000_0000_0000_0000_0000int,
{
    reveal_with_fuel(pow256, 17);
}

/// `256^m <= 256^n` for `m <= n`.
pub proof fn lemma_pow256_mono(m: nat, n: nat)
    requires
        m <= n,
    ensures
        pow256(m) <= pow256(n),
    decreases n,
{
    if m < n {
        lemma_pow256_mono(m, (n - 1) as nat);
    }
}

impl SocketAddr {
    /// The position of the address in the standard library's order: IPv4 before IPv6,
    /// then by address, then by port.
    pub open spec fn rank(self) -> int {
        self.ip.family() * family_weight() + self.ip.value() * 65536 + self.port
    }

    /// The address comes before `other`.
    pub fn lt(&self, other: &SocketAddr) -> (b: bool)
        ensures
            b == (self.rank() < other.rank()),
    {
        let (f1, v1) = family_value(&self.ip);
        let (f2, v2) = family_value(&other.ip);
        proof {
            lemma_rank_order(*self, *other);
        }
        f1 < f2 || (f1 == f2 && (v1 < v2 || (v1 == v2 && self.port < other.port)))
    }

    /// The address is `other`.
    pub fn same(&self, other: &SocketAddr) -> (b: bool)
        ensures
            b == (*self == *other),
    {
        let (f1, v1) = family_value(&self.ip);
        let (f2, v2) = family_value(&other.ip);
        proof {
            lemma_rank_order(*self, *other);
            if self.rank() == other.rank() {
                lemma_rank_injective(*self, *other);
            }
        }
        f1 == f2 && v1 == v2 && self.port == other.port
    }
}

fn family_value(ip: &IpAddr) -> (r: (u8, u128))
    ensures
        r.0 == ip.family(),
        r.1 == ip.value(),
{
    let f: u8 = match ip {
        IpAddr::V4(_) => 0,
        IpAddr::V6(_) => 1,
    };
    (f, ip.to_u128())
}

/// An address number is below `2^128`.
pub proof fn lemma_value_bound(ip: IpAddr)
    ensures
        ip.value() < 0x1_0000_0000_0000_0000_0000_0000_0000_0000int,
{
    lemma_be_value_bound(ip.octets());
    lemma_pow256_mono(ip.octets().len(), 16);
    lemma_pow256_16();
}

/// Ranks compare as (family, address, port) compare, one after the other.
pub proof fn lemma_rank_order(a: SocketAddr, b: SocketAddr)
    ensures
        (a.rank() < b.rank()) == (a.ip.family() < b.ip.family() || (a.ip.family()
            == b.ip.family() && (a.ip.value() < b.ip.value() || (a.ip.value() == b.ip.value()
            && a.port < b.port)))),
        (a.rank() == b.rank()) == (a.ip.family() == b.ip.family() && a.ip.value()
            == b.ip.value() && a.port == b.port),
{
    lemma_value_bound(a.ip);
    lemma_value_bound(b.ip);
    let (fa, fb) = (a.ip.family(), b.ip.family());
    let (va, vb) = (a.ip.value() as int, b.ip.value() as int);
    let (pa, pb) = (a.port as int, b.port as int);
    let w = family_weight();
    assert(((fa * w + va * 65536 + pa) < (fb * w + vb * 65536 + pb)) == (fa < fb || (fa == fb
        && (va < vb || (va == vb && pa < pb))))) by (nonlinear_arith)
        requires
            0 <= fa <= 1,
            0 <= fb <= 1,
            0 <= va < 0x1_0000_0000_0000_0000_0000_0000_0000_0000int,
            0 <= vb < 0x1_0000_0000_0000_0000_0000_0000_0000_0000int,
            0 <= pa < 65536,
            0 <= pb < 65536,
            w == 0x1_0000_0000_0000_0000_0000_0000_0000_0000_0000int,
    ;
    assert(((fa * w + va * 65536 + pa) == (fb * w + vb * 65536 + pb)) == (fa == fb && va == vb
        && pa == pb)) by (nonlinear_arith)
        requires
            0 <= fa <= 1,
            0 <= fb <= 1,
            0 <= va < 0x1_0000_0000_0000_0000_0000_0000_0000_0000int,
            0 <= vb < 0x1_0000_0000_0000_0000_0000_0000_0000_0000int,
            0 <= pa < 65536,
            0 <= pb < 65536,
            w == 0x1_0000_0000_0000_0000_0000_0000_0000_0000_0000int,
    ;
}

/// Two byte strings of one length with the same number are equal.
pub proof fn lemma_be_value_injective(s: Seq<u8>, t: Seq<u8>)
    requires
        s.len() == t.len(),
        be_value(s) == be_value(t),
    ensures
        s == t,
    decreases s.len(),
{
    if s.len() > 0 {
        let (vs, vt) = (be_value(s.drop_last()) as int, be_value(t.drop_last()) as int);
        let (ls, lt) = (s.last() as int, t.last() as int);
        assert(vs == vt && ls == lt) by (nonlinear_arith)
            requires
                vs * 256 + ls == vt * 256 + lt,
                0 <= ls < 256,
                0 <= lt < 256,
                vs >= 0,
                vt >= 0,
        ;
        lemma_be_value_injective(s.drop_last(), t.drop_last());
        assert(s =~= s.drop_last().push(s.last()));
        assert(t =~= t.drop_last().push(t.last()));
    }
}

/// Different addresses have different ranks.
pub proof fn lemma_rank_injective(a: SocketAddr, b: SocketAddr)
    requires
        a.rank() == b.rank(),
    ensures
        a == b,
{
    broadcast use vstd::array::axiom_array_ext_equal;
    lemma_rank_order(a, b);
    match (a.ip, b.ip) {
        (IpAddr::V4(x), IpAddr::V4(y)) => {
            lemma_be_value_injective(x@, y@);
            assert(x =~= y);
        },
        (IpAddr::V6(x), IpAddr::V6(y)) => {
            lemma_be_value_injective(x@, y@);
            assert(x =~= y);
        },
        _ => {},
    }
}

} // verus!
