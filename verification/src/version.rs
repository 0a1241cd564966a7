//! Packet protocol version numbers.
//!
//! A version `Major.Minor` is encoded as `Major * 10^(places of Minor) + Minor`,
//! e.g. `2.50` becomes `2 * 10^2 + 50 = 250`.

use vstd::prelude::*;

verus! {

/// Major version of this crate (its package version is 0.1.0).
pub const VERSION_MAJOR: u32 = 0;

/// Minor version of this crate.
pub const VERSION_MINOR: u32 = 1;

/// Number of decimal places needed to write `n` (zero is written with one place).
pub open spec fn decimal_places(n: nat) -> nat
    decreases n,
{
    if n < 10 {
        1
    } else {
        1 + decimal_places(n / 10)
    }
}

/// `10^k`.
pub open spec fn pow10(k: nat) -> nat
    decreases k,
{
    if k == 0 {
        1
    } else {
        10 * pow10((k - 1) as nat)
    }
}

/// The version number of `major.minor`.
pub open spec fn version_number(major: nat, minor: nat) -> nat {
    major * pow10(decimal_places(minor)) + minor
}

/// Computes the version number `major * 10^(places of minor) + minor`.
pub fn calculate_version(major: u32, minor: u32) -> (v: u32)
    requires
        version_number(major as nat, minor as nat) <= u32::MAX,
    ensures
        v == version_number(major as nat, minor as nat),
{
    let mut m: u32 = minor;
    let mut q: u64 = 1;
    while m >= 10
        invariant
            q >= 1,
            q * pow10(decimal_places(m as nat)) == pow10(decimal_places(minor as nat)),
            q <= 0xffff_ffff,
            m as nat * q <= minor as nat,
        decreases m,
    {
        proof {
            assert(decimal_places(m as nat) == 1 + decimal_places((m / 10) as nat));
            assert(pow10(decimal_places(m as nat)) == 10 * pow10(decimal_places((m / 10) as nat)));
            assert(q * (10 * pow10(decimal_places((m / 10) as nat))) == (q * 10) * pow10(
                decimal_places((m / 10) as nat),
            )) by (nonlinear_arith);
            assert(m as nat * q >= 10 * q) by (nonlinear_arith)
                requires
                    m >= 10,
                    q >= 1,
            ;
            assert((m / 10) as nat * (q * 10) <= m as nat * q) by (nonlinear_arith);
        }
        m = m / 10;
        q = q * 10;
    }
    proof {
        assert(decimal_places(m as nat) == 1);
        assert(pow10(1) == 10) by {
            reveal_with_fuel(pow10, 2);
        }
    }
    let p: u64 = q * 10;
    assert(p == pow10(decimal_places(minor as nat)));
    let product: u64 = major as u64 * p;
    (product + minor as u64) as u32
}

/// The version number of this crate.
pub fn current_version() -> (v: u32)
    ensures
        v == version_number(VERSION_MAJOR as nat, VERSION_MINOR as nat),
{
    proof {
        assert(decimal_places(1) == 1);
        assert(pow10(1) == 10) by {
            reveal_with_fuel(pow10, 2);
        }
    }
    calculate_version(VERSION_MAJOR, VERSION_MINOR)
}

} // verus!
