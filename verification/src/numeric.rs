//! Fixed-point numeric kernels: integer square root for Euclidean edge
//! weights, and capped exponentiation for the ant transition weights.

use vstd::prelude::*;
use vstd::arithmetic::power::{pow, lemma_pow_increases};
use vstd::math::min;

verus! {

/// Largest coordinate magnitude the graph accepts, in canvas units.
pub const COORD_LIMIT: i64 = 1_000_000_000;

/// Strict upper bound on any edge weight: the diagonal of the coordinate
/// square is below `3_000_000_000`.
pub const DIST_CAP: u64 = 3_000_000_000;

/// Cap applied to every ant transition weight, so that sums of weights over
/// the candidate vertices of one step stay far from `u64` overflow.
pub const WEIGHT_CAP: u64 = 0x1_0000_0000;

/// Numerator of the fixed-point reciprocal of an edge weight:
/// `DIST_CAP` times a scale of one thousand, so the reciprocal of any
/// positive edge weight is at least one thousand.
pub const RECIP_NUMERATOR: u64 = 3_000_000_000_000;

/// `r` is the integer square root (rounded down) of `s`.
pub open spec fn is_isqrt(s: int, r: int) -> bool {
    &&& 0 <= r
    &&& r * r <= s
    &&& s < (r + 1) * (r + 1)
}

/// Integer square root, rounded down, of values up to the squared
/// coordinate diagonal.
pub fn isqrt(s: u64) -> (r: u64)
    requires
        s < DIST_CAP as int * DIST_CAP as int,
    ensures
        is_isqrt(s as int, r as int),
        r < DIST_CAP,
{
    let mut lo: u64 = 0;
    let mut hi: u64 = DIST_CAP - 1;
    proof {
        assert((DIST_CAP - 1) * (DIST_CAP - 1) >= 0);
    }
    while lo < hi
        invariant
            0 <= lo <= hi < DIST_CAP,
            lo as int * lo as int <= s,
            s < (hi as int + 1) * (hi as int + 1),
        decreases hi - lo,
    {
        let mid = lo + (hi - lo + 1) / 2;
        proof {
            assert((mid as int) * (mid as int) < 0x1_0000_0000_0000_0000)
                by (nonlinear_arith)
                requires
                    mid < 3_000_000_000u64;
        }
        if mid * mid <= s {
            lo = mid;
        } else {
            hi = mid - 1;
        }
    }
    lo
}

/// `base` to the power `exp`, capped at `WEIGHT_CAP`.
pub open spec fn pow_capped_spec(base: nat, exp: nat) -> int {
    min(pow(base as int, exp), WEIGHT_CAP as int)
}

/// Exponentiation capped at `WEIGHT_CAP`, computed by repeated
/// multiplication with an early exit once the cap is reached.
pub fn pow_capped(base: u64, exp: u64) -> (r: u64)
    ensures
        r as int == pow_capped_spec(base as nat, exp as nat),
{
    if exp == 0 {
        proof {
            vstd::arithmetic::power::lemma_pow0(base as int);
        }
        return 1;
    }
    if base == 0 {
        proof {
            vstd::arithmetic::power::lemma0_pow(exp as nat);
        }
        return 0;
    }
    if base == 1 {
        proof {
            vstd::arithmetic::power::lemma1_pow(exp as nat);
        }
        return 1;
    }
    let mut acc: u128 = 1;
    let mut i: u64 = 0;
    proof {
        vstd::arithmetic::power::lemma_pow0(base as int);
    }
    while i < exp
        invariant
            base >= 2,
            i <= exp,
            acc == pow(base as int, i as nat),
            acc < WEIGHT_CAP,
        decreases exp - i,
    {
        proof {
            vstd::arithmetic::power::lemma_pow_positive(base as int, i as nat);
            assert(acc * (base as u128) < 0x1_0000_0000_0000_0000_0000_0000u128)
                by (nonlinear_arith)
                requires
                    acc < 0x1_0000_0000u128 && (base as u128) < 0x1_0000_0000_0000_0000u128;
        }
        acc = acc * (base as u128);
        i = i + 1;
        proof {
            vstd::arithmetic::power::lemma_pow_adds(base as int, (i - 1) as nat, 1nat);
            vstd::arithmetic::power::lemma_pow1(base as int);
            assert(pow(base as int, i as nat)
                == pow(base as int, (i - 1) as nat) * base);
        }
        if acc >= WEIGHT_CAP as u128 {
            proof {
                lemma_pow_increases(base as nat, i as nat, exp as nat);
            }
            return WEIGHT_CAP;
        }
    }
    acc as u64
}

} // verus!
