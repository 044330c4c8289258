//! Weighted sampling for the tour constructor: transition weights are
//! computed as capped fixed-point integers, and a candidate is drawn by a
//! single uniform draw against the cumulative weights. When every weight is
//! zero the draw falls back to the uniform distribution.

use vstd::prelude::*;
use vstd::arithmetic::power::pow;
use vstd::math::min;
use crate::numeric::{DIST_CAP, RECIP_NUMERATOR, WEIGHT_CAP, pow_capped, pow_capped_spec};
use crate::graph::MAX_VERTICES;
use crate::rng::random_below;

verus! {

/// Sum of a sequence of weights.
pub open spec fn seq_sum(s: Seq<u64>) -> int
    decreases s.len(),
{
    if s.len() == 0 {
        0
    } else {
        seq_sum(s.drop_last()) + s.last()
    }
}

/// Extending a prefix by one element adds that element to its sum.
pub proof fn lemma_seq_sum_take_step(s: Seq<u64>, i: int)
    requires
        0 <= i < s.len(),
    ensures
        seq_sum(s.take(i + 1)) == seq_sum(s.take(i)) + s[i],
{
    assert(s.take(i + 1).drop_last() =~= s.take(i));
    assert(s.take(i + 1).last() == s[i]);
}

/// Capped weights sum to at most the count times the cap.
pub proof fn lemma_seq_sum_bound(s: Seq<u64>)
    requires
        forall|k: int| 0 <= k < s.len() ==> s[k] <= WEIGHT_CAP,
    ensures
        seq_sum(s) <= s.len() * WEIGHT_CAP,
    decreases s.len(),
{
    if s.len() > 0 {
        lemma_seq_sum_bound(s.drop_last());
    }
}

/// Sum of a weight vector.
pub fn sum_weights(w: &Vec<u64>) -> (total: u64)
    requires
        w@.len() <= MAX_VERTICES as int,
        forall|k: int| 0 <= k < w@.len() ==> w@[k] <= WEIGHT_CAP,
    ensures
        total == seq_sum(w@),
        total <= w@.len() * WEIGHT_CAP,
{
    let mut total: u64 = 0;
    let mut i: usize = 0;
    proof {
        assert(w@.take(0) =~= Seq::<u64>::empty());
    }
    while i < w.len()
        invariant
            i <= w@.len() <= MAX_VERTICES as int,
            forall|k: int| 0 <= k < w@.len() ==> w@[k] <= WEIGHT_CAP,
            total == seq_sum(w@.take(i as int)),
            total <= i * WEIGHT_CAP,
        decreases w@.len() - i,
    {
        proof {
            lemma_seq_sum_take_step(w@, i as int);
        }
        total = total + w[i];
        i = i + 1;
    }
    proof {
        assert(w@.take(w@.len() as int) =~= w@);
    }
    total
}

/// Draws one index, weighted by `w`; a zero total falls back to the
/// uniform distribution over all indices. The drawn index always lies in
/// range, and carries positive weight whenever any index does.
pub fn sample_weighted(w: &Vec<u64>) -> (idx: usize)
    requires
        1 <= w@.len() <= MAX_VERTICES as int,
        forall|k: int| 0 <= k < w@.len() ==> w@[k] <= WEIGHT_CAP,
    ensures
        idx < w@.len(),
        seq_sum(w@) > 0 ==> w@[idx as int] > 0,
{
    let total = sum_weights(w);
    if total == 0 {
        return random_below(w.len() as u64) as usize;
    }
    let r = random_below(total);
    let mut acc: u64 = 0;
    let mut i: usize = 0;
    proof {
        assert(w@.take(0) =~= Seq::<u64>::empty());
    }
    while i < w.len()
        invariant
            i <= w@.len() <= MAX_VERTICES as int,
            forall|k: int| 0 <= k < w@.len() ==> w@[k] <= WEIGHT_CAP,
            acc == seq_sum(w@.take(i as int)),
            acc <= r,
            r < total,
            total == seq_sum(w@),
            total <= w@.len() * WEIGHT_CAP,
        decreases w@.len() - i,
    {
        if r < acc + w[i] {
            return i;
        }
        proof {
            lemma_seq_sum_take_step(w@, i as int);
        }
        acc = acc + w[i];
        i = i + 1;
    }
    proof {
        assert(w@.take(w@.len() as int) =~= w@);
        assert(false);
    }
    0
}

/// Fixed-point reciprocal of a positive edge weight, scaled so that even
/// the largest weight keeps a reciprocal of at least one thousand.
pub open spec fn recip_weight(a: u64) -> int
    recommends
        a >= 1,
{
    RECIP_NUMERATOR as int / a as int
}

/// Transition desirability of an edge of weight `a >= 1` carrying
/// pheromone `p`: the pheromone term to the power alpha times the
/// reciprocal-distance term to the power beta, capped at `WEIGHT_CAP`.
pub open spec fn desirability(p: u64, a: u64, alpha: u64, beta: u64) -> int
    recommends
        1 <= a <= DIST_CAP,
{
    min(pow(p as int, alpha as nat) * pow(recip_weight(a), beta as nat), WEIGHT_CAP as int)
}

/// A power of a non-negative base is non-negative.
pub proof fn lemma_pow_nonneg(b: int, e: nat)
    requires
        b >= 0,
    ensures
        pow(b, e) >= 0,
    decreases e,
{
    reveal(pow);
    if e == 0 {
        assert(pow(b, 0) == 1);
    } else {
        lemma_pow_nonneg(b, (e - 1) as nat);
        assert(pow(b, e) == b * pow(b, (e - 1) as nat));
        assert(b * pow(b, (e - 1) as nat) >= 0) by (nonlinear_arith)
            requires
                b >= 0 && pow(b, (e - 1) as nat) >= 0;
    }
}

/// A power of a base of at least one is at least one.
pub proof fn lemma_pow_at_least_one(b: int, e: nat)
    requires
        b >= 1,
    ensures
        pow(b, e) >= 1,
    decreases e,
{
    reveal(pow);
    if e == 0 {
        assert(pow(b, 0) == 1);
    } else {
        lemma_pow_at_least_one(b, (e - 1) as nat);
        assert(pow(b, e) == b * pow(b, (e - 1) as nat));
        assert(b * pow(b, (e - 1) as nat) >= 1) by (nonlinear_arith)
            requires
                b >= 1 && pow(b, (e - 1) as nat) >= 1;
    }
}

/// Multiplying two factors capped at `c` and capping again is the same as
/// capping their true product, as long as the second factor is positive.
pub proof fn lemma_capped_mul(x: int, y: int, c: int)
    requires
        x >= 0,
        y >= 1,
        c >= 1,
    ensures
        min(min(x, c) * min(y, c), c) == min(x * y, c),
{
    if x >= c {
        assert(min(x, c) * min(y, c) >= c * 1) by (nonlinear_arith)
            requires
                min(x, c) == c && min(y, c) >= 1 && c >= 1;
        assert(x * y >= c * 1) by (nonlinear_arith)
            requires
                x >= c && y >= 1 && c >= 1;
    } else if y >= c {
        if x == 0 {
            assert(min(x, c) * min(y, c) == 0) by (nonlinear_arith)
                requires
                    min(x, c) == 0;
        } else {
            assert(min(x, c) * min(y, c) >= 1 * c) by (nonlinear_arith)
                requires
                    min(x, c) >= 1 && min(y, c) == c;
            assert(x * y >= 1 * c) by (nonlinear_arith)
                requires
                    x >= 1 && y >= c && c >= 1;
        }
    }
}

/// The transition desirability of one candidate edge.
pub fn desirability_weight(p: u64, a: u64, alpha: u64, beta: u64) -> (w: u64)
    requires
        1 <= a <= DIST_CAP,
    ensures
        w as int == desirability(p, a, alpha, beta),
        w <= WEIGHT_CAP,
{
    let inv = RECIP_NUMERATOR / a;
    let pp = pow_capped(p, alpha);
    let ip = pow_capped(inv, beta);
    proof {
        assert((pp as u128) * (ip as u128) <= 0x1_0000_0000_0000_0000u128) by (nonlinear_arith)
            requires
                pp as u128 <= 0x1_0000_0000u128 && ip as u128 <= 0x1_0000_0000u128;
    }
    let prod = (pp as u128) * (ip as u128);
    proof {
        lemma_pow_nonneg(p as int, alpha as nat);
        vstd::arithmetic::div_mod::lemma_div_non_zero(RECIP_NUMERATOR as int, a as int);
        assert(inv >= 1);
        lemma_pow_at_least_one(inv as int, beta as nat);
        lemma_capped_mul(
            pow(p as int, alpha as nat),
            pow(inv as int, beta as nat),
            WEIGHT_CAP as int,
        );
    }
    if prod >= WEIGHT_CAP as u128 {
        WEIGHT_CAP
    } else {
        prod as u64
    }
}

} // verus!
