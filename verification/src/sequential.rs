//! The sequential hit-probability calculator: the chance of drawing at
//! least one marked item across a fixed, non-adaptive depletion schedule
//! (each trigger removes three items whatever was drawn).
//!
//! The result is exact: a numerator over a denominator, both products of
//! binomial coefficients.

use vstd::prelude::*;
use vstd::arithmetic::div_mod::lemma_fundamental_div_mod;

use crate::combinatorics::{binom, sat_sub, binomial_u128, lemma_binom_pos, lemma_binom_mono};

verus! {

/// Numerator of the overall miss probability: the product over each
/// resolved step of the ways to draw three unmarked items.  Once the pool
/// drops below the draw size the remaining steps are deterministic: a sure
/// miss without marked items, a sure hit with them.
pub open spec fn miss_numerator(hits: nat, gy: nat, trig: nat) -> nat
    decreases trig,
{
    if trig == 0 {
        1
    } else if gy < 3 {
        if hits == 0 {
            1
        } else {
            0
        }
    } else {
        binom(sat_sub(gy, hits), 3) * miss_numerator(hits, (gy - 3) as nat, (trig - 1) as nat)
    }
}

/// Denominator of the overall miss probability: the product over each
/// resolved step of all ways to draw three items.
pub open spec fn miss_denominator(gy: nat, trig: nat) -> nat
    decreases trig,
{
    if trig == 0 {
        1
    } else if gy < 3 {
        1
    } else {
        binom(gy, 3) * miss_denominator((gy - 3) as nat, (trig - 1) as nat)
    }
}

pub proof fn lemma_miss_denominator_pos(gy: nat, trig: nat)
    ensures
        miss_denominator(gy, trig) >= 1,
    decreases trig,
{
    if trig > 0 && gy >= 3 {
        lemma_miss_denominator_pos((gy - 3) as nat, (trig - 1) as nat);
        lemma_binom_pos(gy, 3);
        assert(binom(gy, 3) * miss_denominator((gy - 3) as nat, (trig - 1) as nat) >= 1 * 1)
            by (nonlinear_arith)
            requires
                binom(gy, 3) >= 1,
                miss_denominator((gy - 3) as nat, (trig - 1) as nat) >= 1,
        ;
    }
}

/// An exact probability of at least one hit: `hit / total`.
#[derive(Clone, Copy, Debug)]
pub struct HitChance {
    /// Scaled probability of at least one hit.
    pub hit: u128,
    /// The denominator.
    pub total: u128,
}

/// Computes the exact probability of drawing at least one of `hits` marked
/// items across `triggers` sequential draws of three from a pool of
/// `gy_size` items, each draw depleting the pool by three regardless of
/// outcome.  Returns `None` exactly when the denominator does not fit a
/// u128.
#[verifier::loop_isolation(false)]
pub fn chances_of_hit(hits: u32, gy_size: u32, triggers: u32) -> (r: Option<HitChance>)
    ensures
        match r {
            Some(h) => {
                &&& h.total as nat == miss_denominator(gy_size as nat, triggers as nat)
                &&& miss_numerator(hits as nat, gy_size as nat, triggers as nat) <= h.total as nat
                &&& h.hit as int == h.total - miss_numerator(
                    hits as nat,
                    gy_size as nat,
                    triggers as nat,
                )
                &&& h.total >= 1
            },
            None => miss_denominator(gy_size as nat, triggers as nat) > u128::MAX,
        },
{
    let ghost h0 = hits as nat;
    let ghost g0 = gy_size as nat;
    let ghost t0 = triggers as nat;
    let mut n: u128 = 1;
    let mut dden: u128 = 1;
    let mut gy = gy_size;
    let mut t: u32 = 0;
    while t < triggers && gy >= 3
        invariant
            t <= triggers,
            gy <= gy_size,
            n <= dden,
            dden >= 1,
            hits == 0 ==> n == dden,
            miss_numerator(h0, g0, t0) == n as nat * miss_numerator(
                h0,
                gy as nat,
                (t0 - t) as nat,
            ),
            miss_denominator(g0, t0) == dden as nat * miss_denominator(gy as nat, (t0 - t) as nat),
        decreases t0 - t,
    {
        let avail = if gy >= hits {
            gy - hits
        } else {
            0
        };
        let cden = binomial_u128(gy as u128, 3);
        let cnum = binomial_u128(avail as u128, 3);
        proof {
            lemma_binom_pos(gy as nat, 3);
            lemma_binom_mono(avail as nat, gy as nat, 3);
            assert(avail as nat == sat_sub(gy as nat, h0));
            lemma_miss_denominator_pos((gy - 3) as nat, (t0 - t - 1) as nat);
            assert(miss_denominator(gy as nat, (t0 - t) as nat) == binom(gy as nat, 3)
                * miss_denominator((gy - 3) as nat, (t0 - t - 1) as nat));
            assert(miss_numerator(h0, gy as nat, (t0 - t) as nat) == binom(sat_sub(gy as nat, h0), 3)
                * miss_numerator(h0, (gy - 3) as nat, (t0 - t - 1) as nat));
        }
        if dden > u128::MAX / cden {
            proof {
                lemma_fundamental_div_mod(u128::MAX as int, cden as int);
                assert(dden as int * cden as int > u128::MAX) by (nonlinear_arith)
                    requires
                        dden as int >= (u128::MAX as int) / (cden as int) + 1,
                        u128::MAX as int == (cden as int) * ((u128::MAX as int) / (cden as int))
                            + (u128::MAX as int) % (cden as int),
                        (u128::MAX as int) % (cden as int) < (cden as int),
                        cden as int >= 1,
                ;
                assert(dden as int * (cden as int * miss_denominator(
                    (gy - 3) as nat,
                    (t0 - t - 1) as nat,
                ) as int) >= dden as int * cden as int) by (nonlinear_arith)
                    requires
                        miss_denominator((gy - 3) as nat, (t0 - t - 1) as nat) as int >= 1,
                        dden as int >= 0,
                        cden as int >= 0,
                ;
            }
            return None;
        }
        proof {
            lemma_fundamental_div_mod(u128::MAX as int, cden as int);
            assert(dden as int * cden as int <= u128::MAX as int) by (nonlinear_arith)
                requires
                    dden as int <= (u128::MAX as int) / (cden as int),
                    u128::MAX as int == (cden as int) * ((u128::MAX as int) / (cden as int))
                        + (u128::MAX as int) % (cden as int),
                    (u128::MAX as int) % (cden as int) >= 0,
                    cden as int >= 1,
                    dden as int >= 0,
            ;
            assert(n as int * cnum as int <= dden as int * cden as int) by (nonlinear_arith)
                requires
                    n as int <= dden as int,
                    cnum as int <= cden as int,
                    n as int >= 0,
                    cnum as int >= 0,
            ;
            assert(dden as int * (cden as int * miss_denominator(
                (gy - 3) as nat,
                (t0 - t - 1) as nat,
            ) as int) == (dden as int * cden as int) * miss_denominator(
                (gy - 3) as nat,
                (t0 - t - 1) as nat,
            ) as int) by (nonlinear_arith);
            assert(n as int * (cnum as int * miss_numerator(
                h0,
                (gy - 3) as nat,
                (t0 - t - 1) as nat,
            ) as int) == (n as int * cnum as int) * miss_numerator(
                h0,
                (gy - 3) as nat,
                (t0 - t - 1) as nat,
            ) as int) by (nonlinear_arith);
            if hits == 0 {
                assert(cnum == cden);
            }
            assert(dden as int * cden as int >= 1 * 1) by (nonlinear_arith)
                requires
                    dden as int >= 1,
                    cden as int >= 1,
            ;
        }
        n = n * cnum;
        dden = dden * cden;
        gy = gy - 3;
        t = t + 1;
    }
    if t < triggers && hits != 0 {
        proof {
            assert(miss_numerator(h0, gy as nat, (t0 - t) as nat) == 0);
            assert(n as nat * 0 == 0) by (nonlinear_arith);
            assert(miss_denominator(gy as nat, (t0 - t) as nat) == 1);
            assert(dden as nat * 1 == dden as nat) by (nonlinear_arith);
        }
        n = 0;
    } else {
        proof {
            assert(miss_numerator(h0, gy as nat, (t0 - t) as nat) == 1);
            assert(miss_denominator(gy as nat, (t0 - t) as nat) == 1);
            assert(n as nat * 1 == n as nat) by (nonlinear_arith);
            assert(dden as nat * 1 == dden as nat) by (nonlinear_arith);
        }
    }
    Some(HitChance { hit: dden - n, total: dden })
}

} // verus!
