//! General laws of the outcome distribution, stated and proved over the
//! specification model.  The executable entry point's contract ties its
//! histogram to `mass_at`, so these laws carry over to what it returns.

use vstd::prelude::*;

use crate::combinatorics::{binom, sat_sub};
use crate::distribution::{
    draw_delta, lemma_mass_from_i_zero, lemma_mass_from_j_zero, lemma_mass_term_zero, mass_at,
    mass_from_i, mass_from_j, mass_from_k, next_beacon, next_triggers, pool_denominator,
    split_count,
};
use crate::sequential::{miss_denominator, miss_numerator};

verus! {

/// With no pending triggers the process is terminal at once: the whole
/// probability mass sits at outcome zero.
pub proof fn lemma_zero_triggers_point_mass(gy: nat, a: nat, b: nat, c: nat, beacon: bool, o: int)
    ensures
        mass_at(0, gy, a, b, c, beacon, o) == if o == 0 {
            pool_denominator(gy)
        } else {
            0
        },
{
}

/// A pool smaller than the draw size is terminal at once: the whole
/// probability mass sits at outcome zero, whatever the other parameters,
/// and the denominator is one (a point mass).
pub proof fn lemma_small_pool_point_mass(
    trig: nat,
    gy: nat,
    a: nat,
    b: nat,
    c: nat,
    beacon: bool,
    o: int,
)
    requires
        gy < 3,
    ensures
        mass_at(trig, gy, a, b, c, beacon, o) == if o == 0 {
            1nat
        } else {
            0nat
        },
        pool_denominator(gy) == 1,
{
}

/// Cross-check against the closed form: with no toggle and no secondary
/// items, at most one primary item, and a single trigger, the mass at
/// outcome zero equals the sequential miss probability — as an identity of
/// exact fractions: mass0 / pool_denominator == miss_num / miss_den.
/// (A pool below the draw size is excluded: there the enumerator draws
/// nothing while the closed form declares a sure hit.)
pub proof fn lemma_single_trigger_cross_check(gy: nat, a: nat)
    requires
        a <= 1,
        gy >= 3,
    ensures
        mass_at(1, gy, a, 0, 0, false, 0) * miss_denominator(gy, 1) == miss_numerator(a, gy, 1)
            * pool_denominator(gy),
{
    let d3 = pool_denominator((gy - 3) as nat);
    let cg = binom(gy, 3);
    assert(miss_denominator((gy - 3) as nat, 0) == 1);
    assert(miss_denominator(gy, 1) == cg * 1);
    assert(pool_denominator(gy) == cg * d3);
    if a == 0 {
        assert(mass_at(1, gy, 0, 0, 0, false, 0) == pool_denominator(gy));
        assert(sat_sub(gy, 0) == gy);
        assert(miss_numerator(0nat, (gy - 3) as nat, 0) == 1);
        assert(miss_numerator(0, gy, 1) == cg * 1);
        assert((cg * d3) * (cg * 1) == (cg * 1) * (cg * d3)) by (nonlinear_arith);
    } else {
        let f = sat_sub(gy, 1);
        let cf = binom(f, 3);
        assert(binom(0nat, 1) == 0 && binom(0nat, 2) == 0 && binom(0nat, 3) == 0);
        assert(mass_at(1, gy, 1, 0, 0, false, 0) == mass_from_i(1, gy, 1, 0, 0, false, 0, 0));
        // the i = 0 row: only the all-filler split deposits at offset 0
        assert(split_count(1, 0, 0, f, 0, 0, 1) == 0) by (nonlinear_arith)
            requires
                binom(0nat, 1) == 0,
        ;
        assert(split_count(1, 0, 0, f, 0, 0, 2) == 0) by (nonlinear_arith)
            requires
                binom(0nat, 2) == 0,
        ;
        assert(split_count(1, 0, 0, f, 0, 0, 3) == 0) by (nonlinear_arith)
            requires
                binom(0nat, 3) == 0,
        ;
        lemma_mass_term_zero(1, gy, 1, 0, 0, false, 0, 0, 0, 1);
        lemma_mass_term_zero(1, gy, 1, 0, 0, false, 0, 0, 0, 2);
        lemma_mass_term_zero(1, gy, 1, 0, 0, false, 0, 0, 0, 3);
        assert(mass_from_k(1, gy, 1, 0, 0, false, 0, 0, 0, 4) == 0);
        assert(mass_from_k(1, gy, 1, 0, 0, false, 0, 0, 0, 0) == split_count(1, 0, 0, f, 0, 0, 0)
            * mass_at(
            next_triggers(1, 0, 0, false),
            (gy - 3) as nat,
            sat_sub(1, 0),
            sat_sub(0, 0),
            sat_sub(0, 0),
            next_beacon(0, 0, false),
            0 - draw_delta(0, 0, false),
        ) + mass_from_k(1, gy, 1, 0, 0, false, 0, 0, 0, 1));
        assert(mass_at(0, (gy - 3) as nat, 1, 0, 0, false, 0) == d3);
        assert(split_count(1, 0, 0, f, 0, 0, 0) == cf) by (nonlinear_arith)
            requires
                split_count(1, 0, 0, f, 0, 0, 0) == binom(1, 0) * binom(0nat, 0) * binom(0nat, 0)
                    * binom(f, sat_sub(3, 0)),
                binom(1, 0) == 1,
                binom(0nat, 0) == 1,
                cf == binom(f, sat_sub(3, 0)),
        ;
        assert(mass_from_k(1, gy, 1, 0, 0, false, 0, 0, 0, 0) == cf * d3);
        lemma_mass_from_j_zero(1, gy, 1, 0, 0, false, 0, 0, 1);
        assert(mass_from_j(1, gy, 1, 0, 0, false, 0, 0, 0) == cf * d3 + 0);
        // the i = 1 row: the successor is terminal with its mass at offset 2
        assert(mass_at(
            next_triggers(1, 1, 0, false),
            (gy - 3) as nat,
            sat_sub(1, 1),
            sat_sub(0, 0),
            sat_sub(0, 0),
            next_beacon(1, 0, false),
            0 - draw_delta(1, 0, false),
        ) == 0);
        assert(split_count(1, 0, 0, f, 1, 0, 0) * mass_at(
            next_triggers(1, 1, 0, false),
            (gy - 3) as nat,
            sat_sub(1, 1),
            sat_sub(0, 0),
            sat_sub(0, 0),
            next_beacon(1, 0, false),
            0 - draw_delta(1, 0, false),
        ) == 0) by (nonlinear_arith)
            requires
                mass_at(
                    next_triggers(1, 1, 0, false),
                    (gy - 3) as nat,
                    sat_sub(1, 1),
                    sat_sub(0, 0),
                    sat_sub(0, 0),
                    next_beacon(1, 0, false),
                    0 - draw_delta(1, 0, false),
                ) == 0,
        ;
        assert(split_count(1, 0, 0, f, 1, 0, 1) == 0) by (nonlinear_arith)
            requires
                binom(0nat, 1) == 0,
        ;
        assert(split_count(1, 0, 0, f, 1, 0, 2) == 0) by (nonlinear_arith)
            requires
                binom(0nat, 2) == 0,
        ;
        lemma_mass_term_zero(1, gy, 1, 0, 0, false, 0, 1, 0, 1);
        lemma_mass_term_zero(1, gy, 1, 0, 0, false, 0, 1, 0, 2);
        assert(mass_from_k(1, gy, 1, 0, 0, false, 0, 1, 0, 3) == 0);
        assert(mass_from_k(1, gy, 1, 0, 0, false, 0, 1, 0, 0) == 0);
        lemma_mass_from_j_zero(1, gy, 1, 0, 0, false, 0, 1, 1);
        assert(mass_from_j(1, gy, 1, 0, 0, false, 0, 1, 0) == 0 + 0);
        lemma_mass_from_i_zero(1, gy, 1, 0, 0, false, 0, 2);
        assert(mass_from_i(1, gy, 1, 0, 0, false, 0, 1) == 0 + 0);
        assert(mass_from_i(1, gy, 1, 0, 0, false, 0, 0) == cf * d3 + 0);
        assert(miss_numerator(1nat, (gy - 3) as nat, 0) == 1);
        assert(miss_numerator(1, gy, 1) == cf * 1);
        assert((cf * d3) * (cg * 1) == (cf * 1) * (cg * d3)) by (nonlinear_arith);
    }
}

} // verus!
