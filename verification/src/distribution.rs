//! The exact outcome distribution of the cascading draw-and-trigger process.
//!
//! Every probability is a natural-number numerator over the common
//! denominator `pool_denominator(gy)`: the product of C(gy - 3t, 3) over all
//! draw levels down to a pool smaller than the draw size.  The recursion is
//! specified by `mass_at`, and the executable enumeration is proved to
//! produce exactly those numerators, with the whole histogram summing to the
//! denominator: the distribution sums to one, exactly.

use vstd::prelude::*;
use vstd::arithmetic::div_mod::{lemma_div_multiples_vanish, lemma_fundamental_div_mod};

use crate::combinatorics::{
    binom, sat_sub, binomial_u128, lemma_binom_above, lemma_binom_pos, lemma_binom_three,
    lemma_binom_zero, lemma_vandermonde_one, lemma_vandermonde_two, lemma_vandermonde_three,
};

verus! {

/// Common denominator for a pool of `gy` items: the product of the total
/// draw combinations at every level of the depletion schedule.
pub open spec fn pool_denominator(gy: nat) -> nat
    decreases gy,
{
    if gy < 3 {
        1
    } else {
        binom(gy, 3) * pool_denominator((gy - 3) as nat)
    }
}

/// Is a process state terminal?  Checked before any draw is made.
pub open spec fn is_terminal(trig: nat, gy: nat, a: nat, c: nat) -> bool {
    trig == 0 || (a == 0 && c == 0) || gy < 3
}

/// Outcome delta of one draw containing `i` primary and `k` secondary items
/// (the toggle doubles a primary draw and is then consumed).
pub open spec fn draw_delta(i: nat, k: nat, beacon: bool) -> nat {
    if i > 0 {
        if beacon {
            4
        } else {
            2
        }
    } else if k > 0 {
        1
    } else {
        0
    }
}

/// The modifier flag after a draw: cleared by a primary draw, armed by a
/// toggle draw when no primary item was drawn in the same draw.
pub open spec fn next_beacon(i: nat, j: nat, beacon: bool) -> bool {
    if i > 0 {
        false
    } else if j > 0 {
        true
    } else {
        beacon
    }
}

/// Pending triggers after a draw: one is consumed, and each outcome point
/// grants one new trigger.
pub open spec fn next_triggers(trig: nat, i: nat, k: nat, beacon: bool) -> nat {
    sat_sub(trig + draw_delta(i, k, beacon), 1)
}

/// Number of distinct draws taking `i` primary, `j` toggle, `k` secondary
/// items and the rest filler from a pool with `f` filler items.
pub open spec fn split_count(a: nat, b: nat, c: nat, f: nat, i: nat, j: nat, k: nat) -> nat {
    binom(a, i) * binom(b, j) * binom(c, k) * binom(f, sat_sub(3, i + j + k))
}

/// Sum of `split_count` over secondary counts from `k` up.
pub open spec fn count_from_k(a: nat, b: nat, c: nat, f: nat, i: nat, j: nat, k: nat) -> nat
    decreases 4 - k,
{
    if i + j + k > 3 {
        0
    } else {
        split_count(a, b, c, f, i, j, k) + count_from_k(a, b, c, f, i, j, (k + 1) as nat)
    }
}

/// Sum of `split_count` over toggle counts from `j` up.
pub open spec fn count_from_j(a: nat, b: nat, c: nat, f: nat, i: nat, j: nat) -> nat
    decreases 4 - j,
{
    if i + j > 3 {
        0
    } else {
        count_from_k(a, b, c, f, i, j, 0) + count_from_j(a, b, c, f, i, (j + 1) as nat)
    }
}

/// Sum of `split_count` over primary counts from `i` up.
pub open spec fn count_from_i(a: nat, b: nat, c: nat, f: nat, i: nat) -> nat
    decreases 4 - i,
{
    if i > 3 {
        0
    } else {
        count_from_j(a, b, c, f, i, 0) + count_from_i(a, b, c, f, (i + 1) as nat)
    }
}

/// The scaled probability mass that a state deposits at outcome offset `o`
/// (additional outcome points beyond those already accumulated), as a
/// numerator over `pool_denominator(gy)`.
pub open spec fn mass_at(trig: nat, gy: nat, a: nat, b: nat, c: nat, beacon: bool, o: int) -> nat
    decreases gy, 4int, 0int,
{
    if is_terminal(trig, gy, a, c) {
        if o == 0 {
            pool_denominator(gy)
        } else {
            0
        }
    } else {
        mass_from_i(trig, gy, a, b, c, beacon, o, 0)
    }
}

/// Mass contributed by draws taking `i` or more primary items.
pub open spec fn mass_from_i(
    trig: nat,
    gy: nat,
    a: nat,
    b: nat,
    c: nat,
    beacon: bool,
    o: int,
    i: nat,
) -> nat
    decreases gy, 3int, 4 - i,
{
    if i > 3 {
        0
    } else {
        mass_from_j(trig, gy, a, b, c, beacon, o, i, 0) + mass_from_i(
            trig,
            gy,
            a,
            b,
            c,
            beacon,
            o,
            (i + 1) as nat,
        )
    }
}

/// Mass contributed by draws with `i` primary items and `j` or more toggles.
pub open spec fn mass_from_j(
    trig: nat,
    gy: nat,
    a: nat,
    b: nat,
    c: nat,
    beacon: bool,
    o: int,
    i: nat,
    j: nat,
) -> nat
    decreases gy, 2int, 4 - j,
{
    if i + j > 3 {
        0
    } else {
        mass_from_k(trig, gy, a, b, c, beacon, o, i, j, 0) + mass_from_j(
            trig,
            gy,
            a,
            b,
            c,
            beacon,
            o,
            i,
            (j + 1) as nat,
        )
    }
}

/// Mass contributed by draws with `i` primary, `j` toggle, and `k` or more
/// secondary items.  Each term weights the successor state's mass by the
/// number of distinct draws realizing the split.
pub open spec fn mass_from_k(
    trig: nat,
    gy: nat,
    a: nat,
    b: nat,
    c: nat,
    beacon: bool,
    o: int,
    i: nat,
    j: nat,
    k: nat,
) -> nat
    decreases gy, 1int, 4 - k,
{
    if i + j + k > 3 || gy < 3 {
        0
    } else {
        split_count(a, b, c, sat_sub(gy, a + b + c), i, j, k) * mass_at(
            next_triggers(trig, i, k, beacon),
            (gy - 3) as nat,
            sat_sub(a, i),
            sat_sub(b, j),
            sat_sub(c, k),
            next_beacon(i, j, beacon),
            o - draw_delta(i, k, beacon),
        ) + mass_from_k(trig, gy, a, b, c, beacon, o, i, j, (k + 1) as nat)
    }
}

/// Sum of the entries of a histogram.
pub open spec fn sum128(s: Seq<u128>) -> int
    decreases s.len(),
{
    if s.len() == 0 {
        0
    } else {
        sum128(s.drop_last()) + s.last()
    }
}

pub proof fn lemma_pool_denominator_pos(gy: nat)
    ensures
        pool_denominator(gy) >= 1,
    decreases gy,
{
    if gy >= 3 {
        lemma_pool_denominator_pos((gy - 3) as nat);
        lemma_binom_pos(gy, 3);
        assert(binom(gy, 3) * pool_denominator((gy - 3) as nat) >= 1 * 1) by (nonlinear_arith)
            requires
                binom(gy, 3) >= 1,
                pool_denominator((gy - 3) as nat) >= 1,
        ;
    }
}

/// a * (b + c) == a * b + a * c, for direct use where Verus's default solver
/// will not distribute.
pub proof fn lemma_mul_distrib(a: int, b: int, c: int)
    ensures
        a * (b + c) == a * b + a * c,
{
    assert(a * (b + c) == a * b + a * c) by (nonlinear_arith);
}

pub proof fn lemma_mul_le(a: int, b1: int, b2: int)
    requires
        a >= 0,
        0 <= b1 <= b2,
    ensures
        a * b1 <= a * b2,
{
    assert(a * b1 <= a * b2) by (nonlinear_arith)
        requires
            a >= 0,
            0 <= b1 <= b2,
    ;
}

pub proof fn lemma_sum128_nonneg(s: Seq<u128>)
    ensures
        sum128(s) >= 0,
    decreases s.len(),
{
    if s.len() > 0 {
        lemma_sum128_nonneg(s.drop_last());
    }
}

pub proof fn lemma_sum128_le(s: Seq<u128>, i: int)
    requires
        0 <= i < s.len(),
    ensures
        s[i] <= sum128(s),
    decreases s.len(),
{
    if i == s.len() - 1 {
        lemma_sum128_nonneg(s.drop_last());
    } else {
        lemma_sum128_le(s.drop_last(), i);
    }
}

pub proof fn lemma_sum128_update(s: Seq<u128>, i: int, v: u128)
    requires
        0 <= i < s.len(),
    ensures
        sum128(s.update(i, v)) == sum128(s) - s[i] + v,
    decreases s.len(),
{
    let t = s.update(i, v);
    if i == s.len() - 1 {
        assert(t.drop_last() =~= s.drop_last());
        assert(t.last() == v);
    } else {
        assert(t.drop_last() =~= s.drop_last().update(i, v));
        lemma_sum128_update(s.drop_last(), i, v);
        assert(t.last() == s.last());
    }
}

pub proof fn lemma_sum128_push(s: Seq<u128>, v: u128)
    ensures
        sum128(s.push(v)) == sum128(s) + v,
{
    assert(s.push(v).drop_last() =~= s);
}

// ---------------------------------------------------------------------------
// Vandermonde: the split counts over one draw sum to C(gy, 3).
// ---------------------------------------------------------------------------

#[verifier::rlimit(100)]
#[verifier::spinoff_prover]
proof fn lemma_count_from_k_total(a: nat, b: nat, c: nat, f: nat, i: nat, j: nat)
    requires
        i + j <= 3,
    ensures
        count_from_k(a, b, c, f, i, j, 0) == binom(a, i) * binom(b, j) * binom(
            (c + f) as nat,
            sat_sub(3, i + j),
        ),
{
    let x = binom(a, i) * binom(b, j);
    reveal_with_fuel(count_from_k, 6);
    if i + j == 3 {
        assert(count_from_k(a, b, c, f, i, j, 0) == split_count(a, b, c, f, i, j, 0) + 0);
        lemma_binom_zero(c);
        lemma_binom_zero(f);
        lemma_binom_zero((c + f) as nat);
        assert(x * 1 * 1 == x * 1) by (nonlinear_arith);
    } else if i + j == 2 {
        lemma_vandermonde_one(c, f);
        assert(count_from_k(a, b, c, f, i, j, 0) == split_count(a, b, c, f, i, j, 0)
            + split_count(a, b, c, f, i, j, 1) + 0);
        assert(x * binom(c, 0) * binom(f, 1) + x * binom(c, 1) * binom(f, 0) == x * (binom(c, 0)
            * binom(f, 1) + binom(c, 1) * binom(f, 0))) by (nonlinear_arith);
    } else if i + j == 1 {
        lemma_vandermonde_two(c, f);
        assert(count_from_k(a, b, c, f, i, j, 0) == split_count(a, b, c, f, i, j, 0)
            + split_count(a, b, c, f, i, j, 1) + split_count(a, b, c, f, i, j, 2) + 0);
        assert(x * binom(c, 0) * binom(f, 2) + x * binom(c, 1) * binom(f, 1) + x * binom(c, 2)
            * binom(f, 0) == x * (binom(c, 0) * binom(f, 2) + binom(c, 1) * binom(f, 1) + binom(
            c,
            2,
        ) * binom(f, 0))) by (nonlinear_arith);
    } else {
        lemma_vandermonde_three(c, f);
        assert(count_from_k(a, b, c, f, i, j, 0) == split_count(a, b, c, f, i, j, 0)
            + split_count(a, b, c, f, i, j, 1) + split_count(a, b, c, f, i, j, 2) + split_count(
            a,
            b,
            c,
            f,
            i,
            j,
            3,
        ) + 0);
        assert(x * binom(c, 0) * binom(f, 3) + x * binom(c, 1) * binom(f, 2) + x * binom(c, 2)
            * binom(f, 1) + x * binom(c, 3) * binom(f, 0) == x * (binom(c, 0) * binom(f, 3)
            + binom(c, 1) * binom(f, 2) + binom(c, 2) * binom(f, 1) + binom(c, 3) * binom(
            f,
            0,
        ))) by (nonlinear_arith);
    }
}

#[verifier::rlimit(100)]
#[verifier::spinoff_prover]
proof fn lemma_count_from_j_total(a: nat, b: nat, c: nat, f: nat, i: nat)
    requires
        i <= 3,
    ensures
        count_from_j(a, b, c, f, i, 0) == binom(a, i) * binom((b + c + f) as nat, sat_sub(3, i)),
{
    let q = (c + f) as nat;
    let x = binom(a, i);
    reveal_with_fuel(count_from_j, 6);
    lemma_count_from_k_total(a, b, c, f, i, 0);
    if i < 3 {
        lemma_count_from_k_total(a, b, c, f, i, 1);
    }
    if i < 2 {
        lemma_count_from_k_total(a, b, c, f, i, 2);
    }
    if i < 1 {
        lemma_count_from_k_total(a, b, c, f, i, 3);
    }
    if i == 3 {
        lemma_binom_zero(b);
        lemma_binom_zero((b + q) as nat);
        assert(count_from_j(a, b, c, f, i, 0) == count_from_k(a, b, c, f, i, 0, 0) + 0);
        assert(x * binom(b, 0) * binom(q, 0) == x * 1) by (nonlinear_arith)
            requires
                binom(b, 0) == 1,
                binom(q, 0) == 1,
        ;
    } else if i == 2 {
        lemma_vandermonde_one(b, q);
        assert(count_from_j(a, b, c, f, i, 0) == count_from_k(a, b, c, f, i, 0, 0) + count_from_k(
            a,
            b,
            c,
            f,
            i,
            1,
            0,
        ) + 0);
        assert(x * binom(b, 0) * binom(q, 1) + x * binom(b, 1) * binom(q, 0) == x * (binom(b, 0)
            * binom(q, 1) + binom(b, 1) * binom(q, 0))) by (nonlinear_arith);
    } else if i == 1 {
        lemma_vandermonde_two(b, q);
        assert(count_from_j(a, b, c, f, i, 0) == count_from_k(a, b, c, f, i, 0, 0) + count_from_k(
            a,
            b,
            c,
            f,
            i,
            1,
            0,
        ) + count_from_k(a, b, c, f, i, 2, 0) + 0);
        assert(x * binom(b, 0) * binom(q, 2) + x * binom(b, 1) * binom(q, 1) + x * binom(b, 2)
            * binom(q, 0) == x * (binom(b, 0) * binom(q, 2) + binom(b, 1) * binom(q, 1) + binom(
            b,
            2,
        ) * binom(q, 0))) by (nonlinear_arith);
    } else {
        lemma_vandermonde_three(b, q);
        assert(count_from_j(a, b, c, f, i, 0) == count_from_k(a, b, c, f, i, 0, 0) + count_from_k(
            a,
            b,
            c,
            f,
            i,
            1,
            0,
        ) + count_from_k(a, b, c, f, i, 2, 0) + count_from_k(a, b, c, f, i, 3, 0) + 0);
        assert(x * binom(b, 0) * binom(q, 3) + x * binom(b, 1) * binom(q, 2) + x * binom(b, 2)
            * binom(q, 1) + x * binom(b, 3) * binom(q, 0) == x * (binom(b, 0) * binom(q, 3)
            + binom(b, 1) * binom(q, 2) + binom(b, 2) * binom(q, 1) + binom(b, 3) * binom(
            q,
            0,
        ))) by (nonlinear_arith);
    }
}

/// The generalized Vandermonde identity: the number of ways to split one
/// draw of three among the four item classes is C(a + b + c + f, 3).
pub proof fn lemma_count_total(a: nat, b: nat, c: nat, f: nat)
    ensures
        count_from_i(a, b, c, f, 0) == binom((a + b + c + f) as nat, 3),
{
    let q = (b + c + f) as nat;
    reveal_with_fuel(count_from_i, 6);
    lemma_count_from_j_total(a, b, c, f, 0);
    lemma_count_from_j_total(a, b, c, f, 1);
    lemma_count_from_j_total(a, b, c, f, 2);
    lemma_count_from_j_total(a, b, c, f, 3);
    lemma_vandermonde_three(a, q);
    assert(count_from_i(a, b, c, f, 0) == count_from_j(a, b, c, f, 0, 0) + count_from_j(a, b, c, f, 1, 0)
        + count_from_j(a, b, c, f, 2, 0) + count_from_j(a, b, c, f, 3, 0) + 0);
}

// ---------------------------------------------------------------------------
// Bounds: a single split count never exceeds the total draw count.
// ---------------------------------------------------------------------------

proof fn lemma_count_from_k_suffix(a: nat, b: nat, c: nat, f: nat, i: nat, j: nat, k: nat)
    ensures
        count_from_k(a, b, c, f, i, j, k) <= count_from_k(a, b, c, f, i, j, 0),
    decreases k,
{
    if k > 0 {
        lemma_count_from_k_suffix(a, b, c, f, i, j, (k - 1) as nat);
        if i + j + (k - 1) > 3 {
            lemma_count_from_k_above(a, b, c, f, i, j, k);
        }
    }
}

proof fn lemma_count_from_k_above(a: nat, b: nat, c: nat, f: nat, i: nat, j: nat, k: nat)
    requires
        i + j + k > 3,
    ensures
        count_from_k(a, b, c, f, i, j, k) == 0,
{
}

proof fn lemma_count_from_j_suffix(a: nat, b: nat, c: nat, f: nat, i: nat, j: nat)
    ensures
        count_from_j(a, b, c, f, i, j) <= count_from_j(a, b, c, f, i, 0),
    decreases j,
{
    if j > 0 {
        lemma_count_from_j_suffix(a, b, c, f, i, (j - 1) as nat);
    }
}

proof fn lemma_count_from_i_suffix(a: nat, b: nat, c: nat, f: nat, i: nat)
    ensures
        count_from_i(a, b, c, f, i) <= count_from_i(a, b, c, f, 0),
    decreases i,
{
    if i > 0 {
        lemma_count_from_i_suffix(a, b, c, f, (i - 1) as nat);
    }
}

/// One split count is at most the total number of draws from the pool.
pub proof fn lemma_split_le_total(a: nat, b: nat, c: nat, f: nat, i: nat, j: nat, k: nat)
    requires
        i + j + k <= 3,
    ensures
        split_count(a, b, c, f, i, j, k) <= binom((a + b + c + f) as nat, 3),
{
    assert(split_count(a, b, c, f, i, j, k) <= count_from_k(a, b, c, f, i, j, k));
    lemma_count_from_k_suffix(a, b, c, f, i, j, k);
    assert(count_from_k(a, b, c, f, i, j, 0) <= count_from_j(a, b, c, f, i, j));
    lemma_count_from_j_suffix(a, b, c, f, i, j);
    assert(count_from_j(a, b, c, f, i, 0) <= count_from_i(a, b, c, f, i));
    lemma_count_from_i_suffix(a, b, c, f, i);
    lemma_count_total(a, b, c, f);
}

// ---------------------------------------------------------------------------
// Skipped splits contribute nothing.
// ---------------------------------------------------------------------------

proof fn lemma_split_zero(a: nat, b: nat, c: nat, f: nat, i: nat, j: nat, k: nat)
    requires
        i > a || j > b || k > c || sat_sub(3, i + j + k) > f,
    ensures
        split_count(a, b, c, f, i, j, k) == 0,
{
    if i > a {
        lemma_binom_above(a, i);
    } else if j > b {
        lemma_binom_above(b, j);
    } else if k > c {
        lemma_binom_above(c, k);
    } else {
        lemma_binom_above(f, sat_sub(3, i + j + k));
    }
    assert(binom(a, i) * binom(b, j) * binom(c, k) * binom(f, sat_sub(3, i + j + k)) == 0)
        by (nonlinear_arith)
        requires
            binom(a, i) == 0 || binom(b, j) == 0 || binom(c, k) == 0 || binom(
                f,
                sat_sub(3, i + j + k),
            ) == 0,
    ;
}

proof fn lemma_zero_from_k(
    trig: nat,
    gy: nat,
    a: nat,
    b: nat,
    c: nat,
    beacon: bool,
    o: int,
    i: nat,
    j: nat,
    k: nat,
)
    requires
        i > a || j > b,
    ensures
        count_from_k(a, b, c, sat_sub(gy, a + b + c), i, j, k) == 0,
        mass_from_k(trig, gy, a, b, c, beacon, o, i, j, k) == 0,
    decreases 4 - k,
{
    let f = sat_sub(gy, a + b + c);
    if i + j + k <= 3 {
        lemma_split_zero(a, b, c, f, i, j, k);
        lemma_zero_from_k(trig, gy, a, b, c, beacon, o, i, j, (k + 1) as nat);
    }
}

proof fn lemma_zero_from_j(
    trig: nat,
    gy: nat,
    a: nat,
    b: nat,
    c: nat,
    beacon: bool,
    o: int,
    i: nat,
    j: nat,
)
    requires
        i > a,
    ensures
        count_from_j(a, b, c, sat_sub(gy, a + b + c), i, j) == 0,
        mass_from_j(trig, gy, a, b, c, beacon, o, i, j) == 0,
    decreases 4 - j,
{
    if i + j <= 3 {
        lemma_zero_from_k(trig, gy, a, b, c, beacon, o, i, j, 0);
        lemma_zero_from_j(trig, gy, a, b, c, beacon, o, i, (j + 1) as nat);
    }
}

// ---------------------------------------------------------------------------
// Step lemmas: peeling one term off a partial sum, under a common factor.
// ---------------------------------------------------------------------------

proof fn lemma_pc_mass_i_step(
    trig: nat, gy: nat, a: nat, b: nat, c: nat, beacon: bool, o: int, i: nat, pc: nat,
)
    requires
        i <= 3,
    ensures
        pc * mass_from_i(trig, gy, a, b, c, beacon, o, i) == pc * mass_from_j(
            trig, gy, a, b, c, beacon, o, i, 0,
        ) + pc * mass_from_i(trig, gy, a, b, c, beacon, o, (i + 1) as nat),
{
    lemma_mul_distrib(
        pc as int,
        mass_from_j(trig, gy, a, b, c, beacon, o, i, 0) as int,
        mass_from_i(trig, gy, a, b, c, beacon, o, (i + 1) as nat) as int,
    );
}

proof fn lemma_pc_mass_j_step(
    trig: nat, gy: nat, a: nat, b: nat, c: nat, beacon: bool, o: int, i: nat, j: nat, pc: nat,
)
    requires
        i + j <= 3,
    ensures
        pc * mass_from_j(trig, gy, a, b, c, beacon, o, i, j) == pc * mass_from_k(
            trig, gy, a, b, c, beacon, o, i, j, 0,
        ) + pc * mass_from_j(trig, gy, a, b, c, beacon, o, i, (j + 1) as nat),
{
    lemma_mul_distrib(
        pc as int,
        mass_from_k(trig, gy, a, b, c, beacon, o, i, j, 0) as int,
        mass_from_j(trig, gy, a, b, c, beacon, o, i, (j + 1) as nat) as int,
    );
}

proof fn lemma_pc_mass_k_step(
    trig: nat, gy: nat, a: nat, b: nat, c: nat, beacon: bool, o: int, i: nat, j: nat, k: nat,
    pc: nat,
)
    requires
        i + j + k <= 3,
        gy >= 3,
    ensures
        pc * mass_from_k(trig, gy, a, b, c, beacon, o, i, j, k) == (pc * split_count(
            a, b, c, sat_sub(gy, a + b + c), i, j, k,
        )) * mass_at(
            next_triggers(trig, i, k, beacon),
            (gy - 3) as nat,
            sat_sub(a, i),
            sat_sub(b, j),
            sat_sub(c, k),
            next_beacon(i, j, beacon),
            o - draw_delta(i, k, beacon),
        ) + pc * mass_from_k(trig, gy, a, b, c, beacon, o, i, j, (k + 1) as nat),
{
    let sp = split_count(a, b, c, sat_sub(gy, a + b + c), i, j, k);
    let x = mass_at(
        next_triggers(trig, i, k, beacon),
        (gy - 3) as nat,
        sat_sub(a, i),
        sat_sub(b, j),
        sat_sub(c, k),
        next_beacon(i, j, beacon),
        o - draw_delta(i, k, beacon),
    );
    let rest = mass_from_k(trig, gy, a, b, c, beacon, o, i, j, (k + 1) as nat);
    assert(mass_from_k(trig, gy, a, b, c, beacon, o, i, j, k) == sp * x + rest);
    assert(pc * (sp * x + rest) == (pc * sp) * x + pc * rest) by (nonlinear_arith);
}

proof fn lemma_wd_count_i_step(a: nat, b: nat, c: nat, f: nat, i: nat, wd: nat)
    requires
        i <= 3,
    ensures
        wd * count_from_i(a, b, c, f, i) == wd * count_from_j(a, b, c, f, i, 0) + wd
            * count_from_i(a, b, c, f, (i + 1) as nat),
{
    lemma_mul_distrib(
        wd as int,
        count_from_j(a, b, c, f, i, 0) as int,
        count_from_i(a, b, c, f, (i + 1) as nat) as int,
    );
}

proof fn lemma_wd_count_j_step(a: nat, b: nat, c: nat, f: nat, i: nat, j: nat, wd: nat)
    requires
        i + j <= 3,
    ensures
        wd * count_from_j(a, b, c, f, i, j) == wd * count_from_k(a, b, c, f, i, j, 0) + wd
            * count_from_j(a, b, c, f, i, (j + 1) as nat),
{
    lemma_mul_distrib(
        wd as int,
        count_from_k(a, b, c, f, i, j, 0) as int,
        count_from_j(a, b, c, f, i, (j + 1) as nat) as int,
    );
}

proof fn lemma_wd_count_k_step(a: nat, b: nat, c: nat, f: nat, i: nat, j: nat, k: nat, wd: nat)
    requires
        i + j + k <= 3,
    ensures
        wd * count_from_k(a, b, c, f, i, j, k) == wd * split_count(a, b, c, f, i, j, k) + wd
            * count_from_k(a, b, c, f, i, j, (k + 1) as nat),
{
    lemma_mul_distrib(
        wd as int,
        split_count(a, b, c, f, i, j, k) as int,
        count_from_k(a, b, c, f, i, j, (k + 1) as nat) as int,
    );
}

/// For pools this large, one draw level's binomial coefficient is already
/// at least 10^17.
proof fn lemma_binom3_lower(n: nat)
    requires
        n >= 999994,
    ensures
        binom(n, 3) >= 100000000000000000,
{
    lemma_binom_three(n);
    assert(n * (n - 1) >= 999994 * 999993) by (nonlinear_arith)
        requires
            n >= 999994,
    ;
    assert(n * (n - 1) * (n - 2) >= 600000000000000000) by (nonlinear_arith)
        requires
            n * (n - 1) >= 999994 * 999993,
            n >= 999994,
    ;
    assert(binom(n, 3) >= 100000000000000000) by (nonlinear_arith)
        requires
            6 * binom(n, 3) == n * (n - 1) * (n - 2),
            n * (n - 1) * (n - 2) >= 600000000000000000,
    ;
}

/// Beyond a certain pool size the common denominator no longer fits a u128.
proof fn lemma_big_pool_overflows(gy: nat)
    requires
        gy >= 1000000,
    ensures
        pool_denominator(gy) > u128::MAX,
{
    let x1 = binom(gy, 3);
    let x2 = binom((gy - 3) as nat, 3);
    let x3 = binom((gy - 6) as nat, 3);
    let d9 = pool_denominator((gy - 9) as nat);
    lemma_binom3_lower(gy);
    lemma_binom3_lower((gy - 3) as nat);
    lemma_binom3_lower((gy - 6) as nat);
    lemma_pool_denominator_pos((gy - 9) as nat);
    assert(pool_denominator(gy) == x1 * pool_denominator((gy - 3) as nat));
    assert(pool_denominator((gy - 3) as nat) == x2 * pool_denominator((gy - 6) as nat));
    assert(pool_denominator((gy - 6) as nat) == x3 * d9);
    assert(x3 * d9 >= 100000000000000000) by (nonlinear_arith)
        requires
            x3 >= 100000000000000000,
            d9 >= 1,
    ;
    assert(x2 * (x3 * d9) >= 10000000000000000000000000000000000) by (nonlinear_arith)
        requires
            x2 >= 100000000000000000,
            x3 * d9 >= 100000000000000000,
    ;
    assert(x1 * (x2 * (x3 * d9)) > u128::MAX) by (nonlinear_arith)
        requires
            x1 >= 100000000000000000,
            x2 * (x3 * d9) >= 10000000000000000000000000000000000,
    ;
}

/// Computes the common denominator for a pool of `gy` items, or reports
/// that it does not fit a u128.
fn denominator_fits(gy: u32) -> (r: Option<u128>)
    ensures
        match r {
            Some(d) => d as nat == pool_denominator(gy as nat),
            None => pool_denominator(gy as nat) > u128::MAX,
        },
{
    let mut cur = gy;
    let mut d: u128 = 1;
    while cur >= 3
        invariant
            cur <= gy,
            pool_denominator(gy as nat) == d as nat * pool_denominator(cur as nat),
        decreases cur,
    {
        let cmb = binomial_u128(cur as u128, 3);
        proof {
            lemma_binom_pos(cur as nat, 3);
            lemma_pool_denominator_pos((cur - 3) as nat);
            assert(pool_denominator(cur as nat) == binom(cur as nat, 3) * pool_denominator(
                (cur - 3) as nat,
            ));
        }
        if d > u128::MAX / cmb {
            proof {
                lemma_fundamental_div_mod(u128::MAX as int, cmb as int);
                assert(d as int * cmb as int > u128::MAX) by (nonlinear_arith)
                    requires
                        d as int >= (u128::MAX as int) / (cmb as int) + 1,
                        u128::MAX as int == (cmb as int) * ((u128::MAX as int) / (cmb as int))
                            + (u128::MAX as int) % (cmb as int),
                        (u128::MAX as int) % (cmb as int) < (cmb as int),
                        cmb as int >= 1,
                ;
                assert(d as int * (cmb as int * pool_denominator((cur - 3) as nat) as int)
                    >= d as int * cmb as int) by (nonlinear_arith)
                    requires
                        pool_denominator((cur - 3) as nat) as int >= 1,
                        d as int >= 0,
                        cmb as int >= 0,
                ;
            }
            return None;
        }
        proof {
            lemma_fundamental_div_mod(u128::MAX as int, cmb as int);
            assert(d as int * cmb as int <= u128::MAX as int) by (nonlinear_arith)
                requires
                    d as int <= (u128::MAX as int) / (cmb as int),
                    u128::MAX as int == (cmb as int) * ((u128::MAX as int) / (cmb as int))
                        + (u128::MAX as int) % (cmb as int),
                    (u128::MAX as int) % (cmb as int) >= 0,
                    cmb as int >= 1,
                    d as int >= 0,
            ;
            assert(d as int * (cmb as int * pool_denominator((cur - 3) as nat) as int) == (d
                as int * cmb as int) * pool_denominator((cur - 3) as nat) as int)
                by (nonlinear_arith);
        }
        d = d * cmb;
        cur = cur - 3;
    }
    proof {
        assert(pool_denominator(cur as nat) == 1);
        assert(d as nat * 1 == d as nat) by (nonlinear_arith);
    }
    Some(d)
}

/// The recursive enumerator.  Walks every valid split of one draw, recurses
/// into the successor state, and deposits `weight` (the scaled probability
/// of reaching this state) at the accumulated outcome index of every
/// terminal branch.  `pc` is the product of the split counts along the path
/// from the root, so `weight == pc * pool_denominator(gy)`.
#[verifier::loop_isolation(false)]
#[verifier::rlimit(100)]
#[verifier::spinoff_prover]
fn calculate(
    trig: u64,
    gy: u32,
    a: u32,
    b: u32,
    c: u32,
    cur: u32,
    beacon: bool,
    weight: u128,
    hist: &mut Vec<u128>,
    Ghost(pc): Ghost<nat>,
)
    requires
        a + b + c <= gy,
        cur + 2 * a + 2 * b + c + (if beacon { 2int } else { 0int }) < old(hist)@.len(),
        old(hist)@.len() <= u32::MAX,
        trig + gy + 4 <= u64::MAX,
        weight as nat == pc * pool_denominator(gy as nat),
        sum128(old(hist)@) + weight <= u128::MAX,
    ensures
        final(hist)@.len() == old(hist)@.len(),
        forall|o: int| #![trigger final(hist)@[o]]
            0 <= o < old(hist)@.len() ==> final(hist)@[o] as int == old(hist)@[o] as int + pc
                * mass_at(trig as nat, gy as nat, a as nat, b as nat, c as nat, beacon, o - cur),
        sum128(final(hist)@) == sum128(old(hist)@) + weight,
    decreases gy,
{
    let ghost big_t = trig as nat;
    let ghost big_g = gy as nat;
    let ghost big_a = a as nat;
    let ghost big_b = b as nat;
    let ghost big_c = c as nat;
    if trig == 0 || (a == 0 && c == 0) || gy < 3 {
        proof {
            lemma_sum128_le(hist@, cur as int);
        }
        let idx = cur as usize;
        let v = hist[idx];
        hist[idx] = v + weight;
        proof {
            lemma_sum128_update(old(hist)@, cur as int, (v + weight) as u128);
            assert forall|o: int|
                0 <= o < old(hist)@.len() implies hist@[o] as int == old(hist)@[o] as int + pc
                * mass_at(big_t, big_g, big_a, big_b, big_c, beacon, o - cur) by {
                if o == cur {
                    assert(mass_at(big_t, big_g, big_a, big_b, big_c, beacon, 0)
                        == pool_denominator(big_g));
                } else {
                    assert(mass_at(big_t, big_g, big_a, big_b, big_c, beacon, o - cur) == 0);
                    assert(pc * mass_at(big_t, big_g, big_a, big_b, big_c, beacon, o - cur)
                        == pc * 0) by (nonlinear_arith)
                        requires
                            mass_at(big_t, big_g, big_a, big_b, big_c, beacon, o - cur) == 0,
                    ;
                }
            }
        }
        return ;
    }
    let ghost fs = sat_sub(big_g, big_a + big_b + big_c);
    let ghost d3 = pool_denominator((gy - 3) as nat);
    let ghost wd = pc * d3;
    let total = binomial_u128(gy as u128, 3);
    proof {
        lemma_binom_pos(big_g, 3);
        lemma_pool_denominator_pos((gy - 3) as nat);
        assert(pool_denominator(big_g) == binom(big_g, 3) * d3);
        assert(pc * (binom(big_g, 3) * d3) == (total as int) * (wd as int)) by (nonlinear_arith)
            requires
                wd == pc * d3,
                total as int == binom(big_g, 3),
        ;
        lemma_div_multiples_vanish(wd as int, total as int);
    }
    let wdiv = weight / total;
    proof {
        assert(wdiv as nat == wd);
        assert(wd * binom(big_g, 3) == weight) by (nonlinear_arith)
            requires
                weight as int == (total as int) * (wd as int),
                total as int == binom(big_g, 3),
        ;
    }
    let f = gy - a - b - c;
    proof {
        assert(f as nat == fs);
        lemma_count_total(big_a, big_b, big_c, fs);
        assert(big_a + big_b + big_c + fs == big_g);
        assert(wd * count_from_i(big_a, big_b, big_c, fs, 0) == weight);
    }
    let mut i: u32 = 0;
    while i <= 3
        invariant
            i <= 4,
            hist@.len() == old(hist)@.len(),
            sum128(hist@) + wd * count_from_i(big_a, big_b, big_c, fs, i as nat) == sum128(
                old(hist)@,
            ) + weight,
            forall|o: int| #![trigger hist@[o]]
                0 <= o < old(hist)@.len() ==> hist@[o] as int + pc * mass_from_i(
                    big_t, big_g, big_a, big_b, big_c, beacon, o - cur, i as nat,
                ) == old(hist)@[o] as int + pc * mass_from_i(
                    big_t, big_g, big_a, big_b, big_c, beacon, o - cur, 0,
                ),
        decreases 4 - i,
    {
        let ghost ii = i as nat;
        if i <= a {
            proof {
                lemma_wd_count_i_step(big_a, big_b, big_c, fs, ii, wd);
                assert forall|o: int|
                    0 <= o < old(hist)@.len() implies hist@[o] as int + pc * mass_from_j(
                    big_t, big_g, big_a, big_b, big_c, beacon, o - cur, ii, 0,
                ) + pc * mass_from_i(
                    big_t, big_g, big_a, big_b, big_c, beacon, o - cur, (ii + 1) as nat,
                ) == old(hist)@[o] as int + pc * mass_from_i(
                    big_t, big_g, big_a, big_b, big_c, beacon, o - cur, 0,
                ) by {
                    lemma_pc_mass_i_step(big_t, big_g, big_a, big_b, big_c, beacon, o - cur, ii, pc);
                }
            }
            let mut j: u32 = 0;
            while i + j <= 3
                invariant
                    j <= 4,
                    i + j <= 4,
                    hist@.len() == old(hist)@.len(),
                    sum128(hist@) + wd * count_from_j(big_a, big_b, big_c, fs, ii, j as nat) + wd
                        * count_from_i(big_a, big_b, big_c, fs, (ii + 1) as nat) == sum128(
                        old(hist)@,
                    ) + weight,
                    forall|o: int| #![trigger hist@[o]]
                        0 <= o < old(hist)@.len() ==> hist@[o] as int + pc * mass_from_j(
                            big_t, big_g, big_a, big_b, big_c, beacon, o - cur, ii, j as nat,
                        ) + pc * mass_from_i(
                            big_t, big_g, big_a, big_b, big_c, beacon, o - cur, (ii + 1) as nat,
                        ) == old(hist)@[o] as int + pc * mass_from_i(
                            big_t, big_g, big_a, big_b, big_c, beacon, o - cur, 0,
                        ),
                decreases 4 - j,
            {
                let ghost jj = j as nat;
                if j <= b {
                    proof {
                        lemma_wd_count_j_step(big_a, big_b, big_c, fs, ii, jj, wd);
                        assert forall|o: int|
                            0 <= o < old(hist)@.len() implies hist@[o] as int + pc * mass_from_k(
                            big_t, big_g, big_a, big_b, big_c, beacon, o - cur, ii, jj, 0,
                        ) + pc * mass_from_j(
                            big_t, big_g, big_a, big_b, big_c, beacon, o - cur, ii, (jj + 1) as nat,
                        ) + pc * mass_from_i(
                            big_t, big_g, big_a, big_b, big_c, beacon, o - cur, (ii + 1) as nat,
                        ) == old(hist)@[o] as int + pc * mass_from_i(
                            big_t, big_g, big_a, big_b, big_c, beacon, o - cur, 0,
                        ) by {
                            lemma_pc_mass_j_step(
                                big_t, big_g, big_a, big_b, big_c, beacon, o - cur, ii, jj, pc,
                            );
                        }
                    }
                    let mut k: u32 = 0;
                    while i + j + k <= 3
                        invariant
                            k <= 4,
                            i + j + k <= 4,
                            hist@.len() == old(hist)@.len(),
                            sum128(hist@) + wd * count_from_k(
                                big_a, big_b, big_c, fs, ii, jj, k as nat,
                            ) + wd * count_from_j(big_a, big_b, big_c, fs, ii, (jj + 1) as nat)
                                + wd * count_from_i(big_a, big_b, big_c, fs, (ii + 1) as nat)
                                == sum128(old(hist)@) + weight,
                            forall|o: int| #![trigger hist@[o]]
                                0 <= o < old(hist)@.len() ==> hist@[o] as int + pc * mass_from_k(
                                    big_t, big_g, big_a, big_b, big_c, beacon, o - cur, ii, jj,
                                    k as nat,
                                ) + pc * mass_from_j(
                                    big_t, big_g, big_a, big_b, big_c, beacon, o - cur, ii,
                                    (jj + 1) as nat,
                                ) + pc * mass_from_i(
                                    big_t, big_g, big_a, big_b, big_c, beacon, o - cur,
                                    (ii + 1) as nat,
                                ) == old(hist)@[o] as int + pc * mass_from_i(
                                    big_t, big_g, big_a, big_b, big_c, beacon, o - cur, 0,
                                ),
                        decreases 4 - k,
                    {
                        let ghost kk = k as nat;
                        let m = 3 - i - j - k;
                        if k <= c && m <= f {
                            let ghost sp = split_count(big_a, big_b, big_c, fs, ii, jj, kk);
                            proof {
                                lemma_binom_pos(big_a, ii);
                                lemma_binom_pos(big_b, jj);
                                lemma_binom_pos(big_c, kk);
                                lemma_binom_pos(fs, m as nat);
                                lemma_split_le_total(big_a, big_b, big_c, fs, ii, jj, kk);
                                assert(sat_sub(3, ii + jj + kk) == m as nat);
                            }
                            let b1 = binomial_u128(a as u128, i as u128);
                            let b2 = binomial_u128(b as u128, j as u128);
                            let b3 = binomial_u128(c as u128, k as u128);
                            let b4 = binomial_u128(f as u128, m as u128);
                            proof {
                                assert(sp == b1 as nat * b2 as nat * b3 as nat * b4 as nat);
                                assert(b1 as int * b2 as int <= sp) by (nonlinear_arith)
                                    requires
                                        b3 as int >= 1,
                                        b4 as int >= 1,
                                        b1 as int >= 0,
                                        b2 as int >= 0,
                                        sp as int == b1 as int * b2 as int * b3 as int * b4 as int,
                                ;
                                assert(b1 as int * b2 as int * b3 as int <= sp) by (nonlinear_arith)
                                    requires
                                        b3 as int >= 1,
                                        b4 as int >= 1,
                                        b1 as int >= 0,
                                        b2 as int >= 0,
                                        sp as int == b1 as int * b2 as int * b3 as int * b4 as int,
                                ;
                                assert(sp <= binom(big_g, 3));
                            }
                            let c12 = b1 * b2;
                            let c123 = c12 * b3;
                            let count = c123 * b4;
                            proof {
                                lemma_mul_le(wd as int, count as int, binom(big_g, 3) as int);
                            }
                            let w_child = wdiv * count;
                            let delta: u32 = if i > 0 {
                                if beacon {
                                    4
                                } else {
                                    2
                                }
                            } else if k > 0 {
                                1
                            } else {
                                0
                            };
                            let nb: bool = if i > 0 {
                                false
                            } else if j > 0 {
                                true
                            } else {
                                beacon
                            };
                            let new_trig: u64 = trig + (delta as u64) - 1;
                            proof {
                                assert(draw_delta(ii, kk, beacon) == delta as nat);
                                assert(next_beacon(ii, jj, beacon) == nb);
                                assert(next_triggers(big_t, ii, kk, beacon) == new_trig as nat);
                                assert(sat_sub(big_a, ii) == (a - i) as nat);
                                assert(sat_sub(big_b, jj) == (b - j) as nat);
                                assert(sat_sub(big_c, kk) == (c - k) as nat);
                                assert((w_child as int) == ((pc * sp) as int) * (d3 as int))
                                    by (nonlinear_arith)
                                    requires
                                        w_child as int == wd as int * sp as int,
                                        wd == pc * d3,
                                ;
                                lemma_wd_count_k_step(big_a, big_b, big_c, fs, ii, jj, kk, wd);
                            }
                            let ghost pre = hist@;
                            calculate(
                                new_trig,
                                gy - 3,
                                a - i,
                                b - j,
                                c - k,
                                cur + delta,
                                nb,
                                w_child,
                                hist,
                                Ghost(pc * sp),
                            );
                            proof {
                                assert forall|o: int|
                                    0 <= o < old(hist)@.len() implies hist@[o] as int + pc
                                    * mass_from_k(
                                    big_t, big_g, big_a, big_b, big_c, beacon, o - cur, ii, jj,
                                    (kk + 1) as nat,
                                ) + pc * mass_from_j(
                                    big_t, big_g, big_a, big_b, big_c, beacon, o - cur, ii,
                                    (jj + 1) as nat,
                                ) + pc * mass_from_i(
                                    big_t, big_g, big_a, big_b, big_c, beacon, o - cur,
                                    (ii + 1) as nat,
                                ) == old(hist)@[o] as int + pc * mass_from_i(
                                    big_t, big_g, big_a, big_b, big_c, beacon, o - cur, 0,
                                ) by {
                                    assert(hist@[o] as int == pre[o] as int + (pc * sp) * mass_at(
                                        new_trig as nat,
                                        (gy - 3) as nat,
                                        (a - i) as nat,
                                        (b - j) as nat,
                                        (c - k) as nat,
                                        nb,
                                        o - (cur + delta),
                                    ));
                                    lemma_pc_mass_k_step(
                                        big_t, big_g, big_a, big_b, big_c, beacon, o - cur, ii, jj,
                                        kk, pc,
                                    );
                                }
                            }
                        } else {
                            proof {
                                lemma_split_zero(big_a, big_b, big_c, fs, ii, jj, kk);
                                lemma_wd_count_k_step(big_a, big_b, big_c, fs, ii, jj, kk, wd);
                                assert(wd * split_count(big_a, big_b, big_c, fs, ii, jj, kk)
                                    == wd * 0) by (nonlinear_arith)
                                    requires
                                        split_count(big_a, big_b, big_c, fs, ii, jj, kk) == 0,
                                ;
                                assert forall|o: int|
                                    0 <= o < old(hist)@.len() implies hist@[o] as int + pc
                                    * mass_from_k(
                                    big_t, big_g, big_a, big_b, big_c, beacon, o - cur, ii, jj,
                                    (kk + 1) as nat,
                                ) + pc * mass_from_j(
                                    big_t, big_g, big_a, big_b, big_c, beacon, o - cur, ii,
                                    (jj + 1) as nat,
                                ) + pc * mass_from_i(
                                    big_t, big_g, big_a, big_b, big_c, beacon, o - cur,
                                    (ii + 1) as nat,
                                ) == old(hist)@[o] as int + pc * mass_from_i(
                                    big_t, big_g, big_a, big_b, big_c, beacon, o - cur, 0,
                                ) by {
                                    lemma_pc_mass_k_step(
                                        big_t, big_g, big_a, big_b, big_c, beacon, o - cur, ii, jj,
                                        kk, pc,
                                    );
                                    assert((pc * split_count(big_a, big_b, big_c, fs, ii, jj, kk))
                                        * mass_at(
                                        next_triggers(big_t, ii, kk, beacon),
                                        (gy - 3) as nat,
                                        sat_sub(big_a, ii),
                                        sat_sub(big_b, jj),
                                        sat_sub(big_c, kk),
                                        next_beacon(ii, jj, beacon),
                                        (o - cur) - draw_delta(ii, kk, beacon),
                                    ) == 0) by (nonlinear_arith)
                                        requires
                                            split_count(big_a, big_b, big_c, fs, ii, jj, kk) == 0,
                                    ;
                                }
                            }
                        }
                        k = k + 1;
                    }
                    proof {
                        assert(count_from_k(big_a, big_b, big_c, fs, ii, jj, k as nat) == 0);
                        assert(wd * count_from_k(big_a, big_b, big_c, fs, ii, jj, k as nat)
                            == wd * 0) by (nonlinear_arith)
                            requires
                                count_from_k(big_a, big_b, big_c, fs, ii, jj, k as nat) == 0,
                        ;
                        assert forall|o: int|
                            0 <= o < old(hist)@.len() implies hist@[o] as int + pc * mass_from_j(
                            big_t, big_g, big_a, big_b, big_c, beacon, o - cur, ii, (jj + 1) as nat,
                        ) + pc * mass_from_i(
                            big_t, big_g, big_a, big_b, big_c, beacon, o - cur, (ii + 1) as nat,
                        ) == old(hist)@[o] as int + pc * mass_from_i(
                            big_t, big_g, big_a, big_b, big_c, beacon, o - cur, 0,
                        ) by {
                            assert(mass_from_k(
                                big_t, big_g, big_a, big_b, big_c, beacon, o - cur, ii, jj,
                                k as nat,
                            ) == 0);
                            assert(pc * mass_from_k(
                                big_t, big_g, big_a, big_b, big_c, beacon, o - cur, ii, jj,
                                k as nat,
                            ) == pc * 0) by (nonlinear_arith)
                                requires
                                    mass_from_k(
                                        big_t, big_g, big_a, big_b, big_c, beacon, o - cur, ii, jj,
                                        k as nat,
                                    ) == 0,
                            ;
                        }
                    }
                } else {
                    proof {
                        lemma_zero_from_k(big_t, big_g, big_a, big_b, big_c, beacon, 0, ii, jj, 0);
                        lemma_wd_count_j_step(big_a, big_b, big_c, fs, ii, jj, wd);
                        assert(wd * count_from_k(big_a, big_b, big_c, fs, ii, jj, 0) == wd * 0)
                            by (nonlinear_arith)
                            requires
                                count_from_k(big_a, big_b, big_c, fs, ii, jj, 0) == 0,
                        ;
                        assert forall|o: int|
                            0 <= o < old(hist)@.len() implies hist@[o] as int + pc * mass_from_j(
                            big_t, big_g, big_a, big_b, big_c, beacon, o - cur, ii, (jj + 1) as nat,
                        ) + pc * mass_from_i(
                            big_t, big_g, big_a, big_b, big_c, beacon, o - cur, (ii + 1) as nat,
                        ) == old(hist)@[o] as int + pc * mass_from_i(
                            big_t, big_g, big_a, big_b, big_c, beacon, o - cur, 0,
                        ) by {
                            lemma_zero_from_k(
                                big_t, big_g, big_a, big_b, big_c, beacon, o - cur, ii, jj, 0,
                            );
                            lemma_pc_mass_j_step(
                                big_t, big_g, big_a, big_b, big_c, beacon, o - cur, ii, jj, pc,
                            );
                            assert(pc * mass_from_k(
                                big_t, big_g, big_a, big_b, big_c, beacon, o - cur, ii, jj, 0,
                            ) == pc * 0) by (nonlinear_arith)
                                requires
                                    mass_from_k(
                                        big_t, big_g, big_a, big_b, big_c, beacon, o - cur, ii, jj,
                                        0,
                                    ) == 0,
                            ;
                        }
                    }
                }
                j = j + 1;
            }
            proof {
                assert(count_from_j(big_a, big_b, big_c, fs, ii, j as nat) == 0);
                assert(wd * count_from_j(big_a, big_b, big_c, fs, ii, j as nat) == wd * 0)
                    by (nonlinear_arith)
                    requires
                        count_from_j(big_a, big_b, big_c, fs, ii, j as nat) == 0,
                ;
                assert forall|o: int|
                    0 <= o < old(hist)@.len() implies hist@[o] as int + pc * mass_from_i(
                    big_t, big_g, big_a, big_b, big_c, beacon, o - cur, (ii + 1) as nat,
                ) == old(hist)@[o] as int + pc * mass_from_i(
                    big_t, big_g, big_a, big_b, big_c, beacon, o - cur, 0,
                ) by {
                    assert(mass_from_j(
                        big_t, big_g, big_a, big_b, big_c, beacon, o - cur, ii, j as nat,
                    ) == 0);
                    assert(pc * mass_from_j(
                        big_t, big_g, big_a, big_b, big_c, beacon, o - cur, ii, j as nat,
                    ) == pc * 0) by (nonlinear_arith)
                        requires
                            mass_from_j(
                                big_t, big_g, big_a, big_b, big_c, beacon, o - cur, ii, j as nat,
                            ) == 0,
                    ;
                }
            }
        } else {
            proof {
                lemma_zero_from_j(big_t, big_g, big_a, big_b, big_c, beacon, 0, ii, 0);
                lemma_wd_count_i_step(big_a, big_b, big_c, fs, ii, wd);
                assert(wd * count_from_j(big_a, big_b, big_c, fs, ii, 0) == wd * 0)
                    by (nonlinear_arith)
                    requires
                        count_from_j(big_a, big_b, big_c, fs, ii, 0) == 0,
                ;
                assert forall|o: int|
                    0 <= o < old(hist)@.len() implies hist@[o] as int + pc * mass_from_i(
                    big_t, big_g, big_a, big_b, big_c, beacon, o - cur, (ii + 1) as nat,
                ) == old(hist)@[o] as int + pc * mass_from_i(
                    big_t, big_g, big_a, big_b, big_c, beacon, o - cur, 0,
                ) by {
                    lemma_zero_from_j(big_t, big_g, big_a, big_b, big_c, beacon, o - cur, ii, 0);
                    lemma_pc_mass_i_step(big_t, big_g, big_a, big_b, big_c, beacon, o - cur, ii, pc);
                    assert(pc * mass_from_j(
                        big_t, big_g, big_a, big_b, big_c, beacon, o - cur, ii, 0,
                    ) == pc * 0) by (nonlinear_arith)
                        requires
                            mass_from_j(big_t, big_g, big_a, big_b, big_c, beacon, o - cur, ii, 0)
                                == 0,
                    ;
                }
            }
        }
        i = i + 1;
    }
    proof {
        assert(count_from_i(big_a, big_b, big_c, fs, i as nat) == 0);
        assert(wd * count_from_i(big_a, big_b, big_c, fs, i as nat) == wd * 0) by (nonlinear_arith)
            requires
                count_from_i(big_a, big_b, big_c, fs, i as nat) == 0,
        ;
        assert forall|o: int|
            0 <= o < old(hist)@.len() implies hist@[o] as int == old(hist)@[o] as int + pc
            * mass_at(big_t, big_g, big_a, big_b, big_c, beacon, o - cur) by {
            assert(mass_from_i(big_t, big_g, big_a, big_b, big_c, beacon, o - cur, i as nat) == 0);
            assert(pc * mass_from_i(big_t, big_g, big_a, big_b, big_c, beacon, o - cur, i as nat)
                == pc * 0) by (nonlinear_arith)
                requires
                    mass_from_i(big_t, big_g, big_a, big_b, big_c, beacon, o - cur, i as nat) == 0,
            ;
            assert(mass_at(big_t, big_g, big_a, big_b, big_c, beacon, o - cur) == mass_from_i(
                big_t, big_g, big_a, big_b, big_c, beacon, o - cur, 0,
            ));
        }
    }
}

/// Why `how_many_hellraisers` returned no distribution.
#[derive(Clone, Copy, PartialEq, Eq, Debug)]
pub enum DistError {
    /// The distinguished category counts exceed the pool size.
    PoolMismatch,
    /// The exact common denominator does not fit a u128.
    PoolTooLarge,
}

/// An exact outcome distribution: the probability of outcome count `o` is
/// `mass[o] / total`.  Every entry is a natural number, so no probability is
/// negative, and the entries sum to exactly `total`: the distribution sums
/// to one, exactly.
#[derive(Clone, Debug)]
pub struct Distribution {
    /// Scaled probability mass for each outcome count.
    pub mass: Vec<u128>,
    /// The common denominator.
    pub total: u128,
}

/// Computes the exact outcome distribution of the cascading draw-and-trigger
/// process started with `triggers` pending triggers on a pool of `gy_size`
/// items holding the three distinguished categories.
///
/// The entry at index `o` of the returned histogram, divided by `total`, is
/// the exact probability that the process accumulates outcome count `o`.
/// A state that is terminal at the root makes no draw, needs no
/// denominator, and is served as a point mass whatever the pool size;
/// otherwise the common denominator must fit a u128, and `PoolTooLarge`
/// says exactly when it does not.
pub fn how_many_hellraisers(
    triggers: u32,
    gy_size: u32,
    seasons: u32,
    beacons: u32,
    flameshapers: u32,
) -> (r: Result<Distribution, DistError>)
    ensures
        match r {
            Ok(d) => {
                &&& seasons + beacons + flameshapers <= gy_size
                &&& d.mass@.len() == 2 * seasons + 2 * beacons + flameshapers + 1
                &&& d.total >= 1
                &&& sum128(d.mass@) == d.total
                &&& forall|o: int| #![trigger d.mass@[o]]
                    0 <= o < d.mass@.len() ==> d.mass@[o] as nat * pool_denominator(
                        gy_size as nat,
                    ) == mass_at(
                        triggers as nat,
                        gy_size as nat,
                        seasons as nat,
                        beacons as nat,
                        flameshapers as nat,
                        false,
                        o,
                    ) * d.total as nat
                &&& (is_terminal(
                    triggers as nat,
                    gy_size as nat,
                    seasons as nat,
                    flameshapers as nat,
                ) ==> d.total == 1)
                &&& (!is_terminal(
                    triggers as nat,
                    gy_size as nat,
                    seasons as nat,
                    flameshapers as nat,
                ) ==> d.total as nat == pool_denominator(gy_size as nat) && pool_denominator(
                    gy_size as nat,
                ) <= u128::MAX)
            },
            Err(DistError::PoolMismatch) => seasons + beacons + flameshapers > gy_size,
            Err(DistError::PoolTooLarge) => {
                &&& seasons + beacons + flameshapers <= gy_size
                &&& !is_terminal(
                    triggers as nat,
                    gy_size as nat,
                    seasons as nat,
                    flameshapers as nat,
                )
                &&& pool_denominator(gy_size as nat) > u128::MAX
            },
        },
{
    if seasons > gy_size || beacons > gy_size - seasons || flameshapers > gy_size - seasons
        - beacons {
        return Err(DistError::PoolMismatch);
    }
    if triggers == 0 || (seasons == 0 && flameshapers == 0) || gy_size < 3 {
        // terminal at the root: all probability mass at outcome zero
        let len: u64 = 2 * (seasons as u64) + 2 * (beacons as u64) + (flameshapers as u64) + 1;
        let mut massvec: Vec<u128> = Vec::new();
        while (massvec.len() as u64) < len
            invariant
                massvec@.len() <= len,
                sum128(massvec@) == 0,
            decreases len - massvec@.len(),
        {
            proof {
                lemma_sum128_push(massvec@, 0);
            }
            massvec.push(0);
        }
        let ghost pre = massvec@;
        proof {
            lemma_sum128_le(pre, 0);
        }
        massvec[0] = 1;
        proof {
            lemma_sum128_update(pre, 0, 1u128);
            lemma_pool_denominator_pos(gy_size as nat);
            assert forall|o: int|
                0 <= o < massvec@.len() implies massvec@[o] as nat * pool_denominator(
                gy_size as nat,
            ) == mass_at(
                triggers as nat,
                gy_size as nat,
                seasons as nat,
                beacons as nat,
                flameshapers as nat,
                false,
                o,
            ) * 1nat by {
                if o == 0 {
                    assert(mass_at(
                        triggers as nat,
                        gy_size as nat,
                        seasons as nat,
                        beacons as nat,
                        flameshapers as nat,
                        false,
                        0,
                    ) == pool_denominator(gy_size as nat));
                    assert(1nat * pool_denominator(gy_size as nat) == pool_denominator(
                        gy_size as nat,
                    ) * 1nat) by (nonlinear_arith);
                } else {
                    lemma_sum128_le(pre, o);
                    assert(massvec@[o] == 0);
                    assert(mass_at(
                        triggers as nat,
                        gy_size as nat,
                        seasons as nat,
                        beacons as nat,
                        flameshapers as nat,
                        false,
                        o,
                    ) == 0);
                    assert(0nat * pool_denominator(gy_size as nat) == 0 * 1nat)
                        by (nonlinear_arith);
                }
            }
        }
        return Ok(Distribution { mass: massvec, total: 1 });
    }
    if gy_size >= 1000000 {
        proof {
            lemma_big_pool_overflows(gy_size as nat);
        }
        return Err(DistError::PoolTooLarge);
    }
    let d = match denominator_fits(gy_size) {
        Some(d) => d,
        None => {
            return Err(DistError::PoolTooLarge);
        },
    };
    let len = 2 * seasons + 2 * beacons + flameshapers + 1;
    let mut massvec: Vec<u128> = Vec::new();
    while massvec.len() < len as usize
        invariant
            massvec@.len() <= len,
            sum128(massvec@) == 0,
        decreases len as int - massvec@.len(),
    {
        proof {
            lemma_sum128_push(massvec@, 0);
        }
        massvec.push(0);
    }
    let ghost pre = massvec@;
    proof {
        lemma_pool_denominator_pos(gy_size as nat);
        assert(d as nat == 1 * pool_denominator(gy_size as nat));
    }
    calculate(
        triggers as u64,
        gy_size,
        seasons,
        beacons,
        flameshapers,
        0,
        false,
        d,
        &mut massvec,
        Ghost(1nat),
    );
    proof {
        assert forall|o: int|
            0 <= o < massvec@.len() implies massvec@[o] as nat == mass_at(
            triggers as nat,
            gy_size as nat,
            seasons as nat,
            beacons as nat,
            flameshapers as nat,
            false,
            o,
        ) by {
            lemma_sum128_le(pre, o);
            assert(pre[o] == 0);
            assert(massvec@[o] as int == pre[o] as int + 1 * mass_at(
                triggers as nat,
                gy_size as nat,
                seasons as nat,
                beacons as nat,
                flameshapers as nat,
                false,
                o - 0,
            ));
        }
        assert forall|o: int|
            0 <= o < massvec@.len() implies massvec@[o] as nat * pool_denominator(gy_size as nat)
            == mass_at(
            triggers as nat,
            gy_size as nat,
            seasons as nat,
            beacons as nat,
            flameshapers as nat,
            false,
            o,
        ) * d as nat by {
            assert(massvec@[o] as nat == mass_at(
                triggers as nat,
                gy_size as nat,
                seasons as nat,
                beacons as nat,
                flameshapers as nat,
                false,
                o,
            ));
        }
    }
    Ok(Distribution { mass: massvec, total: d })
}

/// Rows of the split sum with more primary items than the pool holds
/// contribute nothing.
pub proof fn lemma_mass_from_i_zero(
    trig: nat, gy: nat, a: nat, b: nat, c: nat, beacon: bool, o: int, i: nat,
)
    requires
        i > a,
    ensures
        mass_from_i(trig, gy, a, b, c, beacon, o, i) == 0,
    decreases 4 - i,
{
    if i <= 3 {
        lemma_zero_from_j(trig, gy, a, b, c, beacon, o, i, 0);
        lemma_mass_from_i_zero(trig, gy, a, b, c, beacon, o, (i + 1) as nat);
    }
}

/// Rows of the split sum with more toggle items than the pool holds
/// contribute nothing.
pub proof fn lemma_mass_from_j_zero(
    trig: nat, gy: nat, a: nat, b: nat, c: nat, beacon: bool, o: int, i: nat, j: nat,
)
    requires
        j > b,
    ensures
        mass_from_j(trig, gy, a, b, c, beacon, o, i, j) == 0,
    decreases 4 - j,
{
    if i + j <= 3 {
        lemma_zero_from_k(trig, gy, a, b, c, beacon, o, i, j, 0);
        lemma_mass_from_j_zero(trig, gy, a, b, c, beacon, o, i, (j + 1) as nat);
    }
}

/// A term of the split sum with a vanishing split count drops out.
pub proof fn lemma_mass_term_zero(
    trig: nat, gy: nat, a: nat, b: nat, c: nat, beacon: bool, o: int, i: nat, j: nat, k: nat,
)
    requires
        i + j + k <= 3,
        gy >= 3,
        split_count(a, b, c, sat_sub(gy, a + b + c), i, j, k) == 0,
    ensures
        mass_from_k(trig, gy, a, b, c, beacon, o, i, j, k) == mass_from_k(
            trig, gy, a, b, c, beacon, o, i, j, (k + 1) as nat,
        ),
{
    let x = mass_at(
        next_triggers(trig, i, k, beacon),
        (gy - 3) as nat,
        sat_sub(a, i),
        sat_sub(b, j),
        sat_sub(c, k),
        next_beacon(i, j, beacon),
        o - draw_delta(i, k, beacon),
    );
    assert(split_count(a, b, c, sat_sub(gy, a + b + c), i, j, k) * x == 0) by (nonlinear_arith)
        requires
            split_count(a, b, c, sat_sub(gy, a + b + c), i, j, k) == 0,
    ;
}

} // verus!
