//! Binomial coefficients: the mathematical definition, an executable form
//! backed by an outside implementation, and the Vandermonde-style identities
//! that the draw enumeration rests on.

use vstd::prelude::*;

verus! {

/// Binomial coefficient C(n, k), defined by Pascal's rule.
pub open spec fn binom(n: nat, k: nat) -> nat
    decreases n, k,
{
    if k == 0 {
        1
    } else if n == 0 {
        0
    } else {
        binom((n - 1) as nat, (k - 1) as nat) + binom((n - 1) as nat, k)
    }
}

/// Saturating subtraction on naturals.
pub open spec fn sat_sub(x: nat, y: nat) -> nat {
    if x >= y {
        (x - y) as nat
    } else {
        0
    }
}

pub proof fn lemma_binom_above(n: nat, k: nat)
    requires
        k > n,
    ensures
        binom(n, k) == 0,
    decreases n,
{
    if n > 0 {
        lemma_binom_above((n - 1) as nat, (k - 1) as nat);
        lemma_binom_above((n - 1) as nat, k);
    }
}

pub proof fn lemma_binom_pos(n: nat, k: nat)
    requires
        k <= n,
    ensures
        binom(n, k) >= 1,
    decreases n,
{
    if k > 0 {
        lemma_binom_pos((n - 1) as nat, (k - 1) as nat);
    }
}

pub proof fn lemma_binom_zero(n: nat)
    ensures
        binom(n, 0) == 1,
{
}

pub proof fn lemma_binom_one(n: nat)
    ensures
        binom(n, 1) == n,
    decreases n,
{
    if n > 0 {
        lemma_binom_one((n - 1) as nat);
        lemma_binom_zero((n - 1) as nat);
    }
}

pub proof fn lemma_binom_two(n: nat)
    ensures
        2 * binom(n, 2) == n * (n - 1),
    decreases n,
{
    if n == 0 {
        assert(binom(0, 2) == 0);
        assert(2 * binom(n, 2) == n * (n - 1));
    } else {
        let p = (n - 1) as nat;
        lemma_binom_two(p);
        lemma_binom_one(p);
        assert(2 * binom(n, 2) == 2 * p + p * (p - 1));
        assert(2 * p + p * (p - 1) == n * (n - 1)) by (nonlinear_arith)
            requires
                p == n - 1,
                n >= 1,
        ;
    }
}

pub proof fn lemma_binom_three(n: nat)
    ensures
        6 * binom(n, 3) == n * (n - 1) * (n - 2),
    decreases n,
{
    if n == 0 {
        assert(binom(0, 3) == 0);
        assert(6 * binom(n, 3) == n * (n - 1) * (n - 2));
    } else {
        let p = (n - 1) as nat;
        lemma_binom_three(p);
        lemma_binom_two(p);
        assert(6 * binom(n, 3) == 3 * (p * (p - 1)) + p * (p - 1) * (p - 2));
        assert(3 * (p * (p - 1)) + p * (p - 1) * (p - 2) == n * (n - 1) * (n - 2))
            by (nonlinear_arith)
            requires
                p == n - 1,
                n >= 1,
        ;
    }
}

/// Pascal's rule, restated for direct use.
pub proof fn lemma_binom_pascal(n: nat, k: nat)
    requires
        n >= 1,
        k >= 1,
    ensures
        binom(n, k) == binom((n - 1) as nat, (k - 1) as nat) + binom((n - 1) as nat, k),
{
}

/// The binomial coefficient grows with the pool: C(n, k) <= C(n + 1, k).
pub proof fn lemma_binom_mono(n1: nat, n2: nat, k: nat)
    requires
        n1 <= n2,
    ensures
        binom(n1, k) <= binom(n2, k),
    decreases n2 - n1,
{
    if n1 < n2 {
        lemma_binom_mono(n1, (n2 - 1) as nat, k);
        if k >= 1 {
            lemma_binom_pascal(n2, k);
        }
    }
}

/// Vandermonde's identity for draws of one:
/// C(p,0)C(q,1) + C(p,1)C(q,0) == C(p+q,1).
pub proof fn lemma_vandermonde_one(p: nat, q: nat)
    ensures
        binom(p, 0) * binom(q, 1) + binom(p, 1) * binom(q, 0) == binom(p + q, 1),
{
    lemma_binom_one(p);
    lemma_binom_one(q);
    lemma_binom_one(p + q);
    lemma_binom_zero(p);
    lemma_binom_zero(q);
}

/// Vandermonde's identity for draws of two.
pub proof fn lemma_vandermonde_two(p: nat, q: nat)
    ensures
        binom(p, 0) * binom(q, 2) + binom(p, 1) * binom(q, 1) + binom(p, 2) * binom(q, 0)
            == binom(p + q, 2),
{
    lemma_binom_two(p);
    lemma_binom_two(q);
    lemma_binom_two(p + q);
    lemma_binom_one(p);
    lemma_binom_one(q);
    lemma_binom_zero(p);
    lemma_binom_zero(q);
    assert(2 * (binom(p, 0) * binom(q, 2) + binom(p, 1) * binom(q, 1) + binom(p, 2) * binom(
        q,
        0,
    )) == 2 * binom(p + q, 2)) by (nonlinear_arith)
        requires
            2 * binom(p, 2) == p * (p - 1),
            2 * binom(q, 2) == q * (q - 1),
            2 * binom((p + q) as nat, 2) == (p + q) * (p + q - 1),
            binom(p, 1) == p,
            binom(q, 1) == q,
            binom(p, 0) == 1,
            binom(q, 0) == 1,
    ;
}

/// Vandermonde's identity for draws of three.
pub proof fn lemma_vandermonde_three(p: nat, q: nat)
    ensures
        binom(p, 0) * binom(q, 3) + binom(p, 1) * binom(q, 2) + binom(p, 2) * binom(q, 1) + binom(
            p,
            3,
        ) * binom(q, 0) == binom(p + q, 3),
{
    lemma_binom_three(p);
    lemma_binom_three(q);
    lemma_binom_three(p + q);
    lemma_binom_two(p);
    lemma_binom_two(q);
    lemma_binom_one(p);
    lemma_binom_one(q);
    lemma_binom_zero(p);
    lemma_binom_zero(q);
    assert(6 * (binom(p, 0) * binom(q, 3) + binom(p, 1) * binom(q, 2) + binom(p, 2) * binom(q, 1)
        + binom(p, 3) * binom(q, 0)) == 6 * binom(p + q, 3)) by (nonlinear_arith)
        requires
            6 * binom(p, 3) == p * (p - 1) * (p - 2),
            6 * binom(q, 3) == q * (q - 1) * (q - 2),
            6 * binom((p + q) as nat, 3) == (p + q) * (p + q - 1) * (p + q - 2),
            2 * binom(p, 2) == p * (p - 1),
            2 * binom(q, 2) == q * (q - 1),
            binom(p, 1) == p,
            binom(q, 1) == q,
            binom(p, 0) == 1,
            binom(q, 0) == 1,
    ;
}

/// Relies on num::integer::binomial: computes the binomial coefficient
/// C(n, k) exactly, and returns zero when k exceeds n.  For k <= 3 and
/// n below 2^32 no intermediate value can overflow a u128.
#[verifier::external_body]
pub fn binomial_u128(n: u128, k: u128) -> (r: u128)
    requires
        n <= u32::MAX as u128,
        k <= 3,
    ensures
        r == binom(n as nat, k as nat),
{
    num::integer::binomial(n, k)
}

} // verus!
