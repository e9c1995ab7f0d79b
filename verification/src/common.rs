//! Small combinatorial helpers.

use vstd::prelude::*;

verus! {

pub open spec fn spec_factorial(n: nat) -> nat
    decreases n,
{
    if n == 0 {
        1
    } else {
        n * spec_factorial((n - 1) as nat)
    }
}

pub open spec fn spec_pow(n: nat, k: nat) -> nat
    decreases k,
{
    if k == 0 {
        1
    } else {
        n * spec_pow(n, (k - 1) as nat)
    }
}

/// Factorials are positive.
pub proof fn lemma_factorial_pos(n: nat)
    ensures
        spec_factorial(n) >= 1,
    decreases n,
{
    if n > 0 {
        lemma_factorial_pos((n - 1) as nat);
        assert(n * spec_factorial((n - 1) as nat) >= 1) by (nonlinear_arith)
            requires
                n >= 1,
                spec_factorial((n - 1) as nat) >= 1,
        ;
    }
}

/// Powers of a positive base are positive.
pub proof fn lemma_pow_pos(n: nat, k: nat)
    requires
        n >= 1,
    ensures
        spec_pow(n, k) >= 1,
    decreases k,
{
    if k > 0 {
        lemma_pow_pos(n, (k - 1) as nat);
        assert(n * spec_pow(n, (k - 1) as nat) >= 1) by (nonlinear_arith)
            requires
                n >= 1,
                spec_pow(n, (k - 1) as nat) >= 1,
        ;
    }
}

pub fn factorial(n: usize) -> (r: usize)
    requires
        spec_factorial(n as nat) <= usize::MAX,
    ensures
        r == spec_factorial(n as nat),
    decreases n,
{
    if n == 0 {
        1
    } else {
        proof {
            lemma_factorial_pos((n - 1) as nat);
            assert(spec_factorial((n - 1) as nat) <= n * spec_factorial((n - 1) as nat))
                by (nonlinear_arith)
                requires
                    n >= 1,
                    spec_factorial((n - 1) as nat) >= 1,
            ;
        }
        n * factorial(n - 1)
    }
}

/// The binomial coefficient, computed from full factorials as the quotient
/// `n! / (k! (n-k)!)`.
pub fn binomial(n: usize, k: usize) -> (r: usize)
    requires
        k <= n,
        spec_factorial(n as nat) <= usize::MAX,
        spec_factorial(k as nat) * spec_factorial((n - k) as nat) <= usize::MAX,
    ensures
        r == spec_factorial(n as nat) / (spec_factorial(k as nat) * spec_factorial(
            (n - k) as nat,
        )),
{
    proof {
        lemma_factorial_pos(k as nat);
        lemma_factorial_pos((n - k) as nat);
        lemma_factorial_pos(n as nat);
        assert(spec_factorial(k as nat) * spec_factorial((n - k) as nat) >= 1)
            by (nonlinear_arith)
            requires
                spec_factorial(k as nat) >= 1,
                spec_factorial((n - k) as nat) >= 1,
        ;
        assert(spec_factorial(k as nat) <= spec_factorial(k as nat) * spec_factorial(
            (n - k) as nat,
        )) by (nonlinear_arith)
            requires
                spec_factorial(k as nat) >= 1,
                spec_factorial((n - k) as nat) >= 1,
        ;
        assert(spec_factorial((n - k) as nat) <= spec_factorial(k as nat) * spec_factorial(
            (n - k) as nat,
        )) by (nonlinear_arith)
            requires
                spec_factorial(k as nat) >= 1,
                spec_factorial((n - k) as nat) >= 1,
        ;
    }
    factorial(n) / (factorial(k) * factorial(n - k))
}

pub fn pow(n: usize, k: usize) -> (r: usize)
    requires
        spec_pow(n as nat, k as nat) <= usize::MAX,
    ensures
        r == spec_pow(n as nat, k as nat),
{
    let ghost k0 = k as nat;
    let mut result: usize = 1;
    let mut left = k;
    while left > 0
        invariant
            left <= k,
            spec_pow(n as nat, k0) <= usize::MAX,
            k0 == k as nat,
            result * spec_pow(n as nat, left as nat) == spec_pow(n as nat, k0),
        decreases left,
    {
        proof {
            if n >= 1 {
                lemma_pow_pos(n as nat, (left - 1) as nat);
                assert(result * n <= result * n * spec_pow(n as nat, (left - 1) as nat))
                    by (nonlinear_arith)
                    requires
                        spec_pow(n as nat, (left - 1) as nat) >= 1,
                        result >= 0,
                        n >= 0,
                ;
            }
            assert(result * (n * spec_pow(n as nat, (left - 1) as nat)) == (result * n)
                * spec_pow(n as nat, (left - 1) as nat)) by (nonlinear_arith);
        }
        result = result * n;
        left = left - 1;
    }
    proof {
        assert(spec_pow(n as nat, 0) == 1);
        assert(result * 1 == result) by (nonlinear_arith);
    }
    result
}

pub fn even(n: usize) -> (r: bool)
    ensures
        r == (n % 2 == 0),
{
    proof {
        assert((n & 1 == 0) == (n % 2 == 0)) by (bit_vector);
    }
    n & 1 == 0
}

pub fn odd(n: usize) -> (r: bool)
    ensures
        r == (n % 2 != 0),
{
    proof {
        assert((n & 1 != 0) == (n % 2 != 0)) by (bit_vector);
    }
    n & 1 != 0
}

} // verus!
