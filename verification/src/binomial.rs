//! The number of ways to choose words from a list, which soon outgrows the
//! machine's integers.

use num_bigint::{BigUint, ToBigUint};
use vstd::prelude::*;

verus! {

/// The unbounded unsigned integer of the `num-bigint` crate.
#[verifier::external_type_specification]
#[verifier::external_body]
pub struct ExBigUint(num_bigint::BigUint);

/// The number that a `BigUint` holds.
pub uninterp spec fn value(n: BigUint) -> nat;

/// The number of ways to choose `k` things out of `n`.
pub open spec fn binomial(n: nat, k: nat) -> nat
    decreases n + k,
{
    if k == 0 {
        1
    } else if n == 0 {
        0
    } else {
        binomial((n - 1) as nat, (k - 1) as nat) + binomial((n - 1) as nat, k)
    }
}

/// `ToBigUint::to_biguint` of `num-bigint` on a `u32`, which always gives a
/// number: the one that the `u32` holds.
#[verifier::external_body]
fn big(n: u32) -> (b: BigUint)
    ensures
        value(b) == n,
{
    n.to_biguint().unwrap()
}

/// The product of two `BigUint`, by the `*` of `num-bigint`.
#[verifier::external_body]
fn times(a: BigUint, b: BigUint) -> (c: BigUint)
    ensures
        value(c) == value(a) * value(b),
{
    a * b
}

/// The quotient of two `BigUint`, rounded down, by the `/` of `num-bigint`,
/// which panics on a divisor of zero.
#[verifier::external_body]
fn over(a: BigUint, b: BigUint) -> (c: BigUint)
    requires
        value(b) != 0,
    ensures
        value(c) == value(a) / value(b),
{
    a / b
}

/// Nothing can be chosen in more ways than there are things for.
pub proof fn lemma_binomial_beyond(n: nat, k: nat)
    requires
        k > n,
    ensures
        binomial(n, k) == 0,
    decreases n + k,
{
    if n > 0 {
        lemma_binomial_beyond((n - 1) as nat, (k - 1) as nat);
        lemma_binomial_beyond((n - 1) as nat, k);
    }
}

/// From the ways to choose `k` things to the ways to choose one more:
/// each choice of `k` can be extended by one of the `n - k` others, and
/// each choice of `k + 1` comes about in `k + 1` ways.
pub proof fn lemma_binomial_step(n: nat, k: nat)
    requires
        k <= n,
    ensures
        (k + 1) * binomial(n, k + 1) == (n - k) * binomial(n, k),
    decreases n,
{
    let now = binomial(n, k);
    let more = binomial(n, k + 1);
    if n == 0 {
        assert(more == 0);
        assert((k + 1) * more == (n - k) * now) by (nonlinear_arith)
            requires
                more == 0,
                n == 0,
                k == 0,
        ;
    } else {
        let m = (n - 1) as nat;
        let a = binomial(m, k);
        let b = binomial(m, k + 1);
        assert(more == a + b);
        if k <= m {
            lemma_binomial_step(m, k);
        } else {
            lemma_binomial_beyond(m, k);
            lemma_binomial_beyond(m, k + 1);
        }
        assert((k + 1) * b == (m - k) * a) by (nonlinear_arith)
            requires
                k <= m ==> (k + 1) * b == (m - k) * a,
                k > m ==> b == 0 && a == 0,
        ;
        if k == 0 {
            assert(now == 1 && a == 1);
            assert((k + 1) * more == (n - k) * now) by (nonlinear_arith)
                requires
                    (k + 1) * b == (m - k) * a,
                    more == a + b,
                    a == 1,
                    now == 1,
                    k == 0,
                    n == m + 1,
            ;
        } else {
            let c = binomial(m, (k - 1) as nat);
            assert(now == c + a);
            lemma_binomial_step(m, (k - 1) as nat);
            assert(k * a == (n - k) * c) by (nonlinear_arith)
                requires
                    ((k - 1) + 1) * a == (m - (k - 1)) * c,
                    m == n - 1,
            ;
            assert((k + 1) * more == (n - k) * now) by (nonlinear_arith)
                requires
                    k * a == (n - k) * c,
                    (k + 1) * b == (m - k) * a,
                    more == a + b,
                    now == c + a,
                    m == n - 1,
            ;
        }
    }
}

/// The number of ways to choose `k` things out of `n`, however large.
pub fn big_bionmial(n: u32, k: u32) -> (res: BigUint)
    ensures
        value(res) == binomial(n as nat, k as nat),
{
    if k > n {
        proof {
            lemma_binomial_beyond(n as nat, k as nat);
        }
        return big(0);
    }
    let mut res = big(1);
    let mut i: u32 = 0;
    while i < k
        invariant
            i <= k <= n,
            value(res) == binomial(n as nat, i as nat),
        decreases k - i,
    {
        let ghost before = value(res);
        let ghost next = binomial(n as nat, (i + 1) as nat);
        res = over(times(res, big(n - i)), big(i + 1));
        proof {
            lemma_binomial_step(n as nat, i as nat);
            assert(before * (n - i) == (i + 1) * next) by (nonlinear_arith)
                requires
                    (i + 1) * next == (n - i) * before,
            ;
            assert(((i + 1) * next) / ((i + 1) as int) == next) by (nonlinear_arith)
                requires
                    i + 1 > 0,
                    next >= 0,
            ;
        }
        i += 1;
    }
    res
}

} // verus!
