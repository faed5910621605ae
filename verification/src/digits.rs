//! Digit sums: the value that a column's cells write in a base.
use vstd::arithmetic::div_mod::*;
use vstd::arithmetic::mul::*;
use vstd::arithmetic::power::*;
use vstd::arithmetic::power2::*;
use vstd::prelude::*;

use crate::field::modulus;
use crate::plonk::{Assignment, Column};

verus! {

/// The first `k` of `n` digits in `column`, least significant first, the last of the `n` in
/// row `last`, each weighted by the field element of its power of `base`.
pub open spec fn digit_sum(
    env: Assignment,
    region: int,
    column: Column,
    last: int,
    base: int,
    n: int,
    k: nat,
) -> int
    decreases k,
{
    if k == 0 {
        0
    } else {
        digit_sum(env, region, column, last, base, n, (k - 1) as nat) + env.at(
            region,
            column,
            last - (n - k),
        ) * (pow(base, (k - 1) as nat) % modulus())
    }
}

/// Powers of two up to the width of the largest machine integer.
pub proof fn lemma_pow2_128(n: nat)
    requires
        n <= 128,
    ensures
        0 < pow(2, n) <= 0x1_0000_0000_0000_0000_0000_0000_0000_0000int,
{
    lemma_pow_positive(2, n);
    lemma_pow_increases(2, n, 128);
    lemma_pow_64();
    lemma_pow_adds(2, 64, 64);
    let w = pow(2, 64);
    assert(w * w == 0x1_0000_0000_0000_0000_0000_0000_0000_0000int) by (nonlinear_arith)
        requires
            w == 0x1_0000_0000_0000_0000int,
    ;
}

pub proof fn lemma_pow_64()
    ensures
        pow(2, 64) == 0x1_0000_0000_0000_0000int,
        pow(2, 63) == 0x8000_0000_0000_0000int,
        pow(2, 60) == 0x1000_0000_0000_0000int,
{
    lemma2_to64();
    lemma2_to64_rest();
    lemma_pow2(64);
    lemma_pow2(63);
    lemma_pow2(60);
}

pub proof fn lemma_pow_256(n: nat)
    ensures
        pow(256, n) == pow(2, 8 * n),
{
    reveal_with_fuel(pow, 9);
    assert(pow(2, 8) == 256);
    lemma_pow_multiplies(2, 8, n);
}

/// Digits below the base write a value below the base's power.
pub proof fn lemma_digit_bound(
    env: Assignment,
    region: int,
    column: Column,
    last: int,
    base: int,
    n: int,
    k: nat,
)
    requires
        base > 1,
        pow(base, k) <= modulus(),
        forall|i: int|
            0 <= i < k ==> 0 <= #[trigger] env.at(region, column, last - (n - 1 - i)) < base,
    ensures
        0 <= digit_sum(env, region, column, last, base, n, k) < pow(base, k),
    decreases k,
{
    if k == 0 {
        lemma_pow0(base);
    } else {
        let j = (k - 1) as nat;
        let w = pow(base, j);
        let d = env.at(region, column, last - (n - k));
        lemma_pow_strictly_increases(base as nat, j, k);
        lemma_pow_positive(base, j);
        lemma_digit_bound(env, region, column, last, base, n, j);
        assert(d == env.at(region, column, last - (n - 1 - j)));
        lemma_small_mod(w as nat, modulus() as nat);
        lemma_pow_adds(base, 1, j);
        lemma_pow1(base);
        assert(0 <= d * w <= (base - 1) * w && (base - 1) * w == base * w - w) by (nonlinear_arith)
            requires
                0 <= d < base,
                0 < w,
        ;
    }
}

/// The digits of a number write that number's residue.
pub proof fn lemma_digit_value(
    env: Assignment,
    region: int,
    column: Column,
    last: int,
    base: int,
    n: int,
    k: nat,
    v: int,
)
    requires
        base > 1,
        v >= 0,
        pow(base, k) <= modulus(),
        forall|i: int|
            0 <= i < k ==> #[trigger] env.at(region, column, last - (n - 1 - i)) == (v / pow(
                base,
                i as nat,
            )) % base,
    ensures
        digit_sum(env, region, column, last, base, n, k) == v % pow(base, k),
    decreases k,
{
    if k == 0 {
        lemma_pow0(base);
    } else {
        let j = (k - 1) as nat;
        let w = pow(base, j);
        let d = env.at(region, column, last - (n - k));
        lemma_pow_strictly_increases(base as nat, j, k);
        lemma_pow_positive(base, j);
        lemma_digit_value(env, region, column, last, base, n, j, v);
        assert(d == env.at(region, column, last - (n - 1 - j)));
        lemma_small_mod(w as nat, modulus() as nat);
        lemma_pow_adds(base, j, 1);
        lemma_pow1(base);
        lemma_breakdown(v, w, base);
        lemma_mul_is_commutative(w, d);
    }
}

} // verus!
