//! Integer facts the hierarchy and the trees rest on.

use vstd::prelude::*;
use vstd::arithmetic::power::*;
use vstd::arithmetic::div_mod::*;
use vstd::arithmetic::mul::*;

verus! {

/// `x` lies in the `q`-th block of width `d`.
pub proof fn lemma_div_in_block(x: int, q: int, d: int)
    requires
        d > 0,
        q * d <= x < (q + 1) * d,
    ensures
        x / d == q,
        x % d == x - q * d,
{
    lemma_mul_is_distributive_add_other_way(d, q, 1);
    lemma_fundamental_div_mod_converse(x, d, q, x - q * d);
}

/// Block `q` of width `d`, cut into `m` blocks of width `d / m`.
pub proof fn lemma_pow_pos(a: int, e: nat)
    requires
        a > 0,
    ensures
        pow(a, e) > 0,
{
    lemma_pow_positive(a, e);
}

pub proof fn lemma_pow_succ(a: int, e: nat)
    ensures
        pow(a, e + 1) == a * pow(a, e),
        pow(a, e + 1) == pow(a, e) * a,
{
    reveal(pow);
    assert(pow(a, e + 1) == a * pow(a, (e + 1 - 1) as nat));
    lemma_mul_is_commutative(a, pow(a, e));
}


/// Number of base-`a` digits of `x` (0 for 0).
pub open spec fn ndigits(x: nat, a: nat) -> nat
    decreases x,
{
    if a < 2 || x == 0 {
        0
    } else {
        proof {
            lemma_div_decreases(x as int, a as int);
        }
        1 + ndigits(x / a, a)
    }
}

/// `a^k <= x < a^(k+1)` exactly when `x` has `k + 1` digits.
pub proof fn lemma_ndigits_range(x: nat, a: nat, k: nat)
    requires
        a >= 2,
        pow(a as int, k) <= x < pow(a as int, k + 1),
    ensures
        ndigits(x, a) == k + 1,
    decreases k,
{
    lemma_pow_succ(a as int, k);
    lemma_pow_pos(a as int, k);
    if k == 0 {
        reveal(pow);
        lemma_div_in_block(x as int, 0, a as int);
        assert(ndigits(0, a) == 0);
    } else {
        lemma_pow_succ(a as int, (k - 1) as nat);
        lemma_pow_pos(a as int, (k - 1) as nat);
        let p = pow(a as int, (k - 1) as nat);
        // x / a lies in [a^(k-1), a^k)
        lemma_div_is_ordered(p * a, x as int, a as int);
        lemma_div_by_multiple(p, a as int);
        lemma_multiply_divide_lt(x as int, a as int, pow(a as int, k));
        lemma_mul_is_commutative(a as int, pow(a as int, k));
        lemma_ndigits_range(x / a, a, (k - 1) as nat);
    }
}

/// A number with `n >= 1` digits lies in `[a^(n-1), a^n)`.
pub proof fn lemma_ndigits_bounds(x: nat, a: nat)
    requires
        a >= 2,
        x > 0,
    ensures
        ndigits(x, a) >= 1,
        pow(a as int, (ndigits(x, a) - 1) as nat) <= x < pow(a as int, ndigits(x, a)),
    decreases x,
{
    lemma_div_decreases(x as int, a as int);
    let n = ndigits(x, a);
    if x < a {
        lemma_div_in_block(x as int, 0, a as int);
        reveal(pow);
        assert(ndigits(0, a) == 0);
        assert(n == 1);
        assert(pow(a as int, 0) == 1);
        assert(pow(a as int, 1) == a * pow(a as int, 0));
    } else {
        let y = x / a;
        lemma_div_is_ordered(a as int, x as int, a as int);
        lemma_div_by_self(a as int);
        lemma_ndigits_bounds(y, a);
        let m = ndigits(y, a);
        assert(n == m + 1);
        lemma_pow_succ(a as int, (m - 1) as nat);
        lemma_pow_succ(a as int, m);
        lemma_fundamental_div_mod(x as int, a as int);
        lemma_mod_bound(x as int, a as int);
        let p = pow(a as int, (m - 1) as nat);
        let q = pow(a as int, m);
        lemma_mul_inequality(p, y as int, a as int);
        lemma_mul_is_commutative(p, a as int);
        lemma_mul_is_commutative(y as int, a as int);
        lemma_mul_inequality(y as int + 1, q, a as int);
        lemma_mul_is_distributive_add_other_way(a as int, y as int, 1);
        lemma_mul_is_commutative(q, a as int);
    }
}


/// A larger base gives a larger power.
pub proof fn lemma_pow_base_mono(a: nat, k: nat)
    requires
        a >= 2,
    ensures
        pow(a as int, k) >= pow(2, k),
    decreases k,
{
    if k == 0 {
        reveal(pow);
    } else {
        lemma_pow_succ(a as int, (k - 1) as nat);
        lemma_pow_succ(2, (k - 1) as nat);
        lemma_pow_base_mono(a, (k - 1) as nat);
        lemma_pow_pos(2, (k - 1) as nat);
        lemma_mul_inequality(2, a as int, pow(2, (k - 1) as nat));
        lemma_mul_inequality(pow(2, (k - 1) as nat), pow(a as int, (k - 1) as nat), a as int);
        lemma_mul_is_commutative(a as int, pow(2, (k - 1) as nat));
    }
}

} // verus!
