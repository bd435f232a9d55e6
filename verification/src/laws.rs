//! Laws that relate the ring operations of `Modulus` to one another, stated
//! over the results that their contracts give.
use vstd::arithmetic::div_mod::{
    lemma_add_mod_noop, lemma_mod_bound, lemma_mul_mod_noop, lemma_mul_mod_noop_left,
    lemma_small_mod,
};
use vstd::arithmetic::power::{lemma_pow1, lemma_pow_adds, pow};
use vstd::prelude::*;

use crate::barrett::lemma_mod_sub_multiple;
use crate::prime::{is_prime, lemma_fermat};

verus! {

/// Subtraction undoes addition: `sub(add(a, b), b) == a` for `a, b < p`.
pub proof fn lemma_sub_undoes_add(p: int, a: int, b: int)
    requires
        p > 0,
        0 <= a < p,
        0 <= b < p,
    ensures
        ((a + b) % p + p - b) % p == a,
{
    let s = (a + b) % p;
    lemma_mod_bound(a + b, p);
    if a + b < p {
        lemma_small_mod((a + b) as nat, p as nat);
        lemma_mod_sub_multiple(a + p, p, 1);
        lemma_small_mod(a as nat, p as nat);
    } else {
        lemma_mod_sub_multiple(a + b, p, 1);
        lemma_small_mod((a + b - p) as nat, p as nat);
        lemma_small_mod(a as nat, p as nat);
    }
}

/// The negation is the additive inverse: `add(a, neg(a)) == 0` for `a < p`.
pub proof fn lemma_add_neg(p: int, a: int)
    requires
        p > 0,
        0 <= a < p,
    ensures
        0 <= (p - a) % p < p,
        (a + (p - a) % p) % p == 0,
{
    lemma_mod_bound(p - a, p);
    lemma_add_mod_noop(a, p - a, p);
    lemma_small_mod(a as nat, p as nat);
    lemma_mod_sub_multiple(p, p, 1);
    lemma_small_mod(0, p as nat);
}

/// Exponentiation is repeated multiplication:
/// `pow(a, n + 1) == mul(pow(a, n), a)`.
pub proof fn lemma_pow_step(p: int, a: int, n: nat)
    requires
        p > 0,
        0 <= a < p,
    ensures
        pow(a, n + 1) % p == ((pow(a, n) % p) * a) % p,
{
    lemma_pow_adds(a, n, 1);
    lemma_pow1(a);
    lemma_mul_mod_noop_left(pow(a, n), a, p);
}

/// Fermat inversion: for a prime `p` and `0 < a < p`, `r = a^(p - 2) mod p`
/// is the inverse of `a`, that is `mul(a, r) == 1`.
pub proof fn lemma_inverse(p: nat, a: nat)
    requires
        is_prime(p),
        0 < a < p,
    ensures
        ((a as int) * (pow(a as int, (p - 2) as nat) % (p as int))) % (p as int) == 1,
{
    let e = (p - 2) as nat;
    lemma_small_mod(a, p);
    lemma_fermat(p, a);
    lemma_pow1(a as int);
    lemma_pow_adds(a as int, 1, e);
    assert((1 + e) as nat == (p - 1) as nat);
    lemma_mul_mod_noop(a as int, pow(a as int, e), p as int);
    lemma_small_mod(a, p);
}

} // verus!
