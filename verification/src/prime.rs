//! Primality and Fermat's little theorem.
//!
//! The proof of Fermat's little theorem goes through the binomial theorem:
//! every binomial coefficient `C(p, k)` with `0 < k < p` is a multiple of the
//! prime `p`, so `(x + 1)^p == x^p + 1 (mod p)`, and induction on `x` gives
//! `x^p == x (mod p)`.
use vstd::arithmetic::div_mod::*;
use vstd::arithmetic::mul::*;
use vstd::arithmetic::power::*;
use vstd::prelude::*;

verus! {

/// `n` is a prime number: at least 2, and no integer in `2..n` divides it.
pub open spec fn is_prime(n: nat) -> bool {
    n >= 2 && forall|d: nat| 2 <= d < n ==> #[trigger] (n % d) != 0
}

/// The binomial coefficient `C(n, k)`, defined by Pascal's rule.
pub open spec fn binom(n: nat, k: nat) -> nat
    decreases n,
{
    if k == 0 {
        1
    } else if n == 0 {
        0
    } else {
        binom((n - 1) as nat, (k - 1) as nat) + binom((n - 1) as nat, k)
    }
}

/// The partial sum `C(n, 0) x^0 + ... + C(n, j - 1) x^(j - 1)`.
pub open spec fn binom_sum(n: nat, x: int, j: nat) -> int
    decreases j,
{
    if j == 0 {
        0
    } else {
        binom_sum(n, x, (j - 1) as nat) + binom(n, (j - 1) as nat) * pow(x, (j - 1) as nat)
    }
}

/// Euclid's lemma for a factor already reduced below the prime.
proof fn lemma_euclid_reduced(p: nat, a: nat, b: nat)
    requires
        is_prime(p),
        0 < a < p,
        (a * b) % p == 0,
    ensures
        b % p == 0,
    decreases a,
{
    if a == 1 {
        assert(a * b == b) by (nonlinear_arith)
            requires
                a == 1,
        ;
    } else {
        let q = p / a;
        let r = p % a;
        assert(p % a != 0);
        lemma_fundamental_div_mod(p as int, a as int);
        lemma_mod_bound(p as int, a as int);
        let k = (a * b) / p;
        lemma_fundamental_div_mod((a * b) as int, p as int);
        assert(a * b == k * p) by {
            lemma_mul_is_commutative(k as int, p as int);
        }
        assert(r * b == p * b - q * (a * b)) by (nonlinear_arith)
            requires
                p == a * q + r,
        ;
        assert(r * b == (b - q * k) * p) by (nonlinear_arith)
            requires
                r * b == p * b - q * (a * b),
                a * b == k * p,
        ;
        lemma_mod_multiples_basic(b - q * k, p as int);
        lemma_euclid_reduced(p, r, b);
    }
}

/// Euclid's lemma: a prime that divides a product divides one of its factors.
pub proof fn lemma_euclid(p: nat, a: nat, b: nat)
    requires
        is_prime(p),
        (a * b) % p == 0,
    ensures
        a % p == 0 || b % p == 0,
{
    if a % p != 0 {
        lemma_mod_bound(a as int, p as int);
        lemma_mul_mod_noop_left(a as int, b as int, p as int);
        lemma_euclid_reduced(p, a % p, b);
    }
}

proof fn lemma_binom_above(n: nat, k: nat)
    requires
        k > n,
    ensures
        binom(n, k) == 0,
    decreases n,
{
    if n > 0 {
        lemma_binom_above((n - 1) as nat, (k - 1) as nat);
        lemma_binom_above((n - 1) as nat, k);
    }
}

proof fn lemma_binom_diag(n: nat)
    ensures
        binom(n, n) == 1,
    decreases n,
{
    if n > 0 {
        lemma_binom_diag((n - 1) as nat);
        lemma_binom_above((n - 1) as nat, n);
    }
}

proof fn lemma_binom_one(n: nat)
    ensures
        binom(n, 1) == n,
    decreases n,
{
    if n > 0 {
        lemma_binom_one((n - 1) as nat);
        assert(binom((n - 1) as nat, 0) == 1);
    }
}

/// `k * C(n, k) == n * C(n - 1, k - 1)`.
proof fn lemma_binom_absorb(n: nat, k: nat)
    requires
        n >= 1,
        k >= 1,
    ensures
        k * binom(n, k) == n * binom((n - 1) as nat, (k - 1) as nat),
    decreases n,
{
    if k == 1 {
        lemma_binom_one(n);
        assert(binom((n - 1) as nat, 0) == 1);
    } else if n == 1 {
        lemma_binom_above(0, (k - 1) as nat);
        lemma_binom_above(0, k);
        assert(binom(1, k) == binom(0, (k - 1) as nat) + binom(0, k));
    } else {
        let n1 = (n - 1) as nat;
        let n2 = (n - 2) as nat;
        let k1 = (k - 1) as nat;
        let k2 = (k - 2) as nat;
        lemma_binom_absorb(n1, k1);
        lemma_binom_absorb(n1, k);
        assert(binom(n, k) == binom(n1, k1) + binom(n1, k));
        assert(binom(n1, k1) == binom(n2, k2) + binom(n2, k1));
        let x = binom(n1, k1);
        let y = binom(n1, k);
        let u = binom(n2, k2);
        let v = binom(n2, k1);
        assert(k * (x + y) == n * x) by (nonlinear_arith)
            requires
                k1 * x == n1 * u,
                k * y == n1 * v,
                x == u + v,
                k1 + 1 == k,
                n1 + 1 == n,
        ;
    }
}

/// A prime divides every binomial coefficient `C(p, k)` with `0 < k < p`.
pub proof fn lemma_binom_prime(p: nat, k: nat)
    requires
        is_prime(p),
        0 < k < p,
    ensures
        binom(p, k) % p == 0,
{
    lemma_binom_absorb(p, k);
    let c = binom((p - 1) as nat, (k - 1) as nat);
    lemma_mod_multiples_basic(c as int, p as int);
    assert((k * binom(p, k)) % p == 0) by {
        assert(k * binom(p, k) == c * p) by (nonlinear_arith)
            requires
                k * binom(p, k) == p * c,
        ;
    }
    lemma_euclid(p, k, binom(p, k));
    lemma_small_mod(k, p);
}

proof fn lemma_binom_sum_step(n: nat, x: int, j: nat)
    ensures
        binom_sum(n + 1, x, j + 1) == binom_sum(n, x, j + 1) + x * binom_sum(n, x, j),
    decreases j,
{
    reveal(pow);
    if j == 0 {
        assert(binom_sum(n + 1, x, 1) == binom_sum(n + 1, x, 0) + binom(n + 1, 0) * pow(x, 0));
        assert(binom_sum(n, x, 1) == binom_sum(n, x, 0) + binom(n, 0) * pow(x, 0));
    } else {
        let j1 = (j - 1) as nat;
        lemma_binom_sum_step(n, x, j1);
        let a = binom_sum(n + 1, x, j);
        let s = binom_sum(n, x, j);
        let s1 = binom_sum(n, x, j1);
        let c0 = binom(n, j1);
        let c1 = binom(n, j);
        let w = pow(x, j1);
        assert(pow(x, j) == x * w);
        assert(binom((n + 1) as nat, j) == c0 + c1);
        assert(binom_sum(n + 1, x, j + 1) == a + (c0 + c1) * pow(x, j));
        assert(binom_sum(n, x, j + 1) == s + c1 * pow(x, j));
        assert(s == s1 + c0 * w);
        assert(a + (c0 + c1) * (x * w) == (s + c1 * (x * w)) + x * s) by (nonlinear_arith)
            requires
                a == s + x * s1,
                s == s1 + c0 * w,
        ;
    }
}

/// The binomial theorem for `(x + 1)^n`.
pub proof fn lemma_binomial(n: nat, x: int)
    ensures
        binom_sum(n, x, n + 1) == pow(x + 1, n),
    decreases n,
{
    reveal(pow);
    if n == 0 {
        assert(binom_sum(0, x, 1) == binom_sum(0, x, 0) + binom(0, 0) * pow(x, 0));
        assert(pow(x, 0) == 1 && pow(x + 1, 0) == 1);
        assert(binom(0, 0) == 1);
        assert(binom_sum(0, x, 0) == 0);
        assert(binom(0, 0) * pow(x, 0) == 1) by (nonlinear_arith)
            requires
                binom(0, 0) == 1,
                pow(x, 0) == 1,
        ;
    } else {
        let n1 = (n - 1) as nat;
        lemma_binomial(n1, x);
        lemma_binom_sum_step(n1, x, n);
        lemma_binom_above(n1, n);
        let s = binom_sum(n1, x, n);
        assert(binom_sum(n1, x, n + 1) == s + binom(n1, n) * pow(x, n));
        assert(pow(x + 1, n) == (x + 1) * pow(x + 1, n1));
        assert(s == pow(x + 1, n1));
        assert(binom_sum(n, x, n + 1) == binom_sum(n1, x, n + 1) + x * s);
        assert(binom_sum(n1, x, n + 1) == s);
        assert(s + x * s == (x + 1) * s) by (nonlinear_arith);
        assert(binom_sum(n, x, n + 1) == (x + 1) * pow(x + 1, n1));
    }
}

proof fn lemma_binom_sum_mod_prime(p: nat, x: int, j: nat)
    requires
        is_prime(p),
        1 <= j <= p,
    ensures
        binom_sum(p, x, j) % (p as int) == 1,
    decreases j,
{
    reveal(pow);
    if j == 1 {
        lemma_small_mod(1, p);
        assert(binom_sum(p, x, 1) == binom_sum(p, x, 0) + binom(p, 0) * pow(x, 0));
    } else {
        let j1 = (j - 1) as nat;
        lemma_binom_sum_mod_prime(p, x, j1);
        lemma_binom_prime(p, j1);
        let c = binom(p, j1);
        let t = c * pow(x, j1);
        lemma_mul_mod_noop_left(c as int, pow(x, j1), p as int);
        assert(t % (p as int) == 0) by {
            assert((c % p) * pow(x, j1) == 0);
            lemma_small_mod(0, p);
        }
        assert(binom_sum(p, x, j) == binom_sum(p, x, j1) + t);
        lemma_add_mod_noop(binom_sum(p, x, j1), t, p as int);
        lemma_small_mod(1, p);
    }
}

/// `(x + 1)^p == x^p + 1 (mod p)` for a prime `p`.
proof fn lemma_frobenius(p: nat, x: int)
    requires
        is_prime(p),
    ensures
        pow(x + 1, p) % (p as int) == (pow(x, p) + 1) % (p as int),
{
    lemma_binomial(p, x);
    lemma_binom_diag(p);
    lemma_binom_sum_mod_prime(p, x, p);
    let s = binom_sum(p, x, p);
    assert(binom_sum(p, x, p + 1) == s + binom(p, p) * pow(x, p));
    assert(pow(x + 1, p) == s + pow(x, p));
    lemma_add_mod_noop(s, pow(x, p), p as int);
    lemma_add_mod_noop(1, pow(x, p), p as int);
    lemma_small_mod(1, p);
}

/// `x^p == x (mod p)` for a prime `p` and any natural `x`.
pub proof fn lemma_fermat_frobenius(p: nat, x: nat)
    requires
        is_prime(p),
    ensures
        pow(x as int, p) % (p as int) == (x as int) % (p as int),
    decreases x,
{
    if x == 0 {
        lemma0_pow(p);
    } else {
        let y = (x - 1) as nat;
        lemma_fermat_frobenius(p, y);
        lemma_frobenius(p, y as int);
        lemma_add_mod_noop(pow(y as int, p), 1, p as int);
        lemma_add_mod_noop(y as int, 1, p as int);
    }
}

/// Fermat's little theorem: `x^(p - 1) == 1 (mod p)` for a prime `p` that does not divide `x`.
pub proof fn lemma_fermat(p: nat, x: nat)
    requires
        is_prime(p),
        x % p != 0,
    ensures
        pow(x as int, (p - 1) as nat) % (p as int) == 1,
{
    let e = (p - 1) as nat;
    lemma_fermat_frobenius(p, x);
    reveal(pow);
    assert(pow(x as int, p) == x * pow(x as int, e));
    if x == 0 {
        lemma_small_mod(0, p);
    }
    assert(x > 0);
    lemma_pow_positive(x as int, e);
    let y = (pow(x as int, e) - 1) as nat;
    assert(x * y == pow(x as int, p) - x) by (nonlinear_arith)
        requires
            y == pow(x as int, e) - 1,
            pow(x as int, p) == x * pow(x as int, e),
    ;
    lemma_sub_mod_noop(pow(x as int, p), x as int, p as int);
    lemma_small_mod(0, p);
    assert((x * y) % p == 0);
    lemma_euclid(p, x, y);
    lemma_add_mod_noop(y as int, 1, p as int);
    lemma_small_mod(1, p);
}

/// The only square roots of one modulo a prime are `1` and `p - 1`.
pub proof fn lemma_square_root_of_one(p: nat, x: nat)
    requires
        is_prime(p),
        x < p,
        (x * x) % p == 1,
    ensures
        x == 1 || x == p - 1,
{
    if x == 0 {
        lemma_small_mod(0, p);
    }
    assert(x >= 1);
    let k = (x * x) / p;
    lemma_fundamental_div_mod((x * x) as int, p as int);
    let u = (x - 1) as nat;
    let v = (x + 1) as nat;
    assert(u * v == k * p) by (nonlinear_arith)
        requires
            u == x - 1,
            v == x + 1,
            x * x == p * k + 1,
    ;
    lemma_mod_multiples_basic(k as int, p as int);
    lemma_euclid(p, u, v);
    if u % p == 0 {
        lemma_small_mod(u, p);
    } else {
        if v < p {
            lemma_small_mod(v, p);
        } else {
            assert(v == p);
        }
    }
}

} // verus!
