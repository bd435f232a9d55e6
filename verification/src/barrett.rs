//! The arithmetic behind the lazy reductions: Barrett's quotient estimate
//! with a 128-bit precomputed constant, and Shoup's precomputed quotient.
use vstd::arithmetic::div_mod::*;
use vstd::arithmetic::mul::*;
use vstd::prelude::*;

verus! {

/// `2^64`.
pub open spec fn word() -> int {
    0x1_0000_0000_0000_0000int
}

/// `2^128`.
pub open spec fn dword() -> int {
    0x1_0000_0000_0000_0000_0000_0000_0000_0000int
}

/// The Barrett constant `floor(2^128 / p)`.
pub open spec fn barrett(p: int) -> int {
    dword() / p
}

/// Barrett's estimate `floor(a * floor(2^128 / p) / 2^128)` of the quotient `a / p`.
pub open spec fn barrett_quotient(p: int, a: int) -> int {
    (a * barrett(p)) / dword()
}

/// The Shoup representation `floor(b * 2^64 / p)` of `b`.
pub open spec fn shoup_of(p: int, b: int) -> int {
    (b * word()) / p
}

/// Shoup's estimate `floor(a * shoup(b) / 2^64)` of the quotient `a * b / p`.
pub open spec fn shoup_quotient(p: int, a: int, b: int) -> int {
    (a * shoup_of(p, b)) / word()
}

/// `x % p` is `x - q * p` whenever `0 <= x - q * p < p`.
pub proof fn lemma_mod_window(x: int, p: int, q: int)
    requires
        p > 0,
        q * p <= x < q * p + p,
    ensures
        x % p == x - q * p,
        x / p == q,
{
    lemma_fundamental_div_mod_converse(x, p, q, x - q * p);
}

/// `x - q * p` has the residue of `x`.
pub proof fn lemma_mod_sub_multiple(x: int, p: int, q: int)
    requires
        p > 0,
    ensures
        (x - q * p) % p == x % p,
{
    lemma_mod_multiples_vanish(-q, x, p);
    assert(p * (-q) + x == x - q * p) by (nonlinear_arith);
}

/// Product of two words fits in a double word.
pub proof fn lemma_word_product(x: int, y: int)
    requires
        0 <= x < word(),
        0 <= y < word(),
    ensures
        0 <= x * y <= (word() - 1) * (word() - 1),
        x * y < dword(),
{
    assert(0 <= x * y <= (word() - 1) * (word() - 1)) by (nonlinear_arith)
        requires
            0 <= x < word(),
            0 <= y < word(),
    ;
    assert((word() - 1) * (word() - 1) < dword()) by (nonlinear_arith);
}

/// Division facts of `c = floor(n / d)`: `c * d <= n < c * d + d`.
pub proof fn lemma_div_window(n: int, d: int)
    requires
        d > 0,
        n >= 0,
    ensures
        (n / d) * d <= n < (n / d) * d + d,
        n / d >= 0,
{
    lemma_fundamental_div_mod(n, d);
    lemma_mod_bound(n, d);
    lemma_mul_is_commutative(n / d, d);
    lemma_div_pos_is_pos(n, d);
}

/// Barrett's estimate is off by at most one from the true quotient:
/// `0 <= a - q * p < 2 * p`.
pub proof fn lemma_barrett_quotient(p: int, a: int)
    requires
        2 <= p,
        0 <= a < dword(),
    ensures
        0 <= barrett_quotient(p, a),
        barrett_quotient(p, a) * p <= a,
        a - barrett_quotient(p, a) * p < 2 * p,
{
    let w2 = dword();
    let b = barrett(p);
    lemma_div_window(w2, p);
    assert(b >= 0);
    let t = a * b;
    assert(t >= 0) by (nonlinear_arith)
        requires
            a >= 0,
            b >= 0,
            t == a * b,
    ;
    let q = barrett_quotient(p, a);
    lemma_div_window(t, w2);
    assert(q * p <= a) by (nonlinear_arith)
        requires
            q * w2 <= t,
            t == a * b,
            b * p <= w2,
            p > 0,
            w2 > 0,
            a >= 0,
            q >= 0,
    {
        assert(q * w2 * p <= a * b * p);
        assert(a * b * p <= a * w2);
        assert((q * p) * w2 <= a * w2);
    }
    assert(a - q * p < 2 * p) by (nonlinear_arith)
        requires
            t < q * w2 + w2,
            t == a * b,
            w2 < b * p + p,
            p > 0,
            w2 > 0,
            0 <= a < w2,
            q >= 0,
    {
        assert(a * b * p < (q + 1) * w2 * p);
        assert(a * w2 <= a * b * p + a * p);
        assert(a * p < w2 * p);
        assert(a * w2 < (q + 2) * p * w2);
    }
}

proof fn lemma_expand_limbs(a_hi: int, a_lo: int, b_hi: int, b_lo: int, w: int)
    ensures
        (a_hi * w + a_lo) * (b_hi * w + b_lo) == a_hi * b_hi * (w * w) + (a_hi * b_lo + a_lo
            * b_hi) * w + a_lo * b_lo,
{
    let x = a_hi * w;
    let y = b_hi * w;
    assert((x + a_lo) * (y + b_lo) == x * y + x * b_lo + a_lo * y + a_lo * b_lo)
        by (nonlinear_arith);
    assert(x * y == a_hi * b_hi * (w * w)) by (nonlinear_arith)
        requires
            x == a_hi * w,
            y == b_hi * w,
    ;
    assert(x * b_lo + a_lo * y == (a_hi * b_lo + a_lo * b_hi) * w) by (nonlinear_arith)
        requires
            x == a_hi * w,
            y == b_hi * w,
    ;
}

/// Splitting both factors into 64-bit limbs gives Barrett's quotient
/// without ever forming the 256-bit product.
pub proof fn lemma_barrett_limbs(a_hi: int, a_lo: int, b_hi: int, b_lo: int)
    requires
        0 <= a_hi < word(),
        0 <= a_lo < word(),
        0 <= b_hi < word(),
        0 <= b_lo < word(),
    ensures
        (a_hi * b_lo + a_lo * b_hi + (a_lo * b_lo) / word()) / word() + a_hi * b_hi == ((a_hi
            * word() + a_lo) * (b_hi * word() + b_lo)) / dword(),
{
    let w = word();
    let c = a_lo * b_lo;
    lemma_word_product(a_lo, b_lo);
    lemma_div_window(c, w);
    let c1 = c / w;
    let c0 = c - c1 * w;
    assert(a_hi * b_lo >= 0 && a_lo * b_hi >= 0) by (nonlinear_arith)
        requires
            a_hi >= 0,
            b_lo >= 0,
            a_lo >= 0,
            b_hi >= 0,
    ;
    let s = a_hi * b_lo + a_lo * b_hi + c1;
    lemma_div_window(s, w);
    let s1 = s / w;
    let s0 = s - s1 * w;
    let x = (a_hi * w + a_lo) * (b_hi * w + b_lo);
    lemma_expand_limbs(a_hi, a_lo, b_hi, b_lo, w);
    assert(x == a_hi * b_hi * (w * w) + s * w + c0) by (nonlinear_arith)
        requires
            x == a_hi * b_hi * (w * w) + (a_hi * b_lo + a_lo * b_hi) * w + a_lo * b_lo,
            a_lo * b_lo == c1 * w + c0,
            s == a_hi * b_lo + a_lo * b_hi + c1,
    ;
    assert(x == (a_hi * b_hi + s1) * (w * w) + (s0 * w + c0)) by (nonlinear_arith)
        requires
            x == a_hi * b_hi * (w * w) + s * w + c0,
            s == s1 * w + s0,
    ;
    assert(0 <= s0 * w + c0 < w * w) by (nonlinear_arith)
        requires
            0 <= s0 < w,
            0 <= c0 < w,
    ;
    assert(w * w == dword());
    lemma_mod_window(x, dword(), a_hi * b_hi + s1);
}

/// The two limbs of the Barrett constant add up to less than one word.
pub proof fn lemma_barrett_limb_sum(p: int)
    requires
        2 <= p,
    ensures
        barrett(p) / word() + barrett(p) % word() < word(),
        barrett(p) / word() <= word() / 2,
{
    let w = word();
    let w2 = dword();
    let b = barrett(p);
    lemma_div_window(w2, p);
    lemma_div_window(b, w);
    let bh = b / w;
    let bl = b - bh * w;
    lemma_mod_window(b, w, bh);
    assert(bh * p <= w) by (nonlinear_arith)
        requires
            bh * w <= b,
            b * p <= w2,
            w2 == w * w,
            w > 0,
            p > 0,
            bh >= 0,
    {
        assert(bh * w * p <= b * p);
        assert((bh * p) * w <= w * w);
    }
    assert(bh <= w / 2) by (nonlinear_arith)
        requires
            bh * p <= w,
            p >= 2,
            bh >= 0,
            w == 0x1_0000_0000_0000_0000,
    ;
    if bl + bh >= w {
        assert((bh + 1) * p > w) by (nonlinear_arith)
            requires
                w2 < b * p + p,
                b + 1 <= (bh + 1) * w,
                w2 == w * w,
                w > 0,
                p > 0,
        {
            assert(w * w < (b + 1) * p);
            assert((b + 1) * p <= (bh + 1) * w * p);
        }
        assert((bh + 1) * p * w <= w2 + bh * p) by (nonlinear_arith)
            requires
                b >= (bh + 1) * w - bh,
                b * p <= w2,
                p > 0,
        {
            assert(((bh + 1) * w - bh) * p <= b * p);
        }
        let m = (bh + 1) * p - w;
        assert(m * w <= bh * p) by (nonlinear_arith)
            requires
                m == (bh + 1) * p - w,
                (bh + 1) * p * w <= w2 + bh * p,
                w2 == w * w,
        ;
        assert(false) by (nonlinear_arith)
            requires
                m * w <= bh * p,
                bh * p <= w,
                m >= 1,
                m == (bh + 1) * p - w,
                p >= 2,
                w > 0,
        {
            assert(m * w <= w);
            assert(m <= 1);
            assert(bh * p >= w);
        }
    }
}

/// Shoup's estimate is off by at most one from the true quotient of `a * b` by `p`.
pub proof fn lemma_shoup_quotient(p: int, a: int, b: int)
    requires
        p > 0,
        0 <= b < p,
        0 <= a < word(),
    ensures
        0 <= shoup_of(p, b) < word(),
        0 <= shoup_quotient(p, a, b),
        shoup_quotient(p, a, b) * p <= a * b,
        a * b - shoup_quotient(p, a, b) * p < 2 * p,
{
    let w = word();
    let n = b * w;
    assert(0 <= n < p * w) by (nonlinear_arith)
        requires
            n == b * w,
            0 <= b < p,
            w > 0,
    ;
    lemma_div_window(n, p);
    let s = shoup_of(p, b);
    assert(s < w) by (nonlinear_arith)
        requires
            s * p <= n,
            n < p * w,
            p > 0,
    ;
    let t = a * s;
    assert(t >= 0) by (nonlinear_arith)
        requires
            a >= 0,
            s >= 0,
            t == a * s,
    ;
    lemma_div_window(t, w);
    let q = shoup_quotient(p, a, b);
    assert(q * p <= a * b) by (nonlinear_arith)
        requires
            q * w <= t,
            t == a * s,
            s * p <= b * w,
            p > 0,
            w > 0,
            a >= 0,
            q >= 0,
    {
        assert(q * w * p <= a * s * p);
        assert(a * s * p <= a * b * w);
        assert((q * p) * w <= (a * b) * w);
    }
    assert(a * b - q * p < 2 * p) by (nonlinear_arith)
        requires
            t < q * w + w,
            t == a * s,
            b * w < s * p + p,
            p > 0,
            w > 0,
            0 <= a < w,
            q >= 0,
    {
        assert(a * s * p < (q + 1) * w * p);
        assert(a * b * w <= a * s * p + a * p);
        assert(a * p < w * p);
        assert((a * b) * w < ((q + 2) * p) * w);
    }
}

} // verus!
