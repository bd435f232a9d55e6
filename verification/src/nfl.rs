//! The optimized reduction of NFLlib: for a modulus `p` with `s0` leading zero
//! bits that is close enough below `2^(64 - s0)`, the high limb of the Barrett
//! constant is exactly `2^s0`, and the quotient can be estimated with a shift
//! and a single 64-bit product.
use crate::barrett::{barrett, barrett_quotient, dword, lemma_barrett_quotient, lemma_div_window, lemma_mod_window, word};
use vstd::arithmetic::div_mod::*;
use vstd::arithmetic::mul::*;
use vstd::arithmetic::power::*;
use vstd::arithmetic::power2::*;
use vstd::bits::*;
use vstd::prelude::*;
use vstd::std_specs::bits::*;

verus! {

/// The number of leading zero bits of `p`.
pub open spec fn lz(p: u64) -> nat {
    u64_leading_zeros(p) as nat
}

/// The condition of NFLlib on a modulus `p` with `s0 = lz(p) >= 1` leading zeros:
/// `(2^(3 s0) + 1) * 2^64 < 2^(3 s0) * (2^s0 + 1) * p`.
pub open spec fn supports_opt_spec(p: u64) -> bool {
    let l = lz(p);
    l >= 1 && (pow2(3 * l) + 1) * word() < pow2(3 * l) * (pow2(l) + 1) * p
}

/// The quotient estimate of the optimized reduction of a double word `a`:
/// `floor((lo(B) * floor(a / 2^64) + a * 2^s0) / 2^64)`, with `B` the Barrett constant.
pub open spec fn opt_quotient(p: u64, a: int) -> int {
    ((barrett(p as int) % word()) * (a / word()) + a * (pow2(lz(p)) as int)) / word()
}

/// The quotient estimate of the optimized reduction of a word `a`: `floor(a / 2^(64 - s0))`.
pub open spec fn opt_quotient_word(p: u64, a: int) -> int {
    a / (pow2((64 - lz(p)) as nat) as int)
}

/// Shifting left is multiplying by a power of two, as long as nothing overflows.
pub proof fn lemma_u128_shl(x: u128, s: u128)
    requires
        s < 128,
        x * pow2(s as nat) <= u128::MAX,
    ensures
        x << s == x * pow2(s as nat),
    decreases s,
{
    if s == 0 {
        assert(x << 0u128 == x) by (bit_vector);
        lemma2_to64();
    } else {
        let s1 = (s - 1) as u128;
        lemma_pow2_unfold(s as nat);
        lemma_pow2_pos(s1 as nat);
        assert(x * pow2(s1 as nat) <= x * pow2(s as nat)) by (nonlinear_arith)
            requires
                pow2(s as nat) == 2 * pow2(s1 as nat),
                pow2(s1 as nat) > 0,
        ;
        lemma_u128_shl(x, s1);
        let y = x << s1;
        assert(y < 0x8000_0000_0000_0000_0000_0000_0000_0000u128) by (nonlinear_arith)
            requires
                y == x * pow2(s1 as nat),
                x * pow2(s as nat) <= u128::MAX,
                pow2(s as nat) == 2 * pow2(s1 as nat),
        ;
        assert(x << s == (y << 1u128)) by (bit_vector)
            requires
                y == x << s1,
                s1 + 1 == s,
                s < 128,
        ;
        assert(y < 0x8000_0000_0000_0000_0000_0000_0000_0000u128 ==> (y << 1u128) == 2 * y)
            by (bit_vector);
        assert(2 * y == x * pow2(s as nat)) by (nonlinear_arith)
            requires
                y == x * pow2(s1 as nat),
                pow2(s as nat) == 2 * pow2(s1 as nat),
        ;
    }
}

/// A nonzero `p` with `l` leading zeros lies in `[2^(63 - l), 2^(64 - l))`.
pub proof fn lemma_leading_zeros(p: u64)
    requires
        p >= 1,
    ensures
        lz(p) <= 63,
        pow2((63 - lz(p)) as nat) <= p,
        p < pow2((64 - lz(p)) as nat),
{
    axiom_u64_leading_zeros(p);
    let l = lz(p);
    let hi = (64 - l) as u64;
    let top = (63 - l) as u64;
    assert(p >> hi == 0);
    assert((p >> top) & 1u64 != 0u64);
    if l == 0 {
        lemma2_to64_rest();
        lemma2_to64();
        assert(pow2(64) == 0x1_0000_0000_0000_0000);
        lemma_u64_shr_is_div(p, 63);
        assert((p >> 63u64) & 1u64 != 0u64 ==> p >> 63u64 >= 1) by (bit_vector);
    } else {
        lemma_u64_shr_is_div(p, hi);
        lemma_u64_shr_is_div(p, top);
        assert((p >> top) & 1u64 != 0u64 ==> p >> top >= 1) by (bit_vector);
        lemma_pow2_pos(hi as nat);
        lemma_pow2_pos(top as nat);
        lemma_div_window(p as int, pow2(hi as nat) as int);
        lemma_div_window(p as int, pow2(top as nat) as int);
        assert(p < pow2(hi as nat)) by (nonlinear_arith)
            requires
                (p as int) < (p as int / pow2(hi as nat) as int) * pow2(hi as nat) + pow2(
                    hi as nat,
                ),
                p as int / pow2(hi as nat) as int == 0,
        ;
        assert(pow2(top as nat) <= p) by (nonlinear_arith)
            requires
                (p as int / pow2(top as nat) as int) * pow2(top as nat) <= p,
                p as int / pow2(top as nat) as int >= 1,
                pow2(top as nat) > 0,
        ;
    }
}

/// A modulus of `2..2^62` has between 2 and 62 leading zeros.
pub proof fn lemma_leading_zeros_62(p: u64)
    requires
        2 <= p < 0x4000_0000_0000_0000,
    ensures
        2 <= lz(p) <= 62,
        pow2((63 - lz(p)) as nat) <= p,
        p < pow2((64 - lz(p)) as nat),
        pow2(lz(p)) * pow2((64 - lz(p)) as nat) == word(),
{
    lemma_leading_zeros(p);
    let l = lz(p);
    lemma2_to64();
    lemma2_to64_rest();
    if l < 2 {
        lemma_pow2_strictly_increases((63 - l) as nat, 63);
        if l == 1 {
        } else {
            assert(pow2(63) == 0x8000_0000_0000_0000);
        }
        assert(false);
    }
    if l > 62 {
        assert(l == 63);
        assert(pow2(1) == 2);
        assert(false);
    }
    lemma_pow2_adds(l, (64 - l) as nat);
}

/// Under the NFLlib condition the Barrett constant is `2^(64 + s0) + lo` with a
/// low limb small enough that `(2^64 - 1) * lo + p^2 < 2^128`.
pub proof fn lemma_opt_barrett(p: u64)
    requires
        2 <= p < 0x4000_0000_0000_0000,
        supports_opt_spec(p),
    ensures
        barrett(p as int) / word() == pow2(lz(p)),
        (word() - 1) * (barrett(p as int) % word()) + (p as int) * (p as int) < dword(),
        (pow2(lz(p)) + 1) * (pow2((64 - lz(p)) as nat) - p) < pow2((64 - lz(p)) as nat),
{
    lemma_leading_zeros_62(p);
    let l = lz(p);
    let x = pow2(l) as int;
    let m = pow2((64 - l) as nat) as int;
    let x3 = pow2(3 * l) as int;
    let w = word();
    let w2 = dword();
    let pp = p as int;
    lemma_pow2_adds(l, l);
    lemma_pow2_adds(2 * l, l);
    assert(x3 == x * x * x);
    lemma_pow2_pos(l);
    lemma_pow2_pos(3 * l);
    assert(w2 == w * w);
    assert(x * m == w);
    // (x + 1) p > w.
    assert((x + 1) * pp > w) by (nonlinear_arith)
        requires
            (x3 + 1) * w < x3 * (x + 1) * pp,
            x3 > 0,
            w > 0,
    {
        assert(x3 * w < x3 * ((x + 1) * pp));
    }
    assert((x + 1) * (m - pp) < m) by (nonlinear_arith)
        requires
            (x + 1) * pp > w,
            x * m == w,
    ;
    let b = barrett(pp);
    lemma_div_window(w2, pp);
    assert(x * w * pp <= w2) by (nonlinear_arith)
        requires
            pp < m,
            x * m == w,
            w2 == w * w,
            x > 0,
            w > 0,
            pp >= 0,
    {
        assert(x * pp < x * m);
        assert(x * w * pp == (x * pp) * w);
    }
    assert(x * w <= b) by (nonlinear_arith)
        requires
            x * w * pp <= w2,
            w2 < b * pp + pp,
            pp > 0,
    {
        assert(x * w * pp < (b + 1) * pp);
    }
    assert(b < (x + 1) * w) by (nonlinear_arith)
        requires
            b * pp <= w2,
            (x + 1) * pp > w,
            w2 == w * w,
            w > 0,
            pp > 0,
    {
        assert(b * pp < (x + 1) * pp * w);
    }
    lemma_mod_window(b, w, x);
    let lo = b - x * w;
    // W^3 + p^3 < W^2 (x + 1) p.
    assert(w * w2 + pp * pp * pp < w2 * (x + 1) * pp) by (nonlinear_arith)
        requires
            (x3 + 1) * w < x3 * (x + 1) * pp,
            x3 == x * x * x,
            x * m == w,
            0 < pp < m,
            x > 0,
            w2 == w * w,
    {
        assert(x3 * ((x + 1) * pp - w) > w);
        assert(x3 * ((x + 1) * pp - w) * w2 > w * w2);
        assert(pp * pp * pp < m * m * m);
        assert(x3 * (pp * pp * pp) < x3 * (m * m * m));
        assert(x3 * (m * m * m) == w * w2);
        assert(x3 * (((x + 1) * pp - w) * w2) > x3 * (pp * pp * pp));
    }
    assert((w - 1) * lo + pp * pp < w2) by (nonlinear_arith)
        requires
            b * pp <= w2,
            lo == b - x * w,
            lo >= 0,
            w * w2 + pp * pp * pp < w2 * (x + 1) * pp,
            w2 == w * w,
            w > 1,
            pp > 0,
    {
        assert(lo * pp <= w2 - x * w * pp);
        assert(w * (lo * pp) <= w * w2 - x * w2 * pp);
        assert(w * lo * pp < w2 * pp - pp * pp * pp);
        assert((w * lo + pp * pp) * pp < w2 * pp);
        assert(w * lo + pp * pp < w2);
    }
}

/// The optimized reduction of a double word `a < p^2` leaves a remainder in `[0, 2p)`.
pub proof fn lemma_opt_quotient(p: u64, a: int)
    requires
        2 <= p < 0x4000_0000_0000_0000,
        supports_opt_spec(p),
        0 <= a < (p as int) * (p as int),
    ensures
        a * pow2(lz(p)) < dword() / 4,
        (barrett(p as int) % word()) * (a / word()) + a * pow2(lz(p)) < dword(),
        0 <= opt_quotient(p, a),
        opt_quotient(p, a) * p <= a,
        a - opt_quotient(p, a) * p < 2 * p,
{
    lemma_leading_zeros_62(p);
    lemma_opt_barrett(p);
    let l = lz(p);
    let x = pow2(l) as int;
    let m = pow2((64 - l) as nat) as int;
    let w = word();
    let w2 = dword();
    let pp = p as int;
    let b = barrett(pp);
    let lo = b % w;
    let ah = a / w;
    let al = a % w;
    lemma_div_window(a, w);
    lemma_div_window(b, w);
    lemma_mod_window(b, w, x);
    lemma_mod_window(a, w, ah);
    assert(w2 == w * w);
    lemma_pow2_pos(l);
    lemma2_to64();
    if l > 2 {
        lemma_pow2_strictly_increases(2, l);
    }
    lemma_div_window(w2, pp);
    // a < 2^(128 - 2l), so a * x < 2^(128 - l) <= 2^126.
    assert(a * x < w2 / 4 && ah * x < w) by (nonlinear_arith)
        requires
            a < pp * pp,
            0 < pp < m,
            x * m == w,
            x >= 4,
            w2 == w * w,
            ah * w <= a,
            a >= 0,
            w == 0x1_0000_0000_0000_0000,
    {
        assert(pp * pp < m * m);
        assert(a * x * x < m * m * x * x);
        assert(m * m * x * x == w2);
        assert(a * x * x < w2);
        assert(a * x * 4 <= a * x * x);
        assert(ah * w * x * x <= a * x * x);
    }
    assert(0 <= lo * ah < w2 / 4) by (nonlinear_arith)
        requires
            0 <= lo < w,
            0 <= ah,
            ah * x < w,
            x >= 4,
            w2 == w * w,
            w == 0x1_0000_0000_0000_0000,
    {
        assert(ah * 4 <= ah * x);
        assert(lo * ah * 4 < w * w);
    }
    let s = lo * ah + a * x;
    assert(0 <= s < w2);
    lemma_div_window(s, w);
    let q = s / w;
    assert(q == opt_quotient(p, a));
    // a * B == w * s + al * lo
    assert(a * b == w * s + al * lo) by (nonlinear_arith)
        requires
            b == x * w + lo,
            a == ah * w + al,
            s == lo * ah + a * x,
    ;
    lemma_barrett_quotient(pp, a);
    let qb = barrett_quotient(pp, a);
    lemma_div_window(a * b, w2);
    // q <= qb
    assert(q <= qb) by (nonlinear_arith)
        requires
            q * w <= s,
            a * b == w * s + al * lo,
            al * lo >= 0,
            a * b < qb * w2 + w2,
            w2 == w * w,
            w > 0,
    {
        assert(q * w2 <= s * w);
        assert(q * w2 < qb * w2 + w2);
    }
    assert(q * pp <= a) by (nonlinear_arith)
        requires
            q <= qb,
            qb * pp <= a,
            pp > 0,
    ;
    assert(al * lo <= (w - 1) * lo) by (nonlinear_arith)
        requires
            0 <= al < w,
            lo >= 0,
    ;
    assert(a - q * pp < 2 * pp) by (nonlinear_arith)
        requires
            s < q * w + w,
            a * b == w * s + al * lo,
            al * lo <= (w - 1) * lo,
            (w - 1) * lo + pp * pp < w2,
            a < pp * pp,
            w2 < b * pp + pp,
            w2 == w * w,
            w > 0,
            pp > 0,
            a >= 0,
    {
        assert(w * s < q * w2 + w2);
        assert(a * b < q * w2 + w2 + al * lo);
        assert(a * b * pp < (q * w2 + w2 + al * lo) * pp);
        assert(a * w2 <= a * b * pp + a * pp);
        assert(a + al * lo < w2);
        assert(a * w2 < (q * w2 + w2) * pp + (al * lo + a) * pp);
        assert(a * w2 < (q * w2 + w2) * pp + w2 * pp);
        assert(a * w2 < (q * pp + 2 * pp) * w2);
    }
}

/// The optimized reduction of a word leaves a remainder in `[0, 2p)`.
pub proof fn lemma_opt_quotient_word(p: u64, a: u64)
    requires
        2 <= p < 0x4000_0000_0000_0000,
        supports_opt_spec(p),
    ensures
        0 <= opt_quotient_word(p, a as int),
        opt_quotient_word(p, a as int) * p <= a,
        a - opt_quotient_word(p, a as int) * p < 2 * p,
{
    lemma_leading_zeros_62(p);
    lemma_opt_barrett(p);
    let l = lz(p);
    let x = pow2(l) as int;
    let m = pow2((64 - l) as nat) as int;
    let pp = p as int;
    let aa = a as int;
    lemma_pow2_pos((64 - l) as nat);
    lemma_div_window(aa, m);
    let q = opt_quotient_word(p, aa);
    let d = m - pp;
    assert(q < x) by (nonlinear_arith)
        requires
            q * m <= aa,
            aa < x * m,
            m > 0,
    ;
    assert(q * pp <= aa) by (nonlinear_arith)
        requires
            q * m <= aa,
            pp < m,
            q >= 0,
    ;
    assert(aa - q * pp < 2 * pp) by (nonlinear_arith)
        requires
            aa < q * m + m,
            d == m - pp,
            0 <= q < x,
            (x + 1) * d < m,
            d > 0,
    {
        assert(aa - q * pp < m + q * d);
        assert(q * d <= (x - 1) * d);
    }
}

/// Whether the modulus `p` satisfies the NFLlib condition that allows the
/// optimized multiplication and reduction.
pub fn supports_opt(p: u64) -> (r: bool)
    ensures
        r == supports_opt_spec(p),
{
    let l = p.leading_zeros();
    if l < 1 {
        return false;
    }
    proof {
        axiom_u64_leading_zeros(p);
        if p >= 1 {
            lemma_leading_zeros(p);
        }
    }
    let ghost x = pow2(l as nat) as int;
    let ghost x3 = pow2(3 * l as nat) as int;
    let ghost m = pow2((64 - l) as nat) as int;
    proof {
        lemma2_to64();
        lemma2_to64_rest();
        lemma_pow2_adds(l as nat, (64 - l) as nat);
        lemma_pow2_pos(l as nat);
        lemma_pow2_pos((64 - l) as nat);
        if l < 64 {
            lemma_pow2_strictly_increases(l as nat, 64);
        }
        lemma_u128_shl(1u128, l as u128);
        assert(p * (x + 1) <= word() + m) by (nonlinear_arith)
            requires
                p < m,
                x * m == word(),
        ;
    }
    let t = (p as u128) * ((1u128 << l) + 1);
    proof {
        assert(t == p * (x + 1));
        lemma_pow2_adds(l as nat, l as nat);
        lemma_pow2_adds(2 * l as nat, l as nat);
        assert(3 * l as nat == (l + l + l) as nat);
        lemma_pow2_pos(3 * l as nat);
    }
    if t <= 0x1_0000_0000_0000_0000u128 {
        proof {
            assert(!((x3 + 1) * word() < x3 * (x + 1) * p)) by (nonlinear_arith)
                requires
                    p * (x + 1) <= word(),
                    x3 > 0,
            {
                assert(x3 * (x + 1) * p <= x3 * word());
            }
        }
        return false;
    }
    let d = t - 0x1_0000_0000_0000_0000u128;
    proof {
        assert(((x3 + 1) * word() < x3 * (x + 1) * p) == (x3 * d > word())) by (nonlinear_arith)
            requires
                d == p * (x + 1) - word(),
        ;
    }
    if 3 * l >= 64 {
        proof {
            if 3 * l > 64 {
                lemma_pow2_strictly_increases(64, 3 * l as nat);
            }
            assert(x3 * d > word()) by (nonlinear_arith)
                requires
                    x3 >= word(),
                    d >= 1,
                    3 * l != 64,
                    x3 > word() || 3 * l == 64,
            ;
        }
        true
    } else {
        let e = 64 - 3 * l;
        proof {
            lemma_pow2_adds(3 * l as nat, e as nat);
            lemma_pow2_pos(e as nat);
            lemma_pow2_strictly_increases(e as nat, 64);
            lemma_u128_shl(1u128, e as u128);
            assert((x3 * d > word()) == (d > pow2(e as nat))) by (nonlinear_arith)
                requires
                    x3 * pow2(e as nat) == word(),
                    x3 > 0,
            ;
        }
        d > (1u128 << e)
    }
}

} // verus!
