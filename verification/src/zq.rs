//! Ring operations for moduli up to 62 bits.
use vstd::arithmetic::div_mod::{lemma_mod_bound, lemma_mul_mod_noop, lemma_small_mod};
use vstd::arithmetic::power::{lemma_pow0, lemma_pow1, lemma_pow_adds, pow};
use vstd::arithmetic::power2::{
    lemma2_to64, lemma2_to64_rest, lemma_pow2_pos, lemma_pow2_strictly_increases, lemma_pow2_unfold,
    pow2,
};
use vstd::bits::lemma_u128_shr_is_div;
use vstd::prelude::*;
use vstd::std_specs::bits::axiom_u64_leading_zeros;

use crate::barrett::{
    barrett, barrett_quotient, dword, lemma_barrett_limb_sum, lemma_barrett_limbs,
    lemma_barrett_quotient, lemma_mod_sub_multiple, lemma_shoup_quotient, lemma_word_product,
    shoup_of, shoup_quotient, word,
};
use crate::foreign::{
    barrett_constant, is_prime_u64, random_seed, sample_uniform, samples_cover, uniform_samples,
};
use crate::nfl::{
    lemma_leading_zeros_62, lemma_opt_quotient, lemma_u128_shl, lz, opt_quotient,
    opt_quotient_word, supports_opt, supports_opt_spec,
};
use crate::laws::lemma_inverse;
use crate::prime::{is_prime, lemma_fermat, lemma_square_root_of_one};

verus! {

/// Structure holding a modulus up to 62 bits, with its precomputed Barrett
/// constant (in two 64-bit limbs), its number of leading zero bits, and whether
/// it supports the optimized NFLlib reduction.
#[derive(Debug, Clone, PartialEq)]
pub struct Modulus {
    p: u64,
    barrett_hi: u64,
    barrett_lo: u64,
    leading_zeros: u32,
    supports_opt: bool,
}

/// `x >> 64` is the high word of a double word.
proof fn lemma_hi_word(x: u128)
    ensures
        x >> 64 == x / 0x1_0000_0000_0000_0000u128,
        (x >> 64) as int == x as int / word(),
        x as int / word() < word(),
{
    lemma_u128_shr_is_div(x, 64);
    lemma2_to64_rest();
    assert(x >> 64 == x / 0x1_0000_0000_0000_0000u128);
    assert(x / 0x1_0000_0000_0000_0000u128 < 0x1_0000_0000_0000_0000u128) by (bit_vector);
}

/// Truncating a double word keeps its low word.
proof fn lemma_lo_word(x: u128)
    ensures
        (x as u64) as int == x as int % word(),
{
    assert((x as u64) as u128 == x % 0x1_0000_0000_0000_0000u128) by (bit_vector);
}

/// Peeling off the lowest remaining bit: `n >> s == 2 * (n >> (s + 1)) + bit`.
proof fn lemma_shr_step(n: u64, s: u64)
    requires
        s < 63,
    ensures
        n >> s == 2 * (n >> ((s + 1) as u64)) + ((n >> s) & 1),
        (n >> s) & 1 <= 1,
{
    assert(n >> s == 2 * (n >> ((s + 1) as u64)) + ((n >> s) & 1)) by (bit_vector)
        requires
            s < 63,
    ;
    assert((n >> s) & 1 <= 1) by (bit_vector);
}

impl Modulus {
    /// The value of the modulus.
    pub closed spec fn value(self) -> u64 {
        self.p
    }

    /// The precomputed constants agree with the modulus.
    pub closed spec fn consts_ok(self) -> bool {
        &&& self.barrett_hi as int == barrett(self.p as int) / word()
        &&& self.barrett_lo as int == barrett(self.p as int) % word()
        &&& self.leading_zeros as nat == lz(self.p)
        &&& self.supports_opt == supports_opt_spec(self.p)
    }

    /// Well-formedness: the modulus lies in `[2, 2^62)` and its precomputed constants are right.
    pub open spec fn wf(self) -> bool {
        2 <= self.value() < 0x4000_0000_0000_0000 && self.consts_ok()
    }

    /// Create a modulus from an integer of at most 62 bits.
    pub fn new(p: u64) -> (r: Option<Self>)
        ensures
            r is Some <==> 2 <= p < 0x4000_0000_0000_0000,
            r matches Some(m) ==> m.wf() && m.value() == p,
    {
        if p < 2 || (p >> 62) != 0 {
            proof {
                assert((p >> 62) != 0 ==> p >= 0x4000_0000_0000_0000) by (bit_vector);
            }
            None
        } else {
            proof {
                assert((p >> 62) == 0 ==> p < 0x4000_0000_0000_0000) by (bit_vector);
                lemma_barrett_limb_sum(p as int);
            }
            let b = barrett_constant(p);
            proof {
                lemma_hi_word(b);
                lemma_lo_word(b);
            }
            let m = Self {
                p,
                barrett_hi: (b >> 64) as u64,
                barrett_lo: b as u64,
                leading_zeros: p.leading_zeros(),
                supports_opt: supports_opt(p),
            };
            Some(m)
        }
    }

    /// Returns the value of the modulus.
    pub fn modulus(&self) -> (r: u64)
        ensures
            r == self.value(),
    {
        self.p
    }

    /// Return x mod p in constant time, for x < 2 * p.
    fn reduce1(x: u64, p: u64) -> (r: u64)
        requires
            p < 0x8000_0000_0000_0000u64,
            x < 2 * p,
        ensures
            r == x % p,
    {
        let y = x.wrapping_sub(p);
        let xp = x ^ p;
        let yp = y ^ p;
        let xy = xp ^ yp;
        let xxy = x ^ xy;
        let xxy = xxy >> 63;
        let c = xxy.wrapping_sub(1);
        let r = (c & y) | ((!c) & x);
        assert(r == if x < p {
            x
        } else {
            (x - p) as u64
        }) by (bit_vector)
            requires
                p < 0x8000_0000_0000_0000u64,
                x < 2 * p,
                y == (if x < p {
                    (x - p + 0x1_0000_0000_0000_0000) as u64
                } else {
                    (x - p) as u64
                }),
                xp == x ^ p,
                yp == y ^ p,
                xy == xp ^ yp,
                xxy == (x ^ xy) >> 63,
                c == (if xxy < 1 {
                    (xxy - 1 + 0x1_0000_0000_0000_0000) as u64
                } else {
                    (xxy - 1) as u64
                }),
                r == (c & y) | ((!c) & x),
        ;
        proof {
            if x < p {
                lemma_small_mod(x as nat, p as nat);
            } else {
                lemma_small_mod((x - p) as nat, p as nat);
                lemma_mod_sub_multiple(x as int, p as int, 1);
            }
        }
        r
    }

    /// Lazy modular reduction of a in constant time.
    /// The output is in the interval [0, 2 * p): it is `a - q * p` for
    /// Barrett's quotient estimate `q`.
    pub fn lazy_reduce_u128(&self, a: u128) -> (r: u64)
        requires
            self.wf(),
        ensures
            r == a - barrett_quotient(self.value() as int, a as int) * self.value(),
            r < 2 * self.value(),
            r % self.value() == (a as int) % (self.value() as int),
    {
        let ghost pp = self.p as int;
        let ghost bh = self.barrett_hi as int;
        let ghost bl = self.barrett_lo as int;
        let a_lo = a as u64;
        let a_hi = (a >> 64) as u64;
        proof {
            lemma_hi_word(a);
            lemma_lo_word(a);
            lemma_barrett_limb_sum(pp);
            lemma_word_product(a_lo as int, bl);
            lemma_word_product(a_hi as int, bl);
            lemma_word_product(a_lo as int, bh);
            lemma_word_product(a_hi as int, bh);
        }
        let p_lo_lo = ((a_lo as u128) * (self.barrett_lo as u128)) >> 64;
        let p_hi_lo = (a_hi as u128) * (self.barrett_lo as u128);
        let p_lo_hi = (a_lo as u128) * (self.barrett_hi as u128);
        proof {
            lemma_hi_word(((a_lo as u128) * (self.barrett_lo as u128)) as u128);
            assert(p_lo_hi + p_hi_lo + p_lo_lo < dword()) by (nonlinear_arith)
                requires
                    p_lo_hi == a_lo * bh,
                    p_hi_lo == a_hi * bl,
                    p_lo_lo < word(),
                    a_lo < word(),
                    a_hi < word(),
                    bh + bl < word(),
                    bh >= 0,
                    bl >= 0,
            {
                assert(a_lo * bh + a_hi * bl <= (word() - 1) * bh + (word() - 1) * bl);
                assert((word() - 1) * (bh + bl) <= (word() - 1) * (word() - 1));
            }
        }
        let s = p_lo_hi + p_hi_lo + p_lo_lo;
        proof {
            lemma_hi_word(s);
            assert(a_hi * bh <= (word() - 1) * (word() / 2)) by (nonlinear_arith)
                requires
                    0 <= a_hi < word(),
                    0 <= bh <= word() / 2,
            ;
            lemma_barrett_limbs(a_hi as int, a_lo as int, bh, bl);
            assert(a == a_hi * word() + a_lo);
            assert(barrett(pp) == bh * word() + bl);
            lemma_barrett_quotient(pp, a as int);
        }
        let q = (s >> 64) + (a_hi as u128) * (self.barrett_hi as u128);
        proof {
            assert(q == barrett_quotient(pp, a as int));
        }
        let r = (a - q * (self.p as u128)) as u64;
        proof {
            lemma_mod_sub_multiple(a as int, pp, q as int);
        }
        r
    }

    /// Lazy modular reduction of a in constant time.
    /// The output is in the interval [0, 2 * p): it is `a - q * p` for
    /// Barrett's quotient estimate `q`.
    pub fn lazy_reduce(&self, a: u64) -> (r: u64)
        requires
            self.wf(),
        ensures
            r == a - barrett_quotient(self.value() as int, a as int) * self.value(),
            r < 2 * self.value(),
            r % self.value() == a % self.value(),
    {
        let ghost pp = self.p as int;
        let ghost bh = self.barrett_hi as int;
        let ghost bl = self.barrett_lo as int;
        proof {
            lemma_barrett_limb_sum(pp);
            lemma_word_product(a as int, bl);
            lemma_word_product(a as int, bh);
        }
        let p_lo_lo = ((a as u128) * (self.barrett_lo as u128)) >> 64;
        let p_lo_hi = (a as u128) * (self.barrett_hi as u128);
        proof {
            lemma_hi_word(((a as u128) * (self.barrett_lo as u128)) as u128);
            assert(p_lo_hi + p_lo_lo < dword()) by (nonlinear_arith)
                requires
                    p_lo_hi == a * bh,
                    p_lo_lo < word(),
                    a < word(),
                    0 <= bh <= word() / 2,
            ;
        }
        let s = p_lo_hi + p_lo_lo;
        proof {
            lemma_hi_word(s);
            lemma_barrett_limbs(0, a as int, bh, bl);
            assert(barrett(pp) == bh * word() + bl);
            lemma_barrett_quotient(pp, a as int);
        }
        let q = s >> 64;
        proof {
            assert(q == barrett_quotient(pp, a as int));
        }
        let r = (a as u128 - q * (self.p as u128)) as u64;
        proof {
            lemma_mod_sub_multiple(a as int, pp, q as int);
        }
        r
    }

    /// Modular reduction of a u128 in constant time.
    pub fn reduce_u128(&self, a: u128) -> (r: u64)
        requires
            self.wf(),
        ensures
            r == (a as int) % (self.value() as int),
    {
        Self::reduce1(self.lazy_reduce_u128(a), self.p)
    }

    /// Modular reduction of a u64 in constant time.
    pub fn reduce(&self, a: u64) -> (r: u64)
        requires
            self.wf(),
        ensures
            r == a % self.value(),
    {
        Self::reduce1(self.lazy_reduce(a), self.p)
    }

    /// Modular addition of a and b in constant time.
    pub fn add(&self, a: u64, b: u64) -> (r: u64)
        requires
            self.wf(),
            a < self.value(),
            b < self.value(),
        ensures
            r == (a + b) % (self.value() as int),
    {
        Self::reduce1(a + b, self.p)
    }

    /// Modular subtraction of a and b in constant time.
    pub fn sub(&self, a: u64, b: u64) -> (r: u64)
        requires
            self.wf(),
            a < self.value(),
            b < self.value(),
        ensures
            r == (a + self.value() - b) % (self.value() as int),
    {
        Self::reduce1(a + self.p - b, self.p)
    }

    /// Modular multiplication of a and b in constant time.
    pub fn mul(&self, a: u64, b: u64) -> (r: u64)
        requires
            self.wf(),
            a < self.value(),
            b < self.value(),
        ensures
            r == (a * b) % (self.value() as int),
    {
        proof {
            lemma_word_product(a as int, b as int);
        }
        self.reduce_u128((a as u128) * (b as u128))
    }

    /// Optimized modular multiplication of a and b in constant time,
    /// for a modulus that satisfies the NFLlib condition.
    pub fn mul_opt(&self, a: u64, b: u64) -> (r: u64)
        requires
            self.wf(),
            supports_opt_spec(self.value()),
            a < self.value(),
            b < self.value(),
        ensures
            r == (a * b) % (self.value() as int),
    {
        proof {
            lemma_word_product(a as int, b as int);
            assert(a * b < self.value() * self.value()) by (nonlinear_arith)
                requires
                    a < self.value(),
                    b < self.value(),
            ;
        }
        self.reduce_opt_u128((a as u128) * (b as u128))
    }

    /// Modular negation in constant time.
    pub fn neg(&self, a: u64) -> (r: u64)
        requires
            self.wf(),
            a < self.value(),
        ensures
            r == (self.value() - a) % (self.value() as int),
    {
        Self::reduce1(self.p - a, self.p)
    }

    /// Compute the Shoup representation of a: `floor(a * 2^64 / p)`.
    pub fn shoup(&self, a: u64) -> (r: u64)
        requires
            self.wf(),
            a < self.value(),
        ensures
            r == shoup_of(self.value() as int, a as int),
    {
        proof {
            lemma2_to64_rest();
            assert(a * pow2(64) <= u128::MAX) by (nonlinear_arith)
                requires
                    a < 0x4000_0000_0000_0000,
                    pow2(64) == 0x1_0000_0000_0000_0000,
            ;
            lemma_u128_shl(a as u128, 64);
            lemma_shoup_quotient(self.p as int, 0, a as int);
        }
        (((a as u128) << 64) / (self.p as u128)) as u64
    }

    /// Shoup multiplication of a and b in constant time.
    pub fn mul_shoup(&self, a: u64, b: u64, b_shoup: u64) -> (r: u64)
        requires
            self.wf(),
            b < self.value(),
            b_shoup == shoup_of(self.value() as int, b as int),
        ensures
            r == (a * b) % (self.value() as int),
    {
        Self::reduce1(self.lazy_mul_shoup(a, b, b_shoup), self.p)
    }

    /// Lazy Shoup multiplication of a and b in constant time.
    /// The output is in the interval [0, 2 * p): it is `a * b - q * p` for
    /// Shoup's quotient estimate `q`.
    pub fn lazy_mul_shoup(&self, a: u64, b: u64, b_shoup: u64) -> (r: u64)
        requires
            self.wf(),
            b < self.value(),
            b_shoup == shoup_of(self.value() as int, b as int),
        ensures
            r == a * b - shoup_quotient(self.value() as int, a as int, b as int) * self.value(),
            r < 2 * self.value(),
            r % self.value() == (a * b) % (self.value() as int),
    {
        proof {
            lemma_word_product(a as int, b_shoup as int);
            lemma_word_product(a as int, b as int);
            lemma_shoup_quotient(self.p as int, a as int, b as int);
            lemma_hi_word(((a as u128) * (b_shoup as u128)) as u128);
        }
        let q = ((a as u128) * (b_shoup as u128)) >> 64;
        proof {
            lemma_mod_sub_multiple(a * b, self.p as int, q as int);
        }
        let r = ((a as u128) * (b as u128) - q * (self.p as u128)) as u64;
        r
    }

    /// Optimized modular reduction of a u128 below p^2 in constant time.
    fn reduce_opt_u128(&self, a: u128) -> (r: u64)
        requires
            self.wf(),
            supports_opt_spec(self.value()),
            a < self.value() * self.value(),
        ensures
            r == (a as int) % (self.value() as int),
    {
        Self::reduce1(self.lazy_reduce_opt_u128(a), self.p)
    }

    /// Optimized modular reduction of a u64 in constant time.
    ///
    /// The lazy remainder must lie in [0, 2 * p); it does for every input when
    /// the modulus satisfies the NFLlib condition (see `lemma_opt_quotient_word`).
    pub fn reduce_opt(&self, a: u64) -> (r: u64)
        requires
            self.wf(),
            a - opt_quotient_word(self.value(), a as int) * self.value() < 2 * self.value(),
        ensures
            r == a % self.value(),
    {
        Self::reduce1(self.lazy_reduce_opt(a), self.p)
    }

    /// Lazy optimized modular reduction of a below p^2 in constant time.
    /// The output is in the interval [0, 2 * p).
    fn lazy_reduce_opt_u128(&self, a: u128) -> (r: u64)
        requires
            self.wf(),
            supports_opt_spec(self.value()),
            a < self.value() * self.value(),
        ensures
            r == a - opt_quotient(self.value(), a as int) * self.value(),
            r < 2 * self.value(),
            r % self.value() == (a as int) % (self.value() as int),
    {
        let ghost pp = self.p as int;
        proof {
            lemma_leading_zeros_62(self.p);
            lemma_opt_quotient(self.p, a as int);
            lemma2_to64();
            lemma_u128_shl(a, self.leading_zeros as u128);
            lemma_hi_word(a);
            lemma_word_product(self.barrett_lo as int, a as int / word());
        }
        let q = (((self.barrett_lo as u128) * (a >> 64)) + (a << self.leading_zeros)) >> 64;
        proof {
            lemma_hi_word((((self.barrett_lo as u128) * (a >> 64)) + (a << self.leading_zeros)) as u128);
            assert(q == opt_quotient(self.p, a as int));
            lemma_mod_sub_multiple(a as int, pp, q as int);
        }
        let r = (a - q * (self.p as u128)) as u64;
        r
    }

    /// Lazy optimized modular reduction of a in constant time.
    /// The output is `a - floor(a / 2^(64 - s0)) * p`, with `s0` the leading zeros of p.
    fn lazy_reduce_opt(&self, a: u64) -> (r: u64)
        requires
            self.wf(),
            a - opt_quotient_word(self.value(), a as int) * self.value() < 2 * self.value(),
        ensures
            r == a - opt_quotient_word(self.value(), a as int) * self.value(),
            r % self.value() == a % self.value(),
    {
        let ghost pp = self.p as int;
        let ghost m = pow2((64 - lz(self.p)) as nat) as int;
        proof {
            lemma_leading_zeros_62(self.p);
            vstd::bits::lemma_u64_shr_is_div(a, (64 - self.leading_zeros) as u64);
        }
        let q = a >> (64 - self.leading_zeros);
        proof {
            crate::barrett::lemma_div_window(a as int, m);
            assert(q * pp <= a) by (nonlinear_arith)
                requires
                    q * m <= a,
                    pp < m,
                    q >= 0,
            ;
            lemma_mod_sub_multiple(a as int, pp, q as int);
        }
        let r = ((a as u128) - (q as u128) * (self.p as u128)) as u64;
        r
    }

    /// Modular exponentiation in variable time, by left-to-right square and multiply.
    pub fn pow(&self, a: u64, n: u64) -> (r: u64)
        requires
            self.wf(),
            a < self.value(),
            n < self.value(),
        ensures
            r == pow(a as int, n as nat) % (self.value() as int),
    {
        let ghost pp = self.p as int;
        if n == 0 {
            proof {
                lemma_pow0(a as int);
                lemma_small_mod(1, pp as nat);
            }
            1
        } else if n == 1 {
            proof {
                lemma_pow1(a as int);
                lemma_small_mod(a as nat, pp as nat);
            }
            a
        } else {
            proof {
                lemma_leading_zeros_62(n);
                axiom_u64_leading_zeros(n);
                let top = (63 - lz(n)) as u64;
                lemma_shr_step(n, top);
                assert(n >> ((64 - lz(n)) as u64) == 0);
                lemma_pow1(a as int);
                lemma_small_mod(a as nat, pp as nat);
            }
            let mut r = a;
            let mut i = (62 - n.leading_zeros()) as isize;
            while i >= 0
                invariant
                    self.wf(),
                    pp == self.value(),
                    a < pp,
                    -1 <= i <= 60,
                    r < pp,
                    r == pow(a as int, (n >> ((i + 1) as u64)) as nat) % pp,
                decreases i + 1,
            {
                let ghost k = (n >> ((i + 1) as u64)) as nat;
                let ghost bit = (n >> (i as u64)) & 1;
                proof {
                    lemma_shr_step(n, i as u64);
                }
                let r2 = self.mul(r, r);
                proof {
                    lemma_mul_mod_noop(pow(a as int, k), pow(a as int, k), pp);
                    lemma_pow_adds(a as int, k, k);
                    lemma_mod_bound(pow(a as int, k) * pow(a as int, k), pp);
                }
                r = r2;
                if (n >> i) & 1 == 1 {
                    let r3 = self.mul(r, a);
                    proof {
                        lemma_small_mod(a as nat, pp as nat);
                        lemma_mul_mod_noop(pow(a as int, k + k), a as int, pp);
                        lemma_pow1(a as int);
                        lemma_pow_adds(a as int, k + k, 1);
                    }
                    r = r3;
                }
                i -= 1;
            }
            proof {
                assert(n >> 0u64 == n) by (bit_vector);
            }
            r
        }
    }

    /// Strong probable-prime test of the modulus (Miller-Rabin) to the bases
    /// 2, 3, 5, ..., 37, the first twelve primes.
    ///
    /// It never rejects a prime: a `false` answer proves the modulus composite.
    /// (For moduli below 2^64 these bases are known to reject every composite too,
    /// but that is a computation over all moduli, not proved here.)
    pub fn is_strong_probable_prime(&self) -> (r: bool)
        requires
            self.wf(),
        ensures
            is_prime(self.value() as nat) ==> r,
    {
        let p = self.p;
        let ghost pp = p as int;
        if p == 2 {
            return true;
        }
        if p % 2 == 0 {
            proof {
                assert(!is_prime(p as nat)) by {
                    assert((p as nat) % 2 == 0);
                }
            }
            return false;
        }
        let mut d = p - 1;
        let mut s: u32 = 0;
        proof {
            lemma2_to64();
            lemma2_to64_rest();
        }
        while d % 2 == 0
            invariant
                1 <= d,
                d * pow2(s as nat) == p - 1,
                s <= 62,
                p < 0x4000_0000_0000_0000,
            decreases d,
        {
            proof {
                lemma2_to64_rest();
                lemma_pow2_unfold((s + 1) as nat);
                lemma_pow2_pos(s as nat);
                lemma_pow2_pos((s + 1) as nat);
                assert((d / 2) * pow2((s + 1) as nat) == p - 1) by (nonlinear_arith)
                    requires
                        d % 2 == 0,
                        pow2((s + 1) as nat) == 2 * pow2(s as nat),
                        d * pow2(s as nat) == p - 1,
                ;
                if s + 1 > 62 {
                    lemma_pow2_strictly_increases(62, (s + 1) as nat);
                    assert((d / 2) * pow2((s + 1) as nat) >= pow2((s + 1) as nat)) by (nonlinear_arith)
                        requires
                            d / 2 >= 1,
                            pow2((s + 1) as nat) > 0,
                    ;
                    assert(pow2(62) == 0x4000_0000_0000_0000);
                }
            }
            d = d / 2;
            s = s + 1;
        }
        proof {
            lemma2_to64();
            lemma_pow2_pos(s as nat);
            if s == 0 {
                assert(d == p - 1) by (nonlinear_arith)
                    requires
                        d * pow2(0) == p - 1,
                        pow2(0) == 1,
                ;
            }
            assert(d <= p - 1) by (nonlinear_arith)
                requires
                    d * pow2(s as nat) == p - 1,
                    pow2(s as nat) >= 1,
                    d >= 1,
            ;
        }
        let bases: [u64; 12] = [2, 3, 5, 7, 11, 13, 17, 19, 23, 29, 31, 37];
        let mut k: usize = 0;
        while k < 12
            invariant
                self.wf(),
                p == self.value(),
                pp == p,
                1 <= d < p,
                1 <= s <= 62,
                d * pow2(s as nat) == p - 1,
                bases@.len() == 12,
            decreases 12 - k,
        {
            let a = bases[k] % p;
            proof {
                lemma_mod_bound(bases[k as int] as int, pp);
            }
            if a != 0 {
                let mut x = self.pow(a, d);
                if x != 1 && x != p - 1 {
                    let mut r: u32 = 1;
                    let mut found = false;
                    proof {
                        lemma2_to64();
                        assert(d * pow2(0) == d);
                    }
                    while r < s && !found
                        invariant
                            self.wf(),
                            p == self.value(),
                            pp == p,
                            0 < a < p,
                            1 <= d < p,
                            1 <= r <= s,
                            s <= 62,
                            x < p,
                            x == pow(a as int, (d * pow2((r - 1) as nat)) as nat) % pp,
                            is_prime(p as nat) ==> x != 1,
                            !found ==> x != p - 1,
                        decreases s - r,
                    {
                        let ghost e = (d * pow2((r - 1) as nat)) as nat;
                        let ghost x0 = x;
                        x = self.mul(x, x);
                        proof {
                            lemma_mul_mod_noop(pow(a as int, e), pow(a as int, e), pp);
                            lemma_pow_adds(a as int, e, e);
                            lemma_pow2_unfold(r as nat);
                            assert(d * pow2(r as nat) == e + e) by (nonlinear_arith)
                                requires
                                    pow2(r as nat) == 2 * pow2((r - 1) as nat),
                                    e == d * pow2((r - 1) as nat),
                            ;
                            if is_prime(p as nat) && x == 1 {
                                lemma_square_root_of_one(p as nat, x0 as nat);
                            }
                        }
                        if x == p - 1 {
                            found = true;
                        }
                        r = r + 1;
                    }
                    if !found {
                        proof {
                            if is_prime(p as nat) {
                                let e = (d * pow2((r - 1) as nat)) as nat;
                                assert(r == s);
                                lemma_mul_mod_noop(pow(a as int, e), pow(a as int, e), pp);
                                lemma_pow_adds(a as int, e, e);
                                lemma_pow2_unfold(s as nat);
                                assert(e + e == p - 1) by (nonlinear_arith)
                                    requires
                                        pow2(s as nat) == 2 * pow2((s - 1) as nat),
                                        e == d * pow2((s - 1) as nat),
                                        d * pow2(s as nat) == p - 1,
                                ;
                                lemma_small_mod(a as nat, p as nat);
                                lemma_fermat(p as nat, a as nat);
                                lemma_square_root_of_one(p as nat, x as nat);
                            }
                        }
                        return false;
                    }
                }
            }
            k += 1;
        }
        true
    }

    /// Modular inversion in variable time, by Fermat's little theorem.
    ///
    /// Returns None if p is not prime or a = 0.
    pub fn inv(&self, a: u64) -> (r: Option<u64>)
        requires
            self.wf(),
            a < self.value(),
        ensures
            r is None <==> !is_prime(self.value() as nat) || a == 0,
            r matches Some(v) ==> v == pow(a as int, (self.value() - 2) as nat) % (
            self.value() as int) && v < self.value() && (a * v) % (self.value() as int) == 1,
    {
        if !self.is_strong_probable_prime() || !is_prime_u64(self.p) || a == 0 {
            None
        } else {
            let r = self.pow(a, self.p - 2);
            proof {
                lemma_inverse(self.p as nat, a as nat);
                lemma_mod_bound(pow(a as int, (self.p - 2) as nat), self.p as int);
            }
            Some(r)
        }
    }

    /// Modular addition of vectors in place in constant time.
    pub fn add_vec(&self, a: &mut [u64], b: &[u64])
        requires
            self.wf(),
            old(a)@.len() == b@.len(),
            forall|i: int| 0 <= i < old(a)@.len() ==> #[trigger] old(a)@[i] < self.value(),
            forall|i: int| 0 <= i < b@.len() ==> #[trigger] b@[i] < self.value(),
        ensures
            final(a)@.len() == old(a)@.len(),
            forall|i: int|
                0 <= i < b@.len() ==> #[trigger] final(a)@[i] == (old(a)@[i] + b@[i]) % (
                self.value() as int),
    {
        let n = a.len();
        let mut i: usize = 0;
        while i < n
            invariant
                self.wf(),
                n == a@.len(),
                n == b@.len(),
                i <= n,
                forall|j: int| 0 <= j < n ==> #[trigger] old(a)@[j] < self.value(),
                forall|j: int| 0 <= j < n ==> #[trigger] b@[j] < self.value(),
                forall|j: int|
                    0 <= j < i ==> #[trigger] a@[j] == (old(a)@[j] + b@[j]) % (
                    self.value() as int),
                forall|j: int| i <= j < n ==> #[trigger] a@[j] == old(a)@[j],
            decreases n - i,
        {
            a[i] = self.add(a[i], b[i]);
            i += 1;
        }
    }

    /// Modular subtraction of vectors in place in constant time.
    pub fn sub_vec(&self, a: &mut [u64], b: &[u64])
        requires
            self.wf(),
            old(a)@.len() == b@.len(),
            forall|i: int| 0 <= i < old(a)@.len() ==> #[trigger] old(a)@[i] < self.value(),
            forall|i: int| 0 <= i < b@.len() ==> #[trigger] b@[i] < self.value(),
        ensures
            final(a)@.len() == old(a)@.len(),
            forall|i: int|
                0 <= i < b@.len() ==> #[trigger] final(a)@[i] == (old(a)@[i] + self.value()
                    - b@[i]) % (self.value() as int),
    {
        let n = a.len();
        let mut i: usize = 0;
        while i < n
            invariant
                self.wf(),
                n == a@.len(),
                n == b@.len(),
                i <= n,
                forall|j: int| 0 <= j < n ==> #[trigger] old(a)@[j] < self.value(),
                forall|j: int| 0 <= j < n ==> #[trigger] b@[j] < self.value(),
                forall|j: int|
                    0 <= j < i ==> #[trigger] a@[j] == (old(a)@[j] + self.value() - b@[j]) % (
                    self.value() as int),
                forall|j: int| i <= j < n ==> #[trigger] a@[j] == old(a)@[j],
            decreases n - i,
        {
            a[i] = self.sub(a[i], b[i]);
            i += 1;
        }
    }

    /// Modular multiplication of vectors in place in constant time, with the
    /// optimized multiplication when the modulus supports it.
    pub fn mul_vec(&self, a: &mut [u64], b: &[u64])
        requires
            self.wf(),
            old(a)@.len() == b@.len(),
            forall|i: int| 0 <= i < old(a)@.len() ==> #[trigger] old(a)@[i] < self.value(),
            forall|i: int| 0 <= i < b@.len() ==> #[trigger] b@[i] < self.value(),
        ensures
            final(a)@.len() == old(a)@.len(),
            forall|i: int|
                0 <= i < b@.len() ==> #[trigger] final(a)@[i] == (old(a)@[i] * b@[i]) % (
                self.value() as int),
    {
        let n = a.len();
        let mut i: usize = 0;
        if self.supports_opt {
            while i < n
                invariant
                    self.wf(),
                    supports_opt_spec(self.value()),
                    n == a@.len(),
                    n == b@.len(),
                    i <= n,
                    forall|j: int| 0 <= j < n ==> #[trigger] old(a)@[j] < self.value(),
                    forall|j: int| 0 <= j < n ==> #[trigger] b@[j] < self.value(),
                    forall|j: int|
                        0 <= j < i ==> #[trigger] a@[j] == (old(a)@[j] * b@[j]) % (
                        self.value() as int),
                    forall|j: int| i <= j < n ==> #[trigger] a@[j] == old(a)@[j],
                decreases n - i,
            {
                a[i] = self.mul_opt(a[i], b[i]);
                i += 1;
            }
        } else {
            while i < n
                invariant
                    self.wf(),
                    n == a@.len(),
                    n == b@.len(),
                    i <= n,
                    forall|j: int| 0 <= j < n ==> #[trigger] old(a)@[j] < self.value(),
                    forall|j: int| 0 <= j < n ==> #[trigger] b@[j] < self.value(),
                    forall|j: int|
                        0 <= j < i ==> #[trigger] a@[j] == (old(a)@[j] * b@[j]) % (
                        self.value() as int),
                    forall|j: int| i <= j < n ==> #[trigger] a@[j] == old(a)@[j],
                decreases n - i,
            {
                a[i] = self.mul(a[i], b[i]);
                i += 1;
            }
        }
    }

    /// Compute the Shoup representation of a vector.
    pub fn shoup_vec(&self, a: &[u64]) -> (r: Vec<u64>)
        requires
            self.wf(),
            forall|i: int| 0 <= i < a@.len() ==> a@[i] < self.value(),
        ensures
            r@.len() == a@.len(),
            forall|i: int|
                0 <= i < a@.len() ==> #[trigger] r@[i] == shoup_of(
                    self.value() as int,
                    a@[i] as int,
                ),
    {
        let mut a_shoup: Vec<u64> = Vec::with_capacity(a.len());
        let mut i: usize = 0;
        while i < a.len()
            invariant
                self.wf(),
                i <= a@.len(),
                forall|j: int| 0 <= j < a@.len() ==> a@[j] < self.value(),
                a_shoup@.len() == i,
                forall|j: int|
                    0 <= j < i ==> #[trigger] a_shoup@[j] == shoup_of(
                        self.value() as int,
                        a@[j] as int,
                    ),
            decreases a@.len() - i,
        {
            a_shoup.push(self.shoup(a[i]));
            i += 1;
        }
        a_shoup
    }

    /// Shoup modular multiplication of vectors in place in constant time.
    pub fn mul_shoup_vec(&self, a: &mut [u64], b: &[u64], b_shoup: &[u64])
        requires
            self.wf(),
            old(a)@.len() == b@.len(),
            old(a)@.len() == b_shoup@.len(),
            forall|i: int| 0 <= i < b@.len() ==> #[trigger] b@[i] < self.value(),
            forall|i: int|
                0 <= i < b@.len() ==> #[trigger] b_shoup@[i] == shoup_of(
                    self.value() as int,
                    b@[i] as int,
                ),
        ensures
            final(a)@.len() == old(a)@.len(),
            forall|i: int|
                0 <= i < b@.len() ==> #[trigger] final(a)@[i] == (old(a)@[i] * b@[i]) % (
                self.value() as int),
    {
        let n = a.len();
        let mut i: usize = 0;
        while i < n
            invariant
                self.wf(),
                n == a@.len(),
                n == b@.len(),
                n == b_shoup@.len(),
                i <= n,
                forall|j: int| 0 <= j < n ==> #[trigger] b@[j] < self.value(),
                forall|j: int|
                    0 <= j < n ==> #[trigger] b_shoup@[j] == shoup_of(
                        self.value() as int,
                        b@[j] as int,
                    ),
                forall|j: int|
                    0 <= j < i ==> #[trigger] a@[j] == (old(a)@[j] * b@[j]) % (
                    self.value() as int),
                forall|j: int| i <= j < n ==> #[trigger] a@[j] == old(a)@[j],
            decreases n - i,
        {
            a[i] = self.mul_shoup(a[i], b[i], b_shoup[i]);
            i += 1;
        }
    }

    /// Reduce a vector in place in constant time.
    pub fn reduce_vec(&self, a: &mut [u64])
        requires
            self.wf(),
        ensures
            final(a)@.len() == old(a)@.len(),
            forall|i: int|
                0 <= i < old(a)@.len() ==> #[trigger] final(a)@[i] == old(a)@[i] % self.value(),
    {
        let n = a.len();
        let mut i: usize = 0;
        while i < n
            invariant
                self.wf(),
                n == a@.len(),
                i <= n,
                forall|j: int| 0 <= j < i ==> #[trigger] a@[j] == old(a)@[j] % self.value(),
                forall|j: int| i <= j < n ==> #[trigger] a@[j] == old(a)@[j],
            decreases n - i,
        {
            a[i] = self.reduce(a[i]);
            i += 1;
        }
    }

    /// Reduce a vector in constant time, into a new vector.
    pub fn reduce_vec_new(&self, a: &[u64]) -> (r: Vec<u64>)
        requires
            self.wf(),
        ensures
            r@.len() == a@.len(),
            forall|i: int| 0 <= i < a@.len() ==> #[trigger] r@[i] == a@[i] % self.value(),
    {
        let mut b = vstd::slice::slice_to_vec(a);
        let n = b.len();
        let mut i: usize = 0;
        while i < n
            invariant
                self.wf(),
                n == b@.len(),
                n == a@.len(),
                i <= n,
                forall|j: int| 0 <= j < i ==> #[trigger] b@[j] == a@[j] % self.value(),
                forall|j: int| i <= j < n ==> #[trigger] b@[j] == a@[j],
            decreases n - i,
        {
            let v = self.reduce(b[i]);
            b.set(i, v);
            i += 1;
        }
        b
    }

    /// Modular negation of a vector in place in constant time.
    pub fn neg_vec(&self, a: &mut [u64])
        requires
            self.wf(),
            forall|i: int| 0 <= i < old(a)@.len() ==> old(a)@[i] < self.value(),
        ensures
            final(a)@.len() == old(a)@.len(),
            forall|i: int|
                0 <= i < old(a)@.len() ==> #[trigger] final(a)@[i] == (self.value() - old(a)@[i])
                    % (self.value() as int),
    {
        let n = a.len();
        let mut i: usize = 0;
        while i < n
            invariant
                self.wf(),
                n == a@.len(),
                i <= n,
                forall|j: int| 0 <= j < n ==> old(a)@[j] < self.value(),
                forall|j: int|
                    0 <= j < i ==> #[trigger] a@[j] == (self.value() - old(a)@[j]) % (
                    self.value() as int),
                forall|j: int| i <= j < n ==> #[trigger] a@[j] == old(a)@[j],
            decreases n - i,
        {
            a[i] = self.neg(a[i]);
            i += 1;
        }
    }

    /// Returns a random vector of `size` values in [0, p), drawn from a fresh random seed.
    pub fn random_vec(&self, size: usize) -> (r: Vec<u64>)
        requires
            self.wf(),
            size != 0,
        ensures
            exists|s: Seq<u8>| s.len() == 32 && r@ == uniform_samples(s, self.value(), size),
            r@.len() == size,
            forall|i: int| 0 <= i < size ==> #[trigger] r@[i] < self.value(),
            samples_cover(self.value(), r@.len() as usize),
    {
        let seed = random_seed();
        let r = self.random_vec_from_seed(size, seed);
        assert(seed@.len() == 32 && r@ == uniform_samples(seed@, self.value(), size));
        r
    }

    /// Returns a random vector of `size` values in [0, p), generated
    /// deterministically from a seed.
    pub fn random_vec_from_seed(&self, size: usize, seed: [u8; 32]) -> (r: Vec<u64>)
        requires
            self.wf(),
            size != 0,
        ensures
            r@ == uniform_samples(seed@, self.value(), size),
            r@.len() == size,
            forall|i: int| 0 <= i < size ==> #[trigger] r@[i] < self.value(),
            forall|m: usize|
                size <= m ==> #[trigger] uniform_samples(seed@, self.value(), m).subrange(
                    0,
                    size as int,
                ) == r@,
            samples_cover(self.value(), r@.len() as usize),
    {
        sample_uniform(seed, self.p, size)
    }
}

} // verus!
