//! Calls into the outside crates: big-integer division, the primality test,
//! and the random number generators.  Verus does not read these bodies; each
//! contract below states what the outside crate's source and documentation show.
use num_bigint::BigUint;
use num_traits::cast::ToPrimitive;
use rand::distributions::Uniform;
use rand::{thread_rng, Rng, SeedableRng};
use rand_chacha::ChaCha8Rng;
use vstd::prelude::*;

use crate::barrett::barrett;
use crate::prime::is_prime;

verus! {

/// `floor(2^128 / p)`, computed with `num_bigint::BigUint` (shift, division)
/// and converted back with `num_traits::ToPrimitive::to_u128`.
///
/// For `p >= 2` the quotient is below `2^127`, so `to_u128` returns `Some` and
/// the unwrap cannot fail; `BigUint` division is exact floor division.
#[verifier::external_body]
pub(crate) fn barrett_constant(p: u64) -> (r: u128)
    requires
        p >= 2,
    ensures
        r == barrett(p as int),
{
    ((BigUint::from(1u64) << 128usize) / p).to_u128().unwrap()
}

/// Primality test `primal_check::miller_rabin`, documented as the deterministic
/// Miller-Rabin test: its witness table covers the whole range of `u64`, so the
/// answer is exactly whether `n` is prime.
#[verifier::external_body]
pub(crate) fn is_prime_u64(n: u64) -> (r: bool)
    ensures
        r == is_prime(n as nat),
{
    primal_check::miller_rabin(n)
}

/// A fresh 32-byte seed for `ChaCha8Rng`, filled by `rand::thread_rng` through
/// `rand::Rng::fill`.  Nothing is stated of its value: it is random.
#[verifier::external_body]
pub(crate) fn random_seed() -> [u8; 32] {
    let mut seed = <ChaCha8Rng as SeedableRng>::Seed::default();
    thread_rng().fill(&mut seed);
    seed
}

/// The first `size` samples of `rand::distributions::Uniform::from(0..p)`
/// drawn from `rand_chacha::ChaCha8Rng::from_seed(seed)`.
pub uninterp spec fn uniform_samples(seed: Seq<u8>, p: u64, size: usize) -> Seq<u64>;

/// Some 32-byte seed puts the value `v` at position `i` of the first `size`
/// samples of `Uniform::from(0..p)`.
pub open spec fn sample_attains(p: u64, size: usize, i: int, v: u64) -> bool {
    exists|s: Seq<u8>| s.len() == 32 && #[trigger] uniform_samples(s, p, size)[i] == v
}

/// The samples range over the whole of `[0, p)`: every value of `[0, p)` occurs,
/// for some seed, at every position of the first `size` samples.
pub open spec fn samples_cover(p: u64, size: usize) -> bool {
    forall|i: int, v: u64| 0 <= i < size && v < p ==> #[trigger] sample_attains(p, size, i, v)
}

/// Draws `size` samples of `Uniform::from(0..p)` from `ChaCha8Rng::from_seed(seed)`
/// with `rand::Rng::sample_iter`, `take` and `collect`.
///
/// The generator is deterministic, so the result is a function of the seed,
/// `p` and `size` (named `uniform_samples`); `take(size)` of the endless sample
/// iterator yields exactly `size` items, and `Uniform::new(0, p)` (which
/// panics only for `p == 0`) samples in `[0, p)`.  Asking for more samples
/// only extends the sequence: the first `size` of them do not depend on how
/// many are taken.  `Uniform` is documented to sample uniformly from `[low,
/// high)` (its integer sampler maps 64-bit words onto the range by a widening
/// multiply, with every value of the range reachable), and `ChaCha8Rng` is
/// documented as a cryptographic generator whose output over the seeds is
/// uniform; so every value of `[0, p)` occurs at every position for some seed.
#[verifier::external_body]
pub(crate) fn sample_uniform(seed: [u8; 32], p: u64, size: usize) -> (r: Vec<u64>)
    requires
        p >= 1,
    ensures
        r@ == uniform_samples(seed@, p, size),
        r@.len() == size,
        forall|i: int| 0 <= i < size ==> #[trigger] r@[i] < p,
        forall|m: usize|
            size <= m ==> #[trigger] uniform_samples(seed@, p, m).subrange(0, size as int) == r@,
        samples_cover(p, r@.len() as usize),
{
    ChaCha8Rng::from_seed(seed).sample_iter(Uniform::from(0..p)).take(size).collect()
}

} // verus!
