//! Ring operations over the integers modulo a modulus of at most 62 bits,
//! with Barrett, Shoup and NFLlib-style reductions. The reductions are written
//! without data-dependent branches; that timing property is a matter of the
//! code's shape and is not part of any contract.

pub mod barrett;
pub mod foreign;
pub mod laws;
pub mod nfl;
pub mod prime;
pub mod zq;
