//! Verified RSA key-compromise engine.
//!
//! The crate recovers the private exponent of an RSA key from its public
//! half by factoring the modulus, exploiting two structural weaknesses in
//! how the primes may have been chosen: a Fermat-style search for primes
//! that lie close together, and a randomized probe for primes constrained
//! to half the modulus bit length.  Arbitrary-precision arithmetic comes
//! from an outside crate behind a small set of trusted wrappers; every
//! search loop, derivation step and codec rule is verified.

pub mod arith;
pub mod engine;
pub mod codec;
pub mod primes;
pub mod toolkit;
