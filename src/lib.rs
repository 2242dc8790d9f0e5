//! Arithmetic in the finite field of integers modulo a prime.
pub mod element;
pub mod primes;
pub mod text;
