//! Exhaustive search over (username, password) candidates drawn from a fixed
//! alphabet, checked against a 32-bit rolling hash.

pub mod bruteforce;
pub mod credentials;
pub mod generator;
pub mod odometer;
