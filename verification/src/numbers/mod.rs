//! Number related types and functions.

pub mod big;
pub mod prime;

pub use big::BigNat;
pub use prime::is_probable_prime;
