//! Trial-division primality testing over `u64`, and a generator that hands
//! out the primes in ascending order.
//!
//! [`is_prime`] decides primality exactly; [`Prime`] walks the numbers of the
//! form `6k - 1` and `6k + 1` and keeps the next prime ready one step ahead
//! of the one it hands out.

pub mod generator;
pub mod primality;

pub use generator::Prime;
pub use primality::{ceil_sqrt, is_prime};
