pub mod modint;
pub mod prime;

pub use modint::ModInt;
pub use prime::{generate_primes, is_prime, nth_prime};
