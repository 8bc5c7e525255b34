//! Modular arithmetic in Plantard and Montgomery representation and number-theoretic
//! transforms over NTT-friendly primes.
use vstd::prelude::*;

pub mod modular;
pub mod reduction;
pub mod word;
pub mod fermat;
pub mod plantard;
pub mod montgomery;
pub mod modulus;
pub mod prime;
pub mod proth;
pub mod prime_certificates;
pub mod sums;
pub mod roots;
pub mod bits;
pub mod ntt;
pub mod convolution;
pub mod butterfly;

pub use plantard::Mint;
pub use butterfly::Butterfly;
pub use prime::{NTTFriendlyPrime, Prime};

verus! {
} // verus!
