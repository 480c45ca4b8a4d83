//! Integer factorization by Lenstra's elliptic-curve method.
//!
//! The crate is organized in three layers: modular arithmetic primitives
//! (`arith`), short Weierstrass curves and their group law over a ring that
//! may contain zero divisors (`curve`), and the randomized factor search
//! (`factor`).

pub mod arith;
pub mod curve;
pub mod factor;

pub use arith::euclid_gcd;
pub use arith::gcd;
pub use arith::gcd_nat;
pub use arith::mod_inv;
pub use arith::mod_mul;
pub use arith::mod_pow;
pub use curve::WeierStrass;
pub use curve::WeierStrassPoint;
pub use factor::factorize;
