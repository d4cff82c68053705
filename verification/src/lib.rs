//! Substitution and permutation boxes, the two layers of a
//! substitution-permutation network, together with the bit-vector codec
//! they are built on.
//!
//! A box is built from raw data by a checking constructor and never changes
//! afterwards. `encrypt` applies it, `decrypt` applies the opposite mapping
//! that was derived when it was built.

pub mod bits;
pub mod error;
pub mod log2;
pub mod pbox;
pub mod sbox;

pub use bits::{bit_len, bits2num, num2bits};
pub use error::Error;
pub use pbox::PBox;
pub use sbox::SBox;
