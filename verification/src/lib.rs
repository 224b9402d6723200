//! A variable-width, variable-round block cipher of the RC5 family: a key
//! schedule that expands secret bytes into round subkeys, and the two block
//! transforms built on data-dependent rotations.
pub mod arith;
pub mod cipher;
pub mod key;
pub mod word;

pub use crate::cipher::{decrypt, encrypt};
pub use crate::key::Key;
pub use crate::word::{rsl, rsr, Word};
