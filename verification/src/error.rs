//! The ways in which building or using a box can fail.

use vstd::prelude::*;

verus! {

/// Why a box could not be built, or an input could not be transformed.
#[derive(Debug, Clone, Copy, PartialEq, Eq, Structural)]
pub enum Error {
    /// The table's row or column count is zero or no power of two, its rows
    /// differ in length, or its widest entry does not need exactly as many
    /// bits as a cell address has.
    InvalidTable,
    /// The sequence is longer than 32 or is no arrangement of `1..=len`.
    InvalidPermutation,
    /// The bit vector does not have the length that the box works on.
    InvalidInputLength,
}

} // verus!
