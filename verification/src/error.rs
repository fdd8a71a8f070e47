//! The ways in which an operation of this crate can fail.

use vstd::prelude::*;

verus! {

/// Why an operation was refused.
#[derive(Debug, Clone, Copy, PartialEq, Eq, Structural)]
pub enum FilterError {
    /// A length or capacity of zero, or a size that no bit array can have.
    InvalidArgument,
    /// A bit index at or beyond the length of the bit array.
    IndexOutOfRange,
    /// Two operands whose configurations differ.
    ConfigMismatch,
}

} // verus!
