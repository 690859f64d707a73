//! Packed lists of boolean flags.
//!
//! Each list stores one flag per bit of an unsigned backing word (or a
//! growable sequence of words), together with a tracked length.  All
//! variants share the `FlagLs` interface: insertion, removal, indexed
//! access, iteration, bulk builders and bitwise set algebra.
use vstd::prelude::*;

pub mod bits;
mod bit32;
mod bit64;
mod bit128;
mod bitsize;
mod bitlong;
pub mod flag_iter;
pub mod flagls;
pub mod laws;

pub use crate::bit128::B128;
pub use crate::bit32::B32;
pub use crate::bit64::B64;
pub use crate::bitlong::Blong;
pub use crate::bitsize::Bsize;
pub use crate::flagls::FlagLs;

verus! {

/// An error raised by the checked entry points of a flag list.
#[derive(Clone, Copy, PartialEq, Eq, Hash, Debug, Structural)]
pub enum FlagLsError {
    /// An index lay outside the valid range of the list.
    IndexOutOfBounds { idx: usize, len: usize },
    /// An operation would have grown the list past its maximum length.
    MaximumLengthExceeded { mx_len: usize, attempt_len: usize },
}

} // verus!
