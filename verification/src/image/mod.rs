//! The images that are mounted.

pub mod nydus;
pub mod raw;

use vstd::prelude::*;

verus! {

/// The number of the root directory.
pub const ROOT_ID: u64 = 1;

/// Why a filesystem operation is refused.
#[derive(Debug, Clone, Copy, Eq, PartialEq, Structural)]
pub enum Refusal {
    /// There is no such file.
    NotFound,
    /// The operation makes no sense for the file.
    Invalid,
    /// The file is not a directory.
    NotDirectory,
    /// The file is a directory.
    IsDirectory,
    /// The operation is not offered.
    NotOffered,
    /// The buffer is too small.
    TooSmall,
    /// There is no such attribute.
    NoData,
}

} // verus!
