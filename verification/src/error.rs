//! What can go wrong while scanning.

use vstd::prelude::*;

verus! {

/// The one failure of a scanner.
#[derive(Debug, Clone, Copy, PartialEq, Eq, Structural)]
pub enum LexError {
    /// A run of characters was asked for, and the first character already
    /// fell outside it.
    NoMatches,
}

} // verus!
