//! What the library refuses.

use vstd::prelude::*;

verus! {

/// Why an operation refused its input.
#[derive(Debug, Clone, Copy, PartialEq, Eq, Structural)]
pub enum Error {
    /// The input breaks a rule of the operation: a record that must be
    /// ordered by its sales ratio has none, or fewer than one bin was asked
    /// for.
    InvalidInput,
}

} // verus!
