//! Error kinds shared across the library.

use vstd::prelude::*;

verus! {

/// Why a request could not be served.
///
/// A rejected pool edge is a warning, not an error: the graph builder drops
/// the edge and goes on. A cycle below the profit threshold is silently
/// filtered by the scanner.
#[derive(Clone, Copy, Debug, PartialEq, Eq, Structural)]
pub enum CoreError {
    /// No usable route, quote or result exists for the request.
    Unavailable,
    /// A bundle operation would depend on itself or on a later operation.
    BundleDependencyViolation,
}

impl CoreError {
    /// A short description of the error.
    pub fn text(&self) -> (r: String)
        ensures
            *self is Unavailable ==> r@ == "unavailable"@,
            *self is BundleDependencyViolation ==> r@ == "bundle dependency violation"@,
    {
        match self {
            CoreError::Unavailable => String::from_str("unavailable"),
            CoreError::BundleDependencyViolation => String::from_str("bundle dependency violation"),
        }
    }
}

} // verus!
