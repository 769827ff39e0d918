//! The failures that a store operation can report.

use vstd::prelude::*;

verus! {

/// Why a store operation failed.  Every failure is handed to the caller as it
/// is; nothing is retried or swallowed inside the store.
#[derive(Clone, Copy, Debug, PartialEq, Eq, Structural)]
pub enum StoreError {
    /// A schema migration could not be applied.  Fatal when the store starts.
    Migration,
    /// The request is malformed, for instance a counter without a name.
    Validation,
    /// The request names a counter that the store does not hold.
    NotFound,
    /// The store itself cannot serve the request.
    Storage,
}

} // verus!
