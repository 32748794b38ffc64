//! The error taxonomy of the credential service and its surroundings.

use vstd::prelude::*;

verus! {

/// Failures of the gated credential operations.
#[derive(Clone, Copy, PartialEq, Eq, Structural, Debug)]
pub enum CredError {
    /// The caller is the reserved anonymous identity.
    Unauthorized,
    /// The caller owns no records at all.
    NoRecords,
    /// The named record is not owned by the caller, or is missing from
    /// the record store although the index lists it.
    NotFound,
}

/// Failures of snapshot restoration, each recovered by falling back to
/// a fresh state.
#[derive(Clone, Copy, PartialEq, Eq, Structural, Debug)]
pub enum RestoreError {
    /// The durable region was never written.
    MissingSnapshot,
    /// The durable region holds bytes that do not decode to a
    /// well-formed state.
    DecodeFailure,
}

} // verus!
