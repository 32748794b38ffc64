//! A per-identity credential store with durable snapshot persistence.
//!
//! The core is a record store keyed by a monotonically increasing
//! identifier, an ownership index mapping each identity to the ordered
//! ids it owns, and a credential service that gates every operation on
//! the caller's identity. A snapshot codec turns the whole process
//! state into bytes before an upgrade and restores it afterwards,
//! falling back to a fresh state when the durable region is empty or
//! corrupt. A small gateway module prepares replies from a remote
//! key-derivation service for callers.

pub mod identity;
pub mod record;
pub mod store;
pub mod index;
pub mod errors;
pub mod service;
pub mod snapshot;
pub mod gateway;
pub mod laws;
