//! Error values shared by the in-memory graph and the persistent store.
//!
//! A single flat error type distinguishes failures by kind rather than by a
//! type hierarchy.  Every operation reports its failure to the immediate
//! caller; nothing here retries.

use vstd::prelude::*;

verus! {

/// What went wrong, as a flat taxonomy.
#[derive(Clone, Copy, Debug, PartialEq, Eq, Structural)]
pub enum GraphErrorKind {
    /// A queried or updated node id is absent.
    NodeNotFound,
    /// A shortest-path query found no route from start to stop.
    NotConnected,
    /// A stored record could not be decoded.
    DeserializationFailure,
    /// A transaction could not commit because of a concurrent writer.
    StorageConflict,
    /// The backend failed to open, read or write.
    StorageIoFailure,
}

/// An error from a graph operation: a kind plus a human-readable message.
#[derive(Clone, Debug, PartialEq, Eq)]
pub struct GraphError {
    pub kind: GraphErrorKind,
    pub details: String,
}

impl GraphError {
    /// Builds an error of the given kind carrying the given message.
    pub fn new(kind: GraphErrorKind, msg: &str) -> (e: GraphError)
        ensures
            e.kind == kind,
            e.details@ == msg@,
    {
        GraphError { kind, details: msg.to_owned() }
    }

    /// The human-readable message, for callers that print errors.
    pub fn message(&self) -> (m: &String)
        ensures
            m@ == self.details@,
    {
        &self.details
    }
}

} // verus!
