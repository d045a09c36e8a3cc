//! The edge record of the entity model.
//!
//! An edge is a directed, identified, immutable relation from one node to
//! another.  Parallel edges between the same ordered pair are permitted; each
//! carries a distinct randomly generated identifier.

use vstd::prelude::*;

verus! {

/// The mathematical value of an edge record.
#[verifier::ext_equal]
pub struct EdgeView {
    pub id: u128,
    pub u: Seq<char>,
    pub v: Seq<char>,
}

/// A directed edge of the in-memory graph, from `u` to `v`.
#[derive(Debug, Clone)]
pub struct Edge {
    pub id: u128,
    pub u: String,
    pub v: String,
}

impl View for Edge {
    type V = EdgeView;

    open spec fn view(&self) -> EdgeView {
        EdgeView { id: self.id, u: self.u@, v: self.v@ }
    }
}

impl DeepView for Edge {
    type V = EdgeView;

    open spec fn deep_view(&self) -> EdgeView {
        self.view()
    }
}

impl Edge {
    /// Builds an edge from `u` to `v` with a freshly generated identifier.
    pub fn new(u: String, v: String) -> (e: Edge)
        ensures
            e@.u == u@,
            e@.v == v@,
    {
        Edge { id: fresh_edge_id(), u, v }
    }
}

/// A directed edge as the persistent store records it.  Same shape as
/// [`Edge`]; kept apart so the stored schema can evolve independently of the
/// in-memory engine.
#[derive(Debug, Clone)]
pub struct RocksEdge {
    pub id: u128,
    pub u: String,
    pub v: String,
}

impl View for RocksEdge {
    type V = EdgeView;

    open spec fn view(&self) -> EdgeView {
        EdgeView { id: self.id, u: self.u@, v: self.v@ }
    }
}

impl RocksEdge {
    /// Builds a stored-edge record from `u` to `v` with a fresh identifier.
    pub fn new(u: String, v: String) -> (e: RocksEdge)
        ensures
            e@.u == u@,
            e@.v == v@,
    {
        RocksEdge { id: fresh_edge_id(), u, v }
    }
}

/// Relies on uuid::Uuid::new_v4 for a freshly generated random 128-bit edge
/// identifier, taken as its integer value.  Nothing is promised of a random
/// value.
#[verifier::external_body]
fn fresh_edge_id() -> u128 {
    uuid::Uuid::new_v4().as_u128()
}

} // verus!
