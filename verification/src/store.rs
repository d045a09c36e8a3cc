//! Decision logic of the persistent graph store.
//!
//! The store keeps the same entity model in an embedded transactional
//! key-value backend.  The storage calls themselves — open, read, write,
//! transaction begin and commit — are I/O and live with the driver outside
//! this crate.  Everything the store decides is here, verified, on plain
//! values: how record keys are formed, what a raw read outcome means for a
//! lookup, and what a read-modify-write must write back.  The driver hands
//! each outcome in and performs the returned action.  An update must be
//! applied inside one transaction scoped to the call and committed before
//! returning, so that the backend serialises conflicting same-id writers;
//! updates to distinct ids run on independent transactions.  A conflict the
//! backend reports is surfaced to the caller as a `StorageConflict` — the
//! store never retries on its own.

use vstd::prelude::*;

use crate::errors::GraphError;
use crate::errors::GraphErrorKind;
use crate::graph::push_if_absent;
use crate::graph::lemma_push_if_absent_contains;
use crate::node::Node;
use crate::node::NodeView;

verus! {

/// What reading a record key produced: no value at all, a value that does
/// not decode as a record, or a decoded node.
pub enum ReadOutcome {
    Missing,
    Corrupt,
    Present(Node),
}

/// The storage key under which the node `id` is kept.
pub open spec fn node_key_view(id: Seq<char>) -> Seq<char> {
    "node_"@ + id
}

/// Builds the storage key for a node record.
pub fn node_key(id: &str) -> (k: String)
    ensures
        k@ == node_key_view(id@),
{
    let mut k: String = "node_".to_owned();
    k.append(id);
    proof {
        assert(k@ =~= node_key_view(id@));
    }
    k
}

/// The storage key under which the edge records for `u -> v` are kept.
pub open spec fn edge_key_view(u: Seq<char>, v: Seq<char>) -> Seq<char> {
    "edge_"@ + u + "_"@ + v
}

/// Builds the storage key for an edge record.
pub fn edge_key(u: &str, v: &str) -> (k: String)
    ensures
        k@ == edge_key_view(u@, v@),
{
    let mut k: String = "edge_".to_owned();
    k.append(u);
    k.append("_");
    k.append(v);
    proof {
        assert(k@ =~= edge_key_view(u@, v@));
    }
    k
}

/// What a node lookup answers for a raw read outcome.  A record that fails
/// to decode is treated as absent: for traversal purposes a corrupted
/// record and a missing one are operationally the same, and the two cases
/// are deliberately not distinguished to the caller here.
pub fn read_node(outcome: ReadOutcome) -> (r: Option<Node>)
    ensures
        (outcome matches ReadOutcome::Present(n) ==> r == Some(n)),
        !(outcome is Present) ==> r is None,
{
    match outcome {
        ReadOutcome::Present(n) => Some(n),
        ReadOutcome::Missing => None,
        ReadOutcome::Corrupt => None,
    }
}

/// What a read-modify-write must write back for a raw read outcome: a
/// missing record fails with `NodeNotFound`, an undecodable one with
/// `DeserializationFailure`, and a present record is replaced by the pure
/// transform's result.  The driver applies this between the read and the
/// write of one transaction.
pub fn plan_update<F: Fn(Node) -> Node>(current: ReadOutcome, update: F) -> (r: Result<
    Node,
    GraphError,
>)
    requires
        forall|n: Node| #[trigger] call_requires(update, (n,)),
    ensures
        match current {
            ReadOutcome::Missing => r matches Err(e) && e.kind == GraphErrorKind::NodeNotFound,
            ReadOutcome::Corrupt => r matches Err(e) && e.kind
                == GraphErrorKind::DeserializationFailure,
            ReadOutcome::Present(n) => r matches Ok(n2) && call_ensures(update, (n,), n2),
        },
{
    match current {
        ReadOutcome::Missing => Err(
            GraphError::new(GraphErrorKind::NodeNotFound, "No such node"),
        ),
        ReadOutcome::Corrupt => Err(
            GraphError::new(GraphErrorKind::DeserializationFailure, "Issue deserializing key"),
        ),
        ReadOutcome::Present(n) => Ok(update(n)),
    }
}

/// The transform folded into the `u` endpoint when an edge `u -> v` is
/// recorded: `v` joins the successor set.
pub fn with_successor(node: Node, v: &String) -> (r: Node)
    requires
        node.wf(),
    ensures
        r.wf(),
        r@.id == node@.id,
        r@.predecessors == node@.predecessors,
        r@.successors == push_if_absent(node@.successors, v@),
{
    let mut node = node;
    node.insert_successor(v);
    node
}

/// The transform folded into the `v` endpoint when an edge `u -> v` is
/// recorded: `u` joins the predecessor set.
pub fn with_predecessor(node: Node, u: &String) -> (r: Node)
    requires
        node.wf(),
    ensures
        r.wf(),
        r@.id == node@.id,
        r@.successors == node@.successors,
        r@.predecessors == push_if_absent(node@.predecessors, u@),
{
    let mut node = node;
    node.insert_predecessor(u);
    node
}

/// Two updates of the same record, each folding one new successor in, leave
/// both successors present afterwards — together with everything that was
/// there before, so neither write is lost.  The backend serialises
/// conflicting same-id transactions, which makes this the post-state of two
/// concurrent `update_node` calls that both committed.
pub proof fn lemma_no_lost_update(n0: NodeView, x: Seq<char>, y: Seq<char>)
    ensures
        ({
            let s1 = push_if_absent(n0.successors, x);
            let s2 = push_if_absent(s1, y);
            &&& s2.contains(x)
            &&& s2.contains(y)
            &&& forall|z: Seq<char>| n0.successors.contains(z) ==> s2.contains(z)
        }),
{
    let s1 = push_if_absent(n0.successors, x);
    let s2 = push_if_absent(s1, y);
    lemma_push_if_absent_contains(n0.successors, x, x);
    lemma_push_if_absent_contains(s1, y, x);
    lemma_push_if_absent_contains(s1, y, y);
    assert forall|z: Seq<char>| n0.successors.contains(z) implies s2.contains(z) by {
        lemma_push_if_absent_contains(n0.successors, x, z);
        lemma_push_if_absent_contains(s1, y, z);
    };
}

} // verus!
