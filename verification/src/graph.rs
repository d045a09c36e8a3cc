//! The in-memory graph engine.
//!
//! Nodes are kept under unique identifiers; for every ordered pair of
//! endpoints the parallel edges between them form an append-only sequence.
//! Adjacency is embedded per node and updated together with edge insertion,
//! so that `v` is a successor of `u` exactly when `u` is a predecessor of `v`
//! exactly when some edge `u -> v` has been added.

use vstd::prelude::*;

use crate::edge::Edge;
use crate::edge::EdgeView;
use crate::errors::GraphError;
use crate::errors::GraphErrorKind;
use crate::node::Node;
use crate::node::NodeView;
use crate::node::contains_string;

verus! {

/// Appends `x` unless the sequence, read as a set, already holds it.
pub open spec fn push_if_absent(s: Seq<Seq<char>>, x: Seq<char>) -> Seq<Seq<char>> {
    if s.contains(x) {
        s
    } else {
        s.push(x)
    }
}

/// A node record with the given identifier and no adjacency yet.
pub open spec fn empty_node_view(id: Seq<char>) -> NodeView {
    NodeView { id, predecessors: Seq::<Seq<char>>::empty(), successors: Seq::<Seq<char>>::empty() }
}

/// Membership in `push_if_absent` is membership in the original sequence or
/// equality with the pushed element.
pub proof fn lemma_push_if_absent_contains(s: Seq<Seq<char>>, x: Seq<char>, y: Seq<char>)
    ensures
        push_if_absent(s, x).contains(y) == (s.contains(y) || y == x),
{
    let p = push_if_absent(s, x);
    if s.contains(x) {
        assert(p == s);
    } else {
        if p.contains(y) {
            let j = choose|j: int| 0 <= j < p.len() && p[j] == y;
            if j < s.len() {
                assert(s[j] == y);
                assert(s.contains(y));
            } else {
                assert(y == x);
            }
        }
        if s.contains(y) {
            let j = choose|j: int| 0 <= j < s.len() && s[j] == y;
            assert(p[j] == y);
            assert(p.contains(y));
        }
        if y == x {
            assert(p[s.len() as int] == y);
            assert(p.contains(y));
        }
    }
}

/// The mathematical value of an edge bucket.
#[verifier::ext_equal]
pub struct BucketView {
    pub u: Seq<char>,
    pub v: Seq<char>,
    pub edges: Seq<EdgeView>,
}

/// All parallel edges for one ordered pair of endpoints, in insertion order.
pub struct EdgeBucket {
    pub u: String,
    pub v: String,
    pub edges: Vec<Edge>,
}

impl DeepView for EdgeBucket {
    type V = BucketView;

    open spec fn deep_view(&self) -> BucketView {
        BucketView { u: self.u@, v: self.v@, edges: self.edges.deep_view() }
    }
}

/// The in-memory graph: a set of nodes with embedded adjacency, plus the
/// edge records grouped by ordered endpoint pair.
pub struct Graph {
    nodes: Vec<Node>,
    edges: Vec<EdgeBucket>,
}

impl Graph {
    /// The node records, as mathematical values.
    pub closed spec fn node_views(self) -> Seq<NodeView> {
        self.nodes.deep_view()
    }

    /// The edge buckets, as mathematical values.
    pub closed spec fn bucket_views(self) -> Seq<BucketView> {
        self.edges.deep_view()
    }

    /// Whether a node with identifier `id` is present.
    pub open spec fn spec_has_node(self, id: Seq<char>) -> bool {
        exists|i: int|
            0 <= i < self.node_views().len() && self.node_views()[i].id == id
    }

    /// The index of the node with identifier `id` (meaningful when present).
    pub closed spec fn node_idx(self, id: Seq<char>) -> int {
        choose|i: int|
            0 <= i < self.node_views().len() && self.node_views()[i].id == id
    }

    /// The node record stored under `id` (meaningful when present).
    pub open spec fn spec_node(self, id: Seq<char>) -> NodeView {
        self.node_views()[self.node_idx(id)]
    }

    /// The successor list of the node stored under `id`.
    pub open spec fn successors_of(self, id: Seq<char>) -> Seq<Seq<char>> {
        self.spec_node(id).successors
    }

    /// The predecessor list of the node stored under `id`.
    pub open spec fn predecessors_of(self, id: Seq<char>) -> Seq<Seq<char>> {
        self.spec_node(id).predecessors
    }

    /// `v` is recorded as a successor of `u`.
    pub open spec fn succ_edge(self, u: Seq<char>, v: Seq<char>) -> bool {
        self.spec_has_node(u) && self.successors_of(u).contains(v)
    }

    /// `u` is recorded as a predecessor of `v`.
    pub open spec fn pred_edge(self, u: Seq<char>, v: Seq<char>) -> bool {
        self.spec_has_node(v) && self.predecessors_of(v).contains(u)
    }

    /// Whether some bucket holds the ordered pair `(u, v)`.
    pub open spec fn spec_has_bucket(self, u: Seq<char>, v: Seq<char>) -> bool {
        exists|i: int|
            0 <= i < self.bucket_views().len() && self.bucket_views()[i].u == u
                && self.bucket_views()[i].v == v
    }

    /// The index of the bucket for `(u, v)` (meaningful when present).
    pub closed spec fn bucket_idx(self, u: Seq<char>, v: Seq<char>) -> int {
        choose|i: int|
            0 <= i < self.bucket_views().len() && self.bucket_views()[i].u == u
                && self.bucket_views()[i].v == v
    }

    /// The edge records stored for the ordered pair `(u, v)`, oldest first.
    pub open spec fn edge_records(self, u: Seq<char>, v: Seq<char>) -> Seq<EdgeView> {
        if self.spec_has_bucket(u, v) {
            self.bucket_views()[self.bucket_idx(u, v)].edges
        } else {
            Seq::<EdgeView>::empty()
        }
    }

    /// Structural well-formedness: node identifiers are unique, every node's
    /// adjacency lists are duplicate-free, bucket keys are unique, and each
    /// bucket holds only edges with its own endpoints.
    pub open spec fn wf(self) -> bool {
        &&& forall|i: int, j: int|
            0 <= i < j < self.node_views().len() ==> self.node_views()[i].id
                != self.node_views()[j].id
        &&& forall|i: int|
            0 <= i < self.node_views().len() ==> (#[trigger] self.node_views()[i]).wf()
        &&& forall|i: int, j: int|
            0 <= i < j < self.bucket_views().len() ==> !(self.bucket_views()[i].u
                == self.bucket_views()[j].u && self.bucket_views()[i].v
                == self.bucket_views()[j].v)
        &&& forall|i: int, k: int|
            0 <= i < self.bucket_views().len() && 0 <= k
                < self.bucket_views()[i].edges.len() ==> (#[trigger] self.bucket_views()[i].edges[k]).u
                == self.bucket_views()[i].u && self.bucket_views()[i].edges[k].v
                == self.bucket_views()[i].v
    }

    /// The adjacency invariant of the entity model: `v` is a successor of
    /// `u` exactly when `u` is a predecessor of `v`, exactly when edge
    /// records for `(u, v)` exist; and every recorded neighbour is itself a
    /// present node.
    pub open spec fn coherent(self) -> bool {
        &&& forall|u: Seq<char>, v: Seq<char>| #[trigger]
            self.succ_edge(u, v) <==> #[trigger] self.pred_edge(u, v)
        &&& forall|u: Seq<char>, v: Seq<char>|
            #[trigger] self.succ_edge(u, v) <==> self.edge_records(u, v).len() > 0
    }

    /// Every recorded successor is itself a node of the graph: what the
    /// shortest-path search needs so that every expansion finds its node.
    pub open spec fn succ_closed(self) -> bool {
        forall|u: Seq<char>, v: Seq<char>|
            #[trigger] self.succ_edge(u, v) ==> self.spec_has_node(v)
    }

    /// A coherent graph never records a successor that is not a node.
    pub proof fn lemma_coherent_implies_succ_closed(self)
        requires
            self.coherent(),
        ensures
            self.succ_closed(),
    {
        assert forall|u: Seq<char>, v: Seq<char>| #[trigger]
            self.succ_edge(u, v) implies self.spec_has_node(v) by {
            assert(self.pred_edge(u, v));
        };
    }

    /// In a well-formed graph, any index holding `id` is the index chosen by
    /// the model.
    pub proof fn lemma_node_at_index(self, i: int)
        requires
            self.wf(),
            0 <= i < self.node_views().len(),
        ensures
            self.spec_has_node(self.node_views()[i].id),
            self.spec_node(self.node_views()[i].id) == self.node_views()[i],
            self.node_idx(self.node_views()[i].id) == i,
    {
        let id = self.node_views()[i].id;
        assert(self.spec_has_node(id));
        let j = self.node_idx(id);
        assert(0 <= j < self.node_views().len() && self.node_views()[j].id == id);
        if i != j {
            if i < j {
                assert(self.node_views()[i].id != self.node_views()[j].id);
            } else {
                assert(self.node_views()[j].id != self.node_views()[i].id);
            }
        }
    }

    /// In a well-formed graph, any index holding the pair `(u, v)` is the
    /// index chosen by the model.
    pub proof fn lemma_bucket_at_index(self, i: int)
        requires
            self.wf(),
            0 <= i < self.bucket_views().len(),
        ensures
            self.spec_has_bucket(self.bucket_views()[i].u, self.bucket_views()[i].v),
            self.bucket_idx(self.bucket_views()[i].u, self.bucket_views()[i].v) == i,
            self.edge_records(self.bucket_views()[i].u, self.bucket_views()[i].v)
                == self.bucket_views()[i].edges,
    {
        let u = self.bucket_views()[i].u;
        let v = self.bucket_views()[i].v;
        assert(self.spec_has_bucket(u, v));
        let j = self.bucket_idx(u, v);
        assert(0 <= j < self.bucket_views().len() && self.bucket_views()[j].u == u
            && self.bucket_views()[j].v == v);
        if i != j {
            if i < j {
                assert(!(self.bucket_views()[i].u == self.bucket_views()[j].u
                    && self.bucket_views()[i].v == self.bucket_views()[j].v));
            } else {
                assert(!(self.bucket_views()[j].u == self.bucket_views()[i].u
                    && self.bucket_views()[j].v == self.bucket_views()[i].v));
            }
        }
    }

    /// Two well-formed graphs with equal bucket sequences store the same
    /// edge records for every pair.
    proof fn lemma_same_buckets_same_records(self, other: Graph, u: Seq<char>, v: Seq<char>)
        requires
            self.wf(),
            other.wf(),
            self.bucket_views() == other.bucket_views(),
        ensures
            self.edge_records(u, v) == other.edge_records(u, v),
            self.spec_has_bucket(u, v) == other.spec_has_bucket(u, v),
    {
        if self.spec_has_bucket(u, v) {
            let i = self.bucket_idx(u, v);
            assert(0 <= i < self.bucket_views().len() && self.bucket_views()[i].u == u
                && self.bucket_views()[i].v == v);
            self.lemma_bucket_at_index(i);
            other.lemma_bucket_at_index(i);
        } else if other.spec_has_bucket(u, v) {
            let i = other.bucket_idx(u, v);
            assert(0 <= i < other.bucket_views().len() && other.bucket_views()[i].u == u
                && other.bucket_views()[i].v == v);
            assert(self.spec_has_bucket(u, v));
        }
    }

    /// Two well-formed graphs with equal node sequences present the same
    /// node model.
    proof fn lemma_same_nodes_same_model(self, other: Graph)
        requires
            self.wf(),
            other.wf(),
            self.node_views() == other.node_views(),
        ensures
            forall|x: Seq<char>| #[trigger] self.spec_has_node(x) == other.spec_has_node(x),
            forall|x: Seq<char>|
                self.spec_has_node(x) ==> #[trigger] self.spec_node(x) == other.spec_node(x),
    {
        assert forall|x: Seq<char>| #[trigger]
            self.spec_has_node(x) == other.spec_has_node(x) by {
            if self.spec_has_node(x) {
                let i = choose|i: int|
                    0 <= i < self.node_views().len() && self.node_views()[i].id == x;
                assert(other.node_views()[i].id == x);
                assert(other.spec_has_node(x));
            }
            if other.spec_has_node(x) {
                let i = choose|i: int|
                    0 <= i < other.node_views().len() && other.node_views()[i].id == x;
                assert(self.node_views()[i].id == x);
                assert(self.spec_has_node(x));
            }
        };
        assert forall|x: Seq<char>| self.spec_has_node(x) implies #[trigger] self.spec_node(x)
            == other.spec_node(x) by {
            let i = choose|i: int| 0 <= i < self.node_views().len() && self.node_views()[i].id == x;
            self.lemma_node_at_index(i);
            other.lemma_node_at_index(i);
        };
    }

    /// After replacing the node at a valid index by a well-formed node with
    /// the same identifier, the node model changes only at that identifier.
    proof fn lemma_replaced_at(self, pre: Graph, i: int)
        requires
            pre.wf(),
            0 <= i < pre.node_views().len(),
            self.node_views() == pre.node_views().update(i, self.node_views()[i]),
            self.node_views()[i].wf(),
            self.node_views()[i].id == pre.node_views()[i].id,
            self.bucket_views() == pre.bucket_views(),
        ensures
            self.wf(),
            forall|x: Seq<char>| #[trigger] self.spec_has_node(x) == pre.spec_has_node(x),
            self.spec_node(pre.node_views()[i].id) == self.node_views()[i],
            self.node_idx(pre.node_views()[i].id) == i,
            forall|x: Seq<char>|
                x != pre.node_views()[i].id && pre.spec_has_node(x) ==> #[trigger] self.spec_node(
                    x,
                ) == pre.spec_node(x),
    {
        let id = pre.node_views()[i].id;
        self.lemma_update_ensures(pre, i, self.node_views()[i]);
        pre.lemma_node_at_index(i);
        self.lemma_node_at_index(i);
    }

    /// After appending one record to the bucket at a valid index, only the
    /// records of that pair change, by exactly that one appended record.
    proof fn lemma_bucket_replaced(self, pre: Graph, b: int, e: EdgeView)
        requires
            pre.wf(),
            0 <= b < pre.bucket_views().len(),
            self.bucket_views() == pre.bucket_views().update(
                b,
                BucketView {
                    u: pre.bucket_views()[b].u,
                    v: pre.bucket_views()[b].v,
                    edges: pre.bucket_views()[b].edges.push(e),
                },
            ),
            e.u == pre.bucket_views()[b].u,
            e.v == pre.bucket_views()[b].v,
            self.node_views() == pre.node_views(),
        ensures
            self.wf(),
            self.edge_records(e.u, e.v) == pre.edge_records(e.u, e.v).push(e),
            forall|x: Seq<char>, y: Seq<char>|
                !(x == e.u && y == e.v) ==> #[trigger] self.edge_records(x, y) == pre.edge_records(
                    x,
                    y,
                ),
    {
        assert(self.wf());
        pre.lemma_bucket_at_index(b);
        self.lemma_bucket_at_index(b);
        assert forall|x: Seq<char>, y: Seq<char>| !(x == e.u && y == e.v) implies #[trigger] self.edge_records(
            x,
            y,
        ) == pre.edge_records(x, y) by {
            if pre.spec_has_bucket(x, y) {
                let j = pre.bucket_idx(x, y);
                assert(0 <= j < pre.bucket_views().len() && pre.bucket_views()[j].u == x
                    && pre.bucket_views()[j].v == y);
                assert(j != b);
                assert(self.bucket_views()[j] == pre.bucket_views()[j]);
                pre.lemma_bucket_at_index(j);
                self.lemma_bucket_at_index(j);
            } else {
                if self.spec_has_bucket(x, y) {
                    let j = self.bucket_idx(x, y);
                    assert(0 <= j < self.bucket_views().len() && self.bucket_views()[j].u == x
                        && self.bucket_views()[j].v == y);
                    assert(j != b);
                    assert(pre.bucket_views()[j].u == x && pre.bucket_views()[j].v == y);
                    assert(pre.spec_has_bucket(x, y));
                }
            }
        };
    }

    /// After appending a bucket for a pair that had none, that pair gains
    /// exactly the bucket's records and every other pair keeps its own.
    proof fn lemma_bucket_pushed(self, pre: Graph, e: EdgeView)
        requires
            pre.wf(),
            !pre.spec_has_bucket(e.u, e.v),
            self.bucket_views() == pre.bucket_views().push(
                BucketView { u: e.u, v: e.v, edges: Seq::<EdgeView>::empty().push(e) },
            ),
            self.node_views() == pre.node_views(),
        ensures
            self.wf(),
            self.edge_records(e.u, e.v) == pre.edge_records(e.u, e.v).push(e),
            forall|x: Seq<char>, y: Seq<char>|
                !(x == e.u && y == e.v) ==> #[trigger] self.edge_records(x, y) == pre.edge_records(
                    x,
                    y,
                ),
    {
        let n = pre.bucket_views().len() as int;
        assert forall|i: int, j: int| 0 <= i < j < self.bucket_views().len() implies !(
        self.bucket_views()[i].u == self.bucket_views()[j].u && self.bucket_views()[i].v
            == self.bucket_views()[j].v) by {
            if j == n {
                assert(self.bucket_views()[i] == pre.bucket_views()[i]);
                if self.bucket_views()[i].u == e.u && self.bucket_views()[i].v == e.v {
                    assert(pre.spec_has_bucket(e.u, e.v));
                }
            }
        };
        assert(self.wf());
        self.lemma_bucket_at_index(n);
        assert(pre.edge_records(e.u, e.v) == Seq::<EdgeView>::empty());
        assert(self.edge_records(e.u, e.v) =~= pre.edge_records(e.u, e.v).push(e));
        assert forall|x: Seq<char>, y: Seq<char>| !(x == e.u && y == e.v) implies #[trigger] self.edge_records(
            x,
            y,
        ) == pre.edge_records(x, y) by {
            if pre.spec_has_bucket(x, y) {
                let j = pre.bucket_idx(x, y);
                assert(0 <= j < pre.bucket_views().len() && pre.bucket_views()[j].u == x
                    && pre.bucket_views()[j].v == y);
                assert(self.bucket_views()[j] == pre.bucket_views()[j]);
                pre.lemma_bucket_at_index(j);
                self.lemma_bucket_at_index(j);
            } else {
                if self.spec_has_bucket(x, y) {
                    let j = self.bucket_idx(x, y);
                    assert(0 <= j < self.bucket_views().len() && self.bucket_views()[j].u == x
                        && self.bucket_views()[j].v == y);
                    assert(j != n);
                    assert(pre.spec_has_bucket(x, y));
                }
            }
        };
    }

    /// When only the adjacency of `eu` and `ev` changes, by recording `ev`
    /// as successor of `eu` and `eu` as predecessor of `ev`, the recorded
    /// relation grows by exactly the pair `(eu, ev)` on both sides.
    proof fn lemma_adj_delta(self, pre: Graph, eu: Seq<char>, ev: Seq<char>)
        requires
            pre.wf(),
            self.wf(),
            forall|x: Seq<char>|
                #[trigger] self.spec_has_node(x) == (pre.spec_has_node(x) || x == eu || x == ev),
            self.successors_of(eu) == push_if_absent(pre.succs_or_empty(eu), ev),
            self.predecessors_of(ev) == push_if_absent(pre.preds_or_empty(ev), eu),
            eu != ev ==> self.predecessors_of(eu) == pre.preds_or_empty(eu),
            eu != ev ==> self.successors_of(ev) == pre.succs_or_empty(ev),
            forall|x: Seq<char>|
                x != eu && x != ev && pre.spec_has_node(x) ==> #[trigger] self.spec_node(x)
                    == pre.spec_node(x),
        ensures
            forall|x: Seq<char>, y: Seq<char>|
                #[trigger] self.succ_edge(x, y) == (pre.succ_edge(x, y) || (x == eu && y == ev)),
            forall|x: Seq<char>, y: Seq<char>|
                #[trigger] self.pred_edge(x, y) == (pre.pred_edge(x, y) || (x == eu && y == ev)),
    {
        assert forall|x: Seq<char>, y: Seq<char>| #[trigger]
            self.succ_edge(x, y) == (pre.succ_edge(x, y) || (x == eu && y == ev)) by {
            if x == eu {
                lemma_push_if_absent_contains(pre.succs_or_empty(eu), ev, y);
                assert(self.spec_has_node(x));
                if pre.spec_has_node(x) {
                    assert(pre.succs_or_empty(eu) == pre.successors_of(eu));
                } else {
                    assert(!pre.succ_edge(x, y));
                    assert(!pre.succs_or_empty(eu).contains(y));
                }
            } else if x == ev {
                assert(self.spec_has_node(x));
                assert(self.successors_of(x) == pre.succs_or_empty(x));
                if pre.spec_has_node(x) {
                    assert(pre.succs_or_empty(x) == pre.successors_of(x));
                } else {
                    assert(!pre.succs_or_empty(x).contains(y));
                    assert(!pre.succ_edge(x, y));
                }
            } else {
                if pre.spec_has_node(x) {
                    assert(self.spec_node(x) == pre.spec_node(x));
                } else {
                    assert(!self.spec_has_node(x));
                }
            }
        };
        assert forall|x: Seq<char>, y: Seq<char>| #[trigger]
            self.pred_edge(x, y) == (pre.pred_edge(x, y) || (x == eu && y == ev)) by {
            if y == ev {
                lemma_push_if_absent_contains(pre.preds_or_empty(ev), eu, x);
                assert(self.spec_has_node(y));
                if pre.spec_has_node(y) {
                    assert(pre.preds_or_empty(ev) == pre.predecessors_of(ev));
                } else {
                    assert(!pre.pred_edge(x, y));
                    assert(!pre.preds_or_empty(ev).contains(x));
                }
            } else if y == eu {
                assert(self.spec_has_node(y));
                assert(self.predecessors_of(y) == pre.preds_or_empty(y));
                if pre.spec_has_node(y) {
                    assert(pre.preds_or_empty(y) == pre.predecessors_of(y));
                } else {
                    assert(!pre.preds_or_empty(y).contains(x));
                    assert(!pre.pred_edge(x, y));
                }
            } else {
                if pre.spec_has_node(y) {
                    assert(self.spec_node(y) == pre.spec_node(y));
                } else {
                    assert(!self.spec_has_node(y));
                }
            }
        };
    }

    /// Builds an empty graph.
    pub fn new() -> (g: Graph)
        ensures
            g.wf(),
            g.coherent(),
            g.node_views().len() == 0,
            forall|id: Seq<char>| !g.spec_has_node(id),
            forall|u: Seq<char>, v: Seq<char>| #[trigger] g.edge_records(u, v).len() == 0,
    {
        let g = Graph { nodes: Vec::new(), edges: Vec::new() };
        proof {
            assert(g.node_views().len() == 0);
            assert(g.bucket_views().len() == 0);
            assert(forall|u: Seq<char>, v: Seq<char>| !g.spec_has_bucket(u, v));
        }
        g
    }

    /// The number of nodes currently stored.
    pub fn node_count(&self) -> (n: usize)
        ensures
            n == self.node_views().len(),
    {
        self.nodes.len()
    }

    /// Finds the position of the node stored under `id`, if any.
    fn find_node_index(&self, id: &String) -> (r: Option<usize>)
        ensures
            match r {
                Some(i) => 0 <= i < self.node_views().len() && self.node_views()[i as int].id
                    == id@,
                None => !self.spec_has_node(id@),
            },
    {
        let mut i: usize = 0;
        while i < self.nodes.len()
            invariant
                i <= self.nodes.len(),
                forall|j: int| 0 <= j < i ==> self.node_views()[j].id != id@,
            decreases self.nodes.len() - i,
        {
            proof {
                assert(self.node_views()[i as int] == self.nodes@[i as int]@);
            }
            if self.nodes[i].id == *id {
                return Some(i);
            }
            i += 1;
        }
        None
    }

    /// Looks up the node stored under `id`.
    pub fn get_node(&self, id: &String) -> (r: Option<&Node>)
        requires
            self.wf(),
        ensures
            match r {
                Some(n) => self.spec_has_node(id@) && n@ == self.spec_node(id@),
                None => !self.spec_has_node(id@),
            },
    {
        match self.find_node_index(id) {
            Some(i) => {
                proof {
                    self.lemma_node_at_index(i as int);
                }
                Some(&self.nodes[i])
            }
            None => None,
        }
    }

    /// Inserts `node` under its identifier.  If a node with that identifier
    /// already exists it is replaced outright, including its accumulated
    /// adjacency sets.  Callers must not use this to refresh a node that
    /// already has edges: the replacement would leave the embedded adjacency
    /// inconsistent with the stored edge records, which is why coherence is
    /// only promised when the inserted node is fresh and has empty adjacency.
    pub fn add_node(&mut self, node: Node)
        requires
            old(self).wf(),
            node.wf(),
        ensures
            final(self).wf(),
            forall|x: Seq<char>|
                #[trigger] final(self).spec_has_node(x) == (old(self).spec_has_node(x) || x
                    == node@.id),
            final(self).spec_node(node@.id) == node@,
            forall|x: Seq<char>|
                x != node@.id && old(self).spec_has_node(x) ==> #[trigger] final(self).spec_node(x)
                    == old(self).spec_node(x),
            final(self).bucket_views() == old(self).bucket_views(),
            old(self).coherent() && !old(self).spec_has_node(node@.id) && node@.successors.len()
                == 0 && node@.predecessors.len() == 0 ==> final(self).coherent(),
    {
        let ghost pre = *self;
        match self.find_node_index(&node.id) {
            Some(i) => {
                proof {
                    pre.lemma_node_at_index(i as int);
                }
                self.nodes[i] = node;
                proof {
                    assert(self.node_views() =~= pre.node_views().update(i as int, node@));
                    self.lemma_update_ensures(pre, i as int, node@);
                }
            }
            None => {
                self.nodes.push(node);
                proof {
                    assert(self.node_views() =~= pre.node_views().push(node@));
                    self.lemma_push_ensures(pre, node@);
                }
            }
        }
        proof {
            let g2 = *self;
            let ghost nid = node@.id;
            if pre.coherent() && !pre.spec_has_node(nid) && node@.successors.len() == 0
                && node@.predecessors.len() == 0 {
                assert forall|u: Seq<char>, v: Seq<char>| #[trigger]
                    g2.succ_edge(u, v) == pre.succ_edge(u, v) by {
                    if u == nid {
                        assert(g2.spec_node(u) == node@);
                        assert(!g2.successors_of(u).contains(v));
                        assert(!pre.spec_has_node(u));
                    } else if pre.spec_has_node(u) {
                        assert(g2.spec_node(u) == pre.spec_node(u));
                        assert(g2.spec_has_node(u));
                    } else {
                        assert(!g2.spec_has_node(u));
                    }
                };
                assert forall|u: Seq<char>, v: Seq<char>| #[trigger]
                    g2.pred_edge(u, v) == pre.pred_edge(u, v) by {
                    if v == nid {
                        assert(g2.spec_node(v) == node@);
                        assert(!g2.predecessors_of(v).contains(u));
                        assert(!pre.spec_has_node(v));
                    } else if pre.spec_has_node(v) {
                        assert(g2.spec_node(v) == pre.spec_node(v));
                        assert(g2.spec_has_node(v));
                    } else {
                        assert(!g2.spec_has_node(v));
                    }
                };
                assert forall|u: Seq<char>, v: Seq<char>| #[trigger]
                    g2.edge_records(u, v) == pre.edge_records(u, v) by {
                    g2.lemma_same_buckets_same_records(pre, u, v);
                };
                assert(g2.coherent());
            }
        }
    }

    /// After replacing the record at a valid index, the map-level facts of
    /// [`Self::add_node`] hold.
    proof fn lemma_update_ensures(self, pre: Graph, i: int, nv: NodeView)
        requires
            pre.wf(),
            nv.wf(),
            0 <= i < pre.node_views().len(),
            pre.node_views()[i].id == nv.id,
            self.node_views() == pre.node_views().update(i, nv),
            self.bucket_views() == pre.bucket_views(),
        ensures
            self.wf(),
            forall|x: Seq<char>|
                #[trigger] self.spec_has_node(x) == (pre.spec_has_node(x) || x == nv.id),
            self.spec_node(nv.id) == nv,
            forall|x: Seq<char>|
                x != nv.id && pre.spec_has_node(x) ==> #[trigger] self.spec_node(x)
                    == pre.spec_node(x),
    {
        assert forall|x: Seq<char>|
            #[trigger] self.spec_has_node(x) == (pre.spec_has_node(x) || x == nv.id) by {
            if self.spec_has_node(x) {
                let j = choose|j: int|
                    0 <= j < self.node_views().len() && self.node_views()[j].id == x;
                if j == i {
                    assert(x == nv.id);
                } else {
                    assert(pre.node_views()[j].id == x);
                    assert(pre.spec_has_node(x));
                }
            }
            if pre.spec_has_node(x) {
                let j = choose|j: int|
                    0 <= j < pre.node_views().len() && pre.node_views()[j].id == x;
                if j == i {
                    assert(x == nv.id);
                    assert(self.node_views()[i].id == x);
                } else {
                    assert(self.node_views()[j].id == x);
                }
                assert(self.spec_has_node(x));
            }
            if x == nv.id {
                assert(self.node_views()[i].id == x);
                assert(self.spec_has_node(x));
            }
        };
        assert(self.wf());
        self.lemma_node_at_index(i);
        assert(self.spec_node(nv.id) == nv);
        assert forall|x: Seq<char>| x != nv.id && pre.spec_has_node(x) implies #[trigger] self.spec_node(
            x,
        ) == pre.spec_node(x) by {
            let j = choose|j: int| 0 <= j < pre.node_views().len() && pre.node_views()[j].id == x;
            pre.lemma_node_at_index(j);
            assert(j != i);
            assert(self.node_views()[j].id == x);
            self.lemma_node_at_index(j);
        };
    }

    /// After appending a record with a fresh identifier, the map-level facts
    /// of [`Self::add_node`] hold.
    proof fn lemma_push_ensures(self, pre: Graph, nv: NodeView)
        requires
            pre.wf(),
            nv.wf(),
            !pre.spec_has_node(nv.id),
            self.node_views() == pre.node_views().push(nv),
            self.bucket_views() == pre.bucket_views(),
        ensures
            self.wf(),
            forall|x: Seq<char>|
                #[trigger] self.spec_has_node(x) == (pre.spec_has_node(x) || x == nv.id),
            self.spec_node(nv.id) == nv,
            forall|x: Seq<char>|
                x != nv.id && pre.spec_has_node(x) ==> #[trigger] self.spec_node(x)
                    == pre.spec_node(x),
    {
        let n = pre.node_views().len() as int;
        assert forall|x: Seq<char>|
            #[trigger] self.spec_has_node(x) == (pre.spec_has_node(x) || x == nv.id) by {
            if self.spec_has_node(x) {
                let j = choose|j: int|
                    0 <= j < self.node_views().len() && self.node_views()[j].id == x;
                if j == n {
                    assert(x == nv.id);
                } else {
                    assert(pre.node_views()[j].id == x);
                    assert(pre.spec_has_node(x));
                }
            }
            if pre.spec_has_node(x) {
                let j = choose|j: int|
                    0 <= j < pre.node_views().len() && pre.node_views()[j].id == x;
                assert(self.node_views()[j].id == x);
                assert(self.spec_has_node(x));
            }
            if x == nv.id {
                assert(self.node_views()[n].id == x);
                assert(self.spec_has_node(x));
            }
        };
        assert forall|i: int, j: int|
            0 <= i < j < self.node_views().len() implies self.node_views()[i].id
            != self.node_views()[j].id by {
            if j == n {
                assert(self.node_views()[i] == pre.node_views()[i]);
                if self.node_views()[i].id == nv.id {
                    assert(pre.spec_has_node(nv.id));
                }
            }
        };
        assert(self.wf());
        self.lemma_node_at_index(n);
        assert(self.spec_node(nv.id) == nv);
        assert forall|x: Seq<char>| x != nv.id && pre.spec_has_node(x) implies #[trigger] self.spec_node(
            x,
        ) == pre.spec_node(x) by {
            let j = choose|j: int| 0 <= j < pre.node_views().len() && pre.node_views()[j].id == x;
            pre.lemma_node_at_index(j);
            assert(self.node_views()[j].id == x);
            self.lemma_node_at_index(j);
        };
    }

    /// The successor list of `id`, or the empty sequence when `id` is not a
    /// node yet.
    pub open spec fn succs_or_empty(self, id: Seq<char>) -> Seq<Seq<char>> {
        if self.spec_has_node(id) {
            self.successors_of(id)
        } else {
            Seq::<Seq<char>>::empty()
        }
    }

    /// The predecessor list of `id`, or the empty sequence when `id` is not
    /// a node yet.
    pub open spec fn preds_or_empty(self, id: Seq<char>) -> Seq<Seq<char>> {
        if self.spec_has_node(id) {
            self.predecessors_of(id)
        } else {
            Seq::<Seq<char>>::empty()
        }
    }

    /// Inserts an empty node under `id` unless one is already present, and
    /// returns the position of the node stored under `id`.
    fn ensure_node(&mut self, id: &String) -> (i: usize)
        requires
            old(self).wf(),
        ensures
            final(self).wf(),
            i < final(self).node_views().len(),
            final(self).node_views()[i as int].id == id@,
            final(self).spec_has_node(id@),
            final(self).bucket_views() == old(self).bucket_views(),
            old(self).node_views().len() <= final(self).node_views().len(),
            forall|j: int|
                0 <= j < old(self).node_views().len() ==> final(self).node_views()[j] == old(
                    self,
                ).node_views()[j],
            forall|x: Seq<char>|
                #[trigger] final(self).spec_has_node(x) == (old(self).spec_has_node(x) || x
                    == id@),
            forall|x: Seq<char>|
                x != id@ && old(self).spec_has_node(x) ==> #[trigger] final(self).spec_node(x)
                    == old(self).spec_node(x),
            final(self).spec_node(id@) == if old(self).spec_has_node(id@) {
                old(self).spec_node(id@)
            } else {
                empty_node_view(id@)
            },
            old(self).spec_has_node(id@) ==> final(self).node_views() == old(self).node_views(),
    {
        let ghost pre = *self;
        match self.find_node_index(id) {
            Some(i) => {
                proof {
                    self.lemma_node_at_index(i as int);
                    assert forall|x: Seq<char>|
                        #[trigger] self.spec_has_node(x) == (pre.spec_has_node(x) || x
                            == id@) by {};
                }
                i
            }
            None => {
                let n = Node::new(id.clone());
                proof {
                    assert(n@ =~~= empty_node_view(id@));
                }
                self.nodes.push(n);
                proof {
                    assert(self.node_views() =~= pre.node_views().push(empty_node_view(id@)));
                    self.lemma_push_ensures(pre, empty_node_view(id@));
                    self.lemma_node_at_index(pre.node_views().len() as int);
                }
                self.nodes.len() - 1
            }
        }
    }

    /// Finds the position of the bucket for the ordered pair `(u, v)`.
    fn find_bucket_index(&self, u: &String, v: &String) -> (r: Option<usize>)
        ensures
            match r {
                Some(i) => 0 <= i < self.bucket_views().len() && self.bucket_views()[i as int].u
                    == u@ && self.bucket_views()[i as int].v == v@,
                None => !self.spec_has_bucket(u@, v@),
            },
    {
        let mut i: usize = 0;
        while i < self.edges.len()
            invariant
                i <= self.edges.len(),
                forall|j: int|
                    0 <= j < i ==> !(self.bucket_views()[j].u == u@ && self.bucket_views()[j].v
                        == v@),
            decreases self.edges.len() - i,
        {
            proof {
                assert(self.bucket_views()[i as int] == self.edges@[i as int].deep_view());
            }
            if self.edges[i].u == *u && self.edges[i].v == *v {
                return Some(i);
            }
            i += 1;
        }
        None
    }

    /// Adds an edge, together with any endpoint node not present yet.
    ///
    /// Nodes for both endpoints are created empty only if absent — an
    /// endpoint that already exists keeps its accumulated adjacency.  Then
    /// `edge.v` joins the successor set of `edge.u`, `edge.u` joins the
    /// predecessor set of `edge.v` (the sets absorb duplicates), and the
    /// record itself is appended to the sequence for `(edge.u, edge.v)`,
    /// which does not absorb duplicates.
    pub fn add_edge(&mut self, edge: Edge)
        requires
            old(self).wf(),
            old(self).coherent(),
        ensures
            final(self).wf(),
            final(self).coherent(),
            forall|x: Seq<char>|
                #[trigger] final(self).spec_has_node(x) == (old(self).spec_has_node(x) || x
                    == edge@.u || x == edge@.v),
            final(self).successors_of(edge@.u) == push_if_absent(
                old(self).succs_or_empty(edge@.u),
                edge@.v,
            ),
            final(self).predecessors_of(edge@.v) == push_if_absent(
                old(self).preds_or_empty(edge@.v),
                edge@.u,
            ),
            edge@.u != edge@.v ==> final(self).predecessors_of(edge@.u) == old(
                self,
            ).preds_or_empty(edge@.u),
            edge@.u != edge@.v ==> final(self).successors_of(edge@.v) == old(self).succs_or_empty(
                edge@.v,
            ),
            forall|x: Seq<char>|
                x != edge@.u && x != edge@.v && old(self).spec_has_node(x)
                    ==> #[trigger] final(self).spec_node(x) == old(self).spec_node(x),
            final(self).edge_records(edge@.u, edge@.v) == old(self).edge_records(
                edge@.u,
                edge@.v,
            ).push(edge@),
            forall|x: Seq<char>, y: Seq<char>|
                !(x == edge@.u && y == edge@.v) ==> #[trigger] final(self).edge_records(x, y)
                    == old(self).edge_records(x, y),
            final(self).succ_edge(edge@.u, edge@.v),
            final(self).pred_edge(edge@.u, edge@.v),
    {
        let ghost pre = *self;
        let ghost eu = edge@.u;
        let ghost ev = edge@.v;

        // Make sure both endpoint nodes exist, never overwriting one that does.
        let iu = self.ensure_node(&edge.u);
        let ghost mid1 = *self;
        let iv = self.ensure_node(&edge.v);
        let ghost mid2 = *self;
        proof {
            assert(mid2.node_views()[iu as int].id == eu);
            mid2.lemma_node_at_index(iu as int);
            mid2.lemma_node_at_index(iv as int);
        }

        // Fold the adjacency relation into both endpoints.
        self.nodes[iu].insert_successor(&edge.v);
        let ghost mid3 = *self;
        proof {
            assert(mid3.node_views() =~= mid2.node_views().update(
                iu as int,
                mid3.node_views()[iu as int],
            ));
            mid3.lemma_replaced_at(mid2, iu as int);
        }
        self.nodes[iv].insert_predecessor(&edge.u);
        let ghost mid4 = *self;
        proof {
            assert(mid4.node_views() =~= mid3.node_views().update(
                iv as int,
                mid4.node_views()[iv as int],
            ));
            mid4.lemma_replaced_at(mid3, iv as int);
        }

        // Append the record to the bucket for this ordered pair.
        match self.find_bucket_index(&edge.u, &edge.v) {
            Some(b) => {
                proof {
                    mid4.lemma_bucket_at_index(b as int);
                }
                let ghost old_bucket = self.edges@[b as int].deep_view();
                self.edges[b].edges.push(edge);
                proof {
                    assert(self.bucket_views() =~~= mid4.bucket_views().update(
                        b as int,
                        BucketView {
                            u: old_bucket.u,
                            v: old_bucket.v,
                            edges: old_bucket.edges.push(edge@),
                        },
                    ));
                    self.lemma_bucket_replaced(mid4, b as int, edge@);
                }
            }
            None => {
                let u2 = edge.u.clone();
                let v2 = edge.v.clone();
                let mut es: Vec<Edge> = Vec::new();
                es.push(edge);
                let bucket = EdgeBucket { u: u2, v: v2, edges: es };
                proof {
                    assert(bucket.deep_view().edges =~~= Seq::<EdgeView>::empty().push(edge@));
                }
                self.edges.push(bucket);
                proof {
                    assert(self.bucket_views() =~~= mid4.bucket_views().push(
                        BucketView { u: eu, v: ev, edges: Seq::<EdgeView>::empty().push(edge@) },
                    ));
                    self.lemma_bucket_pushed(mid4, edge@);
                }
            }
        }
        proof {
            let fin = *self;
            // The record stored under each endpoint after the two insertions.
            assert(mid2.spec_node(eu) == if pre.spec_has_node(eu) {
                pre.spec_node(eu)
            } else {
                empty_node_view(eu)
            }) by {
                if eu == ev {
                } else {
                }
            };
            assert(mid2.spec_node(ev) == if pre.spec_has_node(ev) {
                pre.spec_node(ev)
            } else {
                empty_node_view(ev)
            }) by {
                if eu == ev {
                } else {
                }
            };
            assert(eu != ev ==> iu != iv);
            assert(mid4.successors_of(eu) == push_if_absent(pre.succs_or_empty(eu), ev)) by {
                assert(mid2.node_views()[iu as int] == mid2.spec_node(eu));
                assert(mid3.spec_node(eu) == mid3.node_views()[iu as int]);
                if iu == iv {
                    assert(mid4.spec_node(eu) == mid4.node_views()[iv as int]);
                } else {
                    assert(mid4.spec_node(eu) == mid3.spec_node(eu));
                }
            };
            assert(mid4.predecessors_of(ev) == push_if_absent(pre.preds_or_empty(ev), eu)) by {
                assert(mid2.node_views()[iv as int] == mid2.spec_node(ev));
                if iu == iv {
                    assert(mid3.spec_node(ev) == mid3.node_views()[iu as int]);
                } else {
                    assert(mid3.spec_node(ev) == mid2.spec_node(ev));
                }
                assert(mid3.node_views()[iv as int] == mid3.spec_node(ev));
                assert(mid4.spec_node(ev) == mid4.node_views()[iv as int]);
            };
            assert(eu != ev ==> mid4.predecessors_of(eu) == pre.preds_or_empty(eu) && mid4.successors_of(
                ev,
            ) == pre.succs_or_empty(ev)) by {
                if eu != ev {
                    assert(mid3.spec_node(eu) == mid3.node_views()[iu as int]);
                    assert(mid4.spec_node(eu) == mid3.spec_node(eu));
                    assert(mid3.spec_node(ev) == mid2.spec_node(ev));
                    assert(mid4.spec_node(ev) == mid4.node_views()[iv as int]);
                }
            };
            assert(forall|x: Seq<char>|
                #[trigger] mid4.spec_has_node(x) == (pre.spec_has_node(x) || x == eu || x == ev));
            assert forall|x: Seq<char>| x != eu && x != ev && pre.spec_has_node(x) implies #[trigger] mid4.spec_node(
                x,
            ) == pre.spec_node(x) by {
                assert(mid2.spec_node(x) == pre.spec_node(x));
                assert(mid3.spec_node(x) == mid2.spec_node(x));
                assert(mid4.spec_node(x) == mid3.spec_node(x));
            };
            // The bucket step left every node record alone.
            fin.lemma_same_nodes_same_model(mid4);
            assert(fin.successors_of(eu) == mid4.successors_of(eu));
            assert(fin.predecessors_of(ev) == mid4.predecessors_of(ev));
            assert(eu != ev ==> fin.predecessors_of(eu) == mid4.predecessors_of(eu)
                && fin.successors_of(ev) == mid4.successors_of(ev));
            // Exactly the pair (eu, ev) joined the recorded relation.
            fin.lemma_adj_delta(pre, eu, ev);
            assert(fin.succ_edge(eu, ev)) by {
                lemma_push_if_absent_contains(pre.succs_or_empty(eu), ev, ev);
            };
            assert(fin.pred_edge(eu, ev)) by {
                lemma_push_if_absent_contains(pre.preds_or_empty(ev), eu, eu);
            };
            // Coherence carries over: both sides and the records grew by the
            // same single pair.
            assert forall|x: Seq<char>, y: Seq<char>| #[trigger]
                fin.succ_edge(x, y) == fin.pred_edge(x, y) by {
                assert(pre.succ_edge(x, y) == pre.pred_edge(x, y));
            };
            assert forall|x: Seq<char>, y: Seq<char>| #[trigger]
                fin.succ_edge(x, y) == (fin.edge_records(x, y).len() > 0) by {
                if x == eu && y == ev {
                    assert(fin.edge_records(x, y).len() > 0);
                } else {
                    assert(fin.edge_records(x, y) == pre.edge_records(x, y));
                    assert(pre.succ_edge(x, y) == (pre.edge_records(x, y).len() > 0));
                }
            };
            assert(fin.coherent());
        }
    }
    /// The stored edge records for the ordered pair `(u, v)`, oldest first.
    pub fn get_edges(&self, u: &String, v: &String) -> (r: Option<&Vec<Edge>>)
        requires
            self.wf(),
        ensures
            match r {
                Some(es) => self.spec_has_bucket(u@, v@) && es.deep_view() == self.edge_records(
                    u@,
                    v@,
                ),
                None => !self.spec_has_bucket(u@, v@),
            },
    {
        match self.find_bucket_index(u, v) {
            Some(b) => {
                proof {
                    self.lemma_bucket_at_index(b as int);
                }
                Some(&self.edges[b].edges)
            },
            None => None,
        }
    }

    /// Returns a copy of the successor set of the node stored under
    /// `node_id`, or a `NodeNotFound` error when no such node exists.  The
    /// error — rather than a silent empty set — lets callers distinguish an
    /// isolated node from an unknown one.
    pub fn get_successors(&self, node_id: &String) -> (r: Result<Vec<String>, GraphError>)
        requires
            self.wf(),
        ensures
            match r {
                Ok(s) => self.spec_has_node(node_id@) && s.deep_view() == self.successors_of(
                    node_id@,
                ),
                Err(e) => !self.spec_has_node(node_id@) && e.kind == GraphErrorKind::NodeNotFound,
            },
    {
        match self.find_node_index(node_id) {
            Some(i) => {
                proof {
                    self.lemma_node_at_index(i as int);
                }
                Ok(clone_string_vec(&self.nodes[i].successors))
            }
            None => Err(GraphError::new(GraphErrorKind::NodeNotFound, "Node not found")),
        }
    }

    /// Returns a copy of the predecessor set of the node stored under
    /// `node_id`, or a `NodeNotFound` error when no such node exists.
    pub fn get_predecessors(&self, node_id: &String) -> (r: Result<Vec<String>, GraphError>)
        requires
            self.wf(),
        ensures
            match r {
                Ok(s) => self.spec_has_node(node_id@) && s.deep_view() == self.predecessors_of(
                    node_id@,
                ),
                Err(e) => !self.spec_has_node(node_id@) && e.kind == GraphErrorKind::NodeNotFound,
            },
    {
        match self.find_node_index(node_id) {
            Some(i) => {
                proof {
                    self.lemma_node_at_index(i as int);
                }
                Ok(clone_string_vec(&self.nodes[i].predecessors))
            }
            None => Err(GraphError::new(GraphErrorKind::NodeNotFound, "Node not found")),
        }
    }
}

/// Copies a list of strings; the copy denotes the same sequence.
pub fn clone_string_vec(v: &Vec<String>) -> (r: Vec<String>)
    ensures
        r.deep_view() == v.deep_view(),
{
    let mut r: Vec<String> = Vec::new();
    let mut i: usize = 0;
    while i < v.len()
        invariant
            i <= v.len(),
            r@.len() == i,
            forall|j: int| 0 <= j < i ==> r.deep_view()[j] == v.deep_view()[j],
        decreases v.len() - i,
    {
        r.push(v[i].clone());
        proof {
            assert(r.deep_view()[i as int] == v.deep_view()[i as int]);
        }
        i += 1;
    }
    proof {
        assert(r.deep_view() =~~= v.deep_view());
    }
    r
}


/// In a well-formed graph the successor list of a present node is
/// duplicate-free.
pub proof fn lemma_succ_no_duplicates(g: Graph, u: Seq<char>)
    requires
        g.wf(),
        g.spec_has_node(u),
    ensures
        g.successors_of(u).no_duplicates(),
{
    let j = g.node_idx(u);
    assert(0 <= j < g.node_views().len() && g.node_views()[j].id == u);
    assert(g.node_views()[j].wf());
}

/// Adding the identical ordered pair `(u, v)` twice appends two separate
/// edge records under that pair, while the successor set of `u` still
/// reports exactly one occurrence of `v`.  The hypotheses are exactly what
/// two consecutive [`Graph::add_edge`] calls ensure.
pub proof fn lemma_parallel_edges(g0: Graph, g1: Graph, g2: Graph, e1: EdgeView, e2: EdgeView)
    requires
        e1.u == e2.u,
        e1.v == e2.v,
        g1.edge_records(e1.u, e1.v) == g0.edge_records(e1.u, e1.v).push(e1),
        g2.edge_records(e1.u, e1.v) == g1.edge_records(e1.u, e1.v).push(e2),
        g2.wf(),
        g2.succ_edge(e1.u, e1.v),
    ensures
        g2.edge_records(e1.u, e1.v).len() == g0.edge_records(e1.u, e1.v).len() + 2,
        g2.edge_records(e1.u, e1.v)[g2.edge_records(e1.u, e1.v).len() - 2] == e1,
        g2.edge_records(e1.u, e1.v).last() == e2,
        g2.successors_of(e1.u).to_multiset().count(e1.v) == 1,
{
    broadcast use vstd::seq_lib::to_multiset_contains;

    lemma_succ_no_duplicates(g2, e1.u);
    let su = g2.successors_of(e1.u);
    su.lemma_multiset_has_no_duplicates();
    assert(su.contains(e1.v));
    assert(su.to_multiset().count(e1.v) > 0);
}

} // verus!
