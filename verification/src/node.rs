//! The node record of the entity model.
//!
//! A node carries its identifier and its two adjacency lists.  Each list is an
//! insertion-ordered set: the order in which neighbours were first added is
//! kept, and no identifier appears twice.  The deterministic order is what
//! makes shortest-path results reproducible among equally short alternatives.

use vstd::prelude::*;

verus! {

/// The mathematical value of a [`Node`]: its identifier and adjacency lists
/// as sequences of character strings.
#[verifier::ext_equal]
pub struct NodeView {
    pub id: Seq<char>,
    pub predecessors: Seq<Seq<char>>,
    pub successors: Seq<Seq<char>>,
}

impl NodeView {
    /// Both adjacency lists are duplicate-free: they denote sets.
    pub open spec fn wf(self) -> bool {
        &&& self.predecessors.no_duplicates()
        &&& self.successors.no_duplicates()
    }
}

/// A named vertex with tracked in/out neighbour sets.
#[derive(Debug, Clone)]
pub struct Node {
    pub id: String,
    pub predecessors: Vec<String>,
    pub successors: Vec<String>,
}

impl View for Node {
    type V = NodeView;

    open spec fn view(&self) -> NodeView {
        NodeView {
            id: self.id@,
            predecessors: self.predecessors.deep_view(),
            successors: self.successors.deep_view(),
        }
    }
}

impl DeepView for Node {
    type V = NodeView;

    open spec fn deep_view(&self) -> NodeView {
        self.view()
    }
}

impl Node {
    /// Both adjacency lists are duplicate-free: they denote sets.
    pub open spec fn wf(self) -> bool {
        self@.wf()
    }

    /// Builds a node with the given identifier and empty adjacency.
    pub fn new(id: String) -> (n: Node)
        ensures
            n@.id == id@,
            n@.predecessors == Seq::<Seq<char>>::empty(),
            n@.successors == Seq::<Seq<char>>::empty(),
            n.wf(),
    {
        let n = Node { id, predecessors: Vec::new(), successors: Vec::new() };
        assert(n@.predecessors =~= Seq::<Seq<char>>::empty());
        assert(n@.successors =~= Seq::<Seq<char>>::empty());
        n
    }

    /// Whether `v` already occurs in the successor list.
    pub fn has_successor(&self, v: &String) -> (b: bool)
        ensures
            b == self@.successors.contains(v@),
    {
        contains_string(&self.successors, v)
    }

    /// Whether `u` already occurs in the predecessor list.
    pub fn has_predecessor(&self, u: &String) -> (b: bool)
        ensures
            b == self@.predecessors.contains(u@),
    {
        contains_string(&self.predecessors, u)
    }

    /// Adds `v` to the successor set.  The list absorbs duplicates: adding an
    /// identifier already present leaves the node unchanged.
    pub fn insert_successor(&mut self, v: &String)
        requires
            old(self).wf(),
        ensures
            final(self).wf(),
            final(self)@.id == old(self)@.id,
            final(self)@.predecessors == old(self)@.predecessors,
            final(self)@.successors == if old(self)@.successors.contains(v@) {
                old(self)@.successors
            } else {
                old(self)@.successors.push(v@)
            },
            final(self)@.successors.contains(v@),
    {
        if !contains_string(&self.successors, v) {
            let ghost pre = self@.successors;
            self.successors.push(v.clone());
            proof {
                assert(self@.successors =~~= pre.push(v@));
                assert(self@.successors.contains(v@)) by {
                    assert(self@.successors.last() == v@);
                };
            }
        }
    }

    /// Adds `u` to the predecessor set, absorbing duplicates.
    pub fn insert_predecessor(&mut self, u: &String)
        requires
            old(self).wf(),
        ensures
            final(self).wf(),
            final(self)@.id == old(self)@.id,
            final(self)@.successors == old(self)@.successors,
            final(self)@.predecessors == if old(self)@.predecessors.contains(u@) {
                old(self)@.predecessors
            } else {
                old(self)@.predecessors.push(u@)
            },
            final(self)@.predecessors.contains(u@),
    {
        if !contains_string(&self.predecessors, u) {
            let ghost pre = self@.predecessors;
            self.predecessors.push(u.clone());
            proof {
                assert(self@.predecessors =~~= pre.push(u@));
                assert(self@.predecessors.contains(u@)) by {
                    assert(self@.predecessors.last() == u@);
                };
            }
        }
    }
}

/// Linear membership test over a list of strings, stated over the views.
pub fn contains_string(haystack: &Vec<String>, needle: &String) -> (b: bool)
    ensures
        b == haystack.deep_view().contains(needle@),
{
    let mut i: usize = 0;
    while i < haystack.len()
        invariant
            i <= haystack.len(),
            forall|j: int| 0 <= j < i ==> haystack.deep_view()[j] != needle@,
        decreases haystack.len() - i,
    {
        proof {
            assert(haystack.deep_view()[i as int] == haystack@[i as int]@);
        }
        if haystack[i] == *needle {
            proof {
                assert(haystack.deep_view()[i as int] == needle@);
            }
            return true;
        }
        proof {
            assert(haystack.deep_view()[i as int] != needle@);
        }
        i += 1;
    }
    false
}

} // verus!
