//! The in-memory data model shared by both codecs: variables, pointers,
//! nodes, and the diagram itself (an ordered, index-addressed node sequence).

use vstd::prelude::*;

verus! {

/// Identifier of a decision variable: an unsigned 16-bit integer.
#[derive(Clone, Copy, Debug, PartialEq, Eq, Structural)]
pub struct BddVariable(pub u16);

/// Index of a node within a diagram's node sequence, stored as an unsigned
/// 32-bit integer.  Reserved terminal values are interpreted by the data
/// model's producer, not by the codecs, which treat every pointer uniformly.
#[derive(Clone, Copy, Debug, PartialEq, Eq, Structural)]
pub struct BddPointer(pub u32);

/// One decision node: if `var` is false, continue at `low_link`, otherwise
/// at `high_link`.
#[derive(Clone, Copy, Debug, PartialEq, Eq, Structural)]
pub struct BddNode {
    pub var: BddVariable,
    pub low_link: BddPointer,
    pub high_link: BddPointer,
}

impl BddPointer {
    /// Make a pointer from a raw index into the node sequence.
    pub fn from_index(index: usize) -> (r: BddPointer)
        requires
            index <= u32::MAX,
        ensures
            r.0 == index,
    {
        BddPointer(index as u32)
    }
}

impl BddNode {
    /// Make a node from its three fields.
    pub fn mk_node(var: BddVariable, low_link: BddPointer, high_link: BddPointer) -> (r: BddNode)
        ensures
            r == (BddNode { var, low_link, high_link }),
    {
        BddNode { var, low_link, high_link }
    }
}

/// A binary decision diagram: an ordered sequence of nodes.  A pointer value
/// of `i` addresses the `i`-th node of this sequence, so insertion order is
/// semantically meaningful and both codecs preserve it exactly.
#[derive(Debug)]
pub struct Bdd(pub Vec<BddNode>);

impl View for Bdd {
    type V = Seq<BddNode>;

    open spec fn view(&self) -> Seq<BddNode> {
        self.0@
    }
}

impl Bdd {
    /// Number of nodes in the diagram.
    pub fn node_count(&self) -> (r: usize)
        ensures
            r == self@.len(),
    {
        self.0.len()
    }

    /// Look a node up by the pointer that addresses it.
    pub fn node_at(&self, ptr: BddPointer) -> (r: BddNode)
        requires
            ptr.0 < self@.len(),
        ensures
            r == self@[ptr.0 as int],
    {
        self.0[ptr.0 as usize]
    }
}

impl PartialEq for Bdd {
    fn eq(&self, other: &Bdd) -> (r: bool) {
        if self.0.len() != other.0.len() {
            return false;
        }
        let n = self.0.len();
        let mut i: usize = 0;
        while i < n
            invariant
                i <= n,
                n == self.0.len(),
                n == other.0.len(),
                forall|j: int| 0 <= j < i ==> self.0@[j] == other.0@[j],
            decreases n - i,
        {
            if self.0[i] != other.0[i] {
                return false;
            }
            i += 1;
        }
        proof {
            assert(self.0@ =~= other.0@);
        }
        true
    }
}

impl Eq for Bdd {

}

impl vstd::std_specs::cmp::PartialEqSpecImpl for Bdd {
    open spec fn obeys_eq_spec() -> bool {
        true
    }

    open spec fn eq_spec(&self, other: &Bdd) -> bool {
        self@ == other@
    }
}

} // verus!
