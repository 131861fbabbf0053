//! A chain node of a code tree: a value and at most one child.

use vstd::prelude::*;

verus! {

/// A node of a code tree chain, owning one value and at most one child.
pub struct Node {
    val: String,
    child: Option<Box<Node>>,
}

impl Node {
    /// The value this node carries.
    pub closed spec fn value(&self) -> Seq<char> {
        self.val@
    }

    /// A node holding the given value above the given child.
    pub fn new(val: String, child: Node) -> (r: Node)
        ensures
            r.value() == val@,
    {
        Node { val, child: Some(Box::new(child)) }
    }
}

} // verus!
