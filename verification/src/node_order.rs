use crate::node::Node;
use std::cmp::Ordering;
use vstd::prelude::*;
use vstd::std_specs::cmp::{PartialEqSpecImpl, PartialOrdSpecImpl};

verus! {

/// Two trees are equal when their rewards are, whatever their shape.
impl PartialEq for Node {
    fn eq(&self, other: &Node) -> (equal: bool) {
        self.reward == other.reward
    }
}

impl PartialEqSpecImpl for Node {
    open spec fn obeys_eq_spec() -> bool {
        true
    }

    open spec fn eq_spec(&self, other: &Node) -> bool {
        self.reward == other.reward
    }
}

impl Eq for Node {

}

/// Trees are ordered by their rewards alone.
impl PartialOrd for Node {
    fn partial_cmp(&self, other: &Node) -> (order: Option<Ordering>) {
        if self.reward < other.reward {
            Some(Ordering::Less)
        } else if self.reward > other.reward {
            Some(Ordering::Greater)
        } else {
            Some(Ordering::Equal)
        }
    }
}

impl PartialOrdSpecImpl for Node {
    open spec fn obeys_partial_cmp_spec() -> bool {
        true
    }

    open spec fn partial_cmp_spec(&self, other: &Node) -> Option<Ordering> {
        if self.reward < other.reward {
            Some(Ordering::Less)
        } else if self.reward > other.reward {
            Some(Ordering::Greater)
        } else {
            Some(Ordering::Equal)
        }
    }
}

} // verus!
