use crate::node::{BoxedHuffNode, HuffBaseNode, HuffNode};
use core::cmp::Ordering;
use vstd::prelude::*;
use vstd::std_specs::cmp::{PartialEqSpecImpl, PartialOrdSpecImpl};

verus! {

/// How the weight `mine` stands to the weight `theirs`.
pub open spec fn weight_order(mine: nat, theirs: nat) -> Ordering {
    if mine < theirs {
        Ordering::Less
    } else if mine == theirs {
        Ordering::Equal
    } else {
        Ordering::Greater
    }
}

/// Nodes are equal where they weigh the same.
impl PartialEq for HuffNode {
    fn eq(&self, other: &Self) -> (equal: bool) {
        self.weight() == other.weight()
    }
}

impl PartialEqSpecImpl for HuffNode {
    open spec fn obeys_eq_spec() -> bool {
        true
    }

    open spec fn eq_spec(&self, other: &Self) -> bool {
        self@.weight() == other@.weight()
    }
}

/// Nodes are ordered by their weights.
impl PartialOrd for HuffNode {
    fn partial_cmp(&self, other: &Self) -> (order: Option<Ordering>) {
        let mine = self.weight();
        let theirs = other.weight();
        if mine < theirs {
            Some(Ordering::Less)
        } else if mine == theirs {
            Some(Ordering::Equal)
        } else {
            Some(Ordering::Greater)
        }
    }
}

impl PartialOrdSpecImpl for HuffNode {
    open spec fn obeys_partial_cmp_spec() -> bool {
        true
    }

    open spec fn partial_cmp_spec(&self, other: &Self) -> Option<Ordering> {
        Some(weight_order(self@.weight(), other@.weight()))
    }
}

/// Queued nodes are equal where they weigh the same.
impl PartialEq for BoxedHuffNode {
    fn eq(&self, other: &Self) -> (equal: bool) {
        self.inner.eq(&other.inner)
    }
}

impl PartialEqSpecImpl for BoxedHuffNode {
    open spec fn obeys_eq_spec() -> bool {
        true
    }

    open spec fn eq_spec(&self, other: &Self) -> bool {
        self@.weight() == other@.weight()
    }
}

/// Queued nodes are ordered against their weights: the lighter node is
/// the greater, so that the greatest of a queue is its lightest.
impl PartialOrd for BoxedHuffNode {
    fn partial_cmp(&self, other: &Self) -> (order: Option<Ordering>) {
        other.inner.partial_cmp(&self.inner)
    }
}

impl PartialOrdSpecImpl for BoxedHuffNode {
    open spec fn obeys_partial_cmp_spec() -> bool {
        true
    }

    open spec fn partial_cmp_spec(&self, other: &Self) -> Option<Ordering> {
        Some(weight_order(other@.weight(), self@.weight()))
    }
}

} // verus!
