//! The order of blocks: by address alone.
use vstd::prelude::*;
use vstd::std_specs::cmp::PartialOrdSpecImpl;
use std::cmp::Ordering;
use crate::block::Block;

verus! {

impl PartialOrd for Block {
    /// The block at the lower address comes first.  Blocks at one address
    /// have the same place in the order, whatever their sizes: `==` tells them
    /// apart, the order does not.
    fn partial_cmp(&self, other: &Block) -> (r: Option<Ordering>) {
        if self.address < other.address {
            Some(Ordering::Less)
        } else if self.address > other.address {
            Some(Ordering::Greater)
        } else {
            Some(Ordering::Equal)
        }
    }
}

impl PartialOrdSpecImpl for Block {
    open spec fn obeys_partial_cmp_spec() -> bool {
        true
    }

    open spec fn partial_cmp_spec(&self, other: &Block) -> Option<Ordering> {
        if self.address < other.address {
            Some(Ordering::Less)
        } else if self.address > other.address {
            Some(Ordering::Greater)
        } else {
            Some(Ordering::Equal)
        }
    }
}

} // verus!
