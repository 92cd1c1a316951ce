//! The order of nodes: by significance alone, whatever else they hold.

use vstd::prelude::*;
use core::cmp::Ordering;
use crate::tree::Node;

verus! {

impl PartialEq for Node {
    fn eq(&self, other: &Self) -> (equal: bool) {
        self.significance == other.significance
    }
}

impl vstd::std_specs::cmp::PartialEqSpecImpl for Node {
    open spec fn obeys_eq_spec() -> bool {
        true
    }

    open spec fn eq_spec(&self, other: &Self) -> bool {
        self.significance == other.significance
    }
}

impl Eq for Node {

}

impl PartialOrd for Node {
    fn partial_cmp(&self, other: &Self) -> (order: Option<Ordering>) {
        if self.significance < other.significance {
            Some(Ordering::Less)
        } else if self.significance > other.significance {
            Some(Ordering::Greater)
        } else {
            Some(Ordering::Equal)
        }
    }
}

impl vstd::std_specs::cmp::PartialOrdSpecImpl for Node {
    open spec fn obeys_partial_cmp_spec() -> bool {
        true
    }

    open spec fn partial_cmp_spec(&self, other: &Self) -> Option<Ordering> {
        if self.significance < other.significance {
            Some(Ordering::Less)
        } else if self.significance > other.significance {
            Some(Ordering::Greater)
        } else {
            Some(Ordering::Equal)
        }
    }
}

} // verus!
