//! The order of security handler revisions: by their number, so that a
//! later revision compares greater.

use crate::crypto::Revision;
use core::cmp::Ordering;
use vstd::prelude::*;
use vstd::std_specs::cmp::PartialOrdSpec;

verus! {

impl PartialOrd for Revision {
    fn partial_cmp(&self, other: &Revision) -> (r: Option<Ordering>) {
        let a = self.number();
        let b = other.number();
        if a < b {
            Some(Ordering::Less)
        } else if a == b {
            Some(Ordering::Equal)
        } else {
            Some(Ordering::Greater)
        }
    }
}

impl vstd::std_specs::cmp::PartialOrdSpecImpl for Revision {
    open spec fn obeys_partial_cmp_spec() -> bool {
        true
    }

    open spec fn partial_cmp_spec(&self, other: &Revision) -> Option<Ordering> {
        if self.value() < other.value() {
            Some(Ordering::Less)
        } else if self.value() == other.value() {
            Some(Ordering::Equal)
        } else {
            Some(Ordering::Greater)
        }
    }
}

/// Revisions are ordered as their numbers: one compares below another
/// exactly when its number is smaller, and equal only to itself.
pub proof fn law_revision_order(a: Revision, b: Revision)
    ensures
        (a.partial_cmp_spec(&b) == Some(Ordering::Less)) <==> a.value() < b.value(),
        (a.partial_cmp_spec(&b) == Some(Ordering::Greater)) <==> a.value() > b.value(),
        (a.partial_cmp_spec(&b) == Some(Ordering::Equal)) <==> a == b,
{
}

} // verus!
