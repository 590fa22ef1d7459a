//! The order of extension types: that of their sections in canonical text.

use std::cmp::Ordering;

use vstd::prelude::*;
use vstd::std_specs::cmp::PartialOrdSpec;

use crate::extensions::ExtensionType;

verus! {

impl vstd::std_specs::cmp::PartialOrdSpecImpl for ExtensionType {
    open spec fn obeys_partial_cmp_spec() -> bool {
        true
    }

    /// Transform comes before Unicode, Unicode before the other types, and
    /// these before private use; two other types go by their characters.
    open spec fn partial_cmp_spec(&self, other: &ExtensionType) -> Option<Ordering> {
        if self.rank() < other.rank() {
            Some(Ordering::Less)
        } else if self.rank() > other.rank() {
            Some(Ordering::Greater)
        } else {
            Some(Ordering::Equal)
        }
    }
}

impl PartialOrd for ExtensionType {
    fn partial_cmp(&self, other: &ExtensionType) -> (r: Option<Ordering>) {
        let a = self.rank_number();
        let b = other.rank_number();
        if a < b {
            Some(Ordering::Less)
        } else if a > b {
            Some(Ordering::Greater)
        } else {
            Some(Ordering::Equal)
        }
    }
}

/// The order of extension types is total: of two types one comes first,
/// unless they are the same.
pub proof fn lemma_order_total(a: ExtensionType, b: ExtensionType)
    ensures
        a.partial_cmp_spec(&b) == Some(Ordering::Equal) <==> a == b,
        a.partial_cmp_spec(&b) == Some(Ordering::Less) <==> b.partial_cmp_spec(&a) == Some(
            Ordering::Greater,
        ),
{
    a.lemma_rank();
    b.lemma_rank();
}

/// The order of extension types is transitive.
pub proof fn lemma_order_transitive(a: ExtensionType, b: ExtensionType, c: ExtensionType)
    requires
        a.partial_cmp_spec(&b) == Some(Ordering::Less),
        b.partial_cmp_spec(&c) == Some(Ordering::Less),
    ensures
        a.partial_cmp_spec(&c) == Some(Ordering::Less),
{
}

} // verus!
