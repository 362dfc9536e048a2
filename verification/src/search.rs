//! Lookup along the search path.

use crate::node::{elements, lemma_unfold, Link};
use crate::order::total_order;
use crate::sorted::{lemma_contains_around, lemma_sorted_around, sorted};
use core::cmp::Ordering;
use vstd::prelude::*;

verus! {

/// Whether the subtree holds `value`: at each node the search ends on an equal element, goes
/// left for a smaller value and right for a greater one, and fails on an absent child.
pub fn search_recursive<T: Ord>(link: &Link<T>, value: &T) -> (found: bool)
    requires
        total_order::<T>(),
        sorted(elements(*link)),
    ensures
        found == elements(*link).contains(*value),
    decreases *link,
{
    match link {
        None => false,
        Some(n) => {
            proof {
                lemma_unfold(*link);
                lemma_contains_around(elements(n.left), n.value, elements(n.right), *value);
                lemma_sorted_around(elements(n.left), n.value, elements(n.right));
            }
            match value.cmp(&n.value) {
                Ordering::Equal => true,
                Ordering::Less => search_recursive(&n.left, value),
                Ordering::Greater => search_recursive(&n.right, value),
            }
        },
    }
}

} // verus!
