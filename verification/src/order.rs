//! The order that the tree keeps its elements in.

use core::cmp::Ordering;
use vstd::prelude::*;
use vstd::std_specs::cmp::OrdSpec;

verus! {

/// `a` does not come after `b`.
pub open spec fn le<T: Ord>(a: T, b: T) -> bool {
    a.cmp_spec(&b) != Ordering::Greater
}

/// `a` comes before `b`.
pub open spec fn lt<T: Ord>(a: T, b: T) -> bool {
    a.cmp_spec(&b) == Ordering::Less
}

/// The comparison of `T` is a total order in which only a value and itself compare as equal,
/// and `cmp` computes it.
pub open spec fn total_order<T: Ord>() -> bool {
    &&& T::obeys_cmp_spec()
    &&& forall|a: T, b: T| (#[trigger] a.cmp_spec(&b) == Ordering::Equal) <==> a == b
    &&& forall|a: T, b: T|
        (#[trigger] a.cmp_spec(&b) == Ordering::Less) <==> b.cmp_spec(&a) == Ordering::Greater
    &&& forall|a: T, b: T, c: T| #[trigger] le(a, b) && #[trigger] le(b, c) ==> le(a, c)
}

/// No value comes after itself.
pub proof fn lemma_le_reflexive<T: Ord>(a: T)
    requires
        total_order::<T>(),
    ensures
        le(a, a),
{
    assert(a.cmp_spec(&a) == Ordering::Equal);
}

/// Whether `a` does not come after `b`.
pub fn not_after<T: Ord>(a: &T, b: &T) -> (ok: bool)
    requires
        total_order::<T>(),
    ensures
        ok == le(*a, *b),
{
    match a.cmp(b) {
        Ordering::Greater => false,
        _ => true,
    }
}

} // verus!
