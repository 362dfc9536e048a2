//! The two rotations.

use crate::node::{elements, join, lemma_regroup, Link};
use vstd::prelude::*;

verus! {

/// What a left rotation makes of a subtree: the right child comes up, the old root becomes
/// its left child and takes over the left subtree that the child had.
pub open spec fn rotated_left<T>(link: Link<T>) -> Link<T>
    recommends
        link matches Some(p) && p.right is Some,
{
    let p = link.unwrap();
    let c = p.right.unwrap();
    join(c.color, join(p.color, p.left, p.value, c.left), c.value, c.right)
}

/// What a right rotation makes of a subtree: the mirror image of [`rotated_left`].
pub open spec fn rotated_right<T>(link: Link<T>) -> Link<T>
    recommends
        link matches Some(p) && p.left is Some,
{
    let p = link.unwrap();
    let c = p.left.unwrap();
    join(c.color, c.left, c.value, join(p.color, c.right, p.value, p.right))
}

/// A left rotation keeps the elements in their order.
pub proof fn lemma_rotated_left_elements<T>(link: Link<T>)
    requires
        link matches Some(p) && p.right is Some,
    ensures
        elements(rotated_left(link)) == elements(link),
{
    let p = link.unwrap();
    let c = p.right.unwrap();
    let inner = join(p.color, p.left, p.value, c.left);
    assert(elements(inner) == elements(p.left).push(p.value) + elements(c.left));
    assert(elements(p.right) == elements(c.left).push(c.value) + elements(c.right));
    lemma_regroup(elements(p.left), p.value, elements(c.left), c.value, elements(c.right));
}

/// Rotates the subtree to the left: its right child, which must be there, becomes the root.
/// Every node keeps its color, and the elements keep their order.
pub fn rotate_left<T>(link: &mut Link<T>)
    requires
        *old(link) matches Some(p) && p.right is Some,
    ensures
        *final(link) == rotated_left(*old(link)),
        elements(*final(link)) == elements(*old(link)),
{
    proof {
        lemma_rotated_left_elements(*link);
    }
    let mut p = link.take().unwrap();
    let mut c = p.right.take().unwrap();
    p.right = c.left.take();
    c.left = Some(p);
    *link = Some(c);
}

/// A right rotation keeps the elements in their order.
pub proof fn lemma_rotated_right_elements<T>(link: Link<T>)
    requires
        link matches Some(p) && p.left is Some,
    ensures
        elements(rotated_right(link)) == elements(link),
{
    let p = link.unwrap();
    let c = p.left.unwrap();
    let inner = join(p.color, c.right, p.value, p.right);
    assert(elements(inner) == elements(c.right).push(p.value) + elements(p.right));
    assert(elements(p.left) == elements(c.left).push(c.value) + elements(c.right));
    lemma_regroup(elements(c.left), c.value, elements(c.right), p.value, elements(p.right));
}

/// Rotates the subtree to the right: its left child, which must be there, becomes the root.
/// Every node keeps its color, and the elements keep their order.
pub fn rotate_right<T>(link: &mut Link<T>)
    requires
        *old(link) matches Some(p) && p.left is Some,
    ensures
        *final(link) == rotated_right(*old(link)),
        elements(*final(link)) == elements(*old(link)),
{
    proof {
        lemma_rotated_right_elements(*link);
    }
    let mut p = link.take().unwrap();
    let mut c = p.left.take().unwrap();
    p.left = c.right.take();
    c.right = Some(p);
    *link = Some(c);
}

} // verus!
