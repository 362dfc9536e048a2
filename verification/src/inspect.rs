//! Walks that measure a subtree or check it against the rules.

use crate::node::{
    black_height, elements, height, is_red, lemma_unfold, red, red_black, Color, Link,
};
use crate::order::{le, not_after, total_order};
use crate::sorted::{all_ge, all_le, lemma_sorted_around, sorted};
use vstd::arithmetic::power::{lemma_pow_positive, pow};
use vstd::prelude::*;

verus! {

/// A subtree has at least as many nodes as its height, and its height is at least its black
/// height.
pub proof fn lemma_measures<T>(link: Link<T>)
    ensures
        black_height(link) <= height(link) <= elements(link).len(),
    decreases link,
{
    if let Some(n) = link {
        lemma_unfold(link);
        lemma_measures(n.left);
        lemma_measures(n.right);
    }
}

/// Where the coloring rules hold, a subtree is at most twice as high as its black height, and
/// one more under a red root, and it has at least two to the power of its black height, less
/// one, nodes.
pub proof fn lemma_red_black_measures<T>(link: Link<T>)
    requires
        red_black(link),
    ensures
        height(link) <= 2 * black_height(link) + if red(link) {
            1nat
        } else {
            0nat
        },
        pow(2, black_height(link)) <= elements(link).len() + 1,
    decreases link,
{
    reveal(pow);
    if let Some(n) = link {
        lemma_unfold(link);
        lemma_red_black_measures(n.left);
        lemma_red_black_measures(n.right);
        assert(elements(link).len() == elements(n.left).len() + 1 + elements(n.right).len());
        if n.color == Color::Black {
            assert(pow(2, black_height(link)) == 2 * pow(2, black_height(n.left)));
        }
        lemma_pow_positive(2, black_height(n.left));
    }
}

/// The number of nodes of the subtree.
pub fn count<T>(link: &Link<T>) -> (n: usize)
    requires
        elements(*link).len() <= usize::MAX,
    ensures
        n == elements(*link).len(),
    decreases *link,
{
    match link {
        None => 0,
        Some(node) => {
            proof {
                lemma_unfold(*link);
            }
            count(&node.left) + 1 + count(&node.right)
        },
    }
}

/// The height of the subtree.
pub fn measure_height<T>(link: &Link<T>) -> (h: usize)
    requires
        elements(*link).len() <= usize::MAX,
    ensures
        h == height(*link),
    decreases *link,
{
    match link {
        None => 0,
        Some(node) => {
            proof {
                lemma_unfold(*link);
                lemma_measures(*link);
            }
            let l = measure_height(&node.left);
            let r = measure_height(&node.right);
            if l >= r {
                l + 1
            } else {
                r + 1
            }
        },
    }
}

/// The number of black nodes on the leftmost path of the subtree.
pub fn measure_black_height<T>(link: &Link<T>) -> (h: usize)
    requires
        elements(*link).len() <= usize::MAX,
    ensures
        h == black_height(*link),
    decreases *link,
{
    match link {
        None => 0,
        Some(node) => {
            proof {
                lemma_unfold(*link);
                lemma_measures(*link);
            }
            let below = measure_black_height(&node.left);
            if node.color == Color::Black {
                below + 1
            } else {
                below
            }
        },
    }
}

/// The black height of the subtree if the coloring rules hold in it, and nothing if they do
/// not.
pub fn check_colors<T>(link: &Link<T>) -> (res: Option<usize>)
    requires
        elements(*link).len() <= usize::MAX,
    ensures
        res is Some <==> red_black(*link),
        res matches Some(h) ==> h == black_height(*link),
    decreases *link,
{
    match link {
        None => Some(0),
        Some(node) => {
            proof {
                lemma_unfold(*link);
                lemma_measures(*link);
            }
            let red_pair = node.color == Color::Red && (is_red(&node.left) || is_red(
                &node.right,
            ));
            let left = check_colors(&node.left);
            let right = check_colors(&node.right);
            match (left, right) {
                (Some(a), Some(b)) => {
                    if red_pair || a != b {
                        None
                    } else if node.color == Color::Black {
                        Some(a + 1)
                    } else {
                        Some(a)
                    }
                },
                _ => None,
            }
        },
    }
}

/// Every element lies between the two bounds, as far as they are given.
pub open spec fn within<T: Ord>(s: Seq<T>, low: Option<&T>, high: Option<&T>) -> bool {
    &&& low matches Some(a) ==> all_ge(s, *a)
    &&& high matches Some(b) ==> all_le(s, *b)
}

/// A sequence around a middle element keeps to the bounds exactly if the middle element and
/// both sides do.
proof fn lemma_within_around<T: Ord>(
    l: Seq<T>,
    v: T,
    r: Seq<T>,
    low: Option<&T>,
    high: Option<&T>,
)
    ensures
        within(l.push(v) + r, low, high) <==> {
            &&& within(l, low, high)
            &&& within(r, low, high)
            &&& low matches Some(a) ==> le(*a, v)
            &&& high matches Some(b) ==> le(v, *b)
        },
{
    let w = l.push(v) + r;
    let n = l.len() as int;
    assert(w[n] == v);
    assert forall|i: int| 0 <= i < n implies w[i] == l[i] by {}
    assert forall|i: int| 0 <= i < r.len() implies w[n + 1 + i] == r[i] by {}
    if let Some(a) = low {
        if all_ge(w, *a) {
            assert(le(*a, w[n]));
            assert forall|i: int| 0 <= i < l.len() implies le(*a, #[trigger] l[i]) by {
                assert(le(*a, w[i]));
            }
            assert forall|i: int| 0 <= i < r.len() implies le(*a, #[trigger] r[i]) by {
                assert(le(*a, w[n + 1 + i]));
            }
        }
        if all_ge(l, *a) && all_ge(r, *a) && le(*a, v) {
            assert forall|i: int| 0 <= i < w.len() implies le(*a, #[trigger] w[i]) by {
                if i < n {
                    assert(le(*a, l[i]));
                } else if i > n {
                    assert(le(*a, r[i - n - 1]));
                }
            }
        }
    }
    if let Some(b) = high {
        if all_le(w, *b) {
            assert(le(w[n], *b));
            assert forall|i: int| 0 <= i < l.len() implies le(#[trigger] l[i], *b) by {
                assert(le(w[i], *b));
            }
            assert forall|i: int| 0 <= i < r.len() implies le(#[trigger] r[i], *b) by {
                assert(le(w[n + 1 + i], *b));
            }
        }
        if all_le(l, *b) && all_le(r, *b) && le(v, *b) {
            assert forall|i: int| 0 <= i < w.len() implies le(#[trigger] w[i], *b) by {
                if i < n {
                    assert(le(l[i], *b));
                } else if i > n {
                    assert(le(r[i - n - 1], *b));
                }
            }
        }
    }
}

/// A bound on the middle element of a sorted sequence bounds the side beyond it.
proof fn lemma_bound_carries<T: Ord>(s: Seq<T>, v: T, low: Option<&T>, high: Option<&T>)
    requires
        total_order::<T>(),
    ensures
        high matches Some(b) ==> (all_le(s, v) && le(v, *b) ==> all_le(s, *b)),
        low matches Some(a) ==> (all_ge(s, v) && le(*a, v) ==> all_ge(s, *a)),
{
    if let Some(b) = high {
        if all_le(s, v) && le(v, *b) {
            assert forall|i: int| 0 <= i < s.len() implies le(#[trigger] s[i], *b) by {
                assert(le(s[i], v));
            }
        }
    }
    if let Some(a) = low {
        if all_ge(s, v) && le(*a, v) {
            assert forall|i: int| 0 <= i < s.len() implies le(*a, #[trigger] s[i]) by {
                assert(le(v, s[i]));
            }
        }
    }
}

/// Whether the elements of the subtree, left to right, are in ascending order and keep to the
/// bounds that are given.
pub fn check_order<T: Ord>(link: &Link<T>, low: Option<&T>, high: Option<&T>) -> (ok: bool)
    requires
        total_order::<T>(),
    ensures
        ok == (sorted(elements(*link)) && within(elements(*link), low, high)),
    decreases *link,
{
    match link {
        None => true,
        Some(node) => {
            let ghost l = elements(node.left);
            let ghost r = elements(node.right);
            proof {
                lemma_unfold(*link);
                lemma_sorted_around(l, node.value, r);
                lemma_within_around(l, node.value, r, low, high);
                lemma_bound_carries(l, node.value, low, high);
                lemma_bound_carries(r, node.value, low, high);
            }
            let low_ok = match low {
                None => true,
                Some(a) => not_after(a, &node.value),
            };
            let high_ok = match high {
                None => true,
                Some(b) => not_after(&node.value, b),
            };
            low_ok && high_ok && check_order(&node.left, low, Some(&node.value)) && check_order(
                &node.right,
                Some(&node.value),
                high,
            )
        },
    }
}

/// Appends clones of the elements of the subtree, left to right.
pub fn collect<T: Clone>(link: &Link<T>, out: &mut Vec<T>)
    ensures
        final(out)@.len() == old(out)@.len() + elements(*link).len(),
        forall|i: int| 0 <= i < old(out)@.len() ==> final(out)@[i] == old(out)@[i],
        forall|i: int|
            0 <= i < elements(*link).len() ==> cloned(
                #[trigger] elements(*link)[i],
                final(out)@[old(out)@.len() + i],
            ),
    decreases *link,
{
    match link {
        None => {},
        Some(node) => {
            proof {
                lemma_unfold(*link);
            }
            collect(&node.left, out);
            out.push(node.value.clone());
            collect(&node.right, out);
        },
    }
}

} // verus!
