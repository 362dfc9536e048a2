//! Sequences in ascending order, and what one insertion or removal does to them.

use crate::order::{le, lt, total_order};
use vstd::prelude::*;

verus! {

/// No element comes after a later one.
pub open spec fn sorted<T: Ord>(s: Seq<T>) -> bool {
    forall|i: int, j: int| 0 <= i < j < s.len() ==> le(#[trigger] s[i], #[trigger] s[j])
}

/// No element of `s` comes after `v`.
pub open spec fn all_le<T: Ord>(s: Seq<T>, v: T) -> bool {
    forall|i: int| 0 <= i < s.len() ==> le(#[trigger] s[i], v)
}

/// No element of `s` comes before `v`.
pub open spec fn all_ge<T: Ord>(s: Seq<T>, v: T) -> bool {
    forall|i: int| 0 <= i < s.len() ==> le(v, #[trigger] s[i])
}

/// `after` is `before` with one `value` put in somewhere.
pub open spec fn inserted<T>(before: Seq<T>, after: Seq<T>, value: T) -> bool {
    exists|k: int| 0 <= k <= before.len() && after == #[trigger] before.insert(k, value)
}

/// `after` is `before` with one occurrence of `value` taken out.
pub open spec fn removed<T>(before: Seq<T>, after: Seq<T>, value: T) -> bool {
    exists|k: int|
        0 <= k < before.len() && before[k] == value && after == #[trigger] before.remove(k)
}

/// A sequence around a middle element is sorted exactly if both sides are and the middle
/// element bounds them.
pub proof fn lemma_sorted_around<T: Ord>(l: Seq<T>, v: T, r: Seq<T>)
    requires
        total_order::<T>(),
    ensures
        sorted(l.push(v) + r) <==> sorted(l) && sorted(r) && all_le(l, v) && all_ge(r, v),
{
    let w = l.push(v) + r;
    let n = l.len() as int;
    assert(w.len() == n + 1 + r.len());
    assert(w[n] == v);
    assert forall|i: int| 0 <= i < n implies w[i] == l[i] by {}
    assert forall|i: int| 0 <= i < r.len() implies w[n + 1 + i] == r[i] by {}
    if sorted(w) {
        assert forall|i: int, j: int| 0 <= i < j < l.len() implies le(l[i], l[j]) by {
            assert(le(w[i], w[j]));
        }
        assert forall|i: int, j: int| 0 <= i < j < r.len() implies le(r[i], r[j]) by {
            assert(le(w[n + 1 + i], w[n + 1 + j]));
        }
        assert forall|i: int| 0 <= i < l.len() implies le(l[i], v) by {
            assert(le(w[i], w[n]));
        }
        assert forall|i: int| 0 <= i < r.len() implies le(v, r[i]) by {
            assert(le(w[n], w[n + 1 + i]));
        }
    }
    if sorted(l) && sorted(r) && all_le(l, v) && all_ge(r, v) {
        assert forall|i: int, j: int| 0 <= i < j < w.len() implies le(w[i], w[j]) by {
            if j < n {
                assert(le(l[i], l[j]));
            } else if j == n {
                assert(le(l[i], v));
            } else if i < n {
                assert(le(l[i], v));
                assert(le(v, r[j - n - 1]));
            } else if i == n {
                assert(le(v, r[j - n - 1]));
            } else {
                assert(le(r[i - n - 1], r[j - n - 1]));
            }
        }
    }
}

/// In a sorted sequence around `v`, a value that comes before `v` occurs on the left or not at
/// all, one that comes after `v` on the right or not at all, and `v` itself occurs.
pub proof fn lemma_contains_around<T: Ord>(l: Seq<T>, v: T, r: Seq<T>, value: T)
    requires
        total_order::<T>(),
        sorted(l.push(v) + r),
    ensures
        (l.push(v) + r).contains(v),
        lt(value, v) ==> !r.contains(value) && ((l.push(v) + r).contains(value) <==> l.contains(
            value,
        )),
        lt(v, value) ==> !l.contains(value) && ((l.push(v) + r).contains(value) <==> r.contains(
            value,
        )),
{
    let w = l.push(v) + r;
    let n = l.len() as int;
    lemma_sorted_around(l, v, r);
    assert(w[n] == v);
    assert forall|i: int| 0 <= i < n implies w[i] == l[i] by {}
    assert forall|i: int| 0 <= i < r.len() implies w[n + 1 + i] == r[i] by {}
    if lt(value, v) {
        if r.contains(value) {
            let i = choose|i: int| 0 <= i < r.len() && r[i] == value;
            assert(le(v, r[i]));
        }
        if w.contains(value) {
            let i = choose|i: int| 0 <= i < w.len() && w[i] == value;
            if i > n {
                assert(r[i - n - 1] == value);
                assert(r.contains(value));
            }
            assert(l[i] == value);
        }
        if l.contains(value) {
            let i = choose|i: int| 0 <= i < l.len() && l[i] == value;
            assert(w[i] == value);
        }
    }
    if lt(v, value) {
        if l.contains(value) {
            let i = choose|i: int| 0 <= i < l.len() && l[i] == value;
            assert(le(l[i], v));
        }
        if w.contains(value) {
            let i = choose|i: int| 0 <= i < w.len() && w[i] == value;
            if i < n {
                assert(l[i] == value);
                assert(l.contains(value));
            }
            assert(r[i - n - 1] == value);
        }
        if r.contains(value) {
            let i = choose|i: int| 0 <= i < r.len() && r[i] == value;
            assert(w[n + 1 + i] == value);
        }
    }
}

/// An insertion on the left of the middle element is an insertion into the whole.
pub proof fn lemma_inserted_left<T>(l: Seq<T>, l2: Seq<T>, v: T, r: Seq<T>, value: T)
    requires
        inserted(l, l2, value),
    ensures
        inserted(l.push(v) + r, l2.push(v) + r, value),
{
    let k = choose|k: int| 0 <= k <= l.len() && l2 == #[trigger] l.insert(k, value);
    assert(l2.push(v) + r =~= (l.push(v) + r).insert(k, value));
}

/// An insertion on the right of the middle element is an insertion into the whole.
pub proof fn lemma_inserted_right<T>(l: Seq<T>, v: T, r: Seq<T>, r2: Seq<T>, value: T)
    requires
        inserted(r, r2, value),
    ensures
        inserted(l.push(v) + r, l.push(v) + r2, value),
{
    let k = choose|k: int| 0 <= k <= r.len() && r2 == #[trigger] r.insert(k, value);
    assert(l.push(v) + r2 =~= (l.push(v) + r).insert(l.len() + 1 + k, value));
}

/// A removal on the left of the middle element is a removal from the whole.
pub proof fn lemma_removed_left<T>(l: Seq<T>, l2: Seq<T>, v: T, r: Seq<T>, value: T)
    requires
        removed(l, l2, value),
    ensures
        removed(l.push(v) + r, l2.push(v) + r, value),
{
    let k = choose|k: int| 0 <= k < l.len() && l[k] == value && l2 == #[trigger] l.remove(k);
    assert(l2.push(v) + r =~= (l.push(v) + r).remove(k));
    assert((l.push(v) + r)[k] == value);
}

/// A removal on the right of the middle element is a removal from the whole.
pub proof fn lemma_removed_right<T>(l: Seq<T>, v: T, r: Seq<T>, r2: Seq<T>, value: T)
    requires
        removed(r, r2, value),
    ensures
        removed(l.push(v) + r, l.push(v) + r2, value),
{
    let k = choose|k: int| 0 <= k < r.len() && r[k] == value && r2 == #[trigger] r.remove(k);
    assert(l.push(v) + r2 =~= (l.push(v) + r).remove(l.len() + 1 + k));
    assert((l.push(v) + r)[l.len() + 1 + k] == value);
}

/// Taking the middle element out, with or without the first element of the right side moving
/// into its place, is a removal from the whole.
pub proof fn lemma_removed_middle<T>(l: Seq<T>, v: T, r: Seq<T>)
    ensures
        removed(l.push(v) + r, l + r, v),
        r.len() > 0 ==> removed(l.push(v) + r, l.push(r[0]) + r.drop_first(), v),
{
    let w = l.push(v) + r;
    let n = l.len() as int;
    assert(w[n] == v);
    assert(l + r =~= w.remove(n));
    if r.len() > 0 {
        assert(l.push(r[0]) + r.drop_first() =~= w.remove(n));
    }
}

/// After an insertion a sequence is sorted again if it was sorted before, and bounded as
/// before if the new element keeps to the bound.
pub proof fn lemma_inserted_bounds<T: Ord>(before: Seq<T>, after: Seq<T>, value: T, v: T)
    requires
        inserted(before, after, value),
    ensures
        all_le(before, v) && le(value, v) ==> all_le(after, v),
        all_ge(before, v) && le(v, value) ==> all_ge(after, v),
{
    let k = choose|k: int| 0 <= k <= before.len() && after == #[trigger] before.insert(k, value);
    assert forall|i: int| 0 <= i < after.len() implies after[i] == (if i < k {
        before[i]
    } else if i == k {
        value
    } else {
        before[i - 1]
    }) by {}
    if all_le(before, v) && le(value, v) {
        assert forall|i: int| 0 <= i < after.len() implies le(#[trigger] after[i], v) by {
            if i < k {
                assert(le(before[i], v));
            } else if i > k {
                assert(le(before[i - 1], v));
            }
        }
    }
    if all_ge(before, v) && le(v, value) {
        assert forall|i: int| 0 <= i < after.len() implies le(v, #[trigger] after[i]) by {
            if i < k {
                assert(le(v, before[i]));
            } else if i > k {
                assert(le(v, before[i - 1]));
            }
        }
    }
}

/// After a removal a sequence is sorted if it was sorted before, and bounded as before.
pub proof fn lemma_removed_bounds<T: Ord>(before: Seq<T>, after: Seq<T>, value: T, v: T)
    requires
        removed(before, after, value),
    ensures
        sorted(before) ==> sorted(after),
        all_le(before, v) ==> all_le(after, v),
        all_ge(before, v) ==> all_ge(after, v),
{
    let k = choose|k: int|
        0 <= k < before.len() && before[k] == value && after == #[trigger] before.remove(k);
    assert forall|i: int| 0 <= i < after.len() implies after[i] == (if i < k {
        before[i]
    } else {
        before[i + 1]
    }) by {}
    if sorted(before) {
        assert forall|i: int, j: int| 0 <= i < j < after.len() implies le(
            #[trigger] after[i],
            #[trigger] after[j],
        ) by {
            let i0 = if i < k { i } else { i + 1 };
            let j0 = if j < k { j } else { j + 1 };
            assert(le(before[i0], before[j0]));
        }
    }
    if all_le(before, v) {
        assert forall|i: int| 0 <= i < after.len() implies le(#[trigger] after[i], v) by {
            let i0 = if i < k { i } else { i + 1 };
            assert(le(before[i0], v));
        }
    }
    if all_ge(before, v) {
        assert forall|i: int| 0 <= i < after.len() implies le(v, #[trigger] after[i]) by {
            let i0 = if i < k { i } else { i + 1 };
            assert(le(v, before[i0]));
        }
    }
}

} // verus!
