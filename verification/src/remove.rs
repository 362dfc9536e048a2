//! Removal: the descent, the splice, and the repair of a lost black node.

use crate::node::{
    black, black_height, child, elements, is_black, is_red, join, join_on, lemma_regroup,
    lemma_unfold, paint, painted, red, red_black, weight, worth, Color, Link,
};
use crate::order::{lt, total_order};
use crate::rotate::{rotate_left, rotate_right};
use crate::sorted::{
    lemma_contains_around, lemma_removed_bounds, lemma_removed_left, lemma_removed_middle,
    lemma_removed_right, lemma_sorted_around, removed, sorted,
};
use core::cmp::Ordering;
use vstd::prelude::*;

verus! {

/// The state in which a node is handed to the repair: the coloring rules hold in both
/// children, but the child on the given side, which is black, is one black node short of its
/// sibling. Under a red root the sibling is black.
pub open spec fn lacking<T>(link: Link<T>, left_side: bool) -> bool {
    let x = child(link, left_side);
    let sib = child(link, !left_side);
    &&& link is Some
    &&& red_black(x)
    &&& red_black(sib)
    &&& black(x)
    &&& black_height(x) + 1 == black_height(sib)
    &&& red(link) ==> black(sib)
}

/// How a subtree stands after a removal below it: the coloring rules hold in it, a black root
/// has stayed black, and its black height is the one asked for, or one less where `deficit`
/// reports it, which happens only under a black root.
pub open spec fn settled<T>(after: Link<T>, deficit: bool, was_red: bool, full: nat) -> bool {
    &&& red_black(after)
    &&& was_red ==> !deficit
    &&& !was_red ==> black(after)
    &&& black_height(after) + if deficit {
        1nat
    } else {
        0nat
    } == full
}

/// What the repair makes of a subtree whose child on the given side is one black node short
/// and has a black sibling. Where both children of the sibling are black, the sibling turns
/// red and the root black. Where the far child of the sibling is red, the sibling comes up in
/// the color of the old root, over the old root and the far child, both black. Where only
/// the near child is red, that child comes up instead, over the old root and the sibling.
pub open spec fn repaired_at_black<T>(link: Link<T>, left_side: bool) -> Link<T>
    recommends
        link is Some,
        child(link, !left_side) is Some,
{
    let p = link.unwrap();
    let x = child(link, left_side);
    let s = child(link, !left_side);
    let near = child(s, left_side);
    let far = child(s, !left_side);
    if black(near) && black(far) {
        join_on(left_side, Color::Black, x, p.value, painted(s, Color::Red))
    } else if black(far) {
        join_on(
            left_side,
            p.color,
            join_on(left_side, Color::Black, x, p.value, child(near, left_side)),
            near.unwrap().value,
            join_on(left_side, Color::Black, child(near, !left_side), s.unwrap().value, far),
        )
    } else {
        join_on(
            left_side,
            p.color,
            join_on(left_side, Color::Black, x, p.value, near),
            s.unwrap().value,
            painted(far, Color::Black),
        )
    }
}

/// What the repair makes of a subtree whose child on the given side is one black node short.
/// A red sibling first comes up as the black root, and the old root goes down red to the
/// short side, where the repair goes on at the black sibling that the short child has there.
pub open spec fn repaired<T>(link: Link<T>, left_side: bool) -> Link<T>
    recommends
        link is Some,
        child(link, !left_side) is Some,
{
    let s = child(link, !left_side);
    if red(s) {
        let inner = join_on(
            left_side,
            Color::Red,
            child(link, left_side),
            link.unwrap().value,
            child(s, left_side),
        );
        join_on(
            left_side,
            Color::Black,
            repaired_at_black(inner, left_side),
            s.unwrap().value,
            child(s, !left_side),
        )
    } else {
        repaired_at_black(link, left_side)
    }
}

/// Whether the repair leaves the whole subtree one black node short: the root, the sibling of
/// the short child and both children of the sibling are black.
pub open spec fn still_short<T>(link: Link<T>, left_side: bool) -> bool {
    let s = child(link, !left_side);
    black(link) && black(s) && black(child(s, true)) && black(child(s, false))
}

/// What the splice leaves in the place of a node of color `gone` that had `child` for its only
/// child, or none: the child, turned black where it is red under a black node, and the report
/// that the place is one black node short where a black node has gone and no red child has
/// made up for it.
pub open spec fn spliced<T>(child: Link<T>, gone: Color) -> (Link<T>, bool) {
    if gone == Color::Red {
        (child, false)
    } else if red(child) {
        (painted(child, Color::Black), false)
    } else {
        (child, true)
    }
}

/// What becomes of a subtree whose child on the given side has come back from a removal:
/// repaired where the child is one black node short, as it is otherwise; with the report
/// whether the subtree is now one black node short itself.
pub open spec fn mended<T>(link: Link<T>, left_side: bool, short: bool) -> (Link<T>, bool) {
    if short {
        (repaired(link, left_side), still_short(link, left_side))
    } else {
        (link, false)
    }
}

/// What the removal of the leftmost node makes of a subtree, with the report whether the
/// subtree is now one black node short.
pub open spec fn without_min<T>(link: Link<T>) -> (Link<T>, bool)
    decreases link,
{
    match link {
        None => (None, false),
        Some(n) => if n.left is None {
            spliced(n.right, n.color)
        } else {
            let below = without_min(n.left);
            mended(join(n.color, below.0, n.value, n.right), true, below.1)
        },
    }
}

/// What the removal of `value` makes of a subtree, with the report whether the subtree is now
/// one black node short. The first node on the search path that holds the value goes: a node
/// with an absent child is spliced out; one with two children takes over the element that
/// follows it in order, the leftmost of its right subtree, whose node goes instead.
pub open spec fn with_removed<T: Ord>(link: Link<T>, value: T) -> (Link<T>, bool)
    decreases link,
{
    match link {
        None => (None, false),
        Some(n) => if lt(value, n.value) {
            let below = with_removed(n.left, value);
            mended(join(n.color, below.0, n.value, n.right), true, below.1)
        } else if lt(n.value, value) {
            let below = with_removed(n.right, value);
            mended(join(n.color, n.left, n.value, below.0), false, below.1)
        } else if n.left is None {
            spliced(n.right, n.color)
        } else if n.right is None {
            spliced(n.left, n.color)
        } else {
            let below = without_min(n.right);
            mended(join(n.color, n.left, elements(n.right)[0], below.0), false, below.1)
        },
    }
}

/// The sibling and both its children are black: the sibling turns red, which takes one black
/// node off its side too, and the parent turns black. Under a red parent that makes up for the
/// loss; under a black one the whole subtree is now one short.
proof fn lemma_push_up<T>(
    side: bool,
    pc: Color,
    x: Link<T>,
    pv: T,
    a: Link<T>,
    sv: T,
    b: Link<T>,
)
    requires
        lacking(join_on(side, pc, x, pv, join_on(side, Color::Black, a, sv, b)), side),
        black(a),
        black(b),
    ensures
        ({
            let sib = join_on(side, Color::Black, a, sv, b);
            let before = join_on(side, pc, x, pv, sib);
            let after = join_on(side, Color::Black, x, pv, join_on(side, Color::Red, a, sv, b));
            &&& elements(after) == elements(before)
            &&& settled(
                after,
                pc == Color::Black,
                pc == Color::Red,
                black_height(sib) + weight(before),
            )
        }),
{
    let sib = join_on(side, Color::Black, a, sv, b);
    let before = join_on(side, pc, x, pv, sib);
    let red_sib = join_on(side, Color::Red, a, sv, b);
    let after = join_on(side, Color::Black, x, pv, red_sib);
    lemma_unfold(before);
    lemma_unfold(sib);
    lemma_unfold(after);
    lemma_unfold(red_sib);
}

/// The sibling is black, its far child black and its near child red: after the near child has
/// turned black, the sibling red, and the sibling has been rotated away from the short side,
/// the short child has a black sibling whose far child is red.
proof fn lemma_near_red<T>(
    side: bool,
    pc: Color,
    x: Link<T>,
    pv: T,
    a1: Link<T>,
    av: T,
    a2: Link<T>,
    sv: T,
    b: Link<T>,
)
    requires
        lacking(
            join_on(
                side,
                pc,
                x,
                pv,
                join_on(side, Color::Black, join_on(side, Color::Red, a1, av, a2), sv, b),
            ),
            side,
        ),
        black(b),
    ensures
        ({
            let sib = join_on(side, Color::Black, join_on(side, Color::Red, a1, av, a2), sv, b);
            let before = join_on(side, pc, x, pv, sib);
            let far = join_on(side, Color::Red, a2, sv, b);
            let turned = join_on(side, Color::Black, a1, av, far);
            let after = join_on(side, pc, x, pv, turned);
            &&& elements(after) == elements(before)
            &&& lacking(after, side)
            &&& black_height(turned) == black_height(sib)
        }),
{
    let near = join_on(side, Color::Red, a1, av, a2);
    let sib = join_on(side, Color::Black, near, sv, b);
    let before = join_on(side, pc, x, pv, sib);
    let far = join_on(side, Color::Red, a2, sv, b);
    let turned = join_on(side, Color::Black, a1, av, far);
    let after = join_on(side, pc, x, pv, turned);
    lemma_unfold(before);
    lemma_unfold(sib);
    lemma_unfold(near);
    lemma_unfold(far);
    lemma_unfold(turned);
    lemma_unfold(after);
    if side {
        lemma_regroup(elements(a1), av, elements(a2), sv, elements(b));
    } else {
        lemma_regroup(elements(b), sv, elements(a2), av, elements(a1));
    }
}

/// The sibling is black and its far child red: the sibling takes the parent's color, the
/// parent and the far child turn black, and the parent is rotated toward the short side. The
/// short side has gained a black node and the other side has kept its count.
proof fn lemma_far_red<T>(
    side: bool,
    pc: Color,
    x: Link<T>,
    pv: T,
    a: Link<T>,
    sv: T,
    b: Link<T>,
)
    requires
        lacking(join_on(side, pc, x, pv, join_on(side, Color::Black, a, sv, b)), side),
        red(b),
    ensures
        ({
            let sib = join_on(side, Color::Black, a, sv, b);
            let before = join_on(side, pc, x, pv, sib);
            let after = join_on(
                side,
                pc,
                join_on(side, Color::Black, x, pv, a),
                sv,
                painted(b, Color::Black),
            );
            &&& elements(after) == elements(before)
            &&& settled(after, false, pc == Color::Red, black_height(sib) + weight(before))
        }),
{
    let sib = join_on(side, Color::Black, a, sv, b);
    let before = join_on(side, pc, x, pv, sib);
    let down = join_on(side, Color::Black, x, pv, a);
    let after = join_on(side, pc, down, sv, painted(b, Color::Black));
    lemma_unfold(before);
    lemma_unfold(sib);
    lemma_unfold(b);
    lemma_unfold(painted(b, Color::Black));
    lemma_unfold(down);
    lemma_unfold(after);
    if side {
        lemma_regroup(elements(x), pv, elements(a), sv, elements(b));
    } else {
        lemma_regroup(elements(b), sv, elements(a), pv, elements(x));
    }
}

/// The sibling is red, so the parent and the sibling's children are black: after the two have
/// swapped colors and the parent has been rotated toward the short side, the short child
/// hangs under a red parent and has a black sibling.
proof fn lemma_red_sibling<T>(
    side: bool,
    pc: Color,
    x: Link<T>,
    pv: T,
    a: Link<T>,
    sv: T,
    b: Link<T>,
)
    requires
        lacking(join_on(side, pc, x, pv, join_on(side, Color::Red, a, sv, b)), side),
    ensures
        ({
            let sib = join_on(side, Color::Red, a, sv, b);
            let before = join_on(side, pc, x, pv, sib);
            let inner = join_on(side, Color::Red, x, pv, a);
            &&& pc == Color::Black
            &&& lacking(inner, side)
            &&& black(a)
            &&& red_black(b)
            &&& black(b)
            &&& black_height(a) == black_height(b)
            &&& black_height(b) + 1 == black_height(sib) + weight(before)
        }),
{
    let sib = join_on(side, Color::Red, a, sv, b);
    let before = join_on(side, pc, x, pv, sib);
    let inner = join_on(side, Color::Red, x, pv, a);
    lemma_unfold(before);
    lemma_unfold(sib);
    lemma_unfold(inner);
}

/// The repair at a black sibling keeps the elements in their order and leaves the coloring
/// rules in force and the black height as it was before the loss, or one less where it
/// reports so.
pub proof fn lemma_repaired_at_black<T>(link: Link<T>, left_side: bool)
    requires
        lacking(link, left_side),
        black(child(link, !left_side)),
    ensures
        elements(repaired_at_black(link, left_side)) == elements(link),
        settled(
            repaired_at_black(link, left_side),
            still_short(link, left_side),
            red(link),
            black_height(child(link, !left_side)) + weight(link),
        ),
{
    let p = link.unwrap();
    let x = child(link, left_side);
    let s = child(link, !left_side);
    lemma_unfold(link);
    let sn = s.unwrap();
    let near = child(s, left_side);
    let far = child(s, !left_side);
    assert(s == join_on(left_side, Color::Black, near, sn.value, far));
    assert(link == join_on(left_side, p.color, x, p.value, s));
    if black(near) && black(far) {
        lemma_push_up(left_side, p.color, x, p.value, near, sn.value, far);
    } else if black(far) {
        let a = near.unwrap();
        let a1 = child(near, left_side);
        let a2 = child(near, !left_side);
        assert(near == join_on(left_side, Color::Red, a1, a.value, a2));
        lemma_near_red(left_side, p.color, x, p.value, a1, a.value, a2, sn.value, far);
        lemma_far_red(
            left_side,
            p.color,
            x,
            p.value,
            a1,
            a.value,
            join_on(left_side, Color::Red, a2, sn.value, far),
        );
    } else {
        lemma_far_red(left_side, p.color, x, p.value, near, sn.value, far);
    }
}

/// The repair keeps the elements in their order and leaves the coloring rules in force and
/// the black height as it was before the loss, or one less where it reports so.
pub proof fn lemma_repaired<T>(link: Link<T>, left_side: bool)
    requires
        lacking(link, left_side),
    ensures
        elements(repaired(link, left_side)) == elements(link),
        settled(
            repaired(link, left_side),
            still_short(link, left_side),
            red(link),
            black_height(child(link, !left_side)) + weight(link),
        ),
{
    let s = child(link, !left_side);
    if red(s) {
        let p = link.unwrap();
        let sn = s.unwrap();
        let x = child(link, left_side);
        let near = child(s, left_side);
        let far = child(s, !left_side);
        assert(s == join_on(left_side, Color::Red, near, sn.value, far));
        assert(link == join_on(left_side, p.color, x, p.value, s));
        lemma_red_sibling(left_side, p.color, x, p.value, near, sn.value, far);
        let inner = join_on(left_side, Color::Red, x, p.value, near);
        lemma_repaired_at_black(inner, left_side);
        let turned = join_on(left_side, Color::Black, inner, sn.value, far);
        lemma_unfold(link);
        lemma_unfold(s);
        lemma_unfold(inner);
        lemma_unfold(turned);
        lemma_unfold(repaired(link, left_side));
        if left_side {
            lemma_regroup(elements(x), p.value, elements(near), sn.value, elements(far));
        } else {
            lemma_regroup(elements(far), sn.value, elements(near), p.value, elements(x));
        }
    } else {
        lemma_repaired_at_black(link, left_side);
    }
}

/// The other child of the node that has the short child on the given side.
pub fn sibling<T>(link: &Link<T>, left_side: bool) -> (sib: &Link<T>)
    requires
        *link is Some,
    ensures
        *sib == child(*link, !left_side),
{
    let node = link.as_ref().unwrap();
    if left_side {
        &node.right
    } else {
        &node.left
    }
}

/// Repairs a subtree whose child on the given side is one black node short, where the sibling
/// of that child is black. Returns whether the whole subtree is now one black node short.
pub fn fix_black_sibling<T>(link: &mut Link<T>, left_side: bool) -> (deficit: bool)
    requires
        lacking(*old(link), left_side),
        black(child(*old(link), !left_side)),
    ensures
        *final(link) == repaired_at_black(*old(link), left_side),
        deficit == still_short(*old(link), left_side),
        elements(*final(link)) == elements(*old(link)),
        settled(
            *final(link),
            deficit,
            red(*old(link)),
            black_height(child(*old(link), !left_side)) + weight(*old(link)),
        ),
{
    proof {
        lemma_repaired_at_black(*link, left_side);
        lemma_unfold(*link);
    }
    let mut p = link.take().unwrap();
    if left_side {
        let mut s = p.right.take().unwrap();
        if is_black(&s.left) && is_black(&s.right) {
            s.color = Color::Red;
            p.right = Some(s);
            let deficit = p.color == Color::Black;
            p.color = Color::Black;
            *link = Some(p);
            deficit
        } else {
            if is_black(&s.right) {
                paint(&mut s.left, Color::Black);
                s.color = Color::Red;
                let mut sub = Some(s);
                rotate_right(&mut sub);
                s = sub.unwrap();
            }
            s.color = p.color;
            p.color = Color::Black;
            paint(&mut s.right, Color::Black);
            p.right = Some(s);
            *link = Some(p);
            rotate_left(link);
            false
        }
    } else {
        let mut s = p.left.take().unwrap();
        if is_black(&s.left) && is_black(&s.right) {
            s.color = Color::Red;
            p.left = Some(s);
            let deficit = p.color == Color::Black;
            p.color = Color::Black;
            *link = Some(p);
            deficit
        } else {
            if is_black(&s.left) {
                paint(&mut s.right, Color::Black);
                s.color = Color::Red;
                let mut sub = Some(s);
                rotate_left(&mut sub);
                s = sub.unwrap();
            }
            s.color = p.color;
            p.color = Color::Black;
            paint(&mut s.left, Color::Black);
            p.left = Some(s);
            *link = Some(p);
            rotate_right(link);
            false
        }
    }
}

/// Repairs a subtree whose child on the given side has come back from a removal one black
/// node short. Returns whether the whole subtree is now one black node short, which it can
/// be only under a black root.
pub fn fix_deletion<T>(link: &mut Link<T>, left_side: bool) -> (deficit: bool)
    requires
        lacking(*old(link), left_side),
    ensures
        *final(link) == repaired(*old(link), left_side),
        deficit == still_short(*old(link), left_side),
        elements(*final(link)) == elements(*old(link)),
        settled(
            *final(link),
            deficit,
            red(*old(link)),
            black_height(child(*old(link), !left_side)) + weight(*old(link)),
        ),
{
    proof {
        lemma_repaired(*link, left_side);
        lemma_unfold(*link);
    }
    if is_black(sibling(link, left_side)) {
        fix_black_sibling(link, left_side)
    } else {
        let mut p = link.take().unwrap();
        proof {
            let s = child(Some(p), !left_side).unwrap();
            lemma_red_sibling(
                left_side,
                p.color,
                child(Some(p), left_side),
                p.value,
                child(Some(s), left_side),
                s.value,
                child(Some(s), !left_side),
            );
        }
        p.color = Color::Red;
        if left_side {
            paint(&mut p.right, Color::Black);
            *link = Some(p);
            rotate_left(link);
            let mut top = link.take().unwrap();
            fix_black_sibling(&mut top.left, true);
            *link = Some(top);
        } else {
            paint(&mut p.left, Color::Black);
            *link = Some(p);
            rotate_right(link);
            let mut top = link.take().unwrap();
            fix_black_sibling(&mut top.right, false);
            *link = Some(top);
        }
        false
    }
}

/// Settles the colors where a node with at most one child has been taken out and that child,
/// which the link now holds, has come into its place. A red node is not missed; a red child
/// turns black and makes up for a black one; otherwise the place is one black node short.
pub fn settle<T>(link: &mut Link<T>, gone: Color) -> (deficit: bool)
    requires
        red_black(*old(link)),
        black_height(*old(link)) == 0,
        gone == Color::Red ==> black(*old(link)),
    ensures
        (*final(link), deficit) == spliced(*old(link), gone),
        elements(*final(link)) == elements(*old(link)),
        settled(*final(link), deficit, gone == Color::Red, worth(gone)),
{
    if gone == Color::Red {
        false
    } else if is_red(link) {
        proof {
            lemma_unfold(*link);
            lemma_unfold(painted(*link, Color::Black));
        }
        paint(link, Color::Black);
        false
    } else {
        true
    }
}

/// Takes the leftmost node out of a subtree that is not empty and hands out its value, with
/// the report whether the subtree is now one black node short.
pub fn remove_min<T>(link: &mut Link<T>) -> (res: (T, bool))
    requires
        *old(link) is Some,
        red_black(*old(link)),
    ensures
        (*final(link), res.1) == without_min(*old(link)),
        elements(*old(link)).len() > 0,
        res.0 == elements(*old(link))[0],
        elements(*final(link)) == elements(*old(link)).drop_first(),
        settled(*final(link), res.1, red(*old(link)), black_height(*old(link))),
    decreases *old(link),
{
    proof {
        lemma_unfold(*link);
    }
    let mut n = link.take().unwrap();
    if n.left.is_none() {
        let node = *n;
        *link = node.right;
        assert(elements(*link) =~= elements(*old(link)).drop_first());
        let deficit = settle(link, node.color);
        (node.value, deficit)
    } else {
        let (min, below) = remove_min(&mut n.left);
        *link = Some(n);
        proof {
            lemma_unfold(*link);
            assert(elements(*link) =~= elements(*old(link)).drop_first());
        }
        let deficit = if below {
            fix_deletion(link, true)
        } else {
            false
        };
        (min, deficit)
    }
}

/// Takes one occurrence of `value` out of the subtree, if there is one, and reports whether
/// the subtree is now one black node short. A subtree that does not hold the value is left
/// exactly as it was.
pub fn remove_recursive<T: Ord>(link: &mut Link<T>, value: &T) -> (deficit: bool)
    requires
        total_order::<T>(),
        red_black(*old(link)),
        sorted(elements(*old(link))),
    ensures
        (*final(link), deficit) == with_removed(*old(link), *value),
        sorted(elements(*final(link))),
        elements(*old(link)).contains(*value) ==> removed(
            elements(*old(link)),
            elements(*final(link)),
            *value,
        ),
        !elements(*old(link)).contains(*value) ==> *final(link) == *old(link) && !deficit,
        settled(*final(link), deficit, red(*old(link)), black_height(*old(link))),
    decreases *old(link),
{
    match link.take() {
        None => false,
        Some(mut n) => {
            let ghost l = elements(n.left);
            let ghost r = elements(n.right);
            let ghost v = n.value;
            proof {
                lemma_unfold(*old(link));
                lemma_sorted_around(l, v, r);
                lemma_contains_around(l, v, r, *value);
            }
            match value.cmp(&n.value) {
                Ordering::Less => {
                    let below = remove_recursive(&mut n.left, value);
                    *link = Some(n);
                    proof {
                        lemma_unfold(*link);
                        if l.contains(*value) {
                            lemma_removed_left(l, elements(n.left), v, r, *value);
                        }
                    }
                    let deficit = if below {
                        fix_deletion(link, true)
                    } else {
                        false
                    };
                    proof {
                        if l.contains(*value) {
                            lemma_removed_bounds(
                                elements(*old(link)),
                                elements(*link),
                                *value,
                                *value,
                            );
                        }
                    }
                    deficit
                },
                Ordering::Greater => {
                    let below = remove_recursive(&mut n.right, value);
                    *link = Some(n);
                    proof {
                        lemma_unfold(*link);
                        if r.contains(*value) {
                            lemma_removed_right(l, v, r, elements(n.right), *value);
                        }
                    }
                    let deficit = if below {
                        fix_deletion(link, false)
                    } else {
                        false
                    };
                    proof {
                        if r.contains(*value) {
                            lemma_removed_bounds(
                                elements(*old(link)),
                                elements(*link),
                                *value,
                                *value,
                            );
                        }
                    }
                    deficit
                },
                Ordering::Equal => {
                    proof {
                        lemma_removed_middle(l, v, r);
                    }
                    let deficit = if n.left.is_none() {
                        let node = *n;
                        *link = node.right;
                        assert(elements(*link) =~= l + r);
                        settle(link, node.color)
                    } else if n.right.is_none() {
                        let node = *n;
                        *link = node.left;
                        assert(elements(*link) =~= l + r);
                        settle(link, node.color)
                    } else {
                        let (next, below) = remove_min(&mut n.right);
                        n.value = next;
                        *link = Some(n);
                        proof {
                            lemma_unfold(*link);
                        }
                        if below {
                            fix_deletion(link, false)
                        } else {
                            false
                        }
                    };
                    proof {
                        lemma_removed_bounds(elements(*old(link)), elements(*link), *value, *value);
                    }
                    deficit
                },
            }
        },
    }
}

} // verus!
