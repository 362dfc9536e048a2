//! Insertion: the descent to an absent child, and the repair of a red node under a red node.

use crate::node::{
    black, black_height, child, elements, has_red_child, is_red, join, join_on, lemma_regroup,
    lemma_unfold, near_red_black, paint, painted, red, red_black, weight, Color, Link, Node,
};
use crate::order::{lemma_le_reflexive, lt, total_order};
use crate::rotate::{rotate_left, rotate_right};
use crate::sorted::{
    inserted, lemma_inserted_bounds, lemma_inserted_left, lemma_inserted_right,
    lemma_sorted_around, sorted,
};
use core::cmp::Ordering;
use vstd::prelude::*;

verus! {

/// The state in which a node is handed to the repair: the coloring rules hold in both
/// children, which have the same black height, except that the child on the given side, which
/// has come back from an insertion, may have a red root over one red child. Under a red root
/// not even that: there the child has no flaw, and the other child is black.
pub open spec fn grown<T>(link: Link<T>, left_side: bool) -> bool {
    let p = child(link, left_side);
    let u = child(link, !left_side);
    &&& link is Some
    &&& near_red_black(p)
    &&& red_black(u)
    &&& black_height(p) == black_height(u)
    &&& red(link) ==> red_black(p) && black(u)
}

/// How a subtree stands after an insertion below it: its black height is the one asked for,
/// and the coloring rules hold in it, except that under a root that was red the root may have
/// one red child.
pub open spec fn regrown<T>(after: Link<T>, was_red: bool, full: nat) -> bool {
    &&& near_red_black(after)
    &&& !was_red ==> red_black(after)
    &&& black_height(after) == full
}

/// What the repair makes of a subtree whose child on the given side has come back from an
/// insertion. Where that child is red over a red child: under a red uncle, child and uncle
/// turn black and the root red; under a black uncle the child comes up as the black root, or,
/// where its red child is the inner one, that grandchild does, and the old root goes down
/// red to the other side. Where it is not, nothing changes.
pub open spec fn repaired<T>(link: Link<T>, left_side: bool) -> Link<T>
    recommends
        link is Some,
{
    let g = link.unwrap();
    let p = child(link, left_side);
    let u = child(link, !left_side);
    let outer = child(p, left_side);
    let inner = child(p, !left_side);
    if !(red(p) && (red(outer) || red(inner))) {
        link
    } else if red(u) {
        join_on(left_side, Color::Red, painted(p, Color::Black), g.value, painted(u, Color::Black))
    } else if red(inner) {
        join_on(
            left_side,
            Color::Black,
            join_on(left_side, Color::Red, outer, p.unwrap().value, child(inner, left_side)),
            inner.unwrap().value,
            join_on(left_side, Color::Red, child(inner, !left_side), g.value, u),
        )
    } else {
        join_on(
            left_side,
            Color::Black,
            outer,
            p.unwrap().value,
            join_on(left_side, Color::Red, inner, g.value, u),
        )
    }
}

/// What an insertion makes of a subtree. The new element becomes a red node in the place of
/// the absent child on which the search for its place ends, which goes left of an element that
/// comes after it and right of any other; every node passed is repaired on the way back up.
pub open spec fn with_inserted<T: Ord>(link: Link<T>, value: T) -> Link<T>
    decreases link,
{
    match link {
        None => join(Color::Red, None, value, None),
        Some(n) => if lt(value, n.value) {
            repaired(join(n.color, with_inserted(n.left, value), n.value, n.right), true)
        } else {
            repaired(join(n.color, n.left, n.value, with_inserted(n.right, value)), false)
        },
    }
}

/// Nothing to repair: the child is black, or red over two black children.
proof fn lemma_at_rest<T>(side: bool, link: Link<T>)
    requires
        grown(link, side),
        ({
            let p = child(link, side);
            !(red(p) && (red(child(p, true)) || red(child(p, false))))
        }),
    ensures
        regrown(link, red(link), black_height(child(link, !side)) + weight(link)),
{
    lemma_unfold(link);
    if child(link, side) is Some {
        lemma_unfold(child(link, side));
    }
}

/// The uncle is red: parent and uncle turn black and the grandparent red, which keeps every
/// count and leaves the grandparent as the only node that may now stand under a red one.
proof fn lemma_red_uncle<T>(side: bool, gc: Color, p: Link<T>, gv: T, u: Link<T>)
    requires
        grown(join_on(side, gc, p, gv, u), side),
        red(p),
        red(u),
    ensures
        ({
            let before = join_on(side, gc, p, gv, u);
            let after = join_on(
                side,
                Color::Red,
                painted(p, Color::Black),
                gv,
                painted(u, Color::Black),
            );
            &&& gc == Color::Black
            &&& elements(after) == elements(before)
            &&& regrown(after, false, black_height(u) + weight(before))
        }),
{
    let before = join_on(side, gc, p, gv, u);
    let after = join_on(side, Color::Red, painted(p, Color::Black), gv, painted(u, Color::Black));
    lemma_unfold(before);
    lemma_unfold(p);
    lemma_unfold(u);
    lemma_unfold(painted(p, Color::Black));
    lemma_unfold(painted(u, Color::Black));
    lemma_unfold(after);
}

/// The uncle is black and the red child is the inner one: after the parent has been rotated
/// toward the outside, the red child stands in the parent's place with the parent as its
/// outer child.
proof fn lemma_zig_zag<T>(
    side: bool,
    gc: Color,
    o: Link<T>,
    pv: T,
    z1: Link<T>,
    zv: T,
    z2: Link<T>,
    gv: T,
    u: Link<T>,
)
    requires
        grown(
            join_on(
                side,
                gc,
                join_on(side, Color::Red, o, pv, join_on(side, Color::Red, z1, zv, z2)),
                gv,
                u,
            ),
            side,
        ),
    ensures
        ({
            let z = join_on(side, Color::Red, z1, zv, z2);
            let p = join_on(side, Color::Red, o, pv, z);
            let before = join_on(side, gc, p, gv, u);
            let down = join_on(side, Color::Red, o, pv, z1);
            let turned = join_on(side, Color::Red, down, zv, z2);
            let after = join_on(side, gc, turned, gv, u);
            &&& gc == Color::Black
            &&& elements(after) == elements(before)
            &&& grown(after, side)
            &&& black(z2)
        }),
{
    let z = join_on(side, Color::Red, z1, zv, z2);
    let p = join_on(side, Color::Red, o, pv, z);
    let before = join_on(side, gc, p, gv, u);
    let down = join_on(side, Color::Red, o, pv, z1);
    let turned = join_on(side, Color::Red, down, zv, z2);
    let after = join_on(side, gc, turned, gv, u);
    lemma_unfold(before);
    lemma_unfold(p);
    lemma_unfold(z);
    lemma_unfold(down);
    lemma_unfold(turned);
    lemma_unfold(after);
    if side {
        lemma_regroup(elements(o), pv, elements(z1), zv, elements(z2));
    } else {
        lemma_regroup(elements(z2), zv, elements(z1), pv, elements(o));
    }
}

/// The uncle is black and the red child is the outer one: the parent turns black, the
/// grandparent red, and the grandparent is rotated away from the parent's side. The parent is
/// the new root, black over two red nodes whose children are black.
proof fn lemma_straight<T>(
    side: bool,
    gc: Color,
    o: Link<T>,
    pv: T,
    i: Link<T>,
    gv: T,
    u: Link<T>,
)
    requires
        grown(join_on(side, gc, join_on(side, Color::Red, o, pv, i), gv, u), side),
        red(o),
        black(i),
        black(u),
    ensures
        ({
            let before = join_on(side, gc, join_on(side, Color::Red, o, pv, i), gv, u);
            let after = join_on(side, Color::Black, o, pv, join_on(side, Color::Red, i, gv, u));
            &&& gc == Color::Black
            &&& elements(after) == elements(before)
            &&& regrown(after, false, black_height(u) + weight(before))
        }),
{
    let p = join_on(side, Color::Red, o, pv, i);
    let before = join_on(side, gc, p, gv, u);
    let down = join_on(side, Color::Red, i, gv, u);
    let after = join_on(side, Color::Black, o, pv, down);
    lemma_unfold(before);
    lemma_unfold(p);
    lemma_unfold(down);
    lemma_unfold(after);
    if side {
        lemma_regroup(elements(o), pv, elements(i), gv, elements(u));
    } else {
        lemma_regroup(elements(u), gv, elements(i), pv, elements(o));
    }
}

/// The repair keeps the elements in their order and the black height, and leaves the
/// coloring rules in force, except that under a root that was red the root may have one red
/// child.
pub proof fn lemma_repaired<T>(link: Link<T>, left_side: bool)
    requires
        grown(link, left_side),
    ensures
        elements(repaired(link, left_side)) == elements(link),
        regrown(
            repaired(link, left_side),
            red(link),
            black_height(child(link, !left_side)) + weight(link),
        ),
{
    let g = link.unwrap();
    let p = child(link, left_side);
    let u = child(link, !left_side);
    let outer = child(p, left_side);
    let inner = child(p, !left_side);
    if !(red(p) && (red(outer) || red(inner))) {
        lemma_at_rest(left_side, link);
    } else {
        let pn = p.unwrap();
        assert(link == join_on(left_side, g.color, p, g.value, u));
        assert(p == join_on(left_side, Color::Red, outer, pn.value, inner));
        if red(u) {
            lemma_red_uncle(left_side, g.color, p, g.value, u);
        } else if red(inner) {
            let z = inner.unwrap();
            let z1 = child(inner, left_side);
            let z2 = child(inner, !left_side);
            assert(inner == join_on(left_side, Color::Red, z1, z.value, z2));
            lemma_zig_zag(left_side, g.color, outer, pn.value, z1, z.value, z2, g.value, u);
            lemma_straight(
                left_side,
                g.color,
                join_on(left_side, Color::Red, outer, pn.value, z1),
                z.value,
                z2,
                g.value,
                u,
            );
        } else {
            lemma_straight(left_side, g.color, outer, pn.value, inner, g.value, u);
        }
    }
}

/// Repairs a subtree whose child on the given side has come back from an insertion with a
/// red root over a red child, if it has. The subtree keeps its elements and its black height.
pub fn fix_insertion<T>(link: &mut Link<T>, left_side: bool)
    requires
        grown(*old(link), left_side),
    ensures
        *final(link) == repaired(*old(link), left_side),
        elements(*final(link)) == elements(*old(link)),
        regrown(
            *final(link),
            red(*old(link)),
            black_height(child(*old(link), !left_side)) + weight(*old(link)),
        ),
{
    proof {
        lemma_repaired(*link, left_side);
    }
    let mut g = link.take().unwrap();
    if left_side {
        if is_red(&g.left) && has_red_child(&g.left) {
            let mut p = g.left.take().unwrap();
            if is_red(&g.right) {
                p.color = Color::Black;
                paint(&mut g.right, Color::Black);
                g.color = Color::Red;
                g.left = Some(p);
                *link = Some(g);
            } else {
                if is_red(&p.right) {
                    let mut sub = Some(p);
                    rotate_left(&mut sub);
                    p = sub.unwrap();
                }
                p.color = Color::Black;
                g.color = Color::Red;
                g.left = Some(p);
                *link = Some(g);
                rotate_right(link);
            }
        } else {
            *link = Some(g);
        }
    } else {
        if is_red(&g.right) && has_red_child(&g.right) {
            let mut p = g.right.take().unwrap();
            if is_red(&g.left) {
                p.color = Color::Black;
                paint(&mut g.left, Color::Black);
                g.color = Color::Red;
                g.right = Some(p);
                *link = Some(g);
            } else {
                if is_red(&p.left) {
                    let mut sub = Some(p);
                    rotate_right(&mut sub);
                    p = sub.unwrap();
                }
                p.color = Color::Black;
                g.color = Color::Red;
                g.right = Some(p);
                *link = Some(g);
                rotate_left(link);
            }
        } else {
            *link = Some(g);
        }
    }
}

/// Puts `value` into the subtree as a new red node in the place of an absent child, to the
/// right of every element that is equal to it, and repairs the colors on the way back up.
pub fn insert_recursive<T: Ord>(link: &mut Link<T>, value: T)
    requires
        total_order::<T>(),
        red_black(*old(link)),
        sorted(elements(*old(link))),
    ensures
        *final(link) == with_inserted(*old(link), value),
        inserted(elements(*old(link)), elements(*final(link)), value),
        sorted(elements(*final(link))),
        regrown(*final(link), red(*old(link)), black_height(*old(link))),
    decreases *old(link),
{
    match link.take() {
        None => {
            *link = Some(Box::new(Node { value, color: Color::Red, left: None, right: None }));
            proof {
                lemma_unfold(*link);
                assert(elements(*link) =~= Seq::<T>::empty().insert(0, value));
                lemma_sorted_around(Seq::<T>::empty(), value, Seq::<T>::empty());
            }
        },
        Some(mut n) => {
            let ghost l = elements(n.left);
            let ghost r = elements(n.right);
            let ghost v = n.value;
            proof {
                lemma_unfold(*old(link));
                lemma_sorted_around(l, v, r);
                lemma_le_reflexive(v);
            }
            match value.cmp(&n.value) {
                Ordering::Less => {
                    insert_recursive(&mut n.left, value);
                    *link = Some(n);
                    proof {
                        let l2 = elements(n.left);
                        lemma_unfold(*link);
                        lemma_inserted_left(l, l2, v, r, value);
                        lemma_inserted_bounds(l, l2, value, v);
                        lemma_sorted_around(l2, v, r);
                    }
                    fix_insertion(link, true);
                },
                _ => {
                    insert_recursive(&mut n.right, value);
                    *link = Some(n);
                    proof {
                        let r2 = elements(n.right);
                        lemma_unfold(*link);
                        lemma_inserted_right(l, v, r, r2, value);
                        lemma_inserted_bounds(r, r2, value, v);
                        lemma_sorted_around(l, v, r2);
                    }
                    fix_insertion(link, false);
                },
            }
        },
    }
}

} // verus!
