//! Nodes and links, and what is measured on them.

use vstd::prelude::*;

verus! {

/// The tag that every node carries.
#[derive(Clone, Copy, Debug, PartialEq, Eq, Structural)]
pub enum Color {
    Red,
    Black,
}

/// One element with its color and its two subtrees.
#[derive(Debug, PartialEq, Eq)]
pub struct Node<T> {
    pub value: T,
    pub color: Color,
    pub left: Option<Box<Node<T>>>,
    pub right: Option<Box<Node<T>>>,
}

/// A subtree: absent, or a node that owns its descendants.
pub type Link<T> = Option<Box<Node<T>>>;

/// The subtree is rooted in a red node.
pub open spec fn red<T>(link: Link<T>) -> bool {
    link matches Some(n) && n.color == Color::Red
}

/// The subtree is absent or rooted in a black node.
pub open spec fn black<T>(link: Link<T>) -> bool {
    !red(link)
}

/// The elements of the subtree, left to right.
pub open spec fn elements<T>(link: Link<T>) -> Seq<T>
    decreases link,
{
    match link {
        None => Seq::empty(),
        Some(n) => elements(n.left).push(n.value) + elements(n.right),
    }
}

/// The number of nodes on the longest path from the root of the subtree down to an absent
/// child.
pub open spec fn height<T>(link: Link<T>) -> nat
    decreases link,
{
    match link {
        None => 0,
        Some(n) => {
            let l = height(n.left);
            let r = height(n.right);
            if l >= r {
                l + 1
            } else {
                r + 1
            }
        },
    }
}

/// What a node of the given color adds to a black height.
pub open spec fn worth(color: Color) -> nat {
    if color == Color::Black {
        1
    } else {
        0
    }
}

/// The number of black nodes on the leftmost path of the subtree.
pub open spec fn black_height<T>(link: Link<T>) -> nat
    decreases link,
{
    match link {
        None => 0,
        Some(n) => black_height(n.left) + worth(n.color),
    }
}

/// At every node both subtrees have the same black height, so that every path from a node down
/// to an absent child passes the same number of black nodes.
pub open spec fn balanced<T>(link: Link<T>) -> bool
    decreases link,
{
    match link {
        None => true,
        Some(n) => {
            &&& black_height(n.left) == black_height(n.right)
            &&& balanced(n.left)
            &&& balanced(n.right)
        },
    }
}

/// No red node has a red child.
pub open spec fn no_red_red<T>(link: Link<T>) -> bool
    decreases link,
{
    match link {
        None => true,
        Some(n) => {
            &&& n.color == Color::Red ==> black(n.left) && black(n.right)
            &&& no_red_red(n.left)
            &&& no_red_red(n.right)
        },
    }
}

/// The coloring rules hold in the whole subtree.
pub open spec fn red_black<T>(link: Link<T>) -> bool {
    balanced(link) && no_red_red(link)
}

/// The coloring rules hold except that the root of the subtree, if red, may have one red
/// child.
pub open spec fn near_red_black<T>(link: Link<T>) -> bool {
    balanced(link) && match link {
        None => true,
        Some(n) => {
            &&& no_red_red(n.left)
            &&& no_red_red(n.right)
            &&& n.color == Color::Red ==> black(n.left) || black(n.right)
        },
    }
}

/// The subtree that has the given parts.
pub open spec fn join<T>(color: Color, left: Link<T>, value: T, right: Link<T>) -> Link<T> {
    Some(Box::new(Node { value, color, left, right }))
}

/// The subtree whose root has `near` on the given side and `far` on the other.
pub open spec fn join_on<T>(
    left_side: bool,
    color: Color,
    near: Link<T>,
    value: T,
    far: Link<T>,
) -> Link<T> {
    if left_side {
        join(color, near, value, far)
    } else {
        join(color, far, value, near)
    }
}

/// The child of the root on the given side.
pub open spec fn child<T>(link: Link<T>, left_side: bool) -> Link<T> {
    match link {
        None => None,
        Some(n) => if left_side {
            n.left
        } else {
            n.right
        },
    }
}

/// The same subtree with its root in the given color.
pub open spec fn painted<T>(link: Link<T>, color: Color) -> Link<T> {
    match link {
        None => None,
        Some(n) => join(color, n.left, n.value, n.right),
    }
}

/// What the root of the subtree adds to its black height.
pub open spec fn weight<T>(link: Link<T>) -> nat {
    match link {
        None => 0,
        Some(n) => worth(n.color),
    }
}

/// Two ways to bracket five parts give the same sequence.
pub proof fn lemma_regroup<T>(l: Seq<T>, v: T, m: Seq<T>, w: T, r: Seq<T>)
    ensures
        (l.push(v) + m).push(w) + r == l.push(v) + (m.push(w) + r),
{
    assert((l.push(v) + m).push(w) + r =~= l.push(v) + (m.push(w) + r));
}

/// What the measures of a subtree are in terms of those of its two children.
pub proof fn lemma_unfold<T>(link: Link<T>)
    requires
        link is Some,
    ensures
        ({
            let left = child(link, true);
            let right = child(link, false);
            &&& elements(link) == elements(left).push(link.unwrap().value) + elements(right)
            &&& height(link) == 1 + if height(left) >= height(right) {
                height(left)
            } else {
                height(right)
            }
            &&& black_height(link) == black_height(left) + weight(link)
            &&& balanced(link) <==> black_height(left) == black_height(right) && balanced(left)
                && balanced(right)
            &&& no_red_red(link) <==> (red(link) ==> black(left) && black(right)) && no_red_red(
                left,
            ) && no_red_red(right)
        }),
{
}

/// Whether the link leads to a black node; an absent child is black.
pub fn is_black<T>(link: &Link<T>) -> (b: bool)
    ensures
        b == black(*link),
{
    match link {
        None => true,
        Some(n) => n.color == Color::Black,
    }
}

/// Whether the link leads to a red node.
pub fn is_red<T>(link: &Link<T>) -> (b: bool)
    ensures
        b == red(*link),
{
    !is_black(link)
}

/// Whether the root of the subtree has a red child.
pub fn has_red_child<T>(link: &Link<T>) -> (b: bool)
    ensures
        b == (red(child(*link, true)) || red(child(*link, false))),
{
    match link {
        None => false,
        Some(n) => is_red(&n.left) || is_red(&n.right),
    }
}

/// Gives the root of the subtree the color asked for.
pub fn paint<T>(link: &mut Link<T>, color: Color)
    ensures
        *final(link) == painted(*old(link), color),
        elements(*final(link)) == elements(*old(link)),
{
    match link.take() {
        None => {},
        Some(mut n) => {
            n.color = color;
            *link = Some(n);
        },
    }
}

} // verus!
