//! Paths from the root of a subtree down to an absent child.

use crate::node::{balanced, black_height, height, lemma_unfold, worth, Link};
use vstd::prelude::*;

verus! {

/// The turns, `true` for left, lead from the root of the subtree down to an absent child and
/// end there.
pub open spec fn ends_at_absent<T>(link: Link<T>, turns: Seq<bool>) -> bool
    decreases link,
{
    match link {
        None => turns.len() == 0,
        Some(n) => turns.len() > 0 && if turns[0] {
            ends_at_absent(n.left, turns.drop_first())
        } else {
            ends_at_absent(n.right, turns.drop_first())
        },
    }
}

/// The number of black nodes that are passed from the root of the subtree along the turns.
pub open spec fn blacks_along<T>(link: Link<T>, turns: Seq<bool>) -> nat
    decreases link,
{
    match link {
        None => 0,
        Some(n) => worth(n.color) + if turns.len() == 0 {
            0
        } else if turns[0] {
            blacks_along(n.left, turns.drop_first())
        } else {
            blacks_along(n.right, turns.drop_first())
        },
    }
}

/// In a balanced subtree every path from the root down to an absent child passes as many
/// black nodes as the leftmost one, and no such path passes more nodes than the subtree is
/// high.
pub proof fn lemma_paths_count_alike<T>(link: Link<T>, turns: Seq<bool>)
    requires
        ends_at_absent(link, turns),
    ensures
        balanced(link) ==> blacks_along(link, turns) == black_height(link),
        turns.len() <= height(link),
    decreases link,
{
    if let Some(n) = link {
        lemma_unfold(link);
        if turns[0] {
            lemma_paths_count_alike(n.left, turns.drop_first());
        } else {
            lemma_paths_count_alike(n.right, turns.drop_first());
        }
    }
}

} // verus!
