//! The tree and its operations.

use crate::insert::{insert_recursive, with_inserted};
use crate::inspect::{
    check_colors, check_order, collect, count, lemma_measures, lemma_red_black_measures,
    measure_black_height, measure_height,
};
use crate::node::{
    balanced, black, black_height, elements, height, is_black, lemma_unfold, no_red_red, paint,
    painted, Color, Link,
};
use crate::order::total_order;
use crate::paths::{blacks_along, ends_at_absent, lemma_paths_count_alike};
use crate::remove::{remove_recursive, with_removed};
use crate::search::search_recursive;
use crate::sorted::{inserted, removed, sorted};
use vstd::arithmetic::logarithm::{lemma_log_is_ordered, lemma_log_pow, log};
use vstd::arithmetic::power::{lemma_pow_positive, pow};
use vstd::multiset::Multiset;
use vstd::prelude::*;

verus! {

/// An ordered collection that may hold equal elements more than once, kept as a binary search
/// tree whose nodes are colored red or black so that its height stays logarithmic.
///
/// A tree can be made only over a type whose comparison is a total order, and the rules of a
/// red-black tree hold in every tree at all times: see [`RedBlackTree::well_formed`].
#[derive(Debug, PartialEq, Eq)]
pub struct RedBlackTree<T: Clone + Ord> {
    root: Link<T>,
}

impl<T: Clone + Ord> View for RedBlackTree<T> {
    type V = Multiset<T>;

    /// The elements of the tree, each as often as the tree holds it.
    open spec fn view(&self) -> Multiset<T> {
        self.sequence().to_multiset()
    }
}

impl<T: Clone + Ord> RedBlackTree<T> {
    #[verifier::type_invariant]
    spec fn rules_hold(self) -> bool {
        &&& total_order::<T>()
        &&& black(self.root)
        &&& no_red_red(self.root)
        &&& balanced(self.root)
        &&& sorted(elements(self.root))
    }

    /// The nodes of the tree.
    pub closed spec fn shape(&self) -> Link<T> {
        self.root
    }

    /// The elements of the tree in the order of an in-order walk.
    pub open spec fn sequence(&self) -> Seq<T> {
        elements(self.shape())
    }

    /// The number of nodes on the longest path from the root down to an absent child.
    pub open spec fn spec_height(&self) -> nat {
        height(self.shape())
    }

    /// The number of black nodes on the leftmost path from the root down to an absent child,
    /// the root counted. In a well-formed tree every path from the root down to an absent
    /// child has this many.
    pub open spec fn spec_black_height(&self) -> nat {
        black_height(self.shape())
    }

    /// The rules of a red-black tree hold: the root is black; no red node has a red child,
    /// where an absent child counts as black; from every node, all paths down to an absent
    /// child pass the same number of black nodes; and the in-order walk is ascending.
    /// Elements that are equal may stand on either side of one another.
    pub open spec fn well_formed(&self) -> bool {
        &&& black(self.shape())
        &&& no_red_red(self.shape())
        &&& balanced(self.shape())
        &&& sorted(self.sequence())
    }

    /// The empty tree.
    pub fn new() -> (tree: Self)
        requires
            total_order::<T>(),
        ensures
            tree.shape() is None,
            tree.well_formed(),
            tree.sequence() == Seq::<T>::empty(),
            tree@ == Multiset::<T>::empty(),
    {
        proof {
            vstd::seq_lib::to_multiset_len(Seq::<T>::empty());
            vstd::multiset::lemma_multiset_empty_len(Seq::<T>::empty().to_multiset());
        }
        RedBlackTree { root: None }
    }

    /// Does nothing when run. What it ensures holds of every tree: the rules of a red-black
    /// tree, and that its elements are of a totally ordered type.
    pub fn well_formedness(&self)
        ensures
            self.well_formed(),
            total_order::<T>(),
    {
        proof {
            use_type_invariant(self);
        }
    }

    /// Inserts `value`. An element equal to one that the tree holds already is kept beside it.
    pub fn insert(&mut self, value: T)
        ensures
            final(self).shape() == painted(with_inserted(old(self).shape(), value), Color::Black),
            final(self).well_formed(),
            inserted(old(self).sequence(), final(self).sequence(), value),
            final(self)@ == old(self)@.insert(value),
            final(self)@.len() == old(self)@.len() + 1,
            final(self)@.contains(value),
    {
        proof {
            use_type_invariant(&*self);
        }
        let mut root = None;
        core::mem::swap(&mut root, &mut self.root);
        insert_recursive(&mut root, value);
        proof {
            lemma_unfold(root);
            lemma_unfold(painted(root, Color::Black));
        }
        paint(&mut root, Color::Black);
        self.root = root;
        proof {
            let before = old(self).sequence();
            let k = choose|k: int|
                0 <= k <= before.len() && self.sequence() == #[trigger] before.insert(k, value);
            vstd::seq_lib::to_multiset_insert(before, k, value);
            vstd::multiset::lemma_insert_len(before.to_multiset(), value);
            vstd::multiset::lemma_insert_increases_count_by_1(before.to_multiset(), value);
        }
    }

    /// Whether the tree holds an element equal to `value`.
    pub fn search(&self, value: T) -> (found: bool)
        ensures
            found == self@.contains(value),
            found == self.sequence().contains(value),
    {
        proof {
            use_type_invariant(self);
            vstd::seq_lib::to_multiset_contains(self.sequence(), value);
        }
        search_recursive(&self.root, &value)
    }

    /// Removes one element equal to `value`, if the tree holds one. A tree that holds none is
    /// left exactly as it was, node for node.
    pub fn remove(&mut self, value: T)
        ensures
            final(self).shape() == painted(
                with_removed(old(self).shape(), value).0,
                Color::Black,
            ),
            final(self).well_formed(),
            final(self)@ == old(self)@.remove(value),
            old(self)@.contains(value) ==> removed(
                old(self).sequence(),
                final(self).sequence(),
                value,
            ) && final(self)@.len() == old(self)@.len() - 1,
            !old(self)@.contains(value) ==> *final(self) == *old(self),
            old(self)@.count(value) <= 1 ==> !final(self)@.contains(value),
    {
        proof {
            use_type_invariant(&*self);
        }
        let mut root = None;
        core::mem::swap(&mut root, &mut self.root);
        let _ = remove_recursive(&mut root, &value);
        proof {
            if root is Some {
                lemma_unfold(root);
            }
        }
        paint(&mut root, Color::Black);
        self.root = root;
        proof {
            broadcast use vstd::multiset::group_multiset_axioms;

            let before = old(self).sequence();
            vstd::seq_lib::to_multiset_contains(before, value);
            if before.contains(value) {
                let k = choose|k: int|
                    0 <= k < before.len() && before[k] == value && self.sequence()
                        == #[trigger] before.remove(k);
                vstd::seq_lib::to_multiset_remove(before, k);
                vstd::seq_lib::to_multiset_len(before);
                vstd::seq_lib::to_multiset_len(self.sequence());
            } else {
                assert(before.to_multiset().remove(value) =~= before.to_multiset());
            }
        }
    }

    /// The number of elements.
    pub fn len(&self) -> (n: usize)
        requires
            self@.len() <= usize::MAX,
        ensures
            n == self@.len(),
    {
        proof {
            vstd::seq_lib::to_multiset_len(self.sequence());
        }
        count(&self.root)
    }

    /// The number of nodes on the longest path from the root down to an absent child.
    pub fn height(&self) -> (h: usize)
        requires
            self@.len() <= usize::MAX,
        ensures
            h == self.spec_height(),
            h <= 2 * log(2, (self@.len() + 1) as int),
    {
        proof {
            use_type_invariant(self);
            self.lemma_height_logarithmic();
            vstd::seq_lib::to_multiset_len(self.sequence());
        }
        measure_height(&self.root)
    }

    /// The number of black nodes on every path from the root down to an absent child.
    pub fn black_height(&self) -> (h: usize)
        requires
            self@.len() <= usize::MAX,
        ensures
            h == self.spec_black_height(),
    {
        proof {
            vstd::seq_lib::to_multiset_len(self.sequence());
        }
        measure_black_height(&self.root)
    }

    /// Whether the rules of a red-black tree hold in this tree, found by a walk through all of
    /// it. They do.
    pub fn validate(&self) -> (ok: bool)
        requires
            self@.len() <= usize::MAX,
        ensures
            ok == self.well_formed(),
            ok,
    {
        proof {
            use_type_invariant(self);
            vstd::seq_lib::to_multiset_len(self.sequence());
        }
        is_black(&self.root) && check_colors(&self.root).is_some() && check_order(
            &self.root,
            None,
            None,
        )
    }

    /// Clones of the elements in the order of an in-order walk.
    pub fn in_order(&self) -> (out: Vec<T>)
        ensures
            out@.len() == self.sequence().len(),
            forall|i: int|
                0 <= i < out@.len() ==> cloned(#[trigger] self.sequence()[i], out@[i]),
    {
        let mut out = Vec::new();
        collect(&self.root, &mut out);
        out
    }

    /// In a well-formed tree every path from the root down to an absent child passes the
    /// same number of black nodes, the black height of the tree.
    pub proof fn lemma_black_count_on_every_path(&self, turns: Seq<bool>)
        requires
            self.well_formed(),
            ends_at_absent(self.shape(), turns),
        ensures
            blacks_along(self.shape(), turns) == self.spec_black_height(),
            turns.len() <= self.spec_height(),
    {
        lemma_paths_count_alike(self.shape(), turns);
    }

    /// A well-formed tree is at least as high as its black height and at most twice as high.
    pub proof fn lemma_height_black_height(&self)
        requires
            self.well_formed(),
        ensures
            self.spec_black_height() <= self.spec_height() <= 2 * self.spec_black_height(),
    {
        lemma_measures(self.shape());
        lemma_red_black_measures(self.shape());
    }

    /// A well-formed tree of `n` elements is at most twice the binary logarithm of `n + 1`
    /// high, the logarithm rounded down.
    pub proof fn lemma_height_logarithmic(&self)
        requires
            self.well_formed(),
        ensures
            self.spec_height() <= 2 * log(2, (self@.len() + 1) as int),
    {
        let b = self.spec_black_height();
        lemma_red_black_measures(self.shape());
        vstd::seq_lib::to_multiset_len(self.sequence());
        lemma_pow_positive(2, b);
        lemma_log_is_ordered(2, pow(2, b), (self@.len() + 1) as int);
        lemma_log_pow(2, b);
    }

    /// A value is found in the tree that its insertion leaves: if `after` holds what
    /// `before` held and `value` once more, as `insert` leaves it, a search for `value` in
    /// `after` gives true.
    pub proof fn lemma_insert_then_search(before: &Self, after: &Self, value: T)
        requires
            after@ == before@.insert(value),
        ensures
            after@.contains(value),
            after@.len() == before@.len() + 1,
    {
        vstd::multiset::lemma_insert_increases_count_by_1(before@, value);
        vstd::multiset::lemma_insert_len(before@, value);
    }

    /// A value that the tree held at most once is not found in the tree that its removal
    /// leaves: if `after` holds what `before` held less one `value`, as `remove` leaves it, a
    /// search for `value` in `after` gives false. Of a value that the tree held more often,
    /// one occurrence less is left, and every other value is held as often as before.
    pub proof fn lemma_remove_then_search(before: &Self, after: &Self, value: T)
        requires
            after@ == before@.remove(value),
        ensures
            before@.count(value) <= 1 ==> !after@.contains(value),
            before@.count(value) >= 1 ==> after@.count(value) == before@.count(value) - 1,
            forall|other: T| other != value ==> after@.count(other) == before@.count(other),
    {
        broadcast use vstd::multiset::group_multiset_axioms;

    }
}

} // verus!
