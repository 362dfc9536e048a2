use red_black_tree::insert::{fix_insertion, insert_recursive};
use red_black_tree::node::{has_red_child, is_black, is_red, paint, Color, Link, Node};
use red_black_tree::remove::{
    fix_black_sibling, fix_deletion, remove_min, remove_recursive, settle, sibling,
};
use red_black_tree::rotate::{rotate_left, rotate_right};
use red_black_tree::search::search_recursive;

fn red(left: Link<i32>, value: i32, right: Link<i32>) -> Link<i32> {
    Some(Box::new(Node { value, color: Color::Red, left, right }))
}

fn black(left: Link<i32>, value: i32, right: Link<i32>) -> Link<i32> {
    Some(Box::new(Node { value, color: Color::Black, left, right }))
}

#[test]
fn absent_child_is_black() {
    let none: Link<i32> = None;
    assert!(is_black(&none));
    assert!(!is_red(&none));
    assert!(is_black(&black(None, 1, None)));
    assert!(is_red(&red(None, 1, None)));
    assert!(!is_black(&red(None, 1, None)));
}

#[test]
fn red_child_is_seen_on_either_side() {
    let none: Link<i32> = None;
    assert!(!has_red_child(&none));
    assert!(!has_red_child(&black(None, 1, None)));
    assert!(has_red_child(&black(red(None, 0, None), 1, None)));
    assert!(has_red_child(&black(None, 1, red(None, 2, None))));
    assert!(!has_red_child(&red(black(None, 0, None), 1, black(None, 2, None))));
}

#[test]
fn paint_changes_the_color_of_the_root_only() {
    let mut link = red(red(None, 1, None), 2, None);
    paint(&mut link, Color::Black);
    assert_eq!(link, black(red(None, 1, None), 2, None));
    let mut none: Link<i32> = None;
    paint(&mut none, Color::Black);
    assert_eq!(none, None);
}

#[test]
fn rotate_left_brings_the_right_child_up() {
    let mut link = black(black(None, 1, None), 2, red(black(None, 3, None), 4, black(None, 5, None)));
    rotate_left(&mut link);
    assert_eq!(
        link,
        red(black(black(None, 1, None), 2, black(None, 3, None)), 4, black(None, 5, None))
    );
}

#[test]
fn rotate_right_brings_the_left_child_up() {
    let mut link = black(red(black(None, 1, None), 2, black(None, 3, None)), 4, black(None, 5, None));
    rotate_right(&mut link);
    assert_eq!(
        link,
        red(black(None, 1, None), 2, black(black(None, 3, None), 4, black(None, 5, None)))
    );
}

#[test]
fn rotations_undo_each_other() {
    let start = black(red(None, 1, None), 2, red(None, 3, None));
    let mut link = black(red(None, 1, None), 2, red(None, 3, None));
    rotate_left(&mut link);
    assert_ne!(link, start);
    rotate_right(&mut link);
    assert_eq!(link, start);
}

#[test]
fn insertion_repair_leaves_a_sound_child_alone() {
    let mut link = black(red(None, 5, None), 10, None);
    fix_insertion(&mut link, true);
    assert_eq!(link, black(red(None, 5, None), 10, None));
    let mut link = red(black(None, 5, None), 10, black(red(None, 12, None), 15, None));
    fix_insertion(&mut link, false);
    assert_eq!(link, red(black(None, 5, None), 10, black(red(None, 12, None), 15, None)));
}

#[test]
fn insertion_repair_recolors_under_a_red_uncle() {
    let mut link = black(red(red(None, 3, None), 5, None), 10, red(None, 15, None));
    fix_insertion(&mut link, true);
    assert_eq!(link, red(black(red(None, 3, None), 5, None), 10, black(None, 15, None)));

    let mut link = black(red(None, 5, None), 10, red(red(None, 12, None), 15, None));
    fix_insertion(&mut link, false);
    assert_eq!(link, red(black(None, 5, None), 10, black(red(None, 12, None), 15, None)));
}

#[test]
fn insertion_repair_rotates_a_straight_line() {
    let mut link = black(red(red(None, 3, None), 5, None), 10, None);
    fix_insertion(&mut link, true);
    assert_eq!(link, black(red(None, 3, None), 5, red(None, 10, None)));

    let mut link = black(None, 10, red(None, 15, red(None, 20, None)));
    fix_insertion(&mut link, false);
    assert_eq!(link, black(red(None, 10, None), 15, red(None, 20, None)));
}

#[test]
fn insertion_repair_rotates_a_zig_zag_twice() {
    let mut link = black(red(None, 5, red(None, 7, None)), 10, None);
    fix_insertion(&mut link, true);
    assert_eq!(link, black(red(None, 5, None), 7, red(None, 10, None)));

    let mut link = black(None, 10, red(red(None, 12, None), 15, None));
    fix_insertion(&mut link, false);
    assert_eq!(link, black(red(None, 10, None), 12, red(None, 15, None)));
}

#[test]
fn insertion_repair_keeps_subtrees_in_order() {
    let b = |v: i32| black(None, v, None);
    let mut link = black(red(b(1), 2, red(b(3), 4, b(5))), 6, b(7));
    fix_insertion(&mut link, true);
    assert_eq!(link, black(red(b(1), 2, b(3)), 4, red(b(5), 6, b(7))));
}

#[test]
fn insert_recursive_builds_the_three_node_tree() {
    let mut link: Link<i32> = None;
    for v in [10, 5, 15] {
        insert_recursive(&mut link, v);
        paint(&mut link, Color::Black);
    }
    assert_eq!(link, black(red(None, 5, None), 10, red(None, 15, None)));
}

#[test]
fn insert_recursive_puts_an_equal_element_to_the_right() {
    let mut link = black(None, 5, None);
    insert_recursive(&mut link, 5);
    assert_eq!(link, black(None, 5, red(None, 5, None)));
    insert_recursive(&mut link, 4);
    assert_eq!(link, black(red(None, 4, None), 5, red(None, 5, None)));
}

#[test]
fn insert_recursive_starts_with_a_red_leaf() {
    let mut link: Link<i32> = None;
    insert_recursive(&mut link, 1);
    assert_eq!(link, red(None, 1, None));
}

#[test]
fn sibling_is_the_other_child() {
    let link = black(red(None, 1, None), 2, black(None, 3, None));
    assert_eq!(*sibling(&link, true), black(None, 3, None));
    assert_eq!(*sibling(&link, false), red(None, 1, None));
}

#[test]
fn deletion_repair_pushes_the_loss_up_under_a_black_parent() {
    let mut link = black(None, 10, black(None, 15, None));
    assert!(fix_deletion(&mut link, true));
    assert_eq!(link, black(None, 10, red(None, 15, None)));

    let mut link = black(black(None, 5, None), 10, None);
    assert!(fix_deletion(&mut link, false));
    assert_eq!(link, black(red(None, 5, None), 10, None));
}

#[test]
fn deletion_repair_ends_at_a_red_parent() {
    let mut link = red(None, 10, black(None, 15, None));
    assert!(!fix_deletion(&mut link, true));
    assert_eq!(link, black(None, 10, red(None, 15, None)));

    let mut link = red(black(None, 5, None), 10, None);
    assert!(!fix_black_sibling(&mut link, false));
    assert_eq!(link, black(red(None, 5, None), 10, None));
}

#[test]
fn deletion_repair_rotates_at_a_red_far_child() {
    let mut link = black(None, 10, black(None, 15, red(None, 20, None)));
    assert!(!fix_deletion(&mut link, true));
    assert_eq!(link, black(black(None, 10, None), 15, black(None, 20, None)));

    let mut link = red(black(red(None, 1, None), 5, red(None, 7, None)), 10, None);
    assert!(!fix_deletion(&mut link, false));
    assert_eq!(link, red(black(None, 1, None), 5, black(red(None, 7, None), 10, None)));
}

#[test]
fn deletion_repair_rotates_twice_at_a_red_near_child() {
    let mut link = black(None, 10, black(red(None, 12, None), 15, None));
    assert!(!fix_deletion(&mut link, true));
    assert_eq!(link, black(black(None, 10, None), 12, black(None, 15, None)));

    let mut link = red(black(None, 5, red(None, 7, None)), 10, None);
    assert!(!fix_black_sibling(&mut link, false));
    assert_eq!(link, red(black(None, 5, None), 7, black(None, 10, None)));
}

#[test]
fn deletion_repair_turns_a_red_sibling_first() {
    let mut link = black(None, 10, red(black(None, 15, None), 20, black(None, 25, None)));
    assert!(!fix_deletion(&mut link, true));
    assert_eq!(link, black(black(None, 10, red(None, 15, None)), 20, black(None, 25, None)));

    let mut link = black(red(black(None, 1, None), 5, black(None, 7, None)), 10, None);
    assert!(!fix_deletion(&mut link, false));
    assert_eq!(link, black(black(None, 1, None), 5, black(red(None, 7, None), 10, None)));

    let mut link =
        black(None, 10, red(black(None, 15, red(None, 17, None)), 20, black(None, 25, None)));
    assert!(!fix_deletion(&mut link, true));
    assert_eq!(
        link,
        black(red(black(None, 10, None), 15, black(None, 17, None)), 20, black(None, 25, None))
    );
}

#[test]
fn settle_reports_a_loss_only_for_a_black_node_without_a_red_child() {
    let mut link: Link<i32> = None;
    assert!(!settle(&mut link, Color::Red));
    assert_eq!(link, None);
    assert!(settle(&mut link, Color::Black));
    assert_eq!(link, None);
    let mut link = red(None, 3, None);
    assert!(!settle(&mut link, Color::Black));
    assert_eq!(link, black(None, 3, None));
}

#[test]
fn remove_min_takes_the_leftmost_node() {
    let mut link = black(red(None, 5, None), 10, red(None, 15, None));
    assert_eq!(remove_min(&mut link), (5, false));
    assert_eq!(link, black(None, 10, red(None, 15, None)));
    assert_eq!(remove_min(&mut link), (10, false));
    assert_eq!(link, black(None, 15, None));
    assert_eq!(remove_min(&mut link), (15, true));
    assert_eq!(link, None);
}

#[test]
fn remove_recursive_moves_the_successor_into_a_node_with_two_children() {
    let mut link = black(black(None, 5, None), 10, black(None, 15, red(None, 20, None)));
    assert!(!remove_recursive(&mut link, &10));
    assert_eq!(link, black(black(None, 5, None), 15, black(None, 20, None)));
}

#[test]
fn remove_recursive_reports_a_loss_at_a_black_leaf() {
    let mut link = black(None, 10, None);
    assert!(remove_recursive(&mut link, &10));
    assert_eq!(link, None);
    let mut link = black(black(None, 5, None), 10, black(None, 15, None));
    assert!(remove_recursive(&mut link, &5));
    assert_eq!(link, black(None, 10, red(None, 15, None)));
}

#[test]
fn remove_recursive_leaves_a_subtree_without_the_value_alone() {
    let mut link = black(red(None, 5, None), 10, red(None, 15, None));
    assert!(!remove_recursive(&mut link, &12));
    assert_eq!(link, black(red(None, 5, None), 10, red(None, 15, None)));
    let mut none: Link<i32> = None;
    assert!(!remove_recursive(&mut none, &12));
    assert_eq!(none, None);
}

#[test]
fn remove_recursive_blackens_the_red_child_of_a_removed_black_node() {
    let mut link = black(red(None, 5, None), 10, None);
    assert!(!remove_recursive(&mut link, &10));
    assert_eq!(link, black(None, 5, None));
}

#[test]
fn search_recursive_follows_the_order() {
    let link = black(red(None, 5, None), 10, red(None, 15, None));
    assert!(search_recursive(&link, &5));
    assert!(search_recursive(&link, &10));
    assert!(search_recursive(&link, &15));
    assert!(!search_recursive(&link, &7));
    assert!(!search_recursive(&link, &20));
    let none: Link<i32> = None;
    assert!(!search_recursive(&none, &1));
}
