use red_black_tree::inspect::{
    check_colors, check_order, collect, count, measure_black_height, measure_height,
};
use red_black_tree::node::{Color, Link, Node};
use red_black_tree::order::not_after;

fn r(left: Link<i32>, value: i32, right: Link<i32>) -> Link<i32> {
    Some(Box::new(Node { value, color: Color::Red, left, right }))
}

fn b(left: Link<i32>, value: i32, right: Link<i32>) -> Link<i32> {
    Some(Box::new(Node { value, color: Color::Black, left, right }))
}

#[test]
fn count_and_heights_of_a_small_subtree() {
    let link = b(r(b(None, 1, None), 2, b(None, 3, r(None, 4, None))), 5, b(None, 6, None));
    assert_eq!(count(&link), 6);
    assert_eq!(measure_height(&link), 4);
    assert_eq!(measure_black_height(&link), 2);
    let none: Link<i32> = None;
    assert_eq!(count(&none), 0);
    assert_eq!(measure_height(&none), 0);
    assert_eq!(measure_black_height(&none), 0);
}

#[test]
fn check_colors_gives_the_black_height_of_a_sound_subtree() {
    let link = b(r(b(None, 1, None), 2, b(None, 3, r(None, 4, None))), 5, b(None, 6, None));
    assert_eq!(check_colors(&link), Some(2));
    assert_eq!(check_colors(&r(None, 1, None)), Some(0));
    let none: Link<i32> = None;
    assert_eq!(check_colors(&none), Some(0));
}

#[test]
fn check_colors_refuses_a_red_node_under_a_red_node() {
    assert_eq!(check_colors(&r(r(None, 1, None), 2, None)), None);
    assert_eq!(check_colors(&b(None, 1, r(None, 2, r(None, 3, None)))), None);
}

#[test]
fn check_colors_refuses_unequal_black_counts() {
    assert_eq!(check_colors(&b(b(None, 1, None), 2, None)), None);
    assert_eq!(check_colors(&b(r(None, 1, None), 2, b(None, 3, None))), None);
    assert_eq!(check_colors(&b(b(None, 1, None), 2, b(b(None, 3, None), 4, None))), None);
}

#[test]
fn check_order_accepts_ascending_walks_with_equal_neighbors() {
    let link = b(r(None, 2, None), 2, r(None, 2, None));
    assert!(check_order(&link, None, None));
    let link = b(r(None, 1, None), 2, r(None, 3, None));
    assert!(check_order(&link, None, None));
    assert!(check_order(&link, Some(&1), Some(&3)));
    assert!(!check_order(&link, Some(&2), None));
    assert!(!check_order(&link, None, Some(&2)));
}

#[test]
fn check_order_refuses_a_misplaced_element() {
    assert!(!check_order(&b(r(None, 3, None), 2, None), None, None));
    assert!(!check_order(&b(None, 2, r(None, 1, None)), None, None));
    let deep = b(b(None, 1, b(None, 6, None)), 5, b(None, 7, None));
    assert!(!check_order(&deep, None, None));
}

#[test]
fn not_after_is_less_or_equal() {
    assert!(not_after(&1, &2));
    assert!(not_after(&2, &2));
    assert!(!not_after(&3, &2));
}

#[test]
fn collect_appends_the_walk() {
    let link = b(r(None, 1, None), 2, r(None, 3, None));
    let mut out = vec![0];
    collect(&link, &mut out);
    assert_eq!(out, vec![0, 1, 2, 3]);
}
