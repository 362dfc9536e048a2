use red_black_tree::RedBlackTree;

fn tree_of(values: &[i32]) -> RedBlackTree<i32> {
    let mut tree: RedBlackTree<i32> = RedBlackTree::new();
    for v in values {
        tree.insert(*v);
    }
    tree
}

fn floor_log2(n: usize) -> usize {
    let mut log = 0;
    let mut rest = n;
    while rest > 1 {
        rest /= 2;
        log += 1;
    }
    log
}

#[test]
fn test_insert_and_search() {
    let mut tree: RedBlackTree<i32> = RedBlackTree::new();

    assert!(!tree.search(5));

    tree.insert(5);
    tree.insert(3);
    tree.insert(8);

    assert!(tree.search(5));
    assert!(tree.search(3));
    assert!(tree.search(8));
    assert!(!tree.search(10));
}

#[test]
fn test_remove() {
    let mut tree: RedBlackTree<i32> = RedBlackTree::new();

    tree.insert(5);
    tree.insert(3);
    tree.insert(8);
    tree.insert(2);
    tree.insert(4);
    tree.insert(7);

    assert!(tree.search(5));
    tree.remove(5);
    assert!(!tree.search(5));

    assert!(tree.search(3));
    tree.remove(3);
    assert!(!tree.search(3));

    assert!(tree.search(8));
    tree.remove(8);
    assert!(!tree.search(8));
}

#[test]
fn new_tree_is_empty_and_well_formed() {
    let tree: RedBlackTree<i32> = RedBlackTree::new();
    assert_eq!(tree.len(), 0);
    assert_eq!(tree.height(), 0);
    assert_eq!(tree.black_height(), 0);
    assert!(tree.validate());
    assert_eq!(tree.in_order(), Vec::<i32>::new());
    assert!(!tree.search(0));
}

#[test]
fn first_element_becomes_a_black_root() {
    let tree = tree_of(&[42]);
    assert_eq!(tree.len(), 1);
    assert_eq!(tree.height(), 1);
    assert_eq!(tree.black_height(), 1);
    assert!(tree.validate());
}

#[test]
fn three_inserts_leave_a_black_root_over_two_red_children() {
    let tree = tree_of(&[10, 5, 15]);
    assert!(tree.search(5));
    assert!(!tree.search(20));
    assert!(tree.validate());
    assert_eq!(tree.len(), 3);
    assert_eq!(tree.height(), 2);
    assert_eq!(tree.black_height(), 1);
    assert_eq!(tree.in_order(), vec![5, 10, 15]);
}

#[test]
fn removals_leave_the_expected_rest() {
    let mut tree = tree_of(&[5, 3, 8, 2, 4, 7]);
    assert!(tree.validate());
    assert_eq!(tree.in_order(), vec![2, 3, 4, 5, 7, 8]);

    tree.remove(5);
    assert!(!tree.search(5));
    assert!(tree.validate());
    assert_eq!(tree.in_order(), vec![2, 3, 4, 7, 8]);

    tree.remove(3);
    assert!(!tree.search(3));
    assert!(tree.validate());
    assert_eq!(tree.in_order(), vec![2, 4, 7, 8]);

    tree.remove(8);
    assert!(!tree.search(8));
    assert!(tree.validate());
    assert_eq!(tree.in_order(), vec![2, 4, 7]);
    assert_eq!(tree.len(), 3);
}

#[test]
fn ascending_inserts_keep_the_height_logarithmic() {
    let mut tree: RedBlackTree<i32> = RedBlackTree::new();
    for v in 1..=1000 {
        tree.insert(v);
    }
    assert_eq!(tree.len(), 1000);
    assert!(tree.height() <= 2 * floor_log2(1001));
    assert!(tree.height() <= 20);
    assert!(tree.validate());
    assert_eq!(tree.in_order(), (1..=1000).collect::<Vec<i32>>());
}

#[test]
fn descending_removals_empty_the_tree() {
    let mut tree: RedBlackTree<i32> = RedBlackTree::new();
    for v in 1..=1000 {
        tree.insert(v);
        assert!(tree.validate());
    }
    for v in (1..=1000).rev() {
        tree.remove(v);
        assert!(tree.validate());
        assert!(!tree.search(v));
        assert_eq!(tree.len(), (v - 1) as usize);
    }
    assert_eq!(tree.len(), 0);
    assert_eq!(tree.height(), 0);
    assert_eq!(tree, RedBlackTree::new());
}

#[test]
fn ascending_removals_empty_the_tree() {
    let mut tree: RedBlackTree<i32> = RedBlackTree::new();
    for v in (1..=500).rev() {
        tree.insert(v);
        assert!(tree.validate());
    }
    for v in 1..=500 {
        tree.remove(v);
        assert!(tree.validate());
        assert!(tree.height() <= 2 * floor_log2(tree.len() + 1));
    }
    assert_eq!(tree, RedBlackTree::new());
}

#[test]
fn remove_from_empty_tree_changes_nothing() {
    let mut tree: RedBlackTree<i32> = RedBlackTree::new();
    tree.remove(1);
    assert_eq!(tree.len(), 0);
    assert!(tree.validate());
    assert_eq!(tree, RedBlackTree::new());
}

#[test]
fn removing_an_absent_value_leaves_the_same_tree() {
    let values = [50, 20, 70, 10, 30, 60, 80, 25, 35, 65];
    let mut tree = tree_of(&values);
    let same = tree_of(&values);
    for absent in [0, 15, 28, 55, 66, 100] {
        tree.remove(absent);
        assert_eq!(tree, same);
    }
    assert_eq!(tree.height(), same.height());
    assert_eq!(tree.black_height(), same.black_height());
    assert_eq!(tree.in_order(), same.in_order());
}

#[test]
fn inserted_value_is_found_and_removed_value_is_not() {
    let mut tree = tree_of(&[4, 9, 1]);
    assert!(!tree.search(6));
    tree.insert(6);
    assert!(tree.search(6));
    tree.remove(6);
    assert!(!tree.search(6));
    assert!(tree.search(4));
    assert!(tree.search(9));
    assert!(tree.search(1));
}

#[test]
fn equal_elements_are_kept_side_by_side() {
    let mut tree = tree_of(&[5, 5, 5]);
    assert_eq!(tree.len(), 3);
    assert!(tree.validate());
    assert_eq!(tree.in_order(), vec![5, 5, 5]);

    tree.remove(5);
    assert!(tree.search(5));
    assert_eq!(tree.len(), 2);
    assert!(tree.validate());

    tree.remove(5);
    assert!(tree.search(5));
    tree.remove(5);
    assert!(!tree.search(5));
    assert_eq!(tree.len(), 0);
    assert!(tree.validate());
}

#[test]
fn many_equal_elements_stay_balanced() {
    let mut tree: RedBlackTree<i32> = RedBlackTree::new();
    for i in 0..300 {
        tree.insert(i % 3);
        assert!(tree.validate());
    }
    assert_eq!(tree.len(), 300);
    assert!(tree.height() <= 2 * floor_log2(301));
    let walk = tree.in_order();
    assert_eq!(&walk[..100], &[0; 100][..]);
    assert_eq!(&walk[100..200], &[1; 100][..]);
    assert_eq!(&walk[200..], &[2; 100][..]);
    for _ in 0..100 {
        tree.remove(1);
        assert!(tree.validate());
    }
    assert!(!tree.search(1));
    assert_eq!(tree.len(), 200);
}

#[test]
fn count_and_membership_follow_a_reference_multiset() {
    let mut tree: RedBlackTree<i32> = RedBlackTree::new();
    let mut model: Vec<i32> = Vec::new();
    let mut inserts = 0usize;
    let mut successful_removes = 0usize;
    let mut state: u64 = 0x2545_f491_4f6c_dd1d;
    for _ in 0..3000 {
        state = state.wrapping_mul(6364136223846793005).wrapping_add(1442695040888963407);
        let value = ((state >> 33) % 64) as i32;
        let remove = (state >> 20) % 3 == 0;
        if remove {
            if let Some(at) = model.iter().position(|v| *v == value) {
                model.remove(at);
                successful_removes += 1;
            }
            tree.remove(value);
        } else {
            model.push(value);
            inserts += 1;
            tree.insert(value);
        }
        assert_eq!(tree.len(), inserts - successful_removes);
        assert_eq!(tree.search(value), model.contains(&value));
        assert!(tree.validate());
        assert!(tree.height() <= 2 * floor_log2(tree.len() + 1));
    }
    model.sort();
    assert_eq!(tree.in_order(), model);
    for value in 0..64 {
        assert_eq!(tree.search(value), model.contains(&value));
    }
}

#[test]
fn height_is_between_black_height_and_twice_black_height() {
    let mut tree: RedBlackTree<i32> = RedBlackTree::new();
    for v in 0..200 {
        tree.insert((v * 37) % 101);
        assert!(tree.black_height() <= tree.height());
        assert!(tree.height() <= 2 * tree.black_height());
    }
}

#[test]
fn in_order_walk_is_ascending() {
    let tree = tree_of(&[9, 1, 8, 2, 7, 3, 6, 4, 5, 5, 0]);
    assert_eq!(tree.in_order(), vec![0, 1, 2, 3, 4, 5, 5, 6, 7, 8, 9]);
}

#[test]
fn other_ordered_types_work() {
    let mut tree: RedBlackTree<(u8, i64)> = RedBlackTree::new();
    tree.insert((2, -1));
    tree.insert((1, 7));
    tree.insert((2, -5));
    assert!(tree.search((1, 7)));
    assert!(!tree.search((1, 8)));
    assert!(tree.validate());
    assert_eq!(tree.in_order(), vec![(1, 7), (2, -5), (2, -1)]);
    tree.remove((2, -5));
    assert_eq!(tree.in_order(), vec![(1, 7), (2, -1)]);
}

#[test]
fn elements_that_are_not_copied_move_through_the_tree() {
    let mut tree: RedBlackTree<String> = RedBlackTree::new();
    for word in ["pear", "apple", "quince", "fig", "medlar", "plum", "sloe"] {
        tree.insert(word.to_string());
        assert!(tree.validate());
    }
    assert!(tree.search("fig".to_string()));
    tree.remove("pear".to_string());
    assert!(!tree.search("pear".to_string()));
    assert!(tree.validate());
    assert_eq!(tree.in_order(), vec!["apple", "fig", "medlar", "plum", "quince", "sloe"]);
    tree.remove("medlar".to_string());
    tree.remove("apple".to_string());
    assert!(tree.validate());
    assert_eq!(tree.in_order(), vec!["fig", "plum", "quince", "sloe"]);
    assert_eq!(tree.len(), 4);
}

#[test]
fn well_formedness_is_free_to_call() {
    let mut tree = tree_of(&[3, 1, 2]);
    tree.well_formedness();
    tree.remove(1);
    tree.well_formedness();
    assert!(tree.validate());
}
