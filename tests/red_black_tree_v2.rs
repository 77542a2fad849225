use ods::red_black_tree_v2::RedBlackTree;
use rand::seq::SliceRandom;

#[test]
fn red_black_tree_v2_test_red_black_tree() {
    let mut tree = RedBlackTree::new();
    let mut v = (0..100).collect::<Vec<_>>();
    let mut rng = rand::thread_rng();
    v.shuffle(&mut rng);
    for i in 0..100 {
        if v[i] % 2 == 0 {
            assert_eq!(tree.insert(v[i]), true);
        }
    }
    for i in 0..100 {
        assert_eq!(tree.contains(&i), i % 2 == 0);
    }
    v.shuffle(&mut rng);
    for i in 0..100 {
        tree.remove(&v[i]);
    }
}

#[test]
fn v2_remove_then_contains() {
    let mut tree = RedBlackTree::new();
    for k in 0..50 {
        assert!(tree.insert(k));
    }
    for k in (0..50).step_by(2) {
        tree.remove(&k);
    }
    for k in 0..50 {
        assert_eq!(tree.contains(&k), k % 2 == 1);
    }
}

#[test]
fn v2_picture_has_one_row_per_level() {
    let mut tree = RedBlackTree::new();
    for k in 0..7 {
        tree.insert(k);
    }
    let rows = tree.picture();
    assert_eq!(rows.len(), 3);
}

#[test]
fn v2_remove_reports_presence_and_keeps_shape() {
    let mut tree = RedBlackTree::new();
    for k in 0..40 {
        assert!(tree.insert(k * 3));
    }
    assert!(tree.check().is_ok());
    for k in 0..120 {
        assert_eq!(tree.remove(&k), k % 3 == 0);
        assert!(tree.check().is_ok());
    }
    assert!(!tree.contains(&0));
}
