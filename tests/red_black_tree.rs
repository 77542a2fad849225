use ods::red_black_tree::{Color, Piece, RedBlackTree};
use rand::seq::SliceRandom;

#[test]
fn red_black_tree_test_red_black_tree() {
    let mut tree = RedBlackTree::new();
    let mut v = (0..100).collect::<Vec<_>>();
    let mut rng = rand::thread_rng();
    v.shuffle(&mut rng);
    for i in 0..100 {
        if v[i] % 2 == 0 {
            println!("> insert({:?})", v[i]);
            assert_eq!(tree.insert(v[i]), true);
            tree.check().unwrap();
        }
    }
    for i in 0..100 {
        assert_eq!(tree.contains(&i), i % 2 == 0);
    }
    v.shuffle(&mut rng);
    for i in 0..100 {
        println!("> remove({:?})", v[i]);
        if v[i] % 2 == 0 {
            assert_eq!(tree.remove(&v[i]), true);
            tree.check().unwrap();
        } else {
            assert_eq!(tree.remove(&v[i]), false);
        }
    }
}

#[test]
fn seven_keys_then_remove_inner_node() {
    let mut tree = RedBlackTree::new();
    for k in [5, 3, 8, 1, 4, 7, 9] {
        assert!(tree.insert(k));
    }
    assert!(tree.check().is_ok());
    assert!(tree.contains(&4));
    assert!(!tree.contains(&6));
    assert_eq!(tree.len(), 7);
    assert!(tree.picture()[0].contains(&Piece::Key(5, Color::Black)));
    assert!(tree.remove(&5));
    // The root took the least key of its right subtree.
    assert!(tree.picture()[0].contains(&Piece::Key(7, Color::Black)));
    assert!(tree.check().is_ok());
    assert!(!tree.contains(&5));
    assert_eq!(tree.len(), 6);
    for k in [1, 3, 4, 7, 8, 9] {
        assert!(tree.contains(&k));
    }
}

#[test]
fn increasing_keys_keep_height_logarithmic() {
    let mut tree = RedBlackTree::new();
    for k in 0..100 {
        assert!(tree.insert(k));
        assert!(tree.check().is_ok());
    }
    assert_eq!(tree.len(), 100);
    // 2 * log2(101) is a little over 13.3.
    assert!(tree.height() <= 13);
}

#[test]
fn insert_twice_is_a_no_op() {
    let mut tree = RedBlackTree::new();
    assert!(tree.insert(42));
    assert!(!tree.insert(42));
    assert_eq!(tree.len(), 1);
    assert!(tree.contains(&42));
    assert!(tree.check().is_ok());
}

#[test]
fn insert_then_remove_restores_len() {
    let mut tree = RedBlackTree::new();
    for k in [10, 20, 30] {
        tree.insert(k);
    }
    let before = tree.len();
    assert!(tree.insert(15));
    assert!(tree.remove(&15));
    assert!(!tree.contains(&15));
    assert_eq!(tree.len(), before);
    assert!(tree.check().is_ok());
}

#[test]
fn remove_absent_and_from_empty() {
    let mut tree = RedBlackTree::new();
    assert!(!tree.remove(&1));
    assert_eq!(tree.len(), 0);
    assert!(tree.check().is_ok());
    tree.insert(1);
    assert!(!tree.remove(&2));
    assert_eq!(tree.len(), 1);
    assert!(tree.remove(&1));
    assert_eq!(tree.len(), 0);
    assert!(!tree.contains(&1));
}

#[test]
fn descending_and_mixed_workload_keeps_shape() {
    let mut tree = RedBlackTree::new();
    for k in (0..200).rev() {
        tree.insert(k);
    }
    assert!(tree.check().is_ok());
    for k in (0..200).filter(|k| k % 3 != 0) {
        assert!(tree.remove(&k));
        assert!(tree.check().is_ok());
    }
    assert_eq!(tree.len(), 67);
    for k in 0..200 {
        assert_eq!(tree.contains(&k), k % 3 == 0);
    }
}

#[test]
fn extreme_keys() {
    let mut tree = RedBlackTree::new();
    assert!(tree.insert(i64::MAX));
    assert!(tree.insert(i64::MIN));
    assert!(tree.insert(0));
    assert!(tree.contains(&i64::MIN));
    assert!(tree.remove(&i64::MAX));
    assert!(!tree.contains(&i64::MAX));
    assert!(tree.check().is_ok());
}

#[test]
fn picture_has_one_row_per_level() {
    let mut tree = RedBlackTree::new();
    for k in [2, 1, 3] {
        tree.insert(k);
    }
    let rows = tree.picture();
    assert_eq!(rows.len(), tree.height());
    assert!(rows[0].contains(&Piece::Key(2, Color::Black)));
    for row in &rows {
        let width: usize = row
            .iter()
            .map(|p| match p {
                Piece::Blank(n) | Piece::Line(n) => *n,
                Piece::Key(..) => 2,
            })
            .sum();
        assert_eq!(width, 2 * tree.len());
    }
}

#[test]
fn picture_draws_each_key_once_in_its_color() {
    let mut tree = RedBlackTree::new();
    for k in 0..30 {
        tree.insert(k);
    }
    let rows = tree.picture();
    for k in 0..30 {
        let found: Vec<&Piece> = rows
            .iter()
            .flat_map(|row| row.iter())
            .filter(|p| matches!(p, Piece::Key(x, _) if *x == k))
            .collect();
        assert_eq!(found.len(), 1);
    }
    assert!(!rows
        .iter()
        .flat_map(|row| row.iter())
        .any(|p| matches!(p, Piece::Key(x, _) if *x >= 30)));
    assert!(rows[0].iter().any(|p| matches!(p, Piece::Key(_, Color::Black))));
}
