use ods::linear_hash_table::{Item, LinearHashTable};

#[test]
fn test_linear_hash_table_hand() {
    let mut h = LinearHashTable::new();
    assert_eq!(h.get(&0), None);
    assert_eq!(h.len(), 0);

    // insert 0
    assert_eq!(h.insert(0), true);
    assert_eq!(h.get(&0), Some(&0));
    assert_eq!(h.len(), 1);

    // insert 1
    assert_eq!(h.insert(1), true);
    assert_eq!(h.get(&1), Some(&1));
    assert_eq!(h.len(), 2);

    // remove 0
    assert_eq!(h.remove(&0), true);
    assert_eq!(h.get(&0), None);
    assert_eq!(h.len(), 1);

    // insert 1
    assert_eq!(h.insert(1), false);
    assert_eq!(h.get(&1), Some(&1));
    assert_eq!(h.len(), 1);

    // remove 0
    assert_eq!(h.remove(&0), false);
    assert_eq!(h.get(&0), None);
    assert_eq!(h.len(), 1);
}

#[test]
fn test_linear_hash_table_large() {
    let mut h = LinearHashTable::new();
    for i in 0..100 {
        if i % 2 == 0 {
            h.insert(i);
        }
    }
    assert_eq!(h.len(), 50);
    for i in 0..100 {
        assert_eq!(h.get(&i).is_some(), i % 2 == 0);
    }
}

#[test]
fn hash_table_grows_and_shrinks() {
    let mut h = LinearHashTable::new();
    for i in 0..1000i64 {
        assert!(h.insert(i * 7919));
    }
    assert_eq!(h.len(), 1000);
    for i in 0..1000i64 {
        if i % 10 != 0 {
            assert!(h.remove(&(i * 7919)));
        }
    }
    assert_eq!(h.len(), 100);
    for i in 0..1000i64 {
        assert_eq!(h.get(&(i * 7919)).is_some(), i % 10 == 0);
    }
}

#[test]
fn hash_table_negative_and_extreme_keys() {
    let mut h = LinearHashTable::new();
    assert!(h.insert(-1));
    assert!(h.insert(i64::MIN));
    assert!(h.insert(i64::MAX));
    assert!(!h.insert(-1));
    assert_eq!(h.len(), 3);
    assert_eq!(h.get(&i64::MIN), Some(&i64::MIN));
    assert!(h.remove(&i64::MAX));
    assert_eq!(h.get(&i64::MAX), None);
    assert_eq!(h.len(), 2);
}

#[test]
fn hash_table_slots_hold_each_value_once() {
    let mut h = LinearHashTable::new();
    for k in [3i64, 17, 42] {
        h.insert(k);
    }
    h.remove(&17);
    let slots = h.slots();
    assert!(slots.len().is_power_of_two());
    assert_eq!(slots.iter().filter(|s| **s == Item::Value(3)).count(), 1);
    assert_eq!(slots.iter().filter(|s| **s == Item::Value(42)).count(), 1);
    assert!(!slots.contains(&Item::Value(17)));
}
