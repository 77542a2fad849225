use ods::meldable_heap::MeldableHeap;

#[test]
fn test_meldable_heap() {
    let mut h1 = MeldableHeap::new();
    for i in 0..16 {
        h1.insert(i);
    }
    let mut h2 = MeldableHeap::new();
    for i in 0..16 {
        h2.insert(i);
    }
    h1.append(&mut h2);
    assert_eq!(h1.pop(), Some(0));
    assert!(h2.is_empty());
}

#[test]
fn heap_pops_in_order_with_duplicates() {
    let mut h = MeldableHeap::new();
    let values = [5i64, -3, 9, 5, 0, 12, -3, 7];
    for v in values {
        h.insert(v);
    }
    assert_eq!(h.len(), 8);
    let mut out = Vec::new();
    while let Some(v) = h.pop() {
        out.push(v);
    }
    assert_eq!(out, vec![-3, -3, 0, 5, 5, 7, 9, 12]);
    assert!(h.is_empty());
    assert_eq!(h.len(), 0);
}

#[test]
fn heap_pop_on_empty_is_none() {
    let mut h = MeldableHeap::new();
    assert_eq!(h.pop(), None);
    assert!(h.is_empty());
}

#[test]
fn heap_append_moves_everything() {
    let mut a = MeldableHeap::new();
    let mut b = MeldableHeap::new();
    for i in 0..10i64 {
        a.insert(2 * i);
        b.insert(2 * i + 1);
    }
    a.append(&mut b);
    assert_eq!(a.len(), 20);
    assert_eq!(b.len(), 0);
    for i in 0..20i64 {
        assert_eq!(a.pop(), Some(i));
    }
}

#[test]
fn heap_listing_is_preorder_with_depths() {
    let mut h = MeldableHeap::new();
    h.insert(4);
    let listing = h.listing();
    assert_eq!(listing, vec![(0, 4)]);
    h.insert(1);
    h.insert(9);
    let listing = h.listing();
    assert_eq!(listing.len(), 3);
    assert_eq!(listing[0], (0, 1));
    for &(d, _) in &listing[1..] {
        assert!(d >= 1);
    }
}
