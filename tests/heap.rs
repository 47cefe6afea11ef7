use strict_heaps::heap::sfib::Sfib;

#[test]
fn insert_three_min_and_size() {
    let mut h: Sfib<()> = Sfib::new();
    h.insert(1, ());
    h.insert(2, ());
    h.insert(0, ());
    assert_eq!(h.min_key(), Some(0));
    assert_eq!(h.size(), 3);
}

#[test]
fn meld_two_heaps() {
    let mut a: Sfib<u32> = Sfib::new();
    for k in [1u64, 5, 9] {
        a.insert(k, k as u32 * 10);
    }
    let mut b: Sfib<u32> = Sfib::new();
    for k in [2u64, 3] {
        b.insert(k, k as u32 * 10);
    }
    a.meld(b);
    assert_eq!(a.min_key(), Some(1));
    assert_eq!(a.size(), 5);
    assert_eq!(a.min_val(), Some(&10));
}

#[test]
fn meld_small_into_large_demotes_small() {
    let mut big: Sfib<()> = Sfib::new();
    let first = big.insert(5000, ());
    let second = big.insert(5001, ());
    for k in 2..1000u64 {
        big.insert(5000 + k, ());
    }
    assert_eq!(big.size(), 1000);
    let mut small: Sfib<()> = Sfib::new();
    let lone = small.insert(7, ());
    assert!(small.is_active(&lone));
    let first_was = big.is_active(&first);
    let second_was = big.is_active(&second);
    big.meld(small);
    let moved = big.element(1000).unwrap();
    assert_eq!(lone.index(), 0);
    assert!(!big.is_active(&moved));
    assert_eq!(big.is_active(&first), first_was);
    assert_eq!(big.is_active(&second), second_was);
    assert_eq!(big.min_key(), Some(7));
    assert_eq!(big.size(), 1001);
}

#[test]
fn empty_heap_has_no_min() {
    let h: Sfib<u8> = Sfib::new();
    assert_eq!(h.min_key(), None);
    assert!(h.min_val().is_none());
    assert!(h.min_node().is_none());
    assert_eq!(h.size(), 0);
}

#[test]
fn meld_with_empty_keeps_heap() {
    let mut a: Sfib<u8> = Sfib::new();
    a.insert(4, 1);
    a.meld(Sfib::new());
    assert_eq!(a.min_key(), Some(4));
    let mut e: Sfib<u8> = Sfib::new();
    e.meld(a);
    assert_eq!(e.min_key(), Some(4));
    assert_eq!(e.size(), 1);
}

#[test]
fn min_node_follows_smallest_key() {
    let mut h: Sfib<&str> = Sfib::new();
    h.insert(10, "ten");
    let e = h.insert(3, "three");
    h.insert(8, "eight");
    assert_eq!(h.min_node().map(|n| n.index()), Some(e.index()));
    assert_eq!(h.min_val(), Some(&"three"));
}

#[test]
fn insert_into_single_demotes_old_root() {
    let mut h: Sfib<()> = Sfib::new();
    let a = h.insert(1, ());
    assert!(h.is_active(&a));
    let b = h.insert(2, ());
    assert!(!h.is_active(&a));
    assert!(h.is_active(&b));
    let c = h.insert(3, ());
    assert!(!h.is_active(&c));
}

#[test]
fn equal_and_descending_keys() {
    let mut h: Sfib<()> = Sfib::new();
    for k in (0..50u64).rev() {
        h.insert(k, ());
        assert_eq!(h.min_key(), Some(k));
    }
    h.insert(0, ());
    assert_eq!(h.min_key(), Some(0));
    assert_eq!(h.size(), 51);
}

#[test]
fn largest_key() {
    let mut h: Sfib<()> = Sfib::new();
    h.insert(u64::MAX, ());
    h.insert(u64::MAX - 1, ());
    assert_eq!(h.min_key(), Some(u64::MAX - 1));
}

#[test]
fn insert_handle_indexes_its_key() {
    let mut h: Sfib<&str> = Sfib::new();
    let e = h.insert(9, "nine");
    assert_eq!(h.min_node().map(|n| n.index()), Some(e.index()));
    let f = h.insert(4, "four");
    assert_eq!(f.index(), 1);
    assert_eq!(h.min_val(), Some(&"four"));
}
