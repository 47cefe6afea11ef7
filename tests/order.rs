use std::ops::Range;
use strict_heaps::order::linked_list::LinkedList;
use strict_heaps::order::ofm::{Index, Indexable, Node, Ofm, Tree};

fn ranges(t: &Tree, index: usize) -> Vec<Range<usize>> {
    let mut output = Vec::new();
    let mut n = t.get_leaf(index);
    output.push(t.range(n));
    for _ in 0..(t.height - 1) {
        n.parent();
        output.push(t.range(n));
    }
    output
}

#[test]
fn range() {
    let t = Tree::new(5);
    assert_eq!(ranges(&t, 0), [0..1, 0..2, 0..4, 0..8, 0..16]);
    assert_eq!(ranges(&t, 15), [15..16, 14..16, 12..16, 8..16, 0..16]);
    assert_eq!(ranges(&t, 3), [3..4, 2..4, 0..4, 0..8, 0..16]);
    assert_eq!(ranges(&t, 8), [8..9, 8..10, 8..12, 8..16, 0..16]);
}

#[test]
fn tree_node_moves() {
    let t = Tree::new(3);
    assert_eq!(t.size(), 4);
    let n = Node { depth: 2, offset: 2 };
    assert_eq!(n.sibling().offset, 3);
    assert_eq!(Node { depth: 2, offset: 3 }.sibling().offset, 2);
    let mut m = n;
    m.parent();
    assert_eq!((m.depth, m.offset), (1, 1));
    assert!(!m.is_root());
    m.parent();
    assert!(m.is_root());
}

#[test]
fn test_ofm_back() {
    let mut o = Ofm::<usize>::new();
    o.push_back(1);
    o.push_back(2);
    o.push_back(3);
    o.push_back(4);
    assert_eq!(o.items().into_iter().cloned().collect::<Vec<usize>>(), [1usize, 2, 3, 4]);
}

#[test]
fn test_ofm_front() {
    let mut o = Ofm::<usize>::new();
    o.push_front(1);
    o.push_front(2);
    o.push_front(3);
    o.push_front(4);
    assert_eq!(o.items().into_iter().cloned().collect::<Vec<usize>>(), [4usize, 3, 2, 1]);
}

struct Atom(usize);
impl Indexable for Atom {
    fn index(&mut self, _: Index) {
        self.0 += 1;
    }
}

#[test]
fn test_ofm_moving() {
    let mut o = Ofm::<Atom>::new();
    o.push_back(Atom(0));
    o.push_back(Atom(0));
    o.push_back(Atom(0));
    o.push_back(Atom(0));
    assert!(o.items().into_iter().map(|a| a.0).all(|n| n > 0))
}

#[test]
fn ofm_many_in_order() {
    let mut o = Ofm::<u64>::new();
    for i in 0..200u64 {
        o.push_back(i);
    }
    let v: Vec<u64> = o.items().into_iter().cloned().collect();
    assert_eq!(v, (0..200u64).collect::<Vec<u64>>());
    assert_eq!(o.size(), 200);
}

#[test]
fn ofm_front_and_back() {
    let mut o = Ofm::<u64>::new();
    for i in 0..50u64 {
        o.push_front(i);
        o.push_back(100 + i);
    }
    let v: Vec<u64> = o.items().into_iter().cloned().collect();
    let mut want: Vec<u64> = (0..50u64).rev().collect();
    want.extend(100..150u64);
    assert_eq!(v, want);
}

#[test]
fn test_ll() {
    let mut ll = LinkedList::new();
    ll.push_back(1);
    ll.push_back(2);
    ll.push_front(-1);
    ll.push_front(-2);
    assert_eq!(ll.values(), [-2, -1, 1, 2]);
}

#[test]
fn ll_pop_and_extract() {
    let mut ll: LinkedList<u32> = LinkedList::new();
    for i in 0..5u32 {
        ll.push_back(i);
    }
    let a = ll.pop_front();
    assert_eq!(a.get(), 0);
    assert_eq!(a.try_unwrap(), Some(0));
    let mid = 2usize;
    let b = ll.extract(mid);
    assert_eq!(*b.value(), 2);
    assert_eq!(ll.values(), [1, 3, 4]);
    assert_eq!(ll.front().map(|x| x.get()), Some(1));
    assert_eq!(ll.back().map(|x| x.get()), Some(4));
    let last = ll.back().map(|x| x.slot()).unwrap();
    ll.extract(last);
    assert_eq!(ll.values(), [1, 3]);
}

#[test]
fn ll_empty() {
    let ll: LinkedList<u8> = LinkedList::new();
    assert!(ll.front().is_none());
    assert!(ll.back().is_none());
    assert!(ll.values().is_empty());
}

#[test]
fn ofm_capacity_grows() {
    let mut o = Ofm::<u64>::new();
    assert_eq!(o.cells_len(), 2);
    for i in 0..10u64 {
        o.push_back(i);
    }
    assert!(o.cells_len() >= 10);
    assert_eq!(o.items().len(), 10);
}
