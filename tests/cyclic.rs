use strict_heaps::util::cyclic_list::CyclicList;

#[test]
fn singleton_links_to_itself() {
    let mut l: CyclicList<char> = CyclicList::new();
    let a = l.singleton('a');
    assert!(l.is_single(a));
    assert_eq!(l.next(a), a);
    assert_eq!(l.prev(a), a);
    assert_eq!(*l.item(a), 'a');
}

#[test]
fn push_and_remove() {
    let mut l: CyclicList<u8> = CyclicList::new();
    let a = l.singleton(1);
    let b = l.singleton(2);
    let c = l.singleton(3);
    l.push_back(a, b);
    l.push_front(a, c);
    assert_eq!(l.next(a), b);
    assert_eq!(l.next(b), c);
    assert_eq!(l.next(c), a);
    assert_eq!(l.prev(a), c);
    l.remove(b);
    assert!(l.is_single(b));
    assert_eq!(l.next(a), c);
    assert_eq!(l.prev(c), a);
}

#[test]
fn extend_joins_cycles() {
    let mut l: CyclicList<u8> = CyclicList::new();
    let a = l.singleton(1);
    let b = l.singleton(2);
    let c = l.singleton(3);
    let d = l.singleton(4);
    l.push_back(c, d);
    l.extend_back(a, c);
    assert_eq!(l.next(a), c);
    assert_eq!(l.next(c), d);
    assert_eq!(l.next(d), a);
    l.extend_front(a, b);
    assert_eq!(l.prev(a), b);
    assert_eq!(l.next(d), b);
    assert!(CyclicList::<u8>::ptr_eq(a, a));
    assert!(!CyclicList::<u8>::ptr_eq(a, b));
}

#[test]
fn append_shifts_links() {
    let mut l: CyclicList<u8> = CyclicList::new();
    let a = l.singleton(1);
    let mut m: CyclicList<u8> = CyclicList::new();
    let x = m.singleton(7);
    let y = m.singleton(8);
    m.push_back(x, y);
    l.append(m);
    assert_eq!(l.size(), 3);
    assert_eq!(l.next(a), a);
    assert_eq!(l.next(1), 2);
    assert_eq!(*l.item(2), 8);
}
