//! A linked list over an arena, whose elements keep stable slots, so that
//! one in the middle can be taken out in constant time.

use vstd::prelude::*;

verus! {

/// An element of a `LinkedList`: the value and the slot it holds.
pub struct Atom<T> {
    slot: usize,
    value: T,
}

impl<T> Atom<T> {
    pub closed spec fn slot_of(&self) -> usize {
        self.slot
    }

    pub closed spec fn value_of(&self) -> T {
        self.value
    }

    fn new(slot: usize, value: T) -> (r: Self)
        ensures
            r.slot_of() == slot,
            r.value_of() == value,
    {
        Atom { slot, value }
    }

    /// The value, taken out of the atom.
    pub fn try_unwrap(self) -> (r: Option<T>)
        ensures
            r == Some(self.value_of()),
    {
        Some(self.value)
    }

    /// The slot the atom holds in its list.
    pub fn slot(&self) -> (r: usize)
        ensures
            r == self.slot_of(),
    {
        self.slot
    }

    /// A reference to the value.
    pub fn value(&self) -> (r: &T)
        ensures
            *r == self.value_of(),
    {
        &self.value
    }
}

impl<T: Copy> Atom<T> {
    pub fn get(&self) -> (r: T)
        ensures
            r == self.value_of(),
    {
        self.value
    }
}

pub struct LinkedList<T> {
    slots: Vec<Option<Atom<T>>>,
    prev: Vec<Option<usize>>,
    next: Vec<Option<usize>>,
    front: Option<usize>,
    back: Option<usize>,
    order: Ghost<Seq<usize>>,
}

impl<T> LinkedList<T> {
    /// The slots of the elements, front to back.
    pub closed spec fn order(&self) -> Seq<usize> {
        self.order@
    }

    /// Number of slots ever used.
    pub closed spec fn arena_len(&self) -> nat {
        self.slots@.len()
    }

    /// The values, front to back.
    pub closed spec fn view(&self) -> Seq<T> {
        self.order@.map_values(|s: usize| self.slots@[s as int].unwrap().value)
    }

    pub closed spec fn wf(&self) -> bool {
        let n = self.slots@.len();
        let o = self.order@;
        &&& self.prev@.len() == n
        &&& self.next@.len() == n
        &&& o.no_duplicates()
        &&& forall|k: int| 0 <= k < o.len() ==> (#[trigger] o[k]) < n
        &&& forall|s: int| 0 <= s < n ==> ((#[trigger] self.slots@[s]) is Some <==> o.contains(s as usize))
        &&& forall|s: int| 0 <= s < n && self.slots@[s] is Some ==> (#[trigger] self.slots@[s]).unwrap().slot == s
        &&& self.front == (if o.len() > 0 { Some(o[0]) } else { None::<usize> })
        &&& self.back == (if o.len() > 0 { Some(o.last()) } else { None::<usize> })
        &&& forall|k: int| 0 <= k < o.len() ==> #[trigger] self.next@[o[k] as int] == (if k + 1 < o.len() { Some(o[k + 1]) } else { None::<usize> })
        &&& forall|k: int| 0 <= k < o.len() ==> #[trigger] self.prev@[o[k] as int] == (if k > 0 { Some(o[k - 1]) } else { None::<usize> })
    }

    /// An empty list.
    pub fn new() -> (r: Self)
        ensures
            r.wf(),
            r.view() == Seq::<T>::empty(),
            r.arena_len() == 0,
    {
        let r = LinkedList { slots: Vec::new(), prev: Vec::new(), next: Vec::new(), front: None, back: None, order: Ghost(Seq::empty()) };
        proof {
            assert(r.view() =~= Seq::<T>::empty());
        }
        r
    }

/// Adds `value` at the end.
    pub fn push_back(&mut self, value: T)
        requires
            old(self).wf(),
            old(self).arena_len() < usize::MAX,
        ensures
            final(self).wf(),
            final(self).view() == old(self).view().push(value),
            final(self).arena_len() == old(self).arena_len() + 1,
    {
        let s = self.slots.len();
        let ghost o = self.order@;
        proof {
            assert(!o.contains(s)) by {
                if o.contains(s) {
                    let k = choose|k: int| 0 <= k < o.len() && o[k] == s;
                }
            }
        }
        self.slots.push(Some(Atom::new(s, value)));
        self.prev.push(self.back);
        self.next.push(None);
        match self.back {
            Some(b) => {
                proof {
                    assert(o.contains(b));
                }
                self.next.set(b, Some(s));
            },
            None => {
                self.front = Some(s);
            },
        }
        self.back = Some(s);
        self.order = Ghost(o.push(s));
        proof {
            let o2 = o.push(s);
            assert forall|k: int| 0 <= k < o2.len() implies #[trigger] self.next@[o2[k] as int] == (if k + 1 < o2.len() { Some(o2[k + 1]) } else { None::<usize> }) by {
                if k + 1 < o.len() {
                    assert(o[k] != o[o.len() - 1]);
                }
            }
            assert forall|k: int| 0 <= k < o2.len() implies #[trigger] self.prev@[o2[k] as int] == (if k > 0 { Some(o2[k - 1]) } else { None::<usize> }) by {
                if k < o.len() {
                    assert(o[k] < s);
                }
            }
            assert forall|j: int| 0 <= j < self.slots@.len() implies ((#[trigger] self.slots@[j]) is Some <==> o2.contains(j as usize)) by {
                if j < s {
                    if o.contains(j as usize) {
                        let k = choose|k: int| 0 <= k < o.len() && o[k] == j as usize;
                        assert(o2[k] == j as usize);
                    }
                    if o2.contains(j as usize) {
                        let k = choose|k: int| 0 <= k < o2.len() && o2[k] == j as usize;
                        assert(k < o.len());
                        assert(o[k] == j as usize);
                    }
                } else {
                    assert(o2[o.len() as int] == s);
                }
            }
            assert(self.view() =~= old(self).view().push(value)) by {
                assert forall|k: int| 0 <= k < o.len() implies self.slots@[o[k] as int] == old(self).slots@[o[k] as int] by {
                    assert(o[k] < s);
                }
            }
        }
    }

    /// Adds `value` at the front.
    pub fn push_front(&mut self, value: T)
        requires
            old(self).wf(),
            old(self).arena_len() < usize::MAX,
        ensures
            final(self).wf(),
            final(self).view() == seq![value] + old(self).view(),
            final(self).arena_len() == old(self).arena_len() + 1,
    {
        let s = self.slots.len();
        let ghost o = self.order@;
        proof {
            assert(!o.contains(s)) by {
                if o.contains(s) {
                    let k = choose|k: int| 0 <= k < o.len() && o[k] == s;
                }
            }
        }
        self.slots.push(Some(Atom::new(s, value)));
        self.prev.push(None);
        self.next.push(self.front);
        match self.front {
            Some(f) => {
                proof {
                    assert(o.contains(f));
                }
                self.prev.set(f, Some(s));
            },
            None => {
                self.back = Some(s);
            },
        }
        self.front = Some(s);
        let ghost o2 = seq![s] + o;
        self.order = Ghost(o2);
        proof {
            assert forall|k: int| 0 <= k < o2.len() implies (#[trigger] o2[k]) < self.slots@.len() by {
                if k > 0 { assert(o2[k] == o[k - 1]); }
            }
            assert(o2.no_duplicates()) by {
                assert forall|a: int, b: int| 0 <= a < o2.len() && 0 <= b < o2.len() && a != b implies o2[a] != o2[b] by {
                    if a > 0 { assert(o2[a] == o[a - 1]); assert(o[a - 1] < s); }
                    if b > 0 { assert(o2[b] == o[b - 1]); assert(o[b - 1] < s); }
                }
            }
            assert forall|k: int| 0 <= k < o2.len() implies #[trigger] self.next@[o2[k] as int] == (if k + 1 < o2.len() { Some(o2[k + 1]) } else { None::<usize> }) by {
                if k > 0 {
                    assert(o2[k] == o[k - 1]);
                    assert(o[k - 1] < s);
                    if k < o.len() { assert(o2[k + 1] == o[k]); }
                }
            }
            assert forall|k: int| 0 <= k < o2.len() implies #[trigger] self.prev@[o2[k] as int] == (if k > 0 { Some(o2[k - 1]) } else { None::<usize> }) by {
                if k > 1 {
                    assert(o2[k] == o[k - 1]);
                    assert(o[k - 1] != o[0]);
                    assert(o2[k - 1] == o[k - 2]);
                } else if k == 1 {
                    assert(o2[1] == o[0]);
                }
            }
            assert forall|j: int| 0 <= j < self.slots@.len() implies ((#[trigger] self.slots@[j]) is Some <==> o2.contains(j as usize)) by {
                if j < s {
                    if o.contains(j as usize) {
                        let k = choose|k: int| 0 <= k < o.len() && o[k] == j as usize;
                        assert(o2[k + 1] == j as usize);
                    }
                    if o2.contains(j as usize) {
                        let k = choose|k: int| 0 <= k < o2.len() && o2[k] == j as usize;
                        assert(k > 0);
                        assert(o[k - 1] == j as usize);
                    }
                } else {
                    assert(o2[0] == s);
                }
            }
            if o.len() > 0 {
                assert(o2.last() == o.last());
            }
            assert(self.view() =~= seq![value] + old(self).view()) by {
                assert forall|k: int| 0 <= k < o.len() implies self.slots@[o[k] as int] == old(self).slots@[o[k] as int] by {
                    assert(o[k] < s);
                }
            }
        }
    }

    /// Takes the first element out.
    pub fn pop_front(&mut self) -> (r: Atom<T>)
        requires
            old(self).wf(),
            old(self).view().len() > 0,
        ensures
            final(self).wf(),
            r.value_of() == old(self).view()[0],
            final(self).view() == old(self).view().drop_first(),
            final(self).arena_len() == old(self).arena_len(),
    {
        let ghost o = self.order@;
        let s = self.front.unwrap();
        proof {
            assert(o[0] == s);
        }
        let mut cell: Option<Atom<T>> = None;
        self.slots.set_and_swap(s, &mut cell);
        let n = self.next[s];
        match n {
            Some(x) => {
                self.prev.set(x, None);
                self.front = Some(x);
            },
            None => {
                self.front = None;
                self.back = None;
            },
        }
        self.next.set(s, None);
        let ghost o2 = o.drop_first();
        self.order = Ghost(o2);
        proof {
            assert forall|k: int| 0 <= k < o2.len() implies #[trigger] self.next@[o2[k] as int] == (if k + 1 < o2.len() { Some(o2[k + 1]) } else { None::<usize> }) by {
                assert(o2[k] == o[k + 1]);
                assert(o[k + 1] != o[0]);
            }
            assert forall|k: int| 0 <= k < o2.len() implies #[trigger] self.prev@[o2[k] as int] == (if k > 0 { Some(o2[k - 1]) } else { None::<usize> }) by {
                assert(o2[k] == o[k + 1]);
                if k > 0 {
                    assert(o[k + 1] != o[1]);
                }
            }
            assert forall|j: int| 0 <= j < self.slots@.len() implies ((#[trigger] self.slots@[j]) is Some <==> o2.contains(j as usize)) by {
                if j != s {
                    if o.contains(j as usize) {
                        let k = choose|k: int| 0 <= k < o.len() && o[k] == j as usize;
                        assert(k > 0);
                        assert(o2[k - 1] == j as usize);
                    }
                    if o2.contains(j as usize) {
                        let k = choose|k: int| 0 <= k < o2.len() && o2[k] == j as usize;
                        assert(o[k + 1] == j as usize);
                    }
                } else {
                    if o2.contains(j as usize) {
                        let k = choose|k: int| 0 <= k < o2.len() && o2[k] == j as usize;
                        assert(o[k + 1] == o[0]);
                    }
                }
            }
            if o2.len() > 0 {
                assert(o2.last() == o.last());
            }
            assert(o.contains(s));
            assert(self.view() =~= old(self).view().drop_first()) by {
                assert forall|k: int| 0 <= k < o2.len() implies self.slots@[o2[k] as int] == old(self).slots@[o2[k] as int] by {
                    assert(o2[k] == o[k + 1]);
                    assert(o[k + 1] != o[0]);
                }
            }
        }
        cell.unwrap()
    }

/// Takes out the element in `slot`, wherever it stands.
    pub fn extract(&mut self, slot: usize) -> (r: Atom<T>)
        requires
            old(self).wf(),
            old(self).order().contains(slot),
        ensures
            final(self).wf(),
            final(self).arena_len() == old(self).arena_len(),
            exists|k: int|
                0 <= k < old(self).order().len() && old(self).order()[k] == slot
                    && final(self).view() == old(self).view().remove(k)
                    && r.value_of() == old(self).view()[k],
    {
        let ghost o = self.order@;
        let ghost k = choose|k: int| 0 <= k < o.len() && o[k] == slot;
        let mut cell: Option<Atom<T>> = None;
        self.slots.set_and_swap(slot, &mut cell);
        let p = self.prev[slot];
        let n = self.next[slot];
        match p {
            Some(x) => {
                proof { assert(o[k - 1] == x); }
                self.next.set(x, n);
            },
            None => {
                self.front = n;
            },
        }
        match n {
            Some(x) => {
                proof { assert(o[k + 1] == x); }
                self.prev.set(x, p);
            },
            None => {
                self.back = p;
            },
        }
        self.prev.set(slot, None);
        self.next.set(slot, None);
        let ghost o2 = o.remove(k);
        self.order = Ghost(o2);
        proof {
            assert forall|a: int, b: int| 0 <= a < o.len() && 0 <= b < o.len() && a != b implies o[a] != o[b] by {}
            assert forall|j: int| 0 <= j < o2.len() implies (#[trigger] o2[j]) == (if j < k { o[j] } else { o[j + 1] }) by {}
            assert(o2.no_duplicates()) by {
                assert forall|a: int, b: int| 0 <= a < o2.len() && 0 <= b < o2.len() && a != b implies o2[a] != o2[b] by {
                    let a2 = if a < k { a } else { a + 1 };
                    let b2 = if b < k { b } else { b + 1 };
                    assert(o2[a] == o[a2]);
                    assert(o2[b] == o[b2]);
                }
            }
            assert forall|j: int| 0 <= j < o2.len() implies #[trigger] self.next@[o2[j] as int] == (if j + 1 < o2.len() { Some(o2[j + 1]) } else { None::<usize> }) by {
                let j2 = if j < k { j } else { j + 1 };
                assert(o2[j] == o[j2]);
                assert(o[j2] != slot);
                if j + 1 < o2.len() {
                    let j3 = if j + 1 < k { j + 1 } else { j + 2 };
                    assert(o2[j + 1] == o[j3]);
                }
            }
            assert forall|j: int| 0 <= j < o2.len() implies #[trigger] self.prev@[o2[j] as int] == (if j > 0 { Some(o2[j - 1]) } else { None::<usize> }) by {
                let j2 = if j < k { j } else { j + 1 };
                assert(o2[j] == o[j2]);
                assert(o[j2] != slot);
                if j > 0 {
                    let j3 = if j - 1 < k { j - 1 } else { j };
                    assert(o2[j - 1] == o[j3]);
                }
            }
            assert forall|j: int| 0 <= j < self.slots@.len() implies ((#[trigger] self.slots@[j]) is Some <==> o2.contains(j as usize)) by {
                if o.contains(j as usize) && j != slot {
                    let i = choose|i: int| 0 <= i < o.len() && o[i] == j as usize;
                    assert(i != k);
                    let i2 = if i < k { i } else { i - 1 };
                    assert(o2[i2] == j as usize);
                }
                if o2.contains(j as usize) {
                    let i = choose|i: int| 0 <= i < o2.len() && o2[i] == j as usize;
                    let i2 = if i < k { i } else { i + 1 };
                    assert(o[i2] == j as usize);
                    assert(j != slot);
                }
            }
            if o2.len() > 0 {
                if k > 0 {
                    assert(o2[0] == o[0]);
                }
                if k < o.len() - 1 {
                    assert(o2.last() == o.last());
                }
            }
            assert(o.contains(slot));
            assert(self.view() =~= old(self).view().remove(k)) by {
                assert forall|j: int| 0 <= j < o2.len() implies self.slots@[o2[j] as int] == old(self).slots@[o2[j] as int] by {
                    let j2 = if j < k { j } else { j + 1 };
                    assert(o2[j] == o[j2]);
                    assert(o[j2] != slot);
                }
            }
        }
        cell.unwrap()
    }

    /// The first element.
    pub fn front(&self) -> (r: Option<&Atom<T>>)
        requires
            self.wf(),
        ensures
            r is None <==> self.view().len() == 0,
            r is Some ==> r.unwrap().value_of() == self.view()[0] && r.unwrap().slot_of() == self.order()[0],
    {
        match self.front {
            Some(s) => {
                proof {
                    assert(self.order@.contains(s));
                }
                self.slots[s].as_ref()
            },
            None => None,
        }
    }

    /// The last element.
    pub fn back(&self) -> (r: Option<&Atom<T>>)
        requires
            self.wf(),
        ensures
            r is None <==> self.view().len() == 0,
            r is Some ==> r.unwrap().value_of() == self.view().last() && r.unwrap().slot_of() == self.order().last(),
    {
        match self.back {
            Some(s) => {
                proof {
                    assert(self.order@.contains(s));
                    assert(self.order@[self.order@.len() - 1] == s);
                }
                self.slots[s].as_ref()
            },
            None => None,
        }
    }
}

impl<T: Copy> LinkedList<T> {
    /// The values, front to back.
    pub fn values(&self) -> (r: Vec<T>)
        requires
            self.wf(),
        ensures
            r@ == self.view(),
    {
        let ghost o = self.order@;
        let mut r: Vec<T> = Vec::new();
        let mut cur = self.front;
        let ghost mut k: int = 0;
        while cur.is_some()
            invariant
                self.wf(),
                o == self.order@,
                0 <= k <= o.len(),
                cur == (if k < o.len() { Some(o[k]) } else { None::<usize> }),
                r@ == self.view().subrange(0, k),
            decreases o.len() - k,
        {
            let s = cur.unwrap();
            proof {
                assert(o.contains(s));
            }
            let v = self.slots[s].as_ref().unwrap().value;
            r.push(v);
            cur = self.next[s];
            proof {
                assert(self.view().subrange(0, k + 1) =~= self.view().subrange(0, k).push(v));
                k = k + 1;
            }
        }
        proof {
            assert(self.view().subrange(0, k) =~= self.view());
        }
        r
    }
}

} // verus!
