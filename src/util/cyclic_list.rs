//! Circular doubly-linked lists over an arena.
//!
//! Every slot of the arena belongs to exactly one cycle. Slots are addressed
//! by stable indices; `prev` and `next` are stored as indices, so splicing and
//! concatenating cycles is a constant number of index writes.

use vstd::prelude::*;

verus! {

pub struct CyclicList<T> {
    items: Vec<T>,
    prev: Vec<usize>,
    next: Vec<usize>,
}

impl<T> CyclicList<T> {
    /// The items held in the slots, by index.
    pub closed spec fn items(&self) -> Seq<T> {
        self.items@
    }

    /// The predecessor of each slot.
    pub closed spec fn prevs(&self) -> Seq<usize> {
        self.prev@
    }

    /// The successor of each slot.
    pub closed spec fn nexts(&self) -> Seq<usize> {
        self.next@
    }

    pub open spec fn len(&self) -> nat {
        self.items().len()
    }

    /// Each slot links to slots of the arena, and `prev` undoes `next`: the
    /// slots are partitioned into disjoint cycles.
    pub open spec fn wf(&self) -> bool {
        &&& self.prevs().len() == self.len()
        &&& self.nexts().len() == self.len()
        &&& forall|i: int|
            #![trigger self.nexts()[i]]
            #![trigger self.prevs()[i]]
            0 <= i < self.len() ==> {
            &&& self.nexts()[i] < self.len()
            &&& self.prevs()[i] < self.len()
            &&& self.prevs()[self.nexts()[i] as int] == i
            &&& self.nexts()[self.prevs()[i] as int] == i
        }
    }

    pub open spec fn valid(&self, i: usize) -> bool {
        i < self.len()
    }

    /// Empty arena.
    pub fn new() -> (r: Self)
        ensures
            r.wf(),
            r.len() == 0,
    {
        CyclicList { items: Vec::new(), prev: Vec::new(), next: Vec::new() }
    }

    pub fn size(&self) -> (r: usize)
        requires
            self.wf(),
        ensures
            r == self.len(),
    {
        self.items.len()
    }

    /// Adds `item` as a one-element cycle and returns its slot.
    pub fn singleton(&mut self, item: T) -> (r: usize)
        requires
            old(self).wf(),
            old(self).len() < usize::MAX,
        ensures
            final(self).wf(),
            r == old(self).len(),
            final(self).items() == old(self).items().push(item),
            final(self).prevs() == old(self).prevs().push(r),
            final(self).nexts() == old(self).nexts().push(r),
    {
        let r = self.items.len();
        self.items.push(item);
        self.prev.push(r);
        self.next.push(r);
        r
    }

    pub fn item(&self, i: usize) -> (r: &T)
        requires
            self.wf(),
            self.valid(i),
        ensures
            *r == self.items()[i as int],
    {
        &self.items[i]
    }

    /// Replaces the item of slot `i`, leaving the links alone.
    pub fn set_item(&mut self, i: usize, item: T)
        requires
            old(self).wf(),
            old(self).valid(i),
        ensures
            final(self).wf(),
            final(self).items() == old(self).items().update(i as int, item),
            final(self).prevs() == old(self).prevs(),
            final(self).nexts() == old(self).nexts(),
    {
        self.items.set(i, item);
    }

    pub fn prev(&self, i: usize) -> (r: usize)
        requires
            self.wf(),
            self.valid(i),
        ensures
            r == self.prevs()[i as int],
            self.valid(r),
    {
        self.prev[i]
    }

    pub fn next(&self, i: usize) -> (r: usize)
        requires
            self.wf(),
            self.valid(i),
        ensures
            r == self.nexts()[i as int],
            self.valid(r),
    {
        self.next[i]
    }

    /// Whether slot `i` is alone in its cycle.
    pub fn is_single(&self, i: usize) -> (r: bool)
        requires
            self.wf(),
            self.valid(i),
        ensures
            r == (self.nexts()[i as int] == i),
    {
        self.next[i] == i
    }

    /// Makes `a` the successor of `b`.
    fn put_behind(&mut self, a: usize, b: usize)
        requires
            old(self).valid(a),
            old(self).valid(b),
            old(self).prevs().len() == old(self).len(),
            old(self).nexts().len() == old(self).len(),
        ensures
            final(self).items() == old(self).items(),
            final(self).nexts() == old(self).nexts().update(b as int, a),
            final(self).prevs() == old(self).prevs().update(a as int, b),
    {
        self.next.set(b, a);
        self.prev.set(a, b);
    }

    /// Splices the one-element cycle `x` in just before `a`.
    pub fn push_front(&mut self, a: usize, x: usize)
        requires
            old(self).wf(),
            old(self).valid(a),
            old(self).valid(x),
            old(self).nexts()[x as int] == x,
            a != x,
        ensures
            final(self).wf(),
            final(self).items() == old(self).items(),
            final(self).nexts() == old(self).nexts()
                .update(old(self).prevs()[a as int] as int, x).update(x as int, a),
            final(self).prevs() == old(self).prevs()
                .update(x as int, old(self).prevs()[a as int]).update(a as int, x),
    {
        let p = self.prev[a];
        self.put_behind(x, p);
        self.put_behind(a, x);
    }

    /// Splices the one-element cycle `x` in just after `a`.
    pub fn push_back(&mut self, a: usize, x: usize)
        requires
            old(self).wf(),
            old(self).valid(a),
            old(self).valid(x),
            old(self).nexts()[x as int] == x,
            a != x,
        ensures
            final(self).wf(),
            final(self).items() == old(self).items(),
            final(self).nexts() == old(self).nexts()
                .update(a as int, x).update(x as int, old(self).nexts()[a as int]),
            final(self).prevs() == old(self).prevs()
                .update(x as int, a).update(old(self).nexts()[a as int] as int, x),
    {
        let n = self.next[a];
        self.put_behind(x, a);
        self.put_behind(n, x);
    }

    /// Joins the cycle through `b` into the one through `a`, with `b` first
    /// after `a`. On two slots of one cycle it splits that cycle in two.
    pub fn extend_back(&mut self, a: usize, b: usize)
        requires
            old(self).wf(),
            old(self).valid(a),
            old(self).valid(b),
        ensures
            final(self).wf(),
            final(self).items() == old(self).items(),
            final(self).nexts() == old(self).nexts()
                .update(a as int, b)
                .update(old(self).prevs()[b as int] as int, old(self).nexts()[a as int]),
            final(self).prevs() == old(self).prevs()
                .update(b as int, a)
                .update(old(self).nexts()[a as int] as int, old(self).prevs()[b as int]),
    {
        let n = self.next[a];
        let last = self.prev[b];
        self.put_behind(b, a);
        self.put_behind(n, last);
    }

    /// Joins the cycle through `b` into the one through `a`, with `b` first
    /// after the predecessor of `a`.
    pub fn extend_front(&mut self, a: usize, b: usize)
        requires
            old(self).wf(),
            old(self).valid(a),
            old(self).valid(b),
        ensures
            final(self).wf(),
            final(self).items() == old(self).items(),
            final(self).nexts() == old(self).nexts()
                .update(old(self).prevs()[a as int] as int, b)
                .update(old(self).prevs()[b as int] as int, a),
            final(self).prevs() == old(self).prevs()
                .update(b as int, old(self).prevs()[a as int])
                .update(a as int, old(self).prevs()[b as int]),
    {
        let p = self.prev[a];
        let last = self.prev[b];
        self.put_behind(b, p);
        self.put_behind(a, last);
    }

    /// Takes `x` out of its cycle, which closes up behind it; `x` is left as
    /// a one-element cycle.
    pub fn remove(&mut self, x: usize)
        requires
            old(self).wf(),
            old(self).valid(x),
        ensures
            final(self).wf(),
            final(self).items() == old(self).items(),
            old(self).nexts()[x as int] == x ==> final(self).nexts() == old(self).nexts()
                && final(self).prevs() == old(self).prevs(),
            old(self).nexts()[x as int] != x ==> final(self).nexts() == old(self).nexts()
                .update(old(self).prevs()[x as int] as int, old(self).nexts()[x as int])
                .update(x as int, x),
            old(self).nexts()[x as int] != x ==> final(self).prevs() == old(self).prevs()
                .update(old(self).nexts()[x as int] as int, old(self).prevs()[x as int])
                .update(x as int, x),
    {
        if self.next[x] == x {
            return ;
        }
        let p = self.prev[x];
        let n = self.next[x];
        self.put_behind(n, p);
        self.put_behind(x, x);
    }

    /// Moves the slots of `other` to the end of this arena; their links are
    /// shifted with them, so the cycles of both arenas are kept as they were.
    #[verifier::rlimit(80)]
    #[verifier::spinoff_prover]
    pub fn append(&mut self, other: Self)
        requires
            old(self).wf(),
            other.wf(),
            old(self).len() + other.len() <= usize::MAX,
        ensures
            final(self).wf(),
            final(self).items() == old(self).items() + other.items(),
            final(self).nexts() == old(self).nexts() + other.nexts().map_values(
                |x: usize| (x + old(self).len()) as usize,
            ),
            final(self).prevs() == old(self).prevs() + other.prevs().map_values(
                |x: usize| (x + old(self).len()) as usize,
            ),
    {
        let off = self.items.len();
        let ghost old_self = *self;
        let CyclicList { items: mut oitems, prev: oprev, next: onext } = other;
        self.items.append(&mut oitems);
        let mut i: usize = 0;
        while i < onext.len()
            invariant
                i <= onext@.len() == oprev@.len() == other.len(),
                onext@ == other.nexts(),
                oprev@ == other.prevs(),
                off == old_self.len(),
                off + other.len() <= usize::MAX,
                other.wf(),
                self.items@ == old_self.items() + other.items(),
                self.next@ == old_self.nexts() + other.nexts().subrange(0, i as int).map_values(
                    |x: usize| (x + off) as usize,
                ),
                self.prev@ == old_self.prevs() + other.prevs().subrange(0, i as int).map_values(
                    |x: usize| (x + off) as usize,
                ),
            decreases onext@.len() - i,
        {
            proof {
                assert(other.nexts()[i as int] < other.len());
                assert(other.prevs()[i as int] < other.len());
            }
            self.next.push(onext[i] + off);
            self.prev.push(oprev[i] + off);
            i = i + 1;
            proof {
                assert(other.nexts().subrange(0, i as int) == other.nexts().subrange(0, i - 1).push(other.nexts()[i - 1]));
                assert(other.prevs().subrange(0, i as int) == other.prevs().subrange(0, i - 1).push(other.prevs()[i - 1]));
            }
        }
        proof {
            assert(other.nexts().subrange(0, i as int) == other.nexts());
            assert(other.prevs().subrange(0, i as int) == other.prevs());
            let n = self.items@.len();
            assert forall|j: int| 0 <= j < n implies {
                &&& self.nexts()[j] < n
                &&& self.prevs()[j] < n
                &&& self.prevs()[self.nexts()[j] as int] == j
                &&& self.nexts()[self.prevs()[j] as int] == j
            } by {
                if j >= off {
                    let k = j - off;
                    assert(other.nexts()[k] < other.len());
                    assert(other.prevs()[k] < other.len());
                    assert(other.prevs()[other.nexts()[k] as int] == k);
                    assert(other.nexts()[other.prevs()[k] as int] == k);
                } else {
                    assert(old_self.nexts()[j] < off);
                    assert(old_self.prevs()[j] < off);
                }
            }
        }
    }

    /// Whether `a` and `b` are the same slot.
    pub fn ptr_eq(a: usize, b: usize) -> (r: bool)
        ensures
            r == (a == b),
    {
        a == b
    }
}

} // verus!
