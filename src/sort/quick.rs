//! Hoare's quick sort.

use vstd::multiset::Multiset;
use vstd::prelude::*;

verus! {

/// `s` is in ascending order on `[lo, hi]`.
pub open spec fn sorted_between(s: Seq<u64>, lo: int, hi: int) -> bool {
    forall|a: int, b: int| lo <= a <= b <= hi ==> s[a] <= s[b]
}

/// The values of `s` in `[lo, hi]`, as a multiset.
pub open spec fn bag(s: Seq<u64>, lo: int, hi: int) -> Multiset<u64> {
    s.subrange(lo, hi + 1).to_multiset()
}

proof fn lemma_swap_bag(s: Seq<u64>, lo: int, hi: int, i: int, j: int)
    requires
        0 <= lo <= i <= hi < s.len(),
        lo <= j <= hi,
    ensures
        bag(s.update(i, s[j]).update(j, s[i]), lo, hi) == bag(s, lo, hi),
{
    broadcast use vstd::seq_lib::to_multiset_update;
    broadcast use vstd::multiset::group_multiset_axioms;
    let t = s.subrange(lo, hi + 1);
    let t2 = s.update(i, s[j]).update(j, s[i]).subrange(lo, hi + 1);
    assert(t2 =~= t.update(i - lo, t[j - lo]).update(j - lo, t[i - lo]));
    let m = t.to_multiset();
    assert(t.update(i - lo, t[j - lo]).to_multiset() == m.insert(t[j - lo]).remove(t[i - lo]));
    if i != j {
        assert(t.update(i - lo, t[j - lo])[j - lo] == t[j - lo]);
    }
    broadcast use vstd::seq_lib::to_multiset_contains;
    assert(t.contains(t[i - lo]));
    assert(t.contains(t[j - lo]));
    assert(m.count(t[i - lo]) > 0);
    let a = t[j - lo];
    let b = t[i - lo];
    assert forall|x: u64| #[trigger] m.insert(a).remove(b).insert(b).remove(a).count(x) == m.count(x) by {
        if x == a && x == b {
        } else if x == a {
        } else if x == b {
        }
    }
    assert(m.insert(a).remove(b).insert(b).remove(a) =~= m);
}

proof fn lemma_bag_bound(s: Seq<u64>, t: Seq<u64>, lo: int, hi: int, k: int)
    requires
        0 <= lo <= k <= hi < s.len(),
        hi < t.len(),
        bag(s, lo, hi) == bag(t, lo, hi),
    ensures
        exists|m: int| lo <= m <= hi && t[m] == s[k],
{
    broadcast use vstd::seq_lib::to_multiset_contains;
    let a = s.subrange(lo, hi + 1);
    let b = t.subrange(lo, hi + 1);
    assert(a[k - lo] == s[k]);
    assert(a.contains(s[k]));
    assert(a.to_multiset().count(s[k]) > 0);
    assert(b.contains(s[k]));
    let m = choose|m: int| 0 <= m < b.len() && b[m] == s[k];
    assert(t[m + lo] == s[k]);
}

/// Sorts `array` in ascending order.
pub fn quick_sort(array: &mut [u64])
    ensures
        final(array)@.len() == old(array)@.len(),
        final(array)@.to_multiset() == old(array)@.to_multiset(),
        sorted_between(final(array)@, 0, final(array)@.len() - 1),
{
    let len = array.len();
    if len == 0 {
        return ;
    }
    quick_sort_range(array, 0, len - 1);
    proof {
        assert(array@.subrange(0, len as int) =~= array@);
        assert(old(array)@.subrange(0, len as int) =~= old(array)@);
    }
}

/// Sorts `array[lo..=hi]`, leaving the rest alone.
pub fn quick_sort_range(array: &mut [u64], lo: usize, hi: usize)
    requires
        hi < old(array)@.len(),
    ensures
        final(array)@.len() == old(array)@.len(),
        bag(final(array)@, lo as int, hi as int) == bag(old(array)@, lo as int, hi as int),
        forall|k: int| 0 <= k < old(array)@.len() && !(lo <= k <= hi) ==> #[trigger] final(array)@[k] == old(array)@[k],
        sorted_between(final(array)@, lo as int, hi as int),
    decreases hi - lo,
{
    if lo < hi {
        let p = partition(array, lo, hi);
        let ghost a1 = array@;
        quick_sort_range(array, lo, p);
        let ghost a2 = array@;
        quick_sort_range(array, p + 1, hi);
        let ghost a3 = array@;
        proof {
            let pv = old(array)@[lo as int];
            assert forall|k: int| lo <= k <= p implies #[trigger] a3[k] <= pv by {
                assert(a3[k] == a2[k]);
                lemma_bag_bound(a2, a1, lo as int, p as int, k);
            }
            assert forall|k: int| p + 1 <= k <= hi implies #[trigger] a3[k] >= pv by {
                lemma_bag_bound(a3, a2, p + 1, hi as int, k);
                let m = choose|m: int| p + 1 <= m <= hi && a2[m] == a3[k];
                assert(a2[m] == a1[m]);
            }
            assert(bag(a3, lo as int, hi as int) == bag(a1, lo as int, hi as int)) by {
                let l1 = a1.subrange(lo as int, p + 1);
                let r1 = a1.subrange(p + 1, hi + 1);
                let l3 = a3.subrange(lo as int, p + 1);
                let r3 = a3.subrange(p + 1, hi + 1);
                assert(a1.subrange(lo as int, hi + 1) =~= l1 + r1);
                assert(a3.subrange(lo as int, hi + 1) =~= l3 + r3);
                assert(a2.subrange(lo as int, p + 1) =~= l3);
                assert(a2.subrange(p + 1, hi + 1) =~= r1);
                vstd::seq_lib::lemma_multiset_commutative(l1, r1);
                vstd::seq_lib::lemma_multiset_commutative(l3, r3);
            }
        }
    }
}

/// Hoare's partition of `array[lo..=hi]` around `array[lo]`: returns `p`
/// with every value of `[lo, p]` at most the pivot and every value of
/// `[p + 1, hi]` at least the pivot.
fn partition(array: &mut [u64], lo: usize, hi: usize) -> (p: usize)
    requires
        lo < hi < old(array)@.len(),
    ensures
        lo <= p,
        p < hi,
        final(array)@.len() == old(array)@.len(),
        bag(final(array)@, lo as int, hi as int) == bag(old(array)@, lo as int, hi as int),
        forall|k: int| 0 <= k < old(array)@.len() && !(lo <= k <= hi) ==> #[trigger] final(array)@[k] == old(array)@[k],
        forall|k: int| lo <= k <= p ==> #[trigger] final(array)@[k] <= old(array)@[lo as int],
        forall|k: int| p < k <= hi ==> #[trigger] final(array)@[k] >= old(array)@[lo as int],
{
    let pivot = array[lo];
    let mut i = lo;
    let mut j = hi;
    let ghost mut first = true;
    loop
        invariant
            lo <= i <= hi,
            lo < hi,
            lo <= j <= hi,
            hi < array@.len(),
            array@.len() == old(array)@.len(),
            pivot == old(array)@[lo as int],
            bag(array@, lo as int, hi as int) == bag(old(array)@, lo as int, hi as int),
            forall|k: int| 0 <= k < old(array)@.len() && !(lo <= k <= hi) ==> #[trigger] array@[k] == old(array)@[k],
            forall|k: int| lo <= k < i ==> #[trigger] array@[k] <= pivot,
            forall|k: int| j < k <= hi ==> #[trigger] array@[k] >= pivot,
            exists|k: int| i <= k <= hi && array@[k] >= pivot,
            exists|k: int| lo <= k <= j && array@[k] <= pivot,
            first ==> i == lo && j == hi && array@[lo as int] == pivot,
            !first ==> j < hi,
        decreases j - i + 2,
    {
        let ghost i0 = i;
        let ghost j0 = j;
        while array[i] < pivot
            invariant
                i0 <= i,
                lo <= j <= hi,
                j == j0,
                first ==> i == lo && array@[lo as int] == pivot,
                !first ==> j < hi,
                lo <= i <= hi,
                hi < array@.len(),
                array@.len() == old(array)@.len(),
                forall|k: int| lo <= k < i ==> #[trigger] array@[k] <= pivot,
                exists|k: int| i <= k <= hi && array@[k] >= pivot,
            decreases hi - i,
        {
            i = i + 1;
        }
        while array[j] > pivot
            invariant
                i0 <= i,
                j <= j0,
                lo <= i <= hi,
                first ==> i == lo,
                !first ==> j < hi,
                lo <= j <= hi,
                hi < array@.len(),
                array@.len() == old(array)@.len(),
                forall|k: int| j < k <= hi ==> #[trigger] array@[k] >= pivot,
                exists|k: int| lo <= k <= j && array@[k] <= pivot,
            decreases j - lo,
        {
            j = j - 1;
        }
        if i >= j {
            proof {
                if first {
                    assert(i == lo);
                    assert(j == lo);
                } else {
                    assert(j < hi);
                }
                assert(lo <= j && j < hi);
            }
            return j;
        }
        let ghost s = array@;
        let ai = array[i];
        let aj = array[j];
        array[i] = aj;
        array[j] = ai;
        proof {
            lemma_swap_bag(s, lo as int, hi as int, i as int, j as int);
            assert(array@[i as int] <= pivot);
            assert(array@[j as int] >= pivot);
            first = false;
        }
        i = i + 1;
        j = j - 1;
    }
}

} // verus!
