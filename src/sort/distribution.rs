//! Distribution sort: values are spread among buckets cut at randomly drawn
//! pivots, and each bucket is sorted the same way; small inputs are sorted
//! directly.

use vstd::prelude::*;
use crate::sort::quick::{quick_sort, sorted_between};
use crate::util::random::random_samples;

verus! {

broadcast use vstd::seq_lib::group_to_multiset_ensures;

/// Inputs of at most this many values are sorted directly.
pub const M: usize = 4096;

/// Number of pivots drawn.
pub const S_MB: usize = 8;

/// Number of pivots below `x`.
pub open spec fn below(p: Seq<u64>, x: u64) -> nat
    decreases p.len(),
{
    if p.len() == 0 {
        0
    } else {
        below(p.drop_last(), x) + if p.last() < x { 1nat } else { 0nat }
    }
}

proof fn lemma_below_mono(p: Seq<u64>, x: u64, y: u64)
    requires
        x <= y,
    ensures
        below(p, x) <= below(p, y),
        below(p, x) <= p.len(),
    decreases p.len(),
{
    if p.len() > 0 {
        lemma_below_mono(p.drop_last(), x, y);
    }
}

fn count_below(p: &Vec<u64>, x: u64) -> (r: usize)
    ensures
        r == below(p@, x),
{
    let mut r: usize = 0;
    let mut i: usize = 0;
    while i < p.len()
        invariant
            i <= p@.len(),
            r == below(p@.subrange(0, i as int), x),
            r <= i,
        decreases p@.len() - i,
    {
        proof {
            assert(p@.subrange(0, i + 1).drop_last() =~= p@.subrange(0, i as int));
        }
        if p[i] < x {
            r = r + 1;
        }
        i = i + 1;
    }
    proof {
        assert(p@.subrange(0, i as int) =~= p@);
    }
    r
}

fn copy_sorted(array: &[u64]) -> (r: Vec<u64>)
    ensures
        r@.to_multiset() == array@.to_multiset(),
        sorted_between(r@, 0, r@.len() - 1),
{
    let mut v: Vec<u64> = Vec::new();
    let mut i: usize = 0;
    while i < array.len()
        invariant
            i <= array@.len(),
            v@ == array@.subrange(0, i as int),
        decreases array@.len() - i,
    {
        v.push(array[i]);
        i = i + 1;
        proof {
            assert(v@ =~= array@.subrange(0, i as int));
        }
    }
    proof {
        assert(array@.subrange(0, i as int) =~= array@);
    }
    quick_sort(v.as_mut_slice());
    v
}

/// Sorts `array` into a new vector.
pub fn external_distribution_sort(array: &[u64]) -> (r: Vec<u64>)
    ensures
        r@.to_multiset() == array@.to_multiset(),
        sorted_between(r@, 0, r@.len() - 1),
    decreases array@.len(),
{
    if array.len() <= M {
        return copy_sorted(array);
    }
    let mut pivots = random_samples(array, S_MB);
    quick_sort(pivots.as_mut_slice());
    let ghost p = pivots@;
    let mut output: Vec<u64> = Vec::new();
    let mut rest: Vec<u64> = Vec::new();
    let mut i: usize = 0;
    while i < array.len()
        invariant
            i <= array@.len(),
            rest@ == array@.subrange(0, i as int),
        decreases array@.len() - i,
    {
        rest.push(array[i]);
        i = i + 1;
        proof {
            assert(rest@ =~= array@.subrange(0, i as int));
        }
    }
    proof {
        assert(array@.subrange(0, i as int) =~= array@);
        assert forall|k: int| 0 <= k < rest@.len() implies below(p, #[trigger] rest@[k]) >= 0 by {}
    }
    let mut q: usize = 0;
    while q <= pivots.len()
        invariant
            pivots@ == p,
            p.len() == S_MB,
            q <= p.len() + 1,
            output@.to_multiset().add(rest@.to_multiset()) == array@.to_multiset(),
            output@.len() + rest@.len() == array@.len(),
            sorted_between(output@, 0, output@.len() - 1),
            forall|k: int| 0 <= k < output@.len() ==> below(p, #[trigger] output@[k]) < q,
            forall|k: int| 0 <= k < rest@.len() ==> below(p, #[trigger] rest@[k]) >= q,
        decreases p.len() + 1 - q,
    {
        let mut part: Vec<u64> = Vec::new();
        let mut others: Vec<u64> = Vec::new();
        let mut k: usize = 0;
        while k < rest.len()
            invariant
                pivots@ == p,
                k <= rest@.len(),
                part@.to_multiset().add(others@.to_multiset()) == rest@.subrange(0, k as int).to_multiset(),
                part@.len() + others@.len() == k,
                forall|j: int| 0 <= j < part@.len() ==> below(p, #[trigger] part@[j]) == q,
                forall|j: int| 0 <= j < others@.len() ==> below(p, #[trigger] others@[j]) > q,
                forall|j: int| 0 <= j < rest@.len() ==> below(p, #[trigger] rest@[j]) >= q,
            decreases rest@.len() - k,
        {
            let x = rest[k];
            let b = count_below(&pivots, x);
            proof {
                assert(rest@.subrange(0, k + 1) =~= rest@.subrange(0, k as int).push(x));
            }
            if b == q {
                part.push(x);
            } else {
                others.push(x);
            }
            k = k + 1;
        }
        proof {
            assert(rest@.subrange(0, k as int) =~= rest@);
        }
        let sorted_part = if part.len() < array.len() {
            external_distribution_sort(part.as_slice())
        } else {
            copy_sorted(part.as_slice())
        };
        proof {
            assert forall|j: int| 0 <= j < sorted_part@.len() implies below(p, #[trigger] sorted_part@[j]) == q by {
                assert(sorted_part@.contains(sorted_part@[j]));
                assert(sorted_part@.to_multiset().count(sorted_part@[j]) > 0);
                assert(part@.contains(sorted_part@[j]));
            }
            let o = output@;
            let s = sorted_part@;
            assert forall|a: int, b: int| 0 <= a <= b < o.len() + s.len() implies (o + s)[a] <= (o + s)[b] by {
                if a < o.len() && b >= o.len() {
                    let x = o[a];
                    let y = s[b - o.len()];
                    if x > y {
                        lemma_below_mono(p, y, x);
                    }
                }
            }
            vstd::seq_lib::lemma_multiset_commutative(o, s);
            assert(s.len() == part@.len()) by {
                assert(s.to_multiset().len() == s.len());
                assert(part@.to_multiset().len() == part@.len());
            }
        }
        let mut sorted_part = sorted_part;
        output.append(&mut sorted_part);
        rest = others;
        proof {
            assert(output@.to_multiset().add(rest@.to_multiset()) =~= array@.to_multiset());
        }
        q = q + 1;
    }
    proof {
        if rest@.len() > 0 {
            lemma_below_mono(p, rest@[0], rest@[0]);
        }
        assert(rest@ =~= Seq::<u64>::empty());
        assert(output@.to_multiset() =~= array@.to_multiset());
    }
    output
}

} // verus!
