//! Random indices and samples, drawn from the thread-local generator.

use rand::Rng;
use vstd::prelude::*;

verus! {

/// Relies on rand's `Rng::gen_range` (rand 0.4), on the thread-local
/// generator: a value in `[lo, hi)`; it panics when `lo >= hi`.
#[verifier::external_body]
pub fn random_range(lo: usize, hi: usize) -> (r: usize)
    requires
        lo < hi,
    ensures
        lo <= r < hi,
{
    rand::thread_rng().gen_range(lo, hi)
}

/// Relies on rand's `Rng::gen` (rand 0.4), on the thread-local generator:
/// any `usize`.
#[verifier::external_body]
fn random_usize() -> (r: usize) {
    rand::thread_rng().gen::<usize>()
}

/// `k` values of `array`, each drawn at random and independently.
pub fn random_samples<T: Copy>(array: &[T], k: usize) -> (r: Vec<T>)
    requires
        array@.len() > 0,
    ensures
        r@.len() == k,
        forall|i: int| 0 <= i < k ==> array@.contains(#[trigger] r@[i]),
{
    let mut v: Vec<T> = Vec::new();
    let mut i: usize = 0;
    while i < k
        invariant
            i <= k,
            array@.len() > 0,
            v@.len() == i,
            forall|j: int| 0 <= j < i ==> array@.contains(#[trigger] v@[j]),
        decreases k - i,
    {
        let index = random_range(0, array.len());
        v.push(array[index]);
        proof {
            assert(array@[index as int] == v@[i as int]);
        }
        i = i + 1;
    }
    v
}

/// `l` random values.
pub fn random_array(l: usize) -> (r: Vec<usize>)
    ensures
        r@.len() == l,
{
    let mut out: Vec<usize> = Vec::new();
    let mut i: usize = 0;
    while i < l
        invariant
            i <= l,
            out@.len() == i,
        decreases l - i,
    {
        out.push(random_usize());
        i = i + 1;
    }
    out
}

} // verus!
