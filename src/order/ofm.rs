//! Order file maintenance: an array of values kept in order with gaps
//! between them, so that an insertion moves only the values of a small
//! window. Windows are the nodes of a complete binary tree over the leaves
//! of the array; a window is rebalanced once its density is within the
//! bounds for its depth, and the whole array grows once no window is.

use vstd::prelude::*;

verus! {

pub open spec fn pow2(e: nat) -> nat
    decreases e,
{
    if e == 0 { 1 } else { 2 * pow2((e - 1) as nat) }
}

pub proof fn lemma_pow2_add(a: nat, b: nat)
    ensures
        pow2(a + b) == pow2(a) * pow2(b),
    decreases a,
{
    if a > 0 {
        let a1 = (a - 1) as nat;
        lemma_pow2_add(a1, b);
        assert(pow2(a) == 2 * pow2(a1));
        assert((a1 + b) as nat == (a + b - 1) as nat);
        assert(pow2(a + b) == 2 * pow2((a + b - 1) as nat));
        let x = pow2(a1);
        let y = pow2(b);
        assert((2 * x) * y == 2 * (x * y)) by (nonlinear_arith);
        assert(pow2(a) * pow2(b) == (2 * x) * y);
    } else {
        assert(pow2(a) == 1);
        assert(1 * pow2(b) == pow2(b));
    }
}

proof fn lemma_pow2_31()
    ensures
        pow2(30) == 0x4000_0000,
        pow2(31) == 0x8000_0000,
{
    reveal_with_fuel(pow2, 32);
}

pub proof fn lemma_pow2_pos(e: nat)
    ensures
        pow2(e) >= 1,
    decreases e,
{
    if e > 0 {
        lemma_pow2_pos((e - 1) as nat);
    }
}

pub proof fn lemma_pow2_mono(a: nat, b: nat)
    requires
        a <= b,
    ensures
        pow2(a) <= pow2(b),
    decreases b,
{
    if a < b {
        lemma_pow2_mono(a, (b - 1) as nat);
    }
}

/// `2` to the power `e`.
pub fn pow2_exec(e: u32) -> (r: usize)
    requires
        e < 32,
    ensures
        r == pow2(e as nat),
{
    let mut r: usize = 1;
    let mut i: u32 = 0;
    while i < e
        invariant
            i <= e < 32,
            r == pow2(i as nat),
        decreases e - i,
    {
        proof {
            lemma_pow2_mono((i + 1) as nat, 31);
            lemma_pow2_31();
        }
        r = r * 2;
        i = i + 1;
    }
    r
}

/// A complete binary tree of the given height, described by its leaves.
pub struct Tree {
    pub height: u32,
}

/// A node of a `Tree`: its depth (the root has depth 0) and its position
/// among the nodes of that depth.
#[derive(Clone, Copy)]
pub struct Node {
    pub depth: u32,
    pub offset: usize,
}

impl Tree {
    pub open spec fn wf(&self) -> bool {
        1 <= self.height <= 32
    }

    /// `node` is a node of this tree.
    pub open spec fn holds(&self, node: Node) -> bool {
        &&& node.depth < self.height
        &&& node.offset < pow2(node.depth as nat)
    }

    /// The width, in leaves, of a node at depth `d`.
    pub open spec fn width(&self, d: u32) -> nat {
        pow2((self.height - d - 1) as nat)
    }

    pub fn new(height: u32) -> (r: Tree)
        ensures
            r.height == height,
    {
        Tree { height }
    }

    /// Number of leaves.
    pub fn size(&self) -> (r: usize)
        requires
            self.wf(),
        ensures
            r == pow2((self.height - 1) as nat),
    {
        pow2_exec(self.height - 1)
    }

    /// The leaf at `index`.
    pub fn get_leaf(&self, index: usize) -> (r: Node)
        requires
            self.wf(),
            index < pow2((self.height - 1) as nat),
        ensures
            r.depth == self.height - 1,
            r.offset == index,
            self.holds(r),
    {
        Node { depth: self.height - 1, offset: index }
    }

    /// The leaves below `node`.
    pub fn range(&self, node: Node) -> (r: std::ops::Range<usize>)
        requires
            self.wf(),
            self.holds(node),
        ensures
            r.start == node.offset * self.width(node.depth),
            r.end == r.start + self.width(node.depth),
            r.end <= pow2((self.height - 1) as nat),
    {
        let ghost w = self.width(node.depth);
        proof {
            let d = node.depth as nat;
            let e = (self.height - node.depth - 1) as nat;
            lemma_pow2_add(d, e);
            assert((node.offset + 1) * w <= pow2(d) * w) by (nonlinear_arith)
                requires node.offset + 1 <= pow2(d), w >= 0;
            lemma_pow2_mono((self.height - 1) as nat, 31);
            lemma_pow2_31();
            assert(node.offset * w + w == (node.offset + 1) * w) by (nonlinear_arith);
        }
        let width = pow2_exec(self.height - node.depth - 1);
        let offset = node.offset * width;
        offset..offset + width
    }
}

impl Node {
    pub fn is_root(&self) -> (r: bool)
        ensures
            r == (self.depth == 0),
    {
        self.depth == 0
    }

    /// Moves to the parent.
    pub fn parent(&mut self)
        requires
            old(self).depth > 0,
        ensures
            final(self).depth == old(self).depth - 1,
            final(self).offset == old(self).offset / 2,
    {
        self.depth = self.depth - 1;
        self.offset = self.offset / 2;
    }

    /// The other child of the same parent.
    pub fn sibling(&self) -> (r: Node)
        ensures
            r.depth == self.depth,
            r.offset == (if self.offset % 2 == 0 { self.offset + 1 } else { self.offset - 1 }),
    {
        let offset = if self.offset % 2 == 0 {
            self.offset + 1
        } else {
            self.offset - 1
        };
        proof {
            assert(self.offset % 2 == 0 ==> self.offset < usize::MAX);
        }
        Node { depth: self.depth, offset }
    }
}

} // verus!

verus! {

/// An opaque position in an `Ofm`.
#[derive(Clone, Copy, PartialEq, Eq)]
pub struct Index(usize);

/// Values that want to learn where an `Ofm` puts them.
pub trait Indexable {
    fn index(&mut self, new: Index);
}

impl Indexable for usize {
    fn index(&mut self, new: Index) {
    }
}

impl Indexable for u64 {
    fn index(&mut self, new: Index) {
    }
}

/// The values held in `s`, in order.
pub open spec fn present<T>(s: Seq<Option<T>>) -> Seq<T>
    decreases s.len(),
{
    if s.len() == 0 {
        Seq::empty()
    } else {
        match s.last() {
            Some(v) => present(s.drop_last()).push(v),
            None => present(s.drop_last()),
        }
    }
}

/// Number of occupied cells of `s` in `[lo, hi)`.
pub open spec fn cnt<T>(s: Seq<Option<T>>, lo: int, hi: int) -> nat
    decreases hi - lo,
{
    if hi <= lo {
        0
    } else {
        cnt(s, lo, hi - 1) + if s[hi - 1] is Some { 1nat } else { 0nat }
    }
}

proof fn lemma_cnt_update<T>(s: Seq<Option<T>>, lo: int, hi: int, i: int, x: Option<T>)
    requires
        0 <= i < s.len(),
        0 <= lo,
        hi <= s.len(),
    ensures
        (lo <= i < hi) ==> cnt(s.update(i, x), lo, hi) + (if s[i] is Some { 1int } else { 0int })
            == cnt(s, lo, hi) + (if x is Some { 1int } else { 0int }),
        !(lo <= i < hi) ==> cnt(s.update(i, x), lo, hi) == cnt(s, lo, hi),
    decreases hi - lo,
{
    if hi > lo {
        lemma_cnt_update(s, lo, hi - 1, i, x);
        assert(s.update(i, x)[hi - 1] == if hi - 1 == i { x } else { s[hi - 1] });
    }
}

proof fn lemma_cnt_bound<T>(s: Seq<Option<T>>, lo: int, hi: int)
    ensures
        hi >= lo ==> cnt(s, lo, hi) <= hi - lo,
    decreases hi - lo,
{
    if hi > lo {
        lemma_cnt_bound(s, lo, hi - 1);
    }
}

proof fn lemma_cnt_none<T>(s: Seq<Option<T>>, lo: int, hi: int)
    requires
        forall|j: int| lo <= j < hi ==> s[j] is None,
    ensures
        cnt(s, lo, hi) == 0,
    decreases hi - lo,
{
    if hi > lo {
        lemma_cnt_none(s, lo, hi - 1);
    }
}

/// `i` lies in leaf `i / ls`, and in no other.
proof fn lemma_leaf_of(i: int, ls: int, l: int)
    requires
        ls >= 1,
        i >= 0,
        l >= 0,
    ensures
        (l * ls <= i < l * ls + ls) <==> l == i / ls,
{
    assert((l * ls <= i < l * ls + ls) <==> l == i / ls) by (nonlinear_arith)
        requires ls >= 1, i >= 0, l >= 0;
}

proof fn lemma_leaf_range(l: int, ls: int, nl: int)
    requires
        0 <= l < nl,
        ls >= 1,
    ensures
        0 <= l * ls,
        l * ls + ls <= nl * ls,
{
    assert(0 <= l * ls) by (nonlinear_arith) requires l >= 0, ls >= 1;
    assert(l * ls + ls <= nl * ls) by (nonlinear_arith) requires l < nl, ls >= 1;
}

/// A window of `o` occupied cells out of `c` at depth `d` of a tree of
/// height `h` is within bounds: its density `o / c` is at least
/// `1/2 - d/(4h)` and at most `3/4 + d/(4h)`.
pub open spec fn within_bounds(d: int, h: int, o: int, c: int) -> bool {
    &&& 4 * o * h + c * d >= 2 * c * h
    &&& 4 * o * h <= 3 * c * h + c * d
}

/// Whether a window is ripe for rebalancing. Windows of more than 2^64
/// cells never are.
fn threshold(d: u32, h: u32, o: u128, c: u128) -> (r: bool)
    ensures
        r == (o <= 0x1_0000_0000_0000_0000 && c <= 0x1_0000_0000_0000_0000
            && within_bounds(d as int, h as int, o as int, c as int)),
{
    if o > 0x1_0000_0000_0000_0000 || c > 0x1_0000_0000_0000_0000 {
        return false;
    }
    proof {
        assert(o * h <= 0x1_0000_0000_0000_0000 * 0x1_0000_0000) by (nonlinear_arith)
            requires o <= 0x1_0000_0000_0000_0000, h <= 0xffff_ffff;
        assert(c * d <= 0x1_0000_0000_0000_0000 * 0x1_0000_0000) by (nonlinear_arith)
            requires c <= 0x1_0000_0000_0000_0000, d <= 0xffff_ffff;
        assert(c * h <= 0x1_0000_0000_0000_0000 * 0x1_0000_0000) by (nonlinear_arith)
            requires c <= 0x1_0000_0000_0000_0000, h <= 0xffff_ffff;
        assert(4 * o * h == 4 * (o * h)) by (nonlinear_arith);
        assert(2 * c * h == 2 * (c * h)) by (nonlinear_arith);
        assert(3 * c * h == 3 * (c * h)) by (nonlinear_arith);
    }
    let oh = o * (h as u128);
    let cd = c * (d as u128);
    let ch = c * (h as u128);
    4 * oh + cd >= 2 * ch && 4 * oh <= 3 * ch + cd
}

/// Largest number of cells an `Ofm` may hold before it grows.
pub const OFM_MAX_CELLS: usize = 0x1000_0000;

/// Order file maintenance: faster insertion than an array, faster
/// traversal than a linked list.
pub struct Ofm<T: Indexable> {
    cells: Vec<Option<T>>,
    occupied: Vec<usize>,
    leaf_size: usize,
    size: usize,
}

impl<T: Indexable> Ofm<T> {
    /// The cells, with the values in their order.
    pub closed spec fn cells_view(&self) -> Seq<Option<T>> {
        self.cells@
    }

    pub closed spec fn len(&self) -> nat {
        self.size as nat
    }

    /// Number of occupied cells.
    pub closed spec fn occupied_cells(&self) -> nat {
        cnt(self.cells@, 0, self.cells@.len() as int)
    }

    /// Number of cells.
    pub closed spec fn capacity(&self) -> nat {
        self.cells@.len()
    }

    /// Leaves of equal size tile the cells, a power of two of them, and
    /// each leaf knows how many of its cells are occupied.
    pub closed spec fn wf(&self) -> bool {
        let ls = self.leaf_size as int;
        let nl = self.occupied@.len() as int;
        &&& 1 <= ls
        &&& 2 <= nl
        &&& exists|h: nat| 1 <= h <= 30 && nl == pow2(h)
        &&& self.cells@.len() == ls * nl
        &&& self.cells@.len() <= 4 * OFM_MAX_CELLS
        &&& forall|l: int| 0 <= l < nl ==> #[trigger] self.occupied@[l] == cnt(self.cells@, l * ls, l * ls + ls)
    }

    pub fn new() -> (r: Self)
        ensures
            r.wf(),
            r.len() == 0,
            r.capacity() == 2,
    {
        let mut cells: Vec<Option<T>> = Vec::new();
        cells.push(None);
        cells.push(None);
        let mut occupied: Vec<usize> = Vec::new();
        occupied.push(0);
        occupied.push(0);
        let r = Ofm { cells, occupied, leaf_size: 1, size: 0 };
        proof {
            assert(pow2(0) == 1);
            assert(pow2(1) == 2);
            lemma_cnt_none(r.cells@, 0, 1);
            lemma_cnt_none(r.cells@, 1, 2);
            assert(r.occupied@.len() == pow2(1));
            assert forall|l: int| 0 <= l < 2 implies #[trigger] r.occupied@[l] == cnt(r.cells@, l * 1, l * 1 + 1) by {
                if l == 0 {
                    assert(l * 1 == 0);
                } else {
                    assert(l * 1 == 1);
                }
            }
        }
        r
    }

    /// Returns (leaf, offset in the leaf) of cell `i`.
    fn leaf(&self, i: usize) -> (r: (usize, usize))
        requires
            self.leaf_size >= 1,
        ensures
            r.0 == i as int / (self.leaf_size as int),
            r.1 == i as int % (self.leaf_size as int),
    {
        (i / self.leaf_size, i % self.leaf_size)
    }

    /// The cells of leaf `l`.
    fn leaf_boundary(&self, l: usize) -> (r: std::ops::Range<usize>)
        requires
            self.wf(),
            l < self.occupied@.len(),
        ensures
            r.start == l * self.leaf_size,
            r.end == r.start + self.leaf_size,
            r.end <= self.cells@.len(),
    {
        proof {
            let ls = self.leaf_size as int;
            let nl = self.occupied@.len() as int;
            assert((l + 1) * ls <= nl * ls) by (nonlinear_arith) requires l + 1 <= nl, ls >= 1;
            assert(l * ls + ls == (l + 1) * ls) by (nonlinear_arith);
        }
        let start = l * self.leaf_size;
        start..start + self.leaf_size
    }

    fn cell_take(&mut self, i: usize) -> (r: Option<T>)
        requires
            old(self).wf(),
            i < old(self).cells@.len(),
        ensures
            final(self).wf(),
            r == old(self).cells@[i as int],
            final(self).cells@ == old(self).cells@.update(i as int, None),
            final(self).leaf_size == old(self).leaf_size,
            final(self).occupied@.len() == old(self).occupied@.len(),
            final(self).size == old(self).size,
    {
        let ghost c0 = self.cells@;
        let mut val: Option<T> = None;
        self.cells.set_and_swap(i, &mut val);
        let ghost ls = self.leaf_size as int;
        let ghost nl = self.occupied@.len() as int;
        let ghost ii = i as int;
        proof {
            assert(ii / ls < nl) by (nonlinear_arith) requires ii < nl * ls, ls >= 1, ii >= 0;
            lemma_leaf_of(ii, ls, ii / ls);
            lemma_leaf_range(ii / ls, ls, nl);
            lemma_cnt_update(c0, (ii / ls) * ls, (ii / ls) * ls + ls, i as int, None);
        }
        if val.is_some() {
            let leaf = self.leaf(i);
            self.occupied.set(leaf.0, self.occupied[leaf.0] - 1);
        }
        proof {
            assert forall|l: int| 0 <= l < nl implies #[trigger] self.occupied@[l] == cnt(self.cells@, l * ls, l * ls + ls) by {
                lemma_leaf_of(i as int, ls, l);
                lemma_leaf_range(l, ls, nl);
                lemma_cnt_update(c0, l * ls, l * ls + ls, i as int, None);
            }
        }
        val
    }

    fn cell_put(&mut self, i: usize, v: T)
        requires
            old(self).wf(),
            i < old(self).cells@.len(),
            old(self).cells@[i as int] is None,
        ensures
            final(self).wf(),
            final(self).cells@.len() == old(self).cells@.len(),
            final(self).cells@[i as int] is Some,
            forall|j: int| 0 <= j < old(self).cells@.len() && j != i ==> #[trigger] final(self).cells@[j] == old(self).cells@[j],
            final(self).leaf_size == old(self).leaf_size,
            final(self).occupied@.len() == old(self).occupied@.len(),
            final(self).size == old(self).size,
    {
        let mut v = v;
        v.index(Index(i));
        let ghost c0 = self.cells@;
        let ghost sv = Some(v);
        self.cells.set(i, Some(v));
        let ghost ls = self.leaf_size as int;
        let ghost nl = self.occupied@.len() as int;
        let ghost ii = i as int;
        proof {
            assert(ii / ls < nl) by (nonlinear_arith) requires ii < nl * ls, ls >= 1, ii >= 0;
            lemma_leaf_of(ii, ls, ii / ls);
            lemma_leaf_range(ii / ls, ls, nl);
            lemma_cnt_update(c0, (ii / ls) * ls, (ii / ls) * ls + ls, i as int, sv);
            lemma_cnt_bound(self.cells@, (ii / ls) * ls, (ii / ls) * ls + ls);
            assert(self.cells@ == c0.update(i as int, sv));
        }
        let leaf = self.leaf(i);
        self.occupied.set(leaf.0, self.occupied[leaf.0] + 1);
        proof {
            assert forall|l: int| 0 <= l < nl implies #[trigger] self.occupied@[l] == cnt(self.cells@, l * ls, l * ls + ls) by {
                lemma_leaf_of(i as int, ls, l);
                lemma_leaf_range(l, ls, nl);
                lemma_cnt_update(c0, l * ls, l * ls + ls, i as int, sv);
            }
        }
    }

    /// Takes the values out of the cells of `r`, in order.
    fn cells_take(&mut self, r: std::ops::Range<usize>) -> (vs: Vec<T>)
        requires
            old(self).wf(),
            r.start <= r.end <= old(self).cells@.len(),
        ensures
            final(self).wf(),
            final(self).cells@.len() == old(self).cells@.len(),
            forall|j: int| r.start <= j < r.end ==> #[trigger] final(self).cells@[j] is None,
            vs@.len() == cnt(old(self).cells@, r.start as int, r.end as int),
            vs@.len() <= r.end - r.start,
            vs@.len() + cnt(final(self).cells@, 0, final(self).cells@.len() as int)
                == cnt(old(self).cells@, 0, old(self).cells@.len() as int),
            final(self).leaf_size == old(self).leaf_size,
            final(self).occupied@.len() == old(self).occupied@.len(),
            final(self).size == old(self).size,
    {
        let ghost c0 = self.cells@;
        let mut vs: Vec<T> = Vec::new();
        let mut i = r.start;
        while i < r.end
            invariant
                self.wf(),
                r.start <= i <= r.end <= self.cells@.len(),
                self.cells@.len() == c0.len(),
                forall|j: int| r.start <= j < i ==> #[trigger] self.cells@[j] is None,
                vs@.len() + cnt(self.cells@, r.start as int, r.end as int) == cnt(c0, r.start as int, r.end as int),
                vs@.len() + cnt(self.cells@, 0, c0.len() as int) == cnt(c0, 0, c0.len() as int),
                vs@.len() <= i - r.start,
                self.leaf_size == old(self).leaf_size,
                self.occupied@.len() == old(self).occupied@.len(),
                self.size == old(self).size,
            decreases r.end - i,
        {
            let ghost c1 = self.cells@;
            proof {
                lemma_cnt_update(c1, r.start as int, r.end as int, i as int, None);
                lemma_cnt_update(c1, 0, c0.len() as int, i as int, None);
            }
            if let Some(v) = self.cell_take(i) {
                vs.push(v);
            }
            i = i + 1;
        }
        proof {
            lemma_cnt_none(self.cells@, r.start as int, r.end as int);
        }
        vs
    }

    /// Spreads `vs` evenly over the empty cells of `r`, in order.
    fn redistribute(&mut self, r: std::ops::Range<usize>, vs: Vec<T>)
        requires
            old(self).wf(),
            r.start <= r.end <= old(self).cells@.len(),
            1 <= vs@.len() <= r.end - r.start,
            forall|j: int| r.start <= j < r.end ==> #[trigger] old(self).cells@[j] is None,
        ensures
            final(self).wf(),
            final(self).cells@.len() == old(self).cells@.len(),
            final(self).leaf_size == old(self).leaf_size,
            final(self).occupied@.len() == old(self).occupied@.len(),
            final(self).size == old(self).size,
            cnt(final(self).cells@, 0, final(self).cells@.len() as int)
                == cnt(old(self).cells@, 0, old(self).cells@.len() as int) + vs@.len(),
    {
        let n = vs.len();
        let stride = (r.end - r.start) / n;
        proof {
            let w = (r.end - r.start) as int;
            let nn = n as int;
            let st = stride as int;
            assert(st == w / nn);
            assert(st >= 1) by (nonlinear_arith) requires st == w / nn, nn <= w, nn >= 1;
            assert(nn * st <= w) by (nonlinear_arith) requires st == w / nn, nn >= 1, w >= 0;
        }
        let mut vs = vs;
        let mut k: usize = 0;
        let mut i = r.start;
        while k < n
            invariant
                self.wf(),
                r.start <= r.end <= self.cells@.len(),
                vs@.len() == n - k,
                1 <= stride,
                n * stride <= r.end - r.start,
                k <= n,
                i == r.start + k * stride,
                forall|j: int| i <= j < r.end ==> #[trigger] self.cells@[j] is None,
                self.cells@.len() == old(self).cells@.len(),
                cnt(self.cells@, 0, self.cells@.len() as int) == cnt(old(self).cells@, 0, old(self).cells@.len() as int) + k,
                self.leaf_size == old(self).leaf_size,
                self.occupied@.len() == old(self).occupied@.len(),
                self.size == old(self).size,
            decreases n - k,
        {
            proof {
                assert(k * stride + stride <= n * stride) by (nonlinear_arith) requires k < n, stride >= 1;
                assert((k + 1) * stride == k * stride + stride) by (nonlinear_arith);
            }
            let v = vs.remove(0);
            let ghost c1 = self.cells@;
            self.cell_put(i, v);
            proof {
                assert(self.cells@ == c1.update(i as int, self.cells@[i as int]));
                lemma_cnt_update(c1, 0, c1.len() as int, i as int, self.cells@[i as int]);
            }
            k = k + 1;
            i = i + stride;
        }
    }

    fn rebalance(&mut self, r: std::ops::Range<usize>)
        requires
            old(self).wf(),
            r.start <= r.end <= old(self).cells@.len(),
        ensures
            cnt(final(self).cells@, 0, final(self).cells@.len() as int)
                == cnt(old(self).cells@, 0, old(self).cells@.len() as int),
            final(self).wf(),
            final(self).cells@.len() == old(self).cells@.len(),
            final(self).leaf_size == old(self).leaf_size,
            final(self).occupied@.len() == old(self).occupied@.len(),
            final(self).size == old(self).size,
    {
        let vs = self.cells_take(r.start..r.end);
        if vs.len() > 0 {
            self.redistribute(r, vs);
        }
    }

    /// Doubles the number of leaves, makes them one cell larger, and spreads
    /// the values over all of them.
    fn double(&mut self)
        requires
            old(self).wf(),
            old(self).cells@.len() <= OFM_MAX_CELLS,
        ensures
            final(self).wf(),
            final(self).leaf_size == old(self).leaf_size + 1,
            final(self).occupied@.len() == 2 * old(self).occupied@.len(),
            final(self).size == old(self).size,
            final(self).cells@.len() >= 2 * old(self).cells@.len(),
            final(self).cells@.len() <= 4 * old(self).cells@.len(),
            cnt(final(self).cells@, 0, final(self).cells@.len() as int)
                == cnt(old(self).cells@, 0, old(self).cells@.len() as int),
    {
        let ghost nl0 = self.occupied@.len() as int;
        let ghost ls0 = self.leaf_size as int;
        let len = self.cells.len();
        let vs = self.cells_take(0..len);
        proof {
            let h = choose|h: nat| 1 <= h <= 30 && nl0 == pow2(h);
            assert(nl0 * ls0 <= OFM_MAX_CELLS);
            assert(nl0 <= OFM_MAX_CELLS) by (nonlinear_arith) requires nl0 * ls0 <= OFM_MAX_CELLS, ls0 >= 1, nl0 >= 0;
            assert(ls0 <= OFM_MAX_CELLS) by (nonlinear_arith) requires nl0 * ls0 <= OFM_MAX_CELLS, ls0 >= 0, nl0 >= 1;
            assert(2 * nl0 * (ls0 + 1) <= 4 * OFM_MAX_CELLS) by (nonlinear_arith)
                requires nl0 * ls0 <= OFM_MAX_CELLS, ls0 >= 1, nl0 >= 1;
            assert(h < 30) by {
                if h == 30 {
                    lemma_pow2_31();
                }
            }
        }
        let leaf_size = self.leaf_size + 1;
        let num_leaves = self.occupied.len() * 2;
        proof {
            assert(leaf_size * num_leaves == 2 * nl0 * (ls0 + 1)) by (nonlinear_arith)
                requires leaf_size == ls0 + 1, num_leaves == 2 * nl0;
        }
        let num_cells = leaf_size * num_leaves;
        let mut occupied: Vec<usize> = Vec::new();
        let mut cells: Vec<Option<T>> = Vec::new();
        let mut j: usize = 0;
        while j < num_cells
            invariant
                j <= num_cells,
                cells@.len() == j,
                forall|k: int| 0 <= k < j ==> #[trigger] cells@[k] is None,
            decreases num_cells - j,
        {
            cells.push(None);
            j = j + 1;
        }
        let mut j: usize = 0;
        while j < num_leaves
            invariant
                j <= num_leaves,
                occupied@.len() == j,
                forall|k: int| 0 <= k < j ==> #[trigger] occupied@[k] == 0,
            decreases num_leaves - j,
        {
            occupied.push(0);
            j = j + 1;
        }
        self.cells = cells;
        self.occupied = occupied;
        self.leaf_size = leaf_size;
        proof {
            lemma_cnt_none(self.cells@, 0, self.cells@.len() as int);
            assert(2 * (ls0 * nl0) <= 2 * nl0 * (ls0 + 1) <= 4 * (ls0 * nl0)) by (nonlinear_arith) requires ls0 >= 1, nl0 >= 1;
            let h = choose|h: nat| 1 <= h <= 30 && nl0 == pow2(h);
            assert(h < 30) by {
                if h == 30 {
                    lemma_pow2_31();
                    assert(nl0 <= OFM_MAX_CELLS) by (nonlinear_arith)
                        requires nl0 * ls0 <= OFM_MAX_CELLS, ls0 >= 1, nl0 >= 0;
                }
            }
            assert(num_leaves == pow2(h + 1));
            let ls = leaf_size as int;
            assert forall|l: int| 0 <= l < num_leaves implies #[trigger] self.occupied@[l] == cnt(self.cells@, l * ls, l * ls + ls) by {
                lemma_leaf_range(l, ls, num_leaves as int);
                assert(num_leaves * ls == num_cells) by (nonlinear_arith) requires num_cells == ls * num_leaves;
                lemma_cnt_none(self.cells@, l * ls, l * ls + ls);
            }
        }
        if vs.len() > 0 {
            proof {
                assert(ls0 * nl0 <= 2 * nl0 * (ls0 + 1)) by (nonlinear_arith) requires ls0 >= 1, nl0 >= 1;
                assert(len == ls0 * nl0);
                assert(vs@.len() <= num_cells);
            }
            self.redistribute(0..num_cells, vs);
        }
    }

    /// Grows around leaf `l` when it is full: walks up from the leaf until a
    /// window's density is within the bounds for its depth and rebalances
    /// the window above it, or doubles the array when the walk reaches the
    /// root.
    fn grow(&mut self, l: usize)
        requires
            old(self).wf(),
            l < old(self).occupied@.len(),
            old(self).cells@.len() <= OFM_MAX_CELLS,
        ensures
            final(self).wf(),
            final(self).size == old(self).size,
            final(self).cells@.len() <= 4 * old(self).cells@.len(),
            cnt(final(self).cells@, 0, final(self).cells@.len() as int)
                == cnt(old(self).cells@, 0, old(self).cells@.len() as int),
    {
        if self.occupied[l] != self.leaf_size {
            return ;
        }
        let leaves = self.occupied.len();
        let ghost hl = choose|h: nat| 1 <= h <= 30 && leaves == pow2(h);
        proof {
            let nl = leaves as int;
            let ls0 = self.leaf_size as int;
            assert(nl <= OFM_MAX_CELLS) by (nonlinear_arith) requires ls0 * nl <= OFM_MAX_CELLS, ls0 >= 1, nl >= 0;
        }
        let mut height: u32 = 0;
        let mut p: usize = 1;
        while p < 2 * leaves
            invariant
                p == pow2(height as nat),
                height <= hl + 1,
                1 <= hl <= 30,
                leaves == pow2(hl),
                leaves <= OFM_MAX_CELLS,
                p <= 2 * leaves,
            decreases 2 * leaves - p,
        {
            proof {
                assert(height <= hl) by {
                    if height > hl {
                        lemma_pow2_mono((hl + 1) as nat, height as nat);
                    }
                }
                lemma_pow2_mono((height + 1) as nat, (hl + 1) as nat);
                assert(pow2((height + 1) as nat) == 2 * pow2(height as nat));
                lemma_pow2_pos(height as nat);
                assert(pow2((hl + 1) as nat) == 2 * pow2(hl));
            }
            p = p * 2;
            height = height + 1;
        }
        proof {
            assert(height == hl + 1) by {
                if height <= hl {
                    lemma_pow2_mono(height as nat, hl);
                }
            }
        }
        let tree = Tree::new(height);
        let mut node = tree.get_leaf(l);
        let ls = self.leaf_size;
        let mut o: u128 = self.occupied[l] as u128;
        let mut c: u128 = ls as u128;
        loop
            invariant
                self.wf(),
                self.cells@.len() <= OFM_MAX_CELLS,
                self.leaf_size == ls,
                self.size == old(self).size,
                self == old(self),
                tree.wf(),
                tree.height == height,
                height == hl + 1,
                leaves == pow2(hl),
                self.occupied@.len() == leaves,
                tree.holds(node),
                node.depth >= 1,
            decreases node.depth,
        {
            let sib = node.sibling();
            proof {
                lemma_pow2_pos((node.depth - 1) as nat);
                assert(pow2(node.depth as nat) == 2 * pow2((node.depth - 1) as nat));
            }
            let r = tree.range(sib);
            proof {
                lemma_pow2_add((height - 1 - sib.depth) as nat, 0);
            }
            c = c.saturating_add(c);
            let mut k = r.start;
            while k < r.end
                invariant
                    r.end <= pow2((height - 1) as nat),
                    pow2((height - 1) as nat) == leaves,
                    self.occupied@.len() == leaves,
                    r.start <= k <= r.end,
                decreases r.end - k,
            {
                o = o.saturating_add(self.occupied[k] as u128);
                k = k + 1;
            }
            node.parent();
            if node.is_root() {
                self.double();
                return ;
            } else if threshold(node.depth, height, o, c) {
                node.parent();
                let r = tree.range(node);
                proof {
                    assert(r.end * ls <= leaves * ls) by (nonlinear_arith) requires r.end <= leaves, ls >= 1;
                    assert(r.start * ls <= r.end * ls) by (nonlinear_arith) requires r.start <= r.end, ls >= 1;
                }
                self.rebalance(r.start * ls..r.end * ls);
                return ;
            }
        }
    }

    /// Inserts `v` before every value, or after every value when `at_end`.
    fn insert(&mut self, at_end: bool, v: T)
        requires
            old(self).wf(),
            old(self).cells@.len() <= OFM_MAX_CELLS / 4,
            old(self).len() < usize::MAX,
        ensures
            final(self).wf(),
            final(self).len() == old(self).len() + 1,
            final(self).occupied_cells() == old(self).occupied_cells() + 1,
    {
        self.size = self.size + 1;
        let (leaf, _) = self.target(at_end);
        self.grow(leaf);
        let (leaf, offset) = self.target(at_end);
        if self.occupied[leaf] < self.leaf_size {
            let r = self.leaf_boundary(leaf);
            let mut vals = self.cells_take(r.start..r.end);
            let pos = if offset < vals.len() { offset } else { vals.len() };
            vals.insert(pos, v);
            self.redistribute(r, vals);
        } else {
            let n0 = self.cells.len();
            let ghost c0 = cnt(self.cells@, 0, n0 as int);
            proof {
                lemma_cnt_bound(self.cells@, 0, n0 as int);
                let ls1 = self.leaf_size as int;
                let nl1 = self.occupied@.len() as int;
                assert(ls1 * nl1 >= 2) by (nonlinear_arith) requires ls1 >= 1, nl1 >= 2;
            }
            self.double();
            let n = self.cells.len();
            let mut vals = self.cells_take(0..n);
            proof {
                assert(vals@.len() == c0);
                assert(c0 <= n0);
                let ls1 = old(self).leaf_size as int;
                assert(n0 >= 2) by {
                    assert(self.cells@.len() >= 2);
                }
            }
            if at_end {
                vals.push(v);
            } else {
                vals.insert(0, v);
            }
            self.redistribute(0..n, vals);
        }
    }

    /// The leaf and offset where a value goes first or last.
    fn target(&self, at_end: bool) -> (r: (usize, usize))
        requires
            self.wf(),
        ensures
            r.0 < self.occupied@.len(),
            r.1 < self.leaf_size,
    {
        if at_end {
            (self.occupied.len() - 1, self.leaf_size - 1)
        } else {
            (0, 0)
        }
    }

    /// Adds `v` before every value.
    pub fn push_front(&mut self, v: T)
        requires
            old(self).wf(),
            old(self).capacity() <= OFM_MAX_CELLS / 4,
            old(self).len() < usize::MAX,
        ensures
            final(self).wf(),
            final(self).len() == old(self).len() + 1,
            final(self).occupied_cells() == old(self).occupied_cells() + 1,
    {
        self.insert(false, v);
    }

    /// Adds `v` after every value.
    pub fn push_back(&mut self, v: T)
        requires
            old(self).wf(),
            old(self).capacity() <= OFM_MAX_CELLS / 4,
            old(self).len() < usize::MAX,
        ensures
            final(self).wf(),
            final(self).len() == old(self).len() + 1,
            final(self).occupied_cells() == old(self).occupied_cells() + 1,
    {
        self.insert(true, v);
    }

    /// Number of cells, which callers test against `OFM_MAX_CELLS` before
    /// pushing.
    pub fn cells_len(&self) -> (r: usize)
        ensures
            r == self.capacity(),
    {
        self.cells.len()
    }

    /// Number of values held.
    pub fn size(&self) -> (r: usize)
        ensures
            r == self.len(),
    {
        self.size
    }

    /// The values, in order.
    pub fn items(&self) -> (r: Vec<&T>)
        ensures
            r@.map_values(|x: &T| *x) == present(self.cells_view()),
    {
        let mut r: Vec<&T> = Vec::new();
        let mut i: usize = 0;
        while i < self.cells.len()
            invariant
                i <= self.cells@.len(),
                r@.map_values(|x: &T| *x) == present(self.cells@.subrange(0, i as int)),
            decreases self.cells@.len() - i,
        {
            proof {
                assert(self.cells@.subrange(0, i + 1).drop_last() =~= self.cells@.subrange(0, i as int));
            }
            match &self.cells[i] {
                Some(v) => {
                    r.push(v);
                    proof {
                        assert(r@.map_values(|x: &T| *x) =~= present(self.cells@.subrange(0, i as int)).push(*v));
                    }
                },
                None => {},
            }
            i = i + 1;
        }
        proof {
            assert(self.cells@.subrange(0, i as int) =~= self.cells@);
        }
        r
    }
}

} // verus!
