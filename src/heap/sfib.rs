//! Strict Fibonacci heaps over an arena of nodes.
//!
//! Nodes are addressed by stable indices. A node is active when it holds a
//! flag that is still set; every heap owns one flag, and clearing it demotes
//! at once every node that was created under it. Rank changes are recorded
//! through a fix-list of (node, rank) entries, and a pending queue collects
//! demoted roots; a budgeted reduction pass repairs the structure after each
//! operation.

use vstd::prelude::*;
use crate::util::cyclic_list::CyclicList;

verus! {

/// The rank of a node: settled, recorded in a fix-list entry, or not yet set.
pub enum RankDesc {
    Rank(usize),
    Fix(usize),
    Unset,
}

impl RankDesc {
    /// One more active child.
    fn increase(&mut self)
        ensures
            *final(self) == rank_inc(*old(self)),
    {
        match *self {
            RankDesc::Rank(r) => {
                if r < usize::MAX {
                    *self = RankDesc::Rank(r + 1);
                }
            },
            RankDesc::Unset => {
                *self = RankDesc::Rank(1);
            },
            RankDesc::Fix(_) => {},
        }
    }

    /// One active child fewer.
    fn decrease(&mut self)
        ensures
            *final(self) == rank_dec(*old(self)),
    {
        match *self {
            RankDesc::Rank(r) => {
                if r > 0 {
                    *self = RankDesc::Rank(r - 1);
                }
            },
            RankDesc::Unset => {
                *self = RankDesc::Rank(0);
            },
            RankDesc::Fix(_) => {},
        }
    }
}

/// A fix-list entry: a node and the rank it is recorded under.
#[derive(Clone, Copy)]
struct Fix {
    node: usize,
    rank: usize,
}

struct Node {
    key: u64,
    active: Option<usize>,
    rank: RankDesc,
    loss: usize,
    parent: Option<usize>,
    children: Vec<usize>,
}

impl Node {
    fn new(key: u64, active: Option<usize>) -> (r: Node)
        ensures
            r.key == key,
            r.active == active,
            r.rank == RankDesc::Unset,
            r.loss == 0,
            r.parent is None,
            r.children@.len() == 0,
    {
        Node { key, active, rank: RankDesc::Unset, loss: 0, parent: None, children: Vec::new() }
    }

    fn is_active(&self, flags: &Vec<bool>) -> (r: bool)
        requires
            self.active is Some ==> self.active.unwrap() < flags@.len(),
        ensures
            r == (self.active is Some && flags@[self.active.unwrap() as int]),
    {
        match self.active {
            Some(f) => flags[f],
            None => false,
        }
    }
}

/// Position of `child` in `children`.
fn child_index(children: &Vec<usize>, child: usize) -> (r: usize)
    requires
        children@.contains(child),
    ensures
        r < children@.len(),
        children@[r as int] == child,
{
    let mut i: usize = 0;
    while i < children.len()
        invariant
            i <= children@.len(),
            forall|k: int| 0 <= k < i ==> children@[k] != child,
            children@.contains(child),
        decreases children@.len() - i,
    {
        if children[i] == child {
            return i;
        }
        i = i + 1;
    }
    proof {
        let k = choose|k: int| 0 <= k < children@.len() && children@[k] == child;
        assert(children@[k] == child);
    }
    0
}

/// Removes `child` from `children`, where it occurs once.
fn child_remove(children: &mut Vec<usize>, child: usize)
    requires
        old(children)@.contains(child),
    ensures
        exists|k: int|
            0 <= k < old(children)@.len() && old(children)@[k] == child
                && final(children)@ == old(children)@.remove(k),
{
    let i = child_index(children, child);
    children.remove(i);
}

/// Each index of `s` moved up by `off`.
spec fn shift_seq(s: Seq<usize>, off: nat) -> Seq<usize> {
    s.map_values(|c: usize| (c + off) as usize)
}

/// `b` is `a` with every index it holds moved by the offsets of its arenas.
spec fn shifted(a: Node, b: Node, off: nat, foff: nat, xoff: nat) -> bool {
    &&& b.key == a.key
    &&& b.loss == a.loss
    &&& b.active == (match a.active {
        Some(f) => Some((f + foff) as usize),
        None => None,
    })
    &&& b.rank == (match a.rank {
        RankDesc::Fix(f) => RankDesc::Fix((f + xoff) as usize),
        RankDesc::Rank(r) => RankDesc::Rank(r),
        RankDesc::Unset => RankDesc::Unset,
    })
    &&& b.parent == (match a.parent {
        Some(p) => Some((p + off) as usize),
        None => None,
    })
    &&& b.children@ == shift_seq(a.children@, off)
}

fn shift_node(a: Node, off: usize, foff: usize, xoff: usize, bound: usize) -> (b: Node)
    requires
        off + bound <= usize::MAX,
        forall|k: int| 0 <= k < a.children@.len() ==> #[trigger] a.children@[k] < bound,
        a.parent is Some ==> a.parent.unwrap() < bound,
        a.active is Some ==> a.active.unwrap() + foff <= usize::MAX,
        a.rank is Fix ==> a.rank->Fix_0 + xoff <= usize::MAX,
    ensures
        shifted(a, b, off as nat, foff as nat, xoff as nat),
{
    let mut children: Vec<usize> = Vec::new();
    let mut i: usize = 0;
    while i < a.children.len()
        invariant
            i <= a.children@.len(),
            off + bound <= usize::MAX,
            forall|k: int| 0 <= k < a.children@.len() ==> #[trigger] a.children@[k] < bound,
            children@ == shift_seq(a.children@.subrange(0, i as int), off as nat),
        decreases a.children@.len() - i,
    {
        assert(a.children@[i as int] < bound);
        children.push(a.children[i] + off);
        i = i + 1;
        assert(a.children@.subrange(0, i as int) == a.children@.subrange(0, i - 1).push(a.children@[i - 1]));
    }
    assert(a.children@.subrange(0, i as int) == a.children@);
    let active = match a.active {
        Some(f) => Some(f + foff),
        None => None,
    };
    let rank = match a.rank {
        RankDesc::Fix(f) => RankDesc::Fix(f + xoff),
        RankDesc::Rank(r) => RankDesc::Rank(r),
        RankDesc::Unset => RankDesc::Unset,
    };
    let parent = match a.parent {
        Some(p) => Some(p + off),
        None => None,
    };
    Node { key: a.key, active, rank, loss: a.loss, parent, children }
}

proof fn lemma_shift_seq(s: Seq<usize>, off: nat, bound: nat)
    requires
        off + bound <= usize::MAX,
        forall|k: int| 0 <= k < s.len() ==> #[trigger] s[k] < bound,
    ensures
        s.no_duplicates() ==> shift_seq(s, off).no_duplicates(),
        forall|c: usize| #[trigger] s.contains(c) ==> shift_seq(s, off).contains((c + off) as usize),
        forall|c: usize| #[trigger] shift_seq(s, off).contains(c) ==> c >= off && s.contains((c - off) as usize),
{
    let t = shift_seq(s, off);
    assert forall|c: usize| #[trigger] s.contains(c) implies t.contains((c + off) as usize) by {
        let k = choose|k: int| 0 <= k < s.len() && s[k] == c;
        assert(t[k] == (c + off) as usize);
    }
    assert forall|c: usize| #[trigger] t.contains(c) implies c >= off && s.contains((c - off) as usize) by {
        let k = choose|k: int| 0 <= k < t.len() && t[k] == c;
        assert(s[k] < bound);
        assert(s[k] == (c - off) as usize);
    }
    if s.no_duplicates() {
        assert forall|i: int, j: int| 0 <= i < t.len() && 0 <= j < t.len() && i != j implies t[i] != t[j] by {
            assert(s[i] < bound && s[j] < bound);
            assert(s[i] != s[j]);
        }
    }
}

/// After a meld has moved the nodes of `o` behind those of `s0` and hung
/// root `v` below root `u`, node `i` is well formed.
#[verifier::rlimit(100)]
#[verifier::spinoff_prover]
proof fn lemma_meld_node<V>(
    s: Sfib<V>,
    s0: Sfib<V>,
    o: Sfib<V>,
    n1: nat,
    n2: nat,
    f1: nat,
    x1: nat,
    u: usize,
    v: usize,
    nodes0: Seq<Node>,
    d0: Seq<int>,
    i: int,
)
    requires
        s0.inv(),
        o.inv(),
        n1 == s0.len(),
        n2 == o.len(),
        f1 == s0.flags@.len(),
        x1 == s0.fixes.len(),
        n1 + n2 <= usize::MAX / 2,
        s.nodes@.len() == n1 + n2,
        s.flags@.len() == f1 + o.flags@.len(),
        s.fixes.len() == x1 + o.fixes.len(),
        nodes0.len() == n1 + n2,
        forall|k: int| 0 <= k < n1 ==> nodes0[k] == s0.nodes@[k],
        forall|j: int| 0 <= j < n2 ==> #[trigger] shifted(o.nodes@[j], nodes0[n1 + j], n1, f1, x1),
        s0.root is Some,
        o.root is Some,
        u == s0.root.unwrap() || u == o.root.unwrap() + n1,
        v == s0.root.unwrap() || v == o.root.unwrap() + n1,
        u != v,
        nodes0[u as int].key <= nodes0[v as int].key,
        forall|k: int| 0 <= k < n1 + n2 && k != u && k != v ==> s.nodes@[k] == nodes0[k],
        s.nodes@[v as int].key == nodes0[v as int].key,
        s.nodes@[v as int].active == nodes0[v as int].active,
        s.nodes@[v as int].rank == nodes0[v as int].rank,
        s.nodes@[v as int].children@ == nodes0[v as int].children@,
        s.nodes@[v as int].parent == Some(u),
        s.nodes@[u as int].key == nodes0[u as int].key,
        s.nodes@[u as int].active == nodes0[u as int].active,
        s.nodes@[u as int].rank == nodes0[u as int].rank,
        s.nodes@[u as int].parent == nodes0[u as int].parent,
        s.nodes@[u as int].children@ == nodes0[u as int].children@.push(v),
        d0 == s0.depth@ + o.depth@,
        s.depth@ == Seq::new(
            (n1 + n2) as nat,
            |k: int| if (k < n1) == (v < n1) { d0[k] + d0[u as int] + 1 } else { d0[k] },
        ),
        0 <= i < n1 + n2,
    ensures
        s.node_ok(i),
{
    reveal(Sfib::node_ok);
    let n = (n1 + n2) as int;
    let r1 = s0.root.unwrap() as int;
    let r2 = o.root.unwrap() as int;
    assert(s0.node_ok(r1));
    assert(o.node_ok(r2));
    assert(shifted(o.nodes@[r2], nodes0[n1 + r2], n1, f1, x1));
    assert(nodes0[u as int].parent is None);
    assert(nodes0[v as int].parent is None);
    assert(d0[u as int] >= 0);
    let nd = s.nodes@[i];
    if i < n1 {
        assert(s0.node_ok(i));
        let a = s0.nodes@[i];
        assert forall|k: int| 0 <= k < a.children@.len() implies (#[trigger] a.children@[k] as int) < n
            && s.nodes@[a.children@[k] as int].parent == Some(i as usize) by {
            let c = a.children@[k] as int;
            assert(s0.node_ok(c));
            assert(nodes0[c] == s0.nodes@[c]);
        }
        if let Some(p) = a.parent {
            assert(s0.node_ok(p as int));
        }
    } else {
        let j = i - n1;
        assert(o.node_ok(j));
        let a = o.nodes@[j];
        assert(shifted(a, nodes0[n1 + j], n1, f1, x1));
        lemma_shift_seq(a.children@, n1, n2);
        assert forall|k: int| 0 <= k < nodes0[i].children@.len() implies (#[trigger] nodes0[i].children@[k] as int) < n
            && s.nodes@[nodes0[i].children@[k] as int].parent == Some(i as usize) by {
            let c = a.children@[k] as int;
            assert(o.node_ok(c));
            assert(shifted(o.nodes@[c], nodes0[n1 + c], n1, f1, x1));
        }
        if let Some(p) = a.parent {
            assert(o.node_ok(p as int));
            assert(shifted(o.nodes@[p as int], nodes0[n1 + p], n1, f1, x1));
            lemma_shift_seq(o.nodes@[p as int].children@, n1, n2);
        }
    }
    if i == u {
        assert(!nodes0[i].children@.contains(v));
    }
    if s.nodes@[i].parent is Some {
        let pi = s.nodes@[i].parent.unwrap() as int;
        assert(s.nodes@[pi].key == nodes0[pi].key);
        if i == v {
            assert(s.nodes@[pi].children@[nodes0[pi].children@.len() as int] == v);
        } else {
            assert(nodes0[i].parent == s.nodes@[i].parent);
            assert(nodes0[pi].children@.contains(i as usize));
            if pi == u {
                let kk = choose|kk: int| 0 <= kk < nodes0[pi].children@.len() && nodes0[pi].children@[kk] == i as usize;
                assert(s.nodes@[pi].children@[kk] == i as usize);
            }
        }
    }
}

/// `s` holds the nodes of `s0` followed by those of `o`, moved by the sizes of
/// the arenas of `s0`, with the flag of one of the two cleared.
spec fn absorbed<V>(s: Sfib<V>, s0: Sfib<V>, o: Sfib<V>, demote_self: bool) -> bool {
    let n1 = s0.nodes@.len();
    let n2 = o.nodes@.len();
    let f1 = s0.flags@.len();
    let x1 = s0.fixes.len();
    &&& s.nodes@.len() == n1 + n2
    &&& forall|k: int| 0 <= k < n1 ==> s.nodes@[k] == s0.nodes@[k]
    &&& forall|j: int| 0 <= j < n2 ==> #[trigger] shifted(o.nodes@[j], s.nodes@[n1 + j], n1, f1, x1)
    &&& s.vals@ == s0.vals@ + o.vals@
    &&& s.flags@ == (if demote_self { s0.flags@.update(s0.active as int, false) } else { s0.flags@ })
        + (if demote_self { o.flags@ } else { o.flags@.update(o.active as int, false) })
    &&& s.qlinks.wf()
    &&& s.qlinks.len() == n1 + n2
    &&& s.qlinks.nexts() == s0.qlinks.nexts() + shift_seq(o.qlinks.nexts(), n1)
    &&& s.qlinks.prevs() == s0.qlinks.prevs() + shift_seq(o.qlinks.prevs(), n1)
    &&& s.fixes.wf()
    &&& s.fixes.len() == x1 + o.fixes.len()
    &&& forall|f: int| 0 <= f < s.fixes.len() ==> (#[trigger] s.fixes.items()[f]).node < n1 + n2
    &&& s.depth@ == s0.depth@ + o.depth@
    &&& s.root == s0.root
    &&& s.q == s0.q
    &&& s.active == s0.active
    &&& s.size == n1 + n2
    &&& s.fix_multis == s0.fix_multis
    &&& s.fix_singles == s0.fix_singles
}

/// What is left of the invariant after a meld has hung root `v` below root
/// `u` of the absorbed state `sa`, once every node is known to be well formed.
#[verifier::rlimit(100)]
#[verifier::spinoff_prover]
proof fn lemma_join<V>(s: Sfib<V>, sa: Sfib<V>, s0: Sfib<V>, o: Sfib<V>, demote_self: bool, u: usize, v: usize)
    requires
        absorbed(sa, s0, o, demote_self),
        s0.inv(),
        o.inv(),
        s0.root is Some,
        o.root is Some,
        s0.len() + o.len() <= usize::MAX / 2,
        u == s0.root.unwrap() || u == o.root.unwrap() + s0.len(),
        v == s0.root.unwrap() || v == o.root.unwrap() + s0.len(),
        u != v,
        sa.nodes@[u as int].key <= sa.nodes@[v as int].key,
        s.nodes@.len() == sa.nodes@.len(),
        forall|k: int| 0 <= k < s.nodes@.len() ==> #[trigger] s.nodes@[k].key == sa.nodes@[k].key,
        forall|k: int| 0 <= k < s.nodes@.len() ==> #[trigger] s.nodes@[k].active == sa.nodes@[k].active,
        forall|k: int| 0 <= k < s.nodes@.len() && k != v ==> #[trigger] s.nodes@[k].parent == sa.nodes@[k].parent,
        s.nodes@[v as int].parent == Some(u),
        forall|i: int| 0 <= i < s.nodes@.len() ==> #[trigger] s.node_ok(i),
        s.depth@.len() == s.nodes@.len(),
        s.flags == sa.flags,
        s.vals == sa.vals,
        s.fixes == sa.fixes,
        s.fix_multis == sa.fix_multis,
        s.fix_singles == sa.fix_singles,
        s.active == sa.active,
        s.size == sa.size,
        s.root == Some(u),
        s.qlinks.wf(),
        s.qlinks.len() == s.nodes@.len(),
        s.qlinks.nexts()[u as int] == u,
        s.q is Some,
        s.q.unwrap() < s.nodes@.len(),
        s.q.unwrap() != u,
    ensures
        s.inv(),
        s.len() == s0.len() + o.len(),
        s.keys() == s0.keys() + o.keys(),
        s.values() == s0.values() + o.values(),
        forall|i: int|
            0 <= i < s0.len() ==> #[trigger] s.active_at(i) == (s0.active_at(i)
                && !(demote_self && s0.flag_of(i) == Some(s0.own_flag()))),
        forall|j: int|
            0 <= j < o.len() ==> #[trigger] s.active_at(s0.len() + j) == (o.active_at(j)
                && !(!demote_self && o.flag_of(j) == Some(o.own_flag()))),
{
    reveal(Sfib::node_ok);
    let n1 = s0.len();
    let n2 = o.len();
    let f1 = s0.flags@.len();
    let x1 = s0.fixes.len();
    let n = n1 + n2;
    let r1 = s0.root.unwrap() as int;
    let r2 = o.root.unwrap() as int;
    assert(s0.node_ok(r1));
    assert(o.node_ok(r2));
    assert(shifted(o.nodes@[r2], sa.nodes@[n1 + r2], n1, f1, x1));
    assert forall|i: int| 0 <= i < n && (#[trigger] s.nodes@[i]).parent is None implies i == u by {
        if i < n1 {
            assert(s0.node_ok(i));
        } else {
            assert(shifted(o.nodes@[i - n1], sa.nodes@[n1 + (i - n1)], n1, f1, x1));
        }
    }
    assert forall|i: int| 0 <= i < n implies s.nodes@[u as int].key <= #[trigger] s.nodes@[i].key by {
        if i < n1 {
            assert(s0.nodes@[r1].key <= s0.nodes@[i].key);
        } else {
            assert(shifted(o.nodes@[i - n1], sa.nodes@[n1 + (i - n1)], n1, f1, x1));
            assert(o.nodes@[r2].key <= o.nodes@[i - n1].key);
        }
    }
    assert(s.keys() =~= s0.keys() + o.keys()) by {
        assert forall|i: int| 0 <= i < n implies s.keys()[i] == (s0.keys() + o.keys())[i] by {
            if i >= n1 {
                assert(shifted(o.nodes@[i - n1], sa.nodes@[n1 + (i - n1)], n1, f1, x1));
            }
        }
    }
    assert forall|i: int| 0 <= i < n1 implies #[trigger] s.active_at(i) == (s0.active_at(i)
        && !(demote_self && s0.flag_of(i) == Some(s0.own_flag()))) by {
        assert(s0.node_ok(i));
    }
    assert forall|j: int| 0 <= j < n2 implies #[trigger] s.active_at(n1 + j) == (o.active_at(j)
        && !(!demote_self && o.flag_of(j) == Some(o.own_flag()))) by {
        assert(o.node_ok(j));
        assert(shifted(o.nodes@[j], sa.nodes@[n1 + j], n1, f1, x1));
    }
    assert(s.fixes.len() <= n);
    assert(s.flags@.len() + 1 <= 2 * n);
}

/// Facts about the absorbed state `sa` that a meld needs before it joins the
/// two trees.
#[verifier::rlimit(100)]
#[verifier::spinoff_prover]
proof fn lemma_join_pre<V>(sa: Sfib<V>, s0: Sfib<V>, o: Sfib<V>, demote_self: bool, oq2: Option<usize>)
    requires
        absorbed(sa, s0, o, demote_self),
        s0.root is Some,
        o.root is Some,
        s0.root.unwrap() < s0.len(),
        o.root.unwrap() < o.len(),
        s0.qlinks.wf(),
        o.qlinks.wf(),
        s0.qlinks.len() == s0.len(),
        o.qlinks.len() == o.len(),
        s0.qlinks.nexts()[s0.root.unwrap() as int] == s0.root.unwrap(),
        o.qlinks.nexts()[o.root.unwrap() as int] == o.root.unwrap(),
        s0.q is Some ==> s0.q.unwrap() < s0.len() && s0.q.unwrap() != s0.root.unwrap(),
        o.q is Some ==> o.q.unwrap() < o.len() && o.q.unwrap() != o.root.unwrap(),
        s0.len() + o.len() <= usize::MAX / 2,
        oq2 == (match o.q { Some(b) => Some((b + s0.len()) as usize), None => None }),
    ensures
        ({
            let r1 = s0.root.unwrap();
            let r2 = (o.root.unwrap() + s0.len()) as usize;
            &&& sa.root == Some(r1)
            &&& r1 < s0.len()
            &&& s0.len() <= r2 < sa.nodes@.len()
            &&& sa.qlinks.wf()
            &&& sa.qlinks.len() == sa.nodes@.len()
            &&& sa.qlinks.nexts()[r1 as int] == r1
            &&& sa.qlinks.nexts()[r2 as int] == r2
            &&& (sa.q is Some ==> sa.q.unwrap() < s0.len() && sa.q.unwrap() != r1)
            &&& (oq2 is Some ==> s0.len() <= oq2.unwrap() < sa.nodes@.len() && oq2.unwrap() != r2)
        }),
{
    let j2 = o.root.unwrap() as int;
    let n1 = s0.len();
    assert(o.qlinks.nexts()[j2] == j2);
    assert(shift_seq(o.qlinks.nexts(), n1)[j2] == j2 + n1);
    assert(sa.qlinks.nexts()[n1 + j2] == shift_seq(o.qlinks.nexts(), n1)[j2]);
    assert(s0.qlinks.nexts()[s0.root.unwrap() as int] == s0.root.unwrap());
}

/// `node_ok` reads only the nodes, the depths and the sizes of the flag and
/// fix arenas.
proof fn lemma_node_ok_frame<V>(a: Sfib<V>, b: Sfib<V>)
    requires
        a.nodes == b.nodes,
        a.depth == b.depth,
        a.flags == b.flags,
        a.fixes == b.fixes,
    ensures
        forall|i: int| #[trigger] b.node_ok(i) == a.node_ok(i),
{
    reveal(Sfib::node_ok);
}

/// One step up from `j`: `j` lies below `x` exactly when its parent does.
proof fn lemma_sub_step<V>(s: Sfib<V>, j: int, x: int)
    requires
        j != x,
        s.nodes@[j].parent is Some,
    ensures
        s.in_sub(j, x) <==> s.in_sub(s.nodes@[j].parent.unwrap() as int, x),
{
    let p = s.nodes@[j].parent.unwrap() as int;
    if s.in_sub(j, x) {
        let f = choose|f: nat| s.anc(j, x, f);
        assert(f > 0);
        assert(s.anc(p, x, (f - 1) as nat));
    }
    if s.in_sub(p, x) {
        let f = choose|f: nat| s.anc(p, x, f);
        assert(s.anc(j, x, f + 1));
    }
}

/// Below `x`, depths are at least that of `x`.
proof fn lemma_sub_depth<V>(s: Sfib<V>, j: int, x: int, f: nat)
    requires
        s.inv(),
        0 <= j < s.nodes@.len(),
        s.anc(j, x, f),
    ensures
        s.depth@[j] >= s.depth@[x],
    decreases f,
{
    reveal(Sfib::node_ok);
    if j != x {
        assert(s.node_ok(j));
        let p = s.nodes@[j].parent.unwrap() as int;
        lemma_sub_depth(s, p, x, (f - 1) as nat);
    }
}

/// A parentless node other than `x` is not below `x`.
proof fn lemma_sub_top<V>(s: Sfib<V>, j: int, x: int)
    requires
        j != x,
        s.nodes@[j].parent is None,
    ensures
        !s.in_sub(j, x),
{
    if s.in_sub(j, x) {
        let f = choose|f: nat| s.anc(j, x, f);
        assert(!s.anc(j, x, f));
    }
}

/// Splices the one-element cycle `v`, then the cycle through `oq2`, behind
/// the queue head `q`, and returns the new head. `u` stays alone.
#[verifier::rlimit(100)]
#[verifier::spinoff_prover]
fn splice_links(ql: &mut CyclicList<()>, q: Option<usize>, u: usize, v: usize, oq2: Option<usize>) -> (r: usize)
    requires
        old(ql).wf(),
        u < old(ql).len(),
        v < old(ql).len(),
        u != v,
        old(ql).nexts()[u as int] == u,
        old(ql).nexts()[v as int] == v,
        q is Some ==> q.unwrap() < old(ql).len() && q.unwrap() != u && q.unwrap() != v,
        oq2 is Some ==> oq2.unwrap() < old(ql).len() && oq2.unwrap() != u && oq2.unwrap() != v,
    ensures
        final(ql).wf(),
        final(ql).len() == old(ql).len(),
        final(ql).nexts()[u as int] == u,
        r < final(ql).len(),
        r != u,
        r == (match q { Some(a) => a, None => v }),
{
    proof {
        assert(ql.prevs()[u as int] == u);
        assert(ql.prevs()[v as int] == v);
    }
    match (q, oq2) {
        (Some(a), Some(b)) => {
            ql.push_back(a, v);
            proof {
                assert(ql.nexts()[u as int] == u);
                assert(ql.prevs()[u as int] == u);
                assert(ql.prevs()[b as int] != u);
            }
            ql.extend_back(a, b);
            a
        },
        (Some(a), None) => {
            ql.push_back(a, v);
            a
        },
        (None, Some(b)) => {
            ql.extend_back(v, b);
            v
        },
        (None, None) => v,
    }
}

/// The invariant survives moving `x` with its subtree below `y`, given how
/// the children lists changed.
#[verifier::rlimit(100)]
#[verifier::spinoff_prover]
proof fn lemma_relink<V>(s: Sfib<V>, s0: Sfib<V>, x: int, y: int)
    requires
        s0.inv(),
        0 <= x < s0.nodes@.len(),
        0 <= y < s0.nodes@.len(),
        s0.nodes@[x].parent is Some,
        !s0.in_sub(y, x),
        s0.nodes@[y].key <= s0.nodes@[x].key,
        s.nodes@.len() == s0.nodes@.len(),
        forall|k: int| 0 <= k < s.nodes@.len() ==> {
            &&& (#[trigger] s.nodes@[k]).key == s0.nodes@[k].key
            &&& s.nodes@[k].active == s0.nodes@[k].active
            &&& s.nodes@[k].rank == s0.nodes@[k].rank
            &&& (k != x ==> s.nodes@[k].parent == s0.nodes@[k].parent)
            &&& s.nodes@[k].children@.no_duplicates()
            &&& forall|c: usize| #[trigger] s.nodes@[k].children@.contains(c) <==> ((s0.nodes@[k].children@.contains(c) && c != x)
                || (k == y && c == x))
        },
        s.nodes@[x].parent == Some(y as usize),
        s.depth@ == Seq::new(
            s0.nodes@.len(),
            |i: int| if s0.in_sub(i, x) { s0.depth@[i] - s0.depth@[x] + s0.depth@[y] + 1 } else { s0.depth@[i] },
        ),
        s.size == s0.size,
        s.vals == s0.vals,
        s.flags == s0.flags,
        s.active == s0.active,
        s.qlinks == s0.qlinks,
        s.q == s0.q,
        s.fixes == s0.fixes,
        s.fix_multis == s0.fix_multis,
        s.fix_singles == s0.fix_singles,
        s.root == s0.root,
    ensures
        s.inv(),
{
    reveal(Sfib::node_ok);
    let n = s0.nodes@.len();
    assert(s0.anc(x, x, 0));
    assert(s0.node_ok(y));
    assert forall|i: int| 0 <= i < n implies #[trigger] s.node_ok(i) by {
        assert(s0.node_ok(i));
        if s0.in_sub(i, x) {
            let f = choose|f: nat| s0.anc(i, x, f);
            lemma_sub_depth(s0, i, x, f);
        }
        if i != x && s0.nodes@[i].parent is Some {
            lemma_sub_step(s0, i, x);
            let p = s0.nodes@[i].parent.unwrap() as int;
            assert(s0.nodes@[p].children@.contains(i as usize));
            assert(s.nodes@[p].children@.contains(i as usize));
        }
        if i == x {
            assert(s.nodes@[y].children@.contains(x as usize));
        }
        let cs = s.nodes@[i].children@;
        assert forall|k: int| 0 <= k < cs.len() implies (#[trigger] cs[k] as int) < n
            && s.nodes@[cs[k] as int].parent == Some(i as usize) by {
            assert(cs.contains(cs[k]));
            if !(i == y && cs[k] == x) {
                let c0 = s0.nodes@[i].children@;
                let kk = choose|kk: int| 0 <= kk < c0.len() && c0[kk] == cs[k];
                assert(c0[kk] == cs[k]);
            }
        }
        let nd = s.nodes@[i];
        assert(nd.active is Some ==> (nd.active.unwrap() as int) < s.flags@.len());
        assert(nd.rank is Fix ==> (nd.rank->Fix_0 as int) < s.fixes.len());
        assert(s.depth@[i] >= 0);
        assert(nd.parent is Some ==> nd.parent.unwrap() < n);
        assert(nd.parent is Some ==> s.depth@[nd.parent.unwrap() as int] < s.depth@[i]);
        assert(nd.parent is Some ==> s.nodes@[nd.parent.unwrap() as int].key <= nd.key);
        assert(nd.parent is Some ==> s.nodes@[nd.parent.unwrap() as int].children@.contains(i as usize));
        assert(nd.children@.no_duplicates());
    }
    if let Some(r) = s0.root {
        assert forall|i: int| 0 <= i < n && (#[trigger] s.nodes@[i]).parent is None implies i == r by {
            assert(s0.nodes@[i].parent is None);
        }
        assert(s0.node_ok(x));
    }
}

/// `node_ok` does not read the rank (but for fix-list entries) or the loss.
proof fn lemma_node_ok_fields<V>(a: Sfib<V>, b: Sfib<V>)
    requires
        a.depth == b.depth,
        a.flags == b.flags,
        a.fixes == b.fixes,
        a.nodes@.len() == b.nodes@.len(),
        forall|k: int| 0 <= k < a.nodes@.len() ==> {
            &&& (#[trigger] b.nodes@[k]).key == a.nodes@[k].key
            &&& b.nodes@[k].active == a.nodes@[k].active
            &&& b.nodes@[k].parent == a.nodes@[k].parent
            &&& b.nodes@[k].children@ == a.nodes@[k].children@
            &&& (b.nodes@[k].rank is Fix ==> b.nodes@[k].rank == a.nodes@[k].rank)
        },
    ensures
        forall|i: int| 0 <= i < a.nodes@.len() && a.node_ok(i) ==> #[trigger] b.node_ok(i),
{
    reveal(Sfib::node_ok);
    assert forall|i: int| 0 <= i < a.nodes@.len() && a.node_ok(i) implies #[trigger] b.node_ok(i) by {
        let nd = b.nodes@[i];
        if nd.parent is Some {
            assert(b.nodes@[nd.parent.unwrap() as int].children@ == a.nodes@[nd.parent.unwrap() as int].children@);
        }
        assert forall|k: int| 0 <= k < nd.children@.len() implies (#[trigger] nd.children@[k] as int) < b.nodes@.len()
            && b.nodes@[nd.children@[k] as int].parent == Some(i as usize) by {
            assert(a.nodes@[i].children@[k] == nd.children@[k]);
        }
    }
}

/// The rank one more active child gives.
pub open spec fn rank_inc(r: RankDesc) -> RankDesc {
    match r {
        RankDesc::Rank(n) => RankDesc::Rank(if n < usize::MAX { (n + 1) as usize } else { n }),
        RankDesc::Unset => RankDesc::Rank(1),
        RankDesc::Fix(f) => RankDesc::Fix(f),
    }
}

/// The rank one active child fewer gives.
pub open spec fn rank_dec(r: RankDesc) -> RankDesc {
    match r {
        RankDesc::Rank(n) => RankDesc::Rank(if n > 0 { (n - 1) as usize } else { 0 }),
        RankDesc::Unset => RankDesc::Rank(0),
        RankDesc::Fix(f) => RankDesc::Fix(f),
    }
}

/// `t` holds the same elements as `s`, with the same root, activity,
/// pending-queue head and fix-list heads.
pub open spec fn frame<V>(s: Sfib<V>, t: Sfib<V>) -> bool {
    &&& t.len() == s.len()
    &&& t.keys() == s.keys()
    &&& t.values() == s.values()
    &&& t.root_of() == s.root_of()
    &&& t.pending_head() == s.pending_head()
    &&& t.fix_heads() == s.fix_heads()
    &&& forall|i: int| 0 <= i < s.len() ==> #[trigger] t.active_at(i) == s.active_at(i)
}

/// `t` is `s` with `x` moved from its parent to below `y`: first among the
/// children of `y` when `front`, last otherwise. No other parent and no
/// other children list changes.
pub open spec fn moved<V>(s: Sfib<V>, t: Sfib<V>, x: usize, y: usize, front: bool) -> bool {
    let p = s.parent_of(x as int).unwrap();
    &&& frame(s, t)
    &&& t.parent_of(x as int) == Some(y)
    &&& forall|k: int| 0 <= k < s.len() && k != x ==> #[trigger] t.parent_of(k) == s.parent_of(k)
    &&& forall|k: int| 0 <= k < s.len() && k != p && k != y ==> #[trigger] t.children_of(k) == s.children_of(k)
    &&& exists|k: int|
        0 <= k < s.children_of(p as int).len() && #[trigger] s.children_of(p as int)[k] == x && ({
            let c = s.children_of(p as int).remove(k);
            let cy = if p == y { c } else { s.children_of(y as int) };
            &&& t.children_of(y as int) == (if front { seq![x] + cy } else { cy.push(x) })
            &&& (p != y ==> t.children_of(p as int) == c)
        })
}

/// `t` is `s` after a link of `x` below `y`: an active `x` goes first and
/// moves one unit of rank from its old parent to `y`; a passive one goes
/// last and no rank changes. Losses do not change.
pub open spec fn linked<V>(s: Sfib<V>, t: Sfib<V>, x: usize, y: usize) -> bool {
    let act = s.active_at(x as int);
    let p = s.parent_of(x as int).unwrap();
    &&& moved(s, t, x, y, act)
    &&& forall|k: int| 0 <= k < s.len() ==> #[trigger] t.loss_of(k) == s.loss_of(k)
    &&& forall|k: int|
        0 <= k < s.len() ==> #[trigger] t.rank_desc_of(k) == (if act && k == p && k == y {
            rank_inc(rank_dec(s.rank_desc_of(k)))
        } else if act && k == p {
            rank_dec(s.rank_desc_of(k))
        } else if act && k == y {
            rank_inc(s.rank_desc_of(k))
        } else {
            s.rank_desc_of(k)
        })
}

/// `t` is `s` with the loss of node `i` set to `loss` (when given) and its
/// rank moved one step up or down (when given).
pub open spec fn node_set<V>(s: Sfib<V>, t: Sfib<V>, i: usize, loss: Option<usize>, up: Option<bool>) -> bool {
    &&& frame(s, t)
    &&& forall|k: int| 0 <= k < s.len() ==> #[trigger] t.parent_of(k) == s.parent_of(k)
    &&& forall|k: int| 0 <= k < s.len() ==> #[trigger] t.children_of(k) == s.children_of(k)
    &&& forall|k: int| 0 <= k < s.len() && k != i ==> #[trigger] t.loss_of(k) == s.loss_of(k)
    &&& forall|k: int| 0 <= k < s.len() && k != i ==> #[trigger] t.rank_desc_of(k) == s.rank_desc_of(k)
    &&& t.loss_of(i as int) == (match loss { Some(l) => l, None => s.loss_of(i as int) })
    &&& t.rank_desc_of(i as int) == (match up {
        Some(true) => rank_inc(s.rank_desc_of(i as int)),
        Some(false) => rank_dec(s.rank_desc_of(i as int)),
        None => s.rank_desc_of(i as int),
    })
}

/// Rank and loss updates after a move keep the move.
proof fn lemma_moved_frame<V>(s0: Sfib<V>, s1: Sfib<V>, s3: Sfib<V>, x: usize, y: usize, front: bool)
    requires
        moved(s0, s1, x, y, front),
        s3.len() == s1.len(),
        frame(s1, s3),
        forall|k: int| 0 <= k < s1.len() ==> #[trigger] s3.parent_of(k) == s1.parent_of(k),
        forall|k: int| 0 <= k < s1.len() ==> #[trigger] s3.children_of(k) == s1.children_of(k),
        0 <= x < s0.len(),
        0 <= y < s0.len(),
        s0.parent_of(x as int) is Some,
        (s0.parent_of(x as int).unwrap() as int) < s0.len(),
    ensures
        moved(s0, s3, x, y, front),
{
    let p = s0.parent_of(x as int).unwrap();
    assert(s3.children_of(y as int) == s1.children_of(y as int));
    assert(s3.children_of(p as int) == s1.children_of(p as int));
    assert(s3.parent_of(x as int) == s1.parent_of(x as int));
}

/// After the active-root link of `s` into `m`, the passive last child of
/// the absorbing node `a`, if any, moves below the root.
pub open spec fn tail_moved<V>(m: Sfib<V>, t: Sfib<V>, a: usize) -> bool {
    let r = m.root_of().unwrap();
    let cs = m.children_of(a as int);
    if cs.len() > 0 && a != r && !m.active_at(cs.last() as int) && !m.in_sub(r as int, cs.last() as int) {
        linked(m, t, cs.last(), r)
    } else {
        t == m
    }
}

/// What rule `rule` (0: active roots, 1: root degree, 2: one-node loss,
/// 3: two-node loss) does to `s`, giving `t`, and whether it fires.
#[verifier::opaque]
pub open spec fn rule_effect<V>(rule: int, s: Sfib<V>, t: Sfib<V>, fired: bool) -> bool {
    &&& fired == (if rule == 0 {
        s.ar_ready()
    } else if rule == 1 {
        s.rd_ready()
    } else if rule == 2 {
        s.ol_ready()
    } else {
        s.tl_ready()
    })
    &&& !fired ==> t == s
    &&& fired ==> (if rule == 0 {
        exists|m: Sfib<V>| #[trigger] linked(s, m, s.multis_pair().unwrap().1, s.multis_pair().unwrap().0)
            && m.inv() && tail_moved(m, t, s.multis_pair().unwrap().0)
    } else if rule == 1 {
        linked(s, t, s.root_pair().1, s.root_pair().0)
    } else if rule == 2 {
        exists|m: Sfib<V>| #[trigger] linked(s, m, s.pending_head().unwrap(), s.root_of().unwrap())
            && node_set(m, t, s.pending_head().unwrap(), Some(0usize), None)
    } else {
        exists|m1: Sfib<V>, m2: Sfib<V>| #[trigger] linked(s, m1, s.queue_pair().1, s.queue_pair().0)
            && #[trigger] node_set(m1, m2, s.queue_pair().0, Some(0usize), None)
            && node_set(m2, t, s.queue_pair().1, Some(0usize), None)
    })
}

/// Total of four budgets.
pub open spec fn budget_sum(b: (usize, usize, usize, usize)) -> int {
    b.0 + b.1 + b.2 + b.3
}

/// Rule `rule` met with budget `budget`: with budget left it is tried on
/// `s`, giving `t`, and its budget drops by one when it fires; without
/// budget it is not tried.
pub open spec fn spend<V>(rule: int, budget: usize, s: Sfib<V>, t: Sfib<V>, left: usize) -> bool {
    if budget > 0 {
        exists|f: bool| #[trigger] rule_effect(rule, s, t, f) && left == budget - (if f { 1int } else { 0int })
    } else {
        t == s && left == budget
    }
}

/// One pass of the reduction: the four rules in turn, with budgets `b`
/// before and `l` after.
pub open spec fn one_pass<V>(s: Sfib<V>, t: Sfib<V>, b: (usize, usize, usize, usize), l: (usize, usize, usize, usize)) -> bool {
    exists|s1: Sfib<V>, s2: Sfib<V>, s3: Sfib<V>|
        #![trigger spend(0, b.0, s, s1, l.0), spend(1, b.1, s1, s2, l.1), spend(2, b.2, s2, s3, l.2)]
        spend(0, b.0, s, s1, l.0) && spend(1, b.1, s1, s2, l.1) && spend(2, b.2, s2, s3, l.2)
            && spend(3, b.3, s3, t, l.3)
}

/// A run of the reduction: `states[i + 1]` follows from `states[i]` by one
/// pass with budgets `budgets[i]` before and `budgets[i + 1]` after; each
/// pass starts with some budget left, and each pass but the last fires.
pub open spec fn is_run<V>(states: Seq<Sfib<V>>, budgets: Seq<(usize, usize, usize, usize)>) -> bool {
    &&& states.len() >= 1
    &&& budgets.len() == states.len()
    &&& forall|i: int| 0 <= i < states.len() - 1 ==> #[trigger] one_pass(states[i], states[i + 1], budgets[i], budgets[i + 1])
    &&& forall|i: int| 0 <= i < states.len() - 1 ==> budget_sum(#[trigger] budgets[i]) > 0
    &&& forall|i: int| 0 <= i < states.len() - 2 ==> budget_sum(#[trigger] budgets[i + 1]) < budget_sum(budgets[i])
}


/// A handle on a node of a heap, valid for as long as the heap holds it.
pub struct Element(usize);

impl Element {
    pub closed spec fn id(&self) -> usize {
        self.0
    }

    pub fn index(&self) -> (r: usize)
        ensures
            r == self.id(),
    {
        self.0
    }
}

pub struct Sfib<V> {
    size: usize,
    root: Option<usize>,
    active: usize,
    flags: Vec<bool>,
    nodes: Vec<Node>,
    vals: Vec<V>,
    q: Option<usize>,
    qlinks: CyclicList<()>,
    fixes: CyclicList<Fix>,
    fix_multis: Option<usize>,
    fix_singles: Option<usize>,
    depth: Ghost<Seq<int>>,
}

/// `m` is the least value of `s`.
pub open spec fn is_min(s: Seq<u64>, m: u64) -> bool {
    &&& s.contains(m)
    &&& forall|i: int| 0 <= i < s.len() ==> m <= #[trigger] s[i]
}

impl<V> Sfib<V> {
    /// Number of nodes the heap holds.
    pub closed spec fn len(&self) -> nat {
        self.nodes@.len()
    }

    /// The key of each node, by index.
    pub closed spec fn keys(&self) -> Seq<u64> {
        self.nodes@.map_values(|n: Node| n.key)
    }

    /// The value of each node, by index.
    pub closed spec fn values(&self) -> Seq<V> {
        self.vals@
    }

    /// The parent of node `i`, if any.
    pub closed spec fn parent_of(&self, i: int) -> Option<usize> {
        self.nodes@[i].parent
    }

    /// The node at the root, which holds the least key.
    pub closed spec fn root_of(&self) -> Option<usize> {
        self.root
    }

    /// The flag that node `i` was created under, if any.
    pub closed spec fn flag_of(&self, i: int) -> Option<usize> {
        self.nodes@[i].active
    }

    /// The flag that nodes created by this heap are given.
    pub closed spec fn own_flag(&self) -> usize {
        self.active
    }

    /// Whether flag `f` is still set.
    pub closed spec fn flag_set(&self, f: int) -> bool {
        self.flags@[f]
    }

    /// The head of the pending queue, if any.
    pub closed spec fn pending_head(&self) -> Option<usize> {
        self.q
    }

    /// The heads of the collision and single segments of the fix-list.
    pub closed spec fn fix_heads(&self) -> (Option<usize>, Option<usize>) {
        (self.fix_multis, self.fix_singles)
    }

    /// The children of node `i`, in order.
    pub closed spec fn children_of(&self, i: int) -> Seq<usize> {
        self.nodes@[i].children@
    }

    /// The rank descriptor of node `i`.
    pub closed spec fn rank_desc_of(&self, i: int) -> RankDesc {
        self.nodes@[i].rank
    }

    /// The loss counter of node `i`.
    pub closed spec fn loss_of(&self, i: int) -> usize {
        self.nodes@[i].loss
    }

    /// Node `i` is active: its flag is still set.
    pub closed spec fn active_at(&self, i: int) -> bool {
        self.nodes@[i].active is Some && self.flags@[self.nodes@[i].active.unwrap() as int]
    }

/// Node `i` is active and below no active node.
    pub open spec fn active_root_at(&self, i: int) -> bool {
        &&& self.active_at(i)
        &&& match self.parent_of(i) {
            Some(p) => !self.active_at(p as int),
            None => true,
        }
    }

    /// Node `i` is passive and so are all its children.
    pub open spec fn passive_linkable_at(&self, i: int) -> bool {
        &&& !self.active_at(i)
        &&& forall|k: int| 0 <= k < self.children_of(i).len() ==> !self.active_at(#[trigger] self.children_of(i)[k] as int)
    }

    /// The rank of node `i`, read through its fix-list entry if it has one.
    pub closed spec fn rank_value(&self, i: int) -> usize {
        match self.nodes@[i].rank {
            RankDesc::Rank(r) => r,
            RankDesc::Fix(f) => self.fixes.items()[f as int].rank,
            RankDesc::Unset => 0,
        }
    }

    /// The node after `x` in the pending queue.
    pub closed spec fn pending_next(&self, x: int) -> usize {
        self.qlinks.nexts()[x]
    }

    /// The nodes of the front two entries of the collision segment of the
    /// fix-list, smaller key first, when the entries are distinct and of
    /// equal rank.
    pub closed spec fn multis_pair(&self) -> Option<(usize, usize)> {
        match self.fix_multis {
            None => None,
            Some(m) => {
                let fx = self.fixes.nexts()[m as int];
                let fy = self.fixes.nexts()[fx as int];
                let ex = self.fixes.items()[fx as int];
                let ey = self.fixes.items()[fy as int];
                if fx == fy || ex.rank != ey.rank {
                    None
                } else if self.nodes@[ex.node as int].key < self.nodes@[ey.node as int].key {
                    Some((ex.node, ey.node))
                } else {
                    Some((ey.node, ex.node))
                }
            },
        }
    }

    /// The active-root reduction applies: the pair of the fix-list front are
    /// two distinct active roots, the one with the larger key has a parent
    /// and the other does not lie below it.
    pub open spec fn ar_ready(&self) -> bool {
        match self.multis_pair() {
            None => false,
            Some((a, b)) => {
                &&& a != b
                &&& self.active_root_at(a as int)
                &&& self.active_root_at(b as int)
                &&& self.parent_of(b as int) is Some
                &&& !self.in_sub(a as int, b as int)
            },
        }
    }

    /// The last two children of the root, smaller key first.
    pub open spec fn root_pair(&self) -> (usize, usize) {
        let cs = self.children_of(self.root_of().unwrap() as int);
        let c1 = cs[cs.len() - 1];
        let c2 = cs[cs.len() - 2];
        if self.keys()[c1 as int] < self.keys()[c2 as int] { (c1, c2) } else { (c2, c1) }
    }

    /// The root-degree reduction applies: the root's last two children are
    /// passive with passive children only, and the one with the smaller key
    /// does not lie below the other.
    pub open spec fn rd_ready(&self) -> bool {
        let cs = self.children_of(self.root_of().unwrap() as int);
        &&& self.root_of() is Some
        &&& cs.len() >= 2
        &&& self.passive_linkable_at(cs[cs.len() - 1] as int)
        &&& self.passive_linkable_at(cs[cs.len() - 2] as int)
        &&& !self.in_sub(self.root_pair().0 as int, self.root_pair().1 as int)
    }

    /// The one-node loss reduction applies: the head of the pending queue
    /// is active, has a parent and a loss of at least two, and the root
    /// does not lie below it.
    pub open spec fn ol_ready(&self) -> bool {
        let x = self.pending_head().unwrap() as int;
        &&& self.pending_head() is Some
        &&& self.root_of() is Some
        &&& self.parent_of(x) is Some
        &&& self.active_at(x)
        &&& self.loss_of(x) >= 2
        &&& !self.in_sub(self.root_of().unwrap() as int, x)
    }

    /// The first two nodes of the pending queue, smaller key first.
    pub open spec fn queue_pair(&self) -> (usize, usize) {
        let x = self.pending_head().unwrap();
        let y = self.pending_next(x as int);
        if self.keys()[x as int] < self.keys()[y as int] { (x, y) } else { (y, x) }
    }

    /// The two-node loss reduction applies: the first two nodes of the
    /// pending queue are distinct, active, of loss one and equal rank, the
    /// one with the larger key has a parent and the other does not lie
    /// below it.
    pub open spec fn tl_ready(&self) -> bool {
        let x = self.pending_head().unwrap() as int;
        let y = self.pending_next(x) as int;
        let (a, b) = self.queue_pair();
        &&& self.pending_head() is Some
        &&& x != y
        &&& self.active_at(x)
        &&& self.active_at(y)
        &&& self.loss_of(x) == 1
        &&& self.loss_of(y) == 1
        &&& self.rank_value(x) == self.rank_value(y)
        &&& self.parent_of(b as int) is Some
        &&& !self.in_sub(a as int, b as int)
    }

    /// Node `i` reaches the root by at most `steps` parent links.
    pub closed spec fn reaches_root(&self, i: int, steps: nat) -> bool
        decreases steps,
    {
        if self.root == Some(i as usize) {
            true
        } else if steps == 0 {
            false
        } else {
            match self.nodes@[i].parent {
                Some(p) => self.reaches_root(p as int, (steps - 1) as nat),
                None => false,
            }
        }
    }

    /// The nodes that reach the root by parent links.
    pub open spec fn live(&self) -> Set<int> {
        Set::new(|i: int| 0 <= i < self.len() && exists|s: nat| self.reaches_root(i, s))
    }

    /// Node `j` lies in the subtree of `x`: `x` is reached from `j` by at
    /// most `f` parent links.
    closed spec fn anc(&self, j: int, x: int, f: nat) -> bool
        decreases f,
    {
        if j == x {
            true
        } else if f == 0 {
            false
        } else {
            match self.nodes@[j].parent {
                Some(p) => self.anc(p as int, x, (f - 1) as nat),
                None => false,
            }
        }
    }

    /// Node `j` lies in the subtree of `x`.
    pub closed spec fn in_sub(&self, j: int, x: int) -> bool {
        exists|f: nat| self.anc(j, x, f)
    }

    #[verifier::opaque]
    closed spec fn node_ok(&self, i: int) -> bool {
        let n = self.nodes@.len();
        let nd = self.nodes@[i];
        &&& nd.active is Some ==> (nd.active.unwrap() as int) < self.flags@.len()
        &&& nd.rank is Fix ==> (nd.rank->Fix_0 as int) < self.fixes.len()
        &&& self.depth@[i] >= 0
        &&& nd.parent is Some ==> {
            let p = nd.parent.unwrap() as int;
            &&& p < n
            &&& self.depth@[p] < self.depth@[i]
            &&& self.nodes@[p].key <= nd.key
            &&& self.nodes@[p].children@.contains(i as usize)
        }
        &&& forall|k: int|
            0 <= k < nd.children@.len() ==> (#[trigger] nd.children@[k] as int) < n
                && self.nodes@[nd.children@[k] as int].parent == Some(i as usize)
        &&& nd.children@.no_duplicates()
    }

    /// Structural invariant of a heap.
    pub closed spec fn inv(&self) -> bool {
        let n = self.nodes@.len();
        &&& self.size == n
        &&& self.vals@.len() == n
        &&& self.depth@.len() == n
        &&& self.active < self.flags@.len()
        &&& self.qlinks.wf()
        &&& self.qlinks.len() == n
        &&& self.fixes.wf()
        &&& self.fixes.len() <= n
        &&& (if n == 0 { self.flags@.len() == 1 } else { self.flags@.len() + 1 <= 2 * n })
        &&& (self.fix_multis is Some ==> self.fix_multis.unwrap() < self.fixes.len())
        &&& (self.fix_singles is Some ==> self.fix_singles.unwrap() < self.fixes.len())
        &&& forall|f: int| 0 <= f < self.fixes.len() ==> (#[trigger] self.fixes.items()[f]).node < n
        &&& forall|i: int| 0 <= i < n ==> #[trigger] self.node_ok(i)
        &&& match self.root {
            None => n == 0 && self.flags@[self.active as int] && self.q is None,
            Some(r) => {
                &&& r < n
                &&& self.nodes@[r as int].parent is None
                &&& forall|i: int|
                    0 <= i < n && (#[trigger] self.nodes@[i]).parent is None ==> i == r
                &&& forall|i: int| 0 <= i < n ==> self.nodes@[r as int].key <= #[trigger] self.nodes@[i].key
                &&& self.qlinks.nexts()[r as int] == r
                &&& (self.q is Some ==> self.q.unwrap() < n && self.q.unwrap() != r)
            },
        }
    }

    /// The empty heap.
    pub fn new() -> (r: Self)
        ensures
            r.inv(),
            r.len() == 0,
            r.keys() == Seq::<u64>::empty(),
            r.values() == Seq::<V>::empty(),
            r.root_of() is None,
            r.flag_set(r.own_flag() as int),
            r.pending_head() is None,
            r.fix_heads() == (None::<usize>, None::<usize>),
    {
        let mut flags: Vec<bool> = Vec::new();
        flags.push(true);
        let r = Sfib {
            size: 0,
            root: None,
            active: 0,
            flags,
            nodes: Vec::new(),
            vals: Vec::new(),
            q: None,
            qlinks: CyclicList::new(),
            fixes: CyclicList::new(),
            fix_multis: None,
            fix_singles: None,
            depth: Ghost(Seq::empty()),
        };
        proof {
            assert(r.keys() =~= Seq::<u64>::empty());
        }
        r
    }

    /// Number of elements.
    pub fn size(&self) -> (r: usize)
        requires
            self.inv(),
        ensures
            r == self.len(),
            r == self.keys().len(),
            r == self.values().len(),
            self.root_of() is None <==> r == 0,
    {
        proof { self.lemma_root_min(); }
        self.size
    }

    proof fn lemma_root_min(&self)
        requires
            self.inv(),
        ensures
            self.root is Some <==> self.len() > 0,
            self.keys().len() == self.len(),
            self.values().len() == self.len(),
            self.root is Some ==> self.root.unwrap() < self.len(),
            self.root is Some ==> is_min(self.keys(), self.keys()[self.root.unwrap() as int]),
    {
        if let Some(r) = self.root {
            assert(self.keys()[r as int] == self.nodes@[r as int].key);
            assert forall|i: int| 0 <= i < self.keys().len() implies self.keys()[r as int] <= #[trigger] self.keys()[i] by {
                assert(self.nodes@[r as int].key <= self.nodes@[i].key);
            }
            assert(self.keys().contains(self.keys()[r as int]));
        }
    }

    /// The least key, or `None` on an empty heap.
    pub fn min_key(&self) -> (r: Option<u64>)
        requires
            self.inv(),
        ensures
            r is None <==> self.len() == 0,
            r is None <==> self.root_of() is None,
            r is None <==> self.keys().len() == 0,
            r is Some ==> is_min(self.keys(), r.unwrap()),
            r is Some ==> r.unwrap() == self.keys()[self.root_of().unwrap() as int],
    {
        proof { self.lemma_root_min(); }
        match self.root {
            Some(i) => Some(self.nodes[i].key),
            None => None,
        }
    }

    /// The value stored with the least key, or `None` on an empty heap.
    pub fn min_val(&self) -> (r: Option<&V>)
        requires
            self.inv(),
        ensures
            r is None <==> self.len() == 0,
            r is None <==> self.root_of() is None,
            r is Some ==> self.root_of().unwrap() < self.len()
                && *r.unwrap() == self.values()[self.root_of().unwrap() as int]
                && is_min(self.keys(), self.keys()[self.root_of().unwrap() as int]),
    {
        proof { self.lemma_root_min(); }
        match self.root {
            Some(i) => Some(&self.vals[i]),
            None => None,
        }
    }

    /// A handle on the node with the least key, or `None` on an empty heap.
    pub fn min_node(&self) -> (r: Option<Element>)
        requires
            self.inv(),
        ensures
            r is None <==> self.len() == 0,
            r is Some ==> r.unwrap().id() < self.len() && is_min(
                self.keys(),
                self.keys()[r.unwrap().id() as int],
            ),
            r is Some ==> self.root_of() == Some(r.unwrap().id()),
            r is None <==> self.root_of() is None,
    {
        proof { self.lemma_root_min(); }
        match self.root {
            Some(i) => Some(Element(i)),
            None => None,
        }
    }

    /// Moves the nodes, values, flags, queue links and fix entries of
    /// `other` behind those of this heap, shifting the indices they hold,
    /// after clearing the flag of the heap that `demote_self` names.
    #[verifier::rlimit(50)]
    #[verifier::spinoff_prover]
    fn absorb(&mut self, other: Sfib<V>, demote_self: bool)
        requires
            old(self).inv(),
            other.inv(),
            old(self).root is Some,
            other.root is Some,
            old(self).len() + other.len() <= usize::MAX / 2,
        ensures
            absorbed(*final(self), *old(self), other, demote_self),
    {
        let ghost s0 = *self;
        let ghost o = other;
        let n1 = self.nodes.len();
        let f1 = self.flags.len();
        let x1 = self.fixes.size();
        let Sfib {
            size: osize,
            root: oroot,
            active: oactive,
            flags: mut oflags,
            nodes: mut onodes,
            vals: mut ovals,
            q: oq,
            qlinks: oqlinks,
            fixes: mut ofixes,
            fix_multis: _,
            fix_singles: _,
            depth: odepth,
        } = other;
        let n2 = onodes.len();
        let mut f: usize = 0;
        while f < ofixes.size()
            invariant
                o.inv(),
                *self == s0,
                n1 == s0.len(),
                n1 + n2 <= usize::MAX / 2,
                n2 == o.len(),
                ofixes.wf(),
                ofixes.len() == o.fixes.len(),
                ofixes.prevs() == o.fixes.prevs(),
                ofixes.nexts() == o.fixes.nexts(),
                f <= ofixes.len(),
                forall|g: int| 0 <= g < f ==> (#[trigger] ofixes.items()[g]).node == o.fixes.items()[g].node + n1
                    && ofixes.items()[g].rank == o.fixes.items()[g].rank,
                forall|g: int| f <= g < ofixes.len() ==> #[trigger] ofixes.items()[g] == o.fixes.items()[g],
            decreases ofixes.len() - f,
        {
            let e = *ofixes.item(f);
            assert(o.fixes.items()[f as int].node < n2);
            ofixes.set_item(f, Fix { node: e.node + n1, rank: e.rank });
            f = f + 1;
        }
        if demote_self {
            self.flags.set(self.active, false);
        } else {
            oflags.set(oactive, false);
        }
        let ghost fl1 = self.flags@;
        let ghost fl2 = oflags@;
        self.size = self.size + osize;
        // nodes of `other`, with their indices moved behind ours
        let mut k: usize = 0;
        while k < n2
            invariant
                s0.inv(),
                o.inv(),
                n1 == s0.len(),
                n2 == o.len(),
                f1 == s0.flags@.len(),
                x1 == s0.fixes.len(),
                n1 + n2 <= usize::MAX / 2,
                k <= n2,
                onodes@.len() == n2,
                self.nodes@.len() == n1 + k,
                forall|i: int| 0 <= i < n1 ==> self.nodes@[i] == s0.nodes@[i],
                forall|j: int| 0 <= j < k ==> #[trigger] shifted(o.nodes@[j], self.nodes@[n1 + j], n1 as nat, f1 as nat, x1 as nat),
                forall|j: int| k <= j < n2 ==> onodes@[j] == o.nodes@[j],
                self.qlinks == s0.qlinks,
                self.fixes == s0.fixes,
                self.vals == s0.vals,
                self.root == s0.root,
                self.q == s0.q,
                self.active == s0.active,
                self.depth == s0.depth,
                self.flags@ == fl1,
                self.size == n1 + n2,
                self.fix_multis == s0.fix_multis,
                self.fix_singles == s0.fix_singles,
            decreases n2 - k,
        {
            let mut tmp = Node::new(0, None);
            onodes.set_and_swap(k, &mut tmp);
            proof {
                reveal(Sfib::node_ok);
                assert(o.node_ok(k as int));
                assert(tmp == o.nodes@[k as int]);
            }
            let b = shift_node(tmp, n1, f1, x1, n2);
            self.nodes.push(b);
            k = k + 1;
        }
        self.vals.append(&mut ovals);
        self.flags.append(&mut oflags);
        self.qlinks.append(oqlinks);
        self.fixes.append(ofixes);
        self.depth = Ghost(s0.depth@ + o.depth@);
    }

    /// Melds `other` into this heap. The smaller of the two heaps (by
    /// number of elements; this one on a tie) has its flag cleared, which
    /// demotes every node created under it. The root with the larger key
    /// becomes a child of the other root. The nodes of `other` follow those
    /// of this heap, in their order. A reduction pass then runs with one
    /// unit of budget each for the active-root and root-degree rules.
    #[verifier::rlimit(100)]
    #[verifier::spinoff_prover]
    pub fn meld(&mut self, other: Sfib<V>)
        requires
            old(self).inv(),
            other.inv(),
            old(self).len() + other.len() <= usize::MAX / 2,
        ensures
            final(self).inv(),
            final(self).len() == old(self).len() + other.len(),
            final(self).keys() == old(self).keys() + other.keys(),
            final(self).values() == old(self).values() + other.values(),
            forall|i: int|
                0 <= i < old(self).len() ==> #[trigger] final(self).active_at(i) == (old(self).active_at(i)
                    && !(other.len() > 0 && old(self).len() <= other.len()
                    && old(self).flag_of(i) == Some(old(self).own_flag()))),
            forall|j: int|
                0 <= j < other.len() ==> #[trigger] final(self).active_at(old(self).len() + j) == (other.active_at(j)
                    && !(old(self).len() > 0 && old(self).len() > other.len()
                    && other.flag_of(j) == Some(other.own_flag()))),
            other.len() == 0 ==> *final(self) == *old(self),
            old(self).len() == 0 && other.len() > 0 ==> *final(self) == other,
            old(self).len() > 0 && other.len() > 0 ==> final(self).root_of() == Some(
                if old(self).keys()[old(self).root_of().unwrap() as int] < other.keys()[other.root_of().unwrap() as int] {
                    old(self).root_of().unwrap()
                } else {
                    (other.root_of().unwrap() + old(self).len()) as usize
                },
            ),
            old(self).len() > 0 && other.len() > 0 ==> final(self).pending_head() == Some(
                match old(self).pending_head() {
                    Some(a) => a,
                    None => if old(self).keys()[old(self).root_of().unwrap() as int] < other.keys()[other.root_of().unwrap() as int] {
                        (other.root_of().unwrap() + old(self).len()) as usize
                    } else {
                        old(self).root_of().unwrap()
                    },
                },
            ),
    {
        if other.root.is_none() {
            proof {
                assert(other.keys() =~= Seq::<u64>::empty());
                assert(other.vals@ =~= Seq::<V>::empty());
                assert(self.keys() =~= self.keys() + other.keys());
                assert(self.vals@ =~= self.vals@ + other.vals@);
            }
            return ;
        }
        if self.root.is_none() {
            proof {
                assert(old(self).keys() =~= Seq::<u64>::empty());
                assert(old(self).vals@ =~= Seq::<V>::empty());
                assert(other.keys() =~= old(self).keys() + other.keys());
                assert(other.vals@ =~= old(self).vals@ + other.vals@);
            }
            *self = other;
            return ;
        }
        let demote_self = self.size <= other.size;
        let ghost s0 = *self;
        let ghost o = other;
        let n1 = self.nodes.len();
        let oroot = other.root;
        let oq = other.q;
        self.absorb(other, demote_self);
        let r2 = oroot.unwrap() + n1;
        let oq2 = match oq {
            Some(b) => Some(b + n1),
            None => None,
        };
        self.join(r2, oq2, Ghost(s0), Ghost(o), Ghost(demote_self));
        self.reduce(1, 1, 0, 0);
    }

    /// Second half of a meld: hangs the root with the larger key below the
    /// other and splices the two pending queues together.
    #[verifier::rlimit(100)]
    #[verifier::spinoff_prover]
    fn join(&mut self, r2: usize, oq2: Option<usize>, Ghost(s0): Ghost<Sfib<V>>, Ghost(o): Ghost<Sfib<V>>, Ghost(demote_self): Ghost<bool>)
        requires
            absorbed(*old(self), s0, o, demote_self),
            s0.inv(),
            o.inv(),
            s0.root is Some,
            o.root is Some,
            s0.len() + o.len() <= usize::MAX / 2,
            r2 == o.root.unwrap() + s0.len(),
            oq2 == (match o.q { Some(b) => Some((b + s0.len()) as usize), None => None }),
        ensures
            final(self).inv(),
            final(self).len() == s0.len() + o.len(),
            final(self).keys() == s0.keys() + o.keys(),
            final(self).values() == s0.values() + o.values(),
            forall|i: int|
                0 <= i < s0.len() ==> #[trigger] final(self).active_at(i) == (s0.active_at(i)
                    && !(demote_self && s0.flag_of(i) == Some(s0.own_flag()))),
            forall|j: int|
                0 <= j < o.len() ==> #[trigger] final(self).active_at(s0.len() + j) == (o.active_at(j)
                    && !(!demote_self && o.flag_of(j) == Some(o.own_flag()))),
            final(self).root_of() == Some(
                if s0.keys()[s0.root.unwrap() as int] < o.keys()[o.root.unwrap() as int] {
                    s0.root.unwrap()
                } else {
                    r2
                },
            ),
            final(self).pending_head() == Some(match s0.q {
                Some(a) => a,
                None => if s0.keys()[s0.root.unwrap() as int] < o.keys()[o.root.unwrap() as int] {
                    r2
                } else {
                    s0.root.unwrap()
                },
            }),
    {
        let ghost sa = *self;
        proof {
            lemma_join_pre(sa, s0, o, demote_self, oq2);
        }
        let r1 = self.root.unwrap();
        let (u, v) = if self.nodes[r1].key < self.nodes[r2].key {
            (r1, r2)
        } else {
            (r2, r1)
        };
        proof {
            let j2 = o.root.unwrap() as int;
            assert(shifted(o.nodes@[j2], sa.nodes@[s0.len() + j2], s0.len(), s0.flags@.len(), s0.fixes.len()));
            assert(s0.keys()[s0.root.unwrap() as int] == sa.nodes@[r1 as int].key);
            assert(o.keys()[j2] == sa.nodes@[r2 as int].key);
        }
        self.hang(u, v, Ghost(s0), Ghost(o), Ghost(demote_self));
        self.splice(u, v, oq2);
        proof {
            lemma_join(*self, sa, s0, o, demote_self, u, v);
        }
    }

    /// Hangs root `v` below root `u` in the absorbed state.
    #[verifier::rlimit(60)]
    #[verifier::spinoff_prover]
    fn hang(&mut self, u: usize, v: usize, Ghost(s0): Ghost<Sfib<V>>, Ghost(o): Ghost<Sfib<V>>, Ghost(demote_self): Ghost<bool>)
        requires
            absorbed(*old(self), s0, o, demote_self),
            s0.inv(),
            o.inv(),
            s0.root is Some,
            o.root is Some,
            s0.len() + o.len() <= usize::MAX / 2,
            u == s0.root.unwrap() || u == o.root.unwrap() + s0.len(),
            v == s0.root.unwrap() || v == o.root.unwrap() + s0.len(),
            u != v,
            old(self).nodes@[u as int].key <= old(self).nodes@[v as int].key,
        ensures
            final(self).nodes@.len() == old(self).nodes@.len(),
            forall|k: int| 0 <= k < final(self).nodes@.len() ==> #[trigger] final(self).nodes@[k].key == old(self).nodes@[k].key,
            forall|k: int| 0 <= k < final(self).nodes@.len() ==> #[trigger] final(self).nodes@[k].active == old(self).nodes@[k].active,
            forall|k: int| 0 <= k < final(self).nodes@.len() && k != v ==> #[trigger] final(self).nodes@[k].parent == old(self).nodes@[k].parent,
            final(self).nodes@[v as int].parent == Some(u),
            forall|i: int| 0 <= i < final(self).nodes@.len() ==> #[trigger] final(self).node_ok(i),
            final(self).depth@.len() == final(self).nodes@.len(),
            final(self).flags == old(self).flags,
            final(self).vals == old(self).vals,
            final(self).fixes == old(self).fixes,
            final(self).fix_multis == old(self).fix_multis,
            final(self).fix_singles == old(self).fix_singles,
            final(self).active == old(self).active,
            final(self).size == old(self).size,
            final(self).qlinks == old(self).qlinks,
            final(self).q == old(self).q,
            final(self).root == Some(u),
    {
        let ghost nodes0 = self.nodes@;
        let ghost n1 = s0.nodes@.len();
        let ghost n2 = o.nodes@.len();
        let ghost d0: Seq<int> = s0.depth@ + o.depth@;
        let ghost du = d0[u as int];
        let mut t = Node::new(0, None);
        self.nodes.set_and_swap(v, &mut t);
        t.parent = Some(u);
        self.nodes.set_and_swap(v, &mut t);
        let mut t = Node::new(0, None);
        self.nodes.set_and_swap(u, &mut t);
        t.children.push(v);
        self.nodes.set_and_swap(u, &mut t);
        self.root = Some(u);
        self.depth = Ghost(
            Seq::new(
                (n1 + n2) as nat,
                |i: int| if (i < n1) == (v < n1) { d0[i] + du + 1 } else { d0[i] },
            ),
        );
        proof {
            assert forall|i: int| 0 <= i < n1 + n2 implies #[trigger] self.node_ok(i) by {
                lemma_meld_node(*self, s0, o, n1, n2, s0.flags@.len(), s0.fixes.len(), u, v, nodes0, d0, i);
            }
        }
    }

    /// Splices `v`, and the queue `oq2`, into the pending queue.
    fn splice(&mut self, u: usize, v: usize, oq2: Option<usize>)
        requires
            old(self).qlinks.wf(),
            u < old(self).qlinks.len(),
            v < old(self).qlinks.len(),
            u != v,
            old(self).qlinks.nexts()[u as int] == u,
            old(self).qlinks.nexts()[v as int] == v,
            old(self).q is Some ==> old(self).q.unwrap() < old(self).qlinks.len()
                && old(self).q.unwrap() != u && old(self).q.unwrap() != v,
            oq2 is Some ==> oq2.unwrap() < old(self).qlinks.len() && oq2.unwrap() != u && oq2.unwrap() != v,
        ensures
            final(self).qlinks.wf(),
            final(self).qlinks.len() == old(self).qlinks.len(),
            final(self).qlinks.nexts()[u as int] == u,
            final(self).q is Some,
            final(self).q.unwrap() < final(self).qlinks.len(),
            final(self).q.unwrap() != u,
            final(self).q == Some(match old(self).q { Some(a) => a, None => v }),
            final(self).nodes == old(self).nodes,
            final(self).depth == old(self).depth,
            final(self).flags == old(self).flags,
            final(self).vals == old(self).vals,
            final(self).fixes == old(self).fixes,
            final(self).fix_multis == old(self).fix_multis,
            final(self).fix_singles == old(self).fix_singles,
            final(self).active == old(self).active,
            final(self).size == old(self).size,
            final(self).root == old(self).root,
            forall|i: int| old(self).node_ok(i) ==> #[trigger] final(self).node_ok(i),
    {
        let q = splice_links(&mut self.qlinks, self.q, u, v, oq2);
        self.q = Some(q);
        proof {
            lemma_node_ok_frame(*old(self), *self);
        }
    }

    /// Moves `x`, with its subtree, from its parent to below `y`: first
    /// among the children of `y` when `front`, last otherwise.
    #[verifier::spinoff_prover]
    fn relink(&mut self, x: usize, y: usize, front: bool)
        requires
            old(self).inv(),
            x < old(self).len(),
            y < old(self).len(),
            old(self).nodes@[x as int].parent is Some,
            !old(self).in_sub(y as int, x as int),
            old(self).nodes@[y as int].key <= old(self).nodes@[x as int].key,
        ensures
            final(self).inv(),
            final(self).len() == old(self).len(),
            final(self).keys() == old(self).keys(),
            final(self).values() == old(self).values(),
            forall|i: int| 0 <= i < old(self).len() ==> #[trigger] final(self).active_at(i) == old(self).active_at(i),
            forall|i: int| 0 <= i < old(self).len() ==> #[trigger] final(self).nodes@[i].rank == old(self).nodes@[i].rank,
            forall|i: int| 0 <= i < old(self).len() ==> #[trigger] final(self).nodes@[i].loss == old(self).nodes@[i].loss,
            final(self).root == old(self).root,
            moved(*old(self), *final(self), x, y, front),
    {
        let ghost s0 = *self;
        proof {
            reveal(Sfib::node_ok);
            assert(s0.node_ok(x as int));
            assert(s0.anc(x as int, x as int, 0));
        }
        let p = self.nodes[x].parent.unwrap();
        proof {
            assert(s0.node_ok(p as int));
            assert(s0.node_ok(y as int));
        }
        let mut t = Node::new(0, None);
        self.nodes.set_and_swap(p, &mut t);
        let ghost c_old = t.children@;
        child_remove(&mut t.children, x);
        let ghost c_mid = t.children@;
        let ghost k = choose|k: int| 0 <= k < c_old.len() && c_old[k] == x && c_mid == c_old.remove(k);
        proof {
            assert forall|c: usize| #[trigger] c_mid.contains(c) <==> (c_old.contains(c) && c != x) by {
                if c_mid.contains(c) {
                    let j = choose|j: int| 0 <= j < c_mid.len() && c_mid[j] == c;
                    if j < k { assert(c_old[j] == c); } else { assert(c_old[j + 1] == c); }
                }
                if c_old.contains(c) && c != x {
                    let j = choose|j: int| 0 <= j < c_old.len() && c_old[j] == c;
                    if j < k { assert(c_mid[j] == c); } else { assert(j != k); assert(c_mid[j - 1] == c); }
                }
            }
            assert(c_mid.no_duplicates()) by {
                assert forall|a: int, b: int| 0 <= a < c_mid.len() && 0 <= b < c_mid.len() && a != b implies c_mid[a] != c_mid[b] by {
                    let a2 = if a < k { a } else { a + 1 };
                    let b2 = if b < k { b } else { b + 1 };
                    assert(c_mid[a] == c_old[a2]);
                    assert(c_mid[b] == c_old[b2]);
                }
            }
        }
        self.nodes.set_and_swap(p, &mut t);
        let mut t = Node::new(0, None);
        self.nodes.set_and_swap(x, &mut t);
        t.parent = Some(y);
        self.nodes.set_and_swap(x, &mut t);
        let mut t = Node::new(0, None);
        self.nodes.set_and_swap(y, &mut t);
        let ghost cy = t.children@;
        proof {
            assert(!cy.contains(x)) by {
                if cy.contains(x) {
                    if y != p {
                        let j = choose|j: int| 0 <= j < s0.nodes@[y as int].children@.len() && s0.nodes@[y as int].children@[j] == x;
                        assert(s0.nodes@[x as int].parent == Some(y));
                    }
                }
            }
        }
        if front {
            t.children.insert(0, x);
        } else {
            t.children.push(x);
        }
        let ghost cn_final = t.children@;
        proof {
            let cn = t.children@;
            assert forall|c: usize| #[trigger] cn.contains(c) <==> (cy.contains(c) || c == x) by {
                if cn.contains(c) {
                    let j = choose|j: int| 0 <= j < cn.len() && cn[j] == c;
                    if front { if j > 0 { assert(cy[j - 1] == c); } } else { if j < cy.len() { assert(cy[j] == c); } }
                }
                if cy.contains(c) {
                    let j = choose|j: int| 0 <= j < cy.len() && cy[j] == c;
                    if front { assert(cn[j + 1] == c); } else { assert(cn[j] == c); }
                }
                if c == x {
                    if front { assert(cn[0] == x); } else { assert(cn[cy.len() as int] == x); }
                }
            }
            assert(cn.no_duplicates()) by {
                assert forall|a: int, b: int| 0 <= a < cn.len() && 0 <= b < cn.len() && a != b implies cn[a] != cn[b] by {
                    if front {
                        if a > 0 { assert(cn[a] == cy[a - 1]); assert(cy.contains(cn[a])); }
                        if b > 0 { assert(cn[b] == cy[b - 1]); assert(cy.contains(cn[b])); }
                    } else {
                        if a < cy.len() { assert(cn[a] == cy[a]); assert(cy.contains(cn[a])); }
                        if b < cy.len() { assert(cn[b] == cy[b]); assert(cy.contains(cn[b])); }
                    }
                }
            }
        }
        self.nodes.set_and_swap(y, &mut t);
        proof {
            if p != y {
                assert(self.nodes@[p as int].children@ == c_mid);
                assert(cy == s0.nodes@[y as int].children@);
            } else {
                assert(cy == c_mid);
            }
            assert(self.nodes@[y as int].children@ == cn_final);
        }
        self.depth = Ghost(
            Seq::new(
                s0.nodes@.len(),
                |i: int| if s0.in_sub(i, x as int) { s0.depth@[i] - s0.depth@[x as int] + s0.depth@[y as int] + 1 } else { s0.depth@[i] },
            ),
        );
        proof {
            assert forall|k: int| 0 <= k < self.nodes@.len() implies (#[trigger] self.nodes@[k]).key == s0.nodes@[k].key
                && self.nodes@[k].active == s0.nodes@[k].active
                && self.nodes@[k].rank == s0.nodes@[k].rank
                && (k != x ==> self.nodes@[k].parent == s0.nodes@[k].parent)
                && self.nodes@[k].children@.no_duplicates()
                && forall|c: usize| #[trigger] self.nodes@[k].children@.contains(c) <==> ((s0.nodes@[k].children@.contains(c) && c != x)
                || (k == y && c == x)) by {
                if k != p && k != y && k != x {
                    assert(s0.node_ok(k));
                    assert forall|c: usize| #[trigger] self.nodes@[k].children@.contains(c) implies c != x by {
                        let j = choose|j: int| 0 <= j < s0.nodes@[k].children@.len() && s0.nodes@[k].children@[j] == c;
                        assert(s0.nodes@[c as int].parent == Some(k as usize));
                    }
                }
                if k == x {
                    assert(s0.node_ok(x as int));
                    assert forall|c: usize| #[trigger] self.nodes@[k].children@.contains(c) implies c != x by {
                        let j = choose|j: int| 0 <= j < s0.nodes@[k].children@.len() && s0.nodes@[k].children@[j] == c;
                        assert(s0.nodes@[c as int].parent == Some(k as usize));
                    }
                }
            }
            lemma_relink(*self, s0, x as int, y as int);
            assert(self.keys() =~= s0.keys());
            assert(s0.children_of(p as int) == c_old);
            assert(s0.children_of(p as int)[k] == x);
            if p != y {
                assert(self.children_of(p as int) == c_mid);
                assert(cy == s0.children_of(y as int));
            } else {
                assert(cy == c_mid);
            }
            assert(self.children_of(y as int) == cn_final);
            if front {
                assert(cn_final =~= seq![x] + cy);
            } else {
                assert(cn_final =~= cy.push(x));
            }
            assert(s0.parent_of(x as int) == Some(p));
        }
    }

/// `self` holds the same elements as `o`, in the same places, with the
    /// same root and the same activity.
    pub closed spec fn kept(&self, o: Self) -> bool {
        &&& self.len() == o.len()
        &&& self.keys() == o.keys()
        &&& self.values() == o.values()
        &&& self.root == o.root
        &&& forall|i: int| 0 <= i < o.len() ==> #[trigger] self.active_at(i) == o.active_at(i)
    }

    /// Sets the loss of node `i`, or moves its rank one step.
    fn set_node(&mut self, i: usize, loss: Option<usize>, rank_up: Option<bool>)
        requires
            old(self).inv(),
            i < old(self).len(),
        ensures
            final(self).inv(),
            final(self).kept(*old(self)),
            node_set(*old(self), *final(self), i, loss, rank_up),
    {
        let ghost s0 = *self;
        let mut t = Node::new(0, None);
        self.nodes.set_and_swap(i, &mut t);
        if let Some(l) = loss {
            t.loss = l;
        }
        match rank_up {
            Some(true) => t.rank.increase(),
            Some(false) => t.rank.decrease(),
            None => {},
        }
        self.nodes.set_and_swap(i, &mut t);
        proof {
            lemma_node_ok_fields(s0, *self);
            assert(self.keys() =~= s0.keys());
        }
    }

    /// The rank of node `i`, read through its fix-list entry if it has one.
    fn rank_of(&self, i: usize) -> (r: usize)
        requires
            self.inv(),
            i < self.len(),
        ensures
            r == self.rank_value(i as int),
    {
        proof {
            reveal(Sfib::node_ok);
            assert(self.node_ok(i as int));
        }
        match self.nodes[i].rank {
            RankDesc::Rank(r) => r,
            RankDesc::Fix(f) => self.fixes.item(f).rank,
            RankDesc::Unset => 0,
        }
    }

    fn node_active(&self, i: usize) -> (r: bool)
        requires
            self.inv(),
            i < self.len(),
        ensures
            r == self.active_at(i as int),
    {
        proof {
            reveal(Sfib::node_ok);
            assert(self.node_ok(i as int));
        }
        self.nodes[i].is_active(&self.flags)
    }

    fn is_passive(&self, i: usize) -> (r: bool)
        requires
            self.inv(),
            i < self.len(),
        ensures
            r == !self.active_at(i as int),
    {
        !self.node_active(i)
    }

    /// Active, below no active node.
    fn is_active_root(&self, i: usize) -> (r: bool)
        requires
            self.inv(),
            i < self.len(),
        ensures
            r == (self.active_at(i as int) && match self.nodes@[i as int].parent {
                Some(p) => !self.active_at(p as int),
                None => true,
            }),
    {
        proof {
            reveal(Sfib::node_ok);
            assert(self.node_ok(i as int));
        }
        let parent_passive = match self.nodes[i].parent {
            Some(p) => !self.node_active(p),
            None => true,
        };
        self.node_active(i) && parent_passive
    }

    /// Every child of `i` is passive.
    fn is_linkable(&self, i: usize) -> (r: bool)
        requires
            self.inv(),
            i < self.len(),
        ensures
            r == forall|k: int| 0 <= k < self.children_of(i as int).len()
                ==> !self.active_at(#[trigger] self.children_of(i as int)[k] as int),
    {
        proof {
            reveal(Sfib::node_ok);
            assert(self.node_ok(i as int));
        }
        let n = self.nodes[i].children.len();
        let mut k: usize = 0;
        while k < n
            invariant
                self.inv(),
                i < self.len(),
                n == self.nodes@[i as int].children@.len(),
                k <= n,
                self.children_of(i as int) == self.nodes@[i as int].children@,
                forall|j: int| 0 <= j < n ==> (#[trigger] self.nodes@[i as int].children@[j] as int) < self.len(),
                forall|j: int| 0 <= j < k ==> !self.active_at(#[trigger] self.children_of(i as int)[j] as int),
            decreases n - k,
        {
            if self.node_active(self.nodes[i].children[k]) {
                proof {
                    assert(!!self.active_at(self.children_of(i as int)[k as int] as int));
                }
                return false;
            }
            k = k + 1;
        }
        true
    }

    fn is_passive_linkable(&self, i: usize) -> (r: bool)
        requires
            self.inv(),
            i < self.len(),
        ensures
            r == self.passive_linkable_at(i as int),
    {
        self.is_passive(i) && self.is_linkable(i)
    }

    /// Moves `x` below `y`. An active `x` goes first among the children of
    /// `y` and moves one unit of rank from its old parent to `y`; a passive
    /// one goes last.
    fn link(&mut self, x: usize, y: usize)
        requires
            old(self).inv(),
            x < old(self).len(),
            y < old(self).len(),
            old(self).nodes@[x as int].parent is Some,
            !old(self).in_sub(y as int, x as int),
            old(self).nodes@[y as int].key <= old(self).nodes@[x as int].key,
        ensures
            final(self).inv(),
            final(self).kept(*old(self)),
            linked(*old(self), *final(self), x, y),
    {
        let ghost s0 = *self;
        let active = self.node_active(x);
        let p = self.nodes[x].parent.unwrap();
        proof {
            reveal(Sfib::node_ok);
            assert(self.node_ok(x as int));
        }
        self.relink(x, y, active);
        let ghost s1 = *self;
        if active {
            self.set_node(p, None, Some(false));
            let ghost s2 = *self;
            self.set_node(y, None, Some(true));
            proof {
                lemma_moved_frame(s0, s1, *self, x, y, active);
                assert forall|k: int| 0 <= k < s0.len() implies #[trigger] self.rank_desc_of(k) == (if active && k == p && k == y {
                    rank_inc(rank_dec(s0.rank_desc_of(k)))
                } else if active && k == p {
                    rank_dec(s0.rank_desc_of(k))
                } else if active && k == y {
                    rank_inc(s0.rank_desc_of(k))
                } else {
                    s0.rank_desc_of(k)
                }) by {
                    assert(s1.rank_desc_of(k) == s0.rank_desc_of(k));
                    assert(s2.rank_desc_of(k) == (if k == p { rank_dec(s1.rank_desc_of(k)) } else { s1.rank_desc_of(k) }));
                }
                assert forall|k: int| 0 <= k < s0.len() implies #[trigger] self.loss_of(k) == s0.loss_of(k) by {
                    assert(s1.loss_of(k) == s0.loss_of(k));
                    assert(s2.loss_of(k) == s1.loss_of(k));
                }
            }
        } else {
            proof {
                assert forall|k: int| 0 <= k < s0.len() implies #[trigger] self.loss_of(k) == s0.loss_of(k)
                    && self.rank_desc_of(k) == s0.rank_desc_of(k) by {}
            }
        }
    }

    /// Moves the passive node `x` to the end of the children of `y`.
    fn reparent(&mut self, x: usize, y: usize)
        requires
            old(self).inv(),
            x < old(self).len(),
            y < old(self).len(),
            !old(self).active_at(x as int),
            !old(self).in_sub(y as int, x as int),
            old(self).nodes@[y as int].key <= old(self).nodes@[x as int].key,
        ensures
            final(self).inv(),
            final(self).kept(*old(self)),
            old(self).parent_of(x as int) is None ==> *final(self) == *old(self),
            old(self).parent_of(x as int) is Some ==> linked(*old(self), *final(self), x, y),
    {
        if self.nodes[x].parent.is_some() {
            self.relink(x, y, false);
            proof {
                assert forall|k: int| 0 <= k < old(self).len() implies #[trigger] self.loss_of(k) == old(self).loss_of(k)
                    && self.rank_desc_of(k) == old(self).rank_desc_of(k) by {}
            }
        }
    }

    /// Links the front two entries of the collision segment of the fix-list
    /// when they are distinct active roots of equal rank: the one with the
    /// larger key goes below the other. A passive last child of the
    /// absorbing node then moves below the root. Returns whether it fired.
    fn active_root_reduction(&mut self) -> (fired: bool)
        requires
            old(self).inv(),
        ensures
            final(self).inv(),
            final(self).kept(*old(self)),
            rule_effect(0, *old(self), *final(self), fired),
            final(self).pending_head() == old(self).pending_head(),
    {
        reveal(rule_effect);
        let m = match self.fix_multis {
            Some(m) => m,
            None => return false,
        };
        let fx = self.fixes.next(m);
        let fy = self.fixes.next(fx);
        if CyclicList::<Fix>::ptr_eq(fx, fy) {
            return false;
        }
        let ex = *self.fixes.item(fx);
        let ey = *self.fixes.item(fy);
        if ex.rank != ey.rank {
            return false;
        }
        let (a, b) = if self.nodes[ex.node].key < self.nodes[ey.node].key {
            (ex.node, ey.node)
        } else {
            (ey.node, ex.node)
        };
        if a == b || !self.is_active_root(a) || !self.is_active_root(b) || self.nodes[b].parent.is_none()
            || self.is_descendant(a, b) {
            return false;
        }
        self.link(b, a);
        let r = self.root.unwrap();
        let n = self.nodes[a].children.len();
        if n > 0 && a != r {
            let z = self.nodes[a].children[n - 1];
            proof {
                reveal(Sfib::node_ok);
                assert(self.node_ok(a as int));
                assert(self.node_ok(z as int));
                assert(self.nodes@[z as int].parent == Some(a));
            }
            if self.is_passive(z) && !self.is_descendant(r, z) {
                self.reparent(z, r);
            }
        }
        true
    }

    /// Links the last two children of the root when both are passive with
    /// passive children only: the one with the larger key goes below the
    /// other. Returns whether it fired.
    fn root_degree_reduction(&mut self) -> (fired: bool)
        requires
            old(self).inv(),
        ensures
            final(self).inv(),
            final(self).kept(*old(self)),
            rule_effect(1, *old(self), *final(self), fired),
            final(self).pending_head() == old(self).pending_head(),
    {
        reveal(rule_effect);
        let r = match self.root {
            Some(r) => r,
            None => return false,
        };
        let n = self.nodes[r].children.len();
        if n < 2 {
            return false;
        }
        proof {
            reveal(Sfib::node_ok);
            assert(self.node_ok(r as int));
        }
        let c1 = self.nodes[r].children[n - 1];
        let c2 = self.nodes[r].children[n - 2];
        if !self.is_passive_linkable(c1) || !self.is_passive_linkable(c2) {
            return false;
        }
        let (a, b) = if self.nodes[c1].key < self.nodes[c2].key {
            (c1, c2)
        } else {
            (c2, c1)
        };
        proof {
            assert(self.nodes@[b as int].parent == Some(r));
        }
        if self.is_descendant(a, b) {
            return false;
        }
        self.link(b, a);
        true
    }

    /// Cuts the head of the pending queue from its parent when it is active
    /// and has lost two units, and hangs it below the root with its loss
    /// cleared. Returns whether it fired.
    fn one_node_loss_reduction(&mut self) -> (fired: bool)
        requires
            old(self).inv(),
        ensures
            final(self).inv(),
            final(self).kept(*old(self)),
            rule_effect(2, *old(self), *final(self), fired),
            final(self).pending_head() == old(self).pending_head(),
    {
        reveal(rule_effect);
        let (x, r) = match (self.q, self.root) {
            (Some(x), Some(r)) => (x, r),
            _ => return false,
        };
        if self.nodes[x].parent.is_none() || !self.node_active(x) || self.nodes[x].loss < 2
            || self.is_descendant(r, x) {
            return false;
        }
        self.link(x, r);
        self.set_node(x, Some(0), None);
        true
    }

    /// Links the first two nodes of the pending queue when both are active
    /// with loss one and equal rank: the one with the larger key goes below
    /// the other, and both losses are cleared. Returns whether it fired.
    fn two_node_loss_reduction(&mut self) -> (fired: bool)
        requires
            old(self).inv(),
        ensures
            final(self).inv(),
            final(self).kept(*old(self)),
            rule_effect(3, *old(self), *final(self), fired),
            final(self).pending_head() == old(self).pending_head(),
    {
        reveal(rule_effect);
        let x = match self.q {
            Some(x) => x,
            None => return false,
        };
        let y = self.qlinks.next(x);
        if x == y || !self.node_active(x) || !self.node_active(y) || self.nodes[x].loss != 1
            || self.nodes[y].loss != 1 || self.rank_of(x) != self.rank_of(y) {
            return false;
        }
        let (a, b) = if self.nodes[x].key < self.nodes[y].key {
            (x, y)
        } else {
            (y, x)
        };
        if self.nodes[b].parent.is_none() || self.is_descendant(a, b) {
            return false;
        }
        self.link(b, a);
        self.set_node(a, Some(0), None);
        self.set_node(b, Some(0), None);
        true
    }

    /// Tries the four rules in turn while their budgets last, taking one
    /// unit of a rule's budget each time it fires, and stops when a whole
    /// pass fires none. Returns the number of firings.
    #[verifier::rlimit(100)]
    #[verifier::spinoff_prover]
    fn reduce(&mut self, a: usize, b: usize, c: usize, d: usize) -> (fired: usize)
        requires
            old(self).inv(),
            a + b + c + d <= usize::MAX,
        ensures
            final(self).inv(),
            final(self).kept(*old(self)),
            fired <= a + b + c + d,
            final(self).pending_head() == old(self).pending_head(),
            a + b + c + d == 0 ==> *final(self) == *old(self),
            exists|st: Seq<Sfib<V>>, bs: Seq<(usize, usize, usize, usize)>|
                #[trigger] is_run(st, bs) && st[0] == *old(self) && st.last() == *final(self)
                    && bs[0] == (a, b, c, d)
                    && (budget_sum(bs.last()) == 0 || (st.len() >= 2 && budget_sum(bs.last()) == budget_sum(bs[bs.len() - 2])))
                    && fired == a + b + c + d - budget_sum(bs.last())
                    && bs.last().0 <= a && bs.last().1 <= b && bs.last().2 <= c && bs.last().3 <= d,
    {
        let ghost s0 = *self;
        let ghost b0 = (a, b, c, d);
        let total = a + b + c + d;
        let mut a = a;
        let mut b = b;
        let mut c = c;
        let mut d = d;
        let mut progress = true;
        let mut sum = a + b + c + d;
        let ghost mut st: Seq<Sfib<V>> = seq![*self];
        let ghost mut bs: Seq<(usize, usize, usize, usize)> = seq![b0];
        while progress && sum > 0
            invariant
                self.inv(),
                self.kept(s0),
                self.pending_head() == s0.pending_head(),
                sum == a + b + c + d,
                sum <= total,
                total == b0.0 + b0.1 + b0.2 + b0.3,
                total <= usize::MAX,
                a <= b0.0 && b <= b0.1 && c <= b0.2 && d <= b0.3,
                is_run(st, bs),
                st[0] == s0,
                bs[0] == b0,
                st.last() == *self,
                bs.last() == (a, b, c, d),
                progress == (st.len() == 1 || budget_sum(bs.last()) < budget_sum(bs[bs.len() - 2])),
                st.len() == 1 ==> *self == s0,
                total == 0 ==> st.len() == 1,
                st.len() >= 2 ==> budget_sum(bs.last()) <= budget_sum(bs[bs.len() - 2]),
            decreases sum + (if progress { 1int } else { 0int }),
        {
            let ghost m = *self;
            let ghost mb = (a, b, c, d);
            if a > 0 {
                let f = self.active_root_reduction();
                if f {
                    a = a - 1;
                }
                proof { assert(rule_effect(0, m, *self, f)); }
            }
            let ghost s1 = *self;
            if b > 0 {
                let f = self.root_degree_reduction();
                if f {
                    b = b - 1;
                }
                proof { assert(rule_effect(1, s1, *self, f)); }
            }
            let ghost s2 = *self;
            if c > 0 {
                let f = self.one_node_loss_reduction();
                if f {
                    c = c - 1;
                }
                proof { assert(rule_effect(2, s2, *self, f)); }
            }
            let ghost s3 = *self;
            if d > 0 {
                let f = self.two_node_loss_reduction();
                if f {
                    d = d - 1;
                }
                proof { assert(rule_effect(3, s3, *self, f)); }
            }
            let old_sum = sum;
            sum = a + b + c + d;
            progress = sum < old_sum;
            proof {
                let l = (a, b, c, d);
                assert(spend(0, mb.0, m, s1, l.0));
                assert(spend(1, mb.1, s1, s2, l.1));
                assert(spend(2, mb.2, s2, s3, l.2));
                assert(spend(3, mb.3, s3, *self, l.3));
                assert(one_pass(m, *self, mb, l));
                let st2 = st.push(*self);
                let bs2 = bs.push(l);
                assert forall|i: int| 0 <= i < st2.len() - 1 implies #[trigger] one_pass(st2[i], st2[i + 1], bs2[i], bs2[i + 1]) by {
                    if i < st.len() - 1 {
                        assert(one_pass(st[i], st[i + 1], bs[i], bs[i + 1]));
                    }
                }
                assert forall|i: int| 0 <= i < st2.len() - 1 implies budget_sum(#[trigger] bs2[i]) > 0 by {
                    if i < st.len() - 1 {
                        assert(budget_sum(bs[i]) > 0);
                    }
                }
                assert forall|i: int| 0 <= i < st2.len() - 2 implies budget_sum(#[trigger] bs2[i + 1]) < budget_sum(bs2[i]) by {
                    if i < st.len() - 2 {
                        assert(budget_sum(bs[i + 1]) < budget_sum(bs[i]));
                    }
                }
                st = st2;
                bs = bs2;
            }
        }
        proof {
            assert(is_run(st, bs));
        }
        total - sum
    }

/// A heap of one element, whose node is active under the heap's flag.
    fn single(key: u64, val: V) -> (r: Self)
        ensures
            r.inv(),
            r.len() == 1,
            r.keys() == seq![key],
            r.values() == seq![val],
            r.root_of() == Some(0usize),
            r.flag_of(0) == Some(r.own_flag()),
            r.active_at(0),
    {
        let mut h = Sfib::new();
        h.nodes.push(Node::new(key, Some(h.active)));
        h.vals.push(val);
        h.qlinks.singleton(());
        h.root = Some(0);
        h.size = 1;
        h.depth = Ghost(Seq::<int>::empty().push(0int));
        proof {
            reveal(Sfib::node_ok);
            assert(h.node_ok(0));
            assert(h.keys() =~= seq![key]);
            assert(h.vals@ =~= seq![val]);
        }
        h
    }

    /// Adds `key` with `val` and returns a handle on its node. The element
    /// is melded in as a heap of its own, so it is demoted unless this heap
    /// holds at most one element.
    pub fn insert(&mut self, key: u64, val: V) -> (e: Element)
        requires
            old(self).inv(),
            old(self).len() + 1 <= usize::MAX / 2,
        ensures
            final(self).inv(),
            final(self).len() == old(self).len() + 1,
            final(self).keys() == old(self).keys().push(key),
            final(self).values() == old(self).values().push(val),
            e.id() == old(self).len(),
            final(self).active_at(old(self).len() as int) == (old(self).len() <= 1),
            forall|i: int|
                0 <= i < old(self).len() ==> #[trigger] final(self).active_at(i) == (old(self).active_at(i)
                    && !(old(self).len() == 1 && old(self).flag_of(i) == Some(old(self).own_flag()))),
            final(self).keys()[e.id() as int] == key,
            final(self).values()[e.id() as int] == val,
            old(self).len() == 0 ==> final(self).flag_of(0) == Some(final(self).own_flag())
                && final(self).root_of() == Some(0usize),
    {
        let id = self.nodes.len();
        let other = Sfib::single(key, val);
        self.meld(other);
        proof {
            assert(self.keys() =~= old(self).keys().push(key));
            assert(self.values() =~= old(self).values().push(val));
            let j = 0int;
            assert(self.active_at(old(self).len() + j) == (old(self).len() <= 1));
        }
        Element(id)
    }

    /// Whether `x` lies on the path from `j` up to the root.
    fn is_descendant(&self, j: usize, x: usize) -> (r: bool)
        requires
            self.inv(),
            j < self.len(),
            x < self.len(),
        ensures
            r == self.in_sub(j as int, x as int),
    {
        let mut cur = j;
        proof {
            assert(self.anc(j as int, j as int, 0));
        }
        while cur != x
            invariant
                self.inv(),
                cur < self.len(),
                x < self.len(),
                self.in_sub(j as int, x as int) == self.in_sub(cur as int, x as int),
            decreases self.depth@[cur as int],
        {
            proof {
                reveal(Sfib::node_ok);
                assert(self.node_ok(cur as int));
            }
            match self.nodes[cur].parent {
                Some(p) => {
                    proof {
                        lemma_sub_step(*self, cur as int, x as int);
                        assert(self.node_ok(p as int));
                        assert(self.depth@[p as int] < self.depth@[cur as int]);
                        assert(self.depth@[p as int] >= 0);
                    }
                    cur = p;
                },
                None => {
                    proof {
                        lemma_sub_top(*self, cur as int, x as int);
                    }
                    return false;
                },
            }
        }
        proof {
            assert(self.anc(x as int, x as int, 0));
        }
        true
    }

    /// A handle on node `i`, which is the `i`-th element inserted or melded
    /// in, if the heap holds it.
    pub fn element(&self, i: usize) -> (r: Option<Element>)
        requires
            self.inv(),
        ensures
            r is Some <==> i < self.len(),
            r is Some ==> r.unwrap().id() == i,
    {
        if i < self.nodes.len() {
            Some(Element(i))
        } else {
            None
        }
    }

    /// Whether the node behind `e` is active.
    pub fn is_active(&self, e: &Element) -> (r: bool)
        requires
            self.inv(),
            e.id() < self.len(),
        ensures
            r == self.active_at(e.id() as int),
    {
        assert(self.node_ok(e.0 as int));
        reveal(Sfib::node_ok);
        self.nodes[e.0].is_active(&self.flags)
    }
}

} // verus!

verus! {

/// A heap holds one key and one value per node, and has a root exactly
/// when it is not empty.
pub proof fn lemma_heap_shape<V>(h: &Sfib<V>)
    requires
        h.inv(),
    ensures
        h.keys().len() == h.len(),
        h.values().len() == h.len(),
        h.root_of() is None <==> h.len() == 0,
        h.root_of() is Some ==> h.root_of().unwrap() < h.len(),
{
    h.lemma_root_min();
}

/// Every node of a heap has a key at least that of its parent.
pub proof fn lemma_heap_order<V>(h: &Sfib<V>)
    requires
        h.inv(),
    ensures
        forall|i: int|
            #![trigger h.parent_of(i)]
            0 <= i < h.len() && h.parent_of(i) is Some ==> (h.parent_of(i).unwrap() as int) < h.len()
                && h.keys()[h.parent_of(i).unwrap() as int] <= h.keys()[i],
{
    reveal(Sfib::node_ok);
    assert forall|i: int|
        #![trigger h.parent_of(i)]
        0 <= i < h.len() && h.parent_of(i) is Some implies (h.parent_of(i).unwrap() as int) < h.len()
        && h.keys()[h.parent_of(i).unwrap() as int] <= h.keys()[i] by {
        assert(h.node_ok(i));
        let p = h.nodes@[i].parent.unwrap() as int;
        assert(p < h.nodes@.len());
        assert(h.keys()[p] == h.nodes@[p].key);
    }
}

proof fn lemma_reaches<V>(h: &Sfib<V>, i: int)
    requires
        h.inv(),
        0 <= i < h.len(),
    ensures
        exists|s: nat| h.reaches_root(i, s),
    decreases h.depth@[i],
{
    reveal(Sfib::node_ok);
    assert(h.node_ok(i));
    if h.root == Some(i as usize) {
        assert(h.reaches_root(i, 0));
    } else {
        let r = h.root.unwrap() as int;
        assert(h.nodes@[i].parent is Some);
        let p = h.nodes@[i].parent.unwrap() as int;
        assert(h.node_ok(p));
        lemma_reaches(h, p);
        let s = choose|s: nat| h.reaches_root(p, s);
        assert(h.reaches_root(i, s + 1));
    }
}

/// The size of a heap is the number of its nodes that reach the root by
/// parent links.
pub proof fn lemma_size_is_live<V>(h: &Sfib<V>)
    requires
        h.inv(),
    ensures
        h.live().finite(),
        h.live().len() == h.len(),
{
    assert forall|i: int| #[trigger] vstd::set_lib::set_int_range(0, h.len() as int).contains(i) <==> h.live().contains(i) by {
        if 0 <= i < h.len() {
            lemma_reaches(h, i);
        }
    }
    assert(h.live() =~= vstd::set_lib::set_int_range(0, h.len() as int));
    vstd::set_lib::lemma_int_range(0, h.len() as int);
}

/// The least key of the keys of two heaps together is the smaller of their
/// least keys.
pub proof fn lemma_meld_min(a: Seq<u64>, b: Seq<u64>, ma: u64, mb: u64)
    requires
        is_min(a, ma),
        is_min(b, mb),
    ensures
        is_min(a + b, if ma <= mb { ma } else { mb }),
{
    let m = if ma <= mb { ma } else { mb };
    let c = a + b;
    assert forall|i: int| 0 <= i < c.len() implies m <= #[trigger] c[i] by {
        if i < a.len() {
            assert(c[i] == a[i]);
        } else {
            assert(c[i] == b[i - a.len()]);
        }
    }
    if ma <= mb {
        let k = choose|k: int| 0 <= k < a.len() && a[k] == ma;
        assert(c[k] == ma);
    } else {
        let k = choose|k: int| 0 <= k < b.len() && b[k] == mb;
        assert(c[a.len() + k] == mb);
    }
}

} // verus!
