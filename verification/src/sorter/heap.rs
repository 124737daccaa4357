use vstd::prelude::*;
use vstd::arithmetic::power2::pow2;

use crate::order::swap_seq;
use crate::recorder::{bump, RecorderState, RecorderView};

verus! {

/// Depth of node `i` in a binary heap laid out in an array: the number of
/// steps from `i` to the root, each to the parent `(i - 1) / 2`.
pub open spec fn depth(i: nat) -> nat
    decreases i,
{
    if i == 0 {
        0
    } else {
        1 + depth(((i - 1) as nat) / 2)
    }
}

/// The node at depth `d` lies on level `d`: `2^d - 1 <= i < 2^(d+1) - 1`.
pub proof fn lemma_depth_bounds(i: nat)
    ensures
        pow2(depth(i)) <= i + 1 < pow2(depth(i) + 1),
    decreases i,
{
    vstd::arithmetic::power2::lemma_pow2_unfold(depth(i) + 1);
    if i == 0 {
        vstd::arithmetic::power2::lemma_pow2(0);
        vstd::arithmetic::power::lemma_pow0(2);
        vstd::arithmetic::power2::lemma_pow2_unfold(1);
    } else {
        let p = ((i - 1) as nat) / 2;
        lemma_depth_bounds(p);
        vstd::arithmetic::power2::lemma_pow2_unfold(depth(p) + 1);
        vstd::arithmetic::power2::lemma_pow2_unfold(depth(p) + 2);
    }
}

/// A later node lies no higher in the tree.
pub proof fn lemma_depth_mono(a: nat, b: nat)
    requires
        a <= b,
    ensures
        depth(a) <= depth(b),
    decreases b,
{
    if a > 0 {
        lemma_depth_mono(((a - 1) as nat) / 2, ((b - 1) as nat) / 2);
    }
}

/// A child lies one level below its parent.
pub proof fn lemma_depth_child(i: nat)
    ensures
        depth(2 * i + 1) == depth(i) + 1,
        depth(2 * i + 2) == depth(i) + 1,
{
    assert(((2 * i + 1 - 1) as nat) / 2 == i);
    assert(((2 * i + 2 - 1) as nat) / 2 == i);
}

/// Node `k` lies in the subtree of node `i`: it is `i`, or its parent does.
pub open spec fn in_subtree(i: nat, k: nat) -> bool
    decreases k,
{
    k == i || (k > i && in_subtree(i, ((k - 1) as nat) / 2))
}

/// The subtree of a child lies inside the subtree of its parent, and the child
/// itself is in it.
pub proof fn lemma_subtree_child(i: nat, c: nat, k: nat)
    requires
        c == 2 * i + 1 || c == 2 * i + 2,
    ensures
        in_subtree(i, c),
        in_subtree(c, k) ==> in_subtree(i, k),
    decreases k,
{
    assert(in_subtree(i, i));
    assert(((c - 1) as nat) / 2 == i);
    if k > c {
        lemma_subtree_child(i, c, ((k - 1) as nat) / 2);
    }
}

/// A node lies no earlier than the root of any subtree it is in.
pub proof fn lemma_subtree_after(i: nat, k: nat)
    ensures
        in_subtree(i, k) ==> k >= i,
    decreases k,
{
    if k > i {
        lemma_subtree_after(i, ((k - 1) as nat) / 2);
    }
}

/// Every node lies in the subtree of the root.
pub proof fn lemma_subtree_root(k: nat)
    ensures
        in_subtree(0, k),
    decreases k,
{
    if k > 0 {
        lemma_subtree_root(((k - 1) as nat) / 2);
    }
}

/// A node below `i` lies in the subtree of one of `i`'s children.
pub proof fn lemma_subtree_split(i: nat, k: nat)
    requires
        in_subtree(i, k),
        k != i,
    ensures
        in_subtree(2 * i + 1, k) || in_subtree(2 * i + 2, k),
    decreases k,
{
    let p = ((k - 1) as nat) / 2;
    if p == i {
        assert(k == 2 * i + 1 || k == 2 * i + 2);
    } else {
        lemma_subtree_split(i, p);
        lemma_subtree_after(i, p);
    }
}

/// The subtrees of two children of one node share no node.
pub proof fn lemma_subtree_apart(i: nat, k: nat)
    ensures
        !(in_subtree(2 * i + 1, k) && in_subtree(2 * i + 2, k)),
    decreases k,
{
    let l = 2 * i + 1;
    let r = 2 * i + 2;
    if k == l {
        lemma_subtree_after(r, k);
    } else if k == r {
        lemma_subtree_after(l, i);
        assert(((r - 1) as nat) / 2 == i);
    } else if k > l {
        lemma_subtree_apart(i, ((k - 1) as nat) / 2);
    }
}

/// In a subtree whose nodes are all in heap order, its root holds the largest
/// value.
pub proof fn lemma_subtree_root_max(s: Seq<usize>, n: int, c: nat, k: nat)
    requires
        n <= s.len(),
        k < n,
        in_subtree(c, k),
        forall|j: int| 0 <= j < n && in_subtree(c, j as nat) ==> #[trigger] heap_ok_at(s, n, j),
    ensures
        s[k as int] <= s[c as int],
    decreases k,
{
    if k != c {
        let p = ((k - 1) as nat) / 2;
        lemma_subtree_after(c, k);
        lemma_subtree_root_max(s, n, c, p);
        assert(heap_ok_at(s, n, p as int));
    }
}

/// The children of node `i` that lie among the first `n` entries of `s` hold
/// no larger value than `i` does.
pub open spec fn heap_ok_at(s: Seq<usize>, n: int, i: int) -> bool {
    &&& (2 * i + 1 < n ==> s[2 * i + 1] <= s[i])
    &&& (2 * i + 2 < n ==> s[2 * i + 2] <= s[i])
}

/// Every node from `lo` on, among the first `n` entries of `s`, is no smaller
/// than its children.
pub open spec fn heap_from(s: Seq<usize>, n: int, lo: int) -> bool {
    forall|i: int| lo <= i < n ==> #[trigger] heap_ok_at(s, n, i)
}

/// In a heap, the root holds the largest value.
pub proof fn lemma_heap_root_max(s: Seq<usize>, n: int, k: int)
    requires
        heap_from(s, n, 0),
        0 <= k < n,
        n <= s.len(),
    ensures
        s[k] <= s[0],
    decreases k,
{
    if k > 0 {
        let p = (k - 1) / 2;
        assert(heap_ok_at(s, n, p));
        lemma_heap_root_max(s, n, p);
    }
}

/// A binary heap of `usize` laid out in an array. The first `nodes()` entries
/// of the array form the heap; the entries after them have been abandoned.
pub struct Heap {
    repr: Vec<usize>,
    n: usize,
}

impl Heap {
    /// The whole array, abandoned entries included.
    pub closed spec fn contents(&self) -> Seq<usize> {
        self.repr@
    }

    /// How many leading entries form the heap.
    pub closed spec fn size(&self) -> nat {
        self.n as nat
    }

    /// The heap never claims more entries than the array has.
    pub open spec fn wf(&self) -> bool {
        self.size() <= self.contents().len()
    }

    /// A heap over all of `repr`.
    pub fn new(repr: Vec<usize>) -> (h: Heap)
        ensures
            h.wf(),
            h.contents() == repr@,
            h.size() == repr@.len(),
    {
        let n = repr.len();
        Heap { repr, n }
    }

    /// Exchanges the values of two nodes, counting a swap.
    pub fn swap(&mut self, a: Node, b: Node, r: &mut RecorderState)
        requires
            old(self).wf(),
            a.index < old(self).contents().len(),
            b.index < old(self).contents().len(),
        ensures
            final(self).wf(),
            final(self).contents() == swap_seq(old(self).contents(), a.index as int, b.index as int),
            final(self).size() == old(self).size(),
            heap_step(*old(self), *final(self), 0),
            final(r)@ == (RecorderView { swaps: bump(old(r)@.swaps), ..old(r)@ }),
    {
        r.swap(&mut self.repr, a.index, b.index);
    }

    /// Abandons the `nodes` trailing nodes of the heap.
    pub fn abandon(&mut self, nodes: usize)
        requires
            old(self).wf(),
            nodes <= old(self).size(),
        ensures
            final(self).wf(),
            final(self).contents() == old(self).contents(),
            final(self).size() == old(self).size() - nodes,
            heap_step(*old(self), *final(self), nodes as nat),
    {
        self.n = self.n - nodes;
    }

    /// The root node.
    pub fn root(&self) -> (r: Node)
        requires
            self.size() >= 1,
        ensures
            r.index == 0,
    {
        Node::of(0, self)
    }

    /// The node at `index`.
    pub fn node(&self, index: usize) -> (r: Node)
        requires
            index < self.size(),
        ensures
            r.index == index,
    {
        Node::of(index, self)
    }

    pub fn nodes(&self) -> (r: usize)
        ensures
            r == self.size(),
    {
        self.n
    }

    /// The whole array, abandoned entries included.
    pub fn repr(&self) -> (r: &[usize])
        ensures
            r@ == self.contents(),
    {
        self.repr.as_slice()
    }

    /// Gives the array back.
    pub fn into_repr(self) -> (r: Vec<usize>)
        ensures
            r@ == self.contents(),
    {
        self.repr
    }
}

/// The sum of `ks`.
pub open spec fn total(ks: Seq<nat>) -> nat
    decreases ks.len(),
{
    if ks.len() == 0 {
        0
    } else {
        total(ks.drop_last()) + ks.last()
    }
}

/// `h2` is `h1` after a call of `swap` (`k == 0`, the array rearranged) or of
/// `abandon(k)`, as their contracts state.
pub open spec fn heap_step(h1: Heap, h2: Heap, k: nat) -> bool {
    &&& k <= h1.size()
    &&& h2.size() == h1.size() - k
    &&& h2.contents().len() == h1.contents().len()
}

/// The size of a heap over a whole run of `swap` and `abandon` calls: it never
/// grows, it has gone down by exactly what was abandoned, and it never exceeds
/// the array, whose length stays.
pub proof fn lemma_heap_run(hs: Seq<Heap>, ks: Seq<nat>)
    requires
        hs.len() == ks.len() + 1,
        hs[0].wf(),
        forall|i: int| 0 <= i < ks.len() ==> heap_step(hs[i], #[trigger] hs[i + 1], ks[i]),
    ensures
        forall|i: int| 0 <= i < hs.len() ==> (#[trigger] hs[i]).wf() && hs[i].contents().len()
            == hs[0].contents().len(),
        forall|i: int| 0 < i < hs.len() ==> (#[trigger] hs[i]).size() <= hs[i - 1].size(),
        hs.last().size() + total(ks) == hs[0].size(),
    decreases ks.len(),
{
    if ks.len() > 0 {
        let m = ks.len() - 1;
        lemma_heap_run(hs.drop_last(), ks.drop_last());
        assert(heap_step(hs[m], hs[m + 1], ks[m]));
        assert(hs.drop_last()[m] == hs[m]);
        assert forall|i: int| 0 <= i < hs.len() implies (#[trigger] hs[i]).wf() && hs[i].contents().len()
            == hs[0].contents().len() by {
            if i < hs.len() - 1 {
                assert(hs.drop_last()[i] == hs[i]);
            }
        }
        assert forall|i: int| 0 < i < hs.len() implies (#[trigger] hs[i]).size() <= hs[i - 1].size() by {
            if i < hs.len() - 1 {
                assert(hs.drop_last()[i] == hs[i]);
                assert(hs.drop_last()[i - 1] == hs[i - 1]);
            }
        }
    }
}

/// A position in a `Heap`.
#[derive(Copy, Clone, PartialEq, Eq, Structural)]
pub struct Node {
    pub index: usize,
}

impl Node {
    /// The node at `index`, which must lie inside the heap.
    pub fn of(index: usize, heap: &Heap) -> (r: Node)
        requires
            index < heap.size(),
        ensures
            r.index == index,
    {
        Node { index }
    }

    /// The node at `index`, wherever that is.
    pub fn of_unchecked(index: usize) -> (r: Node)
        ensures
            r.index == index,
    {
        Node { index }
    }

    /// The level of the node in the tree: the root is on level 0, its children
    /// on level 1, and so on.
    pub fn level(&self) -> (r: usize)
        ensures
            r == depth(self.index as nat),
            pow2(r as nat) <= self.index + 1 < pow2(r as nat + 1),
    {
        let mut i = self.index;
        let mut l: usize = 0;
        while i > 0
            invariant
                l + depth(i as nat) == depth(self.index as nat),
                l <= self.index - i,
            decreases i,
        {
            i = (i - 1) / 2;
            l = l + 1;
        }
        proof {
            lemma_depth_bounds(self.index as nat);
        }
        l
    }

    /// The value stored at the node.
    pub fn value(&self, heap: &Heap) -> (r: usize)
        requires
            self.index < heap.contents().len(),
        ensures
            r == heap.contents()[self.index as int],
    {
        heap.repr[self.index]
    }

    /// The left and right child of the node, each where it lies inside the heap.
    pub fn children(&self, heap: &Heap) -> (r: [Option<Node>; 2])
        requires
            2 * self.index + 2 <= usize::MAX,
        ensures
            r@[0] == (if 2 * self.index + 1 < heap.size() {
                Some(Node { index: (2 * self.index + 1) as usize })
            } else {
                None
            }),
            r@[1] == (if 2 * self.index + 2 < heap.size() {
                Some(Node { index: (2 * self.index + 2) as usize })
            } else {
                None
            }),
    {
        let left = (2 * self.index) + 1;
        let right = (2 * self.index) + 2;
        let l = if left < heap.nodes() {
            Some(Node::of(left, heap))
        } else {
            None
        };
        let rt = if right < heap.nodes() {
            Some(Node::of(right, heap))
        } else {
            None
        };
        [l, rt]
    }
}

} // verus!
