use vstd::prelude::*;
use vstd::arithmetic::power2::pow2;

use crate::order::{permutes, sorted};
use crate::recorder::{counts_le, RecorderState, RecorderView};
use crate::sorter::{run_ok, start_steps};
use crate::utils::{copy_list, lemma_stats_push, stats_ok, Snapshot, SnapshotKind, VList};

verus! {

/// One moment of a merge: the two sorted halves, the list being filled, how far
/// each half has been taken, and the position just written.
pub struct VMergeSituation {
    pub s1: Vec<usize>,
    pub s2: Vec<usize>,
    pub x: Vec<usize>,
    pub s1ptr: usize,
    pub s2ptr: usize,
    pub added: Option<usize>,
}

impl VMergeSituation {
    pub fn new(
        s1: &[usize],
        s2: &[usize],
        x: &[usize],
        s1ptr: usize,
        s2ptr: usize,
        added: Option<usize>,
    ) -> (v: VMergeSituation)
        ensures
            v.s1@ == s1@,
            v.s2@ == s2@,
            v.x@ == x@,
            v.s1ptr == s1ptr,
            v.s2ptr == s2ptr,
            v.added == added,
    {
        VMergeSituation {
            s1: copy_list(s1),
            s2: copy_list(s2),
            x: copy_list(x),
            s1ptr,
            s2ptr,
            added,
        }
    }
}

/// A layer of a mergesort step: the merge in progress, or the list of an
/// enclosing call.
pub enum VMergeLayerKind {
    Top(VMergeSituation),
    Sub(Vec<usize>),
}

/// A layer, and where its list starts inside the whole list.
pub struct VMergeLayer {
    pub kind: VMergeLayerKind,
    pub start: usize,
}

/// The list that a layer shows.
pub open spec fn layer_list(l: VMergeLayer) -> Seq<usize> {
    match l.kind {
        VMergeLayerKind::Top(s) => s.x@,
        VMergeLayerKind::Sub(v) => v@,
    }
}

/// `cur` with `l` written over it from position `start` on.
pub open spec fn paint(cur: Seq<usize>, l: Seq<usize>, start: int) -> Seq<usize> {
    Seq::new(cur.len(), |i: int| if start <= i < start + l.len() { l[i - start] } else { cur[i] })
}

/// The list of the outermost layer, with the lists of the layers from
/// `k` inward written over it, inner ones last.
pub open spec fn overlay(layers: Seq<VMergeLayer>, k: int) -> Seq<usize>
    decreases layers.len() - k,
{
    if k < 0 || k >= layers.len() - 1 {
        layer_list(layers.last())
    } else {
        paint(overlay(layers, k + 1), layer_list(layers[k]), layers[k].start as int)
    }
}

/// The layers of a step of mergesort, innermost first, under construction.
pub struct VMergeBuilder {
    pub layers: Vec<VMergeLayer>,
}

impl VMergeBuilder {
    /// The length of the outermost list.
    pub open spec fn extent(&self) -> nat {
        layer_list(self.layers@.last()).len()
    }

    /// The outermost layer starts at 0, and every layer lies inside it.
    pub open spec fn wf(&self) -> bool {
        &&& self.layers@.len() >= 1
        &&& self.layers@.last().start == 0
        &&& forall|k: int|
            0 <= k < self.layers@.len() ==> #[trigger] self.layers@[k].start + layer_list(
                self.layers@[k],
            ).len() <= self.extent()
    }

    /// A step whose only layer is the merge in progress.
    pub fn new(situation: VMergeSituation) -> (b: VMergeBuilder)
        ensures
            b.wf(),
            b.layers@ == seq![VMergeLayer { kind: VMergeLayerKind::Top(situation), start: 0 }],
    {
        let mut layers: Vec<VMergeLayer> = Vec::new();
        layers.push(VMergeLayer { kind: VMergeLayerKind::Top(situation), start: 0 });
        let b = VMergeBuilder { layers };
        assert(b.layers@.last().start == 0);
        b
    }

    /// Puts the layers inside the list `parent` of the enclosing call, at
    /// `child_start`.
    pub fn layer(self, parent: &[usize], child_start: usize) -> (b: VMergeBuilder)
        requires
            self.wf(),
            self.extent() + child_start <= parent@.len(),
        ensures
            b.wf(),
            b.extent() == parent@.len(),
            b.layers@.len() == self.layers@.len() + 1,
            forall|k: int|
                0 <= k < self.layers@.len() ==> (#[trigger] b.layers@[k]).kind
                    == self.layers@[k].kind && b.layers@[k].start == self.layers@[k].start
                    + child_start,
            b.layers@.last().kind is Sub,
            b.layers@.last().start == 0,
            layer_list(b.layers@.last()) == parent@,
    {
        let plen = parent.len();
        let mut old_layers = self.layers;
        let ghost orig = old_layers@;
        let mut rev: Vec<VMergeLayer> = Vec::new();
        while old_layers.len() > 0
            invariant
                old_layers@ + rev@.reverse() == orig,
            decreases old_layers.len(),
        {
            let ghost before = old_layers@;
            let l = old_layers.pop().unwrap();
            rev.push(l);
            assert(before == old_layers@.push(l));
            assert(rev@.reverse() =~= seq![l] + rev@.drop_last().reverse());
            assert(orig =~= old_layers@ + rev@.reverse());
        }
        assert(rev@.reverse() =~= orig);
        let mut layers: Vec<VMergeLayer> = Vec::new();
        while rev.len() > 0
            invariant
                plen == parent@.len(),
                layers@.len() + rev@.len() == orig.len(),
                forall|k: int| 0 <= k < rev@.len() ==> #[trigger] rev@[k] == orig[orig.len() - 1 - k],
                forall|k: int|
                    0 <= k < layers@.len() ==> (#[trigger] layers@[k]).kind == orig[k].kind
                        && layers@[k].start == orig[k].start + child_start,
                forall|k: int|
                    0 <= k < orig.len() ==> #[trigger] orig[k].start + layer_list(orig[k]).len()
                        + child_start <= parent@.len(),
            decreases rev.len(),
        {
            let l = rev.pop().unwrap();
            let ghost k = layers@.len() as int;
            assert(l == orig[k]);
            assert(l.start + child_start <= parent@.len());
            layers.push(VMergeLayer { kind: l.kind, start: l.start + child_start });
        }
        let list = copy_list(parent);
        layers.push(VMergeLayer { kind: VMergeLayerKind::Sub(list), start: 0 });
        let b = VMergeBuilder { layers };
        assert(b.extent() == parent@.len());
        assert forall|k: int| 0 <= k < b.layers@.len() implies #[trigger] b.layers@[k].start + layer_list(
            b.layers@[k],
        ).len() <= b.extent() by {
            if k < orig.len() {
                assert(layer_list(b.layers@[k]) == layer_list(orig[k]));
            }
        }
        b
    }

    /// The whole list as the step shows it: the outermost list with each inner
    /// layer written over it.
    pub fn build(self) -> (m: VMerge)
        requires
            self.wf(),
        ensures
            m.layers == self.layers,
            m.full_list_length == self.extent(),
            m.current_state@ == overlay(self.layers@, 0),
    {
        let len = self.layers.len();
        let last = len - 1;
        let base: &Vec<usize> = match &self.layers[last].kind {
            VMergeLayerKind::Sub(lst) => lst,
            VMergeLayerKind::Top(sit) => &sit.x,
        };
        let full_list_length = base.len();
        let mut current_state = copy_list(base.as_slice());
        let mut k = last;
        assert(current_state@ == overlay(self.layers@, k as int));
        while k > 0
            invariant
                self.wf(),
                len == self.layers@.len(),
                k < len,
                current_state@ == overlay(self.layers@, k as int),
                current_state@.len() == self.extent(),
            decreases k,
        {
            k = k - 1;
            let layer = &self.layers[k];
            let list: &Vec<usize> = match &layer.kind {
                VMergeLayerKind::Sub(lst) => lst,
                VMergeLayerKind::Top(sit) => &sit.x,
            };
            assert(list@ == layer_list(self.layers@[k as int]));
            assert(layer.start + list@.len() <= self.extent());
            let ghost before = current_state@;
            let clen = current_state.len();
            let mut i: usize = 0;
            while i < list.len()
                invariant
                    i <= list@.len(),
                    clen == current_state@.len(),
                    layer.start + list@.len() <= current_state@.len(),
                    current_state@.len() == before.len(),
                    forall|j: int|
                        0 <= j < current_state@.len() ==> #[trigger] current_state@[j] == (if layer.start
                            <= j < layer.start + i {
                            list@[j - layer.start]
                        } else {
                            before[j]
                        }),
                decreases list@.len() - i,
            {
                current_state.set(layer.start + i, list[i]);
                i = i + 1;
            }
            assert(current_state@ =~= paint(before, list@, layer.start as int));
        }
        VMerge { layers: self.layers, full_list_length, current_state }
    }
}

/// A step of mergesort: its layers, innermost first, the length of the whole
/// list, and the whole list as it stands.
pub struct VMerge {
    pub layers: Vec<VMergeLayer>,
    pub full_list_length: usize,
    pub current_state: Vec<usize>,
}

impl VMerge {
    /// When the merge in progress is the outermost layer, a step that wrote
    /// nothing is only work in progress.
    pub open spec fn fleeting_view(&self) -> bool {
        self.layers@.len() > 0 && match self.layers@.last().kind {
            VMergeLayerKind::Top(s) => s.added is None,
            _ => false,
        }
    }

    pub fn is_fleeting(&self) -> (r: bool)
        ensures
            r == self.fleeting_view(),
    {
        if self.layers.len() == 0 {
            return false;
        }
        match &self.layers[self.layers.len() - 1].kind {
            VMergeLayerKind::Top(s) => s.added.is_none(),
            _ => false,
        }
    }
}

/// The values of `x` from `a` to `b`, in a fresh vector.
fn copy_range(x: &Vec<usize>, a: usize, b: usize) -> (r: Vec<usize>)
    requires
        a <= b <= x@.len(),
    ensures
        r@ == x@.subrange(a as int, b as int),
{
    let mut r: Vec<usize> = Vec::new();
    let mut i = a;
    while i < b
        invariant
            a <= i <= b <= x@.len(),
            r@ == x@.subrange(a as int, i as int),
        decreases b - i,
    {
        r.push(x[i]);
        i = i + 1;
        assert(r@ =~= x@.subrange(a as int, i as int));
    }
    r
}

/// The lists of the enclosing calls, outermost first, each with the position
/// where the next inner list starts in it; a list of `len` values sits inside
/// the innermost of them, and each inside the next.
pub open spec fn frames_ok(len: nat, frames: Seq<(Vec<usize>, usize)>) -> bool
    decreases frames.len(),
{
    frames.len() == 0 || {
        &&& frames.last().1 + len <= frames.last().0@.len()
        &&& frames_ok(frames.last().0@.len(), frames.drop_last())
    }
}

/// The lists of the enclosing calls, `frames`, sit inside `root` as they
/// stand: the outermost is `root` itself, each is the part of `root` where it
/// starts, and a list of `len` values starts at `base` inside the innermost.
pub open spec fn frames_in(
    root: Seq<usize>,
    frames: Seq<(Vec<usize>, usize)>,
    base: int,
    len: int,
) -> bool
    decreases frames.len(),
{
    if frames.len() == 0 {
        base == 0 && len == root.len()
    } else {
        let pl = frames.last().0@;
        let off = frames.last().1 as int;
        &&& off + len <= pl.len()
        &&& base - off >= 0
        &&& base - off + pl.len() <= root.len()
        &&& pl == root.subrange(base - off, base - off + pl.len())
        &&& frames_in(root, frames.drop_last(), base - off, pl.len() as int)
    }
}

/// The whole list that the merge step `s` shows is `root`, the list being
/// sorted as it was given, with the merge's own list written over the region
/// it sorts.
pub open spec fn shows_over(s: Snapshot, root: Seq<usize>) -> bool {
    let m = s.kind->Merge_0;
    &&& m.layers@.len() >= 1
    &&& m.layers@[0].start + situation(s).x@.len() <= root.len()
    &&& s.list_view() == paint(root, situation(s).x@, m.layers@[0].start as int)
}

/// Painting a list over the whole of another gives that list.
proof fn lemma_paint_full(cur: Seq<usize>, l: Seq<usize>)
    requires
        l.len() == cur.len(),
    ensures
        paint(cur, l, 0) == l,
{
    assert(paint(cur, l, 0) =~= l);
}

/// Painting over a part that holds what the whole holds there, and then the
/// whole over its place, paints straight into the whole.
proof fn lemma_paint_nested(p: Seq<usize>, l: Seq<usize>, g: Seq<usize>, off: int, rel: int)
    requires
        0 <= off,
        0 <= rel,
        off + l.len() <= p.len(),
        rel + g.len() <= l.len(),
        l == p.subrange(off, off + l.len()),
    ensures
        paint(p, paint(l, g, rel), off) == paint(p, g, off + rel),
{
    assert(paint(p, paint(l, g, rel), off) =~= paint(p, g, off + rel));
}

/// An overlay is as long as its outermost list.
proof fn lemma_overlay_len(layers: Seq<VMergeLayer>, k: int)
    requires
        layers.len() >= 1,
    ensures
        overlay(layers, k).len() == layer_list(layers.last()).len(),
    decreases layers.len() - k,
{
    if !(k < 0 || k >= layers.len() - 1) {
        lemma_overlay_len(layers, k + 1);
    }
}

/// Putting layers inside a list `p` at `off` overlays them on `p` there.
proof fn lemma_overlay_layer(old: Seq<VMergeLayer>, new: Seq<VMergeLayer>, p: Seq<usize>, off: int, k: int)
    requires
        old.len() >= 1,
        0 <= k < old.len(),
        new.len() == old.len() + 1,
        forall|q: int|
            0 <= q < old.len() ==> (#[trigger] new[q]).kind == old[q].kind && new[q].start
                == old[q].start + off,
        layer_list(new.last()) == p,
        new.last().start == 0,
        old.last().start == 0,
        0 <= off,
        off + layer_list(old.last()).len() <= p.len(),
        forall|q: int|
            0 <= q < old.len() ==> #[trigger] old[q].start + layer_list(old[q]).len()
                <= layer_list(old.last()).len(),
    ensures
        overlay(new, k) == paint(p, overlay(old, k), off),
    decreases old.len() - k,
{
    assert(layer_list(new[k]) == layer_list(old[k]));
    if k == old.len() - 1 {
        assert(overlay(new, k + 1) == p);
        assert(overlay(new, k) == paint(p, layer_list(old[k]), off));
    } else {
        lemma_overlay_layer(old, new, p, off, k + 1);
        lemma_overlay_len(old, k + 1);
        let inner = overlay(old, k + 1);
        assert(paint(paint(p, inner, off), layer_list(old[k]), old[k].start + off) =~= paint(
            p,
            paint(inner, layer_list(old[k]), old[k].start as int),
            off,
        ));
    }
}

/// The merge moment that a mergesort step shows in its innermost layer.
pub open spec fn situation(s: Snapshot) -> VMergeSituation {
    s.kind->Merge_0.layers@[0].kind->Top_0
}

/// The step shows a merge moment in its innermost layer: the pointers lie
/// inside the two halves, the list being filled is no longer than both and
/// holds all the values placed, and the
/// position just written is the one before where the pointers have got to
/// together (none before the first value is written).
pub open spec fn merge_step_shape(s: Snapshot) -> bool {
    let m = situation(s);
    &&& s.kind is Merge
    &&& s.kind->Merge_0.layers@.len() >= 1
    &&& s.kind->Merge_0.layers@[0].kind is Top
    &&& m.s1ptr <= m.s1@.len()
    &&& m.s2ptr <= m.s2@.len()
    &&& m.s1ptr + m.s2ptr <= m.x@.len() <= m.s1@.len() + m.s2@.len()
    &&& m.added == if m.s1ptr + m.s2ptr == 0 {
        None::<usize>
    } else {
        Some((m.s1ptr + m.s2ptr - 1) as usize)
    }
}

/// Whether merging takes its next value from the first half once `a` values of
/// `s1` and `b` of `s2` are placed: the second half is used up, or the first is
/// not and its next value is not above that of the second. Of two equal values
/// the one of the first half goes first, which keeps the sort stable.
pub open spec fn takes_first(s1: Seq<usize>, s2: Seq<usize>, a: int, b: int) -> bool {
    b >= s2.len() || (a < s1.len() && s1[a] <= s2[b])
}

/// The steps `t[start]` to `t[start + m]` are the first `m + 1` moments of
/// merging `s1` and `s2`: step `start + k` has placed `k` values, and each step
/// after the first has taken the next value of the half that `takes_first`
/// picks and written it at position `k - 1`.
#[verifier::opaque]
pub open spec fn merge_walk(t: Seq<Snapshot>, start: int, s1: Seq<usize>, s2: Seq<usize>, m: int) -> bool {
    &&& 0 <= start
    &&& start + m < t.len()
    &&& forall|k: int|
        start <= k <= start + m ==> {
            &&& merge_step_shape(#[trigger] t[k])
            &&& situation(t[k]).s1@ == s1
            &&& situation(t[k]).s2@ == s2
            &&& situation(t[k]).s1ptr + situation(t[k]).s2ptr == k - start
        }
    &&& forall|k: int|
        start < k <= start + m ==> {
            let p = situation(t[k - 1]);
            let c = situation(#[trigger] t[k]);
            if takes_first(s1, s2, p.s1ptr as int, p.s2ptr as int) {
                &&& c.s1ptr == p.s1ptr + 1
                &&& c.s2ptr == p.s2ptr
                &&& c.x@[k - start - 1] == s1[p.s1ptr as int]
            } else {
                &&& c.s2ptr == p.s2ptr + 1
                &&& c.s1ptr == p.s1ptr
                &&& c.x@[k - start - 1] == s2[p.s2ptr as int]
            }
        }
}

/// The most comparisons a merge of `n` values makes: none for the last value.
pub open spec fn merge_compares(n: nat) -> nat {
    if n == 0 {
        0
    } else {
        (n - 1) as nat
    }
}

/// The values mergesort writes back for a list of `n`: every merge writes all
/// of its values.
pub open spec fn sort_moves(n: nat) -> nat
    decreases n,
{
    if n < 2 {
        0
    } else {
        n + sort_moves(n / 2) + sort_moves((n - n / 2) as nat)
    }
}

/// The most comparisons mergesort makes on a list of `n`.
pub open spec fn sort_compares(n: nat) -> nat
    decreases n,
{
    if n < 2 {
        0
    } else {
        merge_compares(n) + sort_compares(n / 2) + sort_compares((n - n / 2) as nat)
    }
}

/// The first moment of a merge, before any value is placed, starts a walk.
pub proof fn lemma_walk_start(t: Seq<Snapshot>, s: Snapshot, s1: Seq<usize>, s2: Seq<usize>)
    requires
        merge_step_shape(s),
        situation(s).s1@ == s1,
        situation(s).s2@ == s2,
        situation(s).s1ptr + situation(s).s2ptr == 0,
    ensures
        merge_walk(t.push(s), t.len() as int, s1, s2, 0),
{
    reveal(merge_walk);
    assert(t.push(s)[t.len() as int] == s);
}

/// A walk goes on by a moment that took the value `takes_first` picks.
pub proof fn lemma_walk_push(
    t: Seq<Snapshot>,
    s: Snapshot,
    start: int,
    s1: Seq<usize>,
    s2: Seq<usize>,
    m: int,
)
    requires
        merge_walk(t, start, s1, s2, m),
        start + m == t.len() - 1,
        merge_step_shape(s),
        situation(s).s1@ == s1,
        situation(s).s2@ == s2,
        situation(s).s1ptr + situation(s).s2ptr == m + 1,
        ({
            let p = situation(t.last());
            let c = situation(s);
            if takes_first(s1, s2, p.s1ptr as int, p.s2ptr as int) {
                &&& c.s1ptr == p.s1ptr + 1
                &&& c.s2ptr == p.s2ptr
                &&& c.x@[m] == s1[p.s1ptr as int]
            } else {
                &&& c.s2ptr == p.s2ptr + 1
                &&& c.s1ptr == p.s1ptr
                &&& c.x@[m] == s2[p.s2ptr as int]
            }
        }),
    ensures
        merge_walk(t.push(s), start, s1, s2, m + 1),
{
    reveal(merge_walk);
    let u = t.push(s);
    assert forall|k: int| start <= k <= start + m + 1 implies {
        &&& merge_step_shape(#[trigger] u[k])
        &&& situation(u[k]).s1@ == s1
        &&& situation(u[k]).s2@ == s2
        &&& situation(u[k]).s1ptr + situation(u[k]).s2ptr == k - start
    } by {
        if k <= start + m {
            assert(u[k] == t[k]);
        }
    }
    assert forall|k: int| start < k <= start + m + 1 implies {
        let p = situation(u[k - 1]);
        let c = situation(#[trigger] u[k]);
        if takes_first(s1, s2, p.s1ptr as int, p.s2ptr as int) {
            &&& c.s1ptr == p.s1ptr + 1
            &&& c.s2ptr == p.s2ptr
            &&& c.x@[k - start - 1] == s1[p.s1ptr as int]
        } else {
            &&& c.s2ptr == p.s2ptr + 1
            &&& c.s1ptr == p.s1ptr
            &&& c.x@[k - start - 1] == s2[p.s2ptr as int]
        }
    } by {
        assert(u[k - 1] == t[k - 1]);
        if k <= start + m {
            assert(u[k] == t[k]);
        }
    }
}

/// Every moment of a walk shows a merge in its innermost layer.
pub proof fn lemma_walk_shapes(t: Seq<Snapshot>, start: int, s1: Seq<usize>, s2: Seq<usize>, m: int)
    requires
        merge_walk(t, start, s1, s2, m),
    ensures
        forall|k: int| start <= k <= start + m ==> merge_step_shape(#[trigger] t[k]),
{
    reveal(merge_walk);
}

/// The levels of halving mergesort goes through on a list of `n`: the
/// smallest `l` with `n <= 2^l`.
pub open spec fn levels(n: nat) -> nat
    decreases n,
{
    if n < 2 {
        0
    } else {
        1 + levels((n - n / 2) as nat)
    }
}

/// A longer list goes through no fewer levels.
pub proof fn lemma_levels_mono(a: nat, b: nat)
    requires
        a <= b,
    ensures
        levels(a) <= levels(b),
    decreases b,
{
    if a >= 2 {
        lemma_levels_mono((a - a / 2) as nat, (b - b / 2) as nat);
    }
}

/// The levels are logarithmic: `2^levels(n) < 2 n` for a list that is not empty.
pub proof fn lemma_levels_log(n: nat)
    requires
        n >= 1,
    ensures
        pow2(levels(n)) < 2 * n,
    decreases n,
{
    if n < 2 {
        vstd::arithmetic::power2::lemma_pow2(0);
        vstd::arithmetic::power::lemma_pow0(2);
    } else {
        let b = (n - n / 2) as nat;
        lemma_levels_log(b);
        vstd::arithmetic::power2::lemma_pow2_unfold(levels(n));
        if b >= 2 {
            vstd::arithmetic::power2::lemma_pow2_unfold(levels(b));
            assert(pow2(levels(b)) <= 2 * b - 2);
        } else {
            vstd::arithmetic::power2::lemma_pow2(0);
            vstd::arithmetic::power::lemma_pow0(2);
        }
    }
}

/// Mergesort is `n log n` in every case: it writes back at most `n` values on
/// each level of halving and compares no more often than it writes.
pub proof fn lemma_sort_cost(n: nat)
    ensures
        sort_compares(n) <= sort_moves(n),
        sort_moves(n) <= n * levels(n),
    decreases n,
{
    if n >= 2 {
        let a = n / 2;
        let b = (n - n / 2) as nat;
        lemma_sort_cost(a);
        lemma_sort_cost(b);
        lemma_levels_mono(a, b);
        assert(a * levels(a) <= a * levels(b)) by (nonlinear_arith)
            requires
                levels(a) <= levels(b),
        ;
        assert(n * levels(n) == n + (a + b) * levels(b)) by (nonlinear_arith)
            requires
                levels(n) == 1 + levels(b),
                n == a + b,
        ;
        assert((a + b) * levels(b) == a * levels(b) + b * levels(b)) by (nonlinear_arith);
    }
}

/// The steps from `start` on are a whole merge of `s1` and `s2`.
pub open spec fn full_walk(t: Seq<Snapshot>, start: int, s1: Seq<usize>, s2: Seq<usize>) -> bool {
    merge_walk(t, start, s1, s2, (s1.len() + s2.len()) as int)
}

/// `s1` and `s2` are the two halves of `x`, each rearranged: `s1` holds the
/// values of the first `x.len() / 2` positions, `s2` those of the rest.
pub open spec fn halves_of(s1: Seq<usize>, s2: Seq<usize>, x: Seq<usize>) -> bool {
    &&& x.len() == s1.len() + s2.len()
    &&& s1.len() == x.len() / 2
    &&& permutes(s1, x.take(s1.len() as int))
    &&& permutes(s2, x.skip(s1.len() as int))
}

/// Step `k` belongs to a whole merge of two sorted runs, the first holding the
/// left half of the list being merged and the second its right half, as the
/// merge's first step shows that list.
pub open spec fn in_merge(t: Seq<Snapshot>, k: int) -> bool {
    exists|start: int, s1: Seq<usize>, s2: Seq<usize>|
        #![trigger full_walk(t, start, s1, s2)]
        sorted(s1) && sorted(s2) && start <= k <= start + s1.len() + s2.len() && full_walk(
            t,
            start,
            s1,
            s2,
        ) && halves_of(s1, s2, situation(t[start]).x@)
}

/// A walk stays one when more steps follow it.
pub proof fn lemma_walk_extend(t: Seq<Snapshot>, u: Seq<Snapshot>, start: int, s1: Seq<usize>, s2: Seq<usize>, m: int)
    requires
        merge_walk(t, start, s1, s2, m),
        u.len() >= t.len(),
        forall|k: int| 0 <= k < t.len() ==> u[k] == t[k],
    ensures
        merge_walk(u, start, s1, s2, m),
{
    reveal(merge_walk);
    assert forall|k: int| start <= k <= start + m implies u[k] == t[k] by {}
}

/// A step stays part of its merge when more steps follow.
pub proof fn lemma_in_merge_extend(t: Seq<Snapshot>, u: Seq<Snapshot>, k: int)
    requires
        in_merge(t, k),
        u.len() >= t.len(),
        forall|q: int| 0 <= q < t.len() ==> u[q] == t[q],
    ensures
        in_merge(u, k),
{
    let (start, s1, s2) = choose|start: int, s1: Seq<usize>, s2: Seq<usize>|
        sorted(s1) && sorted(s2) && start <= k <= start + s1.len() + s2.len() && #[trigger] full_walk(
            t,
            start,
            s1,
            s2,
        ) && halves_of(s1, s2, situation(t[start]).x@);
    lemma_walk_extend(t, u, start, s1, s2, (s1.len() + s2.len()) as int);
    assert(full_walk(u, start, s1, s2));
    assert(u[start] == t[start]) by {
        reveal(merge_walk);
    }
}

/// Shows the merge moment `sit` inside the lists of the enclosing calls.
fn emit(
    sit: VMergeSituation,
    frames: &Vec<(Vec<usize>, usize)>,
    r: &RecorderState,
    trace: &mut Vec<Snapshot>,
    Ghost(r0): Ghost<RecorderView>,
    Ghost(root): Ghost<Seq<usize>>,
    Ghost(base): Ghost<int>,
)
    requires
        frames_ok(sit.x@.len(), frames@),
        frames_in(root, frames@, base, sit.x@.len() as int),
        stats_ok(old(trace)@, r0, r@),
    ensures
        stats_ok(final(trace)@, r0, r@),
        final(trace)@.len() == old(trace)@.len() + 1,
        forall|k: int| 0 <= k < old(trace)@.len() ==> final(trace)@[k] == old(trace)@[k],
        final(trace)@.last().kind is Merge,
        final(trace)@.last().kind->Merge_0.layers@.len() >= 1,
        final(trace)@.last().kind->Merge_0.layers@[0].kind == VMergeLayerKind::Top(sit),
        final(trace)@.last().kind->Merge_0.layers@[0].start == base,
        shows_over(final(trace)@.last(), root),
        frames@.len() == 0 ==> final(trace)@.last().list_view() == sit.x@,
{
    let ghost x = sit.x@;
    let ghost g = sit;
    let mut b = VMergeBuilder::new(sit);
    let mut k = frames.len();
    let ghost n = frames@.len();
    let ghost mut cur_base: int = base;
    proof {
        assert(frames@.take(k as int) =~= frames@);
        lemma_paint_full(x, x);
    }
    while k > 0
        invariant
            k <= frames@.len(),
            n == frames@.len(),
            b.wf(),
            frames_ok(b.extent(), frames@.take(k as int)),
            k == frames@.len() ==> b.layers@.len() == 1 && layer_list(b.layers@[0]) == x,
            b.layers@.len() >= 1,
            b.layers@[0].kind == VMergeLayerKind::Top(g),
            g.x@ == x,
            frames_in(root, frames@.take(k as int), cur_base, b.extent() as int),
            k < n ==> layer_list(b.layers@.last()) == root.subrange(
                cur_base,
                cur_base + b.extent(),
            ),
            overlay(b.layers@, 0) == paint(
                layer_list(b.layers@.last()),
                x,
                b.layers@[0].start as int,
            ),
            cur_base + b.layers@[0].start == base,
            b.layers@[0].start + x.len() <= b.extent(),
        decreases k,
    {
        let ghost f = frames@.take(k as int);
        let ghost old_layers = b.layers@;
        let ghost l_old = layer_list(b.layers@.last());
        let ghost rel = b.layers@[0].start as int;
        proof {
            assert(f.drop_last() =~= frames@.take(k - 1));
            assert(f.last() == frames@[k - 1]);
        }
        k = k - 1;
        let ghost pl = frames@[k as int].0@;
        let ghost off = frames@[k as int].1 as int;
        b = b.layer(frames[k].0.as_slice(), frames[k].1);
        proof {
            lemma_overlay_layer(old_layers, b.layers@, pl, off, 0);
            if k + 1 == n {
                assert(l_old == x);
                assert(rel == 0);
                lemma_paint_full(l_old, x);
            } else {
                assert(f.len() > 0 && f.last().0@ == pl && f.last().1 as int == off);
                assert(pl == root.subrange(cur_base - off, cur_base - off + pl.len()));
                assert(off + l_old.len() <= pl.len());
                assert(l_old == root.subrange(cur_base, cur_base + l_old.len()));
                assert(l_old =~= pl.subrange(off, off + l_old.len()));
                lemma_paint_nested(pl, l_old, x, off, rel);
            }
            cur_base = cur_base - off;
        }
    }
    proof {
        let l = layer_list(b.layers@.last());
        if n > 0 {
            assert(l =~= root);
        } else {
            lemma_paint_full(l, x);
            lemma_paint_full(root, x);
        }
    }
    let m = b.build();
    let s = Snapshot::new(SnapshotKind::Merge(m), r);
    assert(s.kind->Merge_0.layers@[0].kind == VMergeLayerKind::Top(g));
    proof {
        lemma_stats_push(trace@, s, r0, r@);
    }
    trace.push(s);
}

/// Mergesort. Returns every step it takes.
pub fn sort(x: Vec<usize>, r: &mut RecorderState) -> (trace: Vec<Snapshot>)
    ensures
        run_ok(trace@, x@, old(r)@, final(r)@),
        trace@[0].kind is List,
        forall|k: int| 1 <= k < trace@.len() ==> #[trigger] trace@[k].kind is Merge,
        forall|k: int| 1 <= k < trace@.len() ==> merge_step_shape(#[trigger] trace@[k]),
        forall|k: int| 1 <= k < trace@.len() ==> #[trigger] in_merge(trace@, k),
        forall|k: int| 1 <= k < trace@.len() ==> shows_over(#[trigger] trace@[k], x@),
        final(r)@.swaps == crate::recorder::bump_by(old(r)@.swaps, sort_moves(x@.len())),
        final(r)@.comparisons <= crate::recorder::bump_by(
            old(r)@.comparisons,
            sort_compares(x@.len()),
        ),
{
    let ghost x0 = x@;
    let ghost r0 = r@;
    let mut x = x;
    let mut trace = start_steps(VList::new(x.as_slice()).into_snapshot(r));
    let mut frames: Vec<(Vec<usize>, usize)> = Vec::new();
    proof {
        assert(x0.subrange(0, x0.len() as int) =~= x0);
    }
    _sort(&mut x, r, &mut trace, &mut frames, Ghost(r0), Ghost(x0), Ghost(0));
    trace
}

/// Sorts `x` in place, through sorted copies of its halves.
fn _sort(
    x: &mut Vec<usize>,
    r: &mut RecorderState,
    trace: &mut Vec<Snapshot>,
    frames: &mut Vec<(Vec<usize>, usize)>,
    Ghost(r0): Ghost<RecorderView>,
    Ghost(root): Ghost<Seq<usize>>,
    Ghost(base): Ghost<int>,
)
    requires
        frames_ok(old(x)@.len(), old(frames)@),
        frames_in(root, old(frames)@, base, old(x)@.len() as int),
        0 <= base,
        base + old(x)@.len() <= root.len(),
        old(x)@ == root.subrange(base, base + old(x)@.len()),
        stats_ok(old(trace)@, r0, old(r)@),
    ensures
        forall|k: int|
            old(trace)@.len() <= k < final(trace)@.len() ==> #[trigger] final(trace)@[k].kind is Merge,
        final(x)@.len() == old(x)@.len(),
        sorted(final(x)@),
        permutes(final(x)@, old(x)@),
        final(frames)@ == old(frames)@,
        stats_ok(final(trace)@, r0, final(r)@),
        final(trace)@.len() >= old(trace)@.len(),
        forall|k: int| 0 <= k < old(trace)@.len() ==> final(trace)@[k] == old(trace)@[k],
        old(frames)@.len() == 0 && old(trace)@.last().list_view() == old(x)@
            ==> final(trace)@.last().list_view() == final(x)@,
        final(r)@.stack == old(r)@.stack,
        forall|k: int|
            old(trace)@.len() <= k < final(trace)@.len() ==> merge_step_shape(#[trigger] final(trace)@[k]),
        forall|k: int|
            old(trace)@.len() <= k < final(trace)@.len() ==> #[trigger] in_merge(final(trace)@, k),
        forall|k: int|
            old(trace)@.len() <= k < final(trace)@.len() ==> shows_over(#[trigger] final(trace)@[k], root),
        final(r)@.swaps == crate::recorder::bump_by(old(r)@.swaps, sort_moves(old(x)@.len())),
        old(r)@.comparisons <= final(r)@.comparisons,
        final(r)@.comparisons <= crate::recorder::bump_by(
            old(r)@.comparisons,
            sort_compares(old(x)@.len()),
        ),
    decreases old(x)@.len(),
{
    let ghost xs = x@;
    let ghost r_start = r@;
    r.f_push("mergesort");
    let len = x.len();
    if len < 2 {
        r.f_pop();
        proof {
            r.lemma_bounded();
            assert(sort_moves(len as nat) == 0 && sort_compares(len as nat) == 0);
            assert(r@.stack =~= r_start.stack);
            crate::order::lemma_permutes_refl(xs);
        }
        return;
    }
    let mid = len / 2;
    let mut s1 = copy_range(x, 0, mid);
    let mut s2 = copy_range(x, mid, len);
    let ghost t0 = trace@;
    frames.push((copy_list(x.as_slice()), 0));
    proof {
        assert(frames@.drop_last() == old(frames)@);
        assert(s1@ =~= root.subrange(base, base + mid));
    }
    _sort(&mut s1, r, trace, frames, Ghost(r0), Ghost(root), Ghost(base));
    let ghost t1 = trace@;
    frames.pop();
    frames.push((copy_list(x.as_slice()), mid));
    proof {
        assert(frames@.drop_last() == old(frames)@);
        assert(s2@ =~= root.subrange(base + mid, base + mid + (len - mid)));
    }
    _sort(&mut s2, r, trace, frames, Ghost(r0), Ghost(root), Ghost(base + mid));
    frames.pop();
    proof {
        assert(frames@ =~= old(frames)@);
    }
    let ghost t2 = trace@;
    proof {
        assert(xs.take(mid as int) =~= xs.subrange(0, mid as int));
        assert(xs.skip(mid as int) =~= xs.subrange(mid as int, len as int));
        assert(x@ == xs);
        assert(halves_of(s1@, s2@, xs));
    }
    merge_steps(s1.as_slice(), s2.as_slice(), x, r, trace, frames, Ghost(r0), Ghost(root), Ghost(base));
    proof {
        assert forall|k: int| t0.len() <= k < trace@.len() implies shows_over(#[trigger] trace@[k], root) by {
            if k < t2.len() {
                assert(trace@[k] == t2[k]);
                if k < t1.len() {
                    assert(t2[k] == t1[k]);
                }
            }
        }
        assert(merge_limit(len as nat, len as nat) == merge_compares(len as nat));
        assert(full_walk(trace@, t2.len() as int, s1@, s2@));
        assert forall|q: int| 0 <= q < t1.len() implies trace@[q] == t1[q] by {
            assert(trace@[q] == t2[q]);
        }
        assert forall|k: int| t0.len() <= k < trace@.len() implies #[trigger] in_merge(trace@, k) by {
            if k < t1.len() {
                lemma_in_merge_extend(t1, trace@, k);
            } else if k < t2.len() {
                lemma_in_merge_extend(t2, trace@, k);
            } else {
                assert(full_walk(trace@, t2.len() as int, s1@, s2@));
                assert(halves_of(s1@, s2@, situation(trace@[t2.len() as int]).x@));
            }
        }
        lemma_walk_shapes(trace@, t2.len() as int, s1@, s2@, len as int);
        assert forall|k: int| t0.len() <= k < trace@.len() implies merge_step_shape(
            #[trigger] trace@[k],
        ) by {
            if k < t2.len() {
                assert(trace@[k] == t2[k]);
                if k < t1.len() {
                    assert(t2[k] == t1[k]);
                }
            }
        }
        assert(xs =~= xs.subrange(0, mid as int) + xs.subrange(mid as int, len as int));
        vstd::seq_lib::lemma_multiset_commutative(xs.subrange(0, mid as int), xs.subrange(mid as int, len as int));
        vstd::seq_lib::lemma_multiset_commutative(s1@, s2@);
    }
    r.f_pop();
    proof {
        assert(r@.stack =~= r_start.stack);
    }
}

/// Merges `s1` and `s2` into `x`, filling it from the front, and returns a step
/// for the start and for each value written. `x` may be shorter than the two
/// together; merging stops when it is full. When the halves are sorted, so is
/// `x`, and when it is as long as both, it holds exactly their values.
pub fn merge(s1: &[usize], s2: &[usize], x: &mut Vec<usize>, r: &mut RecorderState) -> (trace: Vec<
    Snapshot,
>)
    requires
        old(x)@.len() <= s1@.len() + s2@.len(),
    ensures
        final(x)@.len() == old(x)@.len(),
        sorted(s1@) && sorted(s2@) ==> sorted(final(x)@),
        old(x)@.len() == s1@.len() + s2@.len() ==> permutes(final(x)@, s1@ + s2@),
        trace@.len() == old(x)@.len() + 1,
        trace@.last().list_view() == final(x)@,
        crate::utils::trace_ok(trace@, final(r)@),
        forall|k: int| 0 <= k < trace@.len() ==> counts_le(old(r)@, #[trigger] trace@[k].stats@),
        counts_le(old(r)@, final(r)@),
        final(r)@.stack == old(r)@.stack,
        final(r)@.swaps == crate::recorder::bump_by(old(r)@.swaps, old(x)@.len()),
        forall|k: int| 0 <= k < trace@.len() ==> #[trigger] trace@[k].kind is Merge,
        merge_walk(trace@, 0, s1@, s2@, old(x)@.len() as int),
        final(r)@.comparisons <= crate::recorder::bump_by(
            old(r)@.comparisons,
            merge_limit(old(x)@.len(), s1@.len() + s2@.len()),
        ),
{
    let mut trace: Vec<Snapshot> = Vec::new();
    let frames: Vec<(Vec<usize>, usize)> = Vec::new();
    let ghost r0 = r@;
    let ghost root = x@;
    merge_steps(s1, s2, x, r, &mut trace, &frames, Ghost(r0), Ghost(root), Ghost(0));
    trace
}

/// The most comparisons a merge of halves holding `total` values together
/// makes while writing `n` of them: one per value written, and none once a
/// half is used up.
pub open spec fn merge_limit(n: nat, total: nat) -> nat {
    if n <= merge_compares(total) {
        n
    } else {
        merge_compares(total)
    }
}

/// Merges the sorted `s1` and `s2` into `x`, showing each value written
/// inside the lists of the enclosing calls.
fn merge_steps(
    s1: &[usize],
    s2: &[usize],
    x: &mut Vec<usize>,
    r: &mut RecorderState,
    trace: &mut Vec<Snapshot>,
    frames: &Vec<(Vec<usize>, usize)>,
    Ghost(r0): Ghost<RecorderView>,
    Ghost(root): Ghost<Seq<usize>>,
    Ghost(base): Ghost<int>,
)
    requires
        old(x)@.len() <= s1@.len() + s2@.len(),
        frames_ok(old(x)@.len(), frames@),
        frames_in(root, frames@, base, old(x)@.len() as int),
        stats_ok(old(trace)@, r0, old(r)@),
    ensures
        forall|k: int|
            old(trace)@.len() <= k < final(trace)@.len() ==> #[trigger] final(trace)@[k].kind is Merge,
        final(r)@.swaps == crate::recorder::bump_by(old(r)@.swaps, old(x)@.len()),
        final(x)@.len() == old(x)@.len(),
        sorted(s1@) && sorted(s2@) ==> sorted(final(x)@),
        old(x)@.len() == s1@.len() + s2@.len() ==> permutes(final(x)@, s1@ + s2@),
        stats_ok(final(trace)@, r0, final(r)@),
        final(trace)@.len() == old(trace)@.len() + old(x)@.len() + 1,
        forall|k: int| 0 <= k < old(trace)@.len() ==> final(trace)@[k] == old(trace)@[k],
        frames@.len() == 0 ==> final(trace)@.last().list_view() == final(x)@,
        final(r)@.stack == old(r)@.stack,
        merge_walk(final(trace)@, old(trace)@.len() as int, s1@, s2@, old(x)@.len() as int),
        situation(final(trace)@[old(trace)@.len() as int]).x@ == old(x)@,
        forall|k: int|
            old(trace)@.len() <= k < final(trace)@.len() ==> shows_over(#[trigger] final(trace)@[k], root),
        old(r)@.comparisons <= final(r)@.comparisons,
        final(r)@.comparisons <= crate::recorder::bump_by(
            old(r)@.comparisons,
            merge_limit(old(x)@.len(), s1@.len() + s2@.len()),
        ),
{
    let ghost r_start = r@;
    let ghost t0 = trace@;
    let ghost ok = sorted(s1@) && sorted(s2@);
    proof {
        r.lemma_bounded();
    }
    r.f_push("merge");
    let n1 = s1.len();
    let n2 = s2.len();
    let n = x.len();
    let ghost xs_in = x@;
    let first = VMergeSituation::new(s1, s2, x.as_slice(), 0, 0, None);
    emit(first, frames, r, trace, Ghost(r0), Ghost(root), Ghost(base));
    assert(situation(trace@[t0.len() as int]) == first);
    assert forall|q: int| t0.len() <= q < trace@.len() implies shows_over(#[trigger] trace@[q], root) by {
        assert(q == t0.len());
    }
    let mut i: usize = 0;
    let mut j: usize = 0;
    let ghost cap = merge_compares((n1 + n2) as nat);
    proof {
        assert(x@.take(0) =~= Seq::<usize>::empty());
        assert(s1@.take(0) + s2@.take(0) =~= Seq::<usize>::empty());
        assert(trace@ =~= t0.push(trace@.last()));
        lemma_walk_start(t0, trace@.last(), s1@, s2@);
    }
    while i + j < n
        invariant
            n <= n1 + n2,
            i + j <= n,
            n1 == s1@.len(),
            n2 == s2@.len(),
            x@.len() == n,
            i <= n1,
            j <= n2,
            ok == (sorted(s1@) && sorted(s2@)),
            frames_ok(n as nat, frames@),
            ok ==> sorted(x@.take((i + j) as int)),
            permutes(x@.take((i + j) as int), s1@.take(i as int) + s2@.take(j as int)),
            ok && i + j > 0 && i < n1 ==> x@[i + j - 1] <= s1@[i as int],
            ok && i + j > 0 && j < n2 ==> x@[i + j - 1] <= s2@[j as int],
            stats_ok(trace@, r0, r@),
            trace@.len() == t0.len() + i + j + 1,
            forall|k: int| 0 <= k < t0.len() ==> trace@[k] == t0[k],
            frames@.len() == 0 ==> trace@.last().list_view() == x@,
            r@.stack == r_start.stack.push("merge"),
            forall|k: int| t0.len() <= k < trace@.len() ==> #[trigger] trace@[k].kind is Merge,
            r@.swaps == crate::recorder::bump_by(r_start.swaps, (i + j) as nat),
            merge_walk(trace@, t0.len() as int, s1@, s2@, (i + j) as int),
            situation(trace@[t0.len() as int]).x@ == xs_in,
            frames_in(root, frames@, base, n as int),
            forall|q: int| t0.len() <= q < trace@.len() ==> shows_over(#[trigger] trace@[q], root),
            situation(trace@.last()).s1ptr == i,
            situation(trace@.last()).s2ptr == j,
            cap == merge_compares((n1 + n2) as nat),
            r_start.comparisons <= r@.comparisons,
            r@.comparisons <= crate::recorder::bump_by(
                r_start.comparisons,
                if i + j <= cap {
                    (i + j) as nat
                } else {
                    cap
                },
            ),
        decreases n - i - j,
    {
        let ghost xb = x@;
        let ghost k = (i + j) as int;
        let ghost tb = trace@;
        let ghost c_before = r@.comparisons;
        let take_first = if j == n2 {
            true
        } else if i < n1 {
            !r.gt(s1[i], s2[j])
        } else {
            false
        };
        assert(take_first == takes_first(s1@, s2@, i as int, j as int));
        assert(r@.comparisons <= crate::recorder::bump_by(
            r_start.comparisons,
            if i + j + 1 <= cap {
                (i + j + 1) as nat
            } else {
                cap
            },
        )) by {
            if j < n2 && i < n1 {
                assert(i + j + 1 <= cap);
            }
        }
        if take_first {
            x.set(i + j, s1[i]);
            proof {
                assert(x@.take(k + 1) =~= xb.take(k).push(s1@[i as int]));
                assert(s1@.take(i + 1) =~= s1@.take(i as int).push(s1@[i as int]));
                vstd::seq_lib::lemma_multiset_commutative(s1@.take(i + 1), s2@.take(j as int));
                vstd::seq_lib::lemma_multiset_commutative(s1@.take(i as int), s2@.take(j as int));
                vstd::seq_lib::to_multiset_build(xb.take(k), s1@[i as int]);
                vstd::seq_lib::to_multiset_build(s1@.take(i as int), s1@[i as int]);
                assert((s1@.take(i + 1) + s2@.take(j as int)).to_multiset() =~= (s1@.take(i as int)
                    + s2@.take(j as int)).to_multiset().insert(s1@[i as int]));
                let nx = x@.take(k + 1);
                if ok {
                    assert forall|a: int, b: int| 0 <= a <= b < k + 1 implies nx[a] <= nx[b] by {
                        if b == k && a < k {
                            assert(xb.take(k)[a] <= xb.take(k)[k - 1]);
                        } else if b < k {
                            assert(xb.take(k)[a] <= xb.take(k)[b]);
                        }
                    }
                }
            }
            i = i + 1;
        } else {
            x.set(i + j, s2[j]);
            proof {
                assert(x@.take(k + 1) =~= xb.take(k).push(s2@[j as int]));
                assert(s2@.take(j + 1) =~= s2@.take(j as int).push(s2@[j as int]));
                vstd::seq_lib::lemma_multiset_commutative(s1@.take(i as int), s2@.take(j + 1));
                vstd::seq_lib::lemma_multiset_commutative(s1@.take(i as int), s2@.take(j as int));
                vstd::seq_lib::to_multiset_build(xb.take(k), s2@[j as int]);
                vstd::seq_lib::to_multiset_build(s2@.take(j as int), s2@[j as int]);
                assert((s1@.take(i as int) + s2@.take(j + 1)).to_multiset() =~= (s1@.take(i as int)
                    + s2@.take(j as int)).to_multiset().insert(s2@[j as int]));
                let nx = x@.take(k + 1);
                if ok {
                    assert forall|a: int, b: int| 0 <= a <= b < k + 1 implies nx[a] <= nx[b] by {
                        if b == k && a < k {
                            assert(xb.take(k)[a] <= xb.take(k)[k - 1]);
                        } else if b < k {
                            assert(xb.take(k)[a] <= xb.take(k)[b]);
                        }
                    }
                }
            }
            j = j + 1;
        }
        r.record_merge();
        let cur = VMergeSituation::new(s1, s2, x.as_slice(), i, j, Some(i + j - 1));
        emit(cur, frames, r, trace, Ghost(r0), Ghost(root), Ghost(base));
        proof {
            assert(trace@ =~= tb.push(trace@.last()));
            lemma_walk_push(tb, trace@.last(), t0.len() as int, s1@, s2@, k);
            assert(trace@[t0.len() as int] == tb[t0.len() as int]);
            assert forall|q: int| t0.len() <= q < trace@.len() implies shows_over(#[trigger] trace@[q], root) by {
                if q < tb.len() {
                    assert(trace@[q] == tb[q]);
                }
            }
        }
    }
    proof {
        assert(x@.take(n as int) =~= x@);
        if n == n1 + n2 {
            assert(s1@.take(n1 as int) =~= s1@);
            assert(s2@.take(n2 as int) =~= s2@);
        }
    }
    r.f_pop();
    proof {
        assert(r@.stack =~= r_start.stack);
    }
}

} // verus!
