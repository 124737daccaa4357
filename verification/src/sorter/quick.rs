use vstd::prelude::*;

use std::ops::Range;

use crate::order::{lemma_swap_in_range, lemma_swap_permutes, permutes, sorted, swap_seq};
use crate::recorder::{counts_le, RecorderState, RecorderView};
use crate::sorter::{push_step, run_ok, start_steps};
use crate::utils::{all_quick, copy_list, lists_permute, steps_ok, Expl, Snapshot, SnapshotKind};

verus! {

/// A region of the list that quicksort is working on, and its pivot.
pub struct VQuickLayer {
    pub r: Range<usize>,
    pub p: Option<usize>,
}

/// A step of quicksort: the whole list, and the nested regions being sorted,
/// innermost first.
pub struct VQuick {
    pub list: Vec<usize>,
    pub layers: Vec<VQuickLayer>,
    pub swapped: Option<(usize, usize)>,
    pub current: Option<usize>,
    pub expl: Option<Expl>,
    pub fleeting: bool,
}

impl VQuick {
    pub fn new(list: Vec<usize>, swapped: Option<(usize, usize)>, expl: Option<Expl>) -> (v: VQuick)
        ensures
            v.list == list,
            v.layers@ == Seq::<VQuickLayer>::empty(),
            v.swapped == swapped,
            v.current is None,
            v.expl == expl,
            !v.fleeting,
    {
        VQuick { list, layers: Vec::new(), swapped, current: None, expl, fleeting: false }
    }

    /// Adds an enclosing region.
    pub fn layer(self, r: Range<usize>, p: Option<usize>) -> (v: VQuick)
        ensures
            v.list == self.list,
            v.layers@ == self.layers@.push(VQuickLayer { r, p }),
            v.swapped == self.swapped,
            v.current == self.current,
            v.expl == self.expl,
            v.fleeting == self.fleeting,
    {
        let mut v = self;
        v.layers.push(VQuickLayer { r, p });
        v
    }

    pub fn set_fleeting(self, value: bool) -> (v: VQuick)
        ensures
            v == (VQuick { fleeting: value, ..self }),
    {
        VQuick { fleeting: value, ..self }
    }

    pub fn current(self, current: Option<usize>) -> (v: VQuick)
        ensures
            v == (VQuick { current, ..self }),
    {
        VQuick { current, ..self }
    }

    /// The step, as it stands in the history, with the figures of `r`.
    pub fn into_snapshot(self, r: &RecorderState) -> (s: Snapshot)
        ensures
            s.kind == SnapshotKind::Quick(self),
            s.important == !self.fleeting,
            s.stats@ == r@,
    {
        Snapshot::new(SnapshotKind::Quick(self), r)
    }
}

/// What a step of the partition shows, with positions inside the partitioned
/// region.
pub struct PartitionView {
    pub expl: Expl,
    pub swapped: Option<(usize, usize)>,
    pub pivot: usize,
    pub fleeting: bool,
    pub current: Option<usize>,
}

impl PartitionView {
    /// A step that swapped `s1` and `s2`, with the pivot at `p`.
    pub fn new(expl: Expl, s1: usize, s2: usize, p: usize) -> (v: PartitionView)
        ensures
            v == (PartitionView {
                expl,
                swapped: Some((s1, s2)),
                pivot: p,
                fleeting: false,
                current: None,
            }),
    {
        PartitionView { expl, swapped: Some((s1, s2)), pivot: p, fleeting: false, current: None }
    }

    /// A step that swapped nothing, with the pivot at `p`.
    pub fn new2(expl: Expl, p: usize) -> (v: PartitionView)
        ensures
            v == (PartitionView { expl, swapped: None, pivot: p, fleeting: false, current: None }),
    {
        PartitionView { expl, swapped: None, pivot: p, fleeting: false, current: None }
    }

    pub fn fleeting(self) -> (v: PartitionView)
        ensures
            v == (PartitionView { fleeting: true, ..self }),
    {
        PartitionView { fleeting: true, ..self }
    }

    pub fn current(self, v: usize) -> (r: PartitionView)
        ensures
            r == (PartitionView { current: Some(v), ..self }),
    {
        PartitionView { current: Some(v), ..self }
    }
}

/// The quicksort view that step `st` shows.
pub open spec fn quick_view(st: Snapshot) -> VQuick {
    st.kind->Quick_0
}

/// Step `st` shows quicksort working on the region `[s, e)` with its pivot at
/// `pivot`, with the explanation `expl` and the swap `swapped`, given inside
/// the region.
pub open spec fn shows_region(
    st: Snapshot,
    s: int,
    e: int,
    pivot: int,
    expl: Expl,
    swapped: Option<(usize, usize)>,
) -> bool {
    let v = quick_view(st);
    &&& st.kind is Quick
    &&& v.layers@.len() >= 1
    &&& v.layers@[0].r.start == s
    &&& v.layers@[0].r.end == e
    &&& v.layers@[0].p == Some(pivot as usize)
    &&& v.expl == Some(expl)
    &&& v.swapped == swapped
}

/// The scan of a partition, from position `j` to `last`: each value below the
/// one at `last` is swapped to position `i`, which then moves on. Gives the
/// list it leaves and where `i` ends.
pub open spec fn lomuto_scan(y: Seq<usize>, i: int, j: int, last: int) -> (Seq<usize>, int)
    decreases last - j,
{
    if j >= last || j < 0 || last >= y.len() {
        (y, i)
    } else if y[j] < y[last] {
        if i == j {
            lomuto_scan(y, i + 1, j + 1, last)
        } else {
            lomuto_scan(swap_seq(y, i, j), i + 1, j + 1, last)
        }
    } else {
        lomuto_scan(y, i, j + 1, last)
    }
}

/// What partitioning the region `r` does: its middle value is swapped to the
/// end, the scan gathers the smaller values in front, and the pivot is swapped
/// back to just after them. Gives the region it leaves and the pivot's place.
#[verifier::opaque]
pub open spec fn lomuto(r: Seq<usize>) -> (Seq<usize>, int) {
    let last = r.len() - 1;
    let sc = lomuto_scan(swap_seq(r, (r.len() / 2) as int, last), 0, 0, last);
    (swap_seq(sc.0, sc.1, last), sc.1)
}

/// If step `k` chooses a pivot, it does so in the middle of a region `[s, e)`
/// of at least two values, and step `k + (e - s) + 1` ends that partition: it moves
/// the pivot back, shows the region as `lomuto` leaves it with the values
/// outside as they were, the smaller values before the pivot and the others
/// after it.
pub open spec fn region_partitioned(t: Seq<Snapshot>, k: int) -> bool {
    let v = quick_view(t[k]);
    let s = v.layers@[0].r.start as int;
    let e = v.layers@[0].r.end as int;
    let before = t[k].list_view();
    let after = t[k + (e - s) + 1].list_view();
    let p = s + lomuto(before.subrange(s, e)).1;
    (t[k].kind is Quick && v.layers@.len() >= 1 && v.expl == Some(Expl::ChosePivot)) ==> {
        &&& 2 <= e - s
        &&& e <= before.len()
        &&& k + (e - s) + 1 < t.len()
        &&& shows_region(t[k], s, e, s + (e - s) / 2, Expl::ChosePivot, None)
        &&& after.len() == before.len()
        &&& after.subrange(s, e) == lomuto(before.subrange(s, e)).0
        &&& forall|q: int| 0 <= q < before.len() && !(s <= q < e) ==> after[q] == before[q]
        &&& s <= p < e
        &&& forall|q: int| s <= q < p ==> #[trigger] after[q] < after[p]
        &&& forall|q: int| p < q < e ==> #[trigger] after[q] >= after[p]
        &&& shows_region(
            t[k + (e - s) + 1],
            s,
            e,
            p,
            Expl::MovedPivotBack,
            Some(((p - s) as usize, (e - s - 1) as usize)),
        )
    }
}

/// Step `st` chooses a pivot: it starts the partition of a region.
pub open spec fn chooses_pivot(st: Snapshot) -> bool {
    st.kind is Quick && quick_view(st).layers@.len() >= 1 && quick_view(st).expl == Some(
        Expl::ChosePivot,
    )
}

/// The region `[s, e)` that step `st` works on.
pub open spec fn region_of(st: Snapshot) -> (int, int) {
    (quick_view(st).layers@[0].r.start as int, quick_view(st).layers@[0].r.end as int)
}

/// The regions whose partition the steps of `t` start, in order.
pub open spec fn regions_chosen(t: Seq<Snapshot>) -> Seq<(int, int)>
    decreases t.len(),
{
    if t.len() == 0 {
        Seq::empty()
    } else if chooses_pivot(t.last()) {
        regions_chosen(t.drop_last()).push(region_of(t.last()))
    } else {
        regions_chosen(t.drop_last())
    }
}

/// The regions quicksort partitions when it sorts `y`, which stands at
/// position `off` of the list, in the order it partitions them: the whole
/// region first, then, recursively, what lies before the pivot and then what
/// lies after it. A region of fewer than two values is not partitioned.
pub open spec fn quick_order(y: Seq<usize>, off: int) -> Seq<(int, int)>
    decreases y.len(),
{
    let z = lomuto(y).0;
    let p = lomuto(y).1;
    if y.len() < 2 || !(0 <= p < y.len()) || z.len() != y.len() {
        Seq::empty()
    } else {
        seq![(off, off + y.len())] + quick_order(z.subrange(0, p), off) + quick_order(
            z.subrange(p + 1, y.len() as int),
            off + p + 1,
        )
    }
}

/// Step `st` shows quicksort exchanging two values.
pub open spec fn shows_exchange(st: Snapshot) -> bool {
    st.kind is Quick && quick_view(st).swapped is Some
}

/// How many steps of `t` show an exchange.
#[verifier::opaque]
pub open spec fn exchanges_shown(t: Seq<Snapshot>) -> nat
    decreases t.len(),
{
    if t.len() == 0 {
        0
    } else if shows_exchange(t.last()) {
        exchanges_shown(t.drop_last()) + 1
    } else {
        exchanges_shown(t.drop_last())
    }
}

/// A step adds one exchange to those shown when it shows one, none otherwise.
proof fn lemma_exchanges_push(t: Seq<Snapshot>, st: Snapshot)
    ensures
        exchanges_shown(t.push(st)) == exchanges_shown(t) + if shows_exchange(st) {
            1nat
        } else {
            0nat
        },
{
    reveal(exchanges_shown);
    assert(t.push(st).drop_last() =~= t);
}

/// Counting one more swap after `k` of them is counting `k + 1`.
proof fn lemma_bump_next(w: nat, k: nat)
    ensures
        crate::recorder::bump(crate::recorder::bump_by(w, k)) == crate::recorder::bump_by(w, k + 1),
{
}

/// Steps from position `m` on that start no partition add no region.
proof fn lemma_regions_tail(t: Seq<Snapshot>, m: int)
    requires
        0 <= m <= t.len(),
        forall|q: int| m <= q < t.len() ==> !chooses_pivot(#[trigger] t[q]),
    ensures
        regions_chosen(t) == regions_chosen(t.take(m)),
    decreases t.len(),
{
    if t.len() == m {
        assert(t.take(m) =~= t);
    } else {
        assert(!chooses_pivot(t[t.len() - 1]));
        assert(t.drop_last().take(m) =~= t.take(m));
        lemma_regions_tail(t.drop_last(), m);
    }
}

/// A partition adds its own region, and only that, to the regions chosen.
proof fn lemma_regions_partition(t0: Seq<Snapshot>, t1: Seq<Snapshot>, s: int, e: int)
    requires
        t1.len() > t0.len(),
        forall|k: int| 0 <= k < t0.len() ==> t1[k] == t0[k],
        shows_region(t1[t0.len() as int], s, e, s + (e - s) / 2, Expl::ChosePivot, None),
        forall|q: int|
            t0.len() < q < t1.len() ==> quick_view(#[trigger] t1[q]).expl != Some(Expl::ChosePivot),
    ensures
        regions_chosen(t1) == regions_chosen(t0).push((s, e)),
{
    let n = t0.len() as int;
    assert forall|q: int| n + 1 <= q < t1.len() implies !chooses_pivot(#[trigger] t1[q]) by {
        assert(quick_view(t1[q]).expl != Some(Expl::ChosePivot));
    }
    lemma_regions_tail(t1, n + 1);
    let u = t1.take(n + 1);
    assert(u.drop_last() =~= t0);
    assert(u.last() == t1[n]);
    assert(chooses_pivot(u.last()));
}

/// The regions quicksort chooses on a region of at least two values: the
/// region itself, then those of the part before the pivot as `lomuto` leaves
/// it, then those of the part after it.
proof fn lemma_order_split(
    xs: Seq<usize>,
    x1: Seq<usize>,
    x2: Seq<usize>,
    s: int,
    pivot: int,
    e: int,
)
    requires
        0 <= s <= pivot < e <= xs.len(),
        e - s >= 2,
        x1.len() == xs.len(),
        x2.len() == xs.len(),
        x1.subrange(s, e) == lomuto(xs.subrange(s, e)).0,
        pivot - s == lomuto(xs.subrange(s, e)).1,
        forall|k: int| 0 <= k < xs.len() && !(s <= k < pivot) ==> x2[k] == x1[k],
    ensures
        quick_order(xs.subrange(s, e), s) == seq![(s, e)] + quick_order(x1.subrange(s, pivot), s)
            + quick_order(x2.subrange(pivot + 1, e), pivot + 1),
{
    let y = xs.subrange(s, e);
    let z = lomuto(y).0;
    let p = lomuto(y).1;
    assert(z.len() == y.len());
    assert(z.subrange(0, p) =~= x1.subrange(s, pivot));
    assert(z.subrange(p + 1, y.len() as int) =~= x2.subrange(pivot + 1, e));
}

/// Each region partitioned shows at least two exchanges: the pivot moved to
/// the end and moved back.
proof fn lemma_exchanges_sorted(
    ex0: int,
    ex1: int,
    ex2: int,
    ex3: int,
    xs: Seq<usize>,
    x1: Seq<usize>,
    x2: Seq<usize>,
    s: int,
    pivot: int,
    e: int,
)
    requires
        0 <= s <= pivot < e <= xs.len(),
        e - s >= 2,
        x1.len() == xs.len(),
        x2.len() == xs.len(),
        x1.subrange(s, e) == lomuto(xs.subrange(s, e)).0,
        pivot - s == lomuto(xs.subrange(s, e)).1,
        forall|k: int| 0 <= k < xs.len() && !(s <= k < pivot) ==> x2[k] == x1[k],
        ex1 >= ex0 + 2,
        ex2 >= ex1 + 2 * quick_order(x1.subrange(s, pivot), s).len(),
        ex3 >= ex2 + 2 * quick_order(x2.subrange(pivot + 1, e), pivot + 1).len(),
    ensures
        ex3 >= ex0 + 2 * quick_order(xs.subrange(s, e), s).len(),
{
    lemma_order_split(xs, x1, x2, s, pivot, e);
}

/// Putting the regions of a partition and of its two sorts together.
proof fn lemma_regions_sorted(
    t0: Seq<Snapshot>,
    t1: Seq<Snapshot>,
    t2: Seq<Snapshot>,
    t3: Seq<Snapshot>,
    xs: Seq<usize>,
    x1: Seq<usize>,
    x2: Seq<usize>,
    s: int,
    pivot: int,
    e: int,
)
    requires
        0 <= s <= pivot < e <= xs.len(),
        e - s >= 2,
        x1.len() == xs.len(),
        x2.len() == xs.len(),
        x1.subrange(s, e) == lomuto(xs.subrange(s, e)).0,
        pivot - s == lomuto(xs.subrange(s, e)).1,
        forall|k: int| 0 <= k < xs.len() && !(s <= k < pivot) ==> x2[k] == x1[k],
        regions_chosen(t1) == regions_chosen(t0).push((s, e)),
        regions_chosen(t2) == regions_chosen(t1) + quick_order(x1.subrange(s, pivot), s),
        regions_chosen(t3) == regions_chosen(t2) + quick_order(
            x2.subrange(pivot + 1, e),
            pivot + 1,
        ),
    ensures
        regions_chosen(t3) == regions_chosen(t0) + quick_order(xs.subrange(s, e), s),
{
    lemma_order_split(xs, x1, x2, s, pivot, e);
    assert(regions_chosen(t3) =~= regions_chosen(t0) + quick_order(xs.subrange(s, e), s));
}

/// The facts of a partition stay when more steps follow.
pub proof fn lemma_partitioned_extend(t: Seq<Snapshot>, u: Seq<Snapshot>, k: int)
    requires
        0 <= k < t.len(),
        region_partitioned(t, k),
        u.len() >= t.len(),
        forall|q: int| 0 <= q < t.len() ==> u[q] == t[q],
    ensures
        region_partitioned(u, k),
{
    let v = quick_view(t[k]);
    let s = v.layers@[0].r.start as int;
    let e = v.layers@[0].r.end as int;
    assert(u[k] == t[k]);
    if t[k].kind is Quick && v.layers@.len() >= 1 && v.expl == Some(Expl::ChosePivot) {
        assert(u[k + (e - s) + 1] == t[k + (e - s) + 1]);
    }
}

/// The facts a partition establishes, put together.
proof fn lemma_partition_region(
    t: Seq<Snapshot>,
    k: int,
    s: int,
    e: int,
    p: int,
    before: Seq<usize>,
    after: Seq<usize>,
)
    requires
        0 <= k,
        k + (e - s) + 1 < t.len(),
        2 <= e - s,
        0 <= s,
        e <= before.len(),
        t[k].list_view() == before,
        t[k + (e - s) + 1].list_view() == after,
        shows_region(t[k], s, e, s + (e - s) / 2, Expl::ChosePivot, None),
        after.len() == before.len(),
        after.subrange(s, e) == lomuto(before.subrange(s, e)).0,
        p == s + lomuto(before.subrange(s, e)).1,
        forall|q: int| 0 <= q < before.len() && !(s <= q < e) ==> after[q] == before[q],
        s <= p < e,
        forall|q: int| s <= q < p ==> #[trigger] after[q] < after[p],
        forall|q: int| p < q < e ==> #[trigger] after[q] >= after[p],
        shows_region(
            t[k + (e - s) + 1],
            s,
            e,
            p,
            Expl::MovedPivotBack,
            Some(((p - s) as usize, (e - s - 1) as usize)),
        ),
    ensures
        region_partitioned(t, k),
{
}

/// The partition facts of three stretches of steps, each taken after the one
/// before, hold of the whole trace.
proof fn lemma_regions_join(t0: Seq<Snapshot>, t1: Seq<Snapshot>, t2: Seq<Snapshot>, t3: Seq<Snapshot>)
    requires
        t0.len() <= t1.len() <= t2.len() <= t3.len(),
        forall|q: int| 0 <= q < t1.len() ==> t2[q] == t1[q],
        forall|q: int| 0 <= q < t2.len() ==> t3[q] == t2[q],
        forall|q: int| t0.len() <= q < t1.len() ==> #[trigger] region_partitioned(t1, q),
        forall|q: int| t1.len() <= q < t2.len() ==> #[trigger] region_partitioned(t2, q),
        forall|q: int| t2.len() <= q < t3.len() ==> #[trigger] region_partitioned(t3, q),
    ensures
        forall|q: int| t0.len() <= q < t3.len() ==> #[trigger] region_partitioned(t3, q),
{
    assert forall|q: int| t0.len() <= q < t3.len() implies #[trigger] region_partitioned(t3, q) by {
        if q < t1.len() {
            lemma_partitioned_extend(t1, t2, q);
            lemma_partitioned_extend(t2, t3, q);
        } else if q < t2.len() {
            lemma_partitioned_extend(t2, t3, q);
        }
    }
}

/// Quicksort. Returns every step it takes.
pub fn sort(x: Vec<usize>, r: &mut RecorderState) -> (trace: Vec<Snapshot>)
    ensures
        run_ok(trace@, x@, old(r)@, final(r)@),
        lists_permute(trace@, 0, x@),
        crate::utils::steps_follow(trace@),
        all_quick(trace@),
        old(r)@.comparisons <= final(r)@.comparisons,
        final(r)@.comparisons <= crate::recorder::bump_by(
            old(r)@.comparisons,
            crate::sorter::pairs(x@.len()),
        ),
        forall|q: int| 0 <= q < trace@.len() ==> #[trigger] region_partitioned(trace@, q),
        x@.len() >= 2 ==> shows_region(
            trace@[1],
            0,
            x@.len() as int,
            (x@.len() / 2) as int,
            Expl::ChosePivot,
            None,
        ),
        regions_chosen(trace@) == quick_order(x@, 0),
        final(r)@.swaps == crate::recorder::bump_by(old(r)@.swaps, exchanges_shown(trace@)),
        exchanges_shown(trace@) >= 2 * quick_order(x@, 0).len(),
{
    let ghost x0 = x@;
    let ghost r0 = r@;
    let mut x = x;
    let l = x.len();
    let first = VQuick::new(copy_list(x.as_slice()), None, None).layer(0..l, None);
    let mut trace = start_steps(first.into_snapshot(r));
    let mut outer: Vec<(usize, usize, Option<usize>)> = Vec::new();
    outer.push((0, l, None));
    proof {
        crate::order::lemma_permutes_refl(x0);
        r.lemma_bounded();
        reveal_with_fuel(exchanges_shown, 2);
        assert(quick_view(trace@[0]).swapped is None);
        assert(exchanges_shown(trace@) == 0);
    }
    let ghost t0 = trace@;
    _sort(&mut x, 0, l, r, &mut trace, &outer, Ghost(x0), Ghost(r0));
    proof {
        assert(x@.subrange(0, l as int) =~= x@);
        assert(quick_view(t0[0]).expl is None);
        assert(region_partitioned(trace@, 0)) by {
            assert(trace@[0] == t0[0]);
        }
        assert(t0.drop_last() =~= Seq::<Snapshot>::empty());
        assert(!chooses_pivot(t0.last()));
        assert(regions_chosen(t0.drop_last()) =~= Seq::<(int, int)>::empty());
        assert(regions_chosen(t0) =~= Seq::<(int, int)>::empty());
        assert(x0.subrange(0, l as int) =~= x0);
        assert(regions_chosen(trace@) =~= quick_order(x0, 0));
    }
    trace
}

/// Sorts the region `[s, e)` of `x` in place. Each step is shown inside the
/// enclosing regions `outer`, innermost first.
#[verifier::spinoff_prover]
#[verifier::rlimit(100)]
fn _sort(
    x: &mut Vec<usize>,
    s: usize,
    e: usize,
    r: &mut RecorderState,
    trace: &mut Vec<Snapshot>,
    outer: &Vec<(usize, usize, Option<usize>)>,
    Ghost(x0): Ghost<Seq<usize>>,
    Ghost(r0): Ghost<RecorderView>,
)
    requires
        s <= e <= old(x)@.len(),
        permutes(old(x)@, x0),
        steps_ok(old(trace)@, x0, r0, old(r)@),
        old(trace)@.last().list_view() == old(x)@,
        all_quick(old(trace)@),
        old(r)@.swaps == crate::recorder::bump_by(r0.swaps, exchanges_shown(old(trace)@)),
    ensures
        all_quick(final(trace)@),
        final(r)@.swaps == crate::recorder::bump_by(r0.swaps, exchanges_shown(final(trace)@)),
        exchanges_shown(final(trace)@) >= exchanges_shown(old(trace)@) + 2 * quick_order(
            old(x)@.subrange(s as int, e as int),
            s as int,
        ).len(),
        final(x)@.len() == old(x)@.len(),
        permutes(final(x)@, x0),
        permutes(final(x)@.subrange(s as int, e as int), old(x)@.subrange(s as int, e as int)),
        forall|k: int|
            0 <= k < old(x)@.len() && !(s <= k < e) ==> final(x)@[k] == old(x)@[k],
        sorted(final(x)@.subrange(s as int, e as int)),
        steps_ok(final(trace)@, x0, r0, final(r)@),
        final(trace)@.last().list_view() == final(x)@,
        final(r)@.stack == old(r)@.stack,
        final(trace)@.len() >= old(trace)@.len(),
        forall|k: int| 0 <= k < old(trace)@.len() ==> final(trace)@[k] == old(trace)@[k],
        e - s <= 1 ==> final(trace)@ == old(trace)@,
        e - s >= 2 ==> final(trace)@.len() > old(trace)@.len() && shows_region(
            final(trace)@[old(trace)@.len() as int],
            s as int,
            e as int,
            s + (e - s) / 2,
            Expl::ChosePivot,
            None,
        ),
        old(r)@.comparisons <= final(r)@.comparisons,
        final(r)@.comparisons <= crate::recorder::bump_by(
            old(r)@.comparisons,
            crate::sorter::pairs((e - s) as nat),
        ),
        forall|q: int|
            old(trace)@.len() <= q < final(trace)@.len() ==> #[trigger] region_partitioned(
                final(trace)@,
                q,
            ),
        regions_chosen(final(trace)@) == regions_chosen(old(trace)@) + quick_order(
            old(x)@.subrange(s as int, e as int),
            s as int,
        ),
    decreases e - s,
{
    let ghost xs = x@;
    let ghost r_start = r@;
    let ghost t_start = trace@;
    proof {
        r.lemma_bounded();
    }
    r.f_push("quicksort");
    if e - s <= 1 {
        r.f_pop();
        proof {
            assert(crate::sorter::pairs(0) == 0);
            assert(crate::sorter::pairs((e - s) as nat) == 0);
            assert(r@.stack =~= r_start.stack);
            crate::order::lemma_permutes_refl(xs.subrange(s as int, e as int));
            assert(quick_order(xs.subrange(s as int, e as int), s as int) =~= Seq::empty());
            assert(regions_chosen(trace@) =~= regions_chosen(t_start) + Seq::empty());
        }
        return;
    }
    let pivot = s + partition(x, s, e, r, trace, outer, Ghost(x0), Ghost(r0));
    let ghost ex1 = exchanges_shown(trace@);
    let ghost x1 = x@;
    let ghost t1 = trace@;
    let ghost c1 = r@.comparisons;
    let mut inner: Vec<(usize, usize, Option<usize>)> = Vec::new();
    inner.push((s, e, Some(pivot)));
    let mut k: usize = 0;
    while k < outer.len()
        invariant
            k <= outer@.len(),
        decreases outer@.len() - k,
    {
        inner.push(outer[k]);
        k = k + 1;
    }
    _sort(x, s, pivot, r, trace, &inner, Ghost(x0), Ghost(r0));
    let ghost x2 = x@;
    let ghost t2 = trace@;
    let ghost c2 = r@.comparisons;
    _sort(x, pivot + 1, e, r, trace, &inner, Ghost(x0), Ghost(r0));
    let ghost x3 = x@;
    proof {
        lemma_combine(xs, x1, x2, x3, s as int, pivot as int, e as int);
        let n = (e - s) as nat;
        let a = (pivot - s) as nat;
        let b = (e - pivot - 1) as nat;
        crate::sorter::lemma_pairs_split(a, b);
        assert(crate::sorter::pairs(n) == (n - 1) + crate::sorter::pairs((n - 1) as nat));
        assert(c2 <= crate::recorder::bump_by(c1, crate::sorter::pairs(a)));
        assert(r@.comparisons <= crate::recorder::bump_by(c2, crate::sorter::pairs(b)));
        assert(trace@[t_start.len() as int] == t2[t_start.len() as int]);
        assert(t2[t_start.len() as int] == t1[t_start.len() as int]);
        assert forall|k: int| 0 <= k < t_start.len() implies trace@[k] == t_start[k] by {
            assert(trace@[k] == t2[k]);
            assert(t2[k] == t1[k]);
        }
        lemma_regions_join(t_start, t1, t2, trace@);
        lemma_regions_partition(t_start, t1, s as int, e as int);
        lemma_regions_sorted(t_start, t1, t2, trace@, xs, x1, x2, s as int, pivot as int, e as int);
        lemma_exchanges_sorted(
            exchanges_shown(t_start) as int,
            ex1 as int,
            exchanges_shown(t2) as int,
            exchanges_shown(trace@) as int,
            xs,
            x1,
            x2,
            s as int,
            pivot as int,
            e as int,
        );
    }
    r.f_pop();
    proof {
        assert(r@.stack =~= r_start.stack);
    }
}

/// The region `[s, e)` of `x3` is sorted and holds what `xs` held there, when
/// `x1` is `xs` partitioned around position `p`, `x2` is `x1` with `[s, p)`
/// sorted, and `x3` is `x2` with `(p, e)` sorted.
proof fn lemma_combine(
    xs: Seq<usize>,
    x1: Seq<usize>,
    x2: Seq<usize>,
    x3: Seq<usize>,
    s: int,
    pivot: int,
    e: int,
)
    requires
        0 <= s <= pivot < e <= xs.len(),
        x1.len() == xs.len() && x2.len() == xs.len() && x3.len() == xs.len(),
        permutes(x1.subrange(s, e), xs.subrange(s, e)),
        forall|k: int| s <= k < pivot ==> #[trigger] x1[k] < x1[pivot],
        forall|k: int| pivot < k < e ==> #[trigger] x1[k] >= x1[pivot],
        permutes(x2.subrange(s, pivot), x1.subrange(s, pivot)),
        sorted(x2.subrange(s, pivot)),
        forall|k: int| 0 <= k < xs.len() && !(s <= k < pivot) ==> x2[k] == x1[k],
        permutes(x3.subrange(pivot + 1, e), x2.subrange(pivot + 1, e)),
        sorted(x3.subrange(pivot + 1, e)),
        forall|k: int| 0 <= k < xs.len() && !(pivot + 1 <= k < e) ==> x3[k] == x2[k],
    ensures
        sorted(x3.subrange(s, e)),
        permutes(x3.subrange(s, e), xs.subrange(s, e)),
{
    assert forall|a: int| s <= a < pivot implies #[trigger] x2[a] < x1[pivot] by {
        let idx = crate::order::lemma_permutes_contains(x2.subrange(s, pivot), x1.subrange(s, pivot), a - s);
        assert(x2.subrange(s, pivot)[a - s] == x2[a]);
        assert(x1.subrange(s, pivot)[idx] == x1[s + idx]);
    }
    assert forall|a: int| pivot < a < e implies #[trigger] x3[a] >= x1[pivot] by {
        let idx = crate::order::lemma_permutes_contains(
            x3.subrange(pivot + 1, e),
            x2.subrange(pivot + 1, e),
            a - pivot - 1,
        );
        assert(x3.subrange(pivot + 1, e)[a - pivot - 1] == x3[a]);
        assert(x2.subrange(pivot + 1, e)[idx] == x2[pivot + 1 + idx]);
        assert(x2[pivot + 1 + idx] == x1[pivot + 1 + idx]);
    }
    assert(x3.subrange(s, pivot) =~= x2.subrange(s, pivot));
    let sub = x3.subrange(s, e);
    assert forall|a: int, b: int| 0 <= a <= b < sub.len() implies sub[a] <= sub[b] by {
        let aa = a + s;
        let bb = b + s;
        if bb < pivot {
            assert(x3.subrange(s, pivot)[a] <= x3.subrange(s, pivot)[b]);
        } else if aa > pivot {
            assert(x3.subrange(pivot + 1, e)[aa - pivot - 1] <= x3.subrange(
                pivot + 1,
                e,
            )[bb - pivot - 1]);
        } else {
            assert(x3[pivot] == x1[pivot]);
            assert(x3[aa] <= x1[pivot] || aa == pivot);
        }
    }
    // The whole region is a rearrangement of what it held on entry.
    let left1 = x1.subrange(s, pivot);
    let right1 = x1.subrange(pivot + 1, e);
    let left3 = x3.subrange(s, pivot);
    let right3 = x3.subrange(pivot + 1, e);
    assert(x1.subrange(s, e) =~= left1 + seq![x1[pivot]] + right1);
    assert(x3.subrange(s, e) =~= left3 + seq![x3[pivot]] + right3);
    assert(x2.subrange(s, pivot) =~= left3);
    assert(x2.subrange(pivot + 1, e) =~= right1);
    vstd::seq_lib::lemma_multiset_commutative(left1 + seq![x1[pivot]], right1);
    vstd::seq_lib::lemma_multiset_commutative(left3 + seq![x3[pivot]], right3);
    vstd::seq_lib::lemma_multiset_commutative(left1, seq![x1[pivot]]);
    vstd::seq_lib::lemma_multiset_commutative(left3, seq![x3[pivot]]);
    crate::order::lemma_permutes_trans(
        x3.subrange(s, e),
        x1.subrange(s, e),
        xs.subrange(s, e),
    );
}

/// Shows the step `view` of the partition of `[s, e)`: the whole list, the
/// region with its pivot, and the enclosing regions.
fn emit(
    view: PartitionView,
    x: &Vec<usize>,
    s: usize,
    e: usize,
    outer: &Vec<(usize, usize, Option<usize>)>,
    r: &RecorderState,
    trace: &mut Vec<Snapshot>,
    Ghost(x0): Ghost<Seq<usize>>,
    Ghost(r0): Ghost<RecorderView>,
)
    requires
        s + view.pivot < e <= x@.len(),
        permutes(x@, x0),
        steps_ok(old(trace)@, x0, r0, r@),
        old(trace)@.last().list_view().len() == x@.len(),
        match view.swapped {
            Some((a, b)) => s + a < e && s + b < e && x@ == swap_seq(
                old(trace)@.last().list_view(),
                s + a,
                s + b,
            ),
            None => x@ == old(trace)@.last().list_view(),
        },
        all_quick(old(trace)@),
    ensures
        all_quick(final(trace)@),
        steps_ok(final(trace)@, x0, r0, r@),
        final(trace)@.last().list_view() == x@,
        final(trace)@ == old(trace)@.push(final(trace)@.last()),
        shows_region(
            final(trace)@.last(),
            s as int,
            e as int,
            s + view.pivot,
            view.expl,
            view.swapped,
        ),
        exchanges_shown(final(trace)@) == exchanges_shown(old(trace)@) + if view.swapped is Some {
            1nat
        } else {
            0nat
        },
{
    let mut v = VQuick::new(copy_list(x.as_slice()), view.swapped, Some(view.expl)).layer(
        s..e,
        Some(s + view.pivot),
    ).current(view.current).set_fleeting(view.fleeting);
    let mut k: usize = 0;
    while k < outer.len()
        invariant
            k <= outer@.len(),
            v.list@ == x@,
            v.swapped == view.swapped,
            v.layers@.len() >= 1,
            v.layers@[0].r.start == s,
            v.layers@[0].r.end == e,
            v.layers@[0].p == Some((s + view.pivot) as usize),
            v.expl == Some(view.expl),
        decreases outer@.len() - k,
    {
        let (a, b, p) = outer[k];
        v = v.layer(a..b, p);
        k = k + 1;
    }
    let snap = v.into_snapshot(r);
    proof {
        let prev = trace@.last().list_view();
        assert(snap.list_view() == x@);
        match view.swapped {
            Some((a, b)) => {
                assert(crate::utils::swap_pair(snap) == Some((s + a, s + b)));
            },
            None => {
                assert(crate::utils::swap_pair(snap) is None);
            },
        }
    }
    let ghost t_before = trace@;
    push_step(trace, snap, Ghost(x0), Ghost(r0));
    proof {
        lemma_exchanges_push(t_before, snap);
    }
}

/// Partitions `[s, e)` around the value in its middle: afterwards the pivot
/// stands at the returned offset, smaller values before it and the others
/// after it.
#[verifier::spinoff_prover]
#[verifier::rlimit(80)]
fn partition(
    x: &mut Vec<usize>,
    s: usize,
    e: usize,
    r: &mut RecorderState,
    trace: &mut Vec<Snapshot>,
    outer: &Vec<(usize, usize, Option<usize>)>,
    Ghost(x0): Ghost<Seq<usize>>,
    Ghost(r0): Ghost<RecorderView>,
) -> (p: usize)
    requires
        s + 1 <= e <= old(x)@.len(),
        permutes(old(x)@, x0),
        steps_ok(old(trace)@, x0, r0, old(r)@),
        old(trace)@.last().list_view() == old(x)@,
        all_quick(old(trace)@),
        old(r)@.swaps == crate::recorder::bump_by(r0.swaps, exchanges_shown(old(trace)@)),
    ensures
        all_quick(final(trace)@),
        final(r)@.swaps == crate::recorder::bump_by(r0.swaps, exchanges_shown(final(trace)@)),
        exchanges_shown(final(trace)@) >= exchanges_shown(old(trace)@) + 2,
        s + p < e,
        final(x)@.len() == old(x)@.len(),
        permutes(final(x)@, x0),
        permutes(final(x)@.subrange(s as int, e as int), old(x)@.subrange(s as int, e as int)),
        forall|k: int|
            0 <= k < old(x)@.len() && !(s <= k < e) ==> final(x)@[k] == old(x)@[k],
        forall|k: int| s <= k < s + p ==> #[trigger] final(x)@[k] < final(x)@[s + p],
        forall|k: int| s + p < k < e ==> #[trigger] final(x)@[k] >= final(x)@[s + p],
        steps_ok(final(trace)@, x0, r0, final(r)@),
        final(trace)@.last().list_view() == final(x)@,
        final(r)@.stack == old(r)@.stack,
        counts_le(old(r)@, final(r)@),
        final(x)@[s + p] == old(x)@[s + (e - s) / 2],
        final(x)@.subrange(s as int, e as int) == lomuto(old(x)@.subrange(s as int, e as int)).0,
        p == lomuto(old(x)@.subrange(s as int, e as int)).1,
        final(trace)@.len() == old(trace)@.len() + (e - s) + 2,
        final(trace)@[old(trace)@.len() as int].list_view() == old(x)@,
        forall|q: int|
            old(trace)@.len() < q < final(trace)@.len() ==> #[trigger] region_partitioned(
                final(trace)@,
                q,
            ),
        e - s >= 2 ==> region_partitioned(final(trace)@, old(trace)@.len() as int),
        forall|q: int|
            old(trace)@.len() < q < final(trace)@.len() ==> quick_view(#[trigger] final(trace)@[q]).expl
                != Some(Expl::ChosePivot),
        final(r)@.comparisons == crate::recorder::bump_by(
            old(r)@.comparisons,
            (e - s - 1) as nat,
        ),
        final(trace)@.len() > old(trace)@.len() + 1,
        forall|k: int| 0 <= k < old(trace)@.len() ==> final(trace)@[k] == old(trace)@[k],
        shows_region(
            final(trace)@[old(trace)@.len() as int],
            s as int,
            e as int,
            s + (e - s) / 2,
            Expl::ChosePivot,
            None,
        ),
        shows_region(
            final(trace)@.last(),
            s as int,
            e as int,
            s + p,
            Expl::MovedPivotBack,
            Some((p, (e - s - 1) as usize)),
        ),
{
    let ghost xs = x@;
    let ghost r_start = r@;
    let ghost t_in = trace@;
    proof {
        r.lemma_bounded();
    }
    r.f_push("partition");
    let len = e - s;
    let last = len - 1;
    let pivot = len / 2;
    emit(PartitionView::new2(Expl::ChosePivot, pivot), x, s, e, outer, r, trace, Ghost(x0), Ghost(r0));
    let ghost t1 = trace@;
    proof {
        lemma_swap_permutes(x@, s + pivot, s + last);
        lemma_swap_in_range(x@, s as int, e as int, s + pivot, s + last);
    }
    proof {
        lemma_bump_next(r0.swaps, exchanges_shown(trace@));
    }
    r.swap(x, s + pivot, s + last);
    let ghost y0 = x@.subrange(s as int, e as int);
    let ghost target = lomuto_scan(y0, 0, 0, last as int);
    proof {
        assert(y0 =~= swap_seq(xs.subrange(s as int, e as int), pivot as int, last as int));
    }
    emit(
        PartitionView::new(Expl::MovedPivotToEnd, pivot, last, last),
        x,
        s,
        e,
        outer,
        r,
        trace,
        Ghost(x0),
        Ghost(r0),
    );
    let ghost ex1 = exchanges_shown(trace@);
    assert(ex1 == exchanges_shown(t_in) + 1);
    let ghost pv = x@[s + last];
    assert(pv == xs[s + pivot]);
    let mut i: usize = 0;
    let mut j: usize = 0;
    while j < last
        invariant
            s + 1 <= e <= x@.len(),
            lomuto_scan(x@.subrange(s as int, e as int), i as int, j as int, last as int) == target,
            len == e - s,
            last == len - 1,
            i <= j <= last,
            x@.len() == xs.len(),
            x@[s + last] == pv,
            forall|k: int| s <= k < s + i ==> #[trigger] x@[k] < pv,
            forall|k: int| s + i <= k < s + j ==> #[trigger] x@[k] >= pv,
            permutes(x@, x0),
            permutes(x@.subrange(s as int, e as int), xs.subrange(s as int, e as int)),
            forall|k: int| 0 <= k < xs.len() && !(s <= k < e) ==> x@[k] == xs[k],
            steps_ok(trace@, x0, r0, r@),
            trace@.last().list_view() == x@,
            r@.stack == r_start.stack.push("partition"),
            counts_le(r_start, r@),
            all_quick(trace@),
            r@.comparisons == crate::recorder::bump_by(r_start.comparisons, j as nat),
            trace@.len() >= t1.len(),
            forall|k: int| 0 <= k < t1.len() ==> trace@[k] == t1[k],
            trace@.len() == t1.len() + 1 + j,
            r@.swaps == crate::recorder::bump_by(r0.swaps, exchanges_shown(trace@)),
            exchanges_shown(trace@) >= ex1,
            forall|q: int|
                t_in.len() < q < trace@.len() ==> quick_view(#[trigger] trace@[q]).expl != Some(
                    Expl::ChosePivot,
                ),
        decreases last - j,
    {
        let ghost sub = x@.subrange(s as int, e as int);
        if r.lt(x[s + j], x[s + last]) {
            if i == j {
                emit(
                    PartitionView::new2(Expl::Partitioning, last).fleeting().current(j),
                    x,
                    s,
                    e,
                    outer,
                    r,
                    trace,
                    Ghost(x0),
                    Ghost(r0),
                );
            } else {
                proof {
                    lemma_swap_permutes(x@, s + i, s + j);
                    lemma_swap_in_range(x@, s as int, e as int, s + i, s + j);
                    crate::order::lemma_permutes_trans(
                        swap_seq(x@, s + i, s + j).subrange(s as int, e as int),
                        x@.subrange(s as int, e as int),
                        xs.subrange(s as int, e as int),
                    );
                }
                proof {
                    lemma_bump_next(r0.swaps, exchanges_shown(trace@));
                }
                r.swap(x, s + i, s + j);
                assert(x@.subrange(s as int, e as int) =~= swap_seq(sub, i as int, j as int));
                emit(
                    PartitionView::new(Expl::Partitioning, i, j, last),
                    x,
                    s,
                    e,
                    outer,
                    r,
                    trace,
                    Ghost(x0),
                    Ghost(r0),
                );
            }
            i = i + 1;
        } else {
            emit(
                PartitionView::new2(Expl::Partitioning, last).fleeting().current(j),
                x,
                s,
                e,
                outer,
                r,
                trace,
                Ghost(x0),
                Ghost(r0),
            );
        }
        j = j + 1;
    }
    proof {
        lemma_swap_permutes(x@, s + i, s + last);
        lemma_swap_in_range(x@, s as int, e as int, s + i, s + last);
        crate::order::lemma_permutes_trans(
            swap_seq(x@, s + i, s + last).subrange(s as int, e as int),
            x@.subrange(s as int, e as int),
            xs.subrange(s as int, e as int),
        );
    }
    let ghost tl = trace@;
    let ghost xl = x@;
    assert(lomuto_scan(x@.subrange(s as int, e as int), i as int, last as int, last as int) == (
    x@.subrange(s as int, e as int), i as int));
    proof {
        lemma_bump_next(r0.swaps, exchanges_shown(trace@));
    }
    r.swap(x, s + i, s + last);
    assert(x@.subrange(s as int, e as int) =~= swap_seq(xl.subrange(s as int, e as int), i as int, last as int));
    assert(x@[s + i] == pv);
    emit(
        PartitionView::new(Expl::MovedPivotBack, i, last, i),
        x,
        s,
        e,
        outer,
        r,
        trace,
        Ghost(x0),
        Ghost(r0),
    );
    r.f_pop();
    proof {
        assert(r@.stack =~= r_start.stack);
        assert(trace@[t_in.len() as int] == t1[t_in.len() as int]) by {
            assert(trace@[t_in.len() as int] == tl[t_in.len() as int]);
        }
        assert forall|k: int| 0 <= k < t_in.len() implies trace@[k] == t_in[k] by {
            assert(trace@[k] == tl[k]);
            assert(tl[k] == t1[k]);
        }
        reveal(lomuto);
        let k0 = t_in.len() as int;
        if e - s >= 2 {
            let kb = k0 + (e - s) + 1;
            assert(trace@[kb] == trace@.last());
            assert(trace@[k0] == t1[k0]);
            lemma_partition_region(trace@, k0, s as int, e as int, s + i, xs, x@);
        }
        assert forall|q: int| t_in.len() < q < trace@.len() implies #[trigger] region_partitioned(
            trace@,
            q,
        ) by {
            assert(quick_view(trace@[q]).expl != Some(Expl::ChosePivot));
        }
    }
    i
}

} // verus!
