use vstd::prelude::*;

use crate::recorder::{counts_le, RecorderState, RecorderView};
use crate::sorter::heap::Heap;
use crate::sorter::merge::VMerge;
use crate::sorter::quick::VQuick;

verus! {

/// The decimal digits of `n`, most significant first.
pub open spec fn decimal(n: nat) -> Seq<char>
    decreases n,
{
    if n < 10 {
        seq![((48 + n) as u8) as char]
    } else {
        decimal(n / 10).push(((48 + n % 10) as u8) as char)
    }
}

/// `n` written in decimal, through std's `ToString` for `usize`, which formats
/// an unsigned integer as its decimal digits without sign or padding.
#[verifier::external_body]
fn decimal_string(n: usize) -> (s: String)
    ensures
        s@ == decimal(n as nat),
{
    n.to_string()
}

/// A one-line explanation of what a step of an algorithm did.
#[derive(Copy, Clone, PartialEq, Eq, Structural, Debug)]
pub enum Expl {
    /// Shellsort starts a pass with this gap.
    Gap(usize),
    /// Shellsort looks at this index.
    Index(usize),
    /// Shellsort compares with the value it carries down.
    ComparingWith(usize),
    DidNothing,
    RestoredValue,
    MovingRoot,
    /// Heapsort will sift down the node that holds this value.
    NextSift(usize),
    /// Heapsort swapped because the first value is larger than the second.
    SwappedBecause(usize, usize),
    BuildingHeap,
    SiftingHeap,
    ChosePivot,
    MovedPivotToEnd,
    Partitioning,
    MovedPivotBack,
}

/// The text shown for an explanation.
pub open spec fn expl_text(e: Expl) -> Seq<char> {
    match e {
        Expl::Gap(g) => "Gap: "@ + decimal(g as nat),
        Expl::Index(i) => "i = "@ + decimal(i as nat),
        Expl::ComparingWith(v) => "Comparing with "@ + decimal(v as nat),
        Expl::DidNothing => "Did nothing"@,
        Expl::RestoredValue => "Restored value"@,
        Expl::MovingRoot => "Moving root to end of heap"@,
        Expl::NextSift(v) => "Next: sift heap at "@ + decimal(v as nat),
        Expl::SwappedBecause(a, b) => "Swapped because "@ + decimal(a as nat) + " > "@ + decimal(
            b as nat,
        ),
        Expl::BuildingHeap => "Building heap"@,
        Expl::SiftingHeap => "Sifting heap"@,
        Expl::ChosePivot => "Chose a pivot"@,
        Expl::MovedPivotToEnd => "Moved pivot to end"@,
        Expl::Partitioning => "Partitioning"@,
        Expl::MovedPivotBack => "Moved pivot back"@,
    }
}

impl Expl {
    /// The text shown for the explanation.
    pub fn text(&self) -> (s: String)
        ensures
            s@ == expl_text(*self),
    {
        match self {
            Expl::Gap(g) => String::from_str("Gap: ").concat(decimal_string(*g).as_str()),
            Expl::Index(i) => String::from_str("i = ").concat(decimal_string(*i).as_str()),
            Expl::ComparingWith(v) => String::from_str("Comparing with ").concat(
                decimal_string(*v).as_str(),
            ),
            Expl::DidNothing => String::from_str("Did nothing"),
            Expl::RestoredValue => String::from_str("Restored value"),
            Expl::MovingRoot => String::from_str("Moving root to end of heap"),
            Expl::NextSift(v) => String::from_str("Next: sift heap at ").concat(
                decimal_string(*v).as_str(),
            ),
            Expl::SwappedBecause(a, b) => String::from_str("Swapped because ").concat(
                decimal_string(*a).as_str(),
            ).concat(" > ").concat(decimal_string(*b).as_str()),
            Expl::BuildingHeap => String::from_str("Building heap"),
            Expl::SiftingHeap => String::from_str("Sifting heap"),
            Expl::ChosePivot => String::from_str("Chose a pivot"),
            Expl::MovedPivotToEnd => String::from_str("Moved pivot to end"),
            Expl::Partitioning => String::from_str("Partitioning"),
            Expl::MovedPivotBack => String::from_str("Moved pivot back"),
        }
    }
}

/// The width class of the cells that show a list of `item_len` values.
pub fn size_class(item_len: usize) -> (r: &'static str)
    ensures
        item_len < 16 ==> r@ == " z1"@,
        16 <= item_len < 24 ==> r@ == " z2"@,
        24 <= item_len < 40 ==> r@ == " z3"@,
        40 <= item_len < 56 ==> r@ == " z4"@,
        56 <= item_len ==> r@ == " z5"@,
{
    if item_len < 16 {
        " z1"
    } else if item_len < 24 {
        " z2"
    } else if item_len < 40 {
        " z3"
    } else if item_len < 56 {
        " z4"
    } else {
        " z5"
    }
}

/// Whether `a` and `b` hold the same characters.
pub fn str_eq(a: &str, b: &str) -> (r: bool)
    ensures
        r == (a@ == b@),
{
    let n = a.unicode_len();
    if n != b.unicode_len() {
        return false;
    }
    let mut i: usize = 0;
    while i < n
        invariant
            n == a@.len(),
            n == b@.len(),
            i <= n,
            a@.take(i as int) == b@.take(i as int),
        decreases n - i,
    {
        if a.get_char(i) != b.get_char(i) {
            assert(a@[i as int] != b@[i as int]);
            return false;
        }
        assert(a@.take(i + 1) =~= a@.take(i as int).push(a@[i as int]));
        assert(b@.take(i + 1) =~= b@.take(i as int).push(b@[i as int]));
        i = i + 1;
    }
    assert(a@ =~= a@.take(n as int));
    assert(b@ =~= b@.take(n as int));
    true
}

/// A fresh vector with the values of `x`.
pub fn copy_list(x: &[usize]) -> (r: Vec<usize>)
    ensures
        r@ == x@,
{
    let mut r: Vec<usize> = Vec::new();
    let mut i: usize = 0;
    while i < x.len()
        invariant
            i <= x@.len(),
            r@ == x@.take(i as int),
        decreases x@.len() - i,
    {
        r.push(x[i]);
        i = i + 1;
        assert(r@ =~= x@.take(i as int));
    }
    assert(r@ =~= x@);
    r
}

/// A step of a plain list: the list, and what to highlight in it.
pub struct VList {
    pub list: Vec<usize>,
    pub swapped: Option<(usize, usize)>,
    pub special: Option<usize>,
    pub current: Option<usize>,
    pub expl: Option<Expl>,
}

impl VList {
    pub fn new(x: &[usize]) -> (v: VList)
        ensures
            v.list@ == x@,
            v.swapped is None,
            v.special is None,
            v.current is None,
            v.expl is None,
    {
        VList { list: copy_list(x), swapped: None, special: None, current: None, expl: None }
    }

    pub fn swapped(self, s1: usize, s2: usize) -> (v: VList)
        ensures
            v == (VList { swapped: Some((s1, s2)), ..self }),
    {
        VList { swapped: Some((s1, s2)), ..self }
    }

    pub fn special(self, spc: usize) -> (v: VList)
        ensures
            v == (VList { special: Some(spc), ..self }),
    {
        VList { special: Some(spc), ..self }
    }

    pub fn current(self, cur: usize) -> (v: VList)
        ensures
            v == (VList { current: Some(cur), ..self }),
    {
        VList { current: Some(cur), ..self }
    }

    pub fn expl(self, expl: Expl) -> (v: VList)
        ensures
            v == (VList { expl: Some(expl), ..self }),
    {
        VList { expl: Some(expl), ..self }
    }

    /// The step, as it stands in the history, with the figures of `r`.
    pub fn into_snapshot(self, r: &RecorderState) -> (s: Snapshot)
        ensures
            s.kind == SnapshotKind::List(self),
            s.important,
            s.stats@ == r@,
    {
        Snapshot::new(SnapshotKind::List(self), r)
    }
}

/// A step of heapsort: the array, how many of its entries form the heap, and
/// what to highlight.
pub struct VHeap {
    pub heap: Vec<usize>,
    pub n: usize,
    pub swapped: Option<(usize, usize)>,
    pub heapifying: Option<usize>,
    pub expl: Vec<Expl>,
}

impl VHeap {
    pub fn new(heap: &Heap, swapped: Option<(usize, usize)>) -> (v: VHeap)
        ensures
            v.heap@ == heap.contents(),
            v.n == heap.size(),
            v.swapped == swapped,
            v.heapifying is None,
            v.expl@ == Seq::<Expl>::empty(),
    {
        VHeap {
            heap: copy_list(heap.repr()),
            n: heap.nodes(),
            swapped,
            heapifying: None,
            expl: Vec::new(),
        }
    }

    /// Marks the node that is about to be sifted down.
    pub fn now_heapifying(self, i: usize) -> (v: VHeap)
        ensures
            v.heap == self.heap,
            v.n == self.n,
            v.swapped == self.swapped,
            v.heapifying == Some(i),
            v.expl == self.expl,
    {
        VHeap { heapifying: Some(i), ..self }
    }

    /// Adds a line of explanation below those already there.
    pub fn expl(self, expl: Expl) -> (v: VHeap)
        ensures
            v.heap == self.heap,
            v.n == self.n,
            v.swapped == self.swapped,
            v.heapifying == self.heapifying,
            v.expl@ == self.expl@.push(expl),
    {
        let mut v = self;
        v.expl.push(expl);
        v
    }

    /// The step, as it stands in the history, with the figures of `r`.
    pub fn into_snapshot(self, r: &RecorderState) -> (s: Snapshot)
        ensures
            s.kind == SnapshotKind::Heap(self),
            s.important,
            s.stats@ == r@,
    {
        Snapshot::new(SnapshotKind::Heap(self), r)
    }
}

/// What a step shows.
pub enum SnapshotKind {
    List(VList),
    Heap(VHeap),
    Quick(VQuick),
    Merge(VMerge),
}

/// One step of a sorting algorithm, as the visualizer keeps it: what it shows,
/// whether the history keeps it, and the performance figures at that moment.
pub struct Snapshot {
    pub kind: SnapshotKind,
    pub important: bool,
    pub stats: RecorderState,
}

/// A step of a sorting algorithm, by a shorter name.
pub type Vew = Snapshot;

impl SnapshotKind {
    /// The list that the step shows.
    pub open spec fn list_view(&self) -> Seq<usize> {
        match self {
            SnapshotKind::List(v) => v.list@,
            SnapshotKind::Heap(v) => v.heap@,
            SnapshotKind::Quick(v) => v.list@,
            SnapshotKind::Merge(v) => v.current_state@,
        }
    }

    /// A step that only shows work in progress, which the history leaves out.
    pub open spec fn fleeting_view(&self) -> bool {
        match self {
            SnapshotKind::Quick(v) => v.fleeting,
            SnapshotKind::Merge(v) => v.fleeting_view(),
            _ => false,
        }
    }
}

impl Snapshot {
    /// The step with the figures of `r`; the history keeps it unless the
    /// step itself is only work in progress.
    pub fn new(kind: SnapshotKind, r: &RecorderState) -> (s: Snapshot)
        ensures
            s.kind == kind,
            s.important == !kind.fleeting_view(),
            s.stats@ == r@,
    {
        let important = match &kind {
            SnapshotKind::Quick(v) => !v.fleeting,
            SnapshotKind::Merge(v) => !v.is_fleeting(),
            _ => true,
        };
        Snapshot { kind, important, stats: r.copy() }
    }

    /// The list that the step shows.
    pub open spec fn list_view(&self) -> Seq<usize> {
        self.kind.list_view()
    }

    pub fn list(&self) -> (r: &[usize])
        ensures
            r@ == self.list_view(),
    {
        match &self.kind {
            SnapshotKind::List(v) => v.list.as_slice(),
            SnapshotKind::Heap(v) => v.heap.as_slice(),
            SnapshotKind::Quick(v) => v.list.as_slice(),
            SnapshotKind::Merge(v) => v.current_state.as_slice(),
        }
    }

    /// The two positions that the step has just swapped, if any.
    pub fn swapped(&self) -> (r: Option<(usize, usize)>)
        ensures
            r == match self.kind {
                SnapshotKind::List(v) => v.swapped,
                SnapshotKind::Heap(v) => v.swapped,
                SnapshotKind::Quick(v) => v.swapped,
                SnapshotKind::Merge(_) => None,
            },
    {
        match &self.kind {
            SnapshotKind::List(v) => v.swapped,
            SnapshotKind::Heap(v) => v.swapped,
            SnapshotKind::Quick(v) => v.swapped,
            SnapshotKind::Merge(_) => None,
        }
    }

    pub fn is_important(&self) -> (r: bool)
        ensures
            r == self.important,
    {
        self.important
    }

    /// The same step, left out of the history.
    pub fn fleeting(self) -> (s: Snapshot)
        ensures
            s.kind == self.kind,
            !s.important,
            s.stats == self.stats,
    {
        Snapshot { important: false, ..self }
    }
}

/// The recorded figures never go down along `trace`, and none is above `r`.
pub open spec fn trace_ok(trace: Seq<Snapshot>, r: RecorderView) -> bool {
    &&& forall|i: int, j: int|
        0 <= i <= j < trace.len() ==> counts_le(#[trigger] trace[i].stats@, #[trigger] trace[j].stats@)
    &&& forall|i: int| 0 <= i < trace.len() ==> counts_le(#[trigger] trace[i].stats@, r)
}

/// Every step after the first `from` shows a rearrangement of `x`.
pub open spec fn lists_permute(trace: Seq<Snapshot>, from: int, x: Seq<usize>) -> bool {
    forall|i: int|
        from <= i < trace.len() ==> crate::order::permutes(#[trigger] trace[i].list_view(), x)
}

/// The steps so far of a run on `x0` that started with the figures `r0`, now
/// at `r`: the first step shows `x0`, every step a rearrangement of `x0`, and
/// the figures never go down.
pub open spec fn steps_ok(trace: Seq<Snapshot>, x0: Seq<usize>, r0: RecorderView, r: RecorderView) -> bool {
    &&& trace.len() >= 1
    &&& stats_ok(trace, r0, r)
    &&& trace[0].list_view() == x0
    &&& lists_permute(trace, 0, x0)
    &&& steps_follow(trace)
}

/// The two positions, in the whole list, that step `s` highlights as just
/// swapped. Quicksort gives them inside the innermost region it shows.
pub open spec fn swap_pair(s: Snapshot) -> Option<(int, int)> {
    match s.kind {
        SnapshotKind::List(v) => match v.swapped {
            Some((a, b)) => Some((a as int, b as int)),
            None => None,
        },
        SnapshotKind::Heap(v) => match v.swapped {
            Some((a, b)) => Some((a as int, b as int)),
            None => None,
        },
        SnapshotKind::Quick(v) => match v.swapped {
            Some((a, b)) => {
                let start: int = if v.layers@.len() > 0 {
                    v.layers@[0].r.start as int
                } else {
                    0
                };
                Some((start + a, start + b))
            },
            None => None,
        },
        SnapshotKind::Merge(_) => None,
    }
}

/// Step `s` shows the list `prev` of the step before it with the two values
/// it highlights exchanged, or, when it highlights none, `prev` itself.
pub open spec fn follows(prev: Seq<usize>, s: Snapshot) -> bool {
    match swap_pair(s) {
        Some((a, b)) => 0 <= a < prev.len() && 0 <= b < prev.len() && s.list_view()
            == crate::order::swap_seq(prev, a, b),
        None => s.list_view() == prev,
    }
}

/// Every step was taken with the call stack `stack`.
pub open spec fn stacks_are(trace: Seq<Snapshot>, stack: Seq<&'static str>) -> bool {
    forall|k: int| 0 <= k < trace.len() ==> (#[trigger] trace[k]).stats@.stack == stack
}

/// Every step shows a plain list.
pub open spec fn all_lists(trace: Seq<Snapshot>) -> bool {
    forall|k: int| 0 <= k < trace.len() ==> #[trigger] trace[k].kind is List
}

/// Every step shows a heap.
pub open spec fn all_heaps(trace: Seq<Snapshot>) -> bool {
    forall|k: int| 0 <= k < trace.len() ==> #[trigger] trace[k].kind is Heap
}

/// What explanation `e` of the heap step `v` claims holds: a swap "because
/// `a > b`" exchanged the values `a` and `b`, the larger one indeed first, and
/// "next: sift heap at `w`" names the value of the node marked as next.
pub open spec fn heap_expl_true(v: VHeap, e: Expl) -> bool {
    match e {
        Expl::SwappedBecause(a, b) => a > b && match v.swapped {
            Some((p, q)) => p < v.heap@.len() && q < v.heap@.len() && v.heap@[p as int] == a
                && v.heap@[q as int] == b,
            None => false,
        },
        Expl::NextSift(w) => match v.heapifying {
            Some(h) => h < v.heap@.len() && v.heap@[h as int] == w,
            None => false,
        },
        _ => true,
    }
}

/// A heap step of the building or the sifting phase (its last explanation
/// names the phase) swaps a node with a child and gives the reason first: it
/// explains itself as "swapped because `a > b`", where `a` and `b` are the
/// values now at the parent and at the child, then "next: sift heap at" the
/// child's value, then the phase; and it marks the child as the next to sift.
#[verifier::opaque]
pub open spec fn sift_reason_given(v: VHeap) -> bool {
    (v.expl@.len() >= 1 && (v.expl@.last() == Expl::BuildingHeap || v.expl@.last()
        == Expl::SiftingHeap)) ==> match v.swapped {
        Some((p, c)) => {
            &&& p < v.heap@.len()
            &&& c < v.heap@.len()
            &&& (c == 2 * p + 1 || c == 2 * p + 2)
            &&& v.expl@.len() == 3
            &&& v.expl@[0] == Expl::SwappedBecause(v.heap@[p as int], v.heap@[c as int])
            &&& v.expl@[1] == Expl::NextSift(v.heap@[c as int])
            &&& v.heapifying == Some(c)
        },
        None => false,
    }
}

/// Every explanation of every heap step is true, and every step of the
/// building or sifting phase gives the reason for its swap.
pub open spec fn heap_expls_true(trace: Seq<Snapshot>) -> bool {
    &&& forall|k: int, i: int|
        0 <= k < trace.len() && (#[trigger] trace[k]).kind is Heap && 0 <= i
            < trace[k].kind->Heap_0.expl@.len() ==> heap_expl_true(
            trace[k].kind->Heap_0,
            #[trigger] trace[k].kind->Heap_0.expl@[i],
        )
    &&& forall|k: int|
        0 <= k < trace.len() && (#[trigger] trace[k]).kind is Heap ==> sift_reason_given(
            trace[k].kind->Heap_0,
        )
}

/// In a heapsort run whose explanations hold, every step of the building or
/// sifting phase swaps a node with one of its children, and explains the swap
/// by the two values now at the parent and at the child, the larger first,
/// then names the child's value as the next to sift.
pub proof fn lemma_sift_step_reason(trace: Seq<Snapshot>, k: int)
    requires
        heap_expls_true(trace),
        0 <= k < trace.len(),
        trace[k].kind is Heap,
        trace[k].kind->Heap_0.expl@.len() >= 1,
        trace[k].kind->Heap_0.expl@.last() == Expl::BuildingHeap
            || trace[k].kind->Heap_0.expl@.last() == Expl::SiftingHeap,
    ensures
        ({
            let v = trace[k].kind->Heap_0;
            match v.swapped {
                Some((p, c)) => {
                    &&& c == 2 * p + 1 || c == 2 * p + 2
                    &&& c < v.heap@.len()
                    &&& v.heap@[p as int] > v.heap@[c as int]
                    &&& v.expl@ == seq![
                        Expl::SwappedBecause(v.heap@[p as int], v.heap@[c as int]),
                        Expl::NextSift(v.heap@[c as int]),
                        v.expl@.last(),
                    ]
                },
                None => false,
            }
        }),
{
    let v = trace[k].kind->Heap_0;
    assert(sift_reason_given(v));
    reveal(sift_reason_given);
    assert(heap_expl_true(v, v.expl@[0]));
    assert(v.expl@ =~= seq![v.expl@[0], v.expl@[1], v.expl@[2]]);
}

/// Taking a step whose explanations are true keeps every explanation true.
pub proof fn lemma_expls_push(trace: Seq<Snapshot>, s: Snapshot)
    requires
        heap_expls_true(trace),
        s.kind is Heap ==> forall|i: int|
            0 <= i < s.kind->Heap_0.expl@.len() ==> heap_expl_true(
                s.kind->Heap_0,
                #[trigger] s.kind->Heap_0.expl@[i],
            ),
        s.kind is Heap ==> sift_reason_given(s.kind->Heap_0),
    ensures
        heap_expls_true(trace.push(s)),
{
    let t = trace.push(s);
    assert forall|k: int| 0 <= k < t.len() && (#[trigger] t[k]).kind is Heap implies sift_reason_given(
        t[k].kind->Heap_0,
    ) by {
        if k < trace.len() {
            assert(t[k] == trace[k]);
        }
    }
    assert forall|k: int, i: int|
        0 <= k < t.len() && (#[trigger] t[k]).kind is Heap && 0 <= i
            < t[k].kind->Heap_0.expl@.len() implies heap_expl_true(
        t[k].kind->Heap_0,
        #[trigger] t[k].kind->Heap_0.expl@[i],
    ) by {
        if k < trace.len() {
            assert(t[k] == trace[k]);
        }
    }
}

/// Every step shows quicksort's regions.
pub open spec fn all_quick(trace: Seq<Snapshot>) -> bool {
    forall|k: int| 0 <= k < trace.len() ==> #[trigger] trace[k].kind is Quick
}

/// Step `s` swaps two neighbouring values of `prev` that were out of order.
pub open spec fn fixes_adjacent(prev: Seq<usize>, s: Snapshot) -> bool {
    match swap_pair(s) {
        Some((a, b)) => b == a + 1 && 0 <= a && b < prev.len() && prev[a] > prev[b],
        None => false,
    }
}

/// Each step after the first swaps two neighbouring values that were out of
/// order in the step before.
pub open spec fn adjacent_steps(trace: Seq<Snapshot>) -> bool {
    forall|k: int|
        1 <= k < trace.len() ==> fixes_adjacent(trace[k - 1].list_view(), #[trigger] trace[k])
}

/// Taking a step that fixes a neighbouring pair of the last one, in a plain
/// list.
pub proof fn lemma_adjacent_push(trace: Seq<Snapshot>, s: Snapshot)
    requires
        trace.len() >= 1,
        adjacent_steps(trace),
        all_lists(trace),
        fixes_adjacent(trace.last().list_view(), s),
        s.kind is List,
    ensures
        adjacent_steps(trace.push(s)),
        all_lists(trace.push(s)),
{
    let t = trace.push(s);
    assert forall|k: int| 1 <= k < t.len() implies fixes_adjacent(
        t[k - 1].list_view(),
        #[trigger] t[k],
    ) by {
        if k < trace.len() {
            assert(t[k] == trace[k] && t[k - 1] == trace[k - 1]);
        } else {
            assert(t[k - 1] == trace.last());
        }
    }
    assert forall|k: int| 0 <= k < t.len() implies #[trigger] t[k].kind is List by {
        if k < trace.len() {
            assert(t[k] == trace[k]);
        }
    }
}

/// Each step after the first changes the list only by the swap it highlights.
pub open spec fn steps_follow(trace: Seq<Snapshot>) -> bool {
    forall|k: int| 1 <= k < trace.len() ==> follows(trace[k - 1].list_view(), #[trigger] trace[k])
}

/// The steps so far of a run that started with the figures `r0`, now at `r`:
/// the figures never go down.
pub open spec fn stats_ok(trace: Seq<Snapshot>, r0: RecorderView, r: RecorderView) -> bool {
    &&& trace_ok(trace, r)
    &&& forall|k: int| 0 <= k < trace.len() ==> counts_le(r0, #[trigger] trace[k].stats@)
    &&& counts_le(r0, r)
}

/// Taking one more step with the current figures.
pub proof fn lemma_stats_push(trace: Seq<Snapshot>, s: Snapshot, r0: RecorderView, r: RecorderView)
    requires
        stats_ok(trace, r0, r),
        s.stats@ == r,
    ensures
        stats_ok(trace.push(s), r0, r),
{
    lemma_trace_push(trace, s, r);
    let t = trace.push(s);
    assert forall|k: int| 0 <= k < t.len() implies counts_le(r0, #[trigger] t[k].stats@) by {
        if k < trace.len() {
            assert(t[k] == trace[k]);
        }
    }
}

/// The first step of a run.
pub proof fn lemma_steps_start(s: Snapshot, r0: RecorderView)
    requires
        s.stats@ == r0,
    ensures
        steps_ok(seq![s], s.list_view(), r0, r0),
{
    lemma_trace_push(Seq::empty(), s, r0);
    assert(seq![s] =~= Seq::<Snapshot>::empty().push(s));
    crate::order::lemma_permutes_refl(s.list_view());
    assert(steps_follow(seq![s]));
}

/// Taking one more step, which shows a rearrangement of `x0` with the current
/// figures.
pub proof fn lemma_steps_push(
    trace: Seq<Snapshot>,
    s: Snapshot,
    x0: Seq<usize>,
    r0: RecorderView,
    r: RecorderView,
)
    requires
        steps_ok(trace, x0, r0, r),
        s.stats@ == r,
        crate::order::permutes(s.list_view(), x0),
        follows(trace.last().list_view(), s),
    ensures
        steps_ok(trace.push(s), x0, r0, r),
{
    lemma_trace_push(trace, s, r);
    let t = trace.push(s);
    assert forall|k: int| 1 <= k < t.len() implies follows(t[k - 1].list_view(), #[trigger] t[k]) by {
        if k < trace.len() {
            assert(t[k] == trace[k] && t[k - 1] == trace[k - 1]);
        } else {
            assert(t[k - 1] == trace.last());
        }
    }
    assert(t[0] == trace[0]);
    assert forall|k: int| 0 <= k < t.len() implies counts_le(r0, #[trigger] t[k].stats@) by {
        if k < trace.len() {
            assert(t[k] == trace[k]);
        }
    }
    assert forall|k: int| 0 <= k < t.len() implies crate::order::permutes(
        #[trigger] t[k].list_view(),
        x0,
    ) by {
        if k < trace.len() {
            assert(t[k] == trace[k]);
        }
    }
}

/// Pushing a step with the current figures keeps `trace_ok`.
pub proof fn lemma_trace_push(trace: Seq<Snapshot>, s: Snapshot, r: RecorderView)
    requires
        trace_ok(trace, r),
        s.stats@ == r,
    ensures
        trace_ok(trace.push(s), r),
{
    let t = trace.push(s);
    assert forall|i: int, j: int| 0 <= i <= j < t.len() implies counts_le(
        #[trigger] t[i].stats@,
        #[trigger] t[j].stats@,
    ) by {
        if j == trace.len() {
            assert(t[i].stats@ == trace[i].stats@ || i == j);
        } else {
            assert(t[i] == trace[i] && t[j] == trace[j]);
        }
    }
    assert forall|i: int| 0 <= i < t.len() implies counts_le(#[trigger] t[i].stats@, r) by {
        if i < trace.len() {
            assert(t[i] == trace[i]);
        }
    }
}

/// The steps of a sort, handed out one at a time in the order they were taken.
pub struct Coro<Y> {
    rev: Vec<Y>,
    done: bool,
}

impl<Y> View for Coro<Y> {
    type V = Seq<Y>;

    /// The steps not yet handed out, next first.
    closed spec fn view(&self) -> Seq<Y> {
        if self.done {
            Seq::empty()
        } else {
            self.rev@.reverse()
        }
    }
}

/// What `next` does to the steps left, `left`: hands out the first and keeps
/// the rest, or hands out nothing and keeps nothing when none is left.
pub open spec fn next_step<Y>(left: Seq<Y>) -> (Option<Y>, Seq<Y>) {
    if left.len() > 0 {
        (Some(left[0]), left.drop_first())
    } else {
        (None, left)
    }
}

/// The steps left after `k` calls of `next` on a `Coro` made from `steps`.
pub open spec fn left_after<Y>(steps: Seq<Y>, k: nat) -> Seq<Y>
    decreases k,
{
    if k == 0 {
        steps
    } else {
        next_step(left_after(steps, (k - 1) as nat)).1
    }
}

/// Handing out steps over a whole run: the call of `next` after `k` others
/// hands out `steps[k]` while there is one, and `None` for ever after, the
/// steps left being those after the first `k`.
pub proof fn lemma_hand_out<Y>(steps: Seq<Y>, k: nat)
    ensures
        left_after(steps, k) == steps.skip(if k <= steps.len() { k as int } else { steps.len() as int }),
        next_step(left_after(steps, k)).0 == if k < steps.len() {
            Some(steps[k as int])
        } else {
            None::<Y>
        },
    decreases k,
{
    if k > 0 {
        lemma_hand_out(steps, (k - 1) as nat);
        let prev = left_after(steps, (k - 1) as nat);
        if k - 1 < steps.len() {
            assert(prev.drop_first() =~= steps.skip(k as int));
        } else {
            assert(prev =~= steps.skip(steps.len() as int));
        }
    } else {
        assert(steps.skip(0) =~= steps);
    }
}

impl<Y> Coro<Y> {
    pub fn new(steps: Vec<Y>) -> (c: Coro<Y>)
        ensures
            c@ == steps@,
    {
        let mut steps = steps;
        let ghost all = steps@;
        let mut rev: Vec<Y> = Vec::new();
        while steps.len() > 0
            invariant
                all == steps@ + rev@.reverse(),
            decreases steps.len(),
        {
            let ghost before = steps@;
            let y = steps.pop().unwrap();
            rev.push(y);
            assert(before == steps@.push(y));
            assert(rev@.reverse() =~= seq![y] + (rev@.drop_last()).reverse());
            assert(all =~= steps@ + rev@.reverse());
        }
        assert(steps@ =~= Seq::<Y>::empty());
        assert(all =~= rev@.reverse());
        Coro { rev, done: false }
    }

    /// The next step, or `None` once all have been handed out.
    pub fn next(&mut self) -> (r: Option<Y>)
        ensures
            (r, final(self)@) == next_step(old(self)@),
            old(self)@.len() > 0 ==> r == Some(old(self)@[0]) && final(self)@ == old(self)@.drop_first(),
            old(self)@.len() == 0 ==> r is None && final(self)@ == old(self)@,
    {
        if self.done {
            return None;
        }
        let ghost before = self.rev@;
        match self.rev.pop() {
            Some(y) => {
                assert(before.reverse().drop_first() =~= self.rev@.reverse());
                Some(y)
            },
            None => {
                self.done = true;
                None
            },
        }
    }
}

} // verus!
