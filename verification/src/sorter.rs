pub mod heap;
pub mod merge;
pub mod quick;
pub mod shell;

use vstd::prelude::*;

use crate::order::{lemma_swap_permutes, permutes, sorted, swap_seq};
use crate::recorder::{bump, bump_by, counts_le, RecorderState, RecorderView};
use crate::sorter::heap::{
    depth, heap_from, heap_ok_at, in_subtree, lemma_depth_child, lemma_depth_mono, lemma_heap_root_max,
    lemma_subtree_after, lemma_subtree_apart, lemma_subtree_child, lemma_subtree_root,
    lemma_subtree_root_max, lemma_subtree_split, Heap, Node,
};
use crate::utils::{
    adjacent_steps, all_heaps, all_lists, heap_expl_true, heap_expls_true, lemma_adjacent_push,
    sift_reason_given,
    lemma_expls_push, lemma_steps_push, lemma_steps_start, lists_permute, steps_ok, str_eq,
    stacks_are, trace_ok, Expl, Snapshot, VHeap, VList,
};

verus! {

/// The sorting algorithms that the tutor shows.
#[derive(Copy, Clone, PartialEq, Eq, Structural, Debug)]
pub enum Algorithm {
    Bubble,
    Selection,
    Insertion,
    Shell,
    Quick,
    Heap,
    Merge,
}

/// The name under which an algorithm is shown and chosen.
pub open spec fn algorithm_name(a: Algorithm) -> Seq<char> {
    match a {
        Algorithm::Bubble => "bubble"@,
        Algorithm::Selection => "selection"@,
        Algorithm::Insertion => "insertion"@,
        Algorithm::Shell => "shellsort"@,
        Algorithm::Heap => "heapsort"@,
        Algorithm::Quick => "quicksort"@,
        Algorithm::Merge => "mergesort"@,
    }
}

/// The algorithms in the order in which the tutor offers them.
pub open spec fn algorithm_list() -> Seq<Algorithm> {
    seq![
        Algorithm::Selection,
        Algorithm::Bubble,
        Algorithm::Insertion,
        Algorithm::Shell,
        Algorithm::Quick,
        Algorithm::Heap,
        Algorithm::Merge,
    ]
}

/// No two algorithms share a name.
pub proof fn lemma_algorithm_names_distinct(a: Algorithm, b: Algorithm)
    ensures
        algorithm_name(a) == algorithm_name(b) ==> a == b,
{
    reveal_strlit("bubble");
    reveal_strlit("selection");
    reveal_strlit("insertion");
    reveal_strlit("shellsort");
    reveal_strlit("heapsort");
    reveal_strlit("quicksort");
    reveal_strlit("mergesort");
    if algorithm_name(a) == algorithm_name(b) && a != b {
        assert(algorithm_name(a).len() == algorithm_name(b).len());
        assert(algorithm_name(a)[0] == algorithm_name(b)[0]);
        assert(algorithm_name(a)[1] == algorithm_name(b)[1]);
    }
}

/// The algorithms in the order in which the tutor offers them.
pub fn algorithms() -> (v: Vec<Algorithm>)
    ensures
        v@ == algorithm_list(),
{
    let mut v: Vec<Algorithm> = Vec::new();
    v.push(Algorithm::Selection);
    v.push(Algorithm::Bubble);
    v.push(Algorithm::Insertion);
    v.push(Algorithm::Shell);
    v.push(Algorithm::Quick);
    v.push(Algorithm::Heap);
    v.push(Algorithm::Merge);
    assert(v@ =~= algorithm_list());
    v
}

impl Default for Algorithm {
    fn default() -> (a: Algorithm)
        ensures
            a == Algorithm::Heap,
    {
        Algorithm::Heap
    }
}

impl Algorithm {
    /// The name under which the algorithm is shown and chosen.
    pub fn name(&self) -> (r: &'static str)
        ensures
            r@ == algorithm_name(*self),
    {
        match self {
            Algorithm::Bubble => "bubble",
            Algorithm::Selection => "selection",
            Algorithm::Insertion => "insertion",
            Algorithm::Shell => "shellsort",
            Algorithm::Heap => "heapsort",
            Algorithm::Quick => "quicksort",
            Algorithm::Merge => "mergesort",
        }
    }

    /// The algorithm named `s`, or the default one when no algorithm has that
    /// name.
    pub fn from_name(s: &str) -> (a: Algorithm)
        ensures
            forall|b: Algorithm| algorithm_name(b) == s@ ==> a == b,
            (forall|b: Algorithm| algorithm_name(b) != s@) ==> a == Algorithm::Heap,
    {
        let all = algorithms();
        let mut k: usize = 0;
        while k < all.len()
            invariant
                all@ == algorithm_list(),
                k <= all@.len(),
                forall|j: int| 0 <= j < k ==> algorithm_name(#[trigger] all@[j]) != s@,
            decreases all@.len() - k,
        {
            if str_eq(all[k].name(), s) {
                proof {
                    assert forall|b: Algorithm| algorithm_name(b) == s@ implies all@[k as int] == b by {
                        lemma_algorithm_names_distinct(all@[k as int], b);
                    }
                }
                return all[k];
            }
            k = k + 1;
        }
        proof {
            assert forall|b: Algorithm| algorithm_name(b) != s@ by {
                let j: int = match b {
                    Algorithm::Selection => 0,
                    Algorithm::Bubble => 1,
                    Algorithm::Insertion => 2,
                    Algorithm::Shell => 3,
                    Algorithm::Quick => 4,
                    Algorithm::Heap => 5,
                    Algorithm::Merge => 6,
                };
                assert(all@[j] == b);
            }
        }
        Algorithm::default()
    }

    /// Runs the algorithm on `x`, counting with `r`, and returns every step it
    /// takes. Selection sort needs a list that is not empty.
    #[verifier::spinoff_prover]
    pub fn func(&self, x: Vec<usize>, r: &mut RecorderState) -> (trace: Vec<Snapshot>)
        requires
            *self == Algorithm::Selection ==> x@.len() >= 1,
            *self == Algorithm::Heap ==> x@.len() <= usize::MAX / 2,
        ensures
            run_ok(trace@, x@, old(r)@, final(r)@),
            *self != Algorithm::Merge ==> lists_permute(trace@, 0, x@),
            *self != Algorithm::Merge ==> crate::utils::steps_follow(trace@),
            *self == Algorithm::Bubble ==> {
                &&& stacks_are(trace@, old(r)@.stack.push("bubble"))
                &&& all_lists(trace@)
                &&& adjacent_steps(trace@)
                &&& final(r)@.comparisons <= bump_by(old(r)@.comparisons, pairs(x@.len()))
                &&& final(r)@.swaps == bump_by(old(r)@.swaps, (trace@.len() - 1) as nat)
                &&& shows_swaps(trace@, bubble_swaps(x@))
            },
            *self == Algorithm::Insertion ==> {
                &&& stacks_are(trace@, old(r)@.stack.push("insertion"))
                &&& all_lists(trace@)
                &&& adjacent_steps(trace@)
                &&& shows_swaps(trace@, insertion_swaps(x@))
                &&& final(r)@.comparisons == bump_by(
                    old(r)@.comparisons,
                    insertion_swaps(x@).len() + insertion_stops(x@),
                )
                &&& final(r)@.comparisons <= bump_by(old(r)@.comparisons, pairs(x@.len()))
                &&& final(r)@.swaps == bump_by(old(r)@.swaps, (trace@.len() - 1) as nat)
            },
            *self == Algorithm::Selection ==> {
                &&& stacks_are(trace@, old(r)@.stack.push("selection"))
                &&& all_lists(trace@)
                &&& final(r)@.comparisons == bump_by(old(r)@.comparisons, pairs(x@.len()))
                &&& final(r)@.swaps == bump_by(old(r)@.swaps, (x@.len() - 1) as nat)
                &&& forall|a: int|
                    0 <= a < x@.len() - 1 ==> selection_swap_ok(
                        #[trigger] trace@[selection_swap_at(x@.len(), a as nat)],
                        a,
                        x@.len() as int,
                    )
                &&& forall|a: int, j: int|
                    0 <= a < j < x@.len() ==> selection_look_ok(
                        #[trigger] trace@[selection_look_at(x@.len(), a as nat, j)],
                        a,
                        j,
                    )
            },
            *self == Algorithm::Shell ==> {
                &&& all_lists(trace@)
                &&& stacks_are(trace@, old(r)@.stack.push("shell"))
                &&& shell::gap_marks(trace@) == shell::gaps_below(shell::ciura(), x@.len())
                &&& shell::swaps_span_gaps(trace@)
                &&& shell::passes_sorted(trace@)
                &&& shell::swaps_shown(trace@) == shell::shell_swaps(x@)
                &&& shell::indices_marked(trace@)
                &&& shell::index_marks(trace@) == shell::pass_positions(
                    shell::gaps_below(shell::ciura(), x@.len()),
                    x@.len(),
                )
            },
            *self == Algorithm::Heap ==> {
                &&& all_heaps(trace@)
                &&& heap_expls_true(trace@)
                &&& exists|b: int| heap_phases(trace@, b)
                &&& final(r)@.swaps == bump_by(old(r)@.swaps, (trace@.len() - 1) as nat)
                &&& final(r)@.comparisons <= bump_by(old(r)@.comparisons, heap_compares(x@.len()))
                &&& steps_swap(trace@, 1, heap_run(x@).1)
                &&& final(r)@.comparisons == bump_by(old(r)@.comparisons, heap_run(x@).2)
            },
            *self == Algorithm::Quick ==> {
                &&& crate::utils::all_quick(trace@)
                &&& forall|q: int|
                    0 <= q < trace@.len() ==> #[trigger] quick::region_partitioned(trace@, q)
                &&& quick::regions_chosen(trace@) == quick::quick_order(x@, 0)
                &&& final(r)@.swaps == bump_by(old(r)@.swaps, quick::exchanges_shown(trace@))
                &&& quick::exchanges_shown(trace@) >= 2 * quick::quick_order(x@, 0).len()
                &&& final(r)@.comparisons <= bump_by(old(r)@.comparisons, pairs(x@.len()))
            },
            *self == Algorithm::Merge ==> {
                &&& trace@[0].kind is List
                &&& forall|k: int| 1 <= k < trace@.len() ==> #[trigger] trace@[k].kind is Merge
                &&& forall|k: int|
                    1 <= k < trace@.len() ==> merge::merge_step_shape(#[trigger] trace@[k])
                &&& forall|k: int| 1 <= k < trace@.len() ==> #[trigger] merge::in_merge(trace@, k)
                &&& forall|k: int|
                    1 <= k < trace@.len() ==> merge::shows_over(#[trigger] trace@[k], x@)
                &&& final(r)@.swaps == bump_by(old(r)@.swaps, merge::sort_moves(x@.len()))
                &&& final(r)@.comparisons <= bump_by(
                    old(r)@.comparisons,
                    merge::sort_compares(x@.len()),
                )
            },
    {
        match self {
            Algorithm::Bubble => bubble(x, r),
            Algorithm::Selection => selection(x, r),
            Algorithm::Insertion => insertion(x, r),
            Algorithm::Shell => shell::sort(x, r),
            Algorithm::Heap => heap(x, r),
            Algorithm::Quick => quick::sort(x, r),
            Algorithm::Merge => merge::sort(x, r),
        }
    }
}

/// What every sort guarantees of its run on `x`, starting from the figures
/// `r0` and ending with `r1`: the first step shows `x`, the last step shows
/// `x` sorted, the figures never go down, and the call stack is as it was.
pub open spec fn run_ok(trace: Seq<Snapshot>, x: Seq<usize>, r0: RecorderView, r1: RecorderView) -> bool {
    &&& trace.len() >= 1
    &&& trace[0].list_view() == x
    &&& sorted(trace.last().list_view())
    &&& permutes(trace.last().list_view(), x)
    &&& trace_ok(trace, r1)
    &&& forall|k: int| 0 <= k < trace.len() ==> counts_le(r0, #[trigger] trace[k].stats@)
    &&& counts_le(r0, r1)
    &&& r1.stack == r0.stack
}

/// Sorting has one outcome: two runs on the same list, of the same algorithm
/// or of two different ones, end with the same list.
pub proof fn lemma_runs_agree(
    t1: Seq<Snapshot>,
    t2: Seq<Snapshot>,
    x: Seq<usize>,
    r0: RecorderView,
    r1: RecorderView,
    r2: RecorderView,
    r3: RecorderView,
)
    requires
        run_ok(t1, x, r0, r1),
        run_ok(t2, x, r2, r3),
    ensures
        t1.last().list_view() == t2.last().list_view(),
{
    crate::order::lemma_permutes_trans(t1.last().list_view(), x, t2.last().list_view());
    crate::order::lemma_sorted_unique(t1.last().list_view(), t2.last().list_view());
}

/// Pushes `s`, a rearrangement of `x0` taken with the figures `r`.
pub(crate) fn push_step(
    trace: &mut Vec<Snapshot>,
    s: Snapshot,
    Ghost(x0): Ghost<Seq<usize>>,
    Ghost(r0): Ghost<RecorderView>,
)
    requires
        steps_ok(old(trace)@, x0, r0, s.stats@),
        permutes(s.list_view(), x0),
        crate::utils::follows(old(trace)@.last().list_view(), s),
    ensures
        steps_ok(final(trace)@, x0, r0, s.stats@),
        final(trace)@ == old(trace)@.push(s),
        final(trace)@.last() == s,
{
    proof {
        lemma_steps_push(trace@, s, x0, r0, s.stats@);
    }
    trace.push(s);
}

/// Starts a trace with its first step.
pub(crate) fn start_steps(s: Snapshot) -> (trace: Vec<Snapshot>)
    ensures
        trace@ == seq![s],
        steps_ok(trace@, s.list_view(), s.stats@, s.stats@),
        trace@.last() == s,
{
    proof {
        lemma_steps_start(s, s.stats@);
    }
    let mut trace: Vec<Snapshot> = Vec::new();
    trace.push(s);
    assert(trace@ =~= seq![s]);
    trace
}

/// The number of pairs `(i, j)` with `i < j < n`: `0 + 1 + ... + (n - 1)`.
pub open spec fn pairs(n: nat) -> nat
    decreases n,
{
    if n == 0 {
        0
    } else {
        ((n - 1) as nat) + pairs((n - 1) as nat)
    }
}

/// More positions give more pairs.
pub proof fn lemma_pairs_mono(m: nat, n: nat)
    requires
        m <= n,
    ensures
        pairs(m) <= pairs(n),
    decreases n,
{
    if m < n {
        lemma_pairs_mono(m, (n - 1) as nat);
    }
}

/// Splitting positions into two groups loses the pairs across them.
pub proof fn lemma_pairs_split(a: nat, b: nat)
    ensures
        pairs(a) + pairs(b) <= pairs(a + b),
    decreases b,
{
    if b > 0 {
        lemma_pairs_split(a, (b - 1) as nat);
        assert(pairs(a + b) == (a + b - 1) + pairs((a + b - 1) as nat));
    }
}

/// The steps after the first show, in order, the swaps of the neighbours at
/// `sw[k]` and `sw[k] + 1`, one step each.
pub open spec fn shows_swaps(trace: Seq<Snapshot>, sw: Seq<int>) -> bool {
    &&& trace.len() == sw.len() + 1
    &&& forall|k: int|
        0 <= k < sw.len() ==> crate::utils::swap_pair(trace[k + 1]) == Some((#[trigger] sw[k], sw[k] + 1))
}

/// One more step showing the swap at `a` and `a + 1`.
pub proof fn lemma_shows_swaps_push(trace: Seq<Snapshot>, sw: Seq<int>, s: Snapshot, a: int)
    requires
        shows_swaps(trace, sw),
        crate::utils::swap_pair(s) == Some((a, a + 1)),
    ensures
        shows_swaps(trace.push(s), sw.push(a)),
{
    let t = trace.push(s);
    let w = sw.push(a);
    assert forall|k: int| 0 <= k < w.len() implies crate::utils::swap_pair(t[k + 1]) == Some(
        (#[trigger] w[k], w[k] + 1),
    ) by {
        if k < sw.len() {
            assert(t[k + 1] == trace[k + 1]);
            assert(w[k] == sw[k]);
        }
    }
}

/// One left-to-right pass of bubble sort, from the pair at `i - 1` and `i` up to
/// the pair ending at `n - 1`: the list it leaves and, in order, the left
/// positions of the neighbours it swaps because they were out of order.
pub open spec fn bubble_pass(x: Seq<usize>, i: nat, n: nat) -> (Seq<usize>, Seq<int>)
    decreases n - i,
{
    if i >= n || i >= x.len() || i == 0 {
        (x, Seq::empty())
    } else if x[i - 1] > x[i as int] {
        let rest = bubble_pass(swap_seq(x, i - 1, i as int), i + 1, n);
        (rest.0, seq![i - 1].add(rest.1))
    } else {
        bubble_pass(x, i + 1, n)
    }
}

/// The swaps of bubble sort's passes over the first `n` values and then each
/// one shorter, stopping after a pass that swaps nothing.
pub open spec fn bubble_run(x: Seq<usize>, n: nat) -> Seq<int>
    decreases n,
{
    let p = bubble_pass(x, 1, n);
    if n == 0 || p.1.len() == 0 {
        Seq::empty()
    } else {
        p.1 + bubble_run(p.0, (n - 1) as nat)
    }
}

/// The swaps bubble sort makes on `x`, in order.
pub open spec fn bubble_swaps(x: Seq<usize>) -> Seq<int> {
    bubble_run(x, x.len())
}

/// Bubble sort. Returns every step it takes. Each pass is one shorter than
/// the one before, and the sort stops after a pass that swapped nothing, so a
/// sorted list costs one pass.
#[verifier::spinoff_prover]
#[verifier::rlimit(40)]
pub fn bubble(x: Vec<usize>, r: &mut RecorderState) -> (trace: Vec<Snapshot>)
    ensures
        run_ok(trace@, x@, old(r)@, final(r)@),
        lists_permute(trace@, 0, x@),
        crate::utils::steps_follow(trace@),
        final(r)@.calls == bump(old(r)@.calls),
        final(r)@.comparisons <= bump_by(old(r)@.comparisons, pairs(x@.len())),
        old(r)@.comparisons <= final(r)@.comparisons,
        all_lists(trace@),
        adjacent_steps(trace@),
        final(r)@.swaps == bump_by(old(r)@.swaps, (trace@.len() - 1) as nat),
        stacks_are(trace@, old(r)@.stack.push("bubble")),
        shows_swaps(trace@, bubble_swaps(x@)),
        sorted(x@) ==> {
            &&& trace@.len() == 1
            &&& final(r)@.comparisons == bump_by(
                old(r)@.comparisons,
                if x@.len() == 0 {
                    0
                } else {
                    (x@.len() - 1) as nat
                },
            )
        },
{
    let ghost x0 = x@;
    let ghost r0 = r@;
    let mut x = x;
    let len = x.len();
    proof {
        r.lemma_bounded();
    }
    r.f_push("bubble");
    let ghost r_in = r@;
    let mut trace = start_steps(VList::new(x.as_slice()).into_snapshot(r));
    let mut n = len;
    let ghost mut done: Seq<int> = Seq::empty();
    proof {
        lemma_pairs_mono(n as nat, len as nat);
        assert(done + bubble_run(x@, n as nat) =~= bubble_swaps(x0));
    }
    loop
        invariant_except_break
            done + bubble_run(x@, n as nat) == bubble_swaps(x0),
            r@.comparisons == bump_by(r0.comparisons, (pairs(len as nat) - pairs(n as nat)) as nat),
        invariant
            n <= len,
            x@.len() == len,
            permutes(x@, x0),
            forall|a: int, b: int| n <= a <= b < len ==> x@[a] <= x@[b],
            forall|a: int, b: int| 0 <= a < n <= b < len ==> x@[a] <= x@[b],
            steps_ok(trace@, x0, r0, r@),
            trace@.last().list_view() == x@,
            r@.stack == r0.stack.push("bubble"),
            stacks_are(trace@, r0.stack.push("bubble")),
            r@.calls == r_in.calls,
            pairs(len as nat) >= pairs(n as nat),
            all_lists(trace@),
            adjacent_steps(trace@),
            r@.swaps == bump_by(r0.swaps, (trace@.len() - 1) as nat),
            sorted(x0) ==> n == len && x@ == x0 && trace@.len() == 1,
            shows_swaps(trace@, done),
        ensures
            shows_swaps(trace@, bubble_swaps(x0)),
            r@.comparisons <= bump_by(r0.comparisons, pairs(len as nat)),
            r0.comparisons <= r@.comparisons,
            sorted(x0) ==> trace@.len() == 1 && r@.comparisons == bump_by(
                r0.comparisons,
                if len == 0 {
                    0
                } else {
                    (len - 1) as nat
                },
            ),
            all_lists(trace@),
            adjacent_steps(trace@),
            r@.swaps == bump_by(r0.swaps, (trace@.len() - 1) as nat),
            x@.len() == len,
            permutes(x@, x0),
            sorted(x@),
            steps_ok(trace@, x0, r0, r@),
            trace@.last().list_view() == x@,
            r@.stack == r0.stack.push("bubble"),
            stacks_are(trace@, r0.stack.push("bubble")),
            r@.calls == r_in.calls,
        decreases n,
    {
        let mut work_done = false;
        let mut i: usize = 1;
        let ghost pass0 = x@;
        let ghost mut pd: Seq<int> = Seq::empty();
        proof {
            assert(pd + bubble_pass(x@, 1, n as nat).1 =~= bubble_pass(pass0, 1, n as nat).1);
        }
        while i < n
            invariant
                pd + bubble_pass(x@, i as nat, n as nat).1 == bubble_pass(pass0, 1, n as nat).1,
                bubble_pass(x@, i as nat, n as nat).0 == bubble_pass(pass0, 1, n as nat).0,
                work_done == (pd.len() > 0),
                shows_swaps(trace@, done + pd),
                1 <= i,
                n <= len,
                i <= n || n == 0,
                x@.len() == len,
                permutes(x@, x0),
                forall|a: int, b: int| n <= a <= b < len ==> x@[a] <= x@[b],
                forall|a: int, b: int| 0 <= a < n <= b < len ==> x@[a] <= x@[b],
                forall|a: int| 0 <= a < i && i <= n ==> #[trigger] x@[a] <= x@[i - 1],
                !work_done ==> forall|a: int, b: int| 0 <= a <= b < i && b < n ==> x@[a] <= x@[b],
                sorted(x0) && n == len ==> !work_done && x@ == x0 && trace@.len() == 1,
                sorted(x0) ==> n == len,
                steps_ok(trace@, x0, r0, r@),
                trace@.last().list_view() == x@,
                r@.stack == r0.stack.push("bubble"),
                stacks_are(trace@, r0.stack.push("bubble")),
                r@.calls == r_in.calls,
                pairs(len as nat) >= pairs(n as nat),
                n > 0 ==> r@.comparisons == bump_by(
                    r0.comparisons,
                    (pairs(len as nat) - pairs(n as nat) + i - 1) as nat,
                ),
                n == 0 ==> r@.comparisons == bump_by(
                    r0.comparisons,
                    (pairs(len as nat) - pairs(n as nat)) as nat,
                ),
                all_lists(trace@),
                adjacent_steps(trace@),
                r@.swaps == bump_by(r0.swaps, (trace@.len() - 1) as nat),
            decreases n - i,
        {
            let ghost xb = x@;
            if r.gt(x[i - 1], x[i]) {
                proof {
                    lemma_swap_permutes(x@, i - 1, i as int);
                }
                r.swap(&mut x, i - 1, i);
                work_done = true;
                let s = VList::new(x.as_slice()).swapped(i - 1, i).into_snapshot(r);
                proof {
                    lemma_adjacent_push(trace@, s);
                    lemma_shows_swaps_push(trace@, done + pd, s, i - 1);
                    let rest = bubble_pass(x@, (i + 1) as nat, n as nat);
                    assert(bubble_pass(xb, i as nat, n as nat).1 == seq![i - 1].add(rest.1));
                    assert((done + pd).push(i - 1) =~= done + pd.push(i - 1));
                    assert(pd.push(i - 1) + rest.1 =~= pd + seq![i - 1].add(rest.1));
                    pd = pd.push(i - 1);
                }
                push_step(&mut trace, s, Ghost(x0), Ghost(r0));
            } else {
                proof {
                    if !work_done {
                        assert forall|a: int, b: int| 0 <= a <= b < i + 1 && b < n implies x@[a]
                            <= x@[b] by {
                            if b == i && a < i {
                                assert(x@[a] <= x@[i - 1]);
                            }
                        }
                    }
                }
            }
            i = i + 1;
        }
        proof {
            assert(bubble_pass(x@, i as nat, n as nat).1 =~= Seq::<int>::empty());
            assert(pd =~= bubble_pass(pass0, 1, n as nat).1);
            assert(x@ == bubble_pass(pass0, 1, n as nat).0);
        }
        if !work_done || n == 0 {
            proof {
                assert(bubble_run(pass0, n as nat) =~= Seq::<int>::empty());
                assert(done + pd =~= bubble_swaps(x0));
                assert(pairs(0) == 0);
                if n > 0 {
                    assert(pairs(n as nat) == (n - 1) + pairs((n - 1) as nat));
                    assert forall|a: int, b: int| 0 <= a <= b < len implies x@[a] <= x@[b] by {
                        if b < n {
                        } else if a >= n {
                        }
                    }
                }
            }
            break;
        }
        proof {
            assert(bubble_run(pass0, n as nat) == pd + bubble_run(x@, (n - 1) as nat));
            assert(done + pd + bubble_run(x@, (n - 1) as nat) =~= done + (pd + bubble_run(
                x@,
                (n - 1) as nat,
            )));
            done = done + pd;
            assert(pairs(n as nat) == (n - 1) + pairs((n - 1) as nat));
            lemma_pairs_mono((n - 1) as nat, len as nat);
            assert forall|a: int, b: int| n - 1 <= a <= b < len implies x@[a] <= x@[b] by {
                if a == n - 1 && b >= n {
                    assert(x@[a] <= x@[b]);
                }
            }
        }
        n = n - 1;
    }
    r.f_pop();
    proof {
        assert(r@.stack =~= r0.stack);
    }
    trace
}

/// Where selection sort of `n` values shows the swap of pass `a`: after the
/// first step, each pass `q` shows one step per comparison, `n - q - 1` of
/// them, and then its swap.
pub open spec fn selection_swap_at(n: nat, a: nat) -> int {
    pairs(n) - pairs((n - a - 1) as nat) + a + 1
}

/// Where selection sort of `n` values shows pass `a` looking at position `j`.
pub open spec fn selection_look_at(n: nat, a: nat, j: int) -> int {
    selection_swap_at(n, a) - n + j
}

/// The step `s` of pass `a` looking at position `j`: work in progress that the
/// history leaves out, with no swap, `j` as the current position and as the
/// special one the smallest value's position so far, the first of equal ones.
pub open spec fn selection_look_ok(s: Snapshot, a: int, j: int) -> bool {
    &&& s.kind is List
    &&& !s.important
    &&& s.kind->List_0.swapped is None
    &&& s.kind->List_0.current == Some(j as usize)
    &&& s.kind->List_0.special matches Some(m) && a <= m <= j && (forall|q: int|
        a <= q <= j ==> s.list_view()[m as int] <= #[trigger] s.list_view()[q])
}

/// The step `s` of pass `a` swaps position `a` with a later one, and shows the
/// first `a + 1` values sorted and none of them above a value after them.
pub open spec fn selection_swap_ok(s: Snapshot, a: int, n: int) -> bool {
    &&& s.kind is List
    &&& s.important
    &&& s.kind->List_0.swapped matches Some((p, m)) && s.kind->List_0.special == Some(m)
    &&& s.kind->List_0.swapped matches Some((p, m)) && p == a && a <= m && m < n
    &&& forall|p: int, q: int| 0 <= p <= q <= a ==> s.list_view()[p] <= s.list_view()[q]
    &&& forall|p: int, q: int| 0 <= p <= a < q < n ==> s.list_view()[p] <= s.list_view()[q]
}

/// Selection sort. Returns every step it takes; the list must not be empty.
/// It compares every pair of positions once and swaps once per position but
/// the last.
#[verifier::spinoff_prover]
#[verifier::rlimit(80)]
pub fn selection(x: Vec<usize>, r: &mut RecorderState) -> (trace: Vec<Snapshot>)
    requires
        x@.len() >= 1,
    ensures
        run_ok(trace@, x@, old(r)@, final(r)@),
        lists_permute(trace@, 0, x@),
        crate::utils::steps_follow(trace@),
        final(r)@.calls == bump(old(r)@.calls),
        final(r)@.comparisons == bump_by(old(r)@.comparisons, pairs(x@.len())),
        final(r)@.swaps == bump_by(old(r)@.swaps, (x@.len() - 1) as nat),
        all_lists(trace@),
        trace@.len() == 1 + pairs(x@.len()) + (x@.len() - 1),
        stacks_are(trace@, old(r)@.stack.push("selection")),
        forall|a: int|
            0 <= a < x@.len() - 1 ==> selection_swap_ok(
                #[trigger] trace@[selection_swap_at(x@.len(), a as nat)],
                a,
                x@.len() as int,
            ),
        forall|k: int|
            0 <= k < trace@.len() && (#[trigger] trace@[k]).kind->List_0.swapped is Some ==> exists|
                a: int,
            |
                0 <= a < x@.len() - 1 && k == #[trigger] selection_swap_at(x@.len(), a as nat),
        forall|a: int, j: int|
            0 <= a < j < x@.len() ==> selection_look_ok(
                #[trigger] trace@[selection_look_at(x@.len(), a as nat, j)],
                a,
                j,
            ),
{
    let ghost x0 = x@;
    let ghost r0 = r@;
    let mut x = x;
    let len = x.len();
    proof {
        r.lemma_bounded();
    }
    r.f_push("selection");
    let ghost r_in = r@;
    let mut trace = start_steps(VList::new(x.as_slice()).into_snapshot(r));
    let mut i: usize = 0;
    proof {
        lemma_pairs_mono(len as nat, len as nat);
    }
    while i < len - 1
        invariant
            len >= 1,
            i <= len - 1,
            x@.len() == len,
            permutes(x@, x0),
            forall|a: int, b: int| 0 <= a <= b < i ==> x@[a] <= x@[b],
            forall|a: int, b: int| 0 <= a < i <= b < len ==> x@[a] <= x@[b],
            steps_ok(trace@, x0, r0, r@),
            trace@.last().list_view() == x@,
            r@.stack == r0.stack.push("selection"),
            stacks_are(trace@, r0.stack.push("selection")),
            r@.calls == r_in.calls,
            pairs(len as nat) >= pairs((len - i) as nat),
            r@.comparisons == bump_by(r0.comparisons, (pairs(len as nat) - pairs((len - i) as nat)) as nat),
            r@.swaps == bump_by(r0.swaps, i as nat),
            all_lists(trace@),
            trace@.len() == 1 + (pairs(len as nat) - pairs((len - i) as nat)) + i,
            forall|a: int|
                0 <= a < i ==> selection_swap_ok(
                    #[trigger] trace@[selection_swap_at(len as nat, a as nat)],
                    a,
                    len as int,
                ),
            forall|k: int|
                0 <= k < trace@.len() && (#[trigger] trace@[k]).kind->List_0.swapped is Some
                    ==> exists|a: int|
                    0 <= a < i && k == #[trigger] selection_swap_at(len as nat, a as nat),
            forall|a: int| 0 <= a < i ==> 0 <= #[trigger] selection_swap_at(len as nat, a as nat) < trace@.len(),
            forall|a: int, j: int|
                0 <= a < i && a < j < len ==> 0 <= #[trigger] selection_look_at(len as nat, a as nat, j)
                    < trace@.len() && selection_look_ok(
                    trace@[selection_look_at(len as nat, a as nat, j)],
                    a,
                    j,
                ),
        decreases len - 1 - i,
    {
        let mut min = i;
        let mut j = i + 1;
        proof {
            assert(pairs((len - i) as nat) == (len - i - 1) + pairs((len - i - 1) as nat));
            assert forall|a: int, q: int|
                ((0 <= a < i && a < q < len) || (a == i && i < q < j)) implies 0 <= #[trigger] selection_look_at(
                len as nat,
                a as nat,
                q,
            ) < trace@.len() && selection_look_ok(
                trace@[selection_look_at(len as nat, a as nat, q)],
                a,
                q,
            ) by {
                if a < i {
                    assert(0 <= #[trigger] selection_look_at(len as nat, a as nat, q) < trace@.len());
                }
            }
        }
        while j < len
            invariant
                i < len - 1,
                i < j <= len,
                i <= min < j,
                x@.len() == len,
                permutes(x@, x0),
                forall|a: int, b: int| 0 <= a <= b < i ==> x@[a] <= x@[b],
                forall|a: int, b: int| 0 <= a < i <= b < len ==> x@[a] <= x@[b],
                forall|k: int| i <= k < j ==> x@[min as int] <= #[trigger] x@[k],
                steps_ok(trace@, x0, r0, r@),
                trace@.last().list_view() == x@,
                r@.stack == r0.stack.push("selection"),
                stacks_are(trace@, r0.stack.push("selection")),
                r@.calls == r_in.calls,
                pairs(len as nat) >= pairs((len - i) as nat),
                r@.comparisons == bump_by(
                    r0.comparisons,
                    (pairs(len as nat) - pairs((len - i) as nat) + (j - i - 1)) as nat,
                ),
                r@.swaps == bump_by(r0.swaps, i as nat),
                all_lists(trace@),
                trace@.len() == 1 + (pairs(len as nat) - pairs((len - i) as nat)) + i + (j - i - 1),
                forall|a: int|
                    0 <= a < i ==> selection_swap_ok(
                        #[trigger] trace@[selection_swap_at(len as nat, a as nat)],
                        a,
                        len as int,
                    ),
                forall|k: int|
                    0 <= k < trace@.len() && (#[trigger] trace@[k]).kind->List_0.swapped is Some
                        ==> exists|a: int|
                        0 <= a < i && k == #[trigger] selection_swap_at(len as nat, a as nat),
                forall|a: int| 0 <= a < i ==> 0 <= #[trigger] selection_swap_at(len as nat, a as nat) < trace@.len(),
                forall|a: int, q: int|
                    ((0 <= a < i && a < q < len) || (a == i && i < q < j)) ==> 0 <= #[trigger] selection_look_at(
                        len as nat,
                        a as nat,
                        q,
                    ) < trace@.len() && selection_look_ok(
                        trace@[selection_look_at(len as nat, a as nat, q)],
                        a,
                        q,
                    ),
                trace@.len() == selection_look_at(len as nat, i as nat, j as int),
            decreases len - j,
        {
            if r.lt(x[j], x[min]) {
                min = j;
            }
            let s = VList::new(x.as_slice()).current(j).special(min).into_snapshot(r).fleeting();
            let ghost tb = trace@;
            push_step(&mut trace, s, Ghost(x0), Ghost(r0));
            proof {
                assert(selection_look_ok(s, i as int, j as int));
                assert forall|a: int, q: int|
                    ((0 <= a < i && a < q < len) || (a == i && i < q < j + 1)) implies 0
                    <= #[trigger] selection_look_at(len as nat, a as nat, q) < trace@.len() && selection_look_ok(
                    trace@[selection_look_at(len as nat, a as nat, q)],
                    a,
                    q,
                ) by {
                    if a == i && q == j {
                        assert(trace@[selection_look_at(len as nat, a as nat, q)] == s);
                    } else {
                        assert(trace@[selection_look_at(len as nat, a as nat, q)] == tb[selection_look_at(len as nat, a as nat, q)]);
                    }
                }
                assert forall|a: int| 0 <= a < i implies selection_swap_ok(
                    #[trigger] trace@[selection_swap_at(len as nat, a as nat)],
                    a,
                    len as int,
                ) by {
                    assert(trace@[selection_swap_at(len as nat, a as nat)] == tb[selection_swap_at(len as nat, a as nat)]);
                }
                assert forall|k: int|
                    0 <= k < trace@.len() && (#[trigger] trace@[k]).kind->List_0.swapped is Some implies exists|a: int|
                    0 <= a < i && k == #[trigger] selection_swap_at(len as nat, a as nat) by {
                    if k < tb.len() {
                        assert(trace@[k] == tb[k]);
                    }
                }
            }
            j = j + 1;
        }
        proof {
            lemma_swap_permutes(x@, i as int, min as int);
            assert(pairs((len - i) as nat) == (len - i - 1) + pairs((len - i - 1) as nat));
            lemma_pairs_mono((len - i - 1) as nat, len as nat);
        }
        r.swap(&mut x, i, min);
        proof {
            assert forall|a: int, b: int| 0 <= a <= b < i + 1 implies x@[a] <= x@[b] by {}
            assert forall|a: int, b: int| 0 <= a < i + 1 <= b < len implies x@[a] <= x@[b] by {}
        }
        let s = VList::new(x.as_slice()).swapped(i, min).special(min).into_snapshot(r);
        let ghost tb = trace@;
        proof {
            assert(tb.len() == selection_swap_at(len as nat, i as nat));
            assert(selection_swap_ok(s, i as int, len as int));
        }
        push_step(&mut trace, s, Ghost(x0), Ghost(r0));
        proof {
            let here = selection_swap_at(len as nat, i as nat);
            assert(trace@[here] == s);
            assert forall|a: int| 0 <= a < i + 1 implies selection_swap_ok(
                #[trigger] trace@[selection_swap_at(len as nat, a as nat)],
                a,
                len as int,
            ) by {
                if a < i {
                    assert(trace@[selection_swap_at(len as nat, a as nat)] == tb[selection_swap_at(len as nat, a as nat)]);
                }
            }
            assert forall|k: int|
                0 <= k < trace@.len() && (#[trigger] trace@[k]).kind->List_0.swapped is Some implies exists|a: int|
                0 <= a < i + 1 && k == #[trigger] selection_swap_at(len as nat, a as nat) by {
                if k < tb.len() {
                    assert(trace@[k] == tb[k]);
                } else {
                    let w: int = i as int;
                    assert(k == selection_swap_at(len as nat, w as nat));
                }
            }
            assert forall|a: int, q: int|
                0 <= a < i + 1 && a < q < len implies 0 <= #[trigger] selection_look_at(
                len as nat,
                a as nat,
                q,
            ) < trace@.len() && selection_look_ok(
                trace@[selection_look_at(len as nat, a as nat, q)],
                a,
                q,
            ) by {
                assert(trace@[selection_look_at(len as nat, a as nat, q)] == tb[selection_look_at(len as nat, a as nat, q)]);
            }
        }
        i = i + 1;
    }
    proof {
        assert(pairs(1) == 0 + pairs(0));
        assert forall|a: int, b: int| 0 <= a <= b < len implies x@[a] <= x@[b] by {
            if b == len - 1 && a < len - 1 {
                assert(x@[a] <= x@[b]);
            }
        }
    }
    r.f_pop();
    proof {
        assert(r@.stack =~= r0.stack);
    }
    trace
}

/// Sinking the value at `j` into the sorted values before it: while the value
/// before it is larger, the two are swapped. Gives the list it leaves and, in
/// order, the left positions of the swaps.
pub open spec fn insertion_sink(x: Seq<usize>, j: nat) -> (Seq<usize>, Seq<int>)
    decreases j,
{
    if j == 0 || j >= x.len() || !(x[j - 1] > x[j as int]) {
        (x, Seq::empty())
    } else {
        let rest = insertion_sink(swap_seq(x, j - 1, j as int), (j - 1) as nat);
        (rest.0, seq![j - 1].add(rest.1))
    }
}

/// The swaps of insertion sort sinking the values at `i`, `i + 1`, up to
/// `n - 1`, one after another.
pub open spec fn insertion_from(x: Seq<usize>, i: nat, n: nat) -> Seq<int>
    decreases n - i,
{
    if i == 0 || i >= n {
        Seq::empty()
    } else {
        let p = insertion_sink(x, i);
        p.1 + insertion_from(p.0, i + 1, n)
    }
}

/// The swaps insertion sort makes on `x`, in order.
pub open spec fn insertion_swaps(x: Seq<usize>) -> Seq<int> {
    insertion_from(x, 1, x.len())
}

/// Whether sinking the value at `j` stops on a neighbour that is no larger
/// (1) rather than at the front of the list (0): a sink that stops there
/// makes one comparison more than it makes swaps.
pub open spec fn sink_stops(x: Seq<usize>, j: nat) -> nat
    decreases j,
{
    if j == 0 || j >= x.len() {
        0
    } else if !(x[j - 1] > x[j as int]) {
        1
    } else {
        sink_stops(swap_seq(x, j - 1, j as int), (j - 1) as nat)
    }
}

/// How many of the sinks of the values at `i`, `i + 1`, up to `n - 1` stop on
/// a neighbour that is no larger.
pub open spec fn insertion_stops_from(x: Seq<usize>, i: nat, n: nat) -> nat
    decreases n - i,
{
    if i == 0 || i >= n {
        0
    } else {
        sink_stops(x, i) + insertion_stops_from(insertion_sink(x, i).0, i + 1, n)
    }
}

/// How many of insertion sort's sinks on `x` stop on a neighbour that is no
/// larger, each at the cost of one comparison that swaps nothing.
pub open spec fn insertion_stops(x: Seq<usize>) -> nat {
    insertion_stops_from(x, 1, x.len())
}

/// Sinking the value at `j` (not the first) stops on a neighbour no larger
/// exactly when it does not reach the front of the list: it then costs one
/// comparison more than its swaps, and as many as its swaps when it reaches
/// the front.
pub proof fn lemma_sink_stops(x: Seq<usize>, j: nat)
    requires
        1 <= j < x.len(),
    ensures
        sink_stops(x, j) <= 1,
        insertion_sink(x, j).1.len() <= j,
        sink_stops(x, j) == 1 <==> insertion_sink(x, j).1.len() < j,
    decreases j,
{
    if x[j - 1] > x[j as int] {
        let y = swap_seq(x, j - 1, j as int);
        let rest = insertion_sink(y, (j - 1) as nat);
        assert(insertion_sink(x, j) == (rest.0, seq![j - 1].add(rest.1)));
        assert(sink_stops(x, j) == sink_stops(y, (j - 1) as nat));
        if j > 1 {
            lemma_sink_stops(y, (j - 1) as nat);
        } else {
            assert(rest.1 =~= Seq::<int>::empty());
            assert(sink_stops(y, 0) == 0);
        }
    } else {
        assert(insertion_sink(x, j).1 =~= Seq::<int>::empty());
    }
}

/// Insertion sort's sinks stop on a neighbour no larger at most once per
/// value after the first, and exactly once per such value on a sorted list.
pub proof fn lemma_insertion_stops(x: Seq<usize>)
    requires
        x.len() >= 1,
    ensures
        insertion_stops(x) <= x.len() - 1,
        sorted(x) ==> insertion_stops(x) == x.len() - 1,
{
    lemma_stops_from(x, 1, x.len());
}

proof fn lemma_stops_from(x: Seq<usize>, i: nat, n: nat)
    requires
        1 <= i <= n,
        n == x.len(),
    ensures
        insertion_stops_from(x, i, n) <= n - i,
        sorted(x) ==> insertion_stops_from(x, i, n) == n - i,
    decreases n - i,
{
    if i < n {
        lemma_sink_stops(x, i);
        let y = insertion_sink(x, i).0;
        lemma_sink_len(x, i);
        lemma_stops_from(y, i + 1, n);
        if sorted(x) {
            assert(x[i - 1] <= x[i as int]);
            assert(y == x);
        }
    }
}

proof fn lemma_sink_len(x: Seq<usize>, j: nat)
    ensures
        insertion_sink(x, j).0.len() == x.len(),
    decreases j,
{
    if !(j == 0 || j >= x.len() || !(x[j - 1] > x[j as int])) {
        lemma_sink_len(swap_seq(x, j - 1, j as int), (j - 1) as nat);
    }
}

/// Insertion sort. Returns every step it takes.
#[verifier::spinoff_prover]
#[verifier::rlimit(40)]
pub fn insertion(x: Vec<usize>, r: &mut RecorderState) -> (trace: Vec<Snapshot>)
    ensures
        run_ok(trace@, x@, old(r)@, final(r)@),
        lists_permute(trace@, 0, x@),
        crate::utils::steps_follow(trace@),
        final(r)@.calls == bump(old(r)@.calls),
        all_lists(trace@),
        adjacent_steps(trace@),
        final(r)@.swaps == bump_by(old(r)@.swaps, (trace@.len() - 1) as nat),
        stacks_are(trace@, old(r)@.stack.push("insertion")),
        shows_swaps(trace@, insertion_swaps(x@)),
        old(r)@.comparisons <= final(r)@.comparisons,
        final(r)@.comparisons <= bump_by(old(r)@.comparisons, pairs(x@.len())),
        final(r)@.comparisons == bump_by(
            old(r)@.comparisons,
            insertion_swaps(x@).len() + insertion_stops(x@),
        ),
        sorted(x@) ==> {
            &&& trace@.len() == 1
            &&& final(r)@.swaps == old(r)@.swaps
            &&& final(r)@.comparisons == bump_by(
                old(r)@.comparisons,
                if x@.len() == 0 {
                    0
                } else {
                    (x@.len() - 1) as nat
                },
            )
        },
{
    let ghost x0 = x@;
    let ghost r0 = r@;
    let mut x = x;
    let len = x.len();
    proof {
        r.lemma_bounded();
    }
    r.f_push("insertion");
    let ghost r_in = r@;
    let mut trace = start_steps(VList::new(x.as_slice()).into_snapshot(r));
    let mut i: usize = 1;
    let ghost mut done: Seq<int> = Seq::empty();
    let ghost mut stops: nat = 0;
    proof {
        assert(pairs(0) == 0 && pairs(1) == 0);
        assert(done + insertion_from(x@, 1, len as nat) =~= insertion_swaps(x0));
    }
    while i < len
        invariant
            done + insertion_from(x@, i as nat, len as nat) == insertion_swaps(x0),
            stops + insertion_stops_from(x@, i as nat, len as nat) == insertion_stops(x0),
            r@.comparisons == bump_by(r0.comparisons, done.len() + stops),
            shows_swaps(trace@, done),
            r0.comparisons <= r@.comparisons,
            r@.comparisons <= bump_by(r0.comparisons, pairs(i as nat)),
            1 <= i,
            i <= len || len == 0,
            len == 0 ==> i == 1,
            x@.len() == len,
            permutes(x@, x0),
            forall|a: int, b: int| 0 <= a <= b < i && b < len ==> x@[a] <= x@[b],
            steps_ok(trace@, x0, r0, r@),
            trace@.last().list_view() == x@,
            r@.stack == r0.stack.push("insertion"),
            stacks_are(trace@, r0.stack.push("insertion")),
            r@.calls == r_in.calls,
            all_lists(trace@),
            adjacent_steps(trace@),
            r@.swaps == bump_by(r0.swaps, (trace@.len() - 1) as nat),
            sorted(x0) ==> {
                &&& x@ == x0
                &&& trace@.len() == 1
                &&& r@.swaps == r0.swaps
                &&& r@.comparisons == bump_by(r0.comparisons, (i - 1) as nat)
            },
        decreases len - i,
    {
        let mut jj: usize = 0;
        let ghost xs0 = x@;
        let ghost mut pd: Seq<int> = Seq::empty();
        proof {
            assert(pairs((i + 1) as nat) == i + pairs(i as nat));
            assert(pd + insertion_sink(x@, i as nat).1 =~= insertion_sink(xs0, i as nat).1);
        }
        while jj < i
            invariant_except_break
                r@.comparisons <= bump_by(r0.comparisons, pairs(i as nat) + jj as nat),
                r@.comparisons == bump_by(r0.comparisons, done.len() + stops + pd.len()),
                sink_stops(x@, (i - jj) as nat) == sink_stops(xs0, i as nat),
                sorted(x0) ==> {
                    &&& jj == 0
                    &&& x@ == x0
                    &&& trace@.len() == 1
                    &&& r@.swaps == r0.swaps
                    &&& r@.comparisons == bump_by(r0.comparisons, (i - 1) as nat)
                },
            invariant
                pd + insertion_sink(x@, (i - jj) as nat).1 == insertion_sink(xs0, i as nat).1,
                insertion_sink(x@, (i - jj) as nat).0 == insertion_sink(xs0, i as nat).0,
                shows_swaps(trace@, done + pd),
                r0.comparisons <= r@.comparisons,
                r@.comparisons <= bump_by(r0.comparisons, pairs((i + 1) as nat)),
                r0.comparisons <= usize::MAX,
                pairs((i + 1) as nat) == i + pairs(i as nat),
                1 <= i < len,
                jj <= i,
                x@.len() == len,
                permutes(x@, x0),
                forall|a: int, b: int| 0 <= a <= b < i - jj ==> x@[a] <= x@[b],
                forall|a: int, b: int| i - jj < a <= b <= i ==> x@[a] <= x@[b],
                forall|a: int, b: int| 0 <= a < i - jj < b <= i ==> x@[a] <= x@[b],
                forall|b: int| i - jj < b <= i ==> x@[i - jj] <= #[trigger] x@[b],
                steps_ok(trace@, x0, r0, r@),
                trace@.last().list_view() == x@,
                r@.stack == r0.stack.push("insertion"),
                stacks_are(trace@, r0.stack.push("insertion")),
                r@.calls == r_in.calls,
                all_lists(trace@),
                adjacent_steps(trace@),
                r@.swaps == bump_by(r0.swaps, (trace@.len() - 1) as nat),
            ensures
                pd == insertion_sink(xs0, i as nat).1,
                x@ == insertion_sink(xs0, i as nat).0,
                r@.comparisons == bump_by(
                    r0.comparisons,
                    done.len() + stops + pd.len() + sink_stops(xs0, i as nat),
                ),
                shows_swaps(trace@, done + pd),
                r0.comparisons <= r@.comparisons,
                r@.comparisons <= bump_by(r0.comparisons, pairs((i + 1) as nat)),
                x@.len() == len,
                permutes(x@, x0),
                forall|a: int, b: int| 0 <= a <= b <= i ==> x@[a] <= x@[b],
                steps_ok(trace@, x0, r0, r@),
                trace@.last().list_view() == x@,
                r@.stack == r0.stack.push("insertion"),
                stacks_are(trace@, r0.stack.push("insertion")),
                r@.calls == r_in.calls,
                all_lists(trace@),
                adjacent_steps(trace@),
                r@.swaps == bump_by(r0.swaps, (trace@.len() - 1) as nat),
                sorted(x0) ==> {
                    &&& x@ == x0
                    &&& trace@.len() == 1
                    &&& r@.swaps == r0.swaps
                    &&& r@.comparisons == bump_by(r0.comparisons, i as nat)
                },
            decreases i - jj,
        {
            let j = i - jj;
            proof {
                assert(bump(bump_by(r0.comparisons, done.len() + stops + pd.len())) == bump_by(
                    r0.comparisons,
                    done.len() + stops + pd.len() + 1,
                ));
            }
            if !r.gt(x[j - 1], x[j]) {
                proof {
                    assert(pd =~= pd + insertion_sink(x@, j as nat).1);
                    assert(sink_stops(x@, j as nat) == 1);
                }
                break;
            }
            let ghost xb = x@;
            proof {
                lemma_swap_permutes(x@, j - 1, j as int);
            }
            r.swap(&mut x, j - 1, j);
            let s = VList::new(x.as_slice()).swapped(j - 1, j).into_snapshot(r);
            proof {
                lemma_adjacent_push(trace@, s);
                lemma_shows_swaps_push(trace@, done + pd, s, j - 1);
                let rest = insertion_sink(x@, (j - 1) as nat);
                assert(insertion_sink(xb, j as nat).1 == seq![j - 1].add(rest.1));
                assert((done + pd).push(j - 1) =~= done + pd.push(j - 1));
                assert(pd.push(j - 1) + rest.1 =~= pd + seq![j - 1].add(rest.1));
                pd = pd.push(j - 1);
            }
            push_step(&mut trace, s, Ghost(x0), Ghost(r0));
            jj = jj + 1;
        }
        proof {
            assert(insertion_from(xs0, i as nat, len as nat) == pd + insertion_from(
                x@,
                (i + 1) as nat,
                len as nat,
            ));
            assert(done + pd + insertion_from(x@, (i + 1) as nat, len as nat) =~= done + (pd
                + insertion_from(x@, (i + 1) as nat, len as nat)));
            assert(insertion_stops_from(xs0, i as nat, len as nat) == sink_stops(xs0, i as nat)
                + insertion_stops_from(x@, (i + 1) as nat, len as nat));
            done = done + pd;
            stops = stops + sink_stops(xs0, i as nat);
        }
        i = i + 1;
    }
    proof {
        assert(insertion_from(x@, i as nat, len as nat) =~= Seq::<int>::empty());
        assert(done =~= insertion_swaps(x0));
        assert(insertion_stops_from(x@, i as nat, len as nat) == 0);
    }
    r.f_pop();
    proof {
        assert(r@.stack =~= r0.stack);
    }
    trace
}

/// A step of heapsort after the heap is built: it moves the root to the end
/// of the heap, and shows the entries before it as a heap but for the root; or
/// it sifts, swapping a node with a child, and shows a heap but for the node it
/// sifts next.
pub open spec fn sift_step_ok(s: Snapshot) -> bool {
    let v = s.kind->Heap_0;
    &&& s.kind is Heap
    &&& v.expl@.len() >= 1
    &&& if v.expl@.last() == Expl::SiftingHeap {
        &&& swaps_with_child(s)
        &&& heap_but_sifted(v, 0, v.n as int)
    } else {
        &&& v.expl@[0] == Expl::MovingRoot
        &&& v.n >= 1
        &&& v.swapped == Some((0usize, (v.n - 1) as usize))
        &&& v.heapifying == Some(0usize)
        &&& heap_but_sifted(v, 0, v.n - 1)
    }
}

/// The steps of heapsort after the first: up to step `b` they build the heap,
/// each swapping a node with a child; after it, each is a step of sorting out
/// of the heap.
pub open spec fn heap_phases(t: Seq<Snapshot>, b: int) -> bool {
    &&& 0 <= b < t.len()
    &&& forall|k: int|
        1 <= k <= b ==> swaps_with_child(#[trigger] t[k]) && t[k].kind->Heap_0.expl@.last()
            == Expl::BuildingHeap
    &&& forall|k: int| b < k < t.len() ==> sift_step_ok(#[trigger] t[k])
}

/// More steps of sorting out of the heap keep the phases.
proof fn lemma_phases_grow(t: Seq<Snapshot>, u: Seq<Snapshot>, b: int)
    requires
        heap_phases(t, b),
        u.len() >= t.len(),
        forall|k: int| 0 <= k < t.len() ==> u[k] == t[k],
        forall|k: int| t.len() <= k < u.len() ==> sift_step_ok(#[trigger] u[k]),
    ensures
        heap_phases(u, b),
{
    assert forall|k: int| 1 <= k <= b implies swaps_with_child(#[trigger] u[k])
        && u[k].kind->Heap_0.expl@.last() == Expl::BuildingHeap by {
        assert(u[k] == t[k]);
    }
    assert forall|k: int| b < k < u.len() implies sift_step_ok(#[trigger] u[k]) by {
        if k < t.len() {
            assert(u[k] == t[k]);
        }
    }
}

/// Everything that holds while heapsort sorts out of a heap of `i` entries:
/// the heap before position `i` and the sorted values from it on, the steps so
/// far with their phases, and the figures, with the swaps `done2` and the
/// comparisons `dc2` made since the heap was built.
#[verifier::opaque]
pub open spec fn sort_out_state(
    h: Heap,
    i: nat,
    trace: Seq<Snapshot>,
    rv: RecorderView,
    x0: Seq<usize>,
    r0: RecorderView,
    b: int,
    bm: (Seq<usize>, Seq<(int, int)>, nat),
    st: (Seq<usize>, Seq<(int, int)>, nat),
    done2: Seq<(int, int)>,
    dc2: nat,
) -> bool {
    let len = x0.len();
    let d = depth((len - 1) as nat);
    let per = 2 * (d + 1);
    &&& h.wf()
    &&& h.size() == i
    &&& h.contents().len() == len
    &&& len <= usize::MAX / 2
    &&& i <= len
    &&& permutes(h.contents(), x0)
    &&& heap_from(h.contents(), i as int, 0)
    &&& forall|a: int, b: int| i <= a <= b < len ==> h.contents()[a] <= h.contents()[b]
    &&& forall|a: int, b: int| 0 <= a < i <= b < len ==> h.contents()[a] <= h.contents()[b]
    &&& steps_ok(trace, x0, r0, rv)
    &&& trace.last().list_view() == h.contents()
    &&& rv.stack == r0.stack.push("heapsort")
    &&& all_heaps(trace)
    &&& heap_expls_true(trace)
    &&& heap_phases(trace, b)
    &&& rv.calls == bump_by(r0.calls, (1 + len / 2 + trace.len()) as nat)
    &&& rv.swaps == bump_by(r0.swaps, (trace.len() - 1) as nat)
    &&& r0.comparisons <= rv.comparisons
    &&& rv.comparisons <= bump_by(r0.comparisons, ((len / 2) * per + (len - i) * per) as nat)
    &&& sift_from(h.contents(), i).0 == st.0
    &&& done2 + sift_from(h.contents(), i).1 == st.1
    &&& dc2 + sift_from(h.contents(), i).2 == st.2
    &&& steps_swap(trace, 1, bm.1 + done2)
    &&& rv.comparisons == bump_by(r0.comparisons, bm.2 + dc2)
    &&& r0.comparisons <= usize::MAX
}

/// After the root of a heap over the first `i + 1` entries moves to position
/// `i` and the first `i` entries are rearranged, the entries from `i` on are
/// sorted and none before `i` is above one from `i` on.
proof fn lemma_sort_out_order(s0: Seq<usize>, s1: Seq<usize>, s2: Seq<usize>, i: int, len: int)
    requires
        0 < i < len,
        s0.len() == len,
        s2.len() == len,
        s1 == swap_seq(s0, 0, i),
        heap_from(s0, i + 1, 0),
        forall|a: int, b: int| i + 1 <= a <= b < len ==> s0[a] <= s0[b],
        forall|a: int, b: int| 0 <= a < i + 1 <= b < len ==> s0[a] <= s0[b],
        permutes(s2.take(i), s1.take(i)),
        forall|k: int| i <= k < len ==> s2[k] == s1[k],
    ensures
        forall|a: int, b: int| i <= a <= b < len ==> s2[a] <= s2[b],
        forall|a: int, b: int| 0 <= a < i <= b < len ==> s2[a] <= s2[b],
{
    assert forall|a: int| 0 <= a <= i implies #[trigger] s0[a] <= s0[0] by {
        lemma_heap_root_max(s0, i + 1, a);
    }
    assert forall|a: int, b: int| 0 <= a < i <= b < len implies s2[a] <= s2[b] by {
        let idx = crate::order::lemma_permutes_contains(s2.take(i), s1.take(i), a);
        assert(s2.take(i)[a] == s2[a]);
        assert(s1.take(i)[idx] == s1[idx]);
        assert(s1[idx] <= s1[i]);
        assert(s2[b] == s1[b]);
    }
    assert forall|a: int, b: int| i <= a <= b < len implies s2[a] <= s2[b] by {
        assert(s2[a] == s1[a] && s2[b] == s1[b]);
    }
}

/// One round of sorting out of a heap of `i` entries: the root moves to
/// position `i - 1`, the heap shrinks by one, and the new root is sifted down.
/// Gives the swaps and comparisons made so far since the heap was built.
#[verifier::spinoff_prover]
#[verifier::rlimit(100)]
fn sort_out_round(
    h: &mut Heap,
    i: usize,
    r: &mut RecorderState,
    trace: &mut Vec<Snapshot>,
    Ghost(x0): Ghost<Seq<usize>>,
    Ghost(r0): Ghost<RecorderView>,
    Ghost(b): Ghost<int>,
    Ghost(bm): Ghost<(Seq<usize>, Seq<(int, int)>, nat)>,
    Ghost(st): Ghost<(Seq<usize>, Seq<(int, int)>, nat)>,
    Ghost(done2): Ghost<Seq<(int, int)>>,
    Ghost(dc2): Ghost<nat>,
) -> (out: Ghost<(Seq<(int, int)>, nat)>)
    requires
        i > 1,
        sort_out_state(*old(h), i as nat, old(trace)@, old(r)@, x0, r0, b, bm, st, done2, dc2),
    ensures
        sort_out_state(
            *final(h),
            (i - 1) as nat,
            final(trace)@,
            final(r)@,
            x0,
            r0,
            b,
            bm,
            st,
            out@.0,
            out@.1,
        ),
{
    let ghost len = x0.len();
    let ghost d = depth((len - 1) as nat);
    let ghost per = 2 * (d + 1);
    let ghost mut nd: Seq<(int, int)> = done2;
    let ghost mut nc: nat = dc2;
    proof {
        reveal(sort_out_state);
    }
    let i = i - 1;
    let ghost s0 = h.contents();
    let ghost t0 = trace@;
    proof {
        lemma_swap_permutes(s0, 0, i as int);
    }
    h.swap(Node::of(0, h), Node::of(i, h), r);
    let ghost s1 = h.contents();
    let top = h.root().value(h);
    let s = VHeap::new(h, Some((0, i))).now_heapifying(0).expl(Expl::MovingRoot).expl(
        Expl::NextSift(top),
    ).into_snapshot(r);
    proof {
        let v = s.kind->Heap_0;
        assert(heap_expls_true(trace@.push(s))) by {
            assert(v.expl@ == seq![Expl::MovingRoot, Expl::NextSift(top)]);
            assert(sift_reason_given(v)) by {
                reveal(sift_reason_given);
            }
            assert forall|j: int| 0 <= j < v.expl@.len() implies heap_expl_true(
                v,
                #[trigger] v.expl@[j],
            ) by {
                if j == 1 {
                    assert(v.heap@[0] == top);
                }
            }
            lemma_expls_push(trace@, s);
        }
        assert(sift_step_ok(s)) by {
            assert(v.expl@ == seq![Expl::MovingRoot, Expl::NextSift(top)]);
            assert forall|j: int| 0 <= j < i && j != 0 implies #[trigger] heap_ok_at(s1, i as int, j) by {
                assert(heap_ok_at(s0, i + 1, j));
            }
            assert(heap_but_sifted(v, 0, i as int));
        }
    }
    let ghost tpre = trace@;
    push_step(trace, s, Ghost(x0), Ghost(r0));
    let ghost t1 = trace@;
    let ghost c1 = r@.comparisons;
    proof {
        assert(steps_swap(t1, tpre.len() as int, seq![(0int, i as int)]));
        lemma_steps_swap_join(tpre, t1, 1, bm.1 + done2, seq![(0int, i as int)]);
    }
    h.abandon(1);
    proof {
        assert forall|j: int| 0 <= j < i && j != 0 implies #[trigger] heap_ok_at(s1, i as int, j) by {
            assert(heap_ok_at(s0, i + 1, j));
        }
        lemma_depth_mono((i - 1) as nat, (len - 1) as nat);
        assert(subtree_heap_but(s1, i as int, 0));
        assert(sift_ready(s1, i as int, 0, 0));
    }
    heapify(h.root(), h, r, trace, Expl::SiftingHeap, Ghost(0), Ghost(x0), Ghost(r0));
    let ghost s2 = h.contents();
    proof {
        lemma_sort_out_order(s0, s1, s2, i as int, len as int);
        assert forall|k: int| t0.len() <= k < trace@.len() implies sift_step_ok(#[trigger] trace@[k]) by {
            if k < t1.len() {
                assert(trace@[k] == t1[k]);
                assert(t1[k] == s);
            }
        }
        assert forall|k: int| 0 <= k < t0.len() implies trace@[k] == t0[k] by {
            assert(trace@[k] == t1[k]);
        }
        lemma_phases_grow(t0, trace@, b);
        let hh = sift_down(s1, i as nat, 0);
        let rest = sift_from(hh.0, i as nat);
        assert(sift_from(s0, (i + 1) as nat) == (rest.0, seq![(0int, i as int)] + hh.1 + rest.1, hh.2 + rest.2));
        lemma_steps_swap_join(t1, trace@, 1, bm.1 + done2 + seq![(0int, i as int)], hh.1);
        assert(bm.1 + done2 + seq![(0int, i as int)] + hh.1 =~= bm.1 + (done2 + seq![(0int, i as int)] + hh.1));
        assert(done2 + seq![(0int, i as int)] + hh.1 + rest.1 =~= done2 + (seq![(0int, i as int)] + hh.1 + rest.1));
        crate::recorder::lemma_bump_by_add(r0.comparisons, bm.2 + dc2, hh.2);
        nd = done2 + seq![(0int, i as int)] + hh.1;
        nc = dc2 + hh.2;
        assert((len - i) * per == (len - (i + 1)) * per + per) by (nonlinear_arith);
    }
    proof {
        reveal(sort_out_state);
    }
    Ghost((nd, nc))
}

/// The most comparisons heapsort makes on `n` values: at most two for each
/// level a value is sifted down, in at most `n / 2` sifts building the heap
/// and `n - 1` sorting out of it.
pub open spec fn heap_compares(n: nat) -> nat {
    3 * n * (depth((n - 1) as nat) + 1)
}

/// Heapsort. Returns every step it takes: first those of building a max-heap,
/// then, for each position from the end, moving the root there and sifting the
/// new root down. Every step after the heap is built shows a heap but for the
/// node to sift next.
#[verifier::spinoff_prover]
#[verifier::rlimit(80)]
pub fn heap(x: Vec<usize>, r: &mut RecorderState) -> (trace: Vec<Snapshot>)
    requires
        x@.len() <= usize::MAX / 2,
    ensures
        run_ok(trace@, x@, old(r)@, final(r)@),
        lists_permute(trace@, 0, x@),
        crate::utils::steps_follow(trace@),
        all_heaps(trace@),
        heap_expls_true(trace@),
        exists|b: int| heap_phases(trace@, b),
        final(r)@.calls == bump_by(old(r)@.calls, (1 + x@.len() / 2 + trace@.len()) as nat),
        final(r)@.swaps == bump_by(old(r)@.swaps, (trace@.len() - 1) as nat),
        old(r)@.comparisons <= final(r)@.comparisons,
        final(r)@.comparisons <= bump_by(old(r)@.comparisons, heap_compares(x@.len())),
        steps_swap(trace@, 1, heap_run(x@).1),
        final(r)@.comparisons == bump_by(old(r)@.comparisons, heap_run(x@).2),
        trace@.last().list_view() == heap_run(x@).0,
{
    let ghost x0 = x@;
    let ghost r0 = r@;
    let len = x.len();
    proof {
        r.lemma_bounded();
    }
    r.f_push("heapsort");
    let ghost r_in = r@;
    let mut h = Heap::new(x);
    let mut trace = start_steps(VHeap::new(&h, None).into_snapshot(r));
    let ghost t_init = trace@;
    proof {
        assert(heap_expls_true(trace@)) by {
            reveal(sift_reason_given);
        }
    }
    build_heap(&mut h, r, &mut trace, Ghost(x0), Ghost(r0));
    let ghost b = trace@.len() - 1;
    let ghost bm = build_from(x0, len as nat, (len / 2) as nat);
    let ghost st = sift_from(bm.0, len as nat);
    let ghost mut done2: Seq<(int, int)> = Seq::empty();
    let ghost mut dc2: nat = 0;
    proof {
        assert(bm.1 + done2 =~= bm.1);
        assert(done2 + st.1 =~= st.1);
    }
    let ghost d = depth((len - 1) as nat);
    let ghost per = 2 * (d + 1);
    proof {
        assert(heap_phases(trace@, b));
    }
    let mut i = h.nodes();
    proof {
        reveal(sort_out_state);
        assert(sort_out_state(h, i as nat, trace@, r@, x0, r0, b, bm, st, done2, dc2));
    }
    while i > 1
        invariant
            sort_out_state(h, i as nat, trace@, r@, x0, r0, b, bm, st, done2, dc2),
            bm == build_from(x0, x0.len(), x0.len() / 2),
            st == sift_from(bm.0, x0.len()),
            len == x0.len(),
            len > 0 ==> i >= 1,
            i <= len,
        decreases i,
    {
        let out = sort_out_round(&mut h, i, r, &mut trace, Ghost(x0), Ghost(r0), Ghost(b), Ghost(bm), Ghost(st), Ghost(done2), Ghost(dc2));
        proof {
            done2 = out@.0;
            dc2 = out@.1;
        }
        i = i - 1;
    }
    proof {
        reveal(sort_out_state);
        let s = h.contents();
        assert forall|a: int, b: int| 0 <= a <= b < len implies s[a] <= s[b] by {
            if a < i && b < i {
                assert(a == b);
            }
        }
        assert(len == 0 || i == 1);
        assert(sift_from(h.contents(), i as nat).1 =~= Seq::<(int, int)>::empty());
        assert(done2 =~= st.1);
        assert((len / 2) * per + (len - i) * per <= 3 * len * (d + 1)) by (nonlinear_arith)
            requires
                len == 0 || i == 1,
                i <= len,
                per == 2 * (d + 1),
        ;
    }
    r.f_pop();
    proof {
        assert(r@.stack =~= r0.stack);
    }
    trace
}

/// Turns the whole array of `heap` into a heap, bottom up.
#[verifier::spinoff_prover]
#[verifier::rlimit(40)]
fn build_heap(
    heap: &mut Heap,
    r: &mut RecorderState,
    trace: &mut Vec<Snapshot>,
    Ghost(x0): Ghost<Seq<usize>>,
    Ghost(r0): Ghost<RecorderView>,
)
    requires
        old(heap).wf(),
        old(heap).contents().len() <= usize::MAX / 2,
        permutes(old(heap).contents(), x0),
        steps_ok(old(trace)@, x0, r0, old(r)@),
        old(trace)@.last().list_view() == old(heap).contents(),
        all_heaps(old(trace)@),
        heap_expls_true(old(trace)@),
    ensures
        all_heaps(final(trace)@),
        heap_expls_true(final(trace)@),
        final(heap).wf(),
        final(heap).size() == old(heap).size(),
        final(heap).contents().len() == old(heap).contents().len(),
        permutes(final(heap).contents(), x0),
        heap_from(final(heap).contents(), final(heap).size() as int, 0),
        permutes(
            final(heap).contents().take(old(heap).size() as int),
            old(heap).contents().take(old(heap).size() as int),
        ),
        forall|k: int|
            old(heap).size() <= k < old(heap).contents().len() ==> final(heap).contents()[k]
                == old(heap).contents()[k],
        steps_ok(final(trace)@, x0, r0, final(r)@),
        final(trace)@.last().list_view() == final(heap).contents(),
        final(r)@.stack == old(r)@.stack,
        final(trace)@.len() >= old(trace)@.len(),
        forall|k: int| 0 <= k < old(trace)@.len() ==> final(trace)@[k] == old(trace)@[k],
        forall|k: int|
            old(trace)@.len() <= k < final(trace)@.len() ==> swaps_with_child(#[trigger] final(trace)@[k])
                && final(trace)@[k].kind->Heap_0.expl@.last() == Expl::BuildingHeap,
        final(r)@.calls == bump_by(
            old(r)@.calls,
            (1 + old(heap).size() / 2 + final(trace)@.len() - old(trace)@.len()) as nat,
        ),
        final(r)@.swaps == bump_by(old(r)@.swaps, (final(trace)@.len() - old(trace)@.len()) as nat),
        old(r)@.comparisons <= final(r)@.comparisons,
        final(r)@.comparisons <= bump_by(
            old(r)@.comparisons,
            (old(heap).size() / 2) * (2 * (depth((old(heap).size() - 1) as nat) + 1)),
        ),
        final(heap).contents() == build_from(
            old(heap).contents(),
            old(heap).size(),
            old(heap).size() / 2,
        ).0,
        steps_swap(
            final(trace)@,
            old(trace)@.len() as int,
            build_from(old(heap).contents(), old(heap).size(), old(heap).size() / 2).1,
        ),
        final(r)@.comparisons == bump_by(
            old(r)@.comparisons,
            build_from(old(heap).contents(), old(heap).size(), old(heap).size() / 2).2,
        ),
{
    let ghost r_start = r@;
    let ghost t_start = trace@;
    proof {
        r.lemma_bounded();
    }
    r.f_push("build_heap");
    let n = heap.nodes();
    let k = n / 2;
    let mut i = k;
    let ghost d = depth((n - 1) as nat);
    let ghost target = build_from(heap.contents(), n as nat, k as nat);
    let ghost mut done_sw: Seq<(int, int)> = Seq::empty();
    let ghost mut done_c: nat = 0;
    proof {
        assert(0 * (2 * (d + 1)) == 0) by (nonlinear_arith);
        assert(done_sw + target.1 =~= target.1);
    }
    while i > 0
        invariant
            build_from(heap.contents(), n as nat, i as nat).0 == target.0,
            done_sw + build_from(heap.contents(), n as nat, i as nat).1 == target.1,
            done_c + build_from(heap.contents(), n as nat, i as nat).2 == target.2,
            steps_swap(trace@, t_start.len() as int, done_sw),
            r@.comparisons == bump_by(r_start.comparisons, done_c),
            r_start.comparisons <= usize::MAX,
            heap.wf(),
            heap.size() == n,
            heap.contents().len() == old(heap).contents().len(),
            permutes(heap.contents().take(n as int), old(heap).contents().take(n as int)),
            forall|q: int|
                n <= q < old(heap).contents().len() ==> heap.contents()[q] == old(heap).contents()[q],
            old(heap).contents().len() <= usize::MAX / 2,
            i <= k,
            k == n / 2,
            d == depth((n - 1) as nat),
            permutes(heap.contents(), x0),
            heap_from(heap.contents(), n as int, i as int),
            steps_ok(trace@, x0, r0, r@),
            trace@.last().list_view() == heap.contents(),
            r@.stack == r_start.stack.push("build_heap"),
            all_heaps(trace@),
            heap_expls_true(trace@),
            trace@.len() >= t_start.len(),
            forall|q: int| 0 <= q < t_start.len() ==> trace@[q] == t_start[q],
            forall|q: int|
                t_start.len() <= q < trace@.len() ==> swaps_with_child(#[trigger] trace@[q])
                    && trace@[q].kind->Heap_0.expl@.last() == Expl::BuildingHeap,
            r@.calls == bump_by(r_start.calls, (1 + (k - i) + trace@.len() - t_start.len()) as nat),
            r@.swaps == bump_by(r_start.swaps, (trace@.len() - t_start.len()) as nat),
            r_start.comparisons <= r@.comparisons,
            r@.comparisons <= bump_by(r_start.comparisons, ((k - i) * (2 * (d + 1))) as nat),
        decreases i,
    {
        i = i - 1;
        let node = Node::of(i, heap);
        let ghost tb = trace@;
        let ghost cb = r@.comparisons;
        let ghost hb = heap.contents();
        let ghost tb2 = trace@;
        proof {
            assert(subtree_heap_but(hb, n as int, i as nat)) by {
                assert forall|j: int| 0 <= j < n && in_subtree(i as nat, j as nat) && j != i implies #[trigger] heap_ok_at(
                    hb,
                    n as int,
                    j,
                ) by {
                    lemma_subtree_after(i as nat, j as nat);
                }
            }
            assert(sift_ready(hb, n as int, i as int, i as int));
        }
        heapify(node, heap, r, trace, Expl::BuildingHeap, Ghost(i as int), Ghost(x0), Ghost(r0));
        proof {
            let h = sift_down(hb, n as nat, i as nat);
            let rest = build_from(h.0, n as nat, i as nat);
            assert(build_from(hb, n as nat, (i + 1) as nat) == (rest.0, h.1 + rest.1, h.2 + rest.2));
            lemma_steps_swap_join(tb2, trace@, t_start.len() as int, done_sw, h.1);
            assert(done_sw + h.1 + rest.1 =~= done_sw + (h.1 + rest.1));
            crate::recorder::lemma_bump_by_add(r_start.comparisons, done_c, h.2);
            done_sw = done_sw + h.1;
            done_c = done_c + h.2;
            crate::order::lemma_permutes_trans(
                heap.contents().take(n as int),
                hb.take(n as int),
                old(heap).contents().take(n as int),
            );
        }
        proof {
            assert((k - i) * (2 * (d + 1)) == (k - i - 1) * (2 * (d + 1)) + 2 * (d + 1))
                by (nonlinear_arith);
            assert forall|q: int| t_start.len() <= q < trace@.len() implies swaps_with_child(
                #[trigger] trace@[q],
            ) && trace@[q].kind->Heap_0.expl@.last() == Expl::BuildingHeap by {
                if q < tb.len() {
                    assert(trace@[q] == tb[q]);
                }
            }
            assert forall|q: int| 0 <= q < t_start.len() implies trace@[q] == t_start[q] by {
                assert(trace@[q] == tb[q]);
            }
        }
    }
    r.f_pop();
    proof {
        assert(r@.stack =~= r_start.stack);
        assert(done_sw + Seq::<(int, int)>::empty() =~= done_sw);
    }
}

/// The node that sifting node `i` of the first `n` entries of `x` moves to:
/// the larger of the node and its children, the node on a tie and the left
/// child before the right; and the comparisons that takes, one per child.
pub open spec fn sift_pick(x: Seq<usize>, n: nat, i: nat) -> (nat, nat) {
    let l = 2 * i + 1;
    let r = 2 * i + 2;
    let m1: nat = if l < n && x[l as int] > x[i as int] {
        l
    } else {
        i
    };
    let m2: nat = if r < n && x[r as int] > x[m1 as int] {
        r
    } else {
        m1
    };
    (m2, (if l < n { 1nat } else { 0nat }) + (if r < n { 1nat } else { 0nat }))
}

/// Sifting node `i` down among the first `n` entries of `x`: the list it
/// leaves, the swaps it makes in order, and the comparisons it makes.
pub open spec fn sift_down(x: Seq<usize>, n: nat, i: nat) -> (Seq<usize>, Seq<(int, int)>, nat)
    decreases n - i,
{
    if i >= n {
        (x, Seq::empty(), 0)
    } else {
        let p = sift_pick(x, n, i);
        if p.0 <= i || p.0 >= n {
            (x, Seq::empty(), p.1)
        } else {
            let rest = sift_down(swap_seq(x, i as int, p.0 as int), n, p.0);
            (rest.0, seq![(i as int, p.0 as int)] + rest.1, p.1 + rest.2)
        }
    }
}

/// Building the heap: sifting nodes `i - 1` down to 0 among the first `n`
/// entries of `x`, in turn.
pub open spec fn build_from(x: Seq<usize>, n: nat, i: nat) -> (Seq<usize>, Seq<(int, int)>, nat)
    decreases i,
{
    if i == 0 {
        (x, Seq::empty(), 0)
    } else {
        let h = sift_down(x, n, (i - 1) as nat);
        let rest = build_from(h.0, n, (i - 1) as nat);
        (rest.0, h.1 + rest.1, h.2 + rest.2)
    }
}

/// Sorting out of a heap of `i` entries: the root is swapped to the last
/// place of the heap, which shrinks by one, and the new root sifted down, until
/// one entry is left.
pub open spec fn sift_from(x: Seq<usize>, i: nat) -> (Seq<usize>, Seq<(int, int)>, nat)
    decreases i,
{
    if i <= 1 {
        (x, Seq::empty(), 0)
    } else {
        let h = sift_down(swap_seq(x, 0, i - 1), (i - 1) as nat, 0);
        let rest = sift_from(h.0, (i - 1) as nat);
        (rest.0, seq![(0int, i - 1)] + h.1 + rest.1, h.2 + rest.2)
    }
}

/// Heapsort of `x`: the list it leaves, every swap it shows in order, and the
/// comparisons it makes.
pub open spec fn heap_run(x: Seq<usize>) -> (Seq<usize>, Seq<(int, int)>, nat) {
    let b = build_from(x, x.len(), x.len() / 2);
    let t = sift_from(b.0, x.len());
    (t.0, b.1 + t.1, b.2 + t.2)
}

/// The steps of `t` from `start` on show, in order, the swaps `sw`, one each.
pub open spec fn steps_swap(t: Seq<Snapshot>, start: int, sw: Seq<(int, int)>) -> bool {
    &&& 0 <= start
    &&& t.len() == start + sw.len()
    &&& forall|k: int| 0 <= k < sw.len() ==> crate::utils::swap_pair(t[start + k]) == Some(#[trigger] sw[k])
}

/// Steps that follow steps showing `sw1` and show `sw2` make the steps show
/// `sw1 + sw2`.
pub proof fn lemma_steps_swap_join(
    t1: Seq<Snapshot>,
    t2: Seq<Snapshot>,
    start: int,
    sw1: Seq<(int, int)>,
    sw2: Seq<(int, int)>,
)
    requires
        steps_swap(t1, start, sw1),
        t2.len() >= t1.len(),
        forall|q: int| 0 <= q < t1.len() ==> t2[q] == t1[q],
        steps_swap(t2, t1.len() as int, sw2),
    ensures
        steps_swap(t2, start, sw1 + sw2),
{
    let w = sw1 + sw2;
    assert forall|k: int| 0 <= k < w.len() implies crate::utils::swap_pair(t2[start + k]) == Some(
        #[trigger] w[k],
    ) by {
        if k < sw1.len() {
            assert(t2[start + k] == t1[start + k]);
            assert(w[k] == sw1[k]);
        } else {
            assert(w[k] == sw2[k - sw1.len()]);
            assert(sw2[k - sw1.len()] == sw2[k - sw1.len()]);
        }
    }
}

/// Every node of the subtree of `i` among the first `n` entries of `s`, but
/// `i` itself, is in heap order: the subtrees of `i`'s children are heaps.
pub open spec fn subtree_heap_but(s: Seq<usize>, n: int, i: nat) -> bool {
    forall|j: int| 0 <= j < n && in_subtree(i, j as nat) && j != i ==> #[trigger] heap_ok_at(s, n, j)
}

/// The subtree of `i` among the first `n` entries of `s` is a heap.
#[verifier::opaque]
pub open spec fn subtree_heap(s: Seq<usize>, n: int, i: nat) -> bool {
    forall|j: int| 0 <= j < n && in_subtree(i, j as nat) ==> #[trigger] heap_ok_at(s, n, j)
}

/// No value in the subtree of `i` among the first `n` entries of `s` is above
/// `b`.
#[verifier::opaque]
pub open spec fn bounded_in(s: Seq<usize>, n: int, i: nat, b: int) -> bool {
    forall|j: int| 0 <= j < n && #[trigger] in_subtree(i, j as nat) ==> s[j] <= b
}

/// What heapsort knows when it sifts `i`: every node from `lo` on but `i` is in
/// heap order, and `i`'s children are no larger than its parent.
pub open spec fn sift_ready(s: Seq<usize>, n: int, lo: int, i: int) -> bool {
    &&& (i == lo || (i - 1) / 2 >= lo)
    &&& forall|j: int| lo <= j < n && j != i ==> #[trigger] heap_ok_at(s, n, j)
    &&& i > lo ==> {
        let p = (i - 1) / 2;
        &&& (2 * i + 1 < n ==> s[2 * i + 1] <= s[p])
        &&& (2 * i + 2 < n ==> s[2 * i + 2] <= s[p])
    }
}

/// After node `i` swaps with its larger child `c`, the subtrees below `c` are
/// still heaps.
proof fn lemma_sift_down_ready(s: Seq<usize>, n: int, i: nat, c: nat)
    requires
        n <= s.len(),
        i < c < n,
        c == 2 * i + 1 || c == 2 * i + 2,
        subtree_heap_but(s, n, i),
    ensures
        subtree_heap_but(swap_seq(s, i as int, c as int), n, c),
{
    let s1 = swap_seq(s, i as int, c as int);
    assert forall|j: int| 0 <= j < n && in_subtree(c, j as nat) && j != c implies #[trigger] heap_ok_at(
        s1,
        n,
        j,
    ) by {
        lemma_subtree_after(c, j as nat);
        lemma_subtree_child(i, c, j as nat);
        assert(heap_ok_at(s, n, j));
    }
}

/// Sifting `i` down through its larger child `c` leaves the subtree of `i` a
/// heap, and no value in it above a bound that held before.
proof fn lemma_sift_down_done(s: Seq<usize>, s1: Seq<usize>, fin: Seq<usize>, n: int, i: nat, c: nat)
    requires
        n <= s.len(),
        s1.len() == s.len(),
        fin.len() == s.len(),
        i < c < n,
        c == 2 * i + 1 || c == 2 * i + 2,
        s1 == swap_seq(s, i as int, c as int),
        s[i as int] < s[c as int],
        2 * i + 1 < n ==> s[(2 * i + 1) as int] <= s[c as int],
        2 * i + 2 < n ==> s[(2 * i + 2) as int] <= s[c as int],
        subtree_heap_but(s, n, i),
        subtree_heap(fin, n, c),
        forall|k: int| 0 <= k < s.len() && !in_subtree(c, k as nat) ==> fin[k] == s1[k],
        forall|b: int| bounded_in(s1, n, c, b) ==> #[trigger] bounded_in(fin, n, c, b),
    ensures
        subtree_heap(fin, n, i),
        forall|b: int| bounded_in(s, n, i, b) ==> #[trigger] bounded_in(fin, n, i, b),
{
    reveal(subtree_heap);
    reveal(bounded_in);
    let l = 2 * i + 1;
    let r = 2 * i + 2;
    let c2: nat = if c == l { r } else { l };
    lemma_subtree_after(c, i);
    assert(!in_subtree(c, i));
    assert(in_subtree(c, c));
    lemma_subtree_apart(i, c);
    lemma_subtree_apart(i, c2);
    assert(in_subtree(c2, c2));
    // the child is no larger than the value that moved up
    assert forall|k: int| 0 <= k < n && #[trigger] in_subtree(c, k as nat) implies s1[k] <= s[c as int] by {
        if k != c {
            lemma_subtree_after(c, k as nat);
            assert forall|j: int| 0 <= j < n && in_subtree(c, j as nat) implies #[trigger] heap_ok_at(s, n, j) by {
                lemma_subtree_child(i, c, j as nat);
                lemma_subtree_after(c, j as nat);
            }
            lemma_subtree_root_max(s, n, c, k as nat);
        }
    }
    assert(bounded_in(s1, n, c, s[c as int] as int));
    assert(bounded_in(fin, n, c, s[c as int] as int));
    assert(fin[c as int] <= s[c as int]);
    assert forall|j: int| 0 <= j < n && in_subtree(i, j as nat) implies #[trigger] heap_ok_at(fin, n, j) by {
        if j == i {
            if c2 < n {
                assert(!in_subtree(c, c2));
                assert(fin[c2 as int] == s1[c2 as int]);
            }
        } else if in_subtree(c, j as nat) {
        } else {
            lemma_subtree_split(i, j as nat);
            assert(in_subtree(c2, j as nat));
            lemma_subtree_after(c2, j as nat);
            lemma_subtree_child(i, c2, j as nat);
            let a = 2 * j + 1;
            let b = 2 * j + 2;
            if a < n {
                assert(in_subtree(c2, a as nat));
                lemma_subtree_apart(i, a as nat);
                assert(fin[a] == s1[a]);
            }
            if b < n {
                assert(in_subtree(c2, b as nat));
                assert(((b - 1) as nat) / 2 == j);
                lemma_subtree_apart(i, b as nat);
                assert(fin[b] == s1[b]);
            }
            lemma_subtree_apart(i, j as nat);
            assert(fin[j] == s1[j]);
            assert(heap_ok_at(s, n, j));
        }
    }
    assert forall|b: int| bounded_in(s, n, i, b) implies #[trigger] bounded_in(fin, n, i, b) by {
        lemma_subtree_child(i, c, c);
        assert forall|k: int| 0 <= k < n && #[trigger] in_subtree(c, k as nat) implies s1[k] <= b by {
            lemma_subtree_child(i, c, k as nat);
            if k == c {
                assert(in_subtree(i, i));
            }
        }
        assert(bounded_in(s1, n, c, b));
        assert forall|k: int| 0 <= k < n && #[trigger] in_subtree(i, k as nat) implies fin[k] <= b by {
            if !in_subtree(c, k as nat) {
                if k == i {
                    assert(in_subtree(i, c));
                }
            }
        }
    }
}

/// Swapping node `i` with its larger child `c`, when every other node from `lo`
/// on is in heap order and `i`'s children are no larger than its parent, leaves
/// every node from `lo` on but `c` in heap order; `c` itself was.
proof fn lemma_sift_swap(s: Seq<usize>, n: int, lo: int, i: int, c: int)
    requires
        0 <= lo <= i < c < n <= s.len(),
        c == 2 * i + 1 || c == 2 * i + 2,
        i == lo || (i - 1) / 2 >= lo,
        forall|j: int| lo <= j < n && j != i ==> #[trigger] heap_ok_at(s, n, j),
        i > lo ==> {
            let p = (i - 1) / 2;
            &&& (2 * i + 1 < n ==> s[2 * i + 1] <= s[p])
            &&& (2 * i + 2 < n ==> s[2 * i + 2] <= s[p])
        },
        2 * i + 1 < n ==> s[2 * i + 1] <= s[c],
        2 * i + 2 < n ==> s[2 * i + 2] <= s[c],
        s[i] < s[c],
    ensures
        forall|j: int| lo <= j < n && j != c ==> #[trigger] heap_ok_at(swap_seq(s, i, c), n, j),
        heap_ok_at(s, n, c),
{
    let s1 = swap_seq(s, i, c);
    assert forall|j: int| lo <= j < n && j != c implies #[trigger] heap_ok_at(s1, n, j) by {
        if j == i {
        } else if i > lo && j == (i - 1) / 2 {
            assert(heap_ok_at(s, n, j));
        } else {
            assert(heap_ok_at(s, n, j));
            assert(2 * j + 1 != i && 2 * j + 2 != i);
            assert(2 * j + 1 != c && 2 * j + 2 != c);
        }
    }
    assert(heap_ok_at(s, n, c));
}

/// Step `s` shows heapsort swapping a node with one of its children.
pub open spec fn swaps_with_child(s: Snapshot) -> bool {
    &&& s.kind is Heap
    &&& match s.kind->Heap_0.swapped {
        Some((p, c)) => c == 2 * p + 1 || c == 2 * p + 2,
        None => false,
    }
}

/// The heap step `v` shows its first `m` entries ordered as a heap from node
/// `lo` on, but for the node it marks as the one to sift down next.
pub open spec fn heap_but_sifted(v: VHeap, lo: int, m: int) -> bool {
    &&& v.heapifying is Some
    &&& forall|j: int| lo <= j < m && j != v.heapifying->0 ==> #[trigger] heap_ok_at(v.heap@, m, j)
}

/// Sifts the value at `node` down until it is no smaller than its children.
/// The subtrees of `node`'s children must be heaps; afterwards the subtree of
/// `node` is one. When moreover every node from `lo` on is in heap order but
/// `node`, and `node`'s children are no larger than its parent, every node
/// from `lo` on is in heap order afterwards.
#[verifier::spinoff_prover]
#[verifier::rlimit(100)]
fn heapify(
    node: Node,
    heap: &mut Heap,
    r: &mut RecorderState,
    trace: &mut Vec<Snapshot>,
    context: Expl,
    Ghost(lo): Ghost<int>,
    Ghost(x0): Ghost<Seq<usize>>,
    Ghost(r0): Ghost<RecorderView>,
)
    requires
        old(heap).wf(),
        old(heap).contents().len() <= usize::MAX / 2,
        0 <= lo <= node.index < old(heap).size(),
        subtree_heap_but(old(heap).contents(), old(heap).size() as int, node.index as nat),
        permutes(old(heap).contents(), x0),
        steps_ok(old(trace)@, x0, r0, old(r)@),
        old(trace)@.last().list_view() == old(heap).contents(),
        all_heaps(old(trace)@),
        heap_expls_true(old(trace)@),
        context == Expl::BuildingHeap || context == Expl::SiftingHeap,
    ensures
        all_heaps(final(trace)@),
        heap_expls_true(final(trace)@),
        final(heap).wf(),
        final(heap).size() == old(heap).size(),
        final(heap).contents().len() == old(heap).contents().len(),
        permutes(final(heap).contents(), x0),
        permutes(
            final(heap).contents().take(old(heap).size() as int),
            old(heap).contents().take(old(heap).size() as int),
        ),
        forall|k: int|
            old(heap).size() <= k < old(heap).contents().len() ==> final(heap).contents()[k]
                == old(heap).contents()[k],
        subtree_heap(final(heap).contents(), old(heap).size() as int, node.index as nat),
        forall|b: int|
            bounded_in(old(heap).contents(), old(heap).size() as int, node.index as nat, b)
                ==> #[trigger] bounded_in(
                final(heap).contents(),
                old(heap).size() as int,
                node.index as nat,
                b,
            ),
        sift_ready(old(heap).contents(), old(heap).size() as int, lo, node.index as int)
            ==> heap_from(final(heap).contents(), old(heap).size() as int, lo),
        sift_ready(old(heap).contents(), old(heap).size() as int, lo, node.index as int)
            ==> forall|k: int|
            old(trace)@.len() <= k < final(trace)@.len() ==> heap_but_sifted(
                (#[trigger] final(trace)@[k]).kind->Heap_0,
                lo,
                old(heap).size() as int,
            ),
        steps_ok(final(trace)@, x0, r0, final(r)@),
        final(trace)@.last().list_view() == final(heap).contents(),
        final(r)@.stack == old(r)@.stack,
        final(trace)@.len() >= old(trace)@.len(),
        forall|k: int| 0 <= k < old(trace)@.len() ==> final(trace)@[k] == old(trace)@[k],
        heap_ok_at(old(heap).contents(), old(heap).size() as int, node.index as int)
            ==> final(trace)@ == old(trace)@ && final(heap).contents() == old(heap).contents(),
        forall|k: int|
            0 <= k < old(heap).contents().len() && !in_subtree(node.index as nat, k as nat)
                ==> final(heap).contents()[k] == old(heap).contents()[k],
        forall|k: int|
            old(trace)@.len() <= k < final(trace)@.len() ==> {
                &&& swaps_with_child(#[trigger] final(trace)@[k])
                &&& final(trace)@[k].kind->Heap_0.n == old(heap).size()
                &&& final(trace)@[k].kind->Heap_0.expl@.len() == 3
                &&& final(trace)@[k].kind->Heap_0.expl@.last() == context
            },
        depth(node.index as nat) <= depth((old(heap).size() - 1) as nat),
        final(trace)@.len() - old(trace)@.len() <= depth((old(heap).size() - 1) as nat) - depth(
            node.index as nat,
        ),
        final(r)@.swaps == bump_by(old(r)@.swaps, (final(trace)@.len() - old(trace)@.len()) as nat),
        final(r)@.calls == bump_by(
            old(r)@.calls,
            (final(trace)@.len() - old(trace)@.len() + 1) as nat,
        ),
        old(r)@.comparisons <= final(r)@.comparisons,
        final(r)@.comparisons <= bump_by(
            old(r)@.comparisons,
            (2 * (depth((old(heap).size() - 1) as nat) + 1 - depth(node.index as nat))) as nat,
        ),
        final(heap).contents() == sift_down(old(heap).contents(), old(heap).size(), node.index as nat).0,
        steps_swap(
            final(trace)@,
            old(trace)@.len() as int,
            sift_down(old(heap).contents(), old(heap).size(), node.index as nat).1,
        ),
        final(r)@.comparisons == bump_by(
            old(r)@.comparisons,
            sift_down(old(heap).contents(), old(heap).size(), node.index as nat).2,
        ),
    decreases old(heap).size() - node.index,
{
    let ghost r_start = r@;
    let ghost s = heap.contents();
    let ghost n = heap.size() as int;
    let ghost t_start = trace@;
    proof {
        r.lemma_bounded();
        lemma_depth_mono(node.index as nat, (n - 1) as nat);
    }
    r.f_push("heapify");
    let children = node.children(heap);
    let key = |m: Node| -> (v: usize)
        requires
            m.index < heap.contents().len(),
        ensures
            v == heap.contents()[m.index as int],
        { m.value(heap) };
    let mut max = node;
    let ghost c_in = r@.comparisons;
    let ghost i0 = node.index as nat;
    let ghost l0: nat = 2 * i0 + 1;
    let ghost rt0: nat = 2 * i0 + 2;
    if let Some(c) = children[0] {
        max = r.max(max, c, key);
    }
    assert(max.index == (if l0 < n && s[l0 as int] > s[i0 as int] {
        l0
    } else {
        i0
    }));
    assert(r@.comparisons == bump_by(c_in, if l0 < n {
        1nat
    } else {
        0nat
    }));
    let ghost m1 = max.index as nat;
    if let Some(c) = children[1] {
        max = r.max(max, c, key);
    }
    assert(max.index == (if rt0 < n && s[rt0 as int] > s[m1 as int] {
        rt0
    } else {
        m1
    }));
    assert(max.index == sift_pick(s, n as nat, i0).0);
    assert(r@.comparisons == bump_by(c_in, sift_pick(s, n as nat, i0).1));
    proof {
        let i = node.index as int;
        assert(max.index == i || max.index == 2 * i + 1 || max.index == 2 * i + 2);
        assert(max.index < n);
        assert(2 * i + 1 < n ==> s[2 * i + 1] <= s[max.index as int]);
        assert(2 * i + 2 < n ==> s[2 * i + 2] <= s[max.index as int]);
        assert(s[i] <= s[max.index as int]);
        assert(max.index != i ==> s[i] < s[max.index as int]);
    }
    if max != node {
        proof {
            lemma_swap_permutes(s, node.index as int, max.index as int);
            crate::order::lemma_permutes_trans(swap_seq(s, node.index as int, max.index as int), s, x0);
        }
        heap.swap(node, max, r);
        let ghost s1 = heap.contents();
        let big = node.value(heap);
        let small = max.value(heap);
        let v = VHeap::new(heap, Some((node.index, max.index))).now_heapifying(max.index).expl(
            Expl::SwappedBecause(big, small),
        ).expl(Expl::NextSift(small)).expl(context).into_snapshot(r);
        proof {
            let vh = v.kind->Heap_0;
            assert(vh.expl@ == seq![Expl::SwappedBecause(big, small), Expl::NextSift(small), context]);
            assert(sift_reason_given(vh)) by {
                reveal(sift_reason_given);
            }
            assert forall|j: int| 0 <= j < vh.expl@.len() implies heap_expl_true(
                vh,
                #[trigger] vh.expl@[j],
            ) by {
                if j == 0 {
                    assert(big > small);
                }
            }
            lemma_expls_push(trace@, v);
        }
        push_step(trace, v, Ghost(x0), Ghost(r0));
        let ghost t1 = trace@;
        let ghost r1 = r@;
        proof {
            let i = node.index as int;
            let c = max.index as int;
            assert((c - 1) / 2 == i);
            let vh = v.kind->Heap_0;
            assert(vh.heap@ == s1);
            if sift_ready(s, n, lo, i) {
                lemma_sift_swap(s, n, lo, i, c);
                assert(heap_but_sifted(vh, lo, n));
                assert(sift_ready(s1, n, lo, c));
            }
            lemma_sift_down_ready(s, n, i as nat, c as nat);
            assert(!heap_ok_at(s, n, i));
            lemma_depth_child(i as nat);
            lemma_depth_mono(c as nat, (n - 1) as nat);
        }
        let ghost c1 = r@.comparisons;
        heapify(max, heap, r, trace, context, Ghost(lo), Ghost(x0), Ghost(r0));
        proof {
            let sp = sift_pick(s, n as nat, i0);
            let rest = sift_down(swap_seq(s, i0 as int, sp.0 as int), n as nat, sp.0);
            assert(sift_down(s, n as nat, i0) == (rest.0, seq![(i0 as int, sp.0 as int)] + rest.1, sp.1 + rest.2));
            assert(s1 == swap_seq(s, i0 as int, sp.0 as int));
            assert(steps_swap(t1, t_start.len() as int, seq![(i0 as int, sp.0 as int)])) by {
                assert(t1[t_start.len() as int] == v);
            }
            lemma_steps_swap_join(t1, trace@, t_start.len() as int, seq![(i0 as int, sp.0 as int)], rest.1);
            crate::recorder::lemma_bump_by_add(c_in, sp.1, rest.2);
            assert(c1 == bump_by(c_in, sp.1));
            let s2 = heap.contents();
            let i = node.index as int;
            let c = max.index as int;
            assert(s1.take(n) =~= swap_seq(s.take(n), i, c));
            lemma_swap_permutes(s.take(n), i, c);
            crate::order::lemma_permutes_trans(s2.take(n), s1.take(n), s.take(n));
            assert forall|k: int|
                0 <= k < s.len() && !in_subtree(i as nat, k as nat) implies s2[k] == s[k] by {
                lemma_subtree_child(i as nat, c as nat, k as nat);
            }
            lemma_sift_down_done(s, s1, heap.contents(), n, i as nat, c as nat);
            if sift_ready(s, n, lo, i) {
                assert forall|k: int| t_start.len() <= k < trace@.len() implies heap_but_sifted(
                    (#[trigger] trace@[k]).kind->Heap_0,
                    lo,
                    n,
                ) by {
                    if k < t1.len() {
                        assert(trace@[k] == t1[k]);
                        assert(k == t_start.len());
                        assert(t1[k] == v);
                    }
                }
            }
            assert forall|k: int| t_start.len() <= k < trace@.len() implies {
                &&& swaps_with_child(#[trigger] trace@[k])
                &&& trace@[k].kind->Heap_0.n == n
                &&& trace@[k].kind->Heap_0.expl@.len() == 3
                &&& trace@[k].kind->Heap_0.expl@.last() == context
            } by {
                if k < t1.len() {
                    assert(trace@[k] == t1[k]);
                    assert(k == t_start.len());
                    assert(t1[k] == v);
                }
            }
        }
    }
    proof {
        if max == node {
            assert(steps_swap(trace@, t_start.len() as int, Seq::<(int, int)>::empty()));
            if sift_ready(s, n, lo, node.index as int) {
                assert(heap_from(s, n, lo)) by {
                    assert forall|j: int| lo <= j < n implies #[trigger] heap_ok_at(s, n, j) by {
                        if j == node.index {
                        }
                    }
                }
            }
            assert(subtree_heap(s, n, node.index as nat)) by {
                reveal(subtree_heap);
                assert forall|j: int| 0 <= j < n && in_subtree(node.index as nat, j as nat) implies #[trigger] heap_ok_at(s, n, j) by {
                    if j == node.index {
                    }
                }
            }
            crate::order::lemma_permutes_refl(s.take(n));
        }
    }
    r.f_pop();
    proof {
        assert(r@.stack =~= r_start.stack);
    }
}

} // verus!
