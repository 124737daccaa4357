use vstd::prelude::*;

use crate::order::{lemma_swap_permutes, permutes, sorted, swap_seq};
use crate::recorder::{bump, RecorderState, RecorderView};
use crate::sorter::{push_step, run_ok, start_steps};
use crate::recorder::bump_by;
use crate::utils::{all_lists, lists_permute, stacks_are, steps_ok, Expl, Snapshot, SnapshotKind, VList};

verus! {

/// Ciura's gap sequence, largest gap first.
pub open spec fn ciura() -> Seq<usize> {
    seq![701usize, 301, 132, 57, 23, 10, 4, 1]
}

/// The gaps of `gs` that are below `n`, in their order.
pub open spec fn gaps_below(gs: Seq<usize>, n: nat) -> Seq<usize>
    decreases gs.len(),
{
    if gs.len() == 0 {
        Seq::empty()
    } else {
        let rest = gaps_below(gs.drop_last(), n);
        if gs.last() < n {
            rest.push(gs.last())
        } else {
            rest
        }
    }
}

/// The comparisons shellsort makes on a sorted list of `n` with the gaps
/// `gs`: one for each position from the gap on, in each pass.
pub open spec fn sorted_passes(gs: Seq<usize>, n: nat) -> nat
    decreases gs.len(),
{
    if gs.len() == 0 {
        0
    } else {
        sorted_passes(gs.drop_last(), n) + (n - gs.last()) as nat
    }
}

/// The gap that step `s` announces, if it starts a pass.
pub open spec fn gap_mark(s: Snapshot) -> Option<usize> {
    match s.kind {
        SnapshotKind::List(v) => match v.expl {
            Some(Expl::Gap(g)) => Some(g),
            _ => None,
        },
        _ => None,
    }
}

/// The gaps that the steps of `t` announce, in order.
pub open spec fn gap_marks(t: Seq<Snapshot>) -> Seq<usize>
    decreases t.len(),
{
    if t.len() == 0 {
        Seq::empty()
    } else {
        let rest = gap_marks(t.drop_last());
        match gap_mark(t.last()) {
            Some(g) => rest.push(g),
            None => rest,
        }
    }
}

/// The position that step `s` says it looks at, if it says so.
pub open spec fn index_mark(s: Snapshot) -> Option<usize> {
    match s.kind {
        SnapshotKind::List(v) => match v.expl {
            Some(Expl::Index(k)) => Some(k),
            _ => None,
        },
        _ => None,
    }
}

/// The positions that the steps of `t` say they look at, in order.
pub open spec fn index_marks(t: Seq<Snapshot>) -> Seq<usize>
    decreases t.len(),
{
    if t.len() == 0 {
        Seq::empty()
    } else {
        let rest = index_marks(t.drop_last());
        match index_mark(t.last()) {
            Some(k) => rest.push(k),
            None => rest,
        }
    }
}

/// The positions `lo`, `lo + 1`, up to `hi - 1`.
pub open spec fn positions(lo: nat, hi: nat) -> Seq<usize> {
    Seq::new((hi - lo) as nat, |t: int| (lo + t) as usize)
}

/// The positions the passes with the gaps `gs` carry down in a list of `n`
/// values, pass after pass: each pass every position from its gap on.
pub open spec fn pass_positions(gs: Seq<usize>, n: nat) -> Seq<usize>
    decreases gs.len(),
{
    if gs.len() == 0 {
        Seq::empty()
    } else {
        pass_positions(gs.drop_last(), n) + positions(gs.last() as nat, n)
    }
}

/// Step `s` shows a swap of two different positions.
pub open spec fn swaps_two(s: Snapshot) -> bool {
    match s.kind {
        SnapshotKind::List(v) => match v.swapped {
            Some((a, b)) => a != b,
            None => false,
        },
        _ => false,
    }
}

/// The swap that step `s` shows spans `gap`: the later position is `gap`
/// after the earlier one.
pub open spec fn swap_spans(s: Snapshot, gap: usize) -> bool {
    match s.kind {
        SnapshotKind::List(v) => match v.swapped {
            Some((a, b)) => a == b + gap,
            None => true,
        },
        _ => true,
    }
}

/// A list step that explains itself as looking at position `k` marks `k` as
/// its special position, and `k` is a position of the list.
pub open spec fn index_marked(s: Snapshot) -> bool {
    match s.kind {
        SnapshotKind::List(v) => match v.expl {
            Some(Expl::Index(k)) => v.special == Some(k) && k < v.list@.len(),
            _ => true,
        },
        _ => true,
    }
}

/// Every step of `t` that looks at a position marks that position.
pub open spec fn indices_marked(t: Seq<Snapshot>) -> bool {
    forall|q: int| 0 <= q < t.len() ==> index_marked(#[trigger] t[q])
}

/// In a shellsort run, a step that explains itself as looking at position `k`
/// marks that very position, and the list has it: the explanation names a
/// place in the list, never a value.
pub proof fn lemma_index_step(t: Seq<Snapshot>, q: int, k: usize)
    requires
        indices_marked(t),
        0 <= q < t.len(),
        t[q].kind is List,
        t[q].kind->List_0.expl == Some(Expl::Index(k)),
    ensures
        t[q].kind->List_0.special == Some(k),
        k < t[q].list_view().len(),
{
    assert(index_marked(t[q]));
}

/// The swaps of two different positions that the steps of `t` show, in order.
pub open spec fn swaps_shown(t: Seq<Snapshot>) -> Seq<(int, int)>
    decreases t.len(),
{
    if t.len() == 0 {
        Seq::empty()
    } else if swaps_two(t.last()) {
        swaps_shown(t.drop_last()).push(crate::utils::swap_pair(t.last())->Some_0)
    } else {
        swaps_shown(t.drop_last())
    }
}

/// Carrying the value at `j` down in steps of `g` while the value `g` before
/// it is larger: the list it leaves and, in order, the swaps it makes, each of
/// the position with the one `g` before it.
pub open spec fn gap_sink(x: Seq<usize>, j: nat, g: nat) -> (Seq<usize>, Seq<(int, int)>)
    decreases j,
{
    if g == 0 || j < g || j >= x.len() || !(x[j - g] > x[j as int]) {
        (x, Seq::empty())
    } else {
        let rest = gap_sink(swap_seq(x, j as int, j - g), (j - g) as nat, g);
        (rest.0, seq![(j as int, j - g)] + rest.1)
    }
}

/// A pass with gap `g` from position `i` to `n - 1`: each position in turn
/// carried down.
pub open spec fn gap_pass(x: Seq<usize>, g: nat, i: nat, n: nat) -> (Seq<usize>, Seq<(int, int)>)
    decreases n - i,
{
    if i >= n {
        (x, Seq::empty())
    } else {
        let p = gap_sink(x, i, g);
        let rest = gap_pass(p.0, g, i + 1, n);
        (rest.0, p.1 + rest.1)
    }
}

/// Shellsort's passes from Ciura's gap at index `k` on, each gap below the
/// length making one pass: the list they leave and the swaps they make.
pub open spec fn shell_from(x: Seq<usize>, k: nat) -> (Seq<usize>, Seq<(int, int)>)
    decreases ciura().len() - k,
{
    if k >= ciura().len() {
        (x, Seq::empty())
    } else if ciura()[k as int] >= x.len() {
        shell_from(x, k + 1)
    } else {
        let g = ciura()[k as int] as nat;
        let p = gap_pass(x, g, g, x.len());
        let rest = shell_from(p.0, k + 1);
        (rest.0, p.1 + rest.1)
    }
}

/// The swaps shellsort makes on `x`, in order.
pub open spec fn shell_swaps(x: Seq<usize>) -> Seq<(int, int)> {
    shell_from(x, 0).1
}

/// Every swap of two positions that a step of `t` shows spans the gap of its
/// pass: the last gap announced before it.
pub open spec fn swaps_span_gaps(t: Seq<Snapshot>) -> bool {
    forall|k: int|
        0 <= k < t.len() && swaps_two(#[trigger] t[k]) ==> gap_marks(t.take(k)).len() > 0
            && swap_spans(t[k], gap_marks(t.take(k)).last())
}

/// Every value of `s` is no larger than the one `g` positions after it.
pub open spec fn gap_sorted(s: Seq<usize>, g: int) -> bool {
    forall|p: int| g <= p < s.len() ==> s[p - g] <= #[trigger] s[p]
}

/// A list in which no value is above the next is sorted.
proof fn lemma_adjacent_sorted(s: Seq<usize>, a: int, b: int)
    requires
        gap_sorted(s, 1),
        0 <= a <= b < s.len(),
    ensures
        s[a] <= s[b],
    decreases b - a,
{
    if a < b {
        lemma_adjacent_sorted(s, a, b - 1);
        assert(s[b - 1] <= s[b]);
    }
}

/// Each step that announces a pass after the first shows the list left by the
/// pass before: sorted with that pass's gap.
pub open spec fn passes_sorted(t: Seq<Snapshot>) -> bool {
    forall|k: int|
        0 <= k < t.len() && (#[trigger] gap_mark(t[k])) is Some && gap_marks(t.take(k)).len() > 0
            ==> gap_sorted(t[k].list_view(), gap_marks(t.take(k)).last() as int)
}

/// One more step keeps every swap inside its pass, when a swap it shows spans
/// the gap announced last, and keeps each pass sorted by its gap when a pass it
/// announces starts from a list sorted by the gap before; it adds its own gap,
/// if it announces one.
pub proof fn lemma_marks_push(t: Seq<Snapshot>, s: Snapshot)
    requires
        swaps_span_gaps(t),
        swaps_two(s) ==> gap_marks(t).len() > 0 && swap_spans(s, gap_marks(t).last()),
        passes_sorted(t),
        gap_mark(s) is Some && gap_marks(t).len() > 0 ==> gap_sorted(
            s.list_view(),
            gap_marks(t).last() as int,
        ),
        index_marked(s),
    ensures
        indices_marked(t) ==> indices_marked(t.push(s)),
        index_marks(t.push(s)) == match index_mark(s) {
            Some(k) => index_marks(t).push(k),
            None => index_marks(t),
        },
        swaps_span_gaps(t.push(s)),
        passes_sorted(t.push(s)),
        swaps_shown(t.push(s)) == if swaps_two(s) {
            swaps_shown(t).push(crate::utils::swap_pair(s)->Some_0)
        } else {
            swaps_shown(t)
        },
        gap_marks(t.push(s)) == match gap_mark(s) {
            Some(g) => gap_marks(t).push(g),
            None => gap_marks(t),
        },
{
    let u = t.push(s);
    assert(u.drop_last() =~= t);
    if indices_marked(t) {
        assert forall|q: int| 0 <= q < u.len() implies index_marked(#[trigger] u[q]) by {
            if q < t.len() {
                assert(u[q] == t[q]);
            }
        }
    }
    assert forall|k: int| 0 <= k < u.len() && swaps_two(#[trigger] u[k]) implies gap_marks(
        u.take(k),
    ).len() > 0 && swap_spans(u[k], gap_marks(u.take(k)).last()) by {
        if k < t.len() {
            assert(u.take(k) =~= t.take(k));
            assert(u[k] == t[k]);
        } else {
            assert(u.take(k) =~= t);
        }
    }
    assert forall|k: int|
        0 <= k < u.len() && (#[trigger] gap_mark(u[k])) is Some && gap_marks(u.take(k)).len() > 0
            implies gap_sorted(u[k].list_view(), gap_marks(u.take(k)).last() as int) by {
        if k < t.len() {
            assert(u.take(k) =~= t.take(k));
            assert(u[k] == t[k]);
        } else {
            assert(u.take(k) =~= t);
        }
    }
}

/// The gaps below `n` among the first `k + 1` of `gs` are those among the
/// first `k`, and `gs[k]` too if it is below `n`.
proof fn lemma_gaps_step(gs: Seq<usize>, k: int, n: nat)
    requires
        0 <= k < gs.len(),
    ensures
        gaps_below(gs.take(k + 1), n) == if gs[k] < n {
            gaps_below(gs.take(k), n).push(gs[k])
        } else {
            gaps_below(gs.take(k), n)
        },
{
    assert(gs.take(k + 1).drop_last() =~= gs.take(k));
}

/// Ciura's gap sequence, largest gap first.
pub fn ciura_gaps() -> (g: Vec<usize>)
    ensures
        g@ == ciura(),
{
    let mut g: Vec<usize> = Vec::new();
    g.push(701);
    g.push(301);
    g.push(132);
    g.push(57);
    g.push(23);
    g.push(10);
    g.push(4);
    g.push(1);
    assert(g@ =~= seq![701usize, 301, 132, 57, 23, 10, 4, 1]);
    g
}

/// One pass of shellsort with gap `gap`: each position from `gap` on is
/// carried down in steps of `gap` while the value `gap` before it is larger.
/// Afterwards the list is sorted by `gap`; on a sorted list it changes nothing
/// and costs one comparison and one write-back per position from the gap on.
#[verifier::spinoff_prover]
#[verifier::rlimit(60)]
fn pass(
    x: &mut Vec<usize>,
    gap: usize,
    r: &mut RecorderState,
    trace: &mut Vec<Snapshot>,
    Ghost(x0): Ghost<Seq<usize>>,
    Ghost(r0): Ghost<RecorderView>,
    Ghost(c0): Ghost<nat>,
    Ghost(w0): Ghost<nat>,
    Ghost(base): Ghost<nat>,
    Ghost(im0): Ghost<Seq<usize>>,
)
    requires
        1 <= gap < old(x)@.len(),
        permutes(old(x)@, x0),
        steps_ok(old(trace)@, x0, r0, old(r)@),
        old(trace)@.last().list_view() == old(x)@,
        old(r)@.stack == r0.stack.push("shell"),
        stacks_are(old(trace)@, r0.stack.push("shell")),
        all_lists(old(trace)@),
        gap_marks(old(trace)@).len() > 0,
        gap_marks(old(trace)@).last() == gap,
        swaps_span_gaps(old(trace)@),
        passes_sorted(old(trace)@),
        indices_marked(old(trace)@),
        index_marks(old(trace)@) == im0,
        sorted(x0) ==> old(x)@ == x0,
        sorted(x0) ==> forall|q: int|
            0 <= q < old(trace)@.len() ==> #[trigger] old(trace)@[q].list_view() == x0,
        sorted(x0) ==> old(r)@.comparisons == bump_by(c0, base),
        sorted(x0) ==> old(r)@.swaps == bump_by(w0, base),
        sorted(x0) ==> forall|q: int| 0 <= q < old(trace)@.len() ==> !swaps_two(#[trigger] old(trace)@[q]),
    ensures
        final(x)@.len() == old(x)@.len(),
        permutes(final(x)@, x0),
        steps_ok(final(trace)@, x0, r0, final(r)@),
        final(trace)@.last().list_view() == final(x)@,
        final(r)@.stack == old(r)@.stack,
        stacks_are(final(trace)@, r0.stack.push("shell")),
        final(r)@.calls == old(r)@.calls,
        all_lists(final(trace)@),
        gap_marks(final(trace)@) == gap_marks(old(trace)@),
        swaps_span_gaps(final(trace)@),
        passes_sorted(final(trace)@),
        indices_marked(final(trace)@),
        index_marks(final(trace)@) == im0 + positions(gap as nat, old(x)@.len()),
        gap_sorted(final(x)@, gap as int),
        sorted(x0) ==> final(x)@ == x0,
        sorted(x0) ==> forall|q: int|
            0 <= q < final(trace)@.len() ==> #[trigger] final(trace)@[q].list_view() == x0,
        sorted(x0) ==> final(r)@.comparisons == bump_by(c0, (base + (old(x)@.len() - gap)) as nat),
        sorted(x0) ==> final(r)@.swaps == bump_by(w0, (base + (old(x)@.len() - gap)) as nat),
        sorted(x0) ==> forall|q: int| 0 <= q < final(trace)@.len() ==> !swaps_two(#[trigger] final(trace)@[q]),
        final(x)@ == gap_pass(old(x)@, gap as nat, gap as nat, old(x)@.len()).0,
        swaps_shown(final(trace)@) == swaps_shown(old(trace)@) + gap_pass(
            old(x)@,
            gap as nat,
            gap as nat,
            old(x)@.len(),
        ).1,
{
    let n = x.len();
    let mut i = gap;
    let ghost target = gap_pass(x@, gap as nat, gap as nat, n as nat);
    let ghost s_in = swaps_shown(trace@);
    proof {
        assert(s_in + target.1 =~= swaps_shown(trace@) + gap_pass(x@, gap as nat, i as nat, n as nat).1);
        assert(im0 + positions(gap as nat, gap as nat) =~= im0);
    }
    while i < n
        invariant
            1 <= gap < n,
            gap <= i <= n,
            n == old(x)@.len(),
            x@.len() == n,
            permutes(x@, x0),
            steps_ok(trace@, x0, r0, r@),
            trace@.last().list_view() == x@,
            r@.stack == r0.stack.push("shell"),
            stacks_are(trace@, r0.stack.push("shell")),
            r@.calls == old(r)@.calls,
            all_lists(trace@),
            gap_marks(trace@) == gap_marks(old(trace)@),
            gap_marks(trace@).len() > 0,
            gap_marks(trace@).last() == gap,
            swaps_span_gaps(trace@),
            sorted(x0) ==> x@ == x0,
            sorted(x0) ==> forall|q: int| 0 <= q < trace@.len() ==> #[trigger] trace@[q].list_view() == x0,
            sorted(x0) ==> r@.comparisons == bump_by(c0, (base + (i - gap)) as nat),
            sorted(x0) ==> r@.swaps == bump_by(w0, (base + (i - gap)) as nat),
            sorted(x0) ==> forall|q: int| 0 <= q < trace@.len() ==> !swaps_two(#[trigger] trace@[q]),
            passes_sorted(trace@),
            indices_marked(trace@),
            index_marks(trace@) == im0 + positions(gap as nat, i as nat),
            forall|p: int| gap <= p < i ==> x@[p - gap] <= #[trigger] x@[p],
            gap_pass(x@, gap as nat, i as nat, n as nat).0 == target.0,
            swaps_shown(trace@) + gap_pass(x@, gap as nat, i as nat, n as nat).1 == s_in + target.1,
        decreases n - i,
    {
        let tmp = x[i];
        let mut j = i;
        let ghost xi = x@;
        let ghost si = swaps_shown(trace@);
        let s = VList::new(x.as_slice()).expl(Expl::Index(i)).special(i).into_snapshot(
            r,
        ).fleeting();
        proof {
            lemma_marks_push(trace@, s);
            assert((im0 + positions(gap as nat, i as nat)).push(i) =~= im0 + positions(
                gap as nat,
                (i + 1) as nat,
            ));
        }
        push_step(trace, s, Ghost(x0), Ghost(r0));
        while j >= gap && r.gt(x[j - gap], tmp)
            invariant
                1 <= gap < n,
                gap <= i < n,
                j <= i,
                x@.len() == n,
                x@[j as int] == tmp,
                permutes(x@, x0),
                steps_ok(trace@, x0, r0, r@),
                trace@.last().list_view() == x@,
                r@.stack == r0.stack.push("shell"),
                stacks_are(trace@, r0.stack.push("shell")),
                r@.calls == old(r)@.calls,
                all_lists(trace@),
                gap_marks(trace@) == gap_marks(old(trace)@),
                gap_marks(trace@).len() > 0,
                gap_marks(trace@).last() == gap,
                swaps_span_gaps(trace@),
                sorted(x0) ==> x@ == x0 && j == i,
                sorted(x0) ==> forall|q: int| 0 <= q < trace@.len() ==> #[trigger] trace@[q].list_view() == x0,
                sorted(x0) ==> r@.comparisons == bump_by(c0, (base + (i - gap)) as nat),
                sorted(x0) ==> r@.swaps == bump_by(w0, (base + (i - gap)) as nat),
                sorted(x0) ==> forall|q: int| 0 <= q < trace@.len() ==> !swaps_two(#[trigger] trace@[q]),
                passes_sorted(trace@),
                indices_marked(trace@),
                index_marks(trace@) == im0 + positions(gap as nat, (i + 1) as nat),
                forall|p: int| gap <= p <= i && p != j && p != j + gap ==> x@[p - gap] <= #[trigger] x@[p],
                j + gap <= i ==> tmp <= x@[j + gap],
                j + gap <= i && j >= gap ==> x@[j - gap] <= x@[j + gap],
                gap_sink(x@, j as nat, gap as nat).0 == gap_sink(xi, i as nat, gap as nat).0,
                swaps_shown(trace@) + gap_sink(x@, j as nat, gap as nat).1 == si + gap_sink(
                    xi,
                    i as nat,
                    gap as nat,
                ).1,
            decreases j,
        {
            proof {
                if sorted(x0) {
                    assert(x0[j - gap] <= x0[j as int]);
                }
                lemma_swap_permutes(x@, j as int, j - gap);
            }
            let ghost xq = x@;
            let ghost sq = swaps_shown(trace@);
            r.swap(x, j, j - gap);
            proof {
                assert forall|p: int|
                    gap <= p <= i && p != j - gap && p != j implies x@[p - gap] <= #[trigger] x@[p] by {
                    if p == j + gap {
                        assert(xq[j - gap] <= xq[j + gap]);
                    } else {
                        assert(xq[p - gap] <= xq[p]);
                    }
                }
                if j >= 2 * gap {
                    assert(xq[j - 2 * gap] <= xq[j - gap]) by {
                        let p = j - gap;
                        assert(xq[p - gap] <= xq[p]);
                    }
                }
            }
            let s = VList::new(x.as_slice()).current(j).expl(Expl::ComparingWith(tmp)).swapped(
                j,
                j - gap,
            ).into_snapshot(r);
            proof {
                lemma_marks_push(trace@, s);
                let rest = gap_sink(x@, (j - gap) as nat, gap as nat);
                assert(gap_sink(xq, j as nat, gap as nat) == (rest.0, seq![(j as int, j - gap)] + rest.1));
                assert(crate::utils::swap_pair(s)->Some_0 == (j as int, j - gap));
                assert(sq.push((j as int, j - gap)) + rest.1 =~= sq + (seq![(j as int, j - gap)] + rest.1));
            }
            push_step(trace, s, Ghost(x0), Ghost(r0));
            j = j - gap;
        }
        proof {
            assert(gap_sink(x@, j as nat, gap as nat).1 =~= Seq::<(int, int)>::empty());
        }
        proof {
            assert forall|p: int| gap <= p < i + 1 implies x@[p - gap] <= #[trigger] x@[p] by {
                if p == j {
                } else if p == j + gap {
                }
            }
        }
        let nothing_done = x[j] == tmp;
        let ghost xb = x@;
        x.set(j, tmp);
        assert(x@ =~= xb);
        r.record_swap();
        if nothing_done {
            let s = VList::new(x.as_slice()).expl(Expl::DidNothing).into_snapshot(r).fleeting();
            proof {
                lemma_marks_push(trace@, s);
            }
            push_step(trace, s, Ghost(x0), Ghost(r0));
        } else {
            let s = VList::new(x.as_slice()).swapped(j, j).expl(Expl::RestoredValue).current(
                j,
            ).into_snapshot(r);
            proof {
                lemma_marks_push(trace@, s);
            }
            push_step(trace, s, Ghost(x0), Ghost(r0));
        }
        proof {
            let p = gap_sink(xi, i as nat, gap as nat);
            let rest = gap_pass(p.0, gap as nat, (i + 1) as nat, n as nat);
            assert(gap_pass(xi, gap as nat, i as nat, n as nat) == (rest.0, p.1 + rest.1));
            assert(si + p.1 + rest.1 =~= si + (p.1 + rest.1));
        }
        i = i + 1;
    }
    proof {
        assert(gap_pass(x@, gap as nat, i as nat, n as nat).1 =~= Seq::<(int, int)>::empty());
    }
}

/// Shellsort with Ciura's gaps. Returns every step it takes: each pass starts
/// with a step that announces its gap, the passes run over Ciura's gaps below
/// the length in order, and each swap spans the gap of its pass. A sorted list
/// is never changed and costs one comparison per position from the gap on, in
/// each pass.
#[verifier::spinoff_prover]
#[verifier::rlimit(40)]
pub fn sort(x: Vec<usize>, r: &mut RecorderState) -> (trace: Vec<Snapshot>)
    ensures
        run_ok(trace@, x@, old(r)@, final(r)@),
        lists_permute(trace@, 0, x@),
        crate::utils::steps_follow(trace@),
        final(r)@.calls == bump(old(r)@.calls),
        all_lists(trace@),
        stacks_are(trace@, old(r)@.stack.push("shell")),
        gap_marks(trace@) == gaps_below(ciura(), x@.len()),
        swaps_span_gaps(trace@),
        sorted(x@) ==> forall|q: int| 0 <= q < trace@.len() ==> #[trigger] trace@[q].list_view() == x@,
        sorted(x@) ==> final(r)@.comparisons == bump_by(
            old(r)@.comparisons,
            sorted_passes(gaps_below(ciura(), x@.len()), x@.len()),
        ),
        sorted(x@) ==> final(r)@.swaps == bump_by(
            old(r)@.swaps,
            sorted_passes(gaps_below(ciura(), x@.len()), x@.len()),
        ),
        sorted(x@) ==> forall|q: int| 0 <= q < trace@.len() ==> !swaps_two(#[trigger] trace@[q]),
        passes_sorted(trace@),
        indices_marked(trace@),
        index_marks(trace@) == pass_positions(gaps_below(ciura(), x@.len()), x@.len()),
        swaps_shown(trace@) == shell_swaps(x@),
{
    let ghost x0 = x@;
    let ghost r0 = r@;
    let ghost c0 = r@.comparisons;
    let ghost w0 = r@.swaps;
    let mut x = x;
    proof {
        r.lemma_bounded();
    }
    r.f_push("shell");
    let ghost r_in = r@;
    let first = VList::new(x.as_slice()).into_snapshot(r);
    let mut trace = start_steps(first);
    proof {
        assert(trace@.drop_last() =~= Seq::<Snapshot>::empty());
        assert(gap_mark(first) is None);
        assert(gap_marks(Seq::<Snapshot>::empty()) =~= Seq::<usize>::empty());
        assert(gap_marks(trace@) =~= Seq::<usize>::empty());
        assert(trace@[0] == first);
        assert(ciura().take(0) =~= Seq::<usize>::empty());
        assert(!swaps_two(first));
        assert(swaps_shown(Seq::<Snapshot>::empty()) =~= Seq::<(int, int)>::empty());
        assert(swaps_shown(trace@) =~= Seq::<(int, int)>::empty());
        assert(swaps_shown(trace@) + shell_swaps(x0) =~= shell_swaps(x0));
        assert(index_mark(first) is None);
        assert(index_marks(Seq::<Snapshot>::empty()) =~= Seq::<usize>::empty());
        assert(index_marks(trace@) =~= Seq::<usize>::empty());
        assert(pass_positions(gaps_below(ciura().take(0), x@.len()), x@.len()) =~= Seq::<usize>::empty());
    }
    let n = x.len();
    let gaps = ciura_gaps();
    let mut k: usize = 0;
    while k < gaps.len()
        invariant
            gaps@ == ciura(),
            k <= gaps@.len(),
            x@.len() == n,
            n == x0.len(),
            permutes(x@, x0),
            k == gaps@.len() ==> sorted(x@),
            steps_ok(trace@, x0, r0, r@),
            trace@.last().list_view() == x@,
            r@.stack == r0.stack.push("shell"),
            stacks_are(trace@, r0.stack.push("shell")),
            r@.calls == r_in.calls,
            all_lists(trace@),
            gap_marks(trace@) == gaps_below(ciura().take(k as int), n as nat),
            swaps_span_gaps(trace@),
            sorted(x0) ==> x@ == x0,
            sorted(x0) ==> forall|q: int| 0 <= q < trace@.len() ==> #[trigger] trace@[q].list_view() == x0,
            sorted(x0) ==> r@.comparisons == bump_by(
                c0,
                sorted_passes(gaps_below(ciura().take(k as int), n as nat), n as nat),
            ),
            sorted(x0) ==> r@.swaps == bump_by(
                w0,
                sorted_passes(gaps_below(ciura().take(k as int), n as nat), n as nat),
            ),
            sorted(x0) ==> forall|q: int| 0 <= q < trace@.len() ==> !swaps_two(#[trigger] trace@[q]),
            passes_sorted(trace@),
            indices_marked(trace@),
            index_marks(trace@) == pass_positions(gaps_below(ciura().take(k as int), n as nat), n as nat),
            gap_marks(trace@).len() > 0 ==> gap_sorted(x@, gap_marks(trace@).last() as int),
            swaps_shown(trace@) + shell_from(x@, k as nat).1 == shell_swaps(x0),
        decreases gaps@.len() - k,
    {
        let gap = gaps[k];
        let ghost xk = x@;
        let ghost kk = k as nat;
        let ghost sk = swaps_shown(trace@);
        let ghost base = sorted_passes(gaps_below(ciura().take(k as int), n as nat), n as nat);
        proof {
            lemma_gaps_step(ciura(), k as int, n as nat);
        }
        k = k + 1;
        if gap >= n {
            proof {
                if k == gaps@.len() {
                    assert(gap == 1);
                    assert forall|a: int, b: int| 0 <= a <= b < n implies x@[a] <= x@[b] by {
                        assert(a == b);
                    }
                }
            }
            continue;
        }
        proof {
            let g2 = gaps_below(ciura().take(k as int), n as nat);
            assert(g2.drop_last() == gaps_below(ciura().take(k - 1), n as nat));
            assert(sorted_passes(g2, n as nat) == base + (n - gap));
        }
        let s = VList::new(x.as_slice()).expl(Expl::Gap(gap)).into_snapshot(r);
        proof {
            lemma_marks_push(trace@, s);
        }
        push_step(&mut trace, s, Ghost(x0), Ghost(r0));
        let ghost im0 = index_marks(trace@);
        pass(
            &mut x,
            gap,
            r,
            &mut trace,
            Ghost(x0),
            Ghost(r0),
            Ghost(c0),
            Ghost(w0),
            Ghost(base),
            Ghost(im0),
        );
        proof {
            let g2 = gaps_below(ciura().take(k as int), n as nat);
            assert(g2.drop_last() =~= gaps_below(ciura().take(k - 1), n as nat));
            assert(pass_positions(g2, n as nat) == pass_positions(
                gaps_below(ciura().take(k - 1), n as nat),
                n as nat,
            ) + positions(gap as nat, n as nat));
        }
        proof {
            let p = gap_pass(xk, gap as nat, gap as nat, n as nat);
            let rest = shell_from(p.0, kk + 1);
            assert(ciura()[kk as int] == gap);
            assert(shell_from(xk, kk) == (rest.0, p.1 + rest.1));
            assert(sk + p.1 + rest.1 =~= sk + (p.1 + rest.1));
            if k == gaps@.len() {
                assert(gap == 1);
                assert forall|a: int, b: int| 0 <= a <= b < n implies x@[a] <= x@[b] by {
                    lemma_adjacent_sorted(x@, a, b);
                }
            }
        }
    }
    r.f_pop();
    proof {
        assert(r@.stack =~= r0.stack);
        assert(ciura().take(8) =~= ciura());
        assert(index_marks(trace@) == pass_positions(gaps_below(ciura(), n as nat), n as nat));
        assert(shell_from(x@, 8).1 =~= Seq::<(int, int)>::empty());
        assert(swaps_shown(trace@) =~= shell_swaps(x0));
    }
    trace
}

} // verus!
