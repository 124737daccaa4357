use vstd::prelude::*;

use crate::order::swap_seq;

verus! {

/// What a `RecorderState` holds, in mathematical terms.
pub struct RecorderView {
    pub comparisons: nat,
    pub swaps: nat,
    pub calls: nat,
    pub stack: Seq<&'static str>,
}

/// One more, unless the counter has reached the largest `usize`, where it stays.
pub open spec fn bump(n: nat) -> nat {
    if n < usize::MAX {
        n + 1
    } else {
        n
    }
}

/// `n` raised by `k`, stopping at the largest `usize`.
pub open spec fn bump_by(n: nat, k: nat) -> nat {
    if n + k <= usize::MAX {
        n + k
    } else {
        usize::MAX as nat
    }
}

/// Counting `a` and then `b` is counting `a + b`, and counting never lowers a
/// counter that fits in a `usize`.
pub proof fn lemma_bump_by_add(n: nat, a: nat, b: nat)
    requires
        n <= usize::MAX,
    ensures
        bump_by(bump_by(n, a), b) == bump_by(n, a + b),
        n <= bump_by(n, a),
        bump(n) == bump_by(n, 1),
{
}

/// Counting never lowers a counter: what one count after another gives is
/// above what each of them started from.
pub proof fn lemma_counts_le_trans(a: RecorderView, b: RecorderView, c: RecorderView)
    requires
        counts_le(a, b),
        counts_le(b, c),
    ensures
        counts_le(a, c),
        counts_le(a, a),
{
}

/// What one call of a counting method counts: `lt`, `gt`, `max` and `min`
/// count a comparison, `swap`, `record_merge` and `record_swap` a swap, and
/// `f_push` a call.
pub enum Count {
    Comparison,
    Swap,
    Call,
}

/// The counters after counting `c` once, as the method that counts it leaves
/// them.
pub open spec fn count_once(v: RecorderView, c: Count) -> RecorderView {
    match c {
        Count::Comparison => RecorderView { comparisons: bump(v.comparisons), ..v },
        Count::Swap => RecorderView { swaps: bump(v.swaps), ..v },
        Count::Call => RecorderView { calls: bump(v.calls), ..v },
    }
}

/// The counters after counting each of `cs` in turn.
pub open spec fn count_all(v: RecorderView, cs: Seq<Count>) -> RecorderView
    decreases cs.len(),
{
    if cs.len() == 0 {
        v
    } else {
        count_once(count_all(v, cs.drop_last()), cs.last())
    }
}

/// How often `c` occurs in `cs`.
pub open spec fn occurrences(cs: Seq<Count>, c: Count) -> nat
    decreases cs.len(),
{
    if cs.len() == 0 {
        0
    } else {
        occurrences(cs.drop_last(), c) + if cs.last() == c {
            1nat
        } else {
            0nat
        }
    }
}

/// Counting over a whole run: after any sequence of counting calls, each
/// counter has grown by the number of calls that count it (stopping at the
/// largest `usize`), and nothing else has changed.
pub proof fn lemma_count_run(v: RecorderView, cs: Seq<Count>)
    requires
        v.comparisons <= usize::MAX,
        v.swaps <= usize::MAX,
        v.calls <= usize::MAX,
    ensures
        count_all(v, cs).comparisons == bump_by(v.comparisons, occurrences(cs, Count::Comparison)),
        count_all(v, cs).swaps == bump_by(v.swaps, occurrences(cs, Count::Swap)),
        count_all(v, cs).calls == bump_by(v.calls, occurrences(cs, Count::Call)),
        count_all(v, cs).stack == v.stack,
    decreases cs.len(),
{
    if cs.len() > 0 {
        lemma_count_run(v, cs.drop_last());
    }
}

/// No counter of `a` is above that of `b`.
pub open spec fn counts_le(a: RecorderView, b: RecorderView) -> bool {
    &&& a.comparisons <= b.comparisons
    &&& a.swaps <= b.swaps
    &&& a.calls <= b.calls
}

/// Performance figures of a running sort: element comparisons, element moves
/// (swaps and merge writes), calls of the algorithm's functions, and the stack
/// of those calls that are still running.
pub struct RecorderState {
    comparisons: usize,
    swaps: usize,
    stack: Vec<&'static str>,
    calls: usize,
}

impl View for RecorderState {
    type V = RecorderView;

    closed spec fn view(&self) -> RecorderView {
        RecorderView {
            comparisons: self.comparisons as nat,
            swaps: self.swaps as nat,
            calls: self.calls as nat,
            stack: self.stack@,
        }
    }
}

impl Default for RecorderState {
    fn default() -> (r: RecorderState)
        ensures
            r@ == (RecorderView { comparisons: 0, swaps: 0, calls: 0, stack: Seq::empty() }),
    {
        RecorderState::new()
    }
}

impl RecorderState {
    /// Every counter fits in a `usize`.
    pub proof fn lemma_bounded(&self)
        ensures
            self@.comparisons <= usize::MAX,
            self@.swaps <= usize::MAX,
            self@.calls <= usize::MAX,
    {
    }

    /// A recorder with every count at zero and no call running.
    pub fn new() -> (r: RecorderState)
        ensures
            r@ == (RecorderView { comparisons: 0, swaps: 0, calls: 0, stack: Seq::empty() }),
    {
        RecorderState { comparisons: 0, swaps: 0, stack: Vec::new(), calls: 0 }
    }

    /// Counts a call of `name` and puts it on the call stack.
    pub fn f_push(&mut self, name: &'static str)
        ensures
            final(self)@ == (RecorderView { stack: old(self)@.stack.push(name), ..count_once(old(self)@, Count::Call) }),
            final(self)@ == (RecorderView {
                calls: bump(old(self)@.calls),
                stack: old(self)@.stack.push(name),
                ..old(self)@
            }),
    {
        self.calls = self.calls.saturating_add(1);
        self.stack.push(name);
    }

    /// Takes the innermost running call off the stack and returns it.
    pub fn f_pop(&mut self) -> (r: Option<&'static str>)
        ensures
            old(self)@.stack.len() == 0 ==> r is None && final(self)@ == old(self)@,
            old(self)@.stack.len() > 0 ==> r == Some(old(self)@.stack.last()) && final(self)@ == (
            RecorderView { stack: old(self)@.stack.drop_last(), ..old(self)@ }),
    {
        self.stack.pop()
    }

    /// Counts one comparison and tells whether `a < b`.
    pub fn lt(&mut self, a: usize, b: usize) -> (r: bool)
        ensures
            final(self)@ == count_once(old(self)@, Count::Comparison),
            r == (a < b),
            final(self)@ == (RecorderView {
                comparisons: bump(old(self)@.comparisons),
                ..old(self)@
            }),
    {
        self.comparisons = self.comparisons.saturating_add(1);
        a < b
    }

    /// Counts one comparison and tells whether `a > b`.
    pub fn gt(&mut self, a: usize, b: usize) -> (r: bool)
        ensures
            final(self)@ == count_once(old(self)@, Count::Comparison),
            r == (a > b),
            final(self)@ == (RecorderView {
                comparisons: bump(old(self)@.comparisons),
                ..old(self)@
            }),
    {
        self.comparisons = self.comparisons.saturating_add(1);
        a > b
    }

    /// Counts one comparison and returns whichever of `a` and `b` has the larger
    /// key, `a` on a tie.
    pub fn max<T: Copy, F: Fn(T) -> usize>(&mut self, a: T, b: T, key: F) -> (r: T)
        requires
            key.requires((a,)),
            key.requires((b,)),
        ensures
            final(self)@ == count_once(old(self)@, Count::Comparison),
            exists|ka: usize, kb: usize|
                #![trigger key.ensures((a,), ka), key.ensures((b,), kb)]
                key.ensures((a,), ka) && key.ensures((b,), kb) && r == (if ka >= kb {
                    a
                } else {
                    b
                }),
            final(self)@ == (RecorderView {
                comparisons: bump(old(self)@.comparisons),
                ..old(self)@
            }),
    {
        self.comparisons = self.comparisons.saturating_add(1);
        let ka = key(a);
        let kb = key(b);
        if ka >= kb {
            a
        } else {
            b
        }
    }

    /// Counts one comparison and returns whichever of `a` and `b` has the smaller
    /// key, `a` on a tie.
    pub fn min<F: Fn(usize) -> usize>(&mut self, a: usize, b: usize, key: F) -> (r: usize)
        requires
            key.requires((a,)),
            key.requires((b,)),
        ensures
            final(self)@ == count_once(old(self)@, Count::Comparison),
            exists|ka: usize, kb: usize|
                #![trigger key.ensures((a,), ka), key.ensures((b,), kb)]
                key.ensures((a,), ka) && key.ensures((b,), kb) && r == (if ka <= kb {
                    a
                } else {
                    b
                }),
            final(self)@ == (RecorderView {
                comparisons: bump(old(self)@.comparisons),
                ..old(self)@
            }),
    {
        self.comparisons = self.comparisons.saturating_add(1);
        let ka = key(a);
        let kb = key(b);
        if ka <= kb {
            a
        } else {
            b
        }
    }

    /// Counts one swap and exchanges `x[a]` and `x[b]`.
    pub fn swap(&mut self, x: &mut Vec<usize>, a: usize, b: usize)
        requires
            a < old(x).len(),
            b < old(x).len(),
        ensures
            final(self)@ == count_once(old(self)@, Count::Swap),
            final(x)@ == swap_seq(old(x)@, a as int, b as int),
            final(self)@ == (RecorderView { swaps: bump(old(self)@.swaps), ..old(self)@ }),
    {
        self.swaps = self.swaps.saturating_add(1);
        let va = x[a];
        let vb = x[b];
        x.set(a, vb);
        x.set(b, va);
    }

    /// Counts one element written by a merge as a swap.
    pub fn record_merge(&mut self)
        ensures
            final(self)@ == count_once(old(self)@, Count::Swap),
            final(self)@ == (RecorderView { swaps: bump(old(self)@.swaps), ..old(self)@ }),
    {
        self.swaps = self.swaps.saturating_add(1);
    }

    /// Counts one element written back by shellsort as a swap.
    pub fn record_swap(&mut self)
        ensures
            final(self)@ == count_once(old(self)@, Count::Swap),
            final(self)@ == (RecorderView { swaps: bump(old(self)@.swaps), ..old(self)@ }),
    {
        self.swaps = self.swaps.saturating_add(1);
    }

    pub fn count_comparisons(&self) -> (r: usize)
        ensures
            r == self@.comparisons,
    {
        self.comparisons
    }

    pub fn count_swaps(&self) -> (r: usize)
        ensures
            r == self@.swaps,
    {
        self.swaps
    }

    pub fn count_calls(&self) -> (r: usize)
        ensures
            r == self@.calls,
    {
        self.calls
    }

    /// The running calls, outermost first.
    pub fn get_call_stack(&self) -> (r: &[&'static str])
        ensures
            r@ == self@.stack,
    {
        self.stack.as_slice()
    }

    /// An independent copy of the figures as they stand now.
    pub fn copy(&self) -> (r: RecorderState)
        ensures
            r@ == self@,
    {
        let mut stack: Vec<&'static str> = Vec::new();
        let mut i: usize = 0;
        while i < self.stack.len()
            invariant
                i <= self.stack.len(),
                stack@ == self.stack@.take(i as int),
            decreases self.stack.len() - i,
        {
            stack.push(self.stack[i]);
            i = i + 1;
            assert(stack@ =~= self.stack@.take(i as int));
        }
        assert(stack@ =~= self.stack@);
        RecorderState {
            comparisons: self.comparisons,
            swaps: self.swaps,
            stack,
            calls: self.calls,
        }
    }
}

} // verus!
