use vstd::prelude::*;

verus! {

/// `s` is in ascending order.
pub open spec fn sorted(s: Seq<usize>) -> bool {
    forall|i: int, j: int| 0 <= i <= j < s.len() ==> s[i] <= s[j]
}

/// `s` is in descending order.
pub open spec fn sorted_desc(s: Seq<usize>) -> bool {
    forall|i: int, j: int| 0 <= i <= j < s.len() ==> s[i] >= s[j]
}

/// `a` and `b` hold the same values, each as often.
pub open spec fn permutes(a: Seq<usize>, b: Seq<usize>) -> bool {
    a.to_multiset() == b.to_multiset()
}

/// `s` with the values at `i` and `j` exchanged.
pub open spec fn swap_seq(s: Seq<usize>, i: int, j: int) -> Seq<usize> {
    s.update(i, s[j]).update(j, s[i])
}

/// Exchanging two values keeps the multiset of values.
pub proof fn lemma_swap_permutes(s: Seq<usize>, i: int, j: int)
    requires
        0 <= i < s.len(),
        0 <= j < s.len(),
    ensures
        permutes(swap_seq(s, i, j), s),
        swap_seq(s, i, j).len() == s.len(),
{
    broadcast use vstd::seq_lib::to_multiset_update;
    broadcast use vstd::multiset::group_multiset_axioms;

    let s1 = s.update(i, s[j]);
    assert(s1[j] == if i == j { s[j] } else { s[j] });
    assert(s1.to_multiset() == s.to_multiset().insert(s[j]).remove(s[i]));
    assert(swap_seq(s, i, j).to_multiset() == s1.to_multiset().insert(s[i]).remove(s1[j]));
    assert(s.to_multiset().count(s[i]) > 0) by {
        broadcast use vstd::seq_lib::to_multiset_contains;
        assert(s.contains(s[i]));
    }
    assert(swap_seq(s, i, j).to_multiset() =~= s.to_multiset());
}

/// Every sequence is a rearrangement of itself.
pub proof fn lemma_permutes_refl(a: Seq<usize>)
    ensures
        permutes(a, a),
{
}

/// Being a permutation of is an equivalence.
pub proof fn lemma_permutes_trans(a: Seq<usize>, b: Seq<usize>, c: Seq<usize>)
    requires
        permutes(a, b),
        permutes(b, c),
    ensures
        permutes(a, c),
{
}

/// Two sorted rearrangements of the same values are equal: sorting has one
/// outcome.
pub proof fn lemma_sorted_unique(a: Seq<usize>, b: Seq<usize>)
    requires
        sorted(a),
        sorted(b),
        permutes(a, b),
    ensures
        a == b,
    decreases a.len(),
{
    broadcast use vstd::seq_lib::to_multiset_len;
    assert(a.len() == a.to_multiset().len());
    assert(b.len() == b.to_multiset().len());
    if a.len() > 0 {
        let i = lemma_permutes_contains(a, b, 0);
        let j = lemma_permutes_contains(b, a, 0);
        assert(b[0] <= b[i]);
        assert(a[0] <= a[j]);
        assert(a[0] == b[0]);
        let a1 = a.drop_first();
        let b1 = b.drop_first();
        assert(a =~= a1.insert(0, a[0]));
        assert(b =~= b1.insert(0, b[0]));
        vstd::seq_lib::to_multiset_insert(a1, 0, a[0]);
        vstd::seq_lib::to_multiset_insert(b1, 0, b[0]);
        assert(a1.to_multiset() =~= a.to_multiset().remove(a[0])) by {
            broadcast use vstd::multiset::group_multiset_axioms;
        }
        assert(b1.to_multiset() =~= b.to_multiset().remove(b[0])) by {
            broadcast use vstd::multiset::group_multiset_axioms;
        }
        assert(sorted(a1)) by {
            assert forall|p: int, q: int| 0 <= p <= q < a1.len() implies a1[p] <= a1[q] by {
                assert(a[p + 1] <= a[q + 1]);
            }
        }
        assert(sorted(b1)) by {
            assert forall|p: int, q: int| 0 <= p <= q < b1.len() implies b1[p] <= b1[q] by {
                assert(b[p + 1] <= b[q + 1]);
            }
        }
        lemma_sorted_unique(a1, b1);
        assert(a =~= b);
    } else {
        assert(a =~= b);
    }
}

/// Two rearrangements of the same values in descending order are equal.
pub proof fn lemma_sorted_desc_unique(a: Seq<usize>, b: Seq<usize>)
    requires
        sorted_desc(a),
        sorted_desc(b),
        permutes(a, b),
    ensures
        a == b,
{
    a.lemma_reverse_to_multiset();
    b.lemma_reverse_to_multiset();
    assert(sorted(a.reverse())) by {
        assert forall|p: int, q: int| 0 <= p <= q < a.len() implies a.reverse()[p] <= a.reverse()[q] by {
            assert(a[a.len() - 1 - q] >= a[a.len() - 1 - p]);
        }
    }
    assert(sorted(b.reverse())) by {
        assert forall|p: int, q: int| 0 <= p <= q < b.len() implies b.reverse()[p] <= b.reverse()[q] by {
            assert(b[b.len() - 1 - q] >= b[b.len() - 1 - p]);
        }
    }
    lemma_sorted_unique(a.reverse(), b.reverse());
    assert(a =~= a.reverse().reverse());
    assert(b =~= b.reverse().reverse());
}

/// Exchanging two values inside `[s, e)` exchanges them in that region too,
/// which keeps the region's multiset of values.
pub proof fn lemma_swap_in_range(x: Seq<usize>, s: int, e: int, a: int, b: int)
    requires
        0 <= s <= a < e <= x.len(),
        s <= b < e,
    ensures
        swap_seq(x, a, b).subrange(s, e) == swap_seq(x.subrange(s, e), a - s, b - s),
        permutes(swap_seq(x, a, b).subrange(s, e), x.subrange(s, e)),
{
    assert(swap_seq(x, a, b).subrange(s, e) =~= swap_seq(x.subrange(s, e), a - s, b - s));
    lemma_swap_permutes(x.subrange(s, e), a - s, b - s);
}

/// Each value of a rearrangement of `b` is a value of `b`.
pub proof fn lemma_permutes_contains(a: Seq<usize>, b: Seq<usize>, k: int) -> (idx: int)
    requires
        permutes(a, b),
        0 <= k < a.len(),
    ensures
        0 <= idx < b.len(),
        b[idx] == a[k],
{
    broadcast use vstd::seq_lib::to_multiset_contains;
    assert(a.contains(a[k]));
    assert(a.to_multiset().count(a[k]) > 0);
    assert(b.contains(a[k]));
    choose|i: int| 0 <= i < b.len() && b[i] == a[k]
}

} // verus!
