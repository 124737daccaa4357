use vstd::prelude::*;

use rand::rngs::ThreadRng;
use rand::seq::SliceRandom;
use rand::Rng;

use crate::order::{
    lemma_permutes_refl, lemma_permutes_trans, lemma_swap_permutes, permutes, sorted, sorted_desc,
    swap_seq,
};
use crate::utils::str_eq;

verus! {

#[verifier::external_type_specification]
#[verifier::external_body]
pub struct ExThreadRng(ThreadRng);

/// rand's `Rng::random_range` on the range `lo..hi`: a value drawn from
/// `[lo, hi)`. It panics on an empty range, hence `lo < hi`.
#[verifier::external_body]
fn random_range(rng: &mut ThreadRng, lo: usize, hi: usize) -> (v: usize)
    requires
        lo < hi,
    ensures
        lo <= v < hi,
{
    rng.random_range(lo..hi)
}

/// rand's `SliceRandom::shuffle`: puts the values in a random order. It only
/// exchanges values, so the result is a rearrangement of the input; which one
/// is left unsaid.
#[verifier::external_body]
fn shuffle(v: &mut Vec<usize>, rng: &mut ThreadRng)
    ensures
        permutes(final(v)@, old(v)@),
{
    v.shuffle(rng)
}

/// How the values of a new list are chosen.
#[derive(Copy, Clone, PartialEq, Eq, Structural, Debug)]
pub enum DataGenerationOption {
    Sequential,
    RandomUniform,
    RandomGaussian,
}

/// How the values of a new list are arranged.
#[derive(Copy, Clone, PartialEq, Eq, Structural, Debug)]
pub enum DataShapeOption {
    Shuffled,
    Ascending,
    Descending,
    Mountain,
    Valley,
}

pub open spec fn generation_name(g: DataGenerationOption) -> Seq<char> {
    match g {
        DataGenerationOption::Sequential => "sequential"@,
        DataGenerationOption::RandomUniform => "rng: uniform"@,
        DataGenerationOption::RandomGaussian => "rng: gaussian"@,
    }
}

pub open spec fn shape_name(s: DataShapeOption) -> Seq<char> {
    match s {
        DataShapeOption::Shuffled => "shuffled"@,
        DataShapeOption::Ascending => "ascending"@,
        DataShapeOption::Descending => "descending"@,
        DataShapeOption::Mountain => "mountain"@,
        DataShapeOption::Valley => "valley"@,
    }
}

impl Default for DataGenerationOption {
    fn default() -> (g: DataGenerationOption)
        ensures
            g == DataGenerationOption::Sequential,
    {
        DataGenerationOption::Sequential
    }
}

impl Default for DataShapeOption {
    fn default() -> (s: DataShapeOption)
        ensures
            s == DataShapeOption::Shuffled,
    {
        DataShapeOption::Shuffled
    }
}

impl DataGenerationOption {
    /// The name under which the option is shown and chosen.
    pub fn name(&self) -> (r: &'static str)
        ensures
            r@ == generation_name(*self),
    {
        match self {
            DataGenerationOption::Sequential => "sequential",
            DataGenerationOption::RandomUniform => "rng: uniform",
            DataGenerationOption::RandomGaussian => "rng: gaussian",
        }
    }

    /// The option named `s`, or the default one when none has that name.
    pub fn from_name(s: &str) -> (g: DataGenerationOption)
        ensures
            forall|h: DataGenerationOption| generation_name(h) == s@ ==> g == h,
            (forall|h: DataGenerationOption| generation_name(h) != s@) ==> g
                == DataGenerationOption::Sequential,
    {
        proof {
            reveal_strlit("sequential");
            reveal_strlit("rng: uniform");
            reveal_strlit("rng: gaussian");
        }
        if str_eq("sequential", s) {
            assert(generation_name(DataGenerationOption::Sequential) == s@);
            assert forall|h: DataGenerationOption| generation_name(h) == s@ implies h
                == DataGenerationOption::Sequential by {
                if h != DataGenerationOption::Sequential {
                    assert(generation_name(h)[0] != s@[0]);
                }
            }
            DataGenerationOption::Sequential
        } else if str_eq("rng: uniform", s) {
            assert(generation_name(DataGenerationOption::RandomUniform) == s@);
            assert forall|h: DataGenerationOption| generation_name(h) == s@ implies h
                == DataGenerationOption::RandomUniform by {
                if h == DataGenerationOption::RandomGaussian {
                    assert(generation_name(h)[5] != s@[5]);
                }
            }
            DataGenerationOption::RandomUniform
        } else if str_eq("rng: gaussian", s) {
            assert(generation_name(DataGenerationOption::RandomGaussian) == s@);
            DataGenerationOption::RandomGaussian
        } else {
            DataGenerationOption::default()
        }
    }
}

impl DataShapeOption {
    /// The name under which the option is shown and chosen.
    pub fn name(&self) -> (r: &'static str)
        ensures
            r@ == shape_name(*self),
    {
        match self {
            DataShapeOption::Shuffled => "shuffled",
            DataShapeOption::Ascending => "ascending",
            DataShapeOption::Descending => "descending",
            DataShapeOption::Mountain => "mountain",
            DataShapeOption::Valley => "valley",
        }
    }

    /// The option named `s`, or the default one when none has that name.
    pub fn from_name(s: &str) -> (o: DataShapeOption)
        ensures
            forall|h: DataShapeOption| shape_name(h) == s@ ==> o == h,
            (forall|h: DataShapeOption| shape_name(h) != s@) ==> o == DataShapeOption::Shuffled,
    {
        proof {
            reveal_strlit("shuffled");
            reveal_strlit("ascending");
            reveal_strlit("descending");
            reveal_strlit("mountain");
            reveal_strlit("valley");
        }
        if str_eq("shuffled", s) {
            assert(shape_name(DataShapeOption::Shuffled) == s@);
            assert forall|h: DataShapeOption| shape_name(h) == s@ implies h
                == DataShapeOption::Shuffled by {
                if h != DataShapeOption::Shuffled {
                    assert(shape_name(h)[0] != s@[0] || shape_name(h).len() != s@.len());
                }
            }
            DataShapeOption::Shuffled
        } else if str_eq("ascending", s) {
            assert(shape_name(DataShapeOption::Ascending) == s@);
            assert forall|h: DataShapeOption| shape_name(h) == s@ implies h
                == DataShapeOption::Ascending by {
                if h != DataShapeOption::Ascending {
                    assert(shape_name(h)[0] != s@[0] || shape_name(h).len() != s@.len());
                }
            }
            DataShapeOption::Ascending
        } else if str_eq("descending", s) {
            assert(shape_name(DataShapeOption::Descending) == s@);
            assert forall|h: DataShapeOption| shape_name(h) == s@ implies h
                == DataShapeOption::Descending by {
                if h != DataShapeOption::Descending {
                    assert(shape_name(h)[0] != s@[0] || shape_name(h).len() != s@.len());
                }
            }
            DataShapeOption::Descending
        } else if str_eq("mountain", s) {
            assert(shape_name(DataShapeOption::Mountain) == s@);
            assert forall|h: DataShapeOption| shape_name(h) == s@ implies h
                == DataShapeOption::Mountain by {
                if h != DataShapeOption::Mountain {
                    assert(shape_name(h)[0] != s@[0] || shape_name(h).len() != s@.len());
                }
            }
            DataShapeOption::Mountain
        } else if str_eq("valley", s) {
            assert(shape_name(DataShapeOption::Valley) == s@);
            DataShapeOption::Valley
        } else {
            DataShapeOption::default()
        }
    }
}

/// `size` values drawn at random from `[10, 99)`.
pub fn uniform_values(rng: &mut ThreadRng, size: usize) -> (v: Vec<usize>)
    ensures
        v@.len() == size,
        forall|k: int| 0 <= k < size ==> 10 <= #[trigger] v@[k] < 99,
{
    let mut v: Vec<usize> = Vec::new();
    while v.len() < size
        invariant
            v@.len() <= size,
            forall|k: int| 0 <= k < v@.len() ==> 10 <= #[trigger] v@[k] < 99,
        decreases size - v@.len(),
    {
        let x = random_range(rng, 10, 99);
        v.push(x);
    }
    v
}

/// The values `1, 2, ..., size`.
pub fn sequential_values(size: usize) -> (v: Vec<usize>)
    ensures
        v@ == Seq::new(size as nat, |k: int| (k + 1) as usize),
{
    let mut v: Vec<usize> = Vec::new();
    let mut i: usize = 0;
    while i < size
        invariant
            i <= size,
            v@ == Seq::new(i as nat, |k: int| (k + 1) as usize),
        decreases size - i,
    {
        i = i + 1;
        v.push(i);
        assert(v@ =~= Seq::new(i as nat, |k: int| (k + 1) as usize));
    }
    v
}

/// `p` may come before `q` in ascending order, or in descending order.
pub open spec fn in_order(p: usize, q: usize, desc: bool) -> bool {
    if desc {
        p >= q
    } else {
        p <= q
    }
}

/// Every value of `s` may come before every later one.
pub open spec fn ordered(s: Seq<usize>, desc: bool) -> bool {
    forall|a: int, b: int| 0 <= a <= b < s.len() ==> in_order(s[a], s[b], desc)
}

/// Ascending order is `sorted`, descending order `sorted_desc`.
proof fn lemma_ordered(s: Seq<usize>)
    ensures
        ordered(s, false) == sorted(s),
        ordered(s, true) == sorted_desc(s),
{
    if ordered(s, false) {
        assert forall|a: int, b: int| 0 <= a <= b < s.len() implies s[a] <= s[b] by {
            assert(in_order(s[a], s[b], false));
        }
    }
    if sorted(s) {
        assert forall|a: int, b: int| 0 <= a <= b < s.len() implies in_order(s[a], s[b], false) by {
            assert(s[a] <= s[b]);
        }
    }
    if ordered(s, true) {
        assert forall|a: int, b: int| 0 <= a <= b < s.len() implies s[a] >= s[b] by {
            assert(in_order(s[a], s[b], true));
        }
    }
    if sorted_desc(s) {
        assert forall|a: int, b: int| 0 <= a <= b < s.len() implies in_order(s[a], s[b], true) by {
            assert(s[a] >= s[b]);
        }
    }
}

/// Sorts the region `[a, b)` of `v` in place, in ascending order or, with
/// `desc`, in descending order.
fn sort_range(v: &mut Vec<usize>, a: usize, b: usize, desc: bool)
    requires
        a <= b <= old(v)@.len(),
    ensures
        final(v)@.len() == old(v)@.len(),
        ordered(final(v)@.subrange(a as int, b as int), desc),
        permutes(final(v)@.subrange(a as int, b as int), old(v)@.subrange(a as int, b as int)),
        permutes(final(v)@, old(v)@),
        forall|k: int| 0 <= k < old(v)@.len() && !(a <= k < b) ==> final(v)@[k] == old(v)@[k],
{
    let ghost v0 = v@;
    let mut i = a;
    proof {
        lemma_permutes_refl(v@);
        lemma_permutes_refl(v@.subrange(a as int, b as int));
    }
    while i < b
        invariant
            a <= i <= b <= v@.len(),
            v@.len() == v0.len(),
            forall|p: int, q: int| a <= p <= q < i ==> in_order(v@[p], v@[q], desc),
            permutes(v@.subrange(a as int, b as int), v0.subrange(a as int, b as int)),
            permutes(v@, v0),
            forall|k: int| 0 <= k < v0.len() && !(a <= k < b) ==> v@[k] == v0[k],
        decreases b - i,
    {
        let mut j = i;
        while j > a
            invariant
                a <= j <= i < b <= v@.len(),
                v@.len() == v0.len(),
                forall|p: int, q: int| a <= p <= q < j ==> in_order(v@[p], v@[q], desc),
                forall|p: int, q: int| j < p <= q <= i ==> in_order(v@[p], v@[q], desc),
                forall|p: int, q: int| a <= p < j < q <= i ==> in_order(v@[p], v@[q], desc),
                forall|q: int| j < q <= i ==> in_order(v@[j as int], #[trigger] v@[q], desc),
                permutes(v@.subrange(a as int, b as int), v0.subrange(a as int, b as int)),
                permutes(v@, v0),
                forall|k: int| 0 <= k < v0.len() && !(a <= k < b) ==> v@[k] == v0[k],
            ensures
                v@.len() == v0.len(),
                forall|p: int, q: int| a <= p <= q <= i ==> in_order(v@[p], v@[q], desc),
                permutes(v@.subrange(a as int, b as int), v0.subrange(a as int, b as int)),
                permutes(v@, v0),
                forall|k: int| 0 <= k < v0.len() && !(a <= k < b) ==> v@[k] == v0[k],
            decreases j,
        {
            let before = if desc {
                v[j - 1] >= v[j]
            } else {
                v[j - 1] <= v[j]
            };
            if before {
                proof {
                    assert forall|p: int, q: int| a <= p <= q <= i implies in_order(v@[p], v@[q], desc) by {
                        if p < j && q == j {
                            if p < j - 1 {
                                assert(in_order(v@[p], v@[j - 1], desc));
                            }
                        }
                    }
                }
                break;
            }
            proof {
                lemma_swap_permutes(v@, j - 1, j as int);
                crate::order::lemma_swap_in_range(v@, a as int, b as int, j - 1, j as int);
                lemma_permutes_trans(
                    swap_seq(v@, j - 1, j as int).subrange(a as int, b as int),
                    v@.subrange(a as int, b as int),
                    v0.subrange(a as int, b as int),
                );
                lemma_permutes_trans(swap_seq(v@, j - 1, j as int), v@, v0);
            }
            let x = v[j - 1];
            let y = v[j];
            v.set(j - 1, y);
            v.set(j, x);
            j = j - 1;
        }
        i = i + 1;
    }
    proof {
        let sub = v@.subrange(a as int, b as int);
        assert forall|p: int, q: int| 0 <= p <= q < sub.len() implies in_order(sub[p], sub[q], desc) by {
            assert(in_order(v@[a + p], v@[a + q], desc));
        }
    }
}

/// The values at the even positions `0, 2, 4, ...` of `s`, `h` of them.
pub open spec fn evens(s: Seq<usize>, h: int) -> Seq<usize> {
    Seq::new(h as nat, |k: int| s[2 * k])
}

/// Sorts `v`, then brings the values at even positions, in order, to the front
/// half: position `k` of the front half receives position `2k`.
fn prepare_divide_list(v: &mut Vec<usize>)
    ensures
        final(v)@.len() == old(v)@.len(),
        permutes(final(v)@, old(v)@),
        exists|s: Seq<usize>|
            sorted(s) && permutes(s, old(v)@) && #[trigger] final(v)@.take(old(v)@.len() as int / 2)
                == evens(s, old(v)@.len() as int / 2),
{
    let ghost v0 = v@;
    let n = v.len();
    sort_range(v, 0, n, false);
    let ghost s = v@;
    proof {
        assert(v@.subrange(0, n as int) =~= v@);
        lemma_ordered(s);
        lemma_permutes_refl(s);
    }
    let mut i: usize = 0;
    while i < n / 2
        invariant
            i <= n / 2,
            n == v@.len(),
            permutes(v@, s),
            forall|k: int| 0 <= k < i ==> #[trigger] v@[k] == s[2 * k],
            forall|p: int| 2 * i <= p < n ==> #[trigger] v@[p] == s[p],
        decreases n / 2 - i,
    {
        proof {
            lemma_swap_permutes(v@, i as int, 2 * i);
            lemma_permutes_trans(swap_seq(v@, i as int, 2 * i), v@, s);
        }
        let x = v[i];
        let y = v[2 * i];
        v.set(i, y);
        v.set(2 * i, x);
        i = i + 1;
    }
    proof {
        assert(v@.take(n as int / 2) =~= evens(s, n as int / 2));
        lemma_permutes_trans(v@, s, v0);
    }
}

/// Arranges `v` as `shape` asks: in a random order, ascending, descending, as
/// a mountain (rising, then falling) or as a valley (falling, then rising).
/// Mountain and valley put the values at the even positions of the sorted list
/// in the first half and the others in the second.
pub fn shape_values(rng: &mut ThreadRng, v: Vec<usize>, shape: DataShapeOption) -> (r: Vec<usize>)
    ensures
        permutes(r@, v@),
        shape == DataShapeOption::Ascending ==> sorted(r@),
        shape == DataShapeOption::Descending ==> sorted_desc(r@),
        shape == DataShapeOption::Mountain ==> {
            &&& sorted(r@.take(v@.len() as int / 2))
            &&& sorted_desc(r@.skip(v@.len() as int / 2))
            &&& forall|s: Seq<usize>|
                sorted(s) && permutes(s, v@) ==> #[trigger] evens(s, v@.len() as int / 2) == r@.take(
                    v@.len() as int / 2,
                )
        },
        shape == DataShapeOption::Valley ==> {
            &&& sorted_desc(r@.take(v@.len() as int / 2))
            &&& sorted(r@.skip(v@.len() as int / 2))
            &&& forall|s: Seq<usize>|
                sorted(s) && permutes(s, v@) ==> #[trigger] evens(s, v@.len() as int / 2).reverse()
                    == r@.take(v@.len() as int / 2)
        },
{
    let mut v = v;
    let ghost v0 = v@;
    let n = v.len();
    let h = n / 2;
    proof {
        lemma_ordered(v@);
    }
    match shape {
        DataShapeOption::Shuffled => {
            shuffle(&mut v, rng);
        },
        DataShapeOption::Ascending => {
            sort_range(&mut v, 0, n, false);
            proof {
                assert(v@.subrange(0, n as int) =~= v@);
                lemma_ordered(v@);
            }
        },
        DataShapeOption::Descending => {
            sort_range(&mut v, 0, n, true);
            proof {
                assert(v@.subrange(0, n as int) =~= v@);
                lemma_ordered(v@);
            }
        },
        DataShapeOption::Mountain => {
            prepare_divide_list(&mut v);
            let ghost v1 = v@;
            sort_range(&mut v, 0, h, false);
            let ghost v2 = v@;
            sort_range(&mut v, h, n, true);
            proof {
                lemma_permutes_trans(v@, v2, v1);
                lemma_permutes_trans(v@, v1, v0);
                assert(v@.take(h as int) =~= v@.subrange(0, h as int));
                assert(v2.subrange(0, h as int) =~= v@.subrange(0, h as int));
                assert(v@.skip(h as int) =~= v@.subrange(h as int, n as int));
                lemma_ordered(v@.take(h as int));
                lemma_ordered(v@.skip(h as int));
                let s0 = choose|s: Seq<usize>|
                    sorted(s) && permutes(s, v0) && #[trigger] v1.take(h as int) == evens(s, h as int);
                assert(s0.len() == v0.len()) by {
                    broadcast use vstd::seq_lib::to_multiset_len;
                    assert(s0.len() == s0.to_multiset().len());
                    assert(v0.len() == v0.to_multiset().len());
                }
                assert(v1.take(h as int) =~= v1.subrange(0, h as int));
                assert(sorted(evens(s0, h as int))) by {
                    assert forall|p: int, q: int| 0 <= p <= q < h implies evens(s0, h as int)[p]
                        <= evens(s0, h as int)[q] by {
                        assert(s0[2 * p] <= s0[2 * q]);
                    }
                }
                crate::order::lemma_sorted_unique(v@.take(h as int), evens(s0, h as int));
                assert forall|s: Seq<usize>| sorted(s) && permutes(s, v0) implies #[trigger] evens(
                    s,
                    h as int,
                ) == v@.take(h as int) by {
                    lemma_permutes_trans(s, v0, s0);
                    crate::order::lemma_sorted_unique(s, s0);
                }
            }
        },
        DataShapeOption::Valley => {
            prepare_divide_list(&mut v);
            let ghost v1 = v@;
            sort_range(&mut v, h, n, false);
            let ghost v2 = v@;
            sort_range(&mut v, 0, h, true);
            proof {
                lemma_permutes_trans(v@, v2, v1);
                lemma_permutes_trans(v@, v1, v0);
                assert(v@.take(h as int) =~= v@.subrange(0, h as int));
                assert(v@.skip(h as int) =~= v@.subrange(h as int, n as int));
                assert(v2.subrange(h as int, n as int) =~= v@.subrange(h as int, n as int));
                lemma_ordered(v@.take(h as int));
                lemma_ordered(v@.skip(h as int));
                let s0 = choose|s: Seq<usize>|
                    sorted(s) && permutes(s, v0) && #[trigger] v1.take(h as int) == evens(s, h as int);
                assert(s0.len() == v0.len()) by {
                    broadcast use vstd::seq_lib::to_multiset_len;
                    assert(s0.len() == s0.to_multiset().len());
                    assert(v0.len() == v0.to_multiset().len());
                }
                assert(v1.take(h as int) =~= v1.subrange(0, h as int));
                assert(v2.subrange(0, h as int) =~= v1.subrange(0, h as int));
                let ev = evens(s0, h as int);
                assert(sorted_desc(ev.reverse())) by {
                    assert forall|p: int, q: int| 0 <= p <= q < h implies ev.reverse()[p] >= ev.reverse()[q] by {
                        assert(s0[2 * (h - 1 - q)] <= s0[2 * (h - 1 - p)]);
                    }
                }
                ev.lemma_reverse_to_multiset();
                lemma_permutes_trans(v@.take(h as int), ev, ev.reverse());
                crate::order::lemma_sorted_desc_unique(v@.take(h as int), ev.reverse());
                assert forall|s: Seq<usize>| sorted(s) && permutes(s, v0) implies #[trigger] evens(
                    s,
                    h as int,
                ).reverse() == v@.take(h as int) by {
                    lemma_permutes_trans(s, v0, s0);
                    crate::order::lemma_sorted_unique(s, s0);
                }
            }
        },
    }
    v
}

} // verus!
