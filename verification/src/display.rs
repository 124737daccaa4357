use vstd::prelude::*;
use vstd::arithmetic::power2::pow2;

use crate::sorter::heap::{depth, lemma_depth_bounds, Node};

verus! {

/// The list size that the tutor starts with: a power of two minus two, which
/// gives heapsort an almost full tree.
pub const DEFAULT_SIZE: usize = 14;

/// The smallest value of a list that is not empty.
pub open spec fn seq_min(s: Seq<usize>) -> usize
    decreases s.len(),
{
    if s.len() <= 1 {
        s[0]
    } else {
        let m = seq_min(s.drop_last());
        if s.last() < m {
            s.last()
        } else {
            m
        }
    }
}

/// The largest value of a list that is not empty.
pub open spec fn seq_max(s: Seq<usize>) -> usize
    decreases s.len(),
{
    if s.len() <= 1 {
        s[0]
    } else {
        let m = seq_max(s.drop_last());
        if s.last() > m {
            s.last()
        } else {
            m
        }
    }
}

/// The smallest and the largest value bound every value, and both occur.
pub proof fn lemma_min_max(s: Seq<usize>)
    requires
        s.len() >= 1,
    ensures
        forall|k: int| 0 <= k < s.len() ==> seq_min(s) <= #[trigger] s[k] <= seq_max(s),
        s.contains(seq_min(s)),
        s.contains(seq_max(s)),
    decreases s.len(),
{
    if s.len() > 1 {
        let t = s.drop_last();
        lemma_min_max(t);
        assert forall|k: int| 0 <= k < s.len() implies seq_min(s) <= #[trigger] s[k] <= seq_max(s) by {
            if k < t.len() {
                assert(s[k] == t[k]);
            }
        }
        let i = choose|i: int| 0 <= i < t.len() && t[i] == seq_min(t);
        let j = choose|j: int| 0 <= j < t.len() && t[j] == seq_max(t);
        assert(s[i] == t[i] && s[j] == t[j]);
        assert(s[s.len() - 1] == s.last());
    } else {
        assert(s[0] == seq_min(s));
    }
}

/// The height in percent of the bar for each value: the smallest value gets
/// 0, the largest 100. Each bar comes with its position.
pub fn bar_heights(list: &[usize]) -> (bars: Vec<(usize, usize)>)
    requires
        list@.len() >= 1,
        seq_min(list@) < seq_max(list@),
        (seq_max(list@) - seq_min(list@)) * 100 <= usize::MAX,
    ensures
        bars@.len() == list@.len(),
        forall|k: int|
            0 <= k < list@.len() ==> #[trigger] bars@[k] == (
                k as usize,
                ((list@[k] - seq_min(list@)) * 100 / (seq_max(list@) - seq_min(list@))) as usize,
            ),
{
    let n = list.len();
    let mut min = list[0];
    let mut max = list[0];
    let mut i: usize = 1;
    proof {
        assert(list@.take(1) =~= seq![list@[0]]);
    }
    while i < n
        invariant
            1 <= i <= n,
            n == list@.len(),
            min == seq_min(list@.take(i as int)),
            max == seq_max(list@.take(i as int)),
        decreases n - i,
    {
        proof {
            assert(list@.take(i + 1).drop_last() =~= list@.take(i as int));
        }
        if list[i] < min {
            min = list[i];
        }
        if list[i] > max {
            max = list[i];
        }
        i = i + 1;
    }
    proof {
        assert(list@.take(n as int) =~= list@);
        lemma_min_max(list@);
    }
    let mut bars: Vec<(usize, usize)> = Vec::new();
    let mut k: usize = 0;
    while k < n
        invariant
            k <= n,
            n == list@.len(),
            min == seq_min(list@),
            max == seq_max(list@),
            min < max,
            (max - min) * 100 <= usize::MAX,
            forall|j: int| 0 <= j < n ==> min <= #[trigger] list@[j] <= max,
            bars@.len() == k,
            forall|j: int|
                0 <= j < k ==> #[trigger] bars@[j] == (
                    j as usize,
                    ((list@[j] - min) * 100 / (max - min)) as usize,
                ),
        decreases n - k,
    {
        let v = list[k];
        assert((v - min) * 100 <= (max - min) * 100) by (nonlinear_arith)
            requires
                min <= v <= max,
        ;
        bars.push((k, (v - min) * 100 / (max - min)));
        k = k + 1;
    }
    bars
}

/// The height in pixels of a bar of `percent` percent.
pub fn bar_pixel_height(percent: usize) -> (h: usize)
    requires
        percent * 2 <= usize::MAX,
    ensures
        h == percent * 2 / 3 + 15,
{
    (percent * 2 / 3) + 15
}

/// Whether position `i` is one of the two just swapped.
pub fn is_swapped(i: usize, swapped: Option<(usize, usize)>) -> (r: bool)
    ensures
        r == match swapped {
            Some((a, b)) => i == a || i == b,
            None => false,
        },
{
    match swapped {
        Some((a, b)) => i == a || i == b,
        None => false,
    }
}

/// The side, in pixels, of the square canvas for a list of `size` values.
pub fn canvas_dimension(size: usize) -> (r: &'static str)
    ensures
        size < 8 ==> r@ == "100"@,
        8 <= size < 18 ==> r@ == "150"@,
        18 <= size < 25 ==> r@ == "220"@,
        25 <= size < 35 ==> r@ == "320"@,
        35 <= size ==> r@ == "400"@,
{
    if size < 8 {
        "100"
    } else if size < 18 {
        "150"
    } else if size < 25 {
        "220"
    } else if size < 35 {
        "320"
    } else {
        "400"
    }
}

/// The delays, in milliseconds, that the speed slider offers, from fast to
/// slow.
pub open spec fn delay_list() -> Seq<usize> {
    seq![0usize, 8, 16, 24, 32, 64, 128, 192, 256, 320, 384, 448, 512, 1024, 1280, 1536, 1792, 2048]
}

/// The delays, in milliseconds, that the speed slider offers.
pub fn delays() -> (d: Vec<usize>)
    ensures
        d@ == delay_list(),
{
    let mut d: Vec<usize> = Vec::new();
    d.push(0);
    d.push(8);
    d.push(16);
    d.push(24);
    d.push(32);
    d.push(64);
    d.push(128);
    d.push(192);
    d.push(256);
    d.push(320);
    d.push(384);
    d.push(448);
    d.push(512);
    d.push(1024);
    d.push(1280);
    d.push(1536);
    d.push(1792);
    d.push(2048);
    assert(d@ =~= delay_list());
    d
}

/// The slider position that the delay slider's text gives: the number it
/// holds, or 4 when it holds none, and never past the number of delays.
pub fn slider_index(raw: Option<usize>) -> (p: usize)
    ensures
        p == {
            let v = match raw {
                Some(v) => v as int,
                None => 4,
            };
            if v <= delay_list().len() {
                v
            } else {
                delay_list().len() as int
            }
        },
{
    let count = delays().len();
    let v = match raw {
        Some(v) => v,
        None => 4,
    };
    if v <= count {
        v
    } else {
        count
    }
}

/// How the heap drawing fills a node's box.
#[derive(Clone, Copy, PartialEq, Eq, Structural, Debug)]
pub enum NodeLook {
    /// Past the heap: abandoned to the sorted end.
    Abandoned,
    /// One of the two nodes just swapped.
    Swapped,
    /// Any other node of the heap.
    Member,
}

/// The fill of node `i` in a drawing of a heap of `n` nodes in which the nodes
/// `swapped` were just exchanged.
pub fn heap_node_look(i: usize, n: usize, swapped: Option<(usize, usize)>) -> (l: NodeLook)
    ensures
        l == if i >= n {
            NodeLook::Abandoned
        } else if match swapped {
            Some((a, b)) => i == a || i == b,
            None => false,
        } {
            NodeLook::Swapped
        } else {
            NodeLook::Member
        },
{
    if i >= n {
        NodeLook::Abandoned
    } else if is_swapped(i, swapped) {
        NodeLook::Swapped
    } else {
        NodeLook::Member
    }
}

/// The delay for slider position `raw`.
pub fn delay_at(raw: usize) -> (d: usize)
    requires
        raw < delay_list().len(),
    ensures
        d == delay_list()[raw as int],
{
    let all = delays();
    all[raw]
}

/// The slider position of `delay`, or 0 when the slider does not offer it.
pub fn slider_position(delay: usize) -> (p: usize)
    ensures
        p < delay_list().len(),
        delay_list().contains(delay) ==> delay_list()[p as int] == delay && forall|k: int|
            0 <= k < p ==> delay_list()[k] != delay,
        !delay_list().contains(delay) ==> p == 0,
{
    let all = delays();
    let mut k: usize = 0;
    while k < all.len()
        invariant
            all@ == delay_list(),
            k <= all@.len(),
            forall|j: int| 0 <= j < k ==> all@[j] != delay,
        decreases all@.len() - k,
    {
        if all[k] == delay {
            return k;
        }
        k = k + 1;
    }
    0
}

/// The positions below `k` whose step the history keeps, latest first.
pub open spec fn kept_below(important: Seq<bool>, k: int) -> Seq<usize>
    decreases k,
{
    if k <= 0 {
        Seq::empty()
    } else if important[k - 1] {
        seq![(k - 1) as usize] + kept_below(important, k - 1)
    } else {
        kept_below(important, k - 1)
    }
}

/// Which earlier steps the history shows, given which steps it keeps: the
/// kept ones before the latest step, latest first, at most 32 of them.
pub fn history_indices(important: &[bool]) -> (r: Vec<usize>)
    ensures
        important@.len() == 0 ==> r@.len() == 0,
        important@.len() > 0 ==> r@ == kept_below(important@, important@.len() - 1).take(
            if kept_below(important@, important@.len() - 1).len() < 32 {
                kept_below(important@, important@.len() - 1).len() as int
            } else {
                32
            },
        ),
{
    let mut r: Vec<usize> = Vec::new();
    let n = important.len();
    if n == 0 {
        return r;
    }
    let mut k = n - 1;
    while k > 0 && r.len() < 32
        invariant
            k <= n - 1,
            n == important@.len(),
            r@.len() <= 32,
            r@ + kept_below(important@, k as int) == kept_below(important@, n - 1),
        decreases k,
    {
        let ghost rest = kept_below(important@, k as int);
        k = k - 1;
        if important[k] {
            r.push(k);
            assert(r@ + kept_below(important@, k as int) =~= r@.drop_last() + rest);
        }
    }
    proof {
        let all = kept_below(important@, n - 1);
        if k == 0 {
            assert(r@ =~= all);
        } else {
            assert(r@ =~= all.take(32));
        }
    }
    r
}

/// Side of the box that shows a heap node, in pixels.
pub const BOX_SIDE: usize = 20;

/// Width of a border, in pixels.
pub const BORDER: usize = 2;

/// Horizontal room for one node on the bottom level: its box, 4 pixels of
/// spacing and two borders.
pub const SLOT_WIDTH: usize = BOX_SIDE + 4 + 2 * BORDER;

/// Vertical distance from one level of the tree to the next.
pub const LEVEL_SPACING: usize = BOX_SIDE + 8;

/// Room above the root, in pixels.
pub const MARGIN_TOP: usize = 8;

/// A node's level is below 64 on any machine.
proof fn lemma_depth_small(i: nat)
    requires
        i < usize::MAX,
    ensures
        depth(i) < 64,
{
    lemma_depth_bounds(i);
    vstd::arithmetic::power2::lemma2_to64();
    if depth(i) >= 64 {
        if depth(i) > 64 {
            vstd::arithmetic::power2::lemma_pow2_strictly_increases(64, depth(i));
        }
    }
}

/// `2^e`.
fn power_of_two(e: usize) -> (p: usize)
    requires
        pow2(e as nat) <= usize::MAX,
    ensures
        p == pow2(e as nat),
{
    let mut p: usize = 1;
    let mut k: usize = 0;
    proof {
        vstd::arithmetic::power2::lemma_pow2(0);
        vstd::arithmetic::power::lemma_pow0(2);
    }
    while k < e
        invariant
            k <= e,
            p == pow2(k as nat),
            pow2(e as nat) <= usize::MAX,
        decreases e - k,
    {
        proof {
            vstd::arithmetic::power2::lemma_pow2_unfold(k as nat + 1);
        }
        assert(pow2(k as nat + 1) <= pow2(e as nat)) by {
            if k + 1 < e {
                vstd::arithmetic::power2::lemma_pow2_strictly_increases(k as nat + 1, e as nat);
            }
        }
        p = p * 2;
        k = k + 1;
    }
    p
}

/// The parent of heap node `i`.
pub fn heap_parent(i: usize) -> (p: usize)
    requires
        i >= 1,
    ensures
        p == (i - 1) / 2,
{
    (i - (if i % 2 == 1 {
        1
    } else {
        2
    })) / 2
}

/// Width and height, in pixels, of the drawing of a heap of `heap_len`
/// entries: as wide as its bottom level full, as high as its levels.
pub fn heap_canvas_size(heap_len: usize) -> (wh: (usize, usize))
    requires
        heap_len >= 1,
        pow2(depth((heap_len - 1) as nat)) * SLOT_WIDTH <= usize::MAX,
    ensures
        wh.0 == pow2(depth((heap_len - 1) as nat)) * SLOT_WIDTH,
        wh.1 == MARGIN_TOP + (depth((heap_len - 1) as nat) + 1) * LEVEL_SPACING,
{
    proof {
        lemma_depth_small((heap_len - 1) as nat);
    }
    let bottom_level = Node::of_unchecked(heap_len - 1).level();
    let bottom_level_occupants = power_of_two(bottom_level);
    let width = bottom_level_occupants * SLOT_WIDTH;
    let height = 0 + MARGIN_TOP + ((bottom_level + 1) * LEVEL_SPACING);
    (width, height)
}

/// Where, in a drawing `width` pixels wide, the box of heap node `i` stands:
/// the nodes of a level are spread evenly across the width, the levels one
/// below the other.
pub fn heap_node_position(i: usize, width: usize) -> (xy: (usize, usize))
    requires
        i + 1 < usize::MAX,
    ensures
        xy.0 == (i + 1 - (pow2(depth(i as nat)) - 1)) * (width / (pow2(depth(i as nat)) + 1) as usize),
        xy.1 == MARGIN_TOP + LEVEL_SPACING * depth(i as nat),
{
    proof {
        lemma_depth_small(i as nat);
        lemma_depth_bounds(i as nat);
    }
    let node = Node::of_unchecked(i);
    let level = node.level();
    let occupants = power_of_two(level);
    proof {
        vstd::arithmetic::power2::lemma_pow2_pos(level as nat);
        vstd::arithmetic::power2::lemma_pow2_unfold(level as nat + 1);
    }
    let index_at_level = i - (occupants - 1);
    let occ1 = occupants + 1;
    let share = width / occ1;
    assert((index_at_level + 1) * share <= width) by (nonlinear_arith)
        requires
            index_at_level + 1 <= occupants,
            share == width / occ1,
            occ1 == occupants + 1,
            occupants >= 1,
    ;
    let x = (index_at_level + 1) * share;
    let y = MARGIN_TOP + LEVEL_SPACING * level;
    (x, y)
}

} // verus!
