use sorting_tutor::recorder::RecorderState;
use sorting_tutor::sorter::heap::Heap;
use sorting_tutor::sorter::merge::{merge, VMergeBuilder, VMergeLayerKind, VMergeSituation};
use sorting_tutor::sorter::quick::VQuick;
use sorting_tutor::sorter::{
    algorithms, bubble, heap, insertion, merge as merge_sort, quick, selection, shell, Algorithm,
};
use sorting_tutor::utils::{Expl, Snapshot, SnapshotKind};

fn sorted_copy(x: &[usize]) -> Vec<usize> {
    let mut v = x.to_vec();
    v.sort();
    v
}

/// The positions a step highlights as swapped, in the whole list.
fn absolute_pair(s: &Snapshot) -> Option<(usize, usize)> {
    match &s.kind {
        SnapshotKind::Quick(q) => {
            let start = q.layers.first().map(|l| l.r.start).unwrap_or(0);
            q.swapped.map(|(a, b)| (start + a, start + b))
        }
        _ => s.swapped(),
    }
}

fn check_run(trace: &[Snapshot], x: &[usize], in_place: bool) {
    assert!(!trace.is_empty());
    assert_eq!(trace[0].list(), x);
    assert_eq!(trace.last().unwrap().list(), sorted_copy(x).as_slice());
    for k in 1..trace.len() {
        let a = &trace[k - 1].stats;
        let b = &trace[k].stats;
        assert!(a.count_comparisons() <= b.count_comparisons());
        assert!(a.count_swaps() <= b.count_swaps());
        assert!(a.count_calls() <= b.count_calls());
        if in_place {
            assert_eq!(sorted_copy(trace[k].list()), sorted_copy(x));
            let mut prev = trace[k - 1].list().to_vec();
            if let Some((p, q)) = absolute_pair(&trace[k]) {
                prev.swap(p, q);
            }
            assert_eq!(trace[k].list(), prev.as_slice());
        }
    }
}

const SAMPLE: [usize; 6] = [5, 3, 8, 1, 9, 2];

#[test]
fn bubble_sorts_sample() {
    let mut r = RecorderState::new();
    let trace = bubble(SAMPLE.to_vec(), &mut r);
    check_run(&trace, &SAMPLE, true);
    assert_eq!(r.count_comparisons(), 15);
    assert_eq!(r.count_calls(), 1);
    assert!(r.get_call_stack().is_empty());
    assert_eq!(r.count_swaps(), trace.len() - 1);
    for step in &trace {
        assert_eq!(step.stats.get_call_stack(), &["bubble"]);
    }
}

#[test]
fn bubble_stops_after_one_pass_on_sorted_input() {
    let mut r = RecorderState::new();
    let trace = bubble(vec![1, 2, 3, 4], &mut r);
    assert_eq!(trace.len(), 1);
    assert_eq!(r.count_comparisons(), 3);
    assert_eq!(r.count_swaps(), 0);
}

#[test]
fn selection_sorts_with_one_swap_per_position() {
    let mut r = RecorderState::new();
    let trace = selection(SAMPLE.to_vec(), &mut r);
    check_run(&trace, &SAMPLE, true);
    assert_eq!(r.count_comparisons(), 15);
    assert_eq!(r.count_swaps(), 5);
    assert_eq!(r.count_calls(), 1);
    // one step per comparison and one per swap, besides the first
    assert_eq!(trace.len(), 1 + 15 + 5);
    assert!(!trace[1].is_important());
}

#[test]
fn selection_of_one_value() {
    let mut r = RecorderState::new();
    let trace = selection(vec![7], &mut r);
    assert_eq!(trace.len(), 1);
    assert_eq!(trace[0].list(), &[7]);
    assert_eq!(r.count_swaps(), 0);
}

#[test]
fn insertion_sorts() {
    let mut r = RecorderState::new();
    let trace = insertion(SAMPLE.to_vec(), &mut r);
    check_run(&trace, &SAMPLE, true);
    assert_eq!(r.count_calls(), 1);
    assert!(r.get_call_stack().is_empty());
    assert_eq!(r.count_swaps(), trace.len() - 1);
    for k in 1..trace.len() {
        let (a, b) = trace[k].swapped().unwrap();
        assert_eq!(b, a + 1);
        assert!(trace[k - 1].list()[a] > trace[k - 1].list()[b]);
    }
}

#[test]
fn insertion_on_sorted_input_only_compares_neighbours() {
    let mut r = RecorderState::new();
    let trace = insertion(vec![1, 2, 2, 5, 9], &mut r);
    assert_eq!(trace.len(), 1);
    assert_eq!(r.count_comparisons(), 4);
    assert_eq!(r.count_swaps(), 0);
}

#[test]
fn heap_sorts() {
    let mut r = RecorderState::new();
    let trace = heap(SAMPLE.to_vec(), &mut r);
    check_run(&trace, &SAMPLE, true);
    assert!(r.get_call_stack().is_empty());
    assert!(r.count_calls() >= 2);
    match &trace[0].kind {
        SnapshotKind::Heap(h) => assert_eq!(h.n, 6),
        _ => panic!("heapsort shows heaps"),
    }
    for step in &trace {
        let SnapshotKind::Heap(h) = &step.kind else { panic!("heapsort shows heaps") };
        for e in &h.expl {
            match *e {
                Expl::SwappedBecause(a, b) => {
                    let (p, q) = h.swapped.unwrap();
                    assert!(a > b);
                    assert_eq!((h.heap[p], h.heap[q]), (a, b));
                }
                Expl::NextSift(w) => assert_eq!(h.heap[h.heapifying.unwrap()], w),
                _ => {}
            }
        }
    }
}

#[test]
fn quick_sorts() {
    let mut r = RecorderState::new();
    let trace = quick::sort(SAMPLE.to_vec(), &mut r);
    check_run(&trace, &SAMPLE, true);
    assert!(r.get_call_stack().is_empty());
    match &trace[1].kind {
        SnapshotKind::Quick(q) => {
            assert_eq!(q.layers.len(), 2);
            assert_eq!(q.layers[0].r, 0..6);
            assert_eq!(q.layers[0].p, Some(3));
        }
        _ => panic!("quicksort shows regions"),
    }
}

#[test]
fn shell_sorts() {
    let mut r = RecorderState::new();
    let trace = shell::sort(SAMPLE.to_vec(), &mut r);
    check_run(&trace, &SAMPLE, true);
    assert_eq!(r.count_calls(), 1);
}

#[test]
fn shell_gaps_are_ciura() {
    assert_eq!(shell::ciura_gaps(), vec![701, 301, 132, 57, 23, 10, 4, 1]);
}

#[test]
fn merge_sorts() {
    let mut r = RecorderState::new();
    let trace = merge_sort::sort(SAMPLE.to_vec(), &mut r);
    check_run(&trace, &SAMPLE, false);
    assert!(r.get_call_stack().is_empty());
    // every value written by a merge counts as a move: 6 + 2 * (3 + 2)
    assert_eq!(r.count_swaps(), 16);
    for step in &trace[1..] {
        let sit = situation(step);
        let placed = sit.s1ptr + sit.s2ptr;
        assert_eq!(sit.added, if placed == 0 { None } else { Some(placed - 1) });
    }
}

/// The merge moment that a mergesort step shows in its innermost layer.
fn situation(s: &Snapshot) -> &VMergeSituation {
    let SnapshotKind::Merge(m) = &s.kind else { panic!("mergesort shows merges") };
    let VMergeLayerKind::Top(sit) = &m.layers[0].kind else { panic!("innermost layer is a merge") };
    sit
}

#[test]
fn merge_takes_the_first_half_on_a_tie() {
    let mut r = RecorderState::new();
    let mut x = vec![0, 0];
    let trace = merge(&[5], &[5], &mut x, &mut r);
    assert_eq!(trace.len(), 3);
    let sit = situation(&trace[1]);
    assert_eq!((sit.s1ptr, sit.s2ptr, sit.added), (1, 0, Some(0)));
    let sit = situation(&trace[2]);
    assert_eq!((sit.s1ptr, sit.s2ptr, sit.added), (1, 1, Some(1)));
    assert_eq!(r.count_comparisons(), 1);
}

#[test]
fn merge_steps_follow_the_pointers() {
    let mut r = RecorderState::new();
    let mut x = vec![0; 6];
    let s1 = [1, 4, 6];
    let s2 = [2, 3, 5];
    let trace = merge(&s1, &s2, &mut x, &mut r);
    let first = situation(&trace[0]);
    assert_eq!((first.s1ptr, first.s2ptr, first.added), (0, 0, None));
    for k in 1..trace.len() {
        let p = situation(&trace[k - 1]);
        let c = situation(&trace[k]);
        assert_eq!(c.s1ptr + c.s2ptr, k);
        assert_eq!(c.added, Some(k - 1));
        if p.s2ptr == s2.len() || (p.s1ptr < s1.len() && s1[p.s1ptr] <= s2[p.s2ptr]) {
            assert_eq!((c.s1ptr, c.x[k - 1]), (p.s1ptr + 1, s1[p.s1ptr]));
        } else {
            assert_eq!((c.s2ptr, c.x[k - 1]), (p.s2ptr + 1, s2[p.s2ptr]));
        }
    }
    // the last value is placed without a comparison
    assert_eq!(r.count_comparisons(), 5);
}

#[test]
fn every_algorithm_agrees() {
    let x = vec![4, 4, 1, 7, 0, 3, 9, 2, 2, 8, 5];
    let want = sorted_copy(&x);
    for a in algorithms() {
        let mut r = RecorderState::new();
        let trace = a.func(x.clone(), &mut r);
        assert_eq!(trace.last().unwrap().list(), want.as_slice(), "{}", a.name());
    }
}

#[test]
fn empty_lists() {
    for f in [bubble, insertion, heap, quick::sort, shell::sort, merge_sort::sort] {
        let mut r = RecorderState::new();
        let trace = f(Vec::new(), &mut r);
        assert_eq!(trace.len(), 1);
        assert!(trace[0].list().is_empty());
    }
}

#[test]
fn merge_two_sorted_lists() {
    let mut r = RecorderState::new();
    let mut x = vec![0; 6];
    let trace = merge(&[1, 4, 6], &[2, 3, 5], &mut x, &mut r);
    assert_eq!(x, vec![1, 2, 3, 4, 5, 6]);
    assert_eq!(trace.len(), 7);
    assert_eq!(trace.last().unwrap().list(), x.as_slice());
    assert_eq!(r.count_swaps(), 6);
}

#[test]
fn merge_builder_overlays_layers() {
    let sit = VMergeSituation::new(&[1], &[2], &[1, 2], 1, 1, Some(1));
    let b = VMergeBuilder::new(sit).layer(&[9, 8, 7, 6], 2).layer(&[5, 5, 5, 5, 5, 5], 1);
    assert_eq!(b.layers.len(), 3);
    assert_eq!(b.layers[0].start, 3);
    let m = b.build();
    assert_eq!(m.full_list_length, 6);
    assert_eq!(m.current_state, vec![5, 9, 8, 1, 2, 5]);
    assert!(!m.is_fleeting());
}

#[test]
fn algorithm_names_round_trip() {
    for a in algorithms() {
        assert_eq!(Algorithm::from_name(a.name()), a);
    }
    assert_eq!(Algorithm::from_name("bogosort"), Algorithm::Heap);
    assert_eq!(Algorithm::default(), Algorithm::Heap);
    assert_eq!(Algorithm::Shell.name(), "shellsort");
    assert_eq!(
        algorithms(),
        vec![
            Algorithm::Selection,
            Algorithm::Bubble,
            Algorithm::Insertion,
            Algorithm::Shell,
            Algorithm::Quick,
            Algorithm::Heap,
            Algorithm::Merge
        ]
    );
}

#[test]
fn quick_snapshot_builder() {
    let r = RecorderState::new();
    let v = VQuick::new(vec![3, 1, 2], Some((0, 1)), None).layer(0..3, Some(1)).set_fleeting(true);
    let s = v.into_snapshot(&r);
    assert!(!s.is_important());
    assert_eq!(s.swapped(), Some((0, 1)));
}

#[test]
fn heap_structure() {
    let mut r = RecorderState::new();
    let mut h = Heap::new(vec![1, 2, 3]);
    assert_eq!(h.nodes(), 3);
    let root = h.root();
    let last = h.node(2);
    h.swap(root, last, &mut r);
    assert_eq!(h.repr(), &[3, 2, 1]);
    assert_eq!(r.count_swaps(), 1);
    h.abandon(1);
    assert_eq!(h.nodes(), 2);
    assert_eq!(h.into_repr(), vec![3, 2, 1]);
}

#[test]
fn bubble_worst_case_compares_every_pair() {
    let mut r = RecorderState::new();
    let trace = bubble(vec![4, 3, 2, 1], &mut r);
    check_run(&trace, &[4, 3, 2, 1], true);
    assert_eq!(r.count_comparisons(), 6);
    assert_eq!(r.count_swaps(), 6);
}

#[test]
fn selection_swaps_after_each_pass() {
    let mut r = RecorderState::new();
    let trace = selection(SAMPLE.to_vec(), &mut r);
    let n = SAMPLE.len();
    let pairs = |m: usize| m * m.saturating_sub(1) / 2;
    let mut swap_steps = Vec::new();
    for a in 0..n - 1 {
        let k = pairs(n) - pairs(n - a - 1) + a + 1;
        swap_steps.push(k);
        let (p, m) = trace[k].swapped().unwrap();
        assert_eq!(p, a);
        assert!(m >= a && m < n);
        let list = trace[k].list();
        assert_eq!(&list[..a + 1], &sorted_copy(&SAMPLE)[..a + 1]);
    }
    for (k, step) in trace.iter().enumerate() {
        assert_eq!(step.swapped().is_some(), swap_steps.contains(&k));
    }
}

#[test]
fn heap_of_two_values() {
    let mut r = RecorderState::new();
    let trace = heap(vec![1, 2], &mut r);
    assert_eq!(r.count_calls(), 5);
    assert_eq!(r.count_comparisons(), 1);
    assert_eq!(r.count_swaps(), 2);
    assert_eq!(trace.last().unwrap().list(), &[1, 2]);
    assert!(r.get_call_stack().is_empty());
}

/// `heap[..m]` is a max-heap but maybe at node `skip`.
fn heap_but(heap: &[usize], m: usize, skip: usize) -> bool {
    (0..m).filter(|&j| j != skip).all(|j| {
        (2 * j + 1 >= m || heap[2 * j + 1] <= heap[j]) && (2 * j + 2 >= m || heap[2 * j + 2] <= heap[j])
    })
}

#[test]
fn heap_steps_keep_a_heap_after_building() {
    let x = vec![4, 9, 1, 7, 3, 8, 2, 6, 5, 0];
    let mut r = RecorderState::new();
    let trace = heap(x.clone(), &mut r);
    check_run(&trace, &x, true);
    let mut building = true;
    for step in &trace[1..] {
        let SnapshotKind::Heap(h) = &step.kind else { panic!("heapsort shows heaps") };
        let (p, c) = h.swapped.unwrap();
        if building && *h.expl.last().unwrap() == Expl::BuildingHeap {
            assert!(c == 2 * p + 1 || c == 2 * p + 2);
            continue;
        }
        building = false;
        let skip = h.heapifying.unwrap();
        if *h.expl.last().unwrap() == Expl::SiftingHeap {
            assert!(c == 2 * p + 1 || c == 2 * p + 2);
            assert!(heap_but(&h.heap, h.n, skip));
        } else {
            assert_eq!(h.expl[0], Expl::MovingRoot);
            assert_eq!((p, c, skip), (0, h.n - 1, 0));
            assert!(heap_but(&h.heap, h.n - 1, skip));
        }
    }
    // 3 n (floor(log2 n) + 1) with n = 10
    assert!(r.count_comparisons() <= 3 * 10 * 4);
    assert_eq!(r.count_swaps(), trace.len() - 1);
    assert_eq!(r.count_calls(), 1 + 10 / 2 + trace.len());
}

#[test]
fn quick_partitions_around_the_middle() {
    let mut r = RecorderState::new();
    let trace = quick::sort(vec![3, 1, 2], &mut r);
    assert_eq!(trace.len(), 10);
    let SnapshotKind::Quick(q) = &trace[1].kind else { panic!("quicksort shows regions") };
    assert_eq!((q.layers[0].r.clone(), q.layers[0].p), (0..3, Some(1)));
    assert_eq!(q.expl, Some(Expl::ChosePivot));
    let SnapshotKind::Quick(q) = &trace[5].kind else { panic!("quicksort shows regions") };
    assert_eq!(q.expl, Some(Expl::MovedPivotBack));
    assert_eq!(q.swapped, Some((0, 2)));
    assert_eq!(q.layers[0].p, Some(0));
    assert_eq!(q.list, vec![1, 2, 3]);
    assert_eq!(r.count_comparisons(), 3);
}

#[test]
fn quick_compares_at_most_every_pair() {
    let mut r = RecorderState::new();
    quick::sort(SAMPLE.to_vec(), &mut r);
    assert!(r.count_comparisons() <= 15);
    let mut r = RecorderState::new();
    quick::sort(vec![1], &mut r);
    assert_eq!(r.count_comparisons(), 0);
}

/// The gaps the steps of a shellsort run announce.
fn gap_marks(trace: &[Snapshot]) -> Vec<usize> {
    trace
        .iter()
        .filter_map(|s| match &s.kind {
            SnapshotKind::List(v) => match v.expl {
                Some(Expl::Gap(g)) => Some(g),
                _ => None,
            },
            _ => None,
        })
        .collect()
}

#[test]
fn shell_leaves_sorted_input_alone() {
    let x = vec![1, 2, 3, 4, 5];
    let mut r = RecorderState::new();
    let trace = shell::sort(x.clone(), &mut r);
    for step in &trace {
        assert_eq!(step.list(), x.as_slice());
    }
    // gaps 4 and 1: (5 - 4) + (5 - 1)
    assert_eq!(r.count_comparisons(), 5);
    assert_eq!(gap_marks(&trace), vec![4, 1]);
}

#[test]
fn shell_swaps_span_the_gap_of_their_pass() {
    let x: Vec<usize> = (0..30).rev().collect();
    let mut r = RecorderState::new();
    let trace = shell::sort(x.clone(), &mut r);
    check_run(&trace, &x, true);
    assert_eq!(gap_marks(&trace), vec![23, 10, 4, 1]);
    let mut gap = None;
    for step in &trace {
        let SnapshotKind::List(v) = &step.kind else { panic!("shellsort shows lists") };
        if let Some(Expl::Gap(g)) = v.expl {
            gap = Some(g);
        }
        if let Some((a, b)) = v.swapped {
            if a != b {
                assert_eq!(a, b + gap.unwrap());
            }
        }
    }
}

#[test]
fn insertion_worst_case_compares_every_pair() {
    let mut r = RecorderState::new();
    let trace = insertion(vec![4, 3, 2, 1], &mut r);
    check_run(&trace, &[4, 3, 2, 1], true);
    assert_eq!(r.count_comparisons(), 6);
    assert_eq!(r.count_swaps(), 6);
}

#[test]
fn merge_sort_costs_n_log_n() {
    // a list of 8 goes through 3 levels of halving
    let x = vec![8, 7, 6, 5, 4, 3, 2, 1];
    let mut r = RecorderState::new();
    let trace = merge_sort::sort(x.clone(), &mut r);
    check_run(&trace, &x, false);
    assert_eq!(r.count_swaps(), 8 * 3);
    assert!(r.count_comparisons() <= 8 * 3);
}

/// The left positions of the swaps the steps after the first show.
fn swap_lefts(trace: &[Snapshot]) -> Vec<usize> {
    trace[1..].iter().map(|s| s.swapped().unwrap().0).collect()
}

#[test]
fn bubble_and_insertion_take_their_own_swaps() {
    let x = vec![4, 3, 1, 2];
    let mut r = RecorderState::new();
    let tb = bubble(x.clone(), &mut r);
    assert_eq!(swap_lefts(&tb), vec![0, 1, 2, 0, 1]);
    let mut r = RecorderState::new();
    let ti = insertion(x.clone(), &mut r);
    assert_eq!(swap_lefts(&ti), vec![0, 1, 0, 2, 1]);
    for t in [&tb, &ti] {
        for s in &t[1..] {
            let (a, b) = s.swapped().unwrap();
            assert_eq!(b, a + 1);
        }
    }
}

#[test]
fn shell_passes_leave_the_list_sorted_by_their_gap() {
    let x: Vec<usize> = (0..30).map(|v| (v * 7) % 30).collect();
    let mut r = RecorderState::new();
    let trace = shell::sort(x.clone(), &mut r);
    check_run(&trace, &x, true);
    let mut last_gap: Option<usize> = None;
    for step in &trace {
        let SnapshotKind::List(v) = &step.kind else { panic!("shellsort shows lists") };
        if let Some(Expl::Gap(g)) = v.expl {
            if let Some(prev) = last_gap {
                let l = step.list();
                for p in prev..l.len() {
                    assert!(l[p - prev] <= l[p]);
                }
            }
            last_gap = Some(g);
        }
    }
}

#[test]
fn shell_makes_no_exchange_on_sorted_input() {
    let x: Vec<usize> = (0..12).collect();
    let mut r = RecorderState::new();
    let trace = shell::sort(x.clone(), &mut r);
    for step in &trace {
        if let Some((a, b)) = step.swapped() {
            assert_eq!(a, b);
        }
    }
    // gaps 10, 4 and 1: 2 + 8 + 11 comparisons and write-backs
    assert_eq!(r.count_comparisons(), 21);
    assert_eq!(r.count_swaps(), 21);
}

#[test]
fn quick_regions_start_and_end_their_partition() {
    let mut r = RecorderState::new();
    let trace = quick::sort(SAMPLE.to_vec(), &mut r);
    let mut regions = 0;
    for k in 0..trace.len() {
        let SnapshotKind::Quick(q) = &trace[k].kind else { panic!("quicksort shows regions") };
        if q.expl == Some(Expl::ChosePivot) {
            regions += 1;
            let (s, e) = (q.layers[0].r.start, q.layers[0].r.end);
            assert!(e - s >= 2);
            assert_eq!(q.layers[0].p, Some(s + (e - s) / 2));
            let SnapshotKind::Quick(b) = &trace[k + (e - s) + 1].kind else { panic!() };
            assert_eq!(b.expl, Some(Expl::MovedPivotBack));
            assert_eq!((b.layers[0].r.start, b.layers[0].r.end), (s, e));
            let p = b.layers[0].p.unwrap();
            assert_eq!(b.swapped, Some((p - s, e - s - 1)));
            for a in s..p {
                assert!(b.list[a] < b.list[p]);
            }
            for a in p + 1..e {
                assert!(b.list[a] >= b.list[p]);
            }
        }
    }
    assert!(regions >= 2);
}

#[test]
fn merge_of_unsorted_halves_into_a_shorter_list() {
    let mut r = RecorderState::new();
    let mut x = vec![0, 0];
    let trace = merge(&[3, 1], &[2], &mut x, &mut r);
    assert_eq!(x, vec![2, 3]);
    assert_eq!(trace.len(), 3);
    assert_eq!(r.count_swaps(), 2);
}

#[test]
fn selection_hides_its_looks_from_the_history() {
    let mut r = RecorderState::new();
    let trace = selection(SAMPLE.to_vec(), &mut r);
    let n = SAMPLE.len();
    let pairs = |m: usize| m * m.saturating_sub(1) / 2;
    for a in 0..n - 1 {
        let swap_at = pairs(n) - pairs(n - a - 1) + a + 1;
        assert!(trace[swap_at].is_important());
        for j in a + 1..n {
            let step = &trace[swap_at - n + j];
            assert!(!step.is_important());
            let SnapshotKind::List(v) = &step.kind else { panic!("selection shows lists") };
            assert_eq!(v.swapped, None);
            assert_eq!(v.current, Some(j));
            let m = v.special.unwrap();
            assert!(a <= m && m <= j);
            assert!((a..=j).all(|q| v.list[m] <= v.list[q]));
        }
    }
}

#[test]
fn merge_sort_merges_left_half_then_right_half() {
    let x = vec![2, 2, 1, 1];
    let mut r = RecorderState::new();
    let trace = merge_sort::sort(x.clone(), &mut r);
    for step in &trace[1..] {
        let sit = situation(step);
        let SnapshotKind::Merge(m) = &step.kind else { panic!() };
        let start = m.layers[0].start;
        // the whole list is the input with the merge's list written over its region
        let mut expect = x.clone();
        expect[start..start + sit.x.len()].copy_from_slice(&sit.x);
        assert_eq!(step.list(), expect.as_slice());
        if sit.s1ptr + sit.s2ptr == 0 {
            let mid = sit.x.len() / 2;
            assert_eq!(sorted_copy(&sit.x[..mid]), sit.s1);
            assert_eq!(sorted_copy(&sit.x[mid..]), sit.s2);
        }
    }
}

/// The exchanges a gapped insertion sort with the given gaps makes, in order,
/// each as (position, position one gap before it).
fn gapped_exchanges(x: &[usize], gaps: &[usize]) -> Vec<(usize, usize)> {
    let mut v = x.to_vec();
    let mut out = Vec::new();
    for &g in gaps {
        for i in g..v.len() {
            let mut j = i;
            while j >= g && v[j - g] > v[j] {
                v.swap(j, j - g);
                out.push((j, j - g));
                j -= g;
            }
        }
    }
    out
}

#[test]
fn shell_shows_each_exchange_of_its_passes() {
    let x: Vec<usize> = vec![9, 3, 7, 1, 8, 2, 6, 0, 5, 4, 3, 9];
    let mut r = RecorderState::new();
    let trace = shell::sort(x.clone(), &mut r);
    check_run(&trace, &x, true);
    assert_eq!(gap_marks(&trace), vec![10, 4, 1]);
    let shown: Vec<(usize, usize)> = trace
        .iter()
        .filter_map(|s| s.swapped())
        .filter(|(a, b)| a != b)
        .collect();
    assert_eq!(shown, gapped_exchanges(&x, &[10, 4, 1]));
    assert!(!shown.is_empty());
}

/// Quicksort's partition of `v[s..e)` around its middle value: the value is
/// moved to the end, the smaller values gathered in front, and the pivot put
/// back just after them. Returns the pivot's place.
fn lomuto_partition(v: &mut [usize], s: usize, e: usize) -> usize {
    let last = e - 1;
    v.swap(s + (e - s) / 2, last);
    let mut i = s;
    for j in s..last {
        if v[j] < v[last] {
            v.swap(i, j);
            i += 1;
        }
    }
    v.swap(i, last);
    i
}

/// The regions quicksort partitions, in order: a region, then what lies
/// before its pivot, then what lies after it.
fn quick_regions(v: &mut [usize], s: usize, e: usize, out: &mut Vec<(usize, usize)>) {
    if e - s < 2 {
        return;
    }
    out.push((s, e));
    let p = lomuto_partition(v, s, e);
    quick_regions(v, s, p, out);
    quick_regions(v, p + 1, e, out);
}

#[test]
fn quick_partitions_left_part_before_right_part() {
    let x = vec![5, 1, 9, 3, 7, 2, 8, 6, 4, 0, 3];
    let mut r = RecorderState::new();
    let trace = quick::sort(x.clone(), &mut r);
    let shown: Vec<(usize, usize)> = trace
        .iter()
        .filter_map(|st| match &st.kind {
            SnapshotKind::Quick(q) if q.expl == Some(Expl::ChosePivot) => {
                Some((q.layers[0].r.start, q.layers[0].r.end))
            }
            _ => None,
        })
        .collect();
    let mut v = x.clone();
    let mut expected = Vec::new();
    quick_regions(&mut v, 0, x.len(), &mut expected);
    assert_eq!(shown, expected);
    assert_eq!(shown[0], (0, x.len()));
    assert!(shown.len() >= 3);
}
