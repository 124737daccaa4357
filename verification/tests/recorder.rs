use sorting_tutor::recorder::RecorderState;

#[test]
fn comparisons_are_counted() {
    let mut r = RecorderState::new();
    assert!(r.lt(1, 2));
    assert!(!r.lt(2, 2));
    assert!(r.gt(3, 2));
    assert!(!r.gt(2, 3));
    assert_eq!(r.count_comparisons(), 4);
    assert_eq!(r.count_swaps(), 0);
}

#[test]
fn max_and_min_by_key() {
    let mut r = RecorderState::new();
    let keys = [5usize, 9, 9, 1];
    assert_eq!(r.max(0usize, 1usize, |i: usize| keys[i]), 1);
    assert_eq!(r.max(1usize, 2usize, |i: usize| keys[i]), 1);
    assert_eq!(r.min(0, 3, |i| keys[i]), 3);
    assert_eq!(r.min(1, 2, |i| keys[i]), 1);
    assert_eq!(r.count_comparisons(), 4);
}

#[test]
fn swaps_and_merges_are_counted() {
    let mut r = RecorderState::default();
    let mut x = vec![1, 2, 3];
    r.swap(&mut x, 0, 2);
    assert_eq!(x, vec![3, 2, 1]);
    r.record_merge();
    r.record_swap();
    assert_eq!(r.count_swaps(), 3);
}

#[test]
fn call_stack() {
    let mut r = RecorderState::new();
    r.f_push("heapsort");
    r.f_push("heapify");
    assert_eq!(r.get_call_stack(), &["heapsort", "heapify"]);
    assert_eq!(r.count_calls(), 2);
    let c = r.copy();
    assert_eq!(r.f_pop(), Some("heapify"));
    assert_eq!(r.f_pop(), Some("heapsort"));
    assert_eq!(r.f_pop(), None);
    assert_eq!(r.count_calls(), 2);
    assert_eq!(c.get_call_stack(), &["heapsort", "heapify"]);
}
