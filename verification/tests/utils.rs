use sorting_tutor::recorder::RecorderState;
use sorting_tutor::sorter::heap::{Heap, Node};
use sorting_tutor::utils::{size_class, str_eq, Coro, Expl, VHeap, VList};

#[test]
fn explanations_render() {
    assert_eq!(Expl::Gap(701).text(), "Gap: 701");
    assert_eq!(Expl::Index(0).text(), "i = 0");
    assert_eq!(Expl::ComparingWith(42).text(), "Comparing with 42");
    assert_eq!(Expl::SwappedBecause(12, 3).text(), "Swapped because 12 > 3");
    assert_eq!(Expl::NextSift(99).text(), "Next: sift heap at 99");
    assert_eq!(Expl::MovingRoot.text(), "Moving root to end of heap");
    assert_eq!(Expl::MovedPivotBack.text(), "Moved pivot back");
}

#[test]
fn size_classes() {
    assert_eq!(size_class(0), " z1");
    assert_eq!(size_class(15), " z1");
    assert_eq!(size_class(16), " z2");
    assert_eq!(size_class(24), " z3");
    assert_eq!(size_class(40), " z4");
    assert_eq!(size_class(56), " z5");
}

#[test]
fn string_equality() {
    assert!(str_eq("heapsort", "heapsort"));
    assert!(!str_eq("heapsort", "heapsorts"));
    assert!(!str_eq("abc", "abd"));
    assert!(str_eq("", ""));
}

#[test]
fn coro_hands_out_in_order() {
    let mut c = Coro::new(vec![1, 2, 3]);
    assert_eq!(c.next(), Some(1));
    assert_eq!(c.next(), Some(2));
    assert_eq!(c.next(), Some(3));
    assert_eq!(c.next(), None);
    assert_eq!(c.next(), None);
}

#[test]
fn list_steps() {
    let r = RecorderState::new();
    let s = VList::new(&[3, 1]).swapped(0, 1).special(1).current(0).expl(Expl::DidNothing).into_snapshot(&r);
    assert_eq!(s.list(), &[3, 1]);
    assert_eq!(s.swapped(), Some((0, 1)));
    assert!(s.is_important());
    let s = s.fleeting();
    assert!(!s.is_important());
}

#[test]
fn heap_steps() {
    let h = Heap::new(vec![9, 4, 7]);
    let v = VHeap::new(&h, Some((0, 2))).now_heapifying(2).expl(Expl::BuildingHeap).expl(Expl::SiftingHeap);
    assert_eq!(v.heap, vec![9, 4, 7]);
    assert_eq!(v.n, 3);
    assert_eq!(v.heapifying, Some(2));
    assert_eq!(v.expl, vec![Expl::BuildingHeap, Expl::SiftingHeap]);
}

#[test]
fn node_levels_and_children() {
    let levels: Vec<usize> = (0..8).map(|i| Node::of_unchecked(i).level()).collect();
    assert_eq!(levels, vec![0, 1, 1, 2, 2, 2, 2, 3]);
    let h = Heap::new(vec![5, 4, 3, 2]);
    let root = h.root();
    let [l, r] = root.children(&h);
    assert_eq!(l.map(|n| n.index), Some(1));
    assert_eq!(r.map(|n| n.index), Some(2));
    let [l, r] = Node::of(1, &h).children(&h);
    assert_eq!(l.map(|n| n.index), Some(3));
    assert!(r.is_none());
    assert_eq!(Node::of(3, &h).value(&h), 2);
}
