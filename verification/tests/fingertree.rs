use fingertree::measures::Size;
use fingertree::measures::SizeAbove;
use fingertree::monoid::Monoid;
use fingertree::persistent::FingerTree;
use fingertree::persistent::Measurable;
use fingertree::persistent::Digit;
use fingertree::persistent::TreeView;

fn build(xs: &[u64]) -> FingerTree<Size, u64> {
    FingerTree::from_sequence(xs.to_vec())
}

#[test]
fn empty_tree_is_empty_with_identity_measure() {
    let t = FingerTree::<Size, u64>::empty();
    assert!(t.is_empty());
    assert_eq!(t.measure(), Size::identity());
    assert_eq!(t.measure(), Size(0));
}

#[test]
fn single_holds_one_element() {
    let t = FingerTree::<Size, u64>::single(7);
    assert!(!t.is_empty());
    assert_eq!(t.measure(), Size(1));
    assert_eq!(t.to_sequence(), vec![7]);
}

#[test]
fn build_five_measures_five() {
    let t = build(&[1, 2, 3, 4, 5]);
    assert_eq!(t.measure(), Size(5));
    assert_eq!(t.to_sequence(), vec![1, 2, 3, 4, 5]);
}

#[test]
fn push_front_prepends_and_grows_measure() {
    let t = build(&[1, 2, 3, 4, 5]);
    let t = t.push_front(0);
    assert_eq!(t.measure(), Size(6));
    assert_eq!(t.to_sequence(), vec![0, 1, 2, 3, 4, 5]);
}

#[test]
fn push_back_appends() {
    let t = build(&[1, 2, 3]);
    let t = t.push_back(4);
    assert_eq!(t.to_sequence(), vec![1, 2, 3, 4]);
}

#[test]
fn pop_front_after_push_front_returns_the_element_and_the_tree() {
    let t = build(&[10, 20, 30]);
    let pushed = t.push_front(5);
    match pushed.pop_front() {
        TreeView::Elem(x, rest) => {
            assert_eq!(x, 5);
            assert_eq!(rest.measure(), Size(3));
            assert_eq!(rest.to_sequence(), vec![10, 20, 30]);
        },
        TreeView::Absent => panic!("front element missing after a push"),
    }
}

#[test]
fn pop_back_of_empty_is_absent() {
    let t = FingerTree::<Size, u64>::empty();
    match t.pop_back() {
        TreeView::Absent => {},
        TreeView::Elem(_, _) => panic!("an empty tree has no back element"),
    }
}

#[test]
fn pop_front_of_empty_is_absent() {
    let t = FingerTree::<Size, u64>::empty();
    match t.pop_front() {
        TreeView::Absent => {},
        TreeView::Elem(_, _) => panic!("an empty tree has no front element"),
    }
}

#[test]
fn pop_front_drains_in_order() {
    let mut t = build(&[0, 1, 2, 3, 4, 5, 6, 7, 8, 9, 10, 11, 12, 13, 14, 15, 16, 17, 18, 19]);
    let mut drained = Vec::new();
    loop {
        match t.pop_front() {
            TreeView::Elem(x, rest) => {
                drained.push(x);
                t = *rest;
            },
            TreeView::Absent => break,
        }
    }
    let expected: Vec<u64> = (0..20).collect();
    assert_eq!(drained, expected);
}

#[test]
fn pop_back_drains_in_reverse_order() {
    let mut t = build(&[0, 1, 2, 3, 4, 5, 6, 7, 8, 9, 10, 11, 12, 13, 14, 15, 16, 17, 18, 19]);
    let mut drained = Vec::new();
    loop {
        match t.pop_back() {
            TreeView::Elem(x, rest) => {
                drained.push(x);
                t = *rest;
            },
            TreeView::Absent => break,
        }
    }
    let expected: Vec<u64> = (0..20).rev().collect();
    assert_eq!(drained, expected);
}

#[test]
fn concat_two_pairs() {
    let t1 = build(&[1, 2]);
    let t2 = build(&[3, 4]);
    let t = t1.concat(t2);
    assert_eq!(t.to_sequence(), vec![1, 2, 3, 4]);
}

#[test]
fn concat_preserves_order_and_combines_measures() {
    let left: Vec<u64> = (0..37).collect();
    let right: Vec<u64> = (37..100).collect();
    let t1 = build(&left);
    let t2 = build(&right);
    let m1 = t1.measure();
    let m2 = t2.measure();
    let t = t1.concat(t2);
    assert_eq!(t.measure(), m1.combine(m2));
    assert_eq!(t.measure(), Size(100));
    let expected: Vec<u64> = (0..100).collect();
    assert_eq!(t.to_sequence(), expected);
}

#[test]
fn concat_with_empty_on_either_side() {
    let t = build(&[1, 2, 3]).concat(FingerTree::empty());
    assert_eq!(t.to_sequence(), vec![1, 2, 3]);
    let t = FingerTree::empty().concat(build(&[4, 5]));
    assert_eq!(t.to_sequence(), vec![4, 5]);
    let t = FingerTree::<Size, u64>::empty().concat(FingerTree::empty());
    assert!(t.is_empty());
}

#[test]
fn concat_with_single_on_either_side() {
    let t = FingerTree::single(0).concat(build(&[1, 2, 3, 4, 5, 6, 7]));
    assert_eq!(t.to_sequence(), vec![0, 1, 2, 3, 4, 5, 6, 7]);
    let t = build(&[1, 2, 3, 4, 5, 6, 7]).concat(FingerTree::single(8));
    assert_eq!(t.to_sequence(), vec![1, 2, 3, 4, 5, 6, 7, 8]);
}

#[test]
fn split_five_at_size_over_three() {
    let t = build(&[1, 2, 3, 4, 5]);
    let (left, matched, right) = t.split(&SizeAbove(3));
    assert_eq!(left.to_sequence(), vec![1, 2, 3]);
    assert_eq!(matched, 4);
    assert_eq!(right.to_sequence(), vec![5]);
}

#[test]
fn split_boundary_measures() {
    let t = build(&[1, 2, 3, 4, 5]);
    let pred = SizeAbove(3);
    let (left, matched, _right) = t.split(&pred);
    let left_measure = left.measure();
    assert_eq!(left_measure, Size(3));
    assert!(left_measure.0 <= 3);
    assert!(left_measure.combine(matched.measure()).0 > 3);
}

#[test]
fn split_at_first_element() {
    let t = build(&[1, 2, 3, 4, 5]);
    let (left, matched, right) = t.split(&SizeAbove(0));
    assert!(left.is_empty());
    assert_eq!(matched, 1);
    assert_eq!(right.to_sequence(), vec![2, 3, 4, 5]);
}

#[test]
fn split_at_last_element() {
    let t = build(&[1, 2, 3, 4, 5]);
    let (left, matched, right) = t.split(&SizeAbove(4));
    assert_eq!(left.to_sequence(), vec![1, 2, 3, 4]);
    assert_eq!(matched, 5);
    assert!(right.is_empty());
}

#[test]
fn split_never_true_matches_rightmost() {
    let t = build(&[1, 2, 3, 4, 5]);
    let (left, matched, right) = t.split(&SizeAbove(100));
    assert_eq!(left.to_sequence(), vec![1, 2, 3, 4]);
    assert_eq!(matched, 5);
    assert!(right.is_empty());
}

#[test]
fn split_reassembles_the_sequence() {
    let xs: Vec<u64> = (0..50).collect();
    let t = build(&xs);
    let (left, matched, right) = t.split(&SizeAbove(17));
    let mut joined = left.to_sequence();
    joined.push(matched);
    joined.extend(right.to_sequence());
    assert_eq!(joined, xs);
    assert_eq!(matched, 17);
}

#[test]
fn from_sequence_of_to_sequence_round_trips() {
    let xs: Vec<u64> = (0..33).map(|i| i * 7 % 13).collect();
    let t = build(&xs);
    let measure_before = t.measure();
    let seq = t.to_sequence();
    let rebuilt = FingerTree::<Size, u64>::from_sequence(seq.clone());
    assert_eq!(rebuilt.measure(), measure_before);
    assert_eq!(rebuilt.to_sequence(), seq);
}

#[test]
fn from_sequence_of_empty_vector_is_empty() {
    let t = FingerTree::<Size, u64>::from_sequence(Vec::new());
    assert!(t.is_empty());
    assert_eq!(t.measure(), Size(0));
}

#[test]
fn digit_overflow_keeps_order_under_many_front_pushes() {
    let mut t = FingerTree::<Size, u64>::empty();
    for i in 0..100 {
        t = t.push_front(i);
    }
    let expected: Vec<u64> = (0..100).rev().collect();
    assert_eq!(t.measure(), Size(100));
    assert_eq!(t.to_sequence(), expected);
}

#[test]
fn size_monoid_laws_on_values() {
    let a = Size(3);
    let b = Size(4);
    let c = Size(5);
    assert_eq!(a.combine(b).combine(c), a.combine(b.combine(c)));
    assert_eq!(Size::identity().combine(a), a);
    assert_eq!(a.combine(Size::identity()), a);
    assert_eq!(Size(u64::MAX).combine(Size(1)), Size(u64::MAX));
}

#[test]
fn digit_measure_folds_children_left_to_right() {
    let one: Digit<u64> = Digit::One(9);
    assert_eq!(one.measure(), Size(1));
    let four: Digit<u64> = Digit::Four(1, 2, 3, 4);
    assert_eq!(four.measure(), Size(4));
}

#[test]
fn pop_front_of_single_leaves_empty() {
    let t = FingerTree::<Size, u64>::single(42);
    match t.pop_front() {
        TreeView::Elem(x, rest) => {
            assert_eq!(x, 42);
            assert!(rest.is_empty());
        },
        TreeView::Absent => panic!("a single tree has a front element"),
    }
}

#[test]
fn digit_overflow_keeps_order_under_many_back_pushes() {
    let mut t = FingerTree::<Size, u64>::empty();
    for i in 0..100 {
        t = t.push_back(i);
    }
    let expected: Vec<u64> = (0..100).collect();
    assert_eq!(t.measure(), Size(100));
    assert_eq!(t.to_sequence(), expected);
}

#[test]
fn interleaved_pushes_keep_order() {
    let mut t = FingerTree::<Size, u64>::empty();
    for i in 0..30 {
        t = t.push_front(100 - i);
        t = t.push_back(100 + i);
    }
    let mut expected: Vec<u64> = (71..=100).collect();
    expected.extend(100..130);
    assert_eq!(t.to_sequence(), expected);
}
