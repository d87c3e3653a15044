use index_ranges::IndexSet;
use index_ranges::edit_map::RopeEdit;

#[test]
fn empty_behavior() {
    let e = IndexSet::new();
    assert_eq!(e.minus_one_range(0, 0).collect_all(), vec![]);
    assert_eq!(e.minus_one_range(3, 5).collect_all(), vec![(3, 5)]);
}

#[test]
fn single_range_behavior() {
    let mut e = IndexSet::new();
    e.union_one_range(3, 5);
    assert_eq!(e.minus_one_range(0, 0).collect_all(), vec![]);
    assert_eq!(e.minus_one_range(3, 5).collect_all(), vec![]);
    assert_eq!(e.minus_one_range(0, 3).collect_all(), vec![(0, 3)]);
    assert_eq!(e.minus_one_range(0, 4).collect_all(), vec![(0, 3)]);
    assert_eq!(e.minus_one_range(4, 10).collect_all(), vec![(5, 10)]);
    assert_eq!(e.minus_one_range(5, 10).collect_all(), vec![(5, 10)]);
    assert_eq!(e.minus_one_range(0, 10).collect_all(), vec![(0, 3), (5, 10)]);
}

#[test]
fn two_range_minus() {
    let mut e = IndexSet::new();
    e.union_one_range(3, 5);
    e.union_one_range(7, 9);
    assert_eq!(e.minus_one_range(0, 0).collect_all(), vec![]);
    assert_eq!(e.minus_one_range(3, 5).collect_all(), vec![]);
    assert_eq!(e.minus_one_range(0, 3).collect_all(), vec![(0, 3)]);
    assert_eq!(e.minus_one_range(0, 4).collect_all(), vec![(0, 3)]);
    assert_eq!(e.minus_one_range(4, 10).collect_all(), vec![(5, 7), (9, 10)]);
    assert_eq!(e.minus_one_range(5, 10).collect_all(), vec![(5, 7), (9, 10)]);
    assert_eq!(e.minus_one_range(8, 10).collect_all(), vec![(9, 10)]);
    assert_eq!(e.minus_one_range(0, 10).collect_all(), vec![(0, 3), (5, 7), (9, 10)]);
}

#[test]
fn minus_one_range_double_ended_iter() {
    let mut e = IndexSet::new();
    e.union_one_range(3, 5);
    e.union_one_range(7, 9);
    e.union_one_range(12, 15);

    let mut iter = e.minus_one_range(4, 13);
    assert_eq!(iter.next(), Some((5, 7)));
    assert_eq!(iter.next(), Some((9, 12)));
    assert_eq!(iter.next(), None);

    let mut iter = e.minus_one_range(4, 13);
    assert_eq!(iter.next_back(), Some((9, 12)));
    assert_eq!(iter.next_back(), Some((5, 7)));
    assert_eq!(iter.next_back(), None);

    let mut iter = e.minus_one_range(4, 13);
    assert_eq!(iter.next_back(), Some((9, 12)));
    assert_eq!(iter.next(), Some((5, 7)));
    assert_eq!(iter.next_back(), None);
    assert_eq!(iter.next(), None);
}

#[test]
fn unions() {
    let mut e = IndexSet::new();
    e.union_one_range(3, 5);
    assert_eq!(e.get_ranges(), &[(3, 5)]);
    e.union_one_range(7, 9);
    assert_eq!(e.get_ranges(), &[(3, 5), (7, 9)]);
    e.union_one_range(1, 2);
    assert_eq!(e.get_ranges(), &[(1, 2), (3, 5), (7, 9)]);
    e.union_one_range(2, 3);
    assert_eq!(e.get_ranges(), &[(1, 5), (7, 9)]);
    e.union_one_range(4, 6);
    assert_eq!(e.get_ranges(), &[(1, 6), (7, 9)]);
    assert_eq!(e.minus_one_range(0, 10).collect_all(), vec![(0, 1), (6, 7), (9, 10)]);

    e.clear();
    assert_eq!(e.get_ranges(), &[]);
    e.union_one_range(3, 4);
    assert_eq!(e.get_ranges(), &[(3, 4)]);
    e.union_one_range(5, 6);
    assert_eq!(e.get_ranges(), &[(3, 4), (5, 6)]);
    e.union_one_range(7, 8);
    assert_eq!(e.get_ranges(), &[(3, 4), (5, 6), (7, 8)]);
    e.union_one_range(9, 10);
    assert_eq!(e.get_ranges(), &[(3, 4), (5, 6), (7, 8), (9, 10)]);
    e.union_one_range(11, 12);
    assert_eq!(e.get_ranges(), &[(3, 4), (5, 6), (7, 8), (9, 10), (11, 12)]);
    e.union_one_range(2, 10);
    assert_eq!(e.get_ranges(), &[(2, 10), (11, 12)]);
}

#[test]
fn delete_range() {
    let mut e = IndexSet::new();
    e.union_one_range(1, 2);
    e.union_one_range(4, 6);
    e.union_one_range(6, 7);
    e.union_one_range(8, 8);
    e.union_one_range(10, 12);
    e.union_one_range(13, 14);
    e.delete_range(5, 11);
    assert_eq!(e.get_ranges(), &[(1, 2), (4, 5), (11, 12), (13, 14)]);

    let mut e = IndexSet::new();
    e.union_one_range(1, 2);
    e.union_one_range(4, 6);
    e.delete_range(2, 4);
    assert_eq!(e.get_ranges(), &[(1, 2), (4, 6)]);

    let mut e = IndexSet::new();
    e.union_one_range(0, 10);
    e.delete_range(4, 6);
    assert_eq!(e.get_ranges(), &[(0, 4), (6, 10)]);
}

#[test]
fn apply_delta() {
    let mut e = IndexSet::new();
    e.union_one_range(1, 3);
    e.union_one_range(5, 9);

    let d = RopeEdit::simple_edit(2, 2, "...", 10);
    let s = e.apply_delta(&d);
    assert_eq!(s.get_ranges(), &[(1, 6), (8, 12)]);

    let d = RopeEdit::simple_edit(0, 3, "", 10);
    let s = e.apply_delta(&d);
    assert_eq!(s.get_ranges(), &[(2, 6)]);

    let d = RopeEdit::simple_edit(2, 6, "", 10);
    let s = e.apply_delta(&d);
    assert_eq!(s.get_ranges(), &[(1, 5)]);
}
