use index_ranges::edit_map::RopeEdit;
use index_ranges::{remove_n_at, IndexSet};

fn set_of(ranges: &[(usize, usize)]) -> IndexSet {
    let mut e = IndexSet::new();
    for &(s, t) in ranges {
        e.union_one_range(s, t);
    }
    e
}

fn is_well_formed(r: &[(usize, usize)]) -> bool {
    r.iter().all(|&(s, e)| s < e) && r.windows(2).all(|w| w[0].1 < w[1].0)
}

#[test]
fn invariant_kept_through_mixed_operations() {
    let mut e = IndexSet::new();
    let ops: [(bool, usize, usize); 10] = [
        (true, 5, 9),
        (true, 1, 2),
        (false, 6, 7),
        (true, 2, 5),
        (true, 20, 25),
        (false, 0, 3),
        (true, 9, 20),
        (false, 25, 30),
        (true, 7, 7),
        (false, 4, 4),
    ];
    for &(add, s, t) in ops.iter() {
        if add {
            e.union_one_range(s, t);
        } else {
            e.delete_range(s, t);
        }
        assert!(is_well_formed(e.get_ranges()));
    }
    assert_eq!(e.get_ranges(), &[(3, 6), (7, 25)]);
}

#[test]
fn union_twice_same_as_once() {
    let mut once = set_of(&[(1, 3), (6, 8)]);
    once.union_one_range(2, 7);
    let mut twice = set_of(&[(1, 3), (6, 8)]);
    twice.union_one_range(2, 7);
    twice.union_one_range(2, 7);
    assert_eq!(once.get_ranges(), twice.get_ranges());
    assert_eq!(twice.get_ranges(), &[(1, 8)]);
}

#[test]
fn delete_after_union_on_empty_is_empty() {
    let mut e = IndexSet::new();
    e.union_one_range(4, 9);
    e.delete_range(4, 9);
    assert_eq!(e.get_ranges(), &[]);
}

#[test]
fn complement_and_coverage_partition_window() {
    let e = set_of(&[(3, 5), (7, 9), (12, 15)]);
    let gaps = e.minus_one_range(1, 14).collect_all();
    assert_eq!(gaps, vec![(1, 3), (5, 7), (9, 12)]);
    for p in 1..14 {
        let in_gap = gaps.iter().any(|&(s, t)| s <= p && p < t);
        let in_set = e.get_ranges().iter().any(|&(s, t)| s <= p && p < t);
        assert!(in_gap != in_set);
    }
}

#[test]
fn front_and_back_walks_agree() {
    let e = set_of(&[(2, 3), (5, 6), (8, 9), (20, 30)]);
    let front = e.minus_one_range(0, 12).collect_all();
    let mut it = e.minus_one_range(0, 12);
    let mut back = Vec::new();
    while let Some(g) = it.next_back() {
        back.push(g);
    }
    back.reverse();
    assert_eq!(front, back);
    assert_eq!(front, vec![(0, 2), (3, 5), (6, 8), (9, 12)]);
}

#[test]
fn back_walk_ignores_ranges_past_window() {
    let e = set_of(&[(3, 5), (20, 30)]);
    let mut it = e.minus_one_range(4, 13);
    assert_eq!(it.next_back(), Some((5, 13)));
    assert_eq!(it.next_back(), None);
    assert_eq!(it.next(), None);
}

#[test]
fn interleaved_walk_meets_in_middle() {
    let e = set_of(&[(2, 3), (5, 6), (8, 9)]);
    let mut it = e.minus_one_range(0, 12);
    assert_eq!(it.next(), Some((0, 2)));
    assert_eq!(it.next_back(), Some((9, 12)));
    assert_eq!(it.next(), Some((3, 5)));
    assert_eq!(it.next_back(), Some((6, 8)));
    assert_eq!(it.next(), None);
    assert_eq!(it.next_back(), None);
}

#[test]
fn fully_covered_window_yields_nothing() {
    let e = set_of(&[(0, 10)]);
    assert_eq!(e.minus_one_range(2, 8).collect_all(), vec![]);
    let mut it = e.minus_one_range(2, 8);
    assert_eq!(it.next_back(), None);
}

#[test]
fn window_away_from_set_is_unchanged() {
    let e = set_of(&[(0, 2), (30, 40)]);
    assert_eq!(e.minus_one_range(5, 9).collect_all(), vec![(5, 9)]);
}

#[test]
fn touching_union_merges() {
    let e = set_of(&[(1, 2), (3, 5), (2, 3)]);
    assert_eq!(e.get_ranges(), &[(1, 5)]);
}

#[test]
fn empty_union_is_no_op() {
    let mut e = set_of(&[(1, 2), (4, 6)]);
    e.union_one_range(8, 8);
    e.union_one_range(3, 3);
    e.union_one_range(0, 0);
    assert_eq!(e.get_ranges(), &[(1, 2), (4, 6)]);
}

#[test]
fn empty_delete_is_no_op() {
    let mut e = set_of(&[(1, 9)]);
    e.delete_range(4, 4);
    assert_eq!(e.get_ranges(), &[(1, 9)]);
}

#[test]
fn delete_exact_boundaries() {
    let mut e = set_of(&[(1, 3), (5, 9)]);
    e.delete_range(3, 5);
    assert_eq!(e.get_ranges(), &[(1, 3), (5, 9)]);
    e.delete_range(5, 9);
    assert_eq!(e.get_ranges(), &[(1, 3)]);
    e.delete_range(0, 2);
    assert_eq!(e.get_ranges(), &[(2, 3)]);
}

#[test]
fn delta_collapse_drops_range() {
    let e = set_of(&[(1, 3), (5, 9)]);
    let d = RopeEdit::simple_edit(0, 4, "", 10);
    let s = e.apply_delta(&d);
    assert_eq!(s.get_ranges(), &[(1, 5)]);
}

#[test]
fn delta_coalesces_touching_results() {
    let e = set_of(&[(1, 3), (5, 9)]);
    let d = RopeEdit::simple_edit(3, 5, "", 10);
    let s = e.apply_delta(&d);
    assert_eq!(s.get_ranges(), &[(1, 7)]);
    assert_eq!(e.get_ranges(), &[(1, 3), (5, 9)]);
}

#[test]
fn from_mapped_ordered_input() {
    let s = IndexSet::from_mapped(&[(0, 0), (1, 3), (3, 4), (4, 4), (6, 8)]);
    assert_eq!(s.get_ranges(), &[(1, 4), (6, 8)]);
}

#[test]
fn from_mapped_unordered_input() {
    let s = IndexSet::from_mapped(&[(6, 8), (5, 2), (1, 3), (3, 4), (7, 10)]);
    assert_eq!(s.get_ranges(), &[(1, 4), (6, 10)]);
}

#[test]
fn from_mapped_empty_input() {
    let s = IndexSet::from_mapped(&[]);
    assert_eq!(s.get_ranges(), &[]);
}

#[test]
fn remove_n_at_cases() {
    let mut v = vec![0, 1, 2, 3, 4, 5];
    remove_n_at(&mut v, 1, 3);
    assert_eq!(v, vec![0, 4, 5]);
    remove_n_at(&mut v, 0, 1);
    assert_eq!(v, vec![4, 5]);
    remove_n_at(&mut v, 7, 0);
    assert_eq!(v, vec![4, 5]);
    remove_n_at(&mut v, 0, 2);
    assert_eq!(v, Vec::<i32>::new());
}

#[test]
fn back_drain_is_reversed_forward_drain() {
    let e = set_of(&[(1, 2), (4, 6), (9, 10)]);
    let front = e.minus_one_range(0, 11).collect_all();
    let mut back = e.minus_one_range(0, 11).collect_all_back();
    assert_eq!(back, vec![(10, 11), (6, 9), (2, 4), (0, 1)]);
    back.reverse();
    assert_eq!(front, back);
}

#[test]
fn delta_insertion_inside_range_grows_it() {
    let e = set_of(&[(1, 5)]);
    let d = RopeEdit::simple_edit(3, 3, "ab", 10);
    let s = e.apply_delta(&d);
    assert_eq!(s.get_ranges(), &[(1, 7)]);
}
