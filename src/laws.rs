//! Laws that relate the operations of an `IndexSet` to each other, stated
//! over the contracts of those operations.

use vstd::prelude::*;
use crate::interval_set::IndexSet;
use crate::edit_map::{mapped_ranges, transformed_before, RopeEdit};
use crate::model::{coverage, in_ranges, lemma_canonical, lemma_count_bound, span};

verus! {

/// Adding the same range a second time changes nothing: the list stored after
/// two unions of `start..end` is the list stored after one.
pub proof fn lemma_union_idempotent(
    s: IndexSet,
    once: IndexSet,
    twice: IndexSet,
    start: usize,
    end: usize,
)
    requires
        s.wf(),
        once.wf(),
        twice.wf(),
        once.covered() == s.covered().union(span(start as int, end as int)),
        twice.covered() == once.covered().union(span(start as int, end as int)),
    ensures
        twice@ == once@,
{
    assert(twice.covered() =~= once.covered());
    lemma_canonical(twice@, once@);
}

/// Deleting `start..end` right after adding it to an empty set leaves the
/// set empty.
pub proof fn lemma_delete_undoes_union(
    empty: IndexSet,
    added: IndexSet,
    deleted: IndexSet,
    start: usize,
    end: usize,
)
    requires
        empty.wf(),
        added.wf(),
        deleted.wf(),
        empty@.len() == 0,
        added.covered() == empty.covered().union(span(start as int, end as int)),
        deleted.covered() == added.covered().difference(span(start as int, end as int)),
    ensures
        deleted@.len() == 0,
{
    assert(empty.covered() =~= Set::<int>::empty());
    assert(deleted.covered() =~= Set::<int>::empty());
    lemma_canonical(deleted@, empty@);
}

/// A range that an edit collapses to nothing leaves no trace in
/// `apply_delta`'s result: the result covers what the other mapped ranges
/// cover, and has fewer ranges than the set it came from.
pub proof fn lemma_collapsed_range_dropped(
    s: IndexSet,
    edit: RopeEdit,
    i: int,
    result: IndexSet,
)
    requires
        s.wf(),
        result.wf(),
        result.covered() == coverage(mapped_ranges(edit, s@)),
        0 <= i < s@.len(),
        transformed_before(edit, s@[i].0) == transformed_before(edit, s@[i].1),
    ensures
        result.covered() == coverage(mapped_ranges(edit, s@).remove(i)),
        result@.len() <= s@.len() - 1,
{
    let mapped = mapped_ranges(edit, s@);
    let rest = mapped.remove(i);
    assert forall|p: int| in_ranges(mapped, p) == in_ranges(rest, p) by {
        if in_ranges(mapped, p) {
            let k = choose|k: int| 0 <= k < mapped.len() && #[trigger] mapped[k].0 <= p < mapped[k].1;
            if k < i {
                assert(rest[k] == mapped[k]);
            } else {
                assert(rest[k - 1] == mapped[k]);
            }
        }
        if in_ranges(rest, p) {
            let k = choose|k: int| 0 <= k < rest.len() && #[trigger] rest[k].0 <= p < rest[k].1;
            if k < i {
                assert(rest[k] == mapped[k]);
            } else {
                assert(rest[k] == mapped[k + 1]);
            }
        }
    }
    assert(coverage(mapped) =~= coverage(rest));
    lemma_count_bound(result@, mapped, i);
}

/// Two neighbouring ranges whose images under an edit touch end to start
/// come out of `apply_delta` as one stored range that spans both, so the
/// result has fewer ranges than the set it came from.
pub proof fn lemma_touching_ranges_joined(s: IndexSet, edit: RopeEdit, i: int, result: IndexSet)
    requires
        s.wf(),
        result.wf(),
        result.covered() == coverage(mapped_ranges(edit, s@)),
        0 <= i < s@.len() - 1,
        transformed_before(edit, s@[i].0) < transformed_before(edit, s@[i].1),
        transformed_before(edit, s@[i].1) == transformed_before(edit, s@[i + 1].0),
        transformed_before(edit, s@[i + 1].0) < transformed_before(edit, s@[i + 1].1),
    ensures
        exists|k: int|
            0 <= k < result@.len() && #[trigger] result@[k].0 <= transformed_before(edit, s@[i].0)
                && transformed_before(edit, s@[i + 1].1) <= result@[k].1,
        result@.len() <= s@.len() - 1,
{
    let mapped = mapped_ranges(edit, s@);
    let a = result@;
    let lo = mapped[i].0 as int;
    let hi = mapped[i + 1].1 as int;
    assert forall|p: int| lo <= p < hi implies #[trigger] in_ranges(a, p) by {
        if p < mapped[i].1 {
            assert(mapped[i].0 <= p < mapped[i].1);
            assert(in_ranges(mapped, p));
        } else {
            assert(mapped[i + 1].0 <= p < mapped[i + 1].1);
            assert(in_ranges(mapped, p));
        }
        assert(coverage(mapped).contains(p));
    }
    assert(in_ranges(a, lo));
    let k = choose|k: int| 0 <= k < a.len() && #[trigger] a[k].0 <= lo < a[k].1;
    if a[k].1 < hi {
        let q = a[k].1 as int;
        assert(in_ranges(a, q));
        let k2 = choose|k2: int| 0 <= k2 < a.len() && #[trigger] a[k2].0 <= q < a[k2].1;
        if k2 < k {
            assert(a[k2].1 < a[k].0);
        } else if k2 > k {
            assert(a[k].1 < a[k2].0);
        }
    }
    assert(a[k].0 <= mapped[i].0 && mapped[i + 1].1 <= a[k].1);
    assert forall|j: int| 0 <= j < a.len() implies !(mapped[i + 1].0 <= #[trigger] a[j].0
        < mapped[i + 1].1) by {
        if mapped[i + 1].0 <= a[j].0 < mapped[i + 1].1 {
            if j < k {
                assert(a[j].1 < a[k].0);
            } else if j > k {
                assert(a[k].1 < a[j].0);
            }
        }
    }
    lemma_count_bound(a, mapped, i + 1);
}

} // verus!
