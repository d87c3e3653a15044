//! The set of indices itself.

use vstd::prelude::*;
use crate::model::{
    coverage, lemma_coverage_concat, lemma_count_bound, lemma_coverage_single, lemma_drop_window, lemma_insert_range,
    lemma_replace_run, lemma_shrink_at, lemma_split_at, ordered_pairs, ranges_wf, span,
};
use crate::vec_ops::remove_n_at;
use crate::minus_iter::MinusIter;
use crate::edit_map::{mapped_ranges, transform_before, transformed_before, RopeEdit};

verus! {

/// A set of indices, stored as sorted, disjoint, non-touching, non-empty
/// half-open ranges.
pub struct IndexSet {
    ranges: Vec<(usize, usize)>,
}

impl View for IndexSet {
    type V = Seq<(usize, usize)>;

    closed spec fn view(&self) -> Seq<(usize, usize)> {
        self.ranges@
    }
}

impl IndexSet {
    /// The shape every set keeps between operations.
    pub open spec fn wf(&self) -> bool {
        ranges_wf(self@)
    }

    /// The positions the set covers.
    pub open spec fn covered(&self) -> Set<int> {
        coverage(self@)
    }

    /// Create a new, empty set.
    pub fn new() -> (r: IndexSet)
        ensures
            r.wf(),
            r@.len() == 0,
    {
        IndexSet { ranges: Vec::new() }
    }

    /// Clear the set.
    pub fn clear(&mut self)
        ensures
            final(self).wf(),
            final(self)@.len() == 0,
    {
        self.ranges.clear();
    }

    /// Add the range `start..end` to the set, merging it with every stored
    /// range that it overlaps or touches.
    pub fn union_one_range(&mut self, start: usize, end: usize)
        requires
            old(self).wf(),
            start <= end,
        ensures
            final(self).wf(),
            final(self).covered() == old(self).covered().union(span(start as int, end as int)),
    {
        let ghost r = self@;
        if start == end {
            assert(span(start as int, end as int) =~= Set::<int>::empty());
            assert(self.covered().union(span(start as int, end as int)) =~= self.covered());
            return;
        }
        let len = self.ranges.len();
        let mut i: usize = 0;
        while i < len
            invariant
                self@ == r,
                old(self)@ == r,
                len == r.len(),
                ranges_wf(r),
                start < end,
                i <= len,
                forall|k: int| 0 <= k < i ==> #[trigger] r[k].1 < start,
            decreases len - i,
        {
            let (istart, iend) = self.ranges[i];
            if start > iend {
                i += 1;
                continue;
            } else if end < istart {
                self.ranges.insert(i, (start, end));
                proof {
                    lemma_insert_range(r, i as int, (start, end));
                    assert(self@ =~= r.subrange(0, i as int) + seq![(start, end)] + r.subrange(
                        i as int,
                        r.len() as int,
                    ));
                }
                return;
            } else {
                let mut j: usize = i;
                while j + 1 < len && end >= self.ranges[j + 1].0
                    invariant
                        self@ == r,
                        len == r.len(),
                        i <= j < len,
                        forall|k: int| i < k <= j ==> #[trigger] r[k].0 <= end,
                    decreases len - j,
                {
                    j += 1;
                }
                let new_start = if start < istart { start } else { istart };
                let jend = self.ranges[j].1;
                let new_end = if end > jend { end } else { jend };
                self.ranges.set(i, (new_start, new_end));
                remove_n_at(&mut self.ranges, i + 1, j - i);
                proof {
                    lemma_replace_run(r, i as int, j as int, start, end);
                    assert(self@ =~= r.subrange(0, i as int) + seq![(new_start, new_end)]
                        + r.subrange(j + 1, r.len() as int));
                }
                return;
            }
        }
        self.ranges.push((start, end));
        proof {
            assert(self@ =~= r + seq![(start, end)]);
            lemma_coverage_concat(r, seq![(start, end)]);
            lemma_coverage_single((start, end));
            assert(self.covered() =~= old(self).covered().union(span(start as int, end as int)));
        }
    }

    /// The index of the first stored range that ends at or after `start`
    /// (the length when there is none), found by binary search.
    fn first_ending_from(&self, start: usize) -> (k: usize)
        requires
            self.wf(),
        ensures
            k <= self@.len(),
            forall|i: int| 0 <= i < k ==> #[trigger] self@[i].1 < start,
            k < self@.len() ==> self@[k as int].1 >= start,
    {
        let mut lo: usize = 0;
        let mut hi: usize = self.ranges.len();
        while lo < hi
            invariant
                self.wf(),
                lo <= hi <= self@.len(),
                forall|i: int| 0 <= i < lo ==> #[trigger] self@[i].1 < start,
                hi < self@.len() ==> self@[hi as int].1 >= start,
            decreases hi - lo,
        {
            let mid = lo + (hi - lo) / 2;
            if self.ranges[mid].1 < start {
                proof {
                    assert forall|i: int| 0 <= i <= mid implies #[trigger] self@[i].1 < start by {
                        if i < mid {
                            assert(self@[i].1 < self@[mid as int].0);
                        }
                    }
                }
                lo = mid + 1;
            } else {
                hi = mid;
            }
        }
        lo
    }

    /// Deletes the range `start..end` from the set, cutting every stored
    /// range that crosses one of its ends.
    pub fn delete_range(&mut self, start: usize, end: usize)
        requires
            old(self).wf(),
            start <= end,
        ensures
            final(self).wf(),
            final(self).covered() == old(self).covered().difference(
                span(start as int, end as int),
            ),
    {
        let ghost r = self@;
        let ghost d = span(start as int, end as int);
        if start == end {
            assert(self.covered().difference(d) =~= self.covered());
            return;
        }
        let len = self.ranges.len();
        let mut ix = self.first_ending_from(start);
        if ix < len && self.ranges[ix].0 < start {
            let (s0, e0) = self.ranges[ix];
            if e0 > end {
                self.ranges.set(ix, (s0, start));
                self.ranges.insert(ix + 1, (end, e0));
                proof {
                    lemma_split_at(r, ix as int, start, end);
                    assert(self@ =~= r.subrange(0, ix as int) + seq![(s0, start), (end, e0)]
                        + r.subrange(ix + 1, r.len() as int));
                }
                return;
            }
            self.ranges.set(ix, (s0, start));
            proof {
                lemma_shrink_at(r, ix as int, (s0, start), start as int, end as int);
            }
            ix += 1;
        }
        let ghost r1 = self@;
        let del_from = ix;
        while ix < len && self.ranges[ix].1 <= end
            invariant
                self@ == r1,
                len == r1.len(),
                ranges_wf(r1),
                del_from <= ix <= len,
                forall|k: int| del_from <= k < ix ==> start <= #[trigger] r1[k].0 && r1[k].1 <= end,
                ix < len ==> start <= r1[ix as int].0,
            decreases len - ix,
        {
            proof {
                if ix + 1 < len {
                    assert(r1[ix as int].1 < r1[ix + 1].0);
                }
            }
            ix += 1;
        }
        if ix < len && self.ranges[ix].0 < end {
            let e1 = self.ranges[ix].1;
            self.ranges.set(ix, (end, e1));
            proof {
                lemma_shrink_at(r1, ix as int, (end, e1), start as int, end as int);
            }
        }
        let ghost r2 = self@;
        remove_n_at(&mut self.ranges, del_from, ix - del_from);
        proof {
            lemma_drop_window(r2, del_from as int, ix as int, start as int, end as int);
            assert(self@ =~= r2.subrange(0, del_from as int) + r2.subrange(
                ix as int,
                r2.len() as int,
            ));
        }
    }

    /// The gaps that the set leaves in the window `start..end`, to be
    /// walked from either end.
    pub fn minus_one_range(&self, start: usize, end: usize) -> (it: MinusIter<'_>)
        requires
            self.wf(),
        ensures
            it.inv(),
            ranges_wf(it.rest()),
            coverage(it.rest()) == span(start as int, end as int).difference(self.covered()),
            coverage(it.rest()).union(self.covered().intersect(span(start as int, end as int)))
                == span(start as int, end as int),
            coverage(it.rest()).disjoint(self.covered()),
            it.rest().len() <= self@.len() + 1,
    {
        let it = MinusIter::new(self, start, end);
        proof {
            let w = span(start as int, end as int);
            assert(coverage(it.rest()).union(self.covered().intersect(w)) =~= w);
        }
        it
    }

    /// The set made of `mapped`, a list of ranges: empty ones are dropped and
    /// touching ones joined. When they come in order (see `ordered_pairs`)
    /// this takes one pass; otherwise each is added by `union_one_range`.
    pub fn from_mapped(mapped: &[(usize, usize)]) -> (r: IndexSet)
        ensures
            r.wf(),
            r.covered() == coverage(mapped@),
    {
        let n = mapped.len();
        let ghost m = mapped@;
        let mut ordered = true;
        let mut i: usize = 0;
        while i < n
            invariant
                n == m.len(),
                m == mapped@,
                i <= n,
                ordered ==> ordered_pairs(m.subrange(0, i as int)),
            decreases n - i,
        {
            let (s, e) = mapped[i];
            if s > e || (i > 0 && mapped[i - 1].1 > s) {
                ordered = false;
            }
            proof {
                if ordered {
                    let a = m.subrange(0, i as int);
                    let b = m.subrange(0, i + 1);
                    assert forall|k: int| 0 <= k < b.len() implies #[trigger] b[k].0 <= b[k].1 by {
                        if k < i {
                            assert(b[k] == a[k]);
                        }
                    }
                    assert forall|p: int, q: int| 0 <= p < q < b.len() implies #[trigger] b[p].1
                        <= #[trigger] b[q].0 by {
                        if q < i {
                            assert(b[p] == a[p] && b[q] == a[q]);
                        } else if p < i - 1 {
                            assert(a[p].1 <= a[i - 1].0);
                            assert(a[i - 1].0 <= a[i - 1].1);
                        }
                    }
                }
            }
            i += 1;
        }
        let mut set = IndexSet::new();
        if ordered {
            assert(m.subrange(0, n as int) =~= m);
            let mut k: usize = 0;
            while k < n
                invariant
                    n == m.len(),
                    m == mapped@,
                    ordered_pairs(m),
                    k <= n,
                    set.wf(),
                    set.covered() == coverage(m.subrange(0, k as int)),
                    set@.len() > 0 ==> forall|j: int| k <= j < n ==> set@.last().1 <= #[trigger] m[j].0,
                decreases n - k,
            {
                let (s, e) = mapped[k];
                let ghost before = set@;
                proof {
                    assert(m.subrange(0, k + 1) =~= m.subrange(0, k as int) + seq![(s, e)]);
                    lemma_coverage_concat(m.subrange(0, k as int), seq![(s, e)]);
                    lemma_coverage_single((s, e));
                }
                if s < e {
                    let len = set.ranges.len();
                    if len > 0 && set.ranges[len - 1].1 == s {
                        let s0 = set.ranges[len - 1].0;
                        set.ranges.set(len - 1, (s0, e));
                        proof {
                            let c = before.subrange(0, len - 1);
                            assert(before =~= c + seq![before[len - 1]]);
                            assert(set@ =~= c + seq![(s0, e)]);
                            lemma_coverage_concat(c, seq![before[len - 1]]);
                            lemma_coverage_concat(c, seq![(s0, e)]);
                            lemma_coverage_single(before[len - 1]);
                            lemma_coverage_single((s0, e));
                            assert(span(s0 as int, e as int) =~= span(s0 as int, s as int).union(
                                span(s as int, e as int),
                            ));
                            assert(set.covered() =~= coverage(m.subrange(0, k + 1)));
                            assert forall|p: int, q: int| 0 <= p < q < set@.len() implies #[trigger] set@[p].1
                                < #[trigger] set@[q].0 by {
                                assert(before[p].1 < before[q].0);
                            }
                            assert forall|j: int| k + 1 <= j < n implies set@.last().1 <= #[trigger] m[j].0 by {
                                assert(m[k as int].1 <= m[j].0);
                            }
                        }
                    } else {
                        set.ranges.push((s, e));
                        proof {
                            assert(set@ =~= before + seq![(s, e)]);
                            lemma_coverage_concat(before, seq![(s, e)]);
                            assert forall|p: int, q: int| 0 <= p < q < set@.len() implies #[trigger] set@[p].1
                                < #[trigger] set@[q].0 by {
                                if q < before.len() {
                                    assert(before[p].1 < before[q].0);
                                } else if p < before.len() - 1 {
                                    assert(before[p].1 < before[before.len() - 1].0);
                                }
                            }
                            assert(set.covered() =~= coverage(m.subrange(0, k + 1)));
                            assert forall|j: int| k + 1 <= j < n implies set@.last().1 <= #[trigger] m[j].0 by {
                                assert(m[k as int].1 <= m[j].0);
                            }
                        }
                    }
                } else {
                    proof {
                        assert(span(s as int, e as int) =~= Set::<int>::empty());
                        assert(set.covered() =~= coverage(m.subrange(0, k + 1)));
                    }
                }
                k += 1;
            }
            assert(m.subrange(0, n as int) =~= m);
        } else {
            let mut k: usize = 0;
            while k < n
                invariant
                    n == m.len(),
                    m == mapped@,
                    k <= n,
                    set.wf(),
                    set.covered() == coverage(m.subrange(0, k as int)),
                decreases n - k,
            {
                let (s, e) = mapped[k];
                proof {
                    assert(m.subrange(0, k + 1) =~= m.subrange(0, k as int) + seq![(s, e)]);
                    lemma_coverage_concat(m.subrange(0, k as int), seq![(s, e)]);
                    lemma_coverage_single((s, e));
                }
                if s <= e {
                    set.union_one_range(s, e);
                } else {
                    assert(span(s as int, e as int) =~= Set::<int>::empty());
                }
                proof {
                    assert(set.covered() =~= coverage(m.subrange(0, k + 1)));
                }
                k += 1;
            }
            assert(m.subrange(0, n as int) =~= m);
        }
        set
    }

    /// Computes a new set based on applying an edit to this one: both ends of
    /// each range are mapped through the edit, before any inserted text;
    /// collapsed ranges are removed and touching ones combined.
    pub fn apply_delta(&self, delta: &RopeEdit) -> (r: IndexSet)
        requires
            self.wf(),
        ensures
            r.wf(),
            r.covered() == coverage(mapped_ranges(*delta, self@)),
            r@.len() <= self@.len(),
    {
        let n = self.ranges.len();
        let mut mapped: Vec<(usize, usize)> = Vec::new();
        let mut i: usize = 0;
        while i < n
            invariant
                n == self@.len(),
                i <= n,
                mapped@.len() == i,
                forall|k: int|
                    0 <= k < i ==> #[trigger] mapped@[k] == (
                        transformed_before(*delta, self@[k].0),
                        transformed_before(*delta, self@[k].1),
                    ),
            decreases n - i,
        {
            let (start, end) = self.ranges[i];
            let new_range = (transform_before(delta, start), transform_before(delta, end));
            mapped.push(new_range);
            i += 1;
        }
        let r = IndexSet::from_mapped(mapped.as_slice());
        assert(mapped@ =~= mapped_ranges(*delta, self@));
        proof {
            lemma_count_bound(r@, mapped@, mapped@.len() as int);
        }
        r
    }

    /// The stored ranges, in order.
    pub fn get_ranges(&self) -> (r: &[(usize, usize)])
        ensures
            r@ == self@,
    {
        self.ranges.as_slice()
    }
}

} // verus!
