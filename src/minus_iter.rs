//! Walking the gaps that a set leaves in a window, from either end.

use vstd::prelude::*;
use crate::interval_set::IndexSet;
use crate::model::{
    coverage, gaps, lemma_clear_of, lemma_coverage_concat, lemma_gaps, lemma_gaps_back,
    lemma_wf_subrange, ranges_wf, span, window_ok,
};

verus! {

/// The gaps of a window `[start, end)` against the ranges `ranges[lo..hi]`
/// that still meet it; yielded from the front by `next` and from the back by
/// `next_back`.
pub struct MinusIter<'a> {
    ranges: &'a [(usize, usize)],
    lo: usize,
    hi: usize,
    start: usize,
    end: usize,
}

impl<'a> MinusIter<'a> {
    /// The ranges that still meet the window.
    closed spec fn pending(&self) -> Seq<(usize, usize)> {
        self.ranges@.subrange(self.lo as int, self.hi as int)
    }

    /// The cursor's own consistency.
    pub closed spec fn inv(&self) -> bool {
        &&& self.lo <= self.hi <= self.ranges@.len()
        &&& window_ok(self.pending(), self.start, self.end)
    }

    /// The gaps not yet yielded, in order.
    pub closed spec fn rest(&self) -> Seq<(usize, usize)> {
        gaps(self.pending(), self.start, self.end)
    }

    /// Makes the cursor over the window `[start, end)` of `set`.
    pub fn new(set: &'a IndexSet, start: usize, end: usize) -> (it: MinusIter<'a>)
        requires
            set.wf(),
        ensures
            it.inv(),
            ranges_wf(it.rest()),
            coverage(it.rest()) == span(start as int, end as int).difference(set.covered()),
            it.rest().len() <= set@.len() + 1,
    {
        let ranges = set.get_ranges();
        let len = ranges.len();
        let ghost r = ranges@;
        let mut lo: usize = 0;
        while lo < len && start >= ranges[lo].1
            invariant
                ranges@ == r,
                len == r.len(),
                lo <= len,
                forall|k: int| 0 <= k < lo ==> #[trigger] r[k].1 <= start,
            decreases len - lo,
        {
            lo += 1;
        }
        let mut hi: usize = len;
        while hi > lo && ranges[hi - 1].0 >= end
            invariant
                ranges@ == r,
                len == r.len(),
                lo <= hi <= len,
                forall|k: int| hi <= k < len ==> #[trigger] r[k].0 >= end,
            decreases hi,
        {
            hi -= 1;
        }
        let it = MinusIter { ranges, lo, hi, start, end };
        proof {
            let a = r.subrange(0, lo as int);
            let m = r.subrange(lo as int, hi as int);
            let b = r.subrange(hi as int, len as int);
            let w = span(start as int, end as int);
            lemma_wf_subrange(r, lo as int, hi as int);
            assert(r =~= a + m + b);
            lemma_coverage_concat(a, m);
            lemma_coverage_concat(a + m, b);
            assert forall|k: int| 0 <= k < a.len() implies #[trigger] a[k].1 <= start || a[k].0
                >= end by {
                assert(a[k] == r[k]);
            }
            assert forall|k: int| 0 <= k < b.len() implies #[trigger] b[k].1 <= start || b[k].0
                >= end by {
                assert(b[k] == r[hi + k]);
            }
            lemma_clear_of(a, start as int, end as int);
            lemma_clear_of(b, start as int, end as int);
            if m.len() > 0 {
                assert(m[0] == r[lo as int]);
                assert(m[m.len() - 1] == r[hi - 1]);
            }
            assert(it.pending() == m);
            lemma_gaps(m, start, end);
            assert(w.difference(coverage(m)) =~= w.difference(set.covered()));
        }
        it
    }

    /// The next gap from the front.
    pub fn next(&mut self) -> (r: Option<(usize, usize)>)
        requires
            old(self).inv(),
        ensures
            final(self).inv(),
            old(self).rest().len() == 0 ==> r.is_none() && final(self).rest() == old(self).rest(),
            old(self).rest().len() > 0 ==> r == Some(old(self).rest()[0]) && final(self).rest()
                == old(self).rest().drop_first(),
    {
        while self.start < self.end
            invariant
                self.inv(),
                self.rest() == old(self).rest(),
            decreases self.hi - self.lo,
        {
            proof {
                if self.lo < self.hi {
                    assert(self.pending()[0] == self.ranges@[self.lo as int]);
                    assert(self.pending()[0].0 <= self.pending()[self.pending().len() - 1].0);
                }
            }
            if self.lo == self.hi || self.end <= self.ranges[self.lo].0 {
                let result = (self.start, self.end);
                self.start = self.end;
                proof {
                    assert(self.pending().len() == 0);
                    assert(old(self).rest() =~= seq![result]);
                }
                return Some(result);
            }
            let ghost p = self.pending();
            let result = (self.start, self.ranges[self.lo].0);
            self.start = self.ranges[self.lo].1;
            self.lo += 1;
            proof {
                assert(self.pending() =~= p.drop_first());
                lemma_wf_subrange(p, 1, p.len() as int);
                assert(p.drop_first() == p.subrange(1, p.len() as int));
                if p.len() > 1 {
                    assert(p[0].1 < p[1].0);
                    assert(p.drop_first()[p.len() - 2] == p[p.len() - 1]);
                }
            }
            if result.1 > result.0 {
                return Some(result);
            }
        }
        proof {
            lemma_gaps(self.pending(), self.start, self.end);
            if self.rest().len() > 0 {
                assert(self.rest()[0].0 < self.rest()[0].1);
            }
        }
        None
    }

    /// The next gap from the back.
    pub fn next_back(&mut self) -> (r: Option<(usize, usize)>)
        requires
            old(self).inv(),
        ensures
            final(self).inv(),
            old(self).rest().len() == 0 ==> r.is_none() && final(self).rest() == old(self).rest(),
            old(self).rest().len() > 0 ==> r == Some(old(self).rest().last())
                && final(self).rest() == old(self).rest().drop_last(),
    {
        while self.start < self.end
            invariant
                self.inv(),
                self.rest() == old(self).rest(),
            decreases self.hi - self.lo,
        {
            proof {
                if self.lo < self.hi {
                    assert(self.pending()[0] == self.ranges@[self.lo as int]);
                    assert(self.pending()[self.pending().len() - 1] == self.ranges@[self.hi - 1]);
                    assert(self.pending()[0].1 <= self.pending()[self.pending().len() - 1].1);
                }
            }
            if self.lo == self.hi || self.ranges[self.hi - 1].1 <= self.start {
                let result = (self.start, self.end);
                self.start = self.end;
                proof {
                    assert(self.pending().len() == 0);
                    assert(old(self).rest() =~= seq![result]);
                }
                return Some(result);
            }
            let ghost p = self.pending();
            let last_ix = self.hi - 1;
            let result = (self.ranges[last_ix].1, self.end);
            self.end = self.ranges[last_ix].0;
            self.hi = last_ix;
            proof {
                assert(self.pending() =~= p.drop_last());
                lemma_gaps_back(p, self.start, result.1);
                lemma_wf_subrange(p, 0, p.len() - 1);
                assert(p.drop_last() == p.subrange(0, p.len() - 1));
                if p.len() > 1 {
                    assert(p[p.len() - 2].1 < p[p.len() - 1].0);
                    assert(p.drop_last()[0] == p[0]);
                }
            }
            if result.1 > result.0 {
                return Some(result);
            }
        }
        proof {
            lemma_gaps(self.pending(), self.start, self.end);
            if self.rest().len() > 0 {
                assert(self.rest()[0].0 < self.rest()[0].1);
            }
        }
        None
    }

    /// All the gaps not yet yielded, in order.
    pub fn collect_all(self) -> (v: Vec<(usize, usize)>)
        requires
            self.inv(),
        ensures
            v@ == self.rest(),
    {
        let ghost all = self.rest();
        let mut it = self;
        let mut v: Vec<(usize, usize)> = Vec::new();
        loop
            invariant
                it.inv(),
                v@ + it.rest() == all,
                all == self.rest(),
            decreases it.rest().len(),
        {
            match it.next() {
                Some(x) => {
                    v.push(x);
                    proof {
                        assert(v@ + it.rest() =~= all);
                    }
                },
                None => {
                    assert(v@ =~= all);
                    return v;
                },
            }
        }
    }

    /// All the gaps not yet yielded, taken from the back.
    pub fn collect_all_back(self) -> (v: Vec<(usize, usize)>)
        requires
            self.inv(),
        ensures
            v@ == self.rest().reverse(),
    {
        let ghost all = self.rest();
        let mut it = self;
        let mut v: Vec<(usize, usize)> = Vec::new();
        loop
            invariant
                it.inv(),
                it.rest() + v@.reverse() == all,
                all == self.rest(),
            decreases it.rest().len(),
        {
            let ghost before = it.rest();
            match it.next_back() {
                Some(x) => {
                    v.push(x);
                    proof {
                        assert(before =~= it.rest() + seq![x]);
                        assert(v@.reverse() =~= seq![x] + v@.drop_last().reverse());
                        assert(it.rest() + v@.reverse() =~= all);
                    }
                },
                None => {
                    assert(v@.reverse() =~= all);
                    assert(v@ =~= all.reverse());
                    return v;
                },
            }
        }
    }
}

/// The items of a walk taken from the front: those whose flag is false.
pub open spec fn taken_front(items: Seq<(usize, usize)>, from_back: Seq<bool>) -> Seq<
    (usize, usize),
>
    decreases items.len(),
{
    if items.len() == 0 || from_back.len() == 0 {
        seq![]
    } else {
        taken_front(items.drop_last(), from_back.drop_last()) + (if from_back.last() {
            seq![]
        } else {
            seq![items.last()]
        })
    }
}

/// The items of a walk taken from the back, in the order taken.
pub open spec fn taken_back(items: Seq<(usize, usize)>, from_back: Seq<bool>) -> Seq<
    (usize, usize),
>
    decreases items.len(),
{
    if items.len() == 0 || from_back.len() == 0 {
        seq![]
    } else {
        taken_back(items.drop_last(), from_back.drop_last()) + (if from_back.last() {
            seq![items.last()]
        } else {
            seq![]
        })
    }
}

/// Step `t` of a walk, as `next` (flag false) or `next_back` (flag true)
/// states it when it returns `items[t]`: the gaps left before and after it
/// are `rests[t]` and `rests[t + 1]`.
pub open spec fn walk_step(
    rests: Seq<Seq<(usize, usize)>>,
    items: Seq<(usize, usize)>,
    from_back: Seq<bool>,
    t: int,
) -> bool {
    &&& rests[t].len() > 0
    &&& from_back[t] ==> items[t] == rests[t].last() && rests[t + 1] == rests[t].drop_last()
    &&& !from_back[t] ==> items[t] == rests[t][0] && rests[t + 1] == rests[t].drop_first()
}

/// However `next` and `next_back` are interleaved, every gap is yielded
/// once: the items taken from the front, what is left, and the items taken
/// from the back in reverse, make up the gaps there were at the start. With
/// nothing left, a walk from the back alone yields the forward walk reversed.
pub proof fn lemma_interleaved_walk(
    rests: Seq<Seq<(usize, usize)>>,
    items: Seq<(usize, usize)>,
    from_back: Seq<bool>,
)
    requires
        rests.len() == items.len() + 1,
        from_back.len() == items.len(),
        forall|t: int| 0 <= t < items.len() ==> #[trigger] walk_step(rests, items, from_back, t),
    ensures
        rests[0] == taken_front(items, from_back) + rests.last() + taken_back(
            items,
            from_back,
        ).reverse(),
    decreases items.len(),
{
    if items.len() == 0 {
        assert(rests[0] =~= taken_front(items, from_back) + rests.last() + taken_back(
            items,
            from_back,
        ).reverse());
    } else {
        let n = items.len() - 1;
        let r2 = rests.drop_last();
        let i2 = items.drop_last();
        let f2 = from_back.drop_last();
        assert forall|t: int| 0 <= t < i2.len() implies #[trigger] walk_step(r2, i2, f2, t) by {
            assert(walk_step(rests, items, from_back, t));
        }
        lemma_interleaved_walk(r2, i2, f2);
        assert(walk_step(rests, items, from_back, n));
        let fr = taken_front(i2, f2);
        let bk = taken_back(i2, f2);
        let before = rests[n];
        let after = rests[n + 1];
        if from_back[n] {
            assert(before =~= after + seq![items[n]]);
            assert((bk + seq![items[n]]).reverse() =~= seq![items[n]] + bk.reverse());
            assert(rests[0] =~= taken_front(items, from_back) + rests.last() + taken_back(
                items,
                from_back,
            ).reverse());
        } else {
            assert(before =~= seq![items[n]] + after);
            assert(rests[0] =~= taken_front(items, from_back) + rests.last() + taken_back(
                items,
                from_back,
            ).reverse());
        }
    }
}

} // verus!
