//! The mathematical model of a range list: the set of positions it covers,
//! and the shape that a stored list keeps.

use vstd::prelude::*;
use vstd::set_lib::{lemma_int_range, lemma_len_subset, lemma_map_size, set_int_range};

verus! {

/// The positions `s <= p < e`.
pub open spec fn span(s: int, e: int) -> Set<int> {
    Set::new(|p: int| s <= p < e)
}

/// Position `p` lies in one of the ranges of `r`.
pub open spec fn in_ranges(r: Seq<(usize, usize)>, p: int) -> bool {
    exists|i: int| 0 <= i < r.len() && #[trigger] r[i].0 <= p < r[i].1
}

/// The positions covered by the ranges of `r`.
pub open spec fn coverage(r: Seq<(usize, usize)>) -> Set<int> {
    Set::new(|p: int| in_ranges(r, p))
}

/// Every range of `r` is non-empty, and any two of them, in order, leave a
/// gap of at least one position between them: sorted, disjoint, not touching.
pub open spec fn ranges_wf(r: Seq<(usize, usize)>) -> bool {
    &&& forall|i: int| 0 <= i < r.len() ==> #[trigger] r[i].0 < r[i].1
    &&& forall|i: int, j: int| 0 <= i < j < r.len() ==> #[trigger] r[i].1 < #[trigger] r[j].0
}


/// Each range of `m` is not inverted, and none starts before an earlier one
/// ends: the ranges come in order, possibly empty or touching.
pub open spec fn ordered_pairs(m: Seq<(usize, usize)>) -> bool {
    &&& forall|i: int| 0 <= i < m.len() ==> #[trigger] m[i].0 <= m[i].1
    &&& forall|i: int, j: int| 0 <= i < j < m.len() ==> #[trigger] m[i].1 <= #[trigger] m[j].0
}

/// What a concatenation covers is what its two parts cover.
pub proof fn lemma_coverage_concat(a: Seq<(usize, usize)>, b: Seq<(usize, usize)>)
    ensures
        coverage(a + b) == coverage(a).union(coverage(b)),
{
    let c = a + b;
    assert forall|p: int| #[trigger] in_ranges(c, p) == (in_ranges(a, p) || in_ranges(b, p)) by {
        if in_ranges(c, p) {
            let i = choose|i: int| 0 <= i < c.len() && #[trigger] c[i].0 <= p < c[i].1;
            if i < a.len() {
                assert(a[i] == c[i]);
            } else {
                assert(b[i - a.len()] == c[i]);
            }
        }
        if in_ranges(a, p) {
            let i = choose|i: int| 0 <= i < a.len() && #[trigger] a[i].0 <= p < a[i].1;
            assert(c[i] == a[i]);
        }
        if in_ranges(b, p) {
            let i = choose|i: int| 0 <= i < b.len() && #[trigger] b[i].0 <= p < b[i].1;
            assert(c[i + a.len()] == b[i]);
        }
    }
    assert(coverage(c) =~= coverage(a).union(coverage(b)));
}

/// A single range covers its span.
pub proof fn lemma_coverage_single(x: (usize, usize))
    ensures
        coverage(seq![x]) == span(x.0 as int, x.1 as int),
{
    let r = seq![x];
    assert forall|p: int| #[trigger] in_ranges(r, p) == (x.0 <= p < x.1) by {
        if x.0 <= p < x.1 {
            assert(r[0].0 <= p < r[0].1);
        }
    }
    assert(coverage(r) =~= span(x.0 as int, x.1 as int));
}

/// The empty list covers nothing.
pub proof fn lemma_coverage_empty(r: Seq<(usize, usize)>)
    requires
        r.len() == 0,
    ensures
        coverage(r) == Set::<int>::empty(),
{
    assert(coverage(r) =~= Set::<int>::empty());
}

/// Cutting a list at `k` splits what it covers.
pub proof fn lemma_coverage_split(r: Seq<(usize, usize)>, k: int)
    requires
        0 <= k <= r.len(),
    ensures
        coverage(r) == coverage(r.subrange(0, k)).union(coverage(r.subrange(k, r.len() as int))),
{
    assert(r == r.subrange(0, k) + r.subrange(k, r.len() as int));
    lemma_coverage_concat(r.subrange(0, k), r.subrange(k, r.len() as int));
}

/// A part of a well-formed list is well formed.
pub proof fn lemma_wf_subrange(r: Seq<(usize, usize)>, lo: int, hi: int)
    requires
        ranges_wf(r),
        0 <= lo <= hi <= r.len(),
    ensures
        ranges_wf(r.subrange(lo, hi)),
{
    let s = r.subrange(lo, hi);
    assert forall|i: int, j: int| 0 <= i < j < s.len() implies #[trigger] s[i].1 < #[trigger] s[j].0 by {
        assert(s[i] == r[lo + i] && s[j] == r[lo + j]);
    }
    assert forall|i: int| 0 <= i < s.len() implies #[trigger] s[i].0 < s[i].1 by {
        assert(s[i] == r[lo + i]);
    }
}

/// Two well-formed lists that cover the same positions are the same list:
/// a set has exactly one stored form.
pub proof fn lemma_canonical(a: Seq<(usize, usize)>, b: Seq<(usize, usize)>)
    requires
        ranges_wf(a),
        ranges_wf(b),
        coverage(a) == coverage(b),
    ensures
        a == b,
    decreases a.len() + b.len(),
{
    if a.len() == 0 && b.len() == 0 {
        assert(a =~= b);
    } else if a.len() == 0 {
        assert(in_ranges(b, b[0].0 as int));
        assert(coverage(b).contains(b[0].0 as int));
    } else if b.len() == 0 {
        assert(in_ranges(a, a[0].0 as int));
        assert(coverage(a).contains(a[0].0 as int));
    } else {
        let (a0, a1) = a[0];
        let (b0, b1) = b[0];
        // the first start is the least covered position
        assert(coverage(a).contains(a0 as int)) by {
            assert(in_ranges(a, a0 as int));
        }
        assert(coverage(b).contains(b0 as int)) by {
            assert(in_ranges(b, b0 as int));
        }
        assert(in_ranges(b, a0 as int));
        assert(in_ranges(a, b0 as int));
        let ia = choose|i: int| 0 <= i < a.len() && #[trigger] a[i].0 <= b0 < a[i].1;
        let ib = choose|i: int| 0 <= i < b.len() && #[trigger] b[i].0 <= a0 < b[i].1;
        if ia > 0 {
            assert(a[0].1 < a[ia].0);
        }
        if ib > 0 {
            assert(b[0].1 < b[ib].0);
        }
        assert(a0 == b0);
        // the first end is the least uncovered position above it
        if a1 < b1 {
            assert(in_ranges(b, a1 as int)) by {
                assert(b[0].0 <= a1 < b[0].1);
            }
            assert(coverage(b).contains(a1 as int));
            assert(in_ranges(a, a1 as int));
            let k = choose|i: int| 0 <= i < a.len() && #[trigger] a[i].0 <= a1 < a[i].1;
            if k > 0 {
                assert(a[0].1 < a[k].0);
            }
        }
        if b1 < a1 {
            assert(in_ranges(a, b1 as int)) by {
                assert(a[0].0 <= b1 < a[0].1);
            }
            assert(coverage(a).contains(b1 as int));
            assert(in_ranges(b, b1 as int));
            let k = choose|i: int| 0 <= i < b.len() && #[trigger] b[i].0 <= b1 < b[i].1;
            if k > 0 {
                assert(b[0].1 < b[k].0);
            }
        }
        assert(a[0] == b[0]);
        let ta = a.subrange(1, a.len() as int);
        let tb = b.subrange(1, b.len() as int);
        lemma_wf_subrange(a, 1, a.len() as int);
        lemma_wf_subrange(b, 1, b.len() as int);
        lemma_coverage_split(a, 1);
        lemma_coverage_split(b, 1);
        lemma_coverage_single(a[0]);
        assert(a.subrange(0, 1) =~= seq![a[0]]);
        assert(b.subrange(0, 1) =~= seq![b[0]]);
        assert forall|p: int| coverage(ta).contains(p) implies p >= a1 by {
            assert(in_ranges(ta, p));
            let k = choose|i: int| 0 <= i < ta.len() && #[trigger] ta[i].0 <= p < ta[i].1;
            assert(ta[k] == a[k + 1]);
            assert(a[0].1 < a[k + 1].0);
        }
        assert forall|p: int| coverage(tb).contains(p) implies p >= b1 by {
            assert(in_ranges(tb, p));
            let k = choose|i: int| 0 <= i < tb.len() && #[trigger] tb[i].0 <= p < tb[i].1;
            assert(tb[k] == b[k + 1]);
            assert(b[0].1 < b[k + 1].0);
        }
        assert(coverage(ta) =~= coverage(a).difference(span(a0 as int, a1 as int)));
        assert(coverage(tb) =~= coverage(b).difference(span(b0 as int, b1 as int)));
        lemma_canonical(ta, tb);
        assert(a =~= seq![a[0]] + ta);
        assert(b =~= seq![b[0]] + tb);
    }
}


/// A run `r[i..=j]` of stored ranges that all meet `[start, end)`, together
/// with it, covers one unbroken span.
pub proof fn lemma_merge_run(r: Seq<(usize, usize)>, i: int, j: int, start: int, end: int)
    requires
        ranges_wf(r),
        0 <= i <= j < r.len(),
        start <= end,
        start <= r[i].1,
        r[i].0 <= end,
        forall|k: int| i < k <= j ==> #[trigger] r[k].0 <= end,
    ensures
        coverage(r.subrange(i, j + 1)).union(span(start, end)) == span(
            if start < r[i].0 { start } else { r[i].0 as int },
            if end > r[j].1 { end } else { r[j].1 as int },
        ),
    decreases j - i,
{
    let lo = if start < r[i].0 { start } else { r[i].0 as int };
    if j == i {
        assert(r.subrange(i, i + 1) =~= seq![r[i]]);
        lemma_coverage_single(r[i]);
        let hi = if end > r[i].1 { end } else { r[i].1 as int };
        assert(span(r[i].0 as int, r[i].1 as int).union(span(start, end)) =~= span(lo, hi));
    } else {
        lemma_merge_run(r, i, j - 1, start, end);
        let prev = if end > r[j - 1].1 { end } else { r[j - 1].1 as int };
        let hi = if end > r[j].1 { end } else { r[j].1 as int };
        assert(r.subrange(i, j + 1) =~= r.subrange(i, j) + seq![r[j]]);
        lemma_coverage_concat(r.subrange(i, j), seq![r[j]]);
        lemma_coverage_single(r[j]);
        assert(r[j - 1].1 < r[j].0);
        assert(r[i].0 <= r[j - 1].0);
        assert(span(lo, prev).union(span(r[j].0 as int, r[j].1 as int)) =~= span(lo, hi));
    }
}


/// Non-empty ranges each ending before the next one starts are well formed.
pub proof fn lemma_wf_from_adjacent(s: Seq<(usize, usize)>)
    requires
        forall|k: int| 0 <= k < s.len() ==> #[trigger] s[k].0 < s[k].1,
        forall|k: int| 0 <= k < s.len() - 1 ==> #[trigger] s[k].1 < s[k + 1].0,
    ensures
        ranges_wf(s),
    decreases s.len(),
{
    if s.len() > 0 {
        let t = s.subrange(0, s.len() - 1);
        assert forall|k: int| 0 <= k < t.len() - 1 implies #[trigger] t[k].1 < t[k + 1].0 by {
            assert(t[k] == s[k] && t[k + 1] == s[k + 1]);
        }
        lemma_wf_from_adjacent(t);
        assert forall|p: int, q: int| 0 <= p < q < s.len() implies #[trigger] s[p].1
            < #[trigger] s[q].0 by {
            if q < s.len() - 1 {
                assert(t[p] == s[p] && t[q] == s[q]);
            } else if p < q - 1 {
                assert(t[p] == s[p] && t[q - 1] == s[q - 1]);
                assert(s[p].1 < s[q - 1].0);
            }
        }
    }
}

/// Placing a range into the gap before `r[i]` keeps the shape and adds its
/// span.
pub proof fn lemma_insert_range(r: Seq<(usize, usize)>, i: int, x: (usize, usize))
    requires
        ranges_wf(r),
        0 <= i <= r.len(),
        x.0 < x.1,
        i > 0 ==> r[i - 1].1 < x.0,
        i < r.len() ==> x.1 < r[i].0,
    ensures
        ranges_wf(r.subrange(0, i) + seq![x] + r.subrange(i, r.len() as int)),
        coverage(r.subrange(0, i) + seq![x] + r.subrange(i, r.len() as int)) == coverage(
            r,
        ).union(span(x.0 as int, x.1 as int)),
{
    let a = r.subrange(0, i);
    let b = r.subrange(i, r.len() as int);
    let s = a + seq![x] + b;
    assert(r =~= a + b);
    lemma_coverage_concat(a, b);
    lemma_coverage_concat(a + seq![x], b);
    lemma_coverage_concat(a, seq![x]);
    lemma_coverage_single(x);
    assert(coverage(s) =~= coverage(r).union(span(x.0 as int, x.1 as int)));
    assert forall|k: int| 0 <= k < s.len() - 1 implies #[trigger] s[k].1 < s[k + 1].0 by {
        if k + 1 < i {
            assert(s[k] == r[k] && s[k + 1] == r[k + 1]);
        } else if k == i {
            assert(s[k + 1] == r[k]);
        } else if k > i {
            assert(s[k] == r[k - 1] && s[k + 1] == r[k]);
        }
    }
    assert forall|p: int| 0 <= p < s.len() implies #[trigger] s[p].0 < s[p].1 by {
        if p > i {
            assert(s[p] == r[p - 1]);
        }
    }
    lemma_wf_from_adjacent(s);
}

/// Replacing the run `r[i..=j]` by the one range that spans it and
/// `[start, end)` keeps the shape and adds that span.
pub proof fn lemma_replace_run(r: Seq<(usize, usize)>, i: int, j: int, start: usize, end: usize)
    requires
        ranges_wf(r),
        0 <= i <= j < r.len(),
        start < end,
        start <= r[i].1,
        r[i].0 <= end,
        i > 0 ==> r[i - 1].1 < start,
        forall|k: int| i < k <= j ==> #[trigger] r[k].0 <= end,
        j + 1 < r.len() ==> end < r[j + 1].0,
    ensures
        ({
            let x = (
                if start < r[i].0 { start } else { r[i].0 },
                if end > r[j].1 { end } else { r[j].1 },
            );
            let s = r.subrange(0, i) + seq![x] + r.subrange(j + 1, r.len() as int);
            ranges_wf(s) && coverage(s) == coverage(r).union(span(start as int, end as int))
        }),
{
    let x = (
        if start < r[i].0 { start } else { r[i].0 },
        if end > r[j].1 { end } else { r[j].1 },
    );
    let a = r.subrange(0, i);
    let m = r.subrange(i, j + 1);
    let b = r.subrange(j + 1, r.len() as int);
    let s = a + seq![x] + b;
    assert(r =~= a + m + b);
    lemma_coverage_concat(a, m);
    lemma_coverage_concat(a + m, b);
    lemma_coverage_concat(a, seq![x]);
    lemma_coverage_concat(a + seq![x], b);
    lemma_coverage_single(x);
    lemma_merge_run(r, i, j, start as int, end as int);
    assert(coverage(s) =~= coverage(r).union(span(start as int, end as int)));
    let d = j - i;
    assert forall|k: int| 0 <= k < s.len() - 1 implies #[trigger] s[k].1 < s[k + 1].0 by {
        if k + 1 < i {
            assert(s[k] == r[k] && s[k + 1] == r[k + 1]);
        } else if k + 1 == i {
            assert(s[k] == r[k]);
        } else if k == i {
            assert(s[k + 1] == r[j + 1]);
        } else {
            assert(s[k] == r[k + d] && s[k + 1] == r[k + d + 1]);
        }
    }
    assert forall|p: int| 0 <= p < s.len() implies #[trigger] s[p].0 < s[p].1 by {
        if p > i {
            assert(s[p] == r[p + d]);
        }
    }
    lemma_wf_from_adjacent(s);
}


/// Ranges that all lie outside `[start, end)` lose nothing to it.
pub proof fn lemma_clear_of(s: Seq<(usize, usize)>, start: int, end: int)
    requires
        forall|k: int| 0 <= k < s.len() ==> #[trigger] s[k].1 <= start || s[k].0 >= end,
    ensures
        coverage(s).difference(span(start, end)) == coverage(s),
{
    assert forall|p: int| coverage(s).contains(p) implies !span(start, end).contains(p) by {
        assert(in_ranges(s, p));
        let k = choose|k: int| 0 <= k < s.len() && #[trigger] s[k].0 <= p < s[k].1;
    }
    assert(coverage(s).difference(span(start, end)) =~= coverage(s));
}

/// Narrowing `r[k]` to `x`, where `x` keeps every position of `r[k]` that
/// lies outside `[start, end)`, keeps the shape and what lies outside.
pub proof fn lemma_shrink_at(
    r: Seq<(usize, usize)>,
    k: int,
    x: (usize, usize),
    start: int,
    end: int,
)
    requires
        ranges_wf(r),
        0 <= k < r.len(),
        r[k].0 <= x.0 < x.1 <= r[k].1,
        r[k].0 < x.0 ==> start <= r[k].0 && x.0 <= end,
        x.1 < r[k].1 ==> start <= x.1 && r[k].1 <= end,
    ensures
        ranges_wf(r.update(k, x)),
        coverage(r.update(k, x)).difference(span(start, end)) == coverage(r).difference(
            span(start, end),
        ),
{
    let s = r.update(k, x);
    assert forall|p: int|
        #[trigger] in_ranges(s, p) && !(start <= p < end) <==> in_ranges(r, p) && !(start <= p
            < end) by {
        if in_ranges(s, p) {
            let i = choose|i: int| 0 <= i < s.len() && #[trigger] s[i].0 <= p < s[i].1;
            assert(r[i].0 <= p < r[i].1);
        }
        if in_ranges(r, p) && !(start <= p < end) {
            let i = choose|i: int| 0 <= i < r.len() && #[trigger] r[i].0 <= p < r[i].1;
            assert(s[i].0 <= p < s[i].1);
        }
    }
    assert(coverage(s).difference(span(start, end)) =~= coverage(r).difference(
        span(start, end),
    ));
    assert forall|i: int, j: int| 0 <= i < j < s.len() implies #[trigger] s[i].1
        < #[trigger] s[j].0 by {
        assert(r[i].1 < r[j].0);
    }
}

/// Dropping the run `r[lo..hi]`, which lies inside `[start, end)`, keeps the
/// shape and what lies outside.
pub proof fn lemma_remove_inside(r: Seq<(usize, usize)>, lo: int, hi: int, start: int, end: int)
    requires
        ranges_wf(r),
        0 <= lo <= hi <= r.len(),
        forall|k: int| lo <= k < hi ==> start <= #[trigger] r[k].0 && r[k].1 <= end,
    ensures
        ({
            let s = r.subrange(0, lo) + r.subrange(hi, r.len() as int);
            ranges_wf(s) && coverage(s).difference(span(start, end)) == coverage(r).difference(
                span(start, end),
            )
        }),
{
    let a = r.subrange(0, lo);
    let m = r.subrange(lo, hi);
    let b = r.subrange(hi, r.len() as int);
    let s = a + b;
    assert(r =~= a + m + b);
    lemma_coverage_concat(a, m);
    lemma_coverage_concat(a + m, b);
    lemma_coverage_concat(a, b);
    assert forall|p: int| coverage(m).contains(p) implies span(start, end).contains(p) by {
        assert(in_ranges(m, p));
        let k = choose|k: int| 0 <= k < m.len() && #[trigger] m[k].0 <= p < m[k].1;
        assert(m[k] == r[lo + k]);
    }
    assert(coverage(s).difference(span(start, end)) =~= coverage(r).difference(
        span(start, end),
    ));
    let d = hi - lo;
    assert forall|i: int, j: int| 0 <= i < j < s.len() implies #[trigger] s[i].1
        < #[trigger] s[j].0 by {
        let ii = if i < lo { i } else { i + d };
        let jj = if j < lo { j } else { j + d };
        assert(s[i] == r[ii] && s[j] == r[jj]);
    }
    assert forall|i: int| 0 <= i < s.len() implies #[trigger] s[i].0 < s[i].1 by {
        let ii = if i < lo { i } else { i + d };
        assert(s[i] == r[ii]);
    }
}

/// Dropping the run `r[lo..hi]` inside `[start, end)`, where what stands
/// before it ends by `start` and what stands after it starts from `end`,
/// leaves exactly what `r` covers outside `[start, end)`.
pub proof fn lemma_drop_window(r: Seq<(usize, usize)>, lo: int, hi: int, start: int, end: int)
    requires
        ranges_wf(r),
        0 <= lo <= hi <= r.len(),
        forall|k: int| lo <= k < hi ==> start <= #[trigger] r[k].0 && r[k].1 <= end,
        lo > 0 ==> r[lo - 1].1 <= start,
        hi < r.len() ==> r[hi].0 >= end,
    ensures
        ({
            let s = r.subrange(0, lo) + r.subrange(hi, r.len() as int);
            ranges_wf(s) && coverage(s) == coverage(r).difference(span(start, end))
        }),
{
    assert forall|k: int| lo <= k < hi implies start <= #[trigger] r[k].0 && r[k].1 <= end by {}
    lemma_remove_inside(r, lo, hi, start, end);
    let s = r.subrange(0, lo) + r.subrange(hi, r.len() as int);
    assert forall|k: int| 0 <= k < s.len() implies #[trigger] s[k].1 <= start || s[k].0
        >= end by {
        if k < lo {
            assert(s[k] == r[k]);
            if k + 1 < lo {
                assert(r[k].1 < r[lo - 1].0);
            }
        } else {
            assert(s[k] == r[k + hi - lo]);
            if k > lo {
                assert(r[hi].1 < r[k + hi - lo].0);
            }
        }
    }
    lemma_clear_of(s, start, end);
}

/// Cutting `[start, end)` out of the middle of `r[k]` leaves its two ends.
pub proof fn lemma_split_at(r: Seq<(usize, usize)>, k: int, start: usize, end: usize)
    requires
        ranges_wf(r),
        0 <= k < r.len(),
        r[k].0 < start < end < r[k].1,
    ensures
        ({
            let s = r.subrange(0, k) + seq![(r[k].0, start), (end, r[k].1)] + r.subrange(
                k + 1,
                r.len() as int,
            );
            ranges_wf(s) && coverage(s) == coverage(r).difference(span(start as int, end as int))
        }),
{
    let a = r.subrange(0, k);
    let b = r.subrange(k + 1, r.len() as int);
    let x = (r[k].0, start);
    let y = (end, r[k].1);
    let mid = seq![x, y];
    let s = a + mid + b;
    let d = span(start as int, end as int);
    assert(r =~= a + seq![r[k]] + b);
    assert(mid =~= seq![x] + seq![y]);
    lemma_coverage_concat(a, seq![r[k]]);
    lemma_coverage_concat(a + seq![r[k]], b);
    lemma_coverage_concat(a, mid);
    lemma_coverage_concat(a + mid, b);
    lemma_coverage_concat(seq![x], seq![y]);
    lemma_coverage_single(x);
    lemma_coverage_single(y);
    lemma_coverage_single(r[k]);
    assert forall|i: int| 0 <= i < a.len() implies #[trigger] a[i].1 <= start || a[i].0 >= end by {
        assert(a[i] == r[i] && r[i].1 < r[k].0);
    }
    assert forall|i: int| 0 <= i < b.len() implies #[trigger] b[i].1 <= start || b[i].0 >= end by {
        assert(b[i] == r[k + 1 + i] && r[k].1 < r[k + 1 + i].0);
    }
    lemma_clear_of(a, start as int, end as int);
    lemma_clear_of(b, start as int, end as int);
    assert(coverage(mid) =~= span(r[k].0 as int, r[k].1 as int).difference(d));
    assert(coverage(s) =~= coverage(r).difference(d));
    assert forall|i: int| 0 <= i < s.len() - 1 implies #[trigger] s[i].1 < s[i + 1].0 by {
        if i + 1 < k {
            assert(s[i] == r[i] && s[i + 1] == r[i + 1]);
        } else if i + 1 == k {
            assert(s[i] == r[i]);
        } else if i == k + 1 {
            assert(s[i + 1] == r[k + 1]);
        } else if i > k + 1 {
            assert(s[i] == r[i - 1] && s[i + 1] == r[i]);
        }
    }
    assert forall|i: int| 0 <= i < s.len() implies #[trigger] s[i].0 < s[i].1 by {
        if i > k + 1 {
            assert(s[i] == r[i - 1]);
        }
    }
    lemma_wf_from_adjacent(s);
}


/// The gaps that the ranges `r` leave in the window `[s, e)`, in order, for
/// ranges that all meet the window (see `window_ok`).
pub open spec fn gaps(r: Seq<(usize, usize)>, s: usize, e: usize) -> Seq<(usize, usize)>
    decreases r.len(),
{
    if r.len() == 0 {
        if s < e {
            seq![(s, e)]
        } else {
            seq![]
        }
    } else {
        (if s < r[0].0 {
            seq![(s, r[0].0)]
        } else {
            seq![]
        }) + gaps(r.drop_first(), r[0].1, e)
    }
}

/// `r` is well formed, its first range ends after `s` and its last range
/// starts before `e`.
pub open spec fn window_ok(r: Seq<(usize, usize)>, s: usize, e: usize) -> bool {
    &&& ranges_wf(r)
    &&& r.len() > 0 ==> s < r[0].1 && r[r.len() - 1].0 < e
}

/// The gaps are well formed, lie in the window, and cover exactly the
/// positions of the window that `r` leaves uncovered.
pub proof fn lemma_gaps(r: Seq<(usize, usize)>, s: usize, e: usize)
    requires
        window_ok(r, s, e),
    ensures
        ranges_wf(gaps(r, s, e)),
        forall|k: int|
            0 <= k < gaps(r, s, e).len() ==> s <= #[trigger] gaps(r, s, e)[k].0 && gaps(
                r,
                s,
                e,
            )[k].1 <= e,
        coverage(gaps(r, s, e)) == span(s as int, e as int).difference(coverage(r)),
        gaps(r, s, e).len() <= r.len() + 1,
    decreases r.len(),
{
    let g = gaps(r, s, e);
    if r.len() == 0 {
        lemma_coverage_empty(r);
        if s < e {
            lemma_coverage_single((s, e));
        } else {
            lemma_coverage_empty(g);
        }
        assert(span(s as int, e as int).difference(coverage(r)) =~= coverage(g));
    } else {
        let t = r.drop_first();
        let (r0, r1) = r[0];
        lemma_wf_subrange(r, 1, r.len() as int);
        assert(t == r.subrange(1, r.len() as int));
        if t.len() > 0 {
            assert(r[0].1 < r[1].0);
            assert(t[t.len() - 1] == r[r.len() - 1]);
        }
        lemma_gaps(t, r1, e);
        let tg = gaps(t, r1, e);
        let lead: Seq<(usize, usize)> = if s < r0 {
            seq![(s, r0)]
        } else {
            seq![]
        };
        assert(g == lead + tg);
        lemma_coverage_concat(lead, tg);
        if s < r0 {
            lemma_coverage_single((s, r0));
        } else {
            lemma_coverage_empty(lead);
        }
        assert(r =~= seq![r[0]] + t);
        lemma_coverage_concat(seq![r[0]], t);
        lemma_coverage_single(r[0]);
        assert(r[0].0 <= r[r.len() - 1].0);
        assert forall|p: int| coverage(t).contains(p) implies p >= r1 by {
            assert(in_ranges(t, p));
            let k = choose|k: int| 0 <= k < t.len() && #[trigger] t[k].0 <= p < t[k].1;
            assert(t[k] == r[k + 1]);
            assert(r[0].1 < r[k + 1].0);
        }
        assert(coverage(g) =~= span(s as int, e as int).difference(coverage(r)));
        assert forall|k: int| 0 <= k < g.len() implies s <= #[trigger] g[k].0 && g[k].1 <= e by {
            if k >= lead.len() {
                assert(g[k] == tg[k - lead.len()]);
            }
        }
        assert forall|k: int| 0 <= k < g.len() implies #[trigger] g[k].0 < g[k].1 by {
            if k >= lead.len() {
                assert(g[k] == tg[k - lead.len()]);
            }
        }
        assert forall|i: int, j: int| 0 <= i < j < g.len() implies #[trigger] g[i].1
            < #[trigger] g[j].0 by {
            assert(g[j] == tg[j - lead.len()]);
            if i >= lead.len() {
                assert(g[i] == tg[i - lead.len()]);
            }
        }
    }
}

/// The gaps seen from the back: those before the last range, in the window
/// that ends where it starts, then the one after it.
pub proof fn lemma_gaps_back(r: Seq<(usize, usize)>, s: usize, e: usize)
    requires
        r.len() > 0,
    ensures
        gaps(r, s, e) == gaps(r.drop_last(), s, r[r.len() - 1].0) + (if r[r.len() - 1].1 < e {
            seq![(r[r.len() - 1].1, e)]
        } else {
            seq![]
        }),
    decreases r.len(),
{
    let last = r[r.len() - 1];
    let trail: Seq<(usize, usize)> = if last.1 < e {
        seq![(last.1, e)]
    } else {
        seq![]
    };
    let lead: Seq<(usize, usize)> = if s < r[0].0 {
        seq![(s, r[0].0)]
    } else {
        seq![]
    };
    if r.len() == 1 {
        assert(r.drop_first().len() == 0);
        assert(r.drop_last().len() == 0);
        assert(gaps(r.drop_first(), r[0].1, e) == trail);
        assert(gaps(r.drop_last(), s, last.0) == lead);
        assert(gaps(r, s, e) =~= lead + trail);
    } else {
        let t = r.drop_first();
        lemma_gaps_back(t, r[0].1, e);
        assert(t[t.len() - 1] == last);
        assert(t.drop_last() =~= r.drop_last().drop_first());
        assert(r.drop_last()[0] == r[0]);
        assert(gaps(r.drop_last(), s, last.0) == lead + gaps(t.drop_last(), r[0].1, last.0));
        assert(gaps(r, s, e) == lead + gaps(t, r[0].1, e));
        assert(gaps(r, s, e) =~= gaps(r.drop_last(), s, last.0) + trail);
    }
}


/// A range of `m` holding position `p`, where one does.
pub open spec fn holder(m: Seq<(usize, usize)>, p: int) -> int {
    choose|i: int| 0 <= i < m.len() && #[trigger] m[i].0 <= p < m[i].1
}

/// A well-formed list covering what `m` covers has at most as many ranges as
/// `m` has, less one where some range `m[x]` holds no stored start (`x` past
/// the end names no range).
pub proof fn lemma_count_bound(a: Seq<(usize, usize)>, m: Seq<(usize, usize)>, x: int)
    requires
        ranges_wf(a),
        coverage(a) == coverage(m),
        0 <= x <= m.len(),
        x < m.len() ==> forall|j: int|
            0 <= j < a.len() ==> !(m[x].0 <= #[trigger] a[j].0 < m[x].1),
    ensures
        x < m.len() ==> a.len() <= m.len() - 1,
        a.len() <= m.len(),
{
    let f = |j: int| holder(m, a[j].0 as int);
    let dom = set_int_range(0, a.len() as int);
    let img = dom.map(f);
    assert forall|j: int| 0 <= j < a.len() implies 0 <= #[trigger] f(j) < m.len() && m[f(j)].0
        <= a[j].0 < m[f(j)].1 && f(j) != x by {
        assert(in_ranges(a, a[j].0 as int));
        assert(coverage(a).contains(a[j].0 as int));
        assert(in_ranges(m, a[j].0 as int));
    }
    assert forall|j1: int, j2: int| dom.contains(j1) && dom.contains(j2) && #[trigger] f(j1)
        == #[trigger] f(j2) implies j1 == j2 by {
        if j1 != j2 {
            let lo = if j1 < j2 { j1 } else { j2 };
            let hi = if j1 < j2 { j2 } else { j1 };
            let i = f(j1);
            let q = a[lo].1 as int;
            assert(a[lo].1 < a[hi].0);
            assert(m[i].0 <= q < m[i].1);
            assert(in_ranges(m, q));
            assert(coverage(m).contains(q));
            assert(in_ranges(a, q));
            let k = choose|k: int| 0 <= k < a.len() && #[trigger] a[k].0 <= q < a[k].1;
            if k < lo {
                assert(a[k].1 < a[lo].0);
            } else if k > lo {
                assert(a[lo].1 < a[k].0);
            }
        }
    }
    lemma_int_range(0, a.len() as int);
    lemma_map_size(dom, img, f);
    let target = set_int_range(0, m.len() as int).remove(x);
    lemma_int_range(0, m.len() as int);
    if x == m.len() {
        assert(target =~= set_int_range(0, m.len() as int));
    }
    assert forall|i: int| img.contains(i) implies target.contains(i) by {
        let j = choose|j: int| dom.contains(j) && f(j) == i;
    }
    lemma_len_subset(img, target);
}

} // verus!
