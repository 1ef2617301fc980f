use vstd::prelude::*;

use crate::date::Date;
use crate::date::MAX_DAY;
use crate::date::MIN_DAY;
use crate::date::WINDOW_DAYS;
use crate::intervals::count_covered;
use crate::intervals::covers;
use crate::intervals::in_period;
use crate::intervals::lemma_count_covered_bounds;
use crate::intervals::lemma_count_covered_empty;
use crate::intervals::lemma_count_covered_single;
use crate::intervals::lemma_count_covered_split_last;
use crate::intervals::lemma_sorted_disjoint_ordered;
use crate::intervals::overlap_len;
use crate::intervals::period_wf;
use crate::intervals::sorted_disjoint;

verus! {

/// Sum, over the periods of `s`, of the length of each period's
/// intersection with the window `[lo, hi]`.
pub open spec fn sum_overlaps(s: Seq<(Date, Date)>, lo: int, hi: int) -> int
    decreases s.len(),
{
    if s.len() == 0 {
        0
    } else {
        sum_overlaps(s.drop_last(), lo, hi) + overlap_len(s.last(), lo, hi)
    }
}

/// On a sorted, disjoint sequence, summing the per-period intersection
/// lengths counts every covered day of the window exactly once.
pub proof fn lemma_sum_overlaps_is_count(s: Seq<(Date, Date)>, lo: int, hi: int)
    requires
        sorted_disjoint(s),
    ensures
        sum_overlaps(s, lo, hi) == count_covered(s, lo, hi),
    decreases s.len(),
{
    if s.len() == 0 {
        lemma_count_covered_empty(s, lo, hi);
    } else {
        let rest = s.drop_last();
        assert(sorted_disjoint(rest)) by {
            assert(forall|i: int| 0 <= i < rest.len() ==> rest[i] == s[i]);
        }
        lemma_sum_overlaps_is_count(rest, lo, hi);
        assert forall|d: int| !(covers(rest, d) && in_period(s.last(), d)) by {
            if covers(rest, d) && in_period(s.last(), d) {
                let i = choose|i: int| 0 <= i < rest.len() && in_period(rest[i], d);
                assert(rest[i] == s[i]);
                lemma_sorted_disjoint_ordered(s, i, s.len() - 1);
            }
        }
        lemma_count_covered_split_last(s, lo, hi);
        assert(period_wf(s.last()));
        lemma_count_covered_single(s.last(), lo, hi);
    }
}

/// A prefix of a sorted, disjoint sequence is sorted and disjoint.
proof fn lemma_sorted_disjoint_prefix(s: Seq<(Date, Date)>, k: int)
    requires
        sorted_disjoint(s),
        0 <= k <= s.len(),
    ensures
        sorted_disjoint(s.take(k)),
{
    assert(forall|i: int| 0 <= i < k ==> s.take(k)[i] == s[i]);
}

/// Sums, from a merged (sorted, disjoint) interval set, the number of
/// days that fall inside the closed window `[window_start, window_end]`.
pub fn window_sum(merged: &Vec<(Date, Date)>, window_start: Date, window_end: Date) -> (total:
    i64)
    requires
        sorted_disjoint(merged@),
        window_start.days <= window_end.days,
        MIN_DAY - WINDOW_DAYS <= window_start.days,
        window_end.days <= MAX_DAY,
    ensures
        total == count_covered(merged@, window_start.days as int, window_end.days as int),
{
    let lo = window_start.days;
    let hi = window_end.days;
    let ghost glo = lo as int;
    let ghost ghi = hi as int;
    let mut total: i64 = 0;
    let mut k: usize = 0;
    while k < merged.len()
        invariant
            0 <= k <= merged.len(),
            sorted_disjoint(merged@),
            MIN_DAY - WINDOW_DAYS <= lo <= hi <= MAX_DAY,
            glo == lo as int,
            ghi == hi as int,
            total == sum_overlaps(merged@.take(k as int), glo, ghi),
            0 <= total <= ghi - glo + 1,
        decreases merged.len() - k,
    {
        let p = merged[k];
        let a = if p.0.days > lo {
            p.0.days
        } else {
            lo
        };
        let b = if p.1.days < hi {
            p.1.days
        } else {
            hi
        };
        let part: i64 = if a <= b {
            b - a + 1
        } else {
            0
        };
        proof {
            let prefix = merged@.take(k as int + 1);
            assert(prefix.drop_last() =~= merged@.take(k as int));
            assert(prefix.last() == merged@[k as int]);
            assert(period_wf(merged@[k as int]));
            assert(part == overlap_len(merged@[k as int], glo, ghi));
            lemma_sorted_disjoint_prefix(merged@, k as int + 1);
            lemma_sum_overlaps_is_count(prefix, glo, ghi);
            lemma_count_covered_bounds(prefix, glo, ghi);
        }
        total = total + part;
        k = k + 1;
    }
    proof {
        assert(merged@.take(merged@.len() as int) =~= merged@);
        lemma_sum_overlaps_is_count(merged@, glo, ghi);
    }
    total
}

} // verus!
