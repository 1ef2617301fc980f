use vstd::prelude::*;

use crate::date::Date;
use crate::date::WINDOW_DAYS;
use crate::intervals::all_wf;
use crate::intervals::count_covered;
use crate::intervals::covers;
use crate::intervals::lemma_count_covered_agree;
use crate::intervals::lemma_count_covered_single;
use crate::intervals::overlap_len;
use crate::intervals::period_wf;
use crate::merge::merge_intervals;
use crate::window::window_sum;

verus! {

/// The outcome of the rolling-window check for one absence period: the
/// period itself, the trailing window anchored on its end date, and the
/// number of absence days (from the whole input) inside that window.
#[derive(Clone, Copy, PartialEq, Eq, Structural, Debug)]
pub struct CalculationResult {
    pub absence_start: Date,
    pub absence_end: Date,
    pub window_start: Date,
    pub window_end: Date,
    pub total_days_in_window: i64,
}

/// What one result row must say about the period `p` it reports on,
/// stated over the full input `periods` alone: the period is echoed, the
/// window is the `WINDOW_DAYS`-day span ending on `p`'s end date, and the
/// count is the number of days of that window covered by some input
/// period (each day counted once, however often periods overlap there).
pub open spec fn result_for(
    periods: Seq<(Date, Date)>,
    p: (Date, Date),
    r: CalculationResult,
) -> bool {
    &&& r.absence_start == p.0
    &&& r.absence_end == p.1
    &&& r.window_end == p.1
    &&& r.window_start.days == p.1.days - WINDOW_DAYS
    &&& r.total_days_in_window == count_covered(
        periods,
        p.1.days - WINDOW_DAYS,
        p.1.days as int,
    )
}

/// The full contract of `calculate_rolling_absences`: one result per
/// input period, in input order, each pinned down by `result_for`.
pub open spec fn rolling_post(periods: Seq<(Date, Date)>, results: Seq<CalculationResult>) -> bool {
    &&& results.len() == periods.len()
    &&& forall|i: int|
        0 <= i < periods.len() ==> result_for(periods, periods[i], #[trigger] results[i])
}

/// Computes, for every input period and in input order, the number of
/// absence days that fall inside the trailing window ending on that
/// period's end date. Overlapping and adjacent periods are counted once:
/// the count is over the merged set of the input periods.
pub fn calculate_rolling_absences(periods: &Vec<(Date, Date)>) -> (results: Vec<CalculationResult>)
    requires
        all_wf(periods@),
    ensures
        rolling_post(periods@, results@),
{
    let mut results: Vec<CalculationResult> = Vec::new();
    if periods.len() == 0 {
        return results;
    }
    let merged = merge_intervals(periods);
    let mut i: usize = 0;
    while i < periods.len()
        invariant
            0 <= i <= periods@.len(),
            all_wf(periods@),
            crate::intervals::sorted_disjoint(merged@),
            forall|d: int| covers(merged@, d) == covers(periods@, d),
            results@.len() == i,
            forall|j: int|
                0 <= j < i ==> result_for(periods@, periods@[j], #[trigger] results@[j]),
        decreases periods@.len() - i,
    {
        let p = periods[i];
        let window_end = p.1;
        let window_start = Date { days: window_end.days - WINDOW_DAYS };
        let total = window_sum(&merged, window_start, window_end);
        proof {
            lemma_count_covered_agree(
                merged@,
                periods@,
                window_start.days as int,
                window_end.days as int,
            );
        }
        results.push(
            CalculationResult {
                absence_start: p.0,
                absence_end: p.1,
                window_start,
                window_end,
                total_days_in_window: total,
            },
        );
        i = i + 1;
    }
    results
}

/// Law: the calculation is deterministic. `rolling_post` pins every
/// field of every result, so any two result lists that satisfy it for
/// the same input are equal — calling the calculation twice with the
/// same periods yields identical results.
pub proof fn lemma_rolling_deterministic(
    periods: Seq<(Date, Date)>,
    r1: Seq<CalculationResult>,
    r2: Seq<CalculationResult>,
)
    requires
        rolling_post(periods, r1),
        rolling_post(periods, r2),
    ensures
        r1 == r2,
{
    assert forall|i: int| 0 <= i < r1.len() implies r1[i] == r2[i] by {
        assert(result_for(periods, periods[i], r1[i]));
        assert(result_for(periods, periods[i], r2[i]));
    }
    assert(r1 =~= r2);
}

/// Law: periods separated by a gap of at least two days do not merge —
/// for any window, each contributes its own intersection length, and the
/// two counts simply add.
pub proof fn lemma_separated_periods_add(p: (Date, Date), q: (Date, Date), lo: int, hi: int)
    requires
        period_wf(p),
        period_wf(q),
        p.1.days + 2 <= q.0.days,
    ensures
        count_covered(seq![p, q], lo, hi) == overlap_len(p, lo, hi) + overlap_len(q, lo, hi),
{
    let s = seq![p, q];
    assert(crate::intervals::sorted_disjoint(s)) by {
        assert(s[0int] == p && s[1int] == q);
    }
    crate::window::lemma_sum_overlaps_is_count(s, lo, hi);
    let s1 = seq![p];
    assert(s.last() == q);
    assert(s.drop_last() =~= s1);
    assert(crate::window::sum_overlaps(s1, lo, hi) == overlap_len(p, lo, hi)) by {
        assert(s1.last() == p);
        assert(s1.drop_last().len() == 0);
        assert(crate::window::sum_overlaps(s1.drop_last(), lo, hi) == 0);
    }
    assert(crate::window::sum_overlaps(s, lo, hi) == crate::window::sum_overlaps(s1, lo, hi)
        + overlap_len(q, lo, hi));
}

/// Law: counting is inclusive. A single one-day period, used alone as
/// the input, reports exactly one absence day in its own window.
pub proof fn lemma_single_day_counts_one(d: Date, results: Seq<CalculationResult>)
    requires
        period_wf((d, d)),
        rolling_post(seq![(d, d)], results),
    ensures
        results.len() == 1,
        results[0].total_days_in_window == 1,
{
    let lo = d.days - WINDOW_DAYS;
    let hi = d.days as int;
    lemma_count_covered_single((d, d), lo, hi);
    assert(seq![(d, d)][0int] == (d, d));
    assert(overlap_len((d, d), lo, hi) == 1);
}

} // verus!
