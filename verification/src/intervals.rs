use vstd::prelude::*;

use crate::date::Date;

verus! {

/// An absence period `(start, end)` is well formed when it ends no
/// earlier than it starts and both ends lie in the supported date range.
pub open spec fn period_wf(p: (Date, Date)) -> bool {
    &&& p.0.in_range()
    &&& p.0.days <= p.1.days
    &&& p.1.in_range()
}

/// Every period of `s` is well formed.
pub open spec fn all_wf(s: Seq<(Date, Date)>) -> bool {
    forall|i: int| 0 <= i < s.len() ==> period_wf(#[trigger] s[i])
}

/// Day `day` lies inside the closed interval `p`.
pub open spec fn in_period(p: (Date, Date), day: int) -> bool {
    p.0.days <= day <= p.1.days
}

/// Day `day` is an absence day of `s`: some period of `s` contains it.
pub open spec fn covers(s: Seq<(Date, Date)>, day: int) -> bool {
    exists|i: int| 0 <= i < s.len() && in_period(#[trigger] s[i], day)
}

/// Number of days of `[lo, hi]` (both ends included) that are absence
/// days of `s`.
pub open spec fn count_covered(s: Seq<(Date, Date)>, lo: int, hi: int) -> int
    decreases hi - lo + 1,
{
    if lo > hi {
        0
    } else {
        count_covered(s, lo, hi - 1) + if covers(s, hi) {
            1int
        } else {
            0int
        }
    }
}

/// Number of days that `p` and the window `[lo, hi]` have in common.
pub open spec fn overlap_len(p: (Date, Date), lo: int, hi: int) -> int {
    let a = if p.0.days > lo {
        p.0.days as int
    } else {
        lo
    };
    let b = if p.1.days < hi {
        p.1.days as int
    } else {
        hi
    };
    if a <= b {
        b - a + 1
    } else {
        0
    }
}

/// The periods of `s` are sorted by start date and pairwise separated by
/// a gap of at least two days: the canonical form that merging produces.
pub open spec fn sorted_disjoint(s: Seq<(Date, Date)>) -> bool {
    &&& all_wf(s)
    &&& forall|i: int| 0 <= i < s.len() - 1 ==> (#[trigger] s[i]).1.days + 2 <= s[i + 1].0.days
}

/// A sequence with no periods covers no day, so it counts no days.
pub proof fn lemma_count_covered_empty(s: Seq<(Date, Date)>, lo: int, hi: int)
    requires
        s.len() == 0,
    ensures
        count_covered(s, lo, hi) == 0,
    decreases hi - lo + 1,
{
    if lo <= hi {
        lemma_count_covered_empty(s, lo, hi - 1);
    }
}

/// Two sequences that cover exactly the same days of `[lo, hi]` count
/// the same number of days there.
pub proof fn lemma_count_covered_agree(
    s1: Seq<(Date, Date)>,
    s2: Seq<(Date, Date)>,
    lo: int,
    hi: int,
)
    requires
        forall|d: int| lo <= d <= hi ==> covers(s1, d) == covers(s2, d),
    ensures
        count_covered(s1, lo, hi) == count_covered(s2, lo, hi),
    decreases hi - lo + 1,
{
    if lo <= hi {
        lemma_count_covered_agree(s1, s2, lo, hi - 1);
    }
}

/// A day count is never negative and never exceeds the window's length.
pub proof fn lemma_count_covered_bounds(s: Seq<(Date, Date)>, lo: int, hi: int)
    ensures
        0 <= count_covered(s, lo, hi),
        lo <= hi ==> count_covered(s, lo, hi) <= hi - lo + 1,
    decreases hi - lo + 1,
{
    if lo <= hi {
        lemma_count_covered_bounds(s, lo, hi - 1);
    }
}

/// For a single period, counting its days inside a window gives exactly
/// the length of the intersection of the two intervals.
pub proof fn lemma_count_covered_single(p: (Date, Date), lo: int, hi: int)
    requires
        p.0.days <= p.1.days,
    ensures
        count_covered(seq![p], lo, hi) == overlap_len(p, lo, hi),
    decreases hi - lo + 1,
{
    let s = seq![p];
    if lo <= hi {
        lemma_count_covered_single(p, lo, hi - 1);
        assert(covers(s, hi) == in_period(p, hi)) by {
            if in_period(p, hi) {
                assert(in_period(s[0], hi));
            }
        }
    }
}

/// Splitting off the last period: when its days are disjoint from the
/// days of the rest, the counts add.
pub proof fn lemma_count_covered_split_last(s: Seq<(Date, Date)>, lo: int, hi: int)
    requires
        s.len() >= 1,
        forall|d: int| !(covers(s.drop_last(), d) && in_period(s.last(), d)),
    ensures
        count_covered(s, lo, hi) == count_covered(s.drop_last(), lo, hi) + count_covered(
            seq![s.last()],
            lo,
            hi,
        ),
    decreases hi - lo + 1,
{
    let rest = s.drop_last();
    let one = seq![s.last()];
    if lo <= hi {
        lemma_count_covered_split_last(s, lo, hi - 1);
        assert(covers(s, hi) == (covers(rest, hi) || in_period(s.last(), hi))) by {
            if covers(s, hi) {
                let i = choose|i: int| 0 <= i < s.len() && in_period(s[i], hi);
                if i < s.len() - 1 {
                    assert(in_period(rest[i], hi));
                }
            }
            if covers(rest, hi) {
                let i = choose|i: int| 0 <= i < rest.len() && in_period(rest[i], hi);
                assert(in_period(s[i], hi));
            }
            if in_period(s.last(), hi) {
                assert(in_period(s[s.len() - 1], hi));
            }
        }
        assert(covers(one, hi) == in_period(s.last(), hi)) by {
            if in_period(s.last(), hi) {
                assert(in_period(one[0], hi));
            }
        }
    }
}

/// The canonical form is unique: two sorted, disjoint sequences that
/// cover exactly the same days are equal. Together with the contract of
/// merging — which produces a sorted, disjoint sequence covering the
/// same days as its input — this pins the merged sequence down entirely.
#[verifier::rlimit(60)]
pub proof fn lemma_sorted_disjoint_canonical(s1: Seq<(Date, Date)>, s2: Seq<(Date, Date)>)
    requires
        sorted_disjoint(s1),
        sorted_disjoint(s2),
        forall|d: int| covers(s1, d) == covers(s2, d),
    ensures
        s1 == s2,
    decreases s1.len(),
{
    if s1.len() == 0 {
        if s2.len() > 0 {
            assert(in_period(s2[0], s2[0].0.days as int));
            assert(covers(s1, s2[0].0.days as int));
            assert(false);
        }
        assert(s1 =~= s2);
    } else if s2.len() == 0 {
        assert(in_period(s1[0], s1[0].0.days as int));
        assert(covers(s2, s1[0].0.days as int));
        assert(false);
    } else {
        lemma_sorted_disjoint_first_equal(s1, s2);
        let t1 = s1.drop_first();
        let t2 = s2.drop_first();
        assert(sorted_disjoint(t1)) by {
            assert(forall|i: int| 0 <= i < t1.len() ==> t1[i] == s1[i + 1]);
        }
        assert(sorted_disjoint(t2)) by {
            assert(forall|i: int| 0 <= i < t2.len() ==> t2[i] == s2[i + 1]);
        }
        assert forall|d: int| covers(t1, d) == covers(t2, d) by {
            lemma_covers_drop_first(s1, d);
            lemma_covers_drop_first(s2, d);
            if in_period(s1[0], d) {
                lemma_sorted_disjoint_first_alone(s1, d);
                lemma_sorted_disjoint_first_alone(s2, d);
            }
        }
        lemma_sorted_disjoint_canonical(t1, t2);
        assert forall|i: int| 0 <= i < s1.len() implies s1[i] == s2[i] by {
            if i > 0 {
                assert(s1[i] == t1[i - 1]);
                assert(s2[i] == t2[i - 1]);
            }
        }
        assert(s1 =~= s2);
    }
}

/// A day is covered exactly when it lies in the first period or the rest
/// of the sequence covers it.
proof fn lemma_covers_drop_first(s: Seq<(Date, Date)>, d: int)
    requires
        s.len() >= 1,
    ensures
        covers(s, d) == (in_period(s[0], d) || covers(s.drop_first(), d)),
{
    let t = s.drop_first();
    if covers(s, d) {
        let i = choose|i: int| 0 <= i < s.len() && in_period(s[i], d);
        if i >= 1 {
            assert(in_period(t[i - 1], d));
        }
    }
    if covers(t, d) {
        let i = choose|i: int| 0 <= i < t.len() && in_period(t[i], d);
        assert(in_period(s[i + 1], d));
    }
    if in_period(s[0], d) {
        assert(covers(s, d));
    }
}

/// In a sorted, disjoint sequence, a day of the first period lies in no
/// later period.
proof fn lemma_sorted_disjoint_first_alone(s: Seq<(Date, Date)>, d: int)
    requires
        sorted_disjoint(s),
        s.len() >= 1,
        in_period(s[0], d),
    ensures
        !covers(s.drop_first(), d),
{
    let t = s.drop_first();
    if covers(t, d) {
        let i = choose|i: int| 0 <= i < t.len() && in_period(t[i], d);
        assert(in_period(s[i + 1], d));
        lemma_sorted_disjoint_ordered(s, 0, i + 1);
        assert(false);
    }
}

/// Two nonempty sorted, disjoint sequences covering the same days start
/// with the same period.
proof fn lemma_sorted_disjoint_first_equal(s1: Seq<(Date, Date)>, s2: Seq<(Date, Date)>)
    requires
        sorted_disjoint(s1),
        sorted_disjoint(s2),
        forall|d: int| covers(s1, d) == covers(s2, d),
        s1.len() >= 1,
        s2.len() >= 1,
    ensures
        s1[0] == s2[0],
{
    lemma_sorted_disjoint_first_start(s1, s2);
    lemma_sorted_disjoint_first_start(s2, s1);
    lemma_sorted_disjoint_first_end(s1, s2);
    lemma_sorted_disjoint_first_end(s2, s1);
}

/// The first start date of one sequence is no earlier than that of
/// another covering the same days.
proof fn lemma_sorted_disjoint_first_start(s1: Seq<(Date, Date)>, s2: Seq<(Date, Date)>)
    requires
        sorted_disjoint(s1),
        sorted_disjoint(s2),
        forall|d: int| covers(s1, d) == covers(s2, d),
        s1.len() >= 1,
        s2.len() >= 1,
    ensures
        s2[0].0.days <= s1[0].0.days,
{
    let a = s1[0].0.days as int;
    assert(in_period(s1[0], a));
    assert(covers(s2, a));
    let j = choose|j: int| 0 <= j < s2.len() && in_period(s2[j], a);
    if j > 0 {
        lemma_sorted_disjoint_ordered(s2, 0, j);
    }
}

/// Given equal first start dates, the first end date of one sequence is
/// no later than that of another covering the same days.
proof fn lemma_sorted_disjoint_first_end(s1: Seq<(Date, Date)>, s2: Seq<(Date, Date)>)
    requires
        sorted_disjoint(s1),
        sorted_disjoint(s2),
        forall|d: int| covers(s1, d) == covers(s2, d),
        s1.len() >= 1,
        s2.len() >= 1,
        s1[0].0.days == s2[0].0.days,
    ensures
        s1[0].1.days <= s2[0].1.days,
{
    let b1 = s1[0].1.days as int;
    let b2 = s2[0].1.days as int;
    if b2 < b1 {
        let d = b2 + 1;
        assert(in_period(s1[0], d));
        assert(covers(s2, d));
        let j = choose|j: int| 0 <= j < s2.len() && in_period(s2[j], d);
        assert(j >= 1);
        lemma_sorted_disjoint_ordered(s2, 0, j);
        assert(false);
    }
}

/// In a sorted, disjoint sequence every earlier period ends at least two
/// days before any later period starts, not just the neighbouring one.
pub proof fn lemma_sorted_disjoint_ordered(s: Seq<(Date, Date)>, i: int, j: int)
    requires
        sorted_disjoint(s),
        0 <= i < j < s.len(),
    ensures
        s[i].1.days + 2 <= s[j].0.days,
    decreases j - i,
{
    if i + 1 < j {
        lemma_sorted_disjoint_ordered(s, i, j - 1);
        assert(period_wf(s[j - 1]));
    }
}

} // verus!
