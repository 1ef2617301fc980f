use vstd::prelude::*;
use vstd::seq_lib::to_multiset_build;
use vstd::seq_lib::to_multiset_contains;
use vstd::seq_lib::to_multiset_insert;

use crate::date::Date;
use crate::intervals::all_wf;
use crate::intervals::covers;
use crate::intervals::in_period;
use crate::intervals::period_wf;
use crate::intervals::sorted_disjoint;

verus! {

/// The periods of `s` are ordered by ascending start date.
pub open spec fn sorted_by_start(s: Seq<(Date, Date)>) -> bool {
    forall|i: int, j: int|
        0 <= i <= j < s.len() ==> (#[trigger] s[i]).0.days <= (#[trigger] s[j]).0.days
}

/// Two sequences holding the same periods (as a multiset) cover exactly
/// the same days.
proof fn lemma_covers_multiset(s1: Seq<(Date, Date)>, s2: Seq<(Date, Date)>, d: int)
    requires
        s1.to_multiset() == s2.to_multiset(),
    ensures
        covers(s1, d) == covers(s2, d),
{
    broadcast use to_multiset_contains;

    if covers(s1, d) {
        let i = choose|i: int| 0 <= i < s1.len() && in_period(s1[i], d);
        assert(s1.contains(s1[i]));
        assert(s1.to_multiset().count(s1[i]) > 0);
        assert(s2.to_multiset().count(s1[i]) > 0);
        assert(s2.contains(s1[i]));
        let j = choose|j: int| 0 <= j < s2.len() && s2[j] == s1[i];
        assert(in_period(s2[j], d));
    }
    if covers(s2, d) {
        let i = choose|i: int| 0 <= i < s2.len() && in_period(s2[i], d);
        assert(s2.contains(s2[i]));
        assert(s2.to_multiset().count(s2[i]) > 0);
        assert(s1.to_multiset().count(s2[i]) > 0);
        assert(s1.contains(s2[i]));
        let j = choose|j: int| 0 <= j < s1.len() && s1[j] == s2[i];
        assert(in_period(s1[j], d));
    }
}

/// Well-formedness of every period survives any reordering.
proof fn lemma_all_wf_multiset(s1: Seq<(Date, Date)>, s2: Seq<(Date, Date)>)
    requires
        s1.to_multiset() == s2.to_multiset(),
        all_wf(s1),
    ensures
        all_wf(s2),
{
    broadcast use to_multiset_contains;

    assert forall|i: int| 0 <= i < s2.len() implies period_wf(#[trigger] s2[i]) by {
        assert(s2.contains(s2[i]));
        assert(s2.to_multiset().count(s2[i]) > 0);
        assert(s1.to_multiset().count(s2[i]) > 0);
        assert(s1.contains(s2[i]));
        let j = choose|j: int| 0 <= j < s1.len() && s1[j] == s2[i];
        assert(period_wf(s1[j]));
    }
}

/// A day is covered by `s.push(p)` exactly when it is covered by `s` or
/// lies in `p`.
proof fn lemma_covers_push(s: Seq<(Date, Date)>, p: (Date, Date), d: int)
    ensures
        covers(s.push(p), d) == (covers(s, d) || in_period(p, d)),
{
    let t = s.push(p);
    if covers(t, d) {
        let i = choose|i: int| 0 <= i < t.len() && in_period(t[i], d);
        if i < s.len() {
            assert(in_period(s[i], d));
        }
    }
    if covers(s, d) {
        let i = choose|i: int| 0 <= i < s.len() && in_period(s[i], d);
        assert(in_period(t[i], d));
    }
    if in_period(p, d) {
        assert(in_period(t[s.len() as int], d));
    }
}

/// A day is covered by the prefix `s.take(k + 1)` exactly when it is
/// covered by `s.take(k)` or lies in `s[k]`.
proof fn lemma_covers_take_step(s: Seq<(Date, Date)>, k: int, d: int)
    requires
        0 <= k < s.len(),
    ensures
        covers(s.take(k + 1), d) == (covers(s.take(k), d) || in_period(s[k], d)),
{
    assert(s.take(k + 1) =~= s.take(k).push(s[k]));
    lemma_covers_push(s.take(k), s[k], d);
}

/// Replacing the period at index `li` by one that covers exactly the
/// union of its days and the days of `q` adds exactly `q`'s days.
proof fn lemma_covers_extend(
    s: Seq<(Date, Date)>,
    li: int,
    merged_p: (Date, Date),
    q: (Date, Date),
    d: int,
)
    requires
        0 <= li < s.len(),
        forall|x: int| in_period(merged_p, x) == (in_period(s[li], x) || in_period(q, x)),
    ensures
        covers(s.update(li, merged_p), d) == (covers(s, d) || in_period(q, d)),
{
    let t = s.update(li, merged_p);
    if covers(t, d) {
        let i = choose|i: int| 0 <= i < t.len() && in_period(t[i], d);
        if i != li {
            assert(in_period(s[i], d));
        } else {
            if in_period(s[li], d) {
                assert(covers(s, d));
            }
        }
    }
    if covers(s, d) {
        let i = choose|i: int| 0 <= i < s.len() && in_period(s[i], d);
        if i != li {
            assert(in_period(t[i], d));
        } else {
            assert(in_period(t[li], d));
        }
    }
    if in_period(q, d) {
        assert(in_period(t[li], d));
    }
}

/// Sorts the periods by ascending start date, by insertion into a fresh
/// vector; the result holds exactly the input periods.
fn sort_by_start(src: &Vec<(Date, Date)>) -> (out: Vec<(Date, Date)>)
    ensures
        sorted_by_start(out@),
        out@.to_multiset() == src@.to_multiset(),
        out@.len() == src@.len(),
{
    broadcast use to_multiset_build;
    broadcast use to_multiset_insert;

    let mut out: Vec<(Date, Date)> = Vec::new();
    proof {
        assert(out@ == src@.take(0int));
    }
    let mut k: usize = 0;
    while k < src.len()
        invariant
            0 <= k <= src.len(),
            out@.len() == k,
            sorted_by_start(out@),
            out@.to_multiset() == src@.take(k as int).to_multiset(),
        decreases src.len() - k,
    {
        let x = src[k];
        let mut pos: usize = 0;
        while pos < out.len() && out[pos].0.days <= x.0.days
            invariant
                0 <= pos <= out.len(),
                sorted_by_start(out@),
                forall|t: int| 0 <= t < pos ==> (#[trigger] out@[t]).0.days <= x.0.days,
            decreases out.len() - pos,
        {
            pos = pos + 1;
        }
        let ghost before = out@;
        out.insert(pos, x);
        proof {
            assert forall|i: int, j: int|
                0 <= i <= j < out@.len() implies (#[trigger] out@[i]).0.days
                <= (#[trigger] out@[j]).0.days by {
                let pi = pos as int;
                if i < pi && j < pi {
                    assert(out@[i] == before[i] && out@[j] == before[j]);
                } else if i < pi && j == pi {
                    assert(out@[i] == before[i]);
                } else if i < pi && j > pi {
                    assert(out@[i] == before[i] && out@[j] == before[j - 1]);
                } else if i == pi && j > pi {
                    assert(out@[j] == before[j - 1]);
                    assert(before[pi].0.days > x.0.days);
                    assert(before[pi].0.days <= before[j - 1].0.days);
                } else if i > pi && j > pi {
                    assert(out@[i] == before[i - 1] && out@[j] == before[j - 1]);
                }
            }
            assert(out@ == before.insert(pos as int, x));
            vstd::seq_lib::to_multiset_insert(before, pos as int, x);
            assert(src@.take(k as int + 1) == src@.take(k as int).push(x));
            to_multiset_build(src@.take(k as int), x);
            assert(out@.to_multiset() == src@.take(k as int + 1).to_multiset());
        }
        k = k + 1;
    }
    proof {
        broadcast use vstd::seq_lib::to_multiset_len;

        assert(src@.take(src@.len() as int) =~= src@);
    }
    out
}

/// Merges overlapping and one-day-adjacent periods into the canonical
/// form: sorted by start date, pairwise separated by a gap of at least
/// two days, and covering exactly the same days as the input. By
/// `lemma_sorted_disjoint_canonical`, these clauses determine the result
/// uniquely.
pub fn merge_intervals(periods: &Vec<(Date, Date)>) -> (merged: Vec<(Date, Date)>)
    requires
        all_wf(periods@),
    ensures
        sorted_disjoint(merged@),
        forall|d: int| covers(merged@, d) == covers(periods@, d),
        merged@.len() == 0 <==> periods@.len() == 0,
{
    let mut merged: Vec<(Date, Date)> = Vec::new();
    if periods.len() == 0 {
        return merged;
    }
    let sorted = sort_by_start(periods);
    proof {
        lemma_all_wf_multiset(periods@, sorted@);
    }
    merged.push(sorted[0]);
    proof {
        assert(merged@ == sorted@.take(1int));
    }
    let mut k: usize = 1;
    while k < sorted.len()
        invariant
            1 <= k <= sorted@.len(),
            merged@.len() >= 1,
            all_wf(sorted@),
            sorted_by_start(sorted@),
            sorted_disjoint(merged@),
            merged@.last().0.days <= sorted@[k - 1].0.days,
            forall|d: int| covers(merged@, d) == covers(sorted@.take(k as int), d),
        decreases sorted@.len() - k,
    {
        let p = sorted[k];
        let li = merged.len() - 1;
        let last = merged[li];
        let ghost before = merged@;
        if p.0.days <= last.1.days + 1 {
            let new_end = if last.1.days >= p.1.days {
                last.1
            } else {
                p.1
            };
            let grown = (last.0, new_end);
            merged.set(li, grown);
            proof {
                assert forall|d: int|
                    covers(merged@, d) == covers(
                        sorted@.take(k as int + 1),
                        d,
                    ) by {
                    assert(forall|x: int|
                        in_period(grown, x) == (in_period(before[li as int], x) || in_period(
                            p,
                            x,
                        )));
                    lemma_covers_extend(before, li as int, grown, p, d);
                    lemma_covers_take_step(sorted@, k as int, d);
                }
            }
        } else {
            merged.push(p);
            proof {
                assert forall|d: int|
                    covers(merged@, d) == covers(
                        sorted@.take(k as int + 1),
                        d,
                    ) by {
                    lemma_covers_push(before, p, d);
                    lemma_covers_take_step(sorted@, k as int, d);
                }
            }
        }
        k = k + 1;
    }
    proof {
        assert(sorted@.take(sorted@.len() as int) =~= sorted@);
        assert forall|d: int| covers(merged@, d) == covers(periods@, d) by {
            lemma_covers_multiset(sorted@, periods@, d);
        }
    }
    merged
}

} // verus!
