use vstd::prelude::*;

use crate::date::Date;
use crate::intervals::period_wf;

verus! {

/// Decides whether one reported period may enter the calculation: it
/// must end no earlier than it starts and lie in the supported date
/// range. Producers of input lists drop (with a diagnostic) every period
/// for which this is false, rather than silently repairing it.
pub fn period_is_valid(p: &(Date, Date)) -> (valid: bool)
    ensures
        valid == period_wf(*p),
{
    p.0.days <= p.1.days && crate::date::MIN_DAY <= p.0.days && p.1.days <= crate::date::MAX_DAY
}

/// Splits a raw list of reported periods into the ones that may enter
/// the calculation and the malformed ones, both in input order.
pub fn partition_periods(periods: &Vec<(Date, Date)>) -> (split: (
    Vec<(Date, Date)>,
    Vec<(Date, Date)>,
))
    ensures
        split.0@ == periods@.filter(|p: (Date, Date)| period_wf(p)),
        split.1@ == periods@.filter(|p: (Date, Date)| !period_wf(p)),
        crate::intervals::all_wf(split.0@),
{
    broadcast use vstd::seq_lib::group_filter_ensures;

    let mut valid: Vec<(Date, Date)> = Vec::new();
    let mut invalid: Vec<(Date, Date)> = Vec::new();
    let mut k: usize = 0;
    proof {
        assert(periods@.take(0int) =~= Seq::<(Date, Date)>::empty());
        reveal(Seq::filter);
    }
    while k < periods.len()
        invariant
            0 <= k <= periods@.len(),
            valid@ == periods@.take(k as int).filter(|p: (Date, Date)| period_wf(p)),
            invalid@ == periods@.take(k as int).filter(|p: (Date, Date)| !period_wf(p)),
        decreases periods@.len() - k,
    {
        let p = periods[k];
        proof {
            assert(periods@.take(k as int + 1) == periods@.take(k as int).push(p));
            periods@.take(k as int).lemma_filter_push(p, |p: (Date, Date)| period_wf(p));
            periods@.take(k as int).lemma_filter_push(p, |p: (Date, Date)| !period_wf(p));
        }
        if period_is_valid(&p) {
            valid.push(p);
        } else {
            invalid.push(p);
        }
        k = k + 1;
    }
    proof {
        assert(periods@.take(periods@.len() as int) =~= periods@);
        assert forall|i: int| 0 <= i < valid@.len() implies period_wf(#[trigger] valid@[i]) by {
            periods@.lemma_filter_pred(|p: (Date, Date)| period_wf(p), i);
        }
    }
    (valid, invalid)
}

} // verus!
