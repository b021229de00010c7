//! The two value types of the pipeline: one parsed report line
//! (`IntervalRecord`) and one date's reduction (`DailySummary`), each with a
//! mathematical view used by every contract.

use vstd::prelude::*;
use crate::numbers::MONEY_SCALE;

verus! {

/// One raw report line in parsed form: a calendar date (text, compared by
/// equality only), the interval's hour span, the cost rate of the interval in
/// scaled money units (see `crate::numbers::MONEY_SCALE`), and the amount
/// consumed in the interval.
#[derive(Debug)]
pub struct IntervalRecord {
    pub date: String,
    pub hour_start: u32,
    pub hour_end: u32,
    pub cost: u64,
    pub usage: u32,
}

/// The mathematical view of an `IntervalRecord`.
pub ghost struct RecordV {
    pub date: Seq<char>,
    pub hour_start: int,
    pub hour_end: int,
    pub cost: int,
    pub usage: int,
}

impl View for IntervalRecord {
    type V = RecordV;

    open spec fn view(&self) -> RecordV {
        RecordV {
            date: self.date@,
            hour_start: self.hour_start as int,
            hour_end: self.hour_end as int,
            cost: self.cost as int,
            usage: self.usage as int,
        }
    }
}

/// One date's reduction: the usage-weighted total spend for the day in scaled
/// money units (the sum over the day's records of `cost * usage`) and the
/// day's total usage. Wider fields than the records' leave room for the sums.
#[derive(Debug)]
pub struct DailySummary {
    pub date: String,
    pub cost: u128,
    pub usage: u64,
}

/// The mathematical view of a `DailySummary`.
pub ghost struct SummaryV {
    pub date: Seq<char>,
    pub cost: int,
    pub usage: int,
}

impl View for DailySummary {
    type V = SummaryV;

    open spec fn view(&self) -> SummaryV {
        SummaryV { date: self.date@, cost: self.cost as int, usage: self.usage as int }
    }
}

impl DailySummary {
    /// A field-for-field copy.
    pub fn duplicate(&self) -> (r: Self)
        ensures
            r == *self,
    {
        DailySummary { date: self.date.clone(), cost: self.cost, usage: self.usage }
    }

    /// The cost split for display: whole currency units and the scaled
    /// fraction left over.
    pub fn cost_units(&self) -> (r: (u128, u64))
        ensures
            r.0 == self@.cost / (MONEY_SCALE as int),
            r.1 == self@.cost % (MONEY_SCALE as int),
    {
        let q = self.cost / (MONEY_SCALE as u128);
        let rem = self.cost % (MONEY_SCALE as u128);
        (q, rem as u64)
    }

    /// The cost in whole currency units, rounded to the nearest unit with
    /// halves away from zero (the cost is never negative, so halves round
    /// up).
    pub fn rounded_cost(&self) -> (r: u128)
        ensures
            r == (self@.cost + (MONEY_SCALE as int) / 2) / (MONEY_SCALE as int),
    {
        let scale = MONEY_SCALE as u128;
        let q = self.cost / scale;
        let rem = self.cost % scale;
        proof {
            assert(self@.cost == (MONEY_SCALE as int) * (self@.cost / (MONEY_SCALE as int))
                + self@.cost % (MONEY_SCALE as int)) by {
                vstd::arithmetic::div_mod::lemma_fundamental_div_mod(
                    self@.cost,
                    MONEY_SCALE as int,
                );
            }
            let c = self@.cost;
            let d = MONEY_SCALE as int;
            let qq = c / d;
            let rr = c % d;
            if rr >= d / 2 {
                assert(c + d / 2 == d * (qq + 1) + (rr - d / 2));
                vstd::arithmetic::div_mod::lemma_div_multiples_vanish_fancy(
                    qq + 1,
                    rr - d / 2,
                    d,
                );
            } else {
                assert(c + d / 2 == d * qq + (rr + d / 2));
                vstd::arithmetic::div_mod::lemma_div_multiples_vanish_fancy(qq, rr + d / 2, d);
            }
        }
        if rem >= scale / 2 {
            q + 1
        } else {
            q
        }
    }
}

/// The views of a sequence of records.
pub open spec fn recs_view(s: Seq<IntervalRecord>) -> Seq<RecordV> {
    s.map_values(|r: IntervalRecord| r@)
}

/// The views of a sequence of summaries.
pub open spec fn sums_view(s: Seq<DailySummary>) -> Seq<SummaryV> {
    s.map_values(|m: DailySummary| m@)
}

} // verus!
