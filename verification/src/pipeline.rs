//! The pipeline driver: raw report text to daily summaries and the cheapest
//! day. Records are separated by carriage-return characters, a quirk of the
//! source export format that this module keeps. The first unparseable record
//! aborts the whole run; there is no skip-bad-line mode.

use vstd::prelude::*;
use crate::aggregate::fits;
use crate::aggregate::is_aggregation;
use crate::aggregate::summerize_days;
use crate::errors::Error;
use crate::parse::parse_data_segment;
use crate::parse::spec_parse;
use crate::record::DailySummary;
use crate::record::IntervalRecord;
use crate::record::RecordV;
use crate::record::recs_view;
use crate::record::sums_view;
use crate::select::is_first_minimum;
use crate::select::select_minimum_cost;
use crate::text::field_views;
use crate::text::split_on;
use crate::text::split_str;

verus! {

/// The pipeline's output: every date's summary, in order of first appearance,
/// and the summary selected for the lowest cost.
#[derive(Debug)]
pub struct Report {
    pub summaries: Vec<DailySummary>,
    pub lowest: DailySummary,
}

/// Parsing every record line in order, stopped by the first bad line: the
/// records' views, or the index of the first line whose parse fails.
pub open spec fn spec_parse_all(lines: Seq<Seq<char>>) -> Result<Seq<RecordV>, int>
    decreases lines.len(),
{
    if lines.len() == 0 {
        Ok(Seq::<RecordV>::empty())
    } else if spec_parse(lines[0]) is Err {
        Err(0)
    } else {
        match spec_parse_all(lines.skip(1)) {
            Ok(rest) => Ok(seq![spec_parse(lines[0])->Ok_0] + rest),
            Err(i) => Err(i + 1),
        }
    }
}

/// When every line before `i` parses and line `i` does not, parsing all
/// lines fails at `i`.
pub proof fn lemma_parse_all_err(lines: Seq<Seq<char>>, i: int)
    requires
        0 <= i < lines.len(),
        forall|k: int| 0 <= k < i ==> spec_parse(#[trigger] lines[k]) is Ok,
        spec_parse(lines[i]) is Err,
    ensures
        spec_parse_all(lines) == Err::<Seq<RecordV>, int>(i),
    decreases i,
{
    if i == 0 {
    } else {
        assert(spec_parse(lines[0]) is Ok);
        let tail = lines.skip(1);
        assert(forall|k: int| 0 <= k < i - 1 ==> #[trigger] tail[k] == lines[k + 1]);
        assert(tail[i - 1] == lines[i]);
        lemma_parse_all_err(tail, i - 1);
    }
}

/// When every line parses, parsing all lines yields one record per line.
pub proof fn lemma_parse_all_ok(lines: Seq<Seq<char>>)
    requires
        forall|k: int| 0 <= k < lines.len() ==> spec_parse(#[trigger] lines[k]) is Ok,
    ensures
        spec_parse_all(lines) is Ok,
        spec_parse_all(lines)->Ok_0.len() == lines.len(),
        forall|k: int|
            0 <= k < lines.len() ==> spec_parse_all(lines)->Ok_0[k] == spec_parse(
                #[trigger] lines[k],
            )->Ok_0,
    decreases lines.len(),
{
    if lines.len() == 0 {
    } else {
        let tail = lines.skip(1);
        assert(forall|k: int| 0 <= k < tail.len() ==> #[trigger] tail[k] == lines[k + 1]);
        lemma_parse_all_ok(tail);
        let rest = spec_parse_all(tail)->Ok_0;
        let whole = seq![spec_parse(lines[0])->Ok_0] + rest;
        assert(spec_parse_all(lines) == Ok::<Seq<RecordV>, int>(whole));
        assert(whole.len() == lines.len());
        assert forall|k: int| 0 <= k < lines.len() implies whole[k] == spec_parse(
            #[trigger] lines[k],
        )->Ok_0 by {
            if k > 0 {
                assert(whole[k] == rest[k - 1]);
                assert(rest[k - 1] == spec_parse(tail[k - 1])->Ok_0);
                assert(tail[k - 1] == lines[k]);
            }
        }
    }
}

/// Runs the whole pipeline on the raw report text: split on carriage
/// returns, parse every record, aggregate by date, select the cheapest day.
/// Succeeds exactly when every line parses and every day's totals fit; the
/// error otherwise identifies the first bad line or the overflow. The input
/// always holds at least one record line (splitting empty text yields one
/// empty line, which fails to parse), so an `EmptyInput` error cannot arise
/// here.
pub fn run(input: &str) -> (r: Result<Report, Error>)
    ensures
        ({
            let lines = split_on(input@, '\r');
            let pr = spec_parse_all(lines);
            match r {
                Ok(rep) => {
                    &&& pr is Ok
                    &&& fits(pr->Ok_0)
                    &&& is_aggregation(pr->Ok_0, sums_view(rep.summaries@))
                    &&& rep.summaries@.len() > 0
                    &&& is_first_minimum(sums_view(rep.summaries@), rep.lowest@)
                },
                Err(e) => match e {
                    Error::Parse(pe) => {
                        &&& pr is Err
                        &&& 0 <= pr->Err_0 < lines.len()
                        &&& spec_parse(lines[pr->Err_0]) == Err::<RecordV, _>(pe.kind)
                        &&& pe.line@ == lines[pr->Err_0]
                    },
                    Error::EmptyInput => false,
                    Error::Overflow => pr is Ok && !fits(pr->Ok_0),
                },
            }
        }),
{
    let lines = split_str(input, '\r');
    let ghost lv = split_on(input@, '\r');
    proof {
        assert(forall|k: int|
            0 <= k < lines@.len() ==> (#[trigger] lines@[k])@ == field_views(lines@)[k]);
        crate::text::lemma_split_on_nonempty(input@, '\r');
    }
    let mut records: Vec<IntervalRecord> = Vec::new();
    let mut i: usize = 0;
    while i < lines.len()
        invariant
            i <= lines@.len(),
            lv == split_on(input@, '\r'),
            lv == field_views(lines@),
            lv.len() == lines@.len(),
            forall|k: int| 0 <= k < lines@.len() ==> (#[trigger] lines@[k])@ == lv[k],
            forall|k: int| 0 <= k < i ==> spec_parse(#[trigger] lv[k]) is Ok,
            records@.len() == i,
            forall|k: int|
                0 <= k < i ==> recs_view(records@)[k] == spec_parse(#[trigger] lv[k])->Ok_0,
        decreases lines@.len() - i,
    {
        match parse_data_segment(lines[i].as_str()) {
            Ok(rec) => {
                proof {
                    assert(recs_view(records@.push(rec)) =~= recs_view(records@).push(rec@));
                }
                records.push(rec);
            },
            Err(e) => {
                proof {
                    lemma_parse_all_err(lv, i as int);
                }
                return Err(Error::Parse(e));
            },
        }
        i = i + 1;
    }
    proof {
        lemma_parse_all_ok(lv);
        assert forall|k: int| 0 <= k < lv.len() implies recs_view(records@)[k] == spec_parse_all(
            lv,
        )->Ok_0[k] by {
            assert(recs_view(records@)[k] == spec_parse(lv[k])->Ok_0);
        }
        assert(recs_view(records@) =~= spec_parse_all(lv)->Ok_0);
    }
    let summaries = match summerize_days(&records) {
        Ok(s) => s,
        Err(_) => {
            return Err(Error::Overflow);
        },
    };
    proof {
        let rs = spec_parse_all(lv)->Ok_0;
        assert(rs.len() > 0);
        assert(crate::aggregate::has_summary(sums_view(summaries@), rs[0].date));
        assert(sums_view(summaries@).len() > 0);
    }
    match select_minimum_cost(&summaries) {
        Ok(m) => Ok(Report { summaries, lowest: m }),
        Err(_) => {
            proof {
                assert(false);
            }
            Err(Error::EmptyInput)
        },
    }
}

} // verus!
