//! The daily aggregator: grouping interval records by their date text and
//! reducing each group to its exact usage-weighted totals.
//!
//! Grouping is by exact equality on the date text, no normalization. Groups
//! are kept in order of first appearance, which makes the whole pipeline
//! deterministic. The sums are exact integers; a day whose true totals would
//! not fit the summary fields is reported as an overflow error instead of
//! being silently truncated.

use vstd::prelude::*;
use vstd::pervasive::VecAdditionalExecFns;
use crate::errors::Error;
use crate::record::DailySummary;
use crate::record::IntervalRecord;
use crate::record::RecordV;
use crate::record::SummaryV;
use crate::record::recs_view;
use crate::record::sums_view;

verus! {

/// The usage-weighted cost of the records of date `d` in `s`: the sum of
/// `cost * usage` over exactly the records whose date is `d`.
pub open spec fn sum_cost(s: Seq<RecordV>, d: Seq<char>) -> int
    decreases s.len(),
{
    if s.len() == 0 {
        0
    } else {
        sum_cost(s.drop_last(), d) + if s.last().date == d {
            s.last().cost * s.last().usage
        } else {
            0
        }
    }
}

/// The total usage of the records of date `d` in `s`.
pub open spec fn sum_usage(s: Seq<RecordV>, d: Seq<char>) -> int
    decreases s.len(),
{
    if s.len() == 0 {
        0
    } else {
        sum_usage(s.drop_last(), d) + if s.last().date == d {
            s.last().usage
        } else {
            0
        }
    }
}

/// Some record in `s` has date `d`.
pub open spec fn has_date(s: Seq<RecordV>, d: Seq<char>) -> bool {
    exists|i: int| 0 <= i < s.len() && (#[trigger] s[i]).date == d
}

/// Some summary in `out` is for date `d`.
pub open spec fn has_summary(out: Seq<SummaryV>, d: Seq<char>) -> bool {
    exists|j: int| 0 <= j < out.len() && (#[trigger] out[j]).date == d
}

/// Every record field is within the range of its executable type.
pub open spec fn wf_recs(s: Seq<RecordV>) -> bool {
    forall|i: int|
        0 <= i < s.len() ==> {
            let r = #[trigger] s[i];
            0 <= r.cost <= u64::MAX && 0 <= r.usage <= u32::MAX
        }
}

/// Every date occurring in `s` has exact totals that fit the summary fields.
pub open spec fn fits(s: Seq<RecordV>) -> bool {
    forall|i: int|
        0 <= i < s.len() ==> sum_cost(s, (#[trigger] s[i]).date) <= u128::MAX && sum_usage(
            s,
            s[i].date,
        ) <= u64::MAX
}

/// The index of the first record of date `d` in `s` (the length when there
/// is none).
pub open spec fn first_at(s: Seq<RecordV>, d: Seq<char>) -> int
    decreases s.len(),
{
    if s.len() == 0 {
        0
    } else if s[0].date == d {
        0
    } else {
        1 + first_at(s.skip(1), d)
    }
}

/// `out` is the aggregation of `s`: every summary's date occurs in `s`, every
/// record's date has a summary, no two summaries share a date, each summary
/// holds its date's exact totals, and summaries stand in order of their
/// date's first appearance. Together these say that the summaries partition
/// the records by date, with no duplication and no omission, and that the
/// whole output is determined: there is exactly one such `out` for each `s`.
pub open spec fn is_aggregation(s: Seq<RecordV>, out: Seq<SummaryV>) -> bool {
    &&& forall|j: int| 0 <= j < out.len() ==> has_date(s, (#[trigger] out[j]).date)
    &&& forall|i: int| 0 <= i < s.len() ==> has_summary(out, (#[trigger] s[i]).date)
    &&& forall|j: int, k: int|
        0 <= j < k < out.len() ==> (#[trigger] out[j]).date != (#[trigger] out[k]).date
    &&& forall|j: int|
        0 <= j < out.len() ==> (#[trigger] out[j]).cost == sum_cost(s, out[j].date)
            && out[j].usage == sum_usage(s, out[j].date)
    &&& forall|j: int, k: int|
        0 <= j < k < out.len() ==> first_at(s, (#[trigger] out[j]).date) < first_at(
            s,
            (#[trigger] out[k]).date,
        )
}

/// A date that occurs in `s` first occurs at an index that holds it.
pub proof fn lemma_first_at_found(s: Seq<RecordV>, d: Seq<char>)
    requires
        has_date(s, d),
    ensures
        0 <= first_at(s, d) < s.len(),
        s[first_at(s, d)].date == d,
    decreases s.len(),
{
    if s[0].date == d {
    } else {
        let tail = s.skip(1);
        assert(has_date(tail, d)) by {
            let w = choose|i: int| 0 <= i < s.len() && (#[trigger] s[i]).date == d;
            assert(tail[w - 1] == s[w]);
        }
        lemma_first_at_found(tail, d);
        assert(s[1 + first_at(tail, d)] == tail[first_at(tail, d)]);
    }
}

/// One more record leaves every present date's first index alone and gives a
/// new date the index after the end.
pub proof fn lemma_first_at_push(s: Seq<RecordV>, r: RecordV, d: Seq<char>)
    ensures
        has_date(s, d) ==> first_at(s.push(r), d) == first_at(s, d),
        !has_date(s, d) && r.date == d ==> first_at(s.push(r), d) == s.len(),
    decreases s.len(),
{
    if s.len() == 0 {
        if r.date == d {
            assert(s.push(r)[0] == r);
        }
    } else {
        let p = s.push(r);
        assert(p[0] == s[0]);
        if s[0].date == d {
        } else {
            let tail = s.skip(1);
            assert(p.skip(1) =~= tail.push(r));
            lemma_first_at_push(tail, r, d);
            if has_date(s, d) {
                assert(has_date(tail, d)) by {
                    let w = choose|i: int| 0 <= i < s.len() && (#[trigger] s[i]).date == d;
                    assert(tail[w - 1] == s[w]);
                }
            } else {
                assert(!has_date(tail, d)) by {
                    if has_date(tail, d) {
                        let w = choose|i: int|
                            0 <= i < tail.len() && (#[trigger] tail[i]).date == d;
                        assert(s[w + 1] == tail[w]);
                    }
                }
            }
        }
    }
}

/// One more record extends each date's totals by its own contribution.
pub proof fn lemma_sum_push(s: Seq<RecordV>, r: RecordV, d: Seq<char>)
    ensures
        sum_cost(s.push(r), d) == sum_cost(s, d) + if r.date == d {
            r.cost * r.usage
        } else {
            0
        },
        sum_usage(s.push(r), d) == sum_usage(s, d) + if r.date == d {
            r.usage
        } else {
            0
        },
{
    assert(s.push(r).drop_last() =~= s);
    assert(s.push(r).last() == r);
}

/// A date that occurs nowhere in `s` has zero totals.
pub proof fn lemma_sum_absent(s: Seq<RecordV>, d: Seq<char>)
    requires
        !has_date(s, d),
    ensures
        sum_cost(s, d) == 0,
        sum_usage(s, d) == 0,
    decreases s.len(),
{
    if s.len() > 0 {
        assert(!has_date(s.drop_last(), d)) by {
            assert(forall|i: int|
                0 <= i < s.len() - 1 ==> s.drop_last()[i] == #[trigger] s[i]);
        }
        lemma_sum_absent(s.drop_last(), d);
        assert(s.last() == s[s.len() - 1]);
    }
}

/// With non-negative contributions, a prefix's totals never exceed the
/// whole sequence's.
pub proof fn lemma_sum_take_mono(s: Seq<RecordV>, d: Seq<char>, k: int)
    requires
        wf_recs(s),
        0 <= k <= s.len(),
    ensures
        sum_cost(s.take(k), d) <= sum_cost(s, d),
        sum_usage(s.take(k), d) <= sum_usage(s, d),
    decreases s.len() - k,
{
    if k == s.len() {
        assert(s.take(k) =~= s);
    } else {
        lemma_sum_take_mono(s, d, k + 1);
        assert(s.take(k + 1) =~= s.take(k).push(s[k]));
        lemma_sum_push(s.take(k), s[k], d);
        assert(s[k].cost * s[k].usage >= 0) by (nonlinear_arith)
            requires
                s[k].cost >= 0,
                s[k].usage >= 0,
        ;
    }
}

/// Aggregating an empty record sequence yields an empty summary set: any
/// aggregation of no records has no summaries.
pub proof fn lemma_empty_aggregation(out: Seq<SummaryV>)
    requires
        is_aggregation(Seq::<RecordV>::empty(), out),
    ensures
        out.len() == 0,
{
    if out.len() > 0 {
        assert(has_date(Seq::<RecordV>::empty(), out[0].date));
        assert(false);
    }
}

/// Groups `records` by date and reduces each group to its exact totals, in
/// order of first appearance. Succeeds exactly when every date's true totals
/// fit the summary fields; otherwise nothing is emitted and the overflow is
/// reported.
pub fn summerize_days(records: &Vec<IntervalRecord>) -> (r: Result<Vec<DailySummary>, Error>)
    ensures
        r is Ok <==> fits(recs_view(records@)),
        r matches Ok(out) ==> is_aggregation(recs_view(records@), sums_view(out@)),
        r matches Err(e) ==> e is Overflow,
{
    let ghost rv = recs_view(records@);
    proof {
        assert(wf_recs(rv));
        assert(recs_view(records@.take(0)) =~= Seq::<RecordV>::empty());
        assert(sums_view(Seq::<DailySummary>::empty()) =~= Seq::<SummaryV>::empty());
    }
    let mut out: Vec<DailySummary> = Vec::new();
    let mut idx: usize = 0;
    while idx < records.len()
        invariant
            idx <= records@.len(),
            rv == recs_view(records@),
            wf_recs(rv),
            rv.len() == records@.len(),
            is_aggregation(recs_view(records@.take(idx as int)), sums_view(out@)),
        decreases records@.len() - idx,
    {
        let rec = &records[idx];
        let ghost pv = recs_view(records@.take(idx as int));
        let ghost pv2 = recs_view(records@.take(idx + 1));
        proof {
            assert(pv2 =~= pv.push(rec@));
            assert(pv =~= rv.take(idx as int));
            assert(pv2 =~= rv.take(idx + 1));
        }
        let mut j: usize = 0;
        let mut found: bool = false;
        while !found && j < out.len()
            invariant
                j <= out@.len(),
                !found ==> forall|k: int|
                    0 <= k < j ==> (#[trigger] sums_view(out@)[k]).date != rec@.date,
                found ==> j < out@.len() && sums_view(out@)[j as int].date == rec@.date,
            decreases out@.len() - j + (if found { 0int } else { 1int }),
        {
            if out[j].date == rec.date {
                found = true;
            } else {
                j = j + 1;
            }
        }
        proof {
            assert((rec@.cost) * (rec@.usage) <= (u64::MAX as int) * (u32::MAX as int))
                by (nonlinear_arith)
                requires
                    0 <= rec@.cost <= u64::MAX as int,
                    0 <= rec@.usage <= u32::MAX as int,
            ;
        }
        let term_wide: u128 = (rec.cost as u128) * (rec.usage as u128);
        proof {
            assert(term_wide as int == rec@.cost * rec@.usage);
        }
        if found {
            let ghost d = sums_view(out@)[j as int].date;
            let cur_cost = out[j].cost;
            let cur_usage = out[j].usage;
            proof {
                assert(cur_cost as int == sum_cost(pv, d));
                assert(cur_usage as int == sum_usage(pv, d));
                lemma_sum_push(pv, rec@, d);
            }
            if cur_cost > u128::MAX - term_wide || cur_usage > u64::MAX - (rec.usage as u64) {
                proof {
                    lemma_sum_take_mono(rv, d, idx + 1);
                    assert(rv[idx as int].date == d);
                    assert(sum_cost(rv, d) > u128::MAX || sum_usage(rv, d) > u64::MAX);
                    assert(!fits(rv));
                }
                return Err(Error::Overflow);
            }
            let entry_date = out[j].date.clone();
            let new_entry = DailySummary {
                date: entry_date,
                cost: cur_cost + term_wide,
                usage: cur_usage + (rec.usage as u64),
            };
            let ghost old_sums = sums_view(out@);
            proof {
                assert(sums_view(out@.update(j as int, new_entry)) =~= old_sums.update(
                    j as int,
                    new_entry@,
                ));
                assert(forall|k: int|
                    0 <= k < old_sums.len() && k != j ==> (#[trigger] old_sums[k]).date != d);
            }
            out.set(j, new_entry);
            proof {
                let new_sums = sums_view(out@);
                assert(new_sums =~= old_sums.update(j as int, new_entry@));
                assert forall|dd: Seq<char>| dd != d implies sum_cost(pv2, dd) == sum_cost(pv, dd)
                    && sum_usage(pv2, dd) == sum_usage(pv, dd) by {
                    lemma_sum_push(pv, rec@, dd);
                }
                assert forall|jj: int| 0 <= jj < new_sums.len() implies has_date(
                    pv2,
                    (#[trigger] new_sums[jj]).date,
                ) by {
                    if jj != j {
                        assert(has_date(pv, old_sums[jj].date));
                        let w = choose|i: int|
                            0 <= i < pv.len() && (#[trigger] pv[i]).date == old_sums[jj].date;
                        assert(pv2[w].date == old_sums[jj].date);
                    } else {
                        assert(pv2[pv.len() as int].date == d);
                    }
                }
                assert forall|i: int| 0 <= i < pv2.len() implies has_summary(
                    new_sums,
                    (#[trigger] pv2[i]).date,
                ) by {
                    if i < pv.len() {
                        assert(has_summary(old_sums, pv[i].date));
                        let w = choose|jj: int|
                            0 <= jj < old_sums.len() && (#[trigger] old_sums[jj]).date
                                == pv[i].date;
                        assert(new_sums[w].date == pv2[i].date);
                    } else {
                        assert(new_sums[j as int].date == pv2[i].date);
                    }
                }
                assert forall|jj: int| 0 <= jj < new_sums.len() implies first_at(
                    pv2,
                    (#[trigger] new_sums[jj]).date,
                ) == first_at(pv, new_sums[jj].date) by {
                    assert(new_sums[jj].date == old_sums[jj].date);
                    assert(has_date(pv, old_sums[jj].date));
                    lemma_first_at_push(pv, rec@, old_sums[jj].date);
                }
                assert(is_aggregation(pv2, new_sums));
            }
        } else {
            proof {
                assert(!has_summary(sums_view(out@), rec@.date));
                assert(!has_date(pv, rec@.date));
                lemma_sum_absent(pv, rec@.date);
                lemma_sum_push(pv, rec@, rec@.date);
            }
            let new_entry = DailySummary {
                date: rec.date.clone(),
                cost: term_wide,
                usage: rec.usage as u64,
            };
            let ghost old_sums = sums_view(out@);
            proof {
                assert(sums_view(out@.push(new_entry)) =~= old_sums.push(new_entry@));
                assert forall|dd: Seq<char>| dd != rec@.date implies sum_cost(pv2, dd) == sum_cost(
                    pv,
                    dd,
                ) && sum_usage(pv2, dd) == sum_usage(pv, dd) by {
                    lemma_sum_push(pv, rec@, dd);
                }
            }
            out.push(new_entry);
            proof {
                let new_sums = sums_view(out@);
                assert(new_sums =~= old_sums.push(new_entry@));
                assert forall|jj: int| 0 <= jj < new_sums.len() implies has_date(
                    pv2,
                    (#[trigger] new_sums[jj]).date,
                ) by {
                    if jj < old_sums.len() {
                        assert(has_date(pv, old_sums[jj].date));
                        let w = choose|i: int|
                            0 <= i < pv.len() && (#[trigger] pv[i]).date == old_sums[jj].date;
                        assert(pv2[w].date == old_sums[jj].date);
                    } else {
                        assert(pv2[pv.len() as int].date == rec@.date);
                    }
                }
                assert forall|i: int| 0 <= i < pv2.len() implies has_summary(
                    new_sums,
                    (#[trigger] pv2[i]).date,
                ) by {
                    if i < pv.len() {
                        assert(has_summary(old_sums, pv[i].date));
                        let w = choose|jj: int|
                            0 <= jj < old_sums.len() && (#[trigger] old_sums[jj]).date
                                == pv[i].date;
                        assert(new_sums[w].date == pv2[i].date);
                    } else {
                        assert(new_sums[old_sums.len() as int].date == pv2[i].date);
                    }
                }
                assert forall|jj: int| 0 <= jj < old_sums.len() implies first_at(
                    pv2,
                    (#[trigger] new_sums[jj]).date,
                ) == first_at(pv, old_sums[jj].date) && first_at(pv, old_sums[jj].date)
                    < pv.len() by {
                    assert(new_sums[jj].date == old_sums[jj].date);
                    assert(has_date(pv, old_sums[jj].date));
                    lemma_first_at_push(pv, rec@, old_sums[jj].date);
                    lemma_first_at_found(pv, old_sums[jj].date);
                }
                assert(first_at(pv2, rec@.date) == pv.len()) by {
                    lemma_first_at_push(pv, rec@, rec@.date);
                }
                assert(new_sums[old_sums.len() as int].date == rec@.date);
                assert(is_aggregation(pv2, new_sums));
            }
        }
        idx = idx + 1;
    }
    proof {
        assert(records@.take(records@.len() as int) =~= records@);
        assert(is_aggregation(rv, sums_view(out@)));
        assert forall|i: int| 0 <= i < rv.len() implies sum_cost(rv, rv[i].date) <= u128::MAX
            && sum_usage(rv, rv[i].date) <= u64::MAX by {
            assert(has_summary(sums_view(out@), rv[i].date));
            let j = choose|j: int|
                0 <= j < sums_view(out@).len() && (#[trigger] sums_view(out@)[j]).date
                    == rv[i].date;
            assert(sums_view(out@)[j].cost == sum_cost(rv, rv[i].date));
        }
        assert(fits(rv));
    }
    Ok(out)
}

} // verus!
