use power_report::aggregate::summerize_days;
use power_report::errors::Error;
use power_report::pipeline::run;
use power_report::record::IntervalRecord;
use power_report::select::select_minimum_cost;

fn rec(date: &str, cost: u64, usage: u32) -> IntervalRecord {
    IntervalRecord {
        date: date.to_owned(),
        hour_start: 0,
        hour_end: 1,
        cost,
        usage,
    }
}

#[test]
fn aggregates_one_record_to_its_own_weighted_cost() {
    let out = summerize_days(&vec![rec("2024-01-01", 15000, 10)]).unwrap();
    assert_eq!(out.len(), 1);
    assert_eq!(out[0].date, "2024-01-01");
    assert_eq!(out[0].cost, 150000);
    assert_eq!(out[0].usage, 10);
}

#[test]
fn aggregates_by_exact_date_equality() {
    let records = vec![
        rec("2024-01-01", 15000, 10),
        rec("2024-01-01", 20000, 5),
        rec("2024-01-02", 5000, 20),
    ];
    let out = summerize_days(&records).unwrap();
    assert_eq!(out.len(), 2);
    assert_eq!(out[0].date, "2024-01-01");
    assert_eq!(out[0].cost, 15000 * 10 + 20000 * 5);
    assert_eq!(out[0].usage, 15);
    assert_eq!(out[1].date, "2024-01-02");
    assert_eq!(out[1].cost, 5000 * 20);
    assert_eq!(out[1].usage, 20);
}

#[test]
fn partitions_without_duplicating_a_date() {
    let records = vec![
        rec("a", 10000, 1),
        rec("b", 10000, 1),
        rec("a", 10000, 1),
        rec("c", 10000, 1),
        rec("b", 10000, 1),
    ];
    let out = summerize_days(&records).unwrap();
    assert_eq!(out.len(), 3);
    for i in 0..out.len() {
        for j in 0..out.len() {
            if i != j {
                assert_ne!(out[i].date, out[j].date);
            }
        }
    }
    let total_usage: u64 = out.iter().map(|s| s.usage).sum();
    assert_eq!(total_usage, 5);
}

#[test]
fn aggregating_nothing_yields_nothing() {
    let out = summerize_days(&vec![]).unwrap();
    assert_eq!(out.len(), 0);
}

#[test]
fn zero_usage_contributes_nothing_to_cost() {
    let out = summerize_days(&vec![rec("d", 99999, 0)]).unwrap();
    assert_eq!(out[0].cost, 0);
    assert_eq!(out[0].usage, 0);
}

#[test]
fn selects_the_smallest_cost() {
    let summaries = summerize_days(&vec![
        rec("a", 30000, 1),
        rec("b", 10000, 1),
        rec("c", 20000, 1),
    ])
    .unwrap();
    let m = select_minimum_cost(&summaries).unwrap();
    assert_eq!(m.date, "b");
    assert_eq!(m.cost, 10000);
}

#[test]
fn breaks_cost_ties_toward_the_earliest_summary() {
    let summaries = summerize_days(&vec![
        rec("x", 20000, 1),
        rec("y", 10000, 1),
        rec("z", 10000, 1),
    ])
    .unwrap();
    let m = select_minimum_cost(&summaries).unwrap();
    assert_eq!(m.date, "y");
}

#[test]
fn selecting_from_no_summaries_is_an_explicit_error() {
    let e = select_minimum_cost(&vec![]).unwrap_err();
    assert!(matches!(e, Error::EmptyInput));
}

#[test]
fn runs_a_three_record_scenario() {
    let input = "2024-01-01\t00-01\t1.5\t10\r2024-01-01\t01-02\t2.0\t5\r2024-01-02\t00-01\t0.5\t20";
    let report = run(input).unwrap();
    assert_eq!(report.summaries.len(), 2);
    assert_eq!(report.summaries[0].date, "2024-01-01");
    assert_eq!(report.summaries[0].cost, 250000);
    assert_eq!(report.summaries[0].usage, 15);
    assert_eq!(report.summaries[1].date, "2024-01-02");
    assert_eq!(report.summaries[1].cost, 100000);
    assert_eq!(report.summaries[1].usage, 20);
    assert_eq!(report.lowest.date, "2024-01-02");
    assert_eq!(report.lowest.cost, 100000);
    assert_eq!(report.lowest.usage, 20);
    let final_line = format!(
        "{}-{}-{}",
        report.lowest.date,
        report.lowest.usage,
        report.lowest.rounded_cost()
    );
    assert_eq!(final_line, "2024-01-02-20-10");
}

#[test]
fn a_bad_line_aborts_the_whole_run() {
    let input = "2024-01-01\t00-01\t1.5\t10\rgarbage\r2024-01-02\t00-01\t0.5\t20";
    let e = run(input).unwrap_err();
    match e {
        Error::Parse(pe) => assert_eq!(pe.line, "garbage"),
        _ => panic!("expected a parse error"),
    }
}

#[test]
fn empty_input_is_one_unparseable_line() {
    let e = run("").unwrap_err();
    assert!(matches!(e, Error::Parse(_)));
}

#[test]
fn rounds_cost_half_away_from_zero() {
    let summaries = summerize_days(&vec![rec("d", 15000, 1)]).unwrap();
    assert_eq!(summaries[0].rounded_cost(), 2);
    let summaries = summerize_days(&vec![rec("d", 14999, 1)]).unwrap();
    assert_eq!(summaries[0].rounded_cost(), 1);
    let summaries = summerize_days(&vec![rec("d", 5000, 1)]).unwrap();
    assert_eq!(summaries[0].rounded_cost(), 1);
    let summaries = summerize_days(&vec![rec("d", 4999, 1)]).unwrap();
    assert_eq!(summaries[0].rounded_cost(), 0);
}

#[test]
fn splits_cost_into_units_and_fraction() {
    let summaries = summerize_days(&vec![rec("d", 102500, 1)]).unwrap();
    let (units, frac) = summaries[0].cost_units();
    assert_eq!(units, 10);
    assert_eq!(frac, 2500);
}
