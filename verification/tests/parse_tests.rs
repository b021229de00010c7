use power_report::errors::NumberField;
use power_report::errors::ParseErrorKind;
use power_report::numbers::parse_money;
use power_report::numbers::parse_u32;
use power_report::parse::parse_data_segment;

#[test]
fn parses_a_plain_record_line() {
    let rec = parse_data_segment("2024-01-01\t00-01\t1.5\t10").unwrap();
    assert_eq!(rec.date, "2024-01-01");
    assert_eq!(rec.hour_start, 0);
    assert_eq!(rec.hour_end, 1);
    assert_eq!(rec.cost, 15000);
    assert_eq!(rec.usage, 10);
}

#[test]
fn parses_whole_number_cost() {
    let rec = parse_data_segment("2024-01-02\t12-13\t2\t7").unwrap();
    assert_eq!(rec.cost, 20000);
    assert_eq!(rec.usage, 7);
}

#[test]
fn strips_newlines_from_the_date() {
    let rec = parse_data_segment("2024\n-01-01\t3-4\t0.25\t8").unwrap();
    assert_eq!(rec.date, "2024-01-01");
    assert_eq!(rec.cost, 2500);
}

#[test]
fn ignores_fields_past_the_fourth() {
    let rec = parse_data_segment("d\t1-2\t0.1\t5\textra\tmore").unwrap();
    assert_eq!(rec.date, "d");
    assert_eq!(rec.usage, 5);
}

#[test]
fn rejects_fewer_than_four_fields() {
    let e = parse_data_segment("2024-01-01\t00-01\t1.5").unwrap_err();
    assert!(matches!(e.kind, ParseErrorKind::MissingField));
    assert_eq!(e.line, "2024-01-01\t00-01\t1.5");
}

#[test]
fn rejects_an_hour_span_without_a_hyphen() {
    let e = parse_data_segment("d\t0001\t1.5\t10").unwrap_err();
    assert!(matches!(e.kind, ParseErrorKind::MalformedHourSpan));
}

#[test]
fn rejects_an_hour_span_with_two_hyphens() {
    let e = parse_data_segment("d\t0-1-2\t1.5\t10").unwrap_err();
    assert!(matches!(e.kind, ParseErrorKind::MalformedHourSpan));
}

#[test]
fn rejects_a_bad_start_hour() {
    let e = parse_data_segment("d\tx-1\t1.5\t10").unwrap_err();
    assert!(matches!(
        e.kind,
        ParseErrorKind::MalformedNumber(NumberField::HourStart)
    ));
}

#[test]
fn rejects_a_bad_end_hour() {
    let e = parse_data_segment("d\t1-\t1.5\t10").unwrap_err();
    assert!(matches!(
        e.kind,
        ParseErrorKind::MalformedNumber(NumberField::HourEnd)
    ));
}

#[test]
fn rejects_a_bad_cost() {
    let e = parse_data_segment("d\t1-2\tabc\t10").unwrap_err();
    assert!(matches!(
        e.kind,
        ParseErrorKind::MalformedNumber(NumberField::Cost)
    ));
}

#[test]
fn rejects_a_bad_usage() {
    let e = parse_data_segment("d\t1-2\t1.5\tten").unwrap_err();
    assert!(matches!(
        e.kind,
        ParseErrorKind::MalformedNumber(NumberField::Usage)
    ));
}

#[test]
fn rejects_a_negative_usage() {
    let e = parse_data_segment("d\t1-2\t1.5\t-10").unwrap_err();
    assert!(matches!(
        e.kind,
        ParseErrorKind::MalformedNumber(NumberField::Usage)
    ));
}

#[test]
fn renders_and_reparses_a_synthetic_tuple_exactly() {
    let line = format!("{}\t{}-{}\t{}.{:04}\t{}", "2030-06-07", 5, 6, 12, 3450u64, 42);
    let rec = parse_data_segment(&line).unwrap();
    assert_eq!(rec.date, "2030-06-07");
    assert_eq!(rec.hour_start, 5);
    assert_eq!(rec.hour_end, 6);
    assert_eq!(rec.cost, 12 * 10000 + 3450);
    assert_eq!(rec.usage, 42);
}

#[test]
fn money_numerals_read_back_in_scaled_units() {
    assert_eq!(parse_money("1.5"), Some(15000));
    assert_eq!(parse_money("0.0001"), Some(1));
    assert_eq!(parse_money("2"), Some(20000));
    assert_eq!(parse_money("0"), Some(0));
    assert_eq!(parse_money("10.25"), Some(102500));
}

#[test]
fn money_rejects_what_is_not_a_plain_numeral() {
    assert_eq!(parse_money(""), None);
    assert_eq!(parse_money("."), None);
    assert_eq!(parse_money("1."), None);
    assert_eq!(parse_money(".5"), None);
    assert_eq!(parse_money("1.5.0"), None);
    assert_eq!(parse_money("-1.5"), None);
    assert_eq!(parse_money("+1.5"), None);
    assert_eq!(parse_money("1e3"), None);
    assert_eq!(parse_money("1.50000"), None);
    assert_eq!(parse_money("99999999999999999999999"), None);
}

#[test]
fn integer_numerals_read_back() {
    assert_eq!(parse_u32("0"), Some(0));
    assert_eq!(parse_u32("007"), Some(7));
    assert_eq!(parse_u32("4294967295"), Some(u32::MAX));
    assert_eq!(parse_u32("4294967296"), None);
    assert_eq!(parse_u32(""), None);
    assert_eq!(parse_u32("12a"), None);
}
