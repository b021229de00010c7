//! The segment parser: one raw report line to one `IntervalRecord`.
//!
//! A line holds four tab-separated fields in fixed order: date, hour span
//! (two unsigned integers joined by `-`), cost (a money numeral, see
//! `crate::numbers`), and usage (an unsigned integer). Fields past the fourth
//! are ignored. The date is taken verbatim except that embedded newline
//! characters are stripped; no range validation is done (an hour span with
//! `start >= end` is accepted as-is). Numerals are plain unsigned decimal:
//! signs and exponents are rejected as malformed, a deliberate tightening
//! over a general number parser that keeps every accepted value exact.

use vstd::prelude::*;
use crate::errors::NumberField;
use crate::errors::ParseError;
use crate::errors::ParseErrorKind;
use crate::numbers::MONEY_SCALE;
use crate::numbers::is_digit;
use crate::numbers::lemma_digits_no_char;
use crate::numbers::lemma_parse_render_money;
use crate::numbers::lemma_render_frac4;
use crate::numbers::lemma_render_nat;
use crate::numbers::parse_money;
use crate::numbers::parse_u32;
use crate::numbers::render_frac4;
use crate::numbers::render_money;
use crate::numbers::render_nat;
use crate::numbers::spec_parse_money;
use crate::numbers::spec_parse_u32;
use crate::record::IntervalRecord;
use crate::record::RecordV;
use crate::text::field_views;
use crate::text::lemma_remove_char_absent;
use crate::text::lemma_split_on_at_sep;
use crate::text::lemma_split_on_no_sep;
use crate::text::remove_char;
use crate::text::remove_char_str;
use crate::text::split_on;
use crate::text::split_str;

verus! {

/// What parsing a line yields: the record's view, or the kind of defect.
/// This is the whole parsing contract; the executable parser returns exactly
/// this, plus the offending line inside its error value.
pub open spec fn spec_parse(line: Seq<char>) -> Result<RecordV, ParseErrorKind> {
    let fields = split_on(line, '\t');
    if fields.len() < 4 {
        Err(ParseErrorKind::MissingField)
    } else {
        let date = remove_char(fields[0], '\n');
        let span = split_on(fields[1], '-');
        if span.len() != 2 {
            Err(ParseErrorKind::MalformedHourSpan)
        } else if spec_parse_u32(span[0]) is None {
            Err(ParseErrorKind::MalformedNumber(NumberField::HourStart))
        } else if spec_parse_u32(span[1]) is None {
            Err(ParseErrorKind::MalformedNumber(NumberField::HourEnd))
        } else if spec_parse_money(fields[2]) is None {
            Err(ParseErrorKind::MalformedNumber(NumberField::Cost))
        } else if spec_parse_u32(fields[3]) is None {
            Err(ParseErrorKind::MalformedNumber(NumberField::Usage))
        } else {
            Ok(
                RecordV {
                    date: date,
                    hour_start: spec_parse_u32(span[0])->Some_0 as int,
                    hour_end: spec_parse_u32(span[1])->Some_0 as int,
                    cost: spec_parse_money(fields[2])->Some_0 as int,
                    usage: spec_parse_u32(fields[3])->Some_0 as int,
                },
            )
        }
    }
}

/// The record line that a synthetic tuple renders to: the four fields in
/// order, tab-separated, the hour span hyphen-joined, the cost in canonical
/// money form.
pub open spec fn spec_render_record(
    date: Seq<char>,
    hour_start: u32,
    hour_end: u32,
    cost: u64,
    usage: u32,
) -> Seq<char> {
    date + seq!['\t'] + render_nat(hour_start as int) + seq!['-'] + render_nat(hour_end as int)
        + seq!['\t'] + render_money(cost as int) + seq!['\t'] + render_nat(usage as int)
}

/// Parse round-trip: a record line rendered from any synthetic tuple whose
/// date text holds no separator or newline parses back to exactly that tuple.
#[verifier::rlimit(100)]
#[verifier::spinoff_prover]
pub proof fn lemma_parse_render_round_trip(
    date: Seq<char>,
    hour_start: u32,
    hour_end: u32,
    cost: u64,
    usage: u32,
)
    requires
        !date.contains('\t'),
        !date.contains('\n'),
    ensures
        spec_parse(spec_render_record(date, hour_start, hour_end, cost, usage)) == Ok::<
            RecordV,
            ParseErrorKind,
        >(
            RecordV {
                date: date,
                hour_start: hour_start as int,
                hour_end: hour_end as int,
                cost: cost as int,
                usage: usage as int,
            },
        ),
{
    let hs = render_nat(hour_start as int);
    let he = render_nat(hour_end as int);
    let span = hs + seq!['-'] + he;
    let money = render_money(cost as int);
    let us = render_nat(usage as int);
    let line = spec_render_record(date, hour_start, hour_end, cost, usage);
    lemma_render_nat(hour_start as int);
    lemma_render_nat(hour_end as int);
    lemma_render_nat(usage as int);
    lemma_render_nat((cost as int) / (MONEY_SCALE as int));
    lemma_render_frac4((cost as int) % (MONEY_SCALE as int));
    assert(!is_digit('\t'));
    assert(!is_digit('-'));
    assert(!is_digit('.'));
    lemma_digits_no_char(hs, '\t');
    lemma_digits_no_char(he, '\t');
    lemma_digits_no_char(hs, '-');
    lemma_digits_no_char(he, '-');
    lemma_digits_no_char(us, '\t');
    lemma_digits_no_char(render_nat((cost as int) / (MONEY_SCALE as int)), '\t');
    lemma_digits_no_char(render_frac4((cost as int) % (MONEY_SCALE as int)), '\t');
    let t1 = date.len() as int;
    let t2 = t1 + 1 + span.len() as int;
    let t3 = t2 + 1 + money.len() as int;
    let n = line.len() as int;
    assert(money == render_nat((cost as int) / (MONEY_SCALE as int)) + seq!['.'] + render_frac4(
        (cost as int) % (MONEY_SCALE as int),
    ));
    assert(line[t1] == '\t');
    assert(line[t2] == '\t');
    assert(line[t3] == '\t');
    assert(forall|k: int| 0 <= k < t1 ==> #[trigger] line[k] == date[k]);
    assert(forall|k: int| t1 + 1 <= k < t2 ==> #[trigger] line[k] == span[k - (t1 + 1)]);
    assert(forall|k: int| t2 + 1 <= k < t3 ==> #[trigger] line[k] == money[k - (t2 + 1)]);
    assert(forall|k: int| t3 + 1 <= k < n ==> #[trigger] line[k] == us[k - (t3 + 1)]);
    assert(forall|k: int| 0 <= k < span.len() ==> #[trigger] span[k] != '\t');
    assert(forall|k: int| 0 <= k < money.len() ==> #[trigger] money[k] != '\t');
    lemma_split_on_at_sep(line, '\t', 0, t1);
    lemma_split_on_at_sep(line, '\t', t1 + 1, t2);
    lemma_split_on_at_sep(line, '\t', t2 + 1, t3);
    lemma_split_on_no_sep(line, '\t', t3 + 1);
    assert(line.skip(0) =~= line);
    assert(line.subrange(0, t1) =~= date);
    assert(line.subrange(t1 + 1, t2) =~= span);
    assert(line.subrange(t2 + 1, t3) =~= money);
    assert(line.subrange(t3 + 1, n) =~= us);
    let fields = split_on(line, '\t');
    assert(fields =~= seq![date, span, money, us]);
    lemma_remove_char_absent(date, '\n');
    // the hour span splits on its one hyphen into the two numerals
    let hy = hs.len() as int;
    assert(span[hy] == '-');
    assert(forall|k: int| 0 <= k < hy ==> #[trigger] span[k] == hs[k]);
    assert(forall|k: int| hy + 1 <= k < span.len() ==> #[trigger] span[k] == he[k - (hy + 1)]);
    lemma_split_on_at_sep(span, '-', 0, hy);
    lemma_split_on_no_sep(span, '-', hy + 1);
    assert(span.skip(0) =~= span);
    assert(span.subrange(0, hy) =~= hs);
    assert(span.subrange(hy + 1, span.len() as int) =~= he);
    assert(split_on(span, '-') =~= seq![hs, he]);
    lemma_parse_render_money(cost);
    assert(spec_parse_u32(hs) == Some(hour_start));
    assert(spec_parse_u32(he) == Some(hour_end));
    assert(spec_parse_u32(us) == Some(usage));
}

/// Parses one record line, as `spec_parse` describes; an error carries the
/// line itself for diagnostics.
pub fn parse_data_segment(line: &str) -> (r: Result<IntervalRecord, ParseError>)
    ensures
        match r {
            Ok(rec) => spec_parse(line@) == Ok::<RecordV, ParseErrorKind>(rec@),
            Err(e) => spec_parse(line@) == Err::<RecordV, ParseErrorKind>(e.kind) && e.line@
                == line@,
        },
{
    let fields = split_str(line, '\t');
    proof {
        assert(forall|j: int|
            0 <= j < fields@.len() ==> (#[trigger] fields@[j])@ == field_views(fields@)[j]);
    }
    if fields.len() < 4 {
        return Err(ParseError { kind: ParseErrorKind::MissingField, line: line.to_owned() });
    }
    let date = remove_char_str(fields[0].as_str(), '\n');
    let span = split_str(fields[1].as_str(), '-');
    proof {
        assert(forall|j: int|
            0 <= j < span@.len() ==> (#[trigger] span@[j])@ == field_views(span@)[j]);
    }
    if span.len() != 2 {
        return Err(ParseError { kind: ParseErrorKind::MalformedHourSpan, line: line.to_owned() });
    }
    let hour_start = match parse_u32(span[0].as_str()) {
        Some(v) => v,
        None => {
            return Err(
                ParseError {
                    kind: ParseErrorKind::MalformedNumber(NumberField::HourStart),
                    line: line.to_owned(),
                },
            );
        },
    };
    let hour_end = match parse_u32(span[1].as_str()) {
        Some(v) => v,
        None => {
            return Err(
                ParseError {
                    kind: ParseErrorKind::MalformedNumber(NumberField::HourEnd),
                    line: line.to_owned(),
                },
            );
        },
    };
    let cost = match parse_money(fields[2].as_str()) {
        Some(v) => v,
        None => {
            return Err(
                ParseError {
                    kind: ParseErrorKind::MalformedNumber(NumberField::Cost),
                    line: line.to_owned(),
                },
            );
        },
    };
    let usage = match parse_u32(fields[3].as_str()) {
        Some(v) => v,
        None => {
            return Err(
                ParseError {
                    kind: ParseErrorKind::MalformedNumber(NumberField::Usage),
                    line: line.to_owned(),
                },
            );
        },
    };
    Ok(IntervalRecord { date, hour_start, hour_end, cost, usage })
}

} // verus!
