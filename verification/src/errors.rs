//! The pipeline's error values. A parse failure identifies the defect and
//! carries the offending line; the other failures carry no data.

use vstd::prelude::*;

verus! {

/// Which numeric field of a record line was malformed.
#[derive(Clone, Copy, PartialEq, Eq, Structural, Debug)]
pub enum NumberField {
    HourStart,
    HourEnd,
    Cost,
    Usage,
}

/// The defect found in a record line: fewer than four tab-separated fields,
/// an hour span that does not split on `-` into exactly two tokens, or a
/// numeric field that is not a numeral of its target type.
#[derive(Clone, Copy, PartialEq, Eq, Structural, Debug)]
pub enum ParseErrorKind {
    MissingField,
    MalformedHourSpan,
    MalformedNumber(NumberField),
}

/// A rejected record line: the kind of defect and the line as given.
#[derive(Debug)]
pub struct ParseError {
    pub kind: ParseErrorKind,
    pub line: String,
}

/// A terminal failure of the pipeline. `Parse` aborts the whole run on the
/// first bad line. `EmptyInput` is selecting a minimum from no summaries.
/// `Overflow` is a day whose exact totals exceed what the summary fields can
/// hold: a known limit of the fixed-width sums, reported rather than
/// silently truncated.
#[derive(Debug)]
pub enum Error {
    Parse(ParseError),
    EmptyInput,
    Overflow,
}

} // verus!
