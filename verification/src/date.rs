//! Due dates. A due date is a `time::PrimitiveDateTime`; the task list
//! stores it and hands it back, and the `time` crate writes and reads it.

use time::{ParseError, PrimitiveDateTime};
use vstd::prelude::*;

verus! {

/// `time::PrimitiveDateTime`, a calendar date with a time of day. Its fields
/// are not visible here: a value is carried, compared and copied.
#[verifier::external_type_specification]
#[verifier::external_body]
pub struct ExPrimitiveDateTime(time::PrimitiveDateTime);

/// `time::ParseError`, which says why a text is not a date.
#[verifier::external_type_specification]
#[verifier::external_body]
pub struct ExParseError(time::ParseError);

/// The text that `PrimitiveDateTime::format` writes for `date` under
/// `format`.
pub uninterp spec fn formatted(date: PrimitiveDateTime, format: Seq<char>) -> Seq<char>;

/// The date that `time::parse` reads from `text` under `format`, if it reads
/// one.
pub uninterp spec fn parsed(text: Seq<char>, format: Seq<char>) -> Option<PrimitiveDateTime>;

/// The format in which a due date is shown beside a task: time, then date.
pub open spec fn shown_format() -> Seq<char> {
    "%I:%M %p %F"@
}

/// The format in which a due date is typed: date, then time.
pub open spec fn typed_format() -> Seq<char> {
    "%F %I:%M %p"@
}

/// Calls `PrimitiveDateTime::format`. The result is the text that the
/// `time` crate writes for this date under this format; it is named, not
/// described. Of the formats only the two that this library uses are
/// admitted: both hold known specifiers only, so the call does not panic.
#[verifier::external_body]
pub(crate) fn format_date(date: &PrimitiveDateTime, format: &str) -> (r: String)
    requires
        format@ == shown_format() || format@ == typed_format(),
    ensures
        r@ == formatted(*date, format@),
{
    date.format(format)
}

/// Calls `time::parse` for a `PrimitiveDateTime`. The outcome is what the
/// `time` crate reads from this text under this format; it is named, not
/// described.
#[verifier::external_body]
pub(crate) fn parse_date(text: &str, format: &str) -> (r: Result<PrimitiveDateTime, ParseError>)
    requires
        format@ == shown_format() || format@ == typed_format(),
    ensures
        match r {
            Ok(date) => parsed(text@, format@) == Some(date),
            Err(_) => parsed(text@, format@) is None,
        },
{
    time::parse::<PrimitiveDateTime>(text, format)
}

} // verus!
