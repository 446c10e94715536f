//! Instants written as text.

use vstd::prelude::*;

verus! {

/// The layout of the instant in an archive file's name.
pub const FILE_NAME_LAYOUT: &'static str = "[year]-[month]-[day]T[hour]-[minute]-[second]";

/// The layout of an instant in a payload.
pub const PAYLOAD_LAYOUT: &'static str = "[day].[month].[year] [hour padding:none]:[minute] UTC";

/// The instant that the `time` crate reads out of `text` under the format
/// description `layout`, taken as UTC, in seconds since 1970-01-01T00:00:00Z;
/// `None` where the text does not follow the layout.
pub uninterp spec fn utc_seconds(text: Seq<char>, layout: Seq<char>) -> Option<i64>;

/// Calls `time::format_description::parse_borrowed` (version 1) on the layout
/// and `time::UtcDateTime::parse` on the text, and takes the result's
/// `unix_timestamp`. The layout is one of the two of this module: neither has
/// an offset component, so the parsed moment is taken as it is, with no
/// conversion that could leave the range of the type. The contract gives the
/// outcome its name and says nothing else of it.
#[verifier::external_body]
fn parse_utc(text: &str, layout: &str) -> (instant: Option<i64>)
    requires
        layout@ == PAYLOAD_LAYOUT@ || layout@ == FILE_NAME_LAYOUT@,
    ensures
        instant == utc_seconds(text@, layout@),
{
    let items = time::format_description::parse_borrowed::<1>(layout).ok()?;
    time::UtcDateTime::parse(text, items.as_slice()).ok().map(|moment| moment.unix_timestamp())
}

/// Reads an instant of a payload, such as `01.02.2024 7:30 UTC`: the day and
/// the month have two digits, the hour has one or two.
pub fn extract_datetime(text: &str) -> (instant: Option<i64>)
    ensures
        instant == utc_seconds(text@, PAYLOAD_LAYOUT@),
{
    parse_utc(text, PAYLOAD_LAYOUT)
}

/// Reads the instant of an archive file's name, such as `2024-02-01T07-30-00`.
pub fn extract_file_datetime(text: &str) -> (instant: Option<i64>)
    ensures
        instant == utc_seconds(text@, FILE_NAME_LAYOUT@),
{
    parse_utc(text, FILE_NAME_LAYOUT)
}

} // verus!
