//! The lines of an archive file: each a JSON object that holds a payload as
//! the text of its member `xml`.

use vstd::prelude::*;
use crate::observation::{ObservationView, RawObservation, views};
use crate::payload::{
    extract_xml_streaming, payload_readings, report_of, scan_steps, PayloadReport,
};

verus! {

/// The name of the member that holds the payload.
pub const PAYLOAD_MEMBER: &'static str = "xml";

/// What became of a line.
#[derive(Clone, Copy, Debug, PartialEq, Eq, Structural)]
pub enum LineOutcome {
    /// The line held a payload, whose readings were taken; the report tells
    /// of malformed places in it and of ends of intervals that are no
    /// instants.
    Extracted(PayloadReport),
    /// The line is not JSON.
    NotJson,
    /// The line is JSON without a text under the payload's name.
    NoPayload,
}

/// What `serde_json` finds in `line` under the name `member`: `None` where
/// the line is not JSON; `Some(None)` where it is JSON but no object, or has
/// no such member, or the member is no text; else the member's text.
pub uninterp spec fn json_member_text(line: Seq<char>, member: Seq<char>) -> Option<
    Option<Seq<char>>,
>;

/// What was found in a line, as mathematical values.
pub open spec fn member_view(found: Option<Option<String>>) -> Option<Option<Seq<char>>> {
    match found {
        None => None,
        Some(None) => Some(None),
        Some(Some(text)) => Some(Some(text@)),
    }
}

/// Calls `serde_json::from_str` for a `serde_json::Value`, then `Value::get`
/// with the member's name and `Value::as_str` on what it gives. The outcome
/// is `None` where `from_str` reports an error, and holds `None` where `get`
/// or `as_str` gives none. The contract gives that outcome its name and says
/// nothing else of it.
#[verifier::external_body]
fn member_text(line: &str, member: &str) -> (found: Option<Option<String>>)
    ensures
        member_view(found) == json_member_text(line@, member@),
{
    match serde_json::from_str::<serde_json::Value>(line) {
        Err(_) => None,
        Ok(value) => Some(value.get(member).and_then(|held| held.as_str()).map(|text| text.to_string())),
    }
}

/// The outcome of a line by what was found in it.
pub open spec fn outcome_for(found: Option<Option<Seq<char>>>) -> LineOutcome {
    match found {
        None => LineOutcome::NotJson,
        Some(None) => LineOutcome::NoPayload,
        Some(Some(xml)) => LineOutcome::Extracted(report_of(scan_steps(xml))),
    }
}

/// The readings of what was found in a line: those of the payload where one
/// was found, none otherwise.
pub open spec fn member_readings(found: Option<Option<Seq<char>>>, download_time: i64) -> Seq<
    ObservationView,
> {
    match found {
        Some(Some(xml)) => payload_readings(xml, download_time),
        _ => Seq::empty(),
    }
}

/// The outcome of a line.
pub open spec fn line_outcome(line: Seq<char>) -> LineOutcome {
    outcome_for(json_member_text(line, PAYLOAD_MEMBER@))
}

/// The readings of a line.
pub open spec fn line_readings(line: Seq<char>, download_time: i64) -> Seq<ObservationView> {
    member_readings(json_member_text(line, PAYLOAD_MEMBER@), download_time)
}

/// Whether `after` is `before` with readings of one snapshot appended.
pub open spec fn extended(
    before: Seq<RawObservation>,
    after: Seq<RawObservation>,
    download_time: i64,
) -> bool {
    &&& before.len() <= after.len()
    &&& forall|i: int| 0 <= i < before.len() ==> (#[trigger] after[i])@ == before[i]@
    &&& forall|i: int|
        before.len() <= i < after.len() ==> (#[trigger] after[i])@.download_time == download_time
}

/// Takes the readings of what was found in a line: the readings of the
/// payload where one was found; where the line was not JSON or held no
/// payload, `buf` stays as it was and the outcome says which.
pub fn extract_from_member(
    found: Option<Option<String>>,
    buf: &mut Vec<RawObservation>,
    ts_downloaded: i64,
) -> (outcome: LineOutcome)
    ensures
        outcome == outcome_for(member_view(found)),
        views(final(buf)@) == views(old(buf)@) + member_readings(
            member_view(found),
            ts_downloaded,
        ),
        extended(old(buf)@, final(buf)@, ts_downloaded),
{
    let ghost before = views(buf@);
    proof {
        assert(before + Seq::<ObservationView>::empty() =~= before);
    }
    match found {
        None => LineOutcome::NotJson,
        Some(None) => LineOutcome::NoPayload,
        Some(Some(xml)) => {
            let report = extract_xml_streaming(xml.as_str(), ts_downloaded, buf);
            LineOutcome::Extracted(report)
        },
    }
}

/// Takes the readings of one line. A line that is not JSON, or holds no text
/// under `xml`, leaves `buf` as it was and says so in its outcome; any other
/// line adds the readings of its payload. The lines after it are not
/// affected.
pub fn extract_xml_from_json_line_streaming(
    line: &str,
    buf: &mut Vec<RawObservation>,
    ts_downloaded: i64,
) -> (outcome: LineOutcome)
    ensures
        outcome == line_outcome(line@),
        views(final(buf)@) == views(old(buf)@) + line_readings(line@, ts_downloaded),
        extended(old(buf)@, final(buf)@, ts_downloaded),
{
    let found = member_text(line, PAYLOAD_MEMBER);
    extract_from_member(found, buf, ts_downloaded)
}

/// The texts of a file's lines.
pub open spec fn line_views(lines: Seq<String>) -> Seq<Seq<char>> {
    lines.map_values(|line: String| line@)
}

/// The readings of a file's lines: those of the first line, then those of
/// the second, and so on to the last.
pub open spec fn file_readings(lines: Seq<Seq<char>>, download_time: i64) -> Seq<ObservationView>
    decreases lines.len(),
{
    if lines.len() == 0 {
        Seq::empty()
    } else {
        file_readings(lines.drop_last(), download_time) + line_readings(
            lines.last(),
            download_time,
        )
    }
}

/// Whether a line gives no readings because it is not JSON or holds no
/// payload.
pub open spec fn is_skipped(outcome: LineOutcome) -> bool {
    outcome == LineOutcome::NotJson || outcome == LineOutcome::NoPayload
}

/// Whether a line's payload is malformed in some place.
pub open spec fn is_malformed(outcome: LineOutcome) -> bool {
    match outcome {
        LineOutcome::Extracted(report) => report.malformed,
        _ => false,
    }
}

/// Whether a line's payload holds an end of an interval that is no instant.
pub open spec fn is_undated(outcome: LineOutcome) -> bool {
    match outcome {
        LineOutcome::Extracted(report) => report.unread_instant,
        _ => false,
    }
}

/// The number of lines that are not JSON or hold no payload.
pub open spec fn skipped_among(lines: Seq<Seq<char>>) -> nat
    decreases lines.len(),
{
    if lines.len() == 0 {
        0
    } else if is_skipped(line_outcome(lines.last())) {
        skipped_among(lines.drop_last()) + 1
    } else {
        skipped_among(lines.drop_last())
    }
}

/// The number of lines whose payload is malformed in some place.
pub open spec fn malformed_among(lines: Seq<Seq<char>>) -> nat
    decreases lines.len(),
{
    if lines.len() == 0 {
        0
    } else if is_malformed(line_outcome(lines.last())) {
        malformed_among(lines.drop_last()) + 1
    } else {
        malformed_among(lines.drop_last())
    }
}

/// The number of lines whose payload holds an end of an interval that is no
/// instant.
pub open spec fn undated_among(lines: Seq<Seq<char>>) -> nat
    decreases lines.len(),
{
    if lines.len() == 0 {
        0
    } else if is_undated(line_outcome(lines.last())) {
        undated_among(lines.drop_last()) + 1
    } else {
        undated_among(lines.drop_last())
    }
}

/// The readings of one archive file, and what there is to report of its
/// lines.
#[derive(Debug)]
pub struct FileReadings {
    pub readings: Vec<RawObservation>,
    /// The number of lines that are not JSON or hold no payload.
    pub skipped_lines: usize,
    /// The number of lines whose payload is malformed in some place.
    pub malformed_lines: usize,
    /// The number of lines with an end of an interval that is no instant.
    pub undated_lines: usize,
}

/// Takes the readings of all lines of one archive file, in the order of the
/// lines, and counts the lines that there is something to report of. A line
/// that is not JSON or holds no payload does not end the file. Every reading
/// carries the file's `downloaded_datetime`.
pub fn read_met_data_from_lines(lines: &Vec<String>, downloaded_datetime: i64) -> (found:
    FileReadings)
    ensures
        views(found.readings@) == file_readings(line_views(lines@), downloaded_datetime),
        found.skipped_lines == skipped_among(line_views(lines@)),
        found.malformed_lines == malformed_among(line_views(lines@)),
        found.undated_lines == undated_among(line_views(lines@)),
        found.skipped_lines + found.malformed_lines <= lines.len(),
        found.undated_lines <= lines.len(),
        forall|i: int|
            0 <= i < found.readings@.len() ==> (#[trigger] found.readings@[i])@.download_time
                == downloaded_datetime,
{
    let mut readings: Vec<RawObservation> = Vec::new();
    let mut skipped_lines: usize = 0;
    let mut malformed_lines: usize = 0;
    let mut undated_lines: usize = 0;
    let mut at: usize = 0;
    let ghost texts = line_views(lines@);
    proof {
        assert(texts.take(0) =~= Seq::<Seq<char>>::empty());
        assert(views(readings@) =~= file_readings(texts.take(0), downloaded_datetime));
    }
    while at < lines.len()
        invariant
            at <= lines.len(),
            texts == line_views(lines@),
            skipped_lines + malformed_lines <= at,
            undated_lines <= at,
            skipped_lines == skipped_among(texts.take(at as int)),
            malformed_lines == malformed_among(texts.take(at as int)),
            undated_lines == undated_among(texts.take(at as int)),
            views(readings@) == file_readings(texts.take(at as int), downloaded_datetime),
            extended(Seq::<RawObservation>::empty(), readings@, downloaded_datetime),
        decreases lines.len() - at,
    {
        let outcome = extract_xml_from_json_line_streaming(
            lines[at].as_str(),
            &mut readings,
            downloaded_datetime,
        );
        proof {
            let next = texts.take(at + 1);
            assert(next.drop_last() =~= texts.take(at as int));
            assert(next.last() == lines[at as int]@);
        }
        match outcome {
            LineOutcome::NotJson => {
                skipped_lines += 1;
            },
            LineOutcome::NoPayload => {
                skipped_lines += 1;
            },
            LineOutcome::Extracted(report) => {
                if report.malformed {
                    malformed_lines += 1;
                }
                if report.unread_instant {
                    undated_lines += 1;
                }
            },
        }
        at += 1;
    }
    proof {
        assert(texts.take(at as int) =~= texts);
    }
    FileReadings { readings, skipped_lines, malformed_lines, undated_lines }
}

} // verus!
