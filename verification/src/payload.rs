//! The tag-structured payload of an archive line: zero or more station
//! readings, each between `<metData>` and `</metData>`.

use vstd::prelude::*;
use vstd::string::StringSliceAdditionalSpecFns;
use vstd::utf8::encode_utf8;
use crate::clock::{extract_datetime, utc_seconds, PAYLOAD_LAYOUT};
use crate::observation::{text_view, ObservationView, RawObservation, views};
use crate::text::same_text;

verus! {

#[verifier::external_type_specification]
#[verifier::external_body]
#[verifier::reject_recursive_types(R)]
pub struct ExReader<R>(quick_xml::Reader<R>);

/// What an element's name says of its content.
#[derive(Clone, Copy, Debug, PartialEq, Eq, Structural)]
pub enum Element {
    /// `metData`: one station's reading.
    Reading,
    /// `domain_meteosiId`: the station's code.
    Station,
    /// `rr_val`, `tp_1h_acc`, `tp_12h_acc`, `tp_24h_acc`, `tavg`: a measurement.
    Measurement(Measured),
    /// `validStart`: the start of the interval.
    ValidStart,
    /// `validEnd`: the end of the interval.
    ValidEnd,
    /// Any other name.
    Other,
}

/// The measurements of a reading.
#[derive(Clone, Copy, Debug, PartialEq, Eq, Structural)]
pub enum Measured {
    PrecipitationSum10min,
    PrecipitationSum1h,
    PrecipitationSum12h,
    PrecipitationSum24h,
    TemperatureAirAvg,
}

/// The element that a name stands for.
pub open spec fn element_named(name: Seq<char>) -> Element {
    if name == "metData"@ {
        Element::Reading
    } else if name == "domain_meteosiId"@ {
        Element::Station
    } else if name == "rr_val"@ {
        Element::Measurement(Measured::PrecipitationSum10min)
    } else if name == "tp_1h_acc"@ {
        Element::Measurement(Measured::PrecipitationSum1h)
    } else if name == "tp_12h_acc"@ {
        Element::Measurement(Measured::PrecipitationSum12h)
    } else if name == "tp_24h_acc"@ {
        Element::Measurement(Measured::PrecipitationSum24h)
    } else if name == "tavg"@ {
        Element::Measurement(Measured::TemperatureAirAvg)
    } else if name == "validStart"@ {
        Element::ValidStart
    } else if name == "validEnd"@ {
        Element::ValidEnd
    } else {
        Element::Other
    }
}

/// Tells what an element's name says of its content.
pub fn element_of(name: &str) -> (element: Element)
    ensures
        element == element_named(name@),
{
    if same_text(name, "metData") {
        Element::Reading
    } else if same_text(name, "domain_meteosiId") {
        Element::Station
    } else if same_text(name, "rr_val") {
        Element::Measurement(Measured::PrecipitationSum10min)
    } else if same_text(name, "tp_1h_acc") {
        Element::Measurement(Measured::PrecipitationSum1h)
    } else if same_text(name, "tp_12h_acc") {
        Element::Measurement(Measured::PrecipitationSum12h)
    } else if same_text(name, "tp_24h_acc") {
        Element::Measurement(Measured::PrecipitationSum24h)
    } else if same_text(name, "tavg") {
        Element::Measurement(Measured::TemperatureAirAvg)
    } else if same_text(name, "validStart") {
        Element::ValidStart
    } else if same_text(name, "validEnd") {
        Element::ValidEnd
    } else {
        Element::Other
    }
}

/// What a [`PayloadItem`] holds, as mathematical values.
pub enum PayloadItemView {
    Open,
    Station(Seq<char>),
    Measurement(Measured, Seq<char>),
    ValidStart(Option<i64>),
    ValidEnd(Option<i64>),
    Close,
}

/// One thing that a payload says, in the order of the payload.
#[derive(Debug)]
pub enum PayloadItem {
    /// A reading begins.
    Open,
    /// The station's code.
    Station(String),
    /// The text of a measurement.
    Measurement(Measured, String),
    /// The start of the interval, `None` where its text is no instant.
    ValidStart(Option<i64>),
    /// The end of the interval, `None` where its text is no instant.
    ValidEnd(Option<i64>),
    /// A reading ends.
    Close,
}

impl View for PayloadItem {
    type V = PayloadItemView;

    open spec fn view(&self) -> PayloadItemView {
        match *self {
            PayloadItem::Open => PayloadItemView::Open,
            PayloadItem::Station(code) => PayloadItemView::Station(code@),
            PayloadItem::Measurement(measured, text) => PayloadItemView::Measurement(
                measured,
                text@,
            ),
            PayloadItem::ValidStart(instant) => PayloadItemView::ValidStart(instant),
            PayloadItem::ValidEnd(instant) => PayloadItemView::ValidEnd(instant),
            PayloadItem::Close => PayloadItemView::Close,
        }
    }
}

/// The values of a list of items.
pub open spec fn item_views(items: Seq<PayloadItem>) -> Seq<PayloadItemView> {
    items.map_values(|item: PayloadItem| item@)
}

/// The reading in progress after one more item. A reading that begins or ends
/// leaves a blank one; any other item sets its field, also where the field
/// was set before.
pub open spec fn after_item(
    current: ObservationView,
    item: PayloadItemView,
    download_time: i64,
) -> ObservationView {
    match item {
        PayloadItemView::Open => ObservationView::blank(download_time),
        PayloadItemView::Close => ObservationView::blank(download_time),
        PayloadItemView::Station(code) => ObservationView { station_code: code, ..current },
        PayloadItemView::ValidStart(instant) => ObservationView {
            interval_start: instant,
            ..current
        },
        PayloadItemView::ValidEnd(instant) => ObservationView { interval_end: instant, ..current },
        PayloadItemView::Measurement(measured, text) => match measured {
            Measured::PrecipitationSum10min => ObservationView {
                precipitation_sum_10min: Some(text),
                ..current
            },
            Measured::PrecipitationSum1h => ObservationView {
                precipitation_sum_1h: Some(text),
                ..current
            },
            Measured::PrecipitationSum12h => ObservationView {
                precipitation_sum_12h: Some(text),
                ..current
            },
            Measured::PrecipitationSum24h => ObservationView {
                precipitation_sum_24h: Some(text),
                ..current
            },
            Measured::TemperatureAirAvg => ObservationView {
                temperature_air_avg: Some(text),
                ..current
            },
        },
    }
}

/// The reading in progress after all of `items`.
pub open spec fn in_progress(items: Seq<PayloadItemView>, download_time: i64) -> ObservationView
    decreases items.len(),
{
    if items.len() == 0 {
        ObservationView::blank(download_time)
    } else {
        after_item(in_progress(items.drop_last(), download_time), items.last(), download_time)
    }
}

/// The readings that `items` complete: one for each `Close`, with the fields
/// set since the reading began.
pub open spec fn readings_of(items: Seq<PayloadItemView>, download_time: i64) -> Seq<
    ObservationView,
>
    decreases items.len(),
{
    if items.len() == 0 {
        Seq::empty()
    } else if items.last() is Close {
        readings_of(items.drop_last(), download_time).push(
            in_progress(items.drop_last(), download_time),
        )
    } else {
        readings_of(items.drop_last(), download_time)
    }
}

/// Takes one item: a `Close` appends the reading in progress to `buf`, any
/// other item changes the reading in progress.
pub fn apply_item(
    current: &mut RawObservation,
    item: PayloadItem,
    download_time: i64,
    buf: &mut Vec<RawObservation>,
)
    ensures
        final(current)@ == after_item(old(current)@, item@, download_time),
        views(final(buf)@) == if item is Close {
            views(old(buf)@).push(old(current)@)
        } else {
            views(old(buf)@)
        },
{
    let ghost before = views(buf@);
    match item {
        PayloadItem::Open => {
            *current = RawObservation::blank(download_time);
        },
        PayloadItem::Close => {
            let mut done = RawObservation::blank(download_time);
            core::mem::swap(current, &mut done);
            buf.push(done);
            proof {
                assert(views(buf@) =~= before.push(old(current)@));
            }
        },
        PayloadItem::Station(code) => {
            current.station_code = code;
        },
        PayloadItem::ValidStart(instant) => {
            current.interval_start = instant;
        },
        PayloadItem::ValidEnd(instant) => {
            current.interval_end = instant;
        },
        PayloadItem::Measurement(measured, text) => match measured {
            Measured::PrecipitationSum10min => {
                current.precipitation_sum_10min = Some(text);
            },
            Measured::PrecipitationSum1h => {
                current.precipitation_sum_1h = Some(text);
            },
            Measured::PrecipitationSum12h => {
                current.precipitation_sum_12h = Some(text);
            },
            Measured::PrecipitationSum24h => {
                current.precipitation_sum_24h = Some(text);
            },
            Measured::TemperatureAirAvg => {
                current.temperature_air_avg = Some(text);
            },
        },
    }
}

/// Appends to `buf` the readings that `items` complete, each with the
/// snapshot's `download_time`.
pub fn collect_readings(items: Vec<PayloadItem>, download_time: i64, buf: &mut Vec<RawObservation>)
    ensures
        views(final(buf)@) == views(old(buf)@) + readings_of(item_views(items@), download_time),
{
    let ghost all = item_views(items@);
    let ghost before = views(buf@);
    let mut current = RawObservation::blank(download_time);
    proof {
        assert(all.take(0) =~= Seq::<PayloadItemView>::empty());
        assert(before + Seq::<ObservationView>::empty() =~= before);
    }
    for item in walk: items.into_iter()
        invariant
            item_views(walk.seq()) == all,
            current@ == in_progress(all.take(walk.index() as int), download_time),
            views(buf@) == before + readings_of(all.take(walk.index() as int), download_time),
    {
        proof {
            let seen = all.take(walk.index() as int);
            let next = all.take(walk.index() + 1);
            assert(next.drop_last() =~= seen);
            assert(next.last() == item@);
            assert(before + readings_of(seen, download_time).push(in_progress(seen, download_time))
                =~= (before + readings_of(seen, download_time)).push(
                in_progress(seen, download_time),
            ));
        }
        apply_item(&mut current, item, download_time, buf);
    }
    proof {
        assert(all.take(all.len() as int) =~= all);
    }
}

/// What the reader found next in a payload.
#[derive(Debug)]
pub enum XmlEvent {
    /// The start tag of an element, with the element's name.
    Start(String),
    /// The end tag of an element, with the element's name.
    End(String),
    /// The end of the payload.
    Eof,
    /// Anything else that is well formed: text, an empty element, a comment.
    Other,
    /// The payload is not well formed here.
    Malformed,
}

/// What an [`XmlEvent`] holds, as mathematical values.
pub enum XmlEventView {
    Start(Seq<char>),
    End(Seq<char>),
    Eof,
    Other,
    Malformed,
}

impl View for XmlEvent {
    type V = XmlEventView;

    open spec fn view(&self) -> XmlEventView {
        match *self {
            XmlEvent::Start(name) => XmlEventView::Start(name@),
            XmlEvent::End(name) => XmlEventView::End(name@),
            XmlEvent::Eof => XmlEventView::Eof,
            XmlEvent::Other => XmlEventView::Other,
            XmlEvent::Malformed => XmlEventView::Malformed,
        }
    }
}

/// What the scan does on an event.
#[derive(Clone, Copy, Debug, PartialEq, Eq, Structural)]
pub enum Decision {
    /// The payload ends: the scan ends here.
    Stop,
    /// The event says nothing of a reading.
    Pass,
    /// The payload is malformed here: the place is reported, the scan goes on.
    Fault,
    /// A reading begins.
    Open,
    /// A reading ends.
    Close,
    /// The element is a field of a reading: its text is to be read.
    ReadField(Element),
}

/// The decision on an event: the scan ends with the payload; a malformed
/// place is a fault; `metData` begins and ends a reading; the start tag of a
/// field asks for the field's text; all else is passed over, the end tags of
/// fields and the tags of other elements too.
pub open spec fn decision_for(event: XmlEventView) -> Decision {
    match event {
        XmlEventView::Eof => Decision::Stop,
        XmlEventView::Malformed => Decision::Fault,
        XmlEventView::Other => Decision::Pass,
        XmlEventView::End(name) => if element_named(name) == Element::Reading {
            Decision::Close
        } else {
            Decision::Pass
        },
        XmlEventView::Start(name) => match element_named(name) {
            Element::Reading => Decision::Open,
            Element::Other => Decision::Pass,
            field => Decision::ReadField(field),
        },
    }
}

/// Decides what the scan does on an event.
pub fn decide(event: &XmlEvent) -> (decision: Decision)
    ensures
        decision == decision_for(event@),
{
    match event {
        XmlEvent::Eof => Decision::Stop,
        XmlEvent::Malformed => Decision::Fault,
        XmlEvent::Other => Decision::Pass,
        XmlEvent::End(name) => {
            if element_of(name.as_str()) == Element::Reading {
                Decision::Close
            } else {
                Decision::Pass
            }
        },
        XmlEvent::Start(name) => {
            let element = element_of(name.as_str());
            match element {
                Element::Reading => Decision::Open,
                Element::Other => Decision::Pass,
                _ => Decision::ReadField(element),
            }
        },
    }
}

/// The text that a reader was made from.
pub uninterp spec fn reader_source(reader: quick_xml::Reader<&[u8]>) -> Seq<char>;

/// The calls made on a reader since it was made, in order: `None` for a call
/// of `read_event`, the element's name for a call of `read_text`.
pub uninterp spec fn reader_calls(reader: quick_xml::Reader<&[u8]>) -> Seq<Option<Seq<char>>>;

/// What `read_event` gives on a reader made from `source` on which `calls`
/// were made: the event's kind, with the element's name for a start and an
/// end tag, and `Malformed` where it reports an error.
pub uninterp spec fn xml_event_after(
    source: Seq<char>,
    calls: Seq<Option<Seq<char>>>,
) -> XmlEventView;

/// What `read_text` with the element's name `name` gives on a reader made
/// from `source` on which `calls` were made: the text up to the matching end
/// tag, `None` where it reports an error.
pub uninterp spec fn xml_text_after(
    source: Seq<char>,
    calls: Seq<Option<Seq<char>>>,
    name: Seq<char>,
) -> Option<Seq<char>>;

/// What `buffer_position` gives on a reader made from `source` on which
/// `calls` were made.
pub uninterp spec fn xml_position_after(source: Seq<char>, calls: Seq<Option<Seq<char>>>) -> u64;

/// Calls `quick_xml::Reader::from_str`: a reader at the start of `xml`, with
/// the crate's default configuration, on which no call was made yet.
#[verifier::external_body]
fn open_reader<'a>(xml: &'a str) -> (reader: quick_xml::Reader<&'a [u8]>)
    ensures
        reader_source(reader) == xml@,
        reader_calls(reader) == Seq::<Option<Seq<char>>>::empty(),
{
    quick_xml::Reader::from_str(xml)
}

/// Calls `quick_xml::Reader::read_event` and tells the event's variant apart,
/// with the element's name for a start and an end tag. A reader holds only
/// its text, its configuration and the state that its calls left, so the
/// event depends on the text and the calls made before and on nothing else:
/// the contract gives it its name, and records the call.
#[verifier::external_body]
fn next_event(reader: &mut quick_xml::Reader<&[u8]>) -> (event: XmlEvent)
    ensures
        event@ == xml_event_after(reader_source(*old(reader)), reader_calls(*old(reader))),
        reader_source(*final(reader)) == reader_source(*old(reader)),
        reader_calls(*final(reader)) == reader_calls(*old(reader)).push(None),
{
    match reader.read_event() {
        Ok(quick_xml::events::Event::Start(tag)) => XmlEvent::Start(tag.name().0.to_string()),
        Ok(quick_xml::events::Event::End(tag)) => XmlEvent::End(tag.name().0.to_string()),
        Ok(quick_xml::events::Event::Eof) => XmlEvent::Eof,
        Ok(_) => XmlEvent::Other,
        Err(_) => XmlEvent::Malformed,
    }
}

/// Calls `quick_xml::Reader::read_text` with the name of the element whose
/// start tag was read last: the text up to the matching end tag, as it stands
/// in the payload, or `None` where the reader reports an error. The contract
/// gives the outcome its name, and records the call.
#[verifier::external_body]
fn read_inner(reader: &mut quick_xml::Reader<&[u8]>, name: &str) -> (text: Option<String>)
    ensures
        text_view(text) == xml_text_after(
            reader_source(*old(reader)),
            reader_calls(*old(reader)),
            name@,
        ),
        reader_source(*final(reader)) == reader_source(*old(reader)),
        reader_calls(*final(reader)) == reader_calls(*old(reader)).push(Some(name@)),
{
    reader.read_text(quick_xml::name::QName(name)).ok().map(|text| text.into_inner().into_owned())
}

/// Calls `quick_xml::Reader::buffer_position`: the number of bytes that the
/// reader has gone through. The contract gives the number its name.
#[verifier::external_body]
fn bytes_read(reader: &quick_xml::Reader<&[u8]>) -> (position: u64)
    ensures
        position == xml_position_after(reader_source(*reader), reader_calls(*reader)),
{
    reader.buffer_position()
}

/// The item that an element with text content gives, if its name is one of
/// a reading's fields.
pub open spec fn field_item(element: Element, text: Seq<char>) -> Option<PayloadItemView> {
    match element {
        Element::Station => Some(PayloadItemView::Station(text)),
        Element::Measurement(measured) => Some(PayloadItemView::Measurement(measured, text)),
        Element::ValidStart => Some(
            PayloadItemView::ValidStart(utc_seconds(text, PAYLOAD_LAYOUT@)),
        ),
        Element::ValidEnd => Some(PayloadItemView::ValidEnd(utc_seconds(text, PAYLOAD_LAYOUT@))),
        Element::Reading => None,
        Element::Other => None,
    }
}

/// Makes the item of a field from the field's text: the station's code and a
/// measurement keep the text, the ends of the interval are read as instants.
pub fn make_field_item(element: Element, text: String) -> (item: Option<PayloadItem>)
    ensures
        match item {
            Some(made) => field_item(element, text@) == Some(made@),
            None => field_item(element, text@) is None,
        },
{
    match element {
        Element::Station => Some(PayloadItem::Station(text)),
        Element::Measurement(measured) => Some(PayloadItem::Measurement(measured, text)),
        Element::ValidStart => Some(PayloadItem::ValidStart(extract_datetime(text.as_str()))),
        Element::ValidEnd => Some(PayloadItem::ValidEnd(extract_datetime(text.as_str()))),
        Element::Reading => None,
        Element::Other => None,
    }
}

/// What the reader gave at one step of a scan: an event and, where the
/// event's decision asks for a field's text, the text that came, `None`
/// where the reader reported an error instead.
pub struct ScanStep {
    pub event: XmlEventView,
    pub text: Option<Seq<char>>,
}

/// The name of the element whose text the scan asks for on an event: that of
/// a start tag of a field.
pub open spec fn asked_name(event: XmlEventView) -> Option<Seq<char>> {
    match event {
        XmlEventView::Start(name) => if decision_for(event) is ReadField {
            Some(name)
        } else {
            None
        },
        _ => None,
    }
}

/// The item that a step of a scan gives: `Open` and `Close` for the tags of a
/// reading, the field's item for a field whose text came, none otherwise.
pub open spec fn step_item(step: ScanStep) -> Option<PayloadItemView> {
    match decision_for(step.event) {
        Decision::Open => Some(PayloadItemView::Open),
        Decision::Close => Some(PayloadItemView::Close),
        Decision::ReadField(element) => match step.text {
            Some(text) => field_item(element, text),
            None => None,
        },
        Decision::Stop => None,
        Decision::Pass => None,
        Decision::Fault => None,
    }
}

/// Whether a scan ends with this step: at the end of the payload.
pub open spec fn step_ends(step: ScanStep) -> bool {
    decision_for(step.event) == Decision::Stop
}

/// Whether the payload is malformed at this step: the reader reported an
/// error in place of an event or of a field's text.
pub open spec fn step_faults(step: ScanStep) -> bool {
    decision_for(step.event) == Decision::Fault || (decision_for(step.event) is ReadField
        && step.text is None)
}

/// Whether this step gives an end of the interval whose text is no instant.
pub open spec fn step_unread_instant(step: ScanStep) -> bool {
    step_item(step) == Some(PayloadItemView::ValidStart(None)) || step_item(step) == Some(
        PayloadItemView::ValidEnd(None),
    )
}

/// The items that the steps of a scan give, in the order of the steps.
pub open spec fn items_of(steps: Seq<ScanStep>) -> Seq<PayloadItemView>
    decreases steps.len(),
{
    if steps.len() == 0 {
        Seq::empty()
    } else {
        match step_item(steps.last()) {
            Some(item) => items_of(steps.drop_last()).push(item),
            None => items_of(steps.drop_last()),
        }
    }
}

/// What a scan has to report besides its items.
#[derive(Clone, Copy, Debug, PartialEq, Eq, Structural)]
pub struct PayloadReport {
    /// The payload is malformed in at least one place.
    pub malformed: bool,
    /// At least one end of an interval is no instant.
    pub unread_instant: bool,
}

/// The report on the steps of a scan.
pub open spec fn report_of(steps: Seq<ScanStep>) -> PayloadReport {
    PayloadReport {
        malformed: exists|i: int| 0 <= i < steps.len() && step_faults(#[trigger] steps[i]),
        unread_instant: exists|i: int|
            0 <= i < steps.len() && step_unread_instant(#[trigger] steps[i]),
    }
}

/// The steps of a scan of `source` from the state that `calls` left with the
/// reader `position` bytes into the payload. A step takes the reader's next
/// event and, for the start tag of a field, the field's text. The scan ends
/// after the step that finds the end of the payload, and after a step that
/// does not take the reader further into the payload.
pub open spec fn scan_from(
    source: Seq<char>,
    calls: Seq<Option<Seq<char>>>,
    position: int,
) -> Seq<ScanStep>
    decreases encode_utf8(source).len() - position,
{
    let limit = encode_utf8(source).len() as int;
    if position < 0 || position >= limit {
        Seq::empty()
    } else {
        let event = xml_event_after(source, calls);
        let step = ScanStep { event, text: text_after_event(source, calls, event) };
        let told = calls_after_event(calls, event);
        let reached = xml_position_after(source, told) as int;
        if step_ends(step) || reached <= position || reached > limit {
            seq![step]
        } else {
            seq![step] + scan_from(source, told, reached)
        }
    }
}

/// The text that a step takes after its event: that of the field whose start
/// tag the event is, none for any other event.
pub open spec fn text_after_event(
    source: Seq<char>,
    calls: Seq<Option<Seq<char>>>,
    event: XmlEventView,
) -> Option<Seq<char>> {
    match asked_name(event) {
        Some(name) => xml_text_after(source, calls.push(None), name),
        None => None,
    }
}

/// The calls made on the reader after a step that began with `calls` made
/// and found `event`.
pub open spec fn calls_after_event(
    calls: Seq<Option<Seq<char>>>,
    event: XmlEventView,
) -> Seq<Option<Seq<char>>> {
    match asked_name(event) {
        Some(name) => calls.push(None).push(Some(name)),
        None => calls.push(None),
    }
}

/// The steps of a scan of a payload from its start.
pub open spec fn scan_steps(xml: Seq<char>) -> Seq<ScanStep> {
    scan_from(xml, Seq::empty(), 0)
}

/// The readings of a payload: those that the items of its scan complete,
/// each with the snapshot's `download_time`.
pub open spec fn payload_readings(xml: Seq<char>, download_time: i64) -> Seq<ObservationView> {
    readings_of(items_of(scan_steps(xml)), download_time)
}

/// What a scan found in a payload.
#[derive(Debug)]
pub struct PayloadScan {
    /// What the payload says, in order.
    pub items: Vec<PayloadItem>,
    pub report: PayloadReport,
}

/// Reads a payload from its start and lists what it says, in order: where a
/// reading begins and ends, and the fields of readings with their text.
///
/// Each event of the reader is one step. Elements of other names, text
/// between elements and empty elements are passed over. A malformed place is
/// reported and the scan goes on behind it. The scan ends where the payload
/// ends, or where the reader does not move on.
pub fn scan_payload(xml: &str) -> (scan: PayloadScan)
    ensures
        item_views(scan.items@) == items_of(scan_steps(xml@)),
        scan.report == report_of(scan_steps(xml@)),
{
    let mut items: Vec<PayloadItem> = Vec::new();
    let mut malformed = false;
    let mut unread_instant = false;
    let mut reader = open_reader(xml);
    let limit: u64 = xml.as_bytes().len() as u64;
    let mut position: u64 = 0;
    let mut open = true;
    let ghost mut steps: Seq<ScanStep> = Seq::empty();
    proof {
        assert(item_views(items@) =~= items_of(steps));
        assert(steps + scan_steps(xml@) =~= scan_steps(xml@));
    }
    while open && position < limit
        invariant
            position <= limit,
            limit == encode_utf8(xml@).len(),
            reader_source(reader) == xml@,
            item_views(items@) == items_of(steps),
            malformed == report_of(steps).malformed,
            unread_instant == report_of(steps).unread_instant,
            open ==> scan_steps(xml@) == steps + scan_from(
                xml@,
                reader_calls(reader),
                position as int,
            ),
            !open ==> scan_steps(xml@) == steps,
        decreases limit - position + (if open { 1int } else { 0int }),
    {
        let ghost calls = reader_calls(reader);
        let ghost before = item_views(items@);
        let ghost earlier = steps;
        let ghost mut given: Option<Seq<char>> = None;
        let event = next_event(&mut reader);
        let ghost seen = event@;
        match decide(&event) {
            Decision::Stop => {
                open = false;
            },
            Decision::Pass => {},
            Decision::Fault => {
                malformed = true;
            },
            Decision::Open => {
                items.push(PayloadItem::Open);
            },
            Decision::Close => {
                items.push(PayloadItem::Close);
            },
            Decision::ReadField(element) => {
                match event {
                    XmlEvent::Start(name) => {
                        match read_inner(&mut reader, name.as_str()) {
                            None => {
                                malformed = true;
                            },
                            Some(text) => {
                                proof {
                                    given = Some(text@);
                                }
                                if let Some(item) = make_field_item(element, text) {
                                    if is_unread_instant(&item) {
                                        unread_instant = true;
                                    }
                                    items.push(item);
                                }
                            },
                        }
                    },
                    _ => {},
                }
            },
        }
        let reached = bytes_read(&reader);
        proof {
            let step = ScanStep { event: seen, text: given };
            steps = earlier.push(step);
            assert(given == text_after_event(xml@, calls, seen));
            assert(reader_calls(reader) == calls_after_event(calls, seen));
            assert(steps.drop_last() =~= earlier);
            assert(steps.last() == step);
            match step_item(step) {
                Some(item) => {
                    assert(item_views(items@) =~= before.push(item));
                },
                None => {
                    assert(item_views(items@) =~= before);
                },
            }
            lemma_report_grows(earlier, step);
            let rest = scan_from(xml@, calls, position as int);
            if step_ends(step) || reached <= position || reached > limit {
                assert(rest == seq![step]);
                assert(earlier + seq![step] =~= steps);
            } else {
                let further = scan_from(xml@, reader_calls(reader), reached as int);
                assert(rest == seq![step] + further);
                assert(earlier + (seq![step] + further) =~= steps + further);
            }
        }
        if reached <= position || reached > limit {
            open = false;
        } else {
            position = reached;
        }
    }
    proof {
        if open {
            assert(scan_from(xml@, reader_calls(reader), position as int) =~= Seq::<
                ScanStep,
            >::empty());
            assert(steps + Seq::<ScanStep>::empty() =~= steps);
        }
    }
    PayloadScan { items, report: PayloadReport { malformed, unread_instant } }
}

/// Whether an item is an end of the interval whose text was no instant.
pub fn is_unread_instant(item: &PayloadItem) -> (unread: bool)
    ensures
        unread == (item@ == PayloadItemView::ValidStart(None) || item@
            == PayloadItemView::ValidEnd(None)),
{
    match item {
        PayloadItem::ValidStart(None) => true,
        PayloadItem::ValidEnd(None) => true,
        _ => false,
    }
}

/// The report on a scan with one more step tells of a fault or of an unread
/// instant where the report before did or the step does.
proof fn lemma_report_grows(steps: Seq<ScanStep>, step: ScanStep)
    ensures
        report_of(steps.push(step)).malformed == (report_of(steps).malformed || step_faults(
            step,
        )),
        report_of(steps.push(step)).unread_instant == (report_of(steps).unread_instant
            || step_unread_instant(step)),
{
    let longer = steps.push(step);
    assert(longer[steps.len() as int] == step);
    if report_of(steps).malformed {
        let i = choose|i: int| 0 <= i < steps.len() && step_faults(#[trigger] steps[i]);
        assert(step_faults(longer[i]));
    }
    if report_of(longer).malformed && !step_faults(step) {
        let i = choose|i: int| 0 <= i < longer.len() && step_faults(#[trigger] longer[i]);
        assert(step_faults(steps[i]));
    }
    if report_of(steps).unread_instant {
        let i = choose|i: int| 0 <= i < steps.len() && step_unread_instant(#[trigger] steps[i]);
        assert(step_unread_instant(longer[i]));
    }
    if report_of(longer).unread_instant && !step_unread_instant(step) {
        let i = choose|i: int| 0 <= i < longer.len() && step_unread_instant(#[trigger] longer[i]);
        assert(step_unread_instant(steps[i]));
    }
}

/// Appends to `buf` the readings of a payload, each with the snapshot's
/// `ts_downloaded`, and reports malformed places and unread instants. What
/// was in `buf` stays.
pub fn extract_xml_streaming(xml: &str, ts_downloaded: i64, buf: &mut Vec<RawObservation>) -> (report:
    PayloadReport)
    ensures
        views(final(buf)@) == views(old(buf)@) + payload_readings(xml@, ts_downloaded),
        report == report_of(scan_steps(xml@)),
        final(buf)@.len() >= old(buf)@.len(),
        forall|i: int| 0 <= i < old(buf)@.len() ==> (#[trigger] final(buf)@[i])@ == old(buf)@[i]@,
        forall|i: int|
            old(buf)@.len() <= i < final(buf)@.len() ==> (#[trigger] final(buf)@[i])@.download_time
                == ts_downloaded,
{
    let ghost before = views(buf@);
    let scan = scan_payload(xml);
    let ghost said = item_views(scan.items@);
    collect_readings(scan.items, ts_downloaded, buf);
    proof {
        law_readings_carry_download_time(said, ts_downloaded);
        let added = readings_of(said, ts_downloaded);
        assert(views(buf@).len() == before.len() + added.len());
        assert forall|i: int| 0 <= i < before.len() implies (#[trigger] buf@[i])@ == old(buf)@[i]@ by {
            assert(views(buf@)[i] == before[i]);
        }
        assert forall|i: int| before.len() <= i < buf@.len() implies (#[trigger] buf@[i])@.download_time
            == ts_downloaded by {
            assert(views(buf@)[i] == added[i - before.len()]);
        }
    }
    scan.report
}

/// The text of a measurement of a reading, `None` where the reading has none.
pub open spec fn measurement_of(reading: ObservationView, measured: Measured) -> Option<Seq<char>> {
    match measured {
        Measured::PrecipitationSum10min => reading.precipitation_sum_10min,
        Measured::PrecipitationSum1h => reading.precipitation_sum_1h,
        Measured::PrecipitationSum12h => reading.precipitation_sum_12h,
        Measured::PrecipitationSum24h => reading.precipitation_sum_24h,
        Measured::TemperatureAirAvg => reading.temperature_air_avg,
    }
}

/// A measurement that the payload gives is present in the reading with the
/// text that the payload gave, whatever the text says; a blank reading has
/// no measurement; and no other item touches a measurement.
pub proof fn law_measurement_present_or_absent(
    current: ObservationView,
    item: PayloadItemView,
    measured: Measured,
    download_time: i64,
)
    ensures
        measurement_of(ObservationView::blank(download_time), measured) is None,
        match item {
            PayloadItemView::Measurement(given, text) => measurement_of(
                after_item(current, item, download_time),
                measured,
            ) == if given == measured {
                Some(text)
            } else {
                measurement_of(current, measured)
            },
            PayloadItemView::Open => measurement_of(
                after_item(current, item, download_time),
                measured,
            ) is None,
            PayloadItemView::Close => measurement_of(
                after_item(current, item, download_time),
                measured,
            ) is None,
            _ => measurement_of(after_item(current, item, download_time), measured)
                == measurement_of(current, measured),
        },
{
}

/// Every reading that the items complete carries the snapshot's download time.
pub proof fn law_readings_carry_download_time(items: Seq<PayloadItemView>, download_time: i64)
    ensures
        in_progress(items, download_time).download_time == download_time,
        forall|i: int|
            0 <= i < readings_of(items, download_time).len() ==> (#[trigger] readings_of(
                items,
                download_time,
            )[i]).download_time == download_time,
    decreases items.len(),
{
    if items.len() > 0 {
        law_readings_carry_download_time(items.drop_last(), download_time);
    }
}

} // verus!
