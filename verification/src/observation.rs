//! One station's reading for one interval.

use vstd::prelude::*;

verus! {

/// The canonical key of a reading: the station's code and the end of the interval.
pub type Key = (Seq<char>, i64);

/// What a [`RawObservation`] holds, as mathematical values.
pub struct ObservationView {
    pub station_code: Seq<char>,
    pub interval_end: Option<i64>,
    pub interval_start: Option<i64>,
    pub download_time: i64,
    pub precipitation_sum_10min: Option<Seq<char>>,
    pub precipitation_sum_1h: Option<Seq<char>>,
    pub precipitation_sum_12h: Option<Seq<char>>,
    pub precipitation_sum_24h: Option<Seq<char>>,
    pub temperature_air_avg: Option<Seq<char>>,
}

/// One station's reading for one interval, as one archive file reports it.
///
/// A measurement is the text of its field, kept as it stands in the payload;
/// `None` says that the payload had no such field. An absent measurement is
/// never the same as one whose text reads zero.
#[derive(Debug)]
pub struct RawObservation {
    pub station_code: String,
    pub interval_end: Option<i64>,
    pub interval_start: Option<i64>,
    pub download_time: i64,
    pub precipitation_sum_10min: Option<String>,
    pub precipitation_sum_1h: Option<String>,
    pub precipitation_sum_12h: Option<String>,
    pub precipitation_sum_24h: Option<String>,
    pub temperature_air_avg: Option<String>,
}

/// The text of an optional field.
pub open spec fn text_view(field: Option<String>) -> Option<Seq<char>> {
    match field {
        Some(text) => Some(text@),
        None => None,
    }
}

impl View for RawObservation {
    type V = ObservationView;

    open spec fn view(&self) -> ObservationView {
        ObservationView {
            station_code: self.station_code@,
            interval_end: self.interval_end,
            interval_start: self.interval_start,
            download_time: self.download_time,
            precipitation_sum_10min: text_view(self.precipitation_sum_10min),
            precipitation_sum_1h: text_view(self.precipitation_sum_1h),
            precipitation_sum_12h: text_view(self.precipitation_sum_12h),
            precipitation_sum_24h: text_view(self.precipitation_sum_24h),
            temperature_air_avg: text_view(self.temperature_air_avg),
        }
    }
}

impl ObservationView {
    /// A reading of which nothing is known but the snapshot it came from.
    pub open spec fn blank(download_time: i64) -> ObservationView {
        ObservationView {
            station_code: Seq::empty(),
            interval_end: None,
            interval_start: None,
            download_time,
            precipitation_sum_10min: None,
            precipitation_sum_1h: None,
            precipitation_sum_12h: None,
            precipitation_sum_24h: None,
            temperature_air_avg: None,
        }
    }

    /// Whether the reading has a canonical key, that is, an interval end.
    pub open spec fn keyed(self) -> bool {
        self.interval_end is Some
    }

    /// The canonical key of a reading that has one.
    pub open spec fn key(self) -> Key
        recommends
            self.keyed(),
    {
        (self.station_code, self.interval_end.unwrap())
    }
}

/// A copy of an optional text.
pub fn copy_text(field: &Option<String>) -> (copy: Option<String>)
    ensures
        text_view(copy) == text_view(*field),
{
    match field {
        Some(text) => Some(text.clone()),
        None => None,
    }
}

impl RawObservation {
    /// A reading with no station, no interval and no measurement.
    pub fn blank(download_time: i64) -> (reading: RawObservation)
        ensures
            reading@ == ObservationView::blank(download_time),
    {
        RawObservation {
            station_code: String::new(),
            interval_end: None,
            interval_start: None,
            download_time,
            precipitation_sum_10min: None,
            precipitation_sum_1h: None,
            precipitation_sum_12h: None,
            precipitation_sum_24h: None,
            temperature_air_avg: None,
        }
    }

    /// A copy that holds the same values.
    pub fn duplicate(&self) -> (copy: RawObservation)
        ensures
            copy@ == self@,
    {
        RawObservation {
            station_code: self.station_code.clone(),
            interval_end: self.interval_end,
            interval_start: self.interval_start,
            download_time: self.download_time,
            precipitation_sum_10min: copy_text(&self.precipitation_sum_10min),
            precipitation_sum_1h: copy_text(&self.precipitation_sum_1h),
            precipitation_sum_12h: copy_text(&self.precipitation_sum_12h),
            precipitation_sum_24h: copy_text(&self.precipitation_sum_24h),
            temperature_air_avg: copy_text(&self.temperature_air_avg),
        }
    }

    /// Whether two readings have the same station and the same interval end.
    pub fn same_key(&self, other: &RawObservation) -> (same: bool)
        ensures
            same == (self@.station_code == other@.station_code && self@.interval_end
                == other@.interval_end),
    {
        self.interval_end == other.interval_end && self.station_code == other.station_code
    }
}

/// The values of a list of readings.
pub open spec fn views(readings: Seq<RawObservation>) -> Seq<ObservationView> {
    readings.map_values(|reading: RawObservation| reading@)
}

} // verus!
