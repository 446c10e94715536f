//! Dense hourly matrices: one row for each hour of a range, one column for
//! each station, one matrix for each tracked quantity.

use vstd::prelude::*;

verus! {

/// The cell of which no reading tells: the bits of the quiet not-a-number of
/// IEEE 754 single precision. Every other cell holds the bits of a number of
/// that format; the bits of zero are `0`.
pub const MISSING: u32 = 0x7FC0_0000;

/// The number of seconds of one row.
pub const SECONDS_PER_HOUR: i64 = 3600;

/// A tracked quantity.
#[derive(Clone, Copy, Debug, PartialEq, Eq, Structural)]
pub enum Quantity {
    Precipitation1h,
    TemperatureAirAvg,
}

/// What a [`MatrixRecord`] holds, as mathematical values.
pub struct MatrixRecordView {
    pub station_code: Seq<char>,
    pub interval_end: i64,
    pub precipitation_sum_1h: Option<u32>,
    pub temperature_air_avg: Option<u32>,
}

impl MatrixRecordView {
    /// The record's value of a quantity, if it has one.
    pub open spec fn measurement(self, quantity: Quantity) -> Option<u32> {
        match quantity {
            Quantity::Precipitation1h => self.precipitation_sum_1h,
            Quantity::TemperatureAirAvg => self.temperature_air_avg,
        }
    }
}

/// One record of the stream that a matrix is built from. A measurement is the
/// bit pattern of a single-precision number.
#[derive(Debug)]
pub struct MatrixRecord {
    pub station_code: String,
    pub interval_end: i64,
    pub precipitation_sum_1h: Option<u32>,
    pub temperature_air_avg: Option<u32>,
}

impl View for MatrixRecord {
    type V = MatrixRecordView;

    open spec fn view(&self) -> MatrixRecordView {
        MatrixRecordView {
            station_code: self.station_code@,
            interval_end: self.interval_end,
            precipitation_sum_1h: self.precipitation_sum_1h,
            temperature_air_avg: self.temperature_air_avg,
        }
    }
}

/// The values of a stream of records.
pub open spec fn record_views(records: Seq<MatrixRecord>) -> Seq<MatrixRecordView> {
    records.map_values(|record: MatrixRecord| record@)
}

/// The codes of a list of stations.
pub open spec fn codes(stations: Seq<String>) -> Seq<Seq<char>> {
    stations.map_values(|station: String| station@)
}

/// The number of whole hours from `range_start` to `range_end`, rounded to the
/// nearest, a half upwards; none where the range is empty or reversed.
pub open spec fn whole_hours(range_start: i64, range_end: i64) -> int {
    if range_end <= range_start {
        0
    } else {
        (range_end - range_start + 1800) / 3600
    }
}

/// The row of an instant: the number of full hours from `range_start` to it,
/// negative before the range.
pub open spec fn hour_offset(range_start: i64, instant: i64) -> int {
    (instant - range_start) / 3600
}

/// Whether `column` is the first place of `code` in the list of stations.
pub open spec fn is_column(stations: Seq<Seq<char>>, code: Seq<char>, column: int) -> bool {
    &&& 0 <= column < stations.len()
    &&& stations[column] == code
    &&& forall|before: int| 0 <= before < column ==> stations[before] != code
}

/// Whether a station's code is in the list.
pub open spec fn known(stations: Seq<Seq<char>>, code: Seq<char>) -> bool {
    exists|column: int| 0 <= column < stations.len() && stations[column] == code
}

/// Metadata of a dense dump.
#[derive(Debug)]
pub struct DenseMatrixDescriptor {
    /// The stations, in column order.
    pub stations: Vec<String>,
    pub range_start: i64,
    pub range_end: i64,
    /// The configured width of a row, a ceiling on the number of stations.
    pub column_count: usize,
    pub row_count: usize,
}

impl DenseMatrixDescriptor {
    /// A descriptor is well formed where every station has a column, the rows
    /// are the whole hours of the range, and the cells can be counted.
    pub open spec fn wf(&self) -> bool {
        &&& self.stations.len() <= self.column_count
        &&& self.row_count == whole_hours(self.range_start, self.range_end)
        &&& self.row_count * self.column_count <= usize::MAX
    }

    /// Whether the record writes to the cell at `row` and `column`.
    pub open spec fn lands(&self, record: MatrixRecordView, row: int, column: int) -> bool {
        &&& is_column(codes(self.stations@), record.station_code, column)
        &&& row == hour_offset(self.range_start, record.interval_end)
    }

    /// The value of a cell after the records were written in turn: that of the
    /// last record that lands there with a value for the quantity, else
    /// [`MISSING`].
    pub open spec fn cell(
        &self,
        records: Seq<MatrixRecordView>,
        quantity: Quantity,
        row: int,
        column: int,
    ) -> u32
        decreases records.len(),
    {
        if records.len() == 0 {
            MISSING
        } else if self.lands(records.last(), row, column) && records.last().measurement(quantity)
            is Some {
            records.last().measurement(quantity).unwrap()
        } else {
            self.cell(records.drop_last(), quantity, row, column)
        }
    }

    /// Whether `cells` is the row-major matrix of a quantity for the records.
    pub open spec fn is_matrix(
        &self,
        cells: Seq<u32>,
        records: Seq<MatrixRecordView>,
        quantity: Quantity,
    ) -> bool {
        &&& cells.len() == self.row_count * self.column_count
        &&& forall|row: int, column: int|
            0 <= row < self.row_count && 0 <= column < self.column_count ==> #[trigger] cells[row
                * self.column_count + column] == self.cell(records, quantity, row, column)
    }

    /// The descriptor of a dump of `stations` over the closed range from
    /// `range_start` to `range_end`, with rows of `column_count` cells; `None`
    /// where the stations outnumber the columns, or the rows or the cells
    /// cannot be counted.
    pub fn new(stations: Vec<String>, range_start: i64, range_end: i64, column_count: usize) -> (made:
        Option<DenseMatrixDescriptor>)
        ensures
            made is Some <==> stations.len() <= column_count && whole_hours(range_start, range_end)
                <= usize::MAX && whole_hours(range_start, range_end) * column_count <= usize::MAX,
            match made {
                Some(descriptor) => descriptor.wf() && descriptor.stations == stations
                    && descriptor.range_start == range_start && descriptor.range_end == range_end
                    && descriptor.column_count == column_count,
                None => true,
            },
    {
        if stations.len() > column_count {
            return None;
        }
        let hours = count_hours(range_start, range_end);
        proof {
            assert(hours * column_count >= 0) by (nonlinear_arith)
                requires
                    hours >= 0,
                    column_count >= 0,
            ;
            assert(hours <= u64::MAX && column_count <= u64::MAX);
            assert(hours * column_count <= 0xFFFF_FFFF_FFFF_FFFF * 0xFFFF_FFFF_FFFF_FFFF)
                by (nonlinear_arith)
                requires
                    0 <= hours <= 0xFFFF_FFFF_FFFF_FFFF,
                    0 <= column_count <= 0xFFFF_FFFF_FFFF_FFFF,
            ;
        }
        let cells: u128 = (hours as u128) * (column_count as u128);
        if cells > usize::MAX as u128 {
            return None;
        }
        if hours > usize::MAX as u64 {
            return None;
        }
        Some(
            DenseMatrixDescriptor {
                stations,
                range_start,
                range_end,
                column_count,
                row_count: hours as usize,
            },
        )
    }
}

/// Counts the whole hours of a range.
pub fn count_hours(range_start: i64, range_end: i64) -> (hours: u64)
    ensures
        hours == whole_hours(range_start, range_end),
{
    if range_end <= range_start {
        0
    } else {
        let span: i128 = range_end as i128 - range_start as i128 + 1800;
        (span / 3600) as u64
    }
}

/// Why a build was given up.
#[derive(Clone, Copy, Debug, PartialEq, Eq, Structural)]
pub enum MatrixError {
    /// The record at this place of the stream names a station that is not in
    /// the list of stations.
    UnknownStation { record: usize },
}

/// One quantity's values, row-major: the cell of row `r` and column `c` is at
/// `r * column_count + c` and holds the bit pattern of a single-precision
/// number, or [`MISSING`].
pub type DenseMatrix = Vec<u32>;

/// The matrices of the tracked quantities.
#[derive(Debug)]
pub struct DenseMatrices {
    pub precipitation: DenseMatrix,
    pub temperature: DenseMatrix,
}

/// The first place of `code` in the list of stations.
pub fn column_of(stations: &Vec<String>, code: &String) -> (found: Option<usize>)
    ensures
        match found {
            Some(column) => is_column(codes(stations@), code@, column as int),
            None => !known(codes(stations@), code@),
        },
{
    let mut at: usize = 0;
    while at < stations.len()
        invariant
            at <= stations.len(),
            forall|before: int| 0 <= before < at ==> codes(stations@)[before] != code@,
        decreases stations.len() - at,
    {
        if stations[at] == *code {
            return Some(at);
        }
        at += 1;
    }
    None
}

/// The row of an instant, where it lies within `row_count` hours from
/// `range_start`.
pub fn row_of(range_start: i64, row_count: usize, instant: i64) -> (found: Option<usize>)
    ensures
        match found {
            Some(row) => row == hour_offset(range_start, instant) && row < row_count,
            None => !(0 <= hour_offset(range_start, instant) < row_count),
        },
{
    if instant < range_start {
        return None;
    }
    let hours: i128 = (instant as i128 - range_start as i128) / 3600;
    if hours >= row_count as i128 {
        return None;
    }
    Some(hours as usize)
}

/// A matrix of `size` cells that all hold [`MISSING`].
fn unobserved(size: usize) -> (cells: Vec<u32>)
    ensures
        cells.len() == size,
        forall|i: int| 0 <= i < size ==> cells[i] == MISSING,
{
    let mut cells: Vec<u32> = Vec::with_capacity(size);
    while cells.len() < size
        invariant
            cells.len() <= size,
            forall|i: int| 0 <= i < cells.len() ==> cells[i] == MISSING,
        decreases size - cells.len(),
    {
        cells.push(MISSING);
    }
    cells
}

/// The place of a cell in a row-major matrix; two cells share none.
proof fn lemma_flat_index(row: int, column: int, rows: int, columns: int)
    requires
        0 <= row < rows,
        0 <= column < columns,
    ensures
        0 <= row * columns + column < rows * columns,
        forall|other_row: int, other_column: int|
            0 <= other_row && 0 <= other_column < columns && #[trigger] (other_row * columns
                + other_column) == row * columns + column ==> other_row == row && other_column
                == column,
{
    assert(0 <= row * columns + column < rows * columns) by (nonlinear_arith)
        requires
            0 <= row < rows,
            0 <= column < columns,
    ;
    assert forall|other_row: int, other_column: int|
        0 <= other_row && 0 <= other_column < columns && #[trigger] (other_row * columns
            + other_column) == row * columns + column implies other_row == row && other_column
        == column by {
        assert(other_row == row) by (nonlinear_arith)
            requires
                0 <= other_row,
                0 <= row,
                0 <= other_column < columns,
                0 <= column < columns,
                other_row * columns + other_column == row * columns + column,
        ;
        assert(other_row * columns == row * columns);
    }
}

/// Builds the matrices of the tracked quantities in one pass over the records.
///
/// A record of a station that is not in the list ends the build: the error
/// names the first such record. A record of a known station whose row lies
/// outside the range writes nothing. A measurement that the record lacks
/// writes nothing; where two records write to one cell, the later one stays.
pub fn build_matrices(descriptor: &DenseMatrixDescriptor, records: &Vec<MatrixRecord>) -> (built:
    Result<DenseMatrices, MatrixError>)
    requires
        descriptor.wf(),
    ensures
        match built {
            Ok(matrices) => {
                &&& forall|i: int|
                    0 <= i < records.len() ==> known(
                        codes(descriptor.stations@),
                        (#[trigger] records[i]).station_code@,
                    )
                &&& descriptor.is_matrix(
                    matrices.precipitation@,
                    record_views(records@),
                    Quantity::Precipitation1h,
                )
                &&& descriptor.is_matrix(
                    matrices.temperature@,
                    record_views(records@),
                    Quantity::TemperatureAirAvg,
                )
            },
            Err(MatrixError::UnknownStation { record }) => {
                &&& record < records.len()
                &&& !known(codes(descriptor.stations@), records[record as int].station_code@)
                &&& forall|i: int|
                    0 <= i < record ==> known(
                        codes(descriptor.stations@),
                        (#[trigger] records[i]).station_code@,
                    )
            },
        },
{
    let rows = descriptor.row_count;
    let columns = descriptor.column_count;
    let size = rows * columns;
    let mut precipitation = unobserved(size);
    let mut temperature = unobserved(size);
    let ghost stream = record_views(records@);
    let mut at: usize = 0;
    proof {
        assert(stream.take(0) =~= Seq::<MatrixRecordView>::empty());
        assert forall|r: int, c: int| 0 <= r < rows && 0 <= c < columns implies #[trigger] precipitation@[r
            * columns + c] == MISSING by {
            lemma_flat_index(r, c, rows as int, columns as int);
        }
        assert forall|r: int, c: int| 0 <= r < rows && 0 <= c < columns implies #[trigger] temperature@[r
            * columns + c] == MISSING by {
            lemma_flat_index(r, c, rows as int, columns as int);
        }
    }
    while at < records.len()
        invariant
            at <= records.len(),
            descriptor.wf(),
            rows == descriptor.row_count,
            columns == descriptor.column_count,
            stream == record_views(records@),
            forall|i: int|
                0 <= i < at ==> known(
                    codes(descriptor.stations@),
                    (#[trigger] records[i]).station_code@,
                ),
            descriptor.is_matrix(precipitation@, stream.take(at as int), Quantity::Precipitation1h),
            descriptor.is_matrix(temperature@, stream.take(at as int), Quantity::TemperatureAirAvg),
        decreases records.len() - at,
    {
        let record = &records[at];
        let ghost seen = stream.take(at as int);
        let ghost next = stream.take(at + 1);
        let ghost rain = precipitation@;
        let ghost warmth = temperature@;
        proof {
            assert(next.drop_last() =~= seen);
            assert(next.last() == record@);
        }
        let column = match column_of(&descriptor.stations, &record.station_code) {
            Some(column) => column,
            None => {
                return Err(MatrixError::UnknownStation { record: at });
            },
        };
        if let Some(row) = row_of(descriptor.range_start, rows, record.interval_end) {
            proof {
                lemma_flat_index(row as int, column as int, rows as int, columns as int);
            }
            let place = row * columns + column;
            if let Some(value) = record.precipitation_sum_1h {
                precipitation.set(place, value);
            }
            if let Some(value) = record.temperature_air_avg {
                temperature.set(place, value);
            }
        }
        proof {
            assert forall|r: int, c: int| 0 <= r < rows && 0 <= c < columns implies #[trigger] precipitation@[r
                * columns + c] == descriptor.cell(next, Quantity::Precipitation1h, r, c) by {
                lemma_flat_index(r, c, rows as int, columns as int);
                assert(rain[r * columns + c] == descriptor.cell(
                    seen,
                    Quantity::Precipitation1h,
                    r,
                    c,
                ));
            }
            assert forall|r: int, c: int| 0 <= r < rows && 0 <= c < columns implies #[trigger] temperature@[r
                * columns + c] == descriptor.cell(next, Quantity::TemperatureAirAvg, r, c) by {
                lemma_flat_index(r, c, rows as int, columns as int);
                assert(warmth[r * columns + c] == descriptor.cell(
                    seen,
                    Quantity::TemperatureAirAvg,
                    r,
                    c,
                ));
            }
        }
        at += 1;
    }
    proof {
        assert(stream.take(at as int) =~= stream);
    }
    Ok(DenseMatrices { precipitation, temperature })
}

/// The byte at place `at` (0 to 3) of a cell written with the least
/// significant byte first.
pub open spec fn little_endian_byte(cell: u32, at: int) -> u8 {
    if at == 0 {
        (cell % 256) as u8
    } else if at == 1 {
        ((cell / 256) % 256) as u8
    } else if at == 2 {
        ((cell / 65536) % 256) as u8
    } else {
        (cell / 16777216) as u8
    }
}

/// The bytes of a matrix as they stand in a dump: cell after cell, each as
/// four bytes, the least significant first.
pub fn little_endian_bytes(cells: &Vec<u32>) -> (bytes: Vec<u8>)
    ensures
        bytes.len() == 4 * cells.len(),
        forall|i: int, at: int|
            0 <= i < cells.len() && 0 <= at < 4 ==> #[trigger] bytes[4 * i + at]
                == little_endian_byte(cells[i], at),
{
    let mut bytes: Vec<u8> = Vec::new();
    let mut done: usize = 0;
    while done < cells.len()
        invariant
            done <= cells.len(),
            bytes.len() == 4 * done,
            forall|i: int, at: int|
                0 <= i < done && 0 <= at < 4 ==> #[trigger] bytes[4 * i + at] == little_endian_byte(
                    cells[i],
                    at,
                ),
        decreases cells.len() - done,
    {
        let cell = cells[done];
        let ghost before = bytes@;
        bytes.push((cell % 256) as u8);
        bytes.push(((cell / 256) % 256) as u8);
        bytes.push(((cell / 65536) % 256) as u8);
        bytes.push((cell / 16777216) as u8);
        proof {
            assert forall|i: int, at: int| 0 <= i < done + 1 && 0 <= at < 4 implies #[trigger] bytes[4
                * i + at] == little_endian_byte(cells[i], at) by {
                if i < done {
                    assert(bytes[4 * i + at] == before[4 * i + at]);
                }
            }
        }
        done += 1;
    }
    bytes
}

/// A cell to which no record writes holds [`MISSING`], which is not the bit
/// pattern of zero.
pub proof fn law_unwritten_cell_is_missing(
    descriptor: DenseMatrixDescriptor,
    records: Seq<MatrixRecordView>,
    quantity: Quantity,
    row: int,
    column: int,
)
    requires
        forall|i: int|
            0 <= i < records.len() ==> !(descriptor.lands(#[trigger] records[i], row, column)
                && records[i].measurement(quantity) is Some),
    ensures
        descriptor.cell(records, quantity, row, column) == MISSING,
        MISSING != 0,
    decreases records.len(),
{
    if records.len() > 0 {
        assert(!(descriptor.lands(records[records.len() - 1], row, column) && records[records.len()
            - 1].measurement(quantity) is Some));
        assert forall|i: int| 0 <= i < records.drop_last().len() implies !(descriptor.lands(
            #[trigger] records.drop_last()[i],
            row,
            column,
        ) && records.drop_last()[i].measurement(quantity) is Some) by {
            assert(records.drop_last()[i] == records[i]);
        }
        law_unwritten_cell_is_missing(descriptor, records.drop_last(), quantity, row, column);
    }
}

/// A cell holds the value of the last record that writes to it.
pub proof fn law_last_write_stays(
    descriptor: DenseMatrixDescriptor,
    records: Seq<MatrixRecordView>,
    quantity: Quantity,
    row: int,
    column: int,
    last: int,
)
    requires
        0 <= last < records.len(),
        descriptor.lands(records[last], row, column),
        records[last].measurement(quantity) is Some,
        forall|i: int|
            last < i < records.len() ==> !(descriptor.lands(#[trigger] records[i], row, column)
                && records[i].measurement(quantity) is Some),
    ensures
        descriptor.cell(records, quantity, row, column) == records[last].measurement(
            quantity,
        ).unwrap(),
    decreases records.len(),
{
    if last < records.len() - 1 {
        assert(!(descriptor.lands(records[records.len() - 1], row, column) && records[records.len()
            - 1].measurement(quantity) is Some));
        assert forall|i: int| last < i < records.drop_last().len() implies !(descriptor.lands(
            #[trigger] records.drop_last()[i],
            row,
            column,
        ) && records.drop_last()[i].measurement(quantity) is Some) by {
            assert(records.drop_last()[i] == records[i]);
        }
        law_last_write_stays(descriptor, records.drop_last(), quantity, row, column, last);
    }
}

/// A record writes to one cell at most, and to none outside the rows of the
/// range: its row is its hour offset and its column its station's first place.
pub proof fn law_one_cell_per_record(
    descriptor: DenseMatrixDescriptor,
    record: MatrixRecordView,
    row: int,
    column: int,
    other_row: int,
    other_column: int,
)
    requires
        descriptor.lands(record, row, column),
        descriptor.lands(record, other_row, other_column),
    ensures
        row == other_row,
        column == other_column,
        row == hour_offset(descriptor.range_start, record.interval_end),
{
    if column < other_column {
        assert(codes(descriptor.stations@)[column] == record.station_code);
    } else if other_column < column {
        assert(codes(descriptor.stations@)[other_column] == record.station_code);
    }
}

} // verus!
