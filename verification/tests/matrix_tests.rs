use meteo_archive::matrix::{
    build_matrices, column_of, count_hours, little_endian_bytes, row_of, DenseMatrixDescriptor,
    MatrixError, MatrixRecord, MISSING, SECONDS_PER_HOUR,
};

const START: i64 = 1_704_067_200;

fn record(station: &str, interval_end: i64, rain: Option<f32>, warmth: Option<f32>) -> MatrixRecord {
    MatrixRecord {
        station_code: station.to_string(),
        interval_end,
        precipitation_sum_1h: rain.map(f32::to_bits),
        temperature_air_avg: warmth.map(f32::to_bits),
    }
}

fn stations(codes: &[&str]) -> Vec<String> {
    codes.iter().map(|code| code.to_string()).collect()
}

#[test]
fn missing_is_not_a_number_and_not_zero() {
    assert!(f32::from_bits(MISSING).is_nan());
    assert_eq!(MISSING, f32::NAN.to_bits());
    assert_ne!(MISSING, 0.0f32.to_bits());
    assert_eq!(0.0f32.to_bits(), 0);
    assert_eq!(SECONDS_PER_HOUR, 3600);
}

#[test]
fn whole_hours_are_rounded_to_the_nearest() {
    assert_eq!(count_hours(START, START + 3 * 3600), 3);
    assert_eq!(count_hours(0, 0), 0);
    assert_eq!(count_hours(10, 5), 0);
    assert_eq!(count_hours(0, 1799), 0);
    assert_eq!(count_hours(0, 1800), 1);
    assert_eq!(count_hours(0, 5399), 1);
    assert_eq!(count_hours(0, 5400), 2);
    assert_eq!(count_hours(i64::MIN, i64::MAX), 5_124_095_576_030_431);
}

#[test]
fn descriptor_counts_rows_and_refuses_too_many_stations() {
    let made = DenseMatrixDescriptor::new(stations(&["A", "B"]), START, START + 3 * 3600, 128).unwrap();
    assert_eq!(made.row_count, 3);
    assert_eq!(made.column_count, 128);
    assert_eq!(made.range_start, START);
    assert_eq!(made.range_end, START + 3 * 3600);
    assert_eq!(made.stations, stations(&["A", "B"]));
    assert!(DenseMatrixDescriptor::new(stations(&["A", "B"]), 0, 3600, 1).is_none());
    assert!(DenseMatrixDescriptor::new(stations(&["A", "B"]), 0, 3600, 2).is_some());
    assert!(DenseMatrixDescriptor::new(stations(&[]), i64::MIN, i64::MAX, usize::MAX).is_none());
}

#[test]
fn column_is_the_first_place_of_the_station() {
    let list = stations(&["A", "B", "A", "C"]);
    assert_eq!(column_of(&list, &"A".to_string()), Some(0));
    assert_eq!(column_of(&list, &"B".to_string()), Some(1));
    assert_eq!(column_of(&list, &"C".to_string()), Some(3));
    assert_eq!(column_of(&list, &"D".to_string()), None);
    assert_eq!(column_of(&stations(&[]), &"A".to_string()), None);
}

#[test]
fn row_is_the_floor_of_the_hours_since_the_start() {
    assert_eq!(row_of(START, 3, START), Some(0));
    assert_eq!(row_of(START, 3, START + 3599), Some(0));
    assert_eq!(row_of(START, 3, START + 3600), Some(1));
    assert_eq!(row_of(START, 3, START + 3 * 3600 - 1), Some(2));
    assert_eq!(row_of(START, 3, START + 3 * 3600), None);
    assert_eq!(row_of(START, 3, START - 1), None);
    assert_eq!(row_of(START, 3, START - 3600), None);
    assert_eq!(row_of(i64::MAX, 3, i64::MIN), None);
    assert_eq!(row_of(i64::MIN, usize::MAX, i64::MIN + 7200), Some(2));
    assert_eq!(row_of(START, 0, START), None);
}

#[test]
fn dense_mapping_places_a_record_by_hour_and_station() {
    let descriptor = DenseMatrixDescriptor::new(stations(&["A", "B"]), START, START + 3 * 3600, 2).unwrap();
    assert_eq!(descriptor.row_count, 3);
    let records = vec![
        record("A", START + 3600, Some(5.0), None),
        record("A", START + 4 * 3600, Some(9.0), Some(9.0)),
    ];
    let built = build_matrices(&descriptor, &records).unwrap();
    assert_eq!(built.precipitation.len(), 6);
    assert_eq!(built.temperature.len(), 6);
    for (place, cell) in built.precipitation.iter().enumerate() {
        if place == 1 * 2 + 0 {
            assert_eq!(f32::from_bits(*cell), 5.0);
        } else {
            assert_eq!(*cell, MISSING);
            assert!(f32::from_bits(*cell).is_nan());
        }
    }
    for cell in built.temperature.iter() {
        assert_eq!(*cell, MISSING);
    }
}

#[test]
fn a_zero_measurement_is_written_and_differs_from_a_missing_one() {
    let descriptor = DenseMatrixDescriptor::new(stations(&["A", "B"]), START, START + 2 * 3600, 3).unwrap();
    let records = vec![record("B", START, Some(0.0), None), record("A", START + 3600, None, Some(-1.5))];
    let built = build_matrices(&descriptor, &records).unwrap();
    assert_eq!(built.precipitation, vec![MISSING, 0, MISSING, MISSING, MISSING, MISSING]);
    assert_eq!(
        built.temperature,
        vec![MISSING, MISSING, MISSING, (-1.5f32).to_bits(), MISSING, MISSING]
    );
}

#[test]
fn the_last_write_to_a_cell_stays() {
    let descriptor = DenseMatrixDescriptor::new(stations(&["A"]), START, START + 3600, 1).unwrap();
    let records = vec![
        record("A", START + 10, Some(1.0), Some(10.0)),
        record("A", START + 20, Some(2.0), None),
    ];
    let built = build_matrices(&descriptor, &records).unwrap();
    assert_eq!(built.precipitation, vec![2.0f32.to_bits()]);
    assert_eq!(built.temperature, vec![10.0f32.to_bits()]);
}

#[test]
fn an_unknown_station_ends_the_build() {
    let descriptor = DenseMatrixDescriptor::new(stations(&["A", "B"]), START, START + 3 * 3600, 2).unwrap();
    let records = vec![
        record("A", START, Some(1.0), None),
        record("C", START + 3600, Some(2.0), None),
        record("D", START + 3600, Some(2.0), None),
    ];
    assert_eq!(build_matrices(&descriptor, &records).unwrap_err(), MatrixError::UnknownStation { record: 1 });
    let outside = vec![record("C", START + 100 * 3600, Some(2.0), None)];
    assert_eq!(build_matrices(&descriptor, &outside).unwrap_err(), MatrixError::UnknownStation { record: 0 });
}

#[test]
fn an_empty_stream_gives_matrices_of_missing_cells() {
    let descriptor = DenseMatrixDescriptor::new(stations(&["A"]), START, START + 2 * 3600, 4).unwrap();
    let built = build_matrices(&descriptor, &vec![]).unwrap();
    assert_eq!(built.precipitation, vec![MISSING; 8]);
    assert_eq!(built.temperature, vec![MISSING; 8]);
    let empty = DenseMatrixDescriptor::new(stations(&[]), START, START, 0).unwrap();
    let built = build_matrices(&empty, &vec![]).unwrap();
    assert_eq!(built.precipitation.len(), 0);
}

#[test]
fn cells_are_dumped_least_significant_byte_first() {
    assert_eq!(little_endian_bytes(&vec![0x0102_0304, 0, u32::MAX]), vec![4, 3, 2, 1, 0, 0, 0, 0, 255, 255, 255, 255]);
    assert_eq!(little_endian_bytes(&vec![]), Vec::<u8>::new());
    let cells = vec![5.0f32.to_bits(), MISSING, (-0.25f32).to_bits()];
    let mut expected = Vec::new();
    for number in [5.0f32, f32::NAN, -0.25f32] {
        expected.extend_from_slice(&number.to_le_bytes());
    }
    assert_eq!(little_endian_bytes(&cells), expected);
}
