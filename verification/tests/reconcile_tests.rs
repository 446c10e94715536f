use meteo_archive::observation::RawObservation;
use meteo_archive::reconcile::{merge, reconcile, supersedes, Reconciler};
use meteo_archive::sequence::{order_by_interval_end, sequence};

fn reading(station: &str, interval_end: Option<i64>, download_time: i64, rain: Option<&str>) -> RawObservation {
    let mut made = RawObservation::blank(download_time);
    made.station_code = station.to_string();
    made.interval_end = interval_end;
    made.interval_start = interval_end.map(|end| end - 3600);
    made.precipitation_sum_1h = rain.map(|text| text.to_string());
    made
}

fn summary(readings: &Vec<RawObservation>) -> Vec<(String, Option<i64>, i64, Option<String>)> {
    readings
        .iter()
        .map(|r| (r.station_code.clone(), r.interval_end, r.download_time, r.precipitation_sum_1h.clone()))
        .collect()
}

#[test]
fn blank_reading_has_nothing_but_the_download_time() {
    let made = RawObservation::blank(77);
    assert_eq!(made.station_code, "");
    assert_eq!(made.interval_end, None);
    assert_eq!(made.interval_start, None);
    assert_eq!(made.download_time, 77);
    assert_eq!(made.precipitation_sum_10min, None);
    assert_eq!(made.precipitation_sum_1h, None);
    assert_eq!(made.precipitation_sum_12h, None);
    assert_eq!(made.precipitation_sum_24h, None);
    assert_eq!(made.temperature_air_avg, None);
}

#[test]
fn duplicate_keeps_every_field() {
    let mut made = reading("LJ", Some(7200), 9, Some("1.5"));
    made.precipitation_sum_10min = Some("0.1".to_string());
    made.precipitation_sum_12h = Some("12".to_string());
    made.precipitation_sum_24h = Some("24".to_string());
    made.temperature_air_avg = Some("-3.5".to_string());
    let copy = made.duplicate();
    assert_eq!(copy.station_code, "LJ");
    assert_eq!(copy.interval_end, Some(7200));
    assert_eq!(copy.interval_start, Some(3600));
    assert_eq!(copy.download_time, 9);
    assert_eq!(copy.precipitation_sum_10min.as_deref(), Some("0.1"));
    assert_eq!(copy.precipitation_sum_1h.as_deref(), Some("1.5"));
    assert_eq!(copy.precipitation_sum_12h.as_deref(), Some("12"));
    assert_eq!(copy.precipitation_sum_24h.as_deref(), Some("24"));
    assert_eq!(copy.temperature_air_avg.as_deref(), Some("-3.5"));
}

#[test]
fn same_key_compares_station_and_interval_end() {
    let a = reading("LJ", Some(10), 1, None);
    assert!(a.same_key(&reading("LJ", Some(10), 2, Some("3"))));
    assert!(!a.same_key(&reading("MB", Some(10), 1, None)));
    assert!(!a.same_key(&reading("LJ", Some(11), 1, None)));
    assert!(!a.same_key(&reading("LJ", None, 1, None)));
}

#[test]
fn only_a_strictly_later_snapshot_supersedes() {
    let held = reading("LJ", Some(10), 5, None);
    assert!(supersedes(&held, &reading("LJ", Some(10), 6, None)));
    assert!(!supersedes(&held, &reading("LJ", Some(10), 5, None)));
    assert!(!supersedes(&held, &reading("LJ", Some(10), 4, None)));
    assert!(supersedes(&reading("LJ", Some(10), i64::MIN, None), &reading("LJ", Some(10), i64::MAX, None)));
}

#[test]
fn merge_keeps_the_strictly_later_snapshot() {
    let kept = merge(reading("LJ", Some(10), 1, Some("old")), reading("LJ", Some(10), 2, Some("new")));
    assert_eq!(kept.precipitation_sum_1h.as_deref(), Some("new"));
    let kept = merge(reading("LJ", Some(10), 2, Some("old")), reading("LJ", Some(10), 1, Some("new")));
    assert_eq!(kept.precipitation_sum_1h.as_deref(), Some("old"));
    let kept = merge(reading("LJ", Some(10), 2, Some("old")), reading("LJ", Some(10), 2, Some("new")));
    assert_eq!(kept.precipitation_sum_1h.as_deref(), Some("old"));
}

#[test]
fn reconciling_a_reading_twice_is_reconciling_it_once() {
    let once = reconcile(vec![vec![reading("LJ", Some(10), 5, Some("1.0"))]]);
    let twice = reconcile(vec![vec![
        reading("LJ", Some(10), 5, Some("1.0")),
        reading("LJ", Some(10), 5, Some("1.0")),
    ]]);
    assert_eq!(summary(&once), summary(&twice));
    assert_eq!(summary(&once), vec![("LJ".to_string(), Some(10), 5, Some("1.0".to_string()))]);
}

#[test]
fn the_later_download_wins_in_either_order() {
    let forth = reconcile(vec![
        vec![reading("LJ", Some(10), 100, Some("1.0"))],
        vec![reading("LJ", Some(10), 200, Some("2.0"))],
    ]);
    let back = reconcile(vec![
        vec![reading("LJ", Some(10), 200, Some("2.0"))],
        vec![reading("LJ", Some(10), 100, Some("1.0"))],
    ]);
    let expected = vec![("LJ".to_string(), Some(10), 200, Some("2.0".to_string()))];
    assert_eq!(summary(&forth), expected);
    assert_eq!(summary(&back), expected);
    assert_eq!(forth[0].interval_start, Some(10 - 3600));
}

#[test]
fn equal_download_times_keep_the_first_seen() {
    let kept = reconcile(vec![vec![
        reading("LJ", Some(10), 100, Some("first")),
        reading("LJ", Some(10), 100, Some("second")),
    ]]);
    assert_eq!(summary(&kept), vec![("LJ".to_string(), Some(10), 100, Some("first".to_string()))]);
}

#[test]
fn no_two_reconciled_records_share_a_key() {
    let records = reconcile(vec![
        vec![
            reading("LJ", Some(10), 1, None),
            reading("MB", Some(10), 1, None),
            reading("LJ", Some(20), 1, None),
        ],
        vec![
            reading("LJ", Some(10), 2, None),
            reading("MB", Some(10), 0, None),
            reading("LJ", Some(20), 1, None),
            reading("KP", Some(10), 3, None),
        ],
    ]);
    assert_eq!(records.len(), 4);
    for i in 0..records.len() {
        for j in (i + 1)..records.len() {
            assert!(!records[i].same_key(&records[j]));
        }
    }
    assert_eq!(
        summary(&records),
        vec![
            ("LJ".to_string(), Some(10), 2, None),
            ("MB".to_string(), Some(10), 1, None),
            ("LJ".to_string(), Some(20), 1, None),
            ("KP".to_string(), Some(10), 3, None),
        ]
    );
}

#[test]
fn readings_without_interval_end_are_dropped() {
    let records = reconcile(vec![vec![
        reading("LJ", None, 1, Some("1")),
        reading("LJ", Some(10), 1, Some("2")),
        reading("", None, 9, None),
    ]]);
    assert_eq!(summary(&records), vec![("LJ".to_string(), Some(10), 1, Some("2".to_string()))]);
    assert_eq!(reconcile(vec![]).len(), 0);
    assert_eq!(reconcile(vec![vec![], vec![]]).len(), 0);
}

#[test]
fn reconciler_counts_one_reading_per_key() {
    let mut store = Reconciler::new();
    assert_eq!(store.len(), 0);
    store.insert(reading("LJ", Some(10), 1, None));
    store.insert(reading("LJ", Some(10), 2, None));
    store.insert(reading("LJ", None, 3, None));
    store.insert(reading("MB", Some(10), 1, None));
    assert_eq!(store.len(), 2);
    let records = store.into_records();
    assert_eq!(
        summary(&records),
        vec![("LJ".to_string(), Some(10), 2, None), ("MB".to_string(), Some(10), 1, None)]
    );
}

#[test]
fn sequence_is_non_decreasing_in_interval_end() {
    let records = vec![
        reading("A", Some(30), 1, None),
        reading("B", Some(10), 1, None),
        reading("C", Some(20), 1, None),
        reading("D", Some(10), 1, None),
        reading("E", Some(-5), 1, None),
        reading("F", Some(30), 1, None),
        reading("G", Some(20), 1, None),
    ];
    let ordered = sequence(&records);
    assert_eq!(ordered.len(), records.len());
    for pair in ordered.windows(2) {
        assert!(pair[0].interval_end <= pair[1].interval_end);
    }
    let names: Vec<&str> = ordered.iter().map(|r| r.station_code.as_str()).collect();
    assert_eq!(names, vec!["E", "B", "D", "C", "G", "A", "F"]);
}

#[test]
fn sequence_puts_a_reading_without_interval_end_first() {
    let records = vec![
        reading("A", Some(i64::MIN), 1, None),
        reading("B", None, 1, None),
        reading("C", Some(i64::MAX), 1, None),
        reading("D", None, 1, None),
    ];
    assert_eq!(order_by_interval_end(&records), vec![1, 3, 0, 2]);
    assert_eq!(order_by_interval_end(&vec![]), Vec::<usize>::new());
    assert_eq!(sequence(&vec![]).len(), 0);
    let one = vec![reading("A", Some(1), 1, None)];
    assert_eq!(order_by_interval_end(&one), vec![0]);
}

#[test]
fn sequence_of_a_longer_stream_is_the_stable_order() {
    let mut records = Vec::new();
    for i in 0..200i64 {
        records.push(reading(&format!("S{}", i), Some((i * 37) % 11), 1, None));
    }
    let order = order_by_interval_end(&records);
    let mut expected: Vec<usize> = (0..records.len()).collect();
    expected.sort_by_key(|&i| records[i].interval_end);
    assert_eq!(order, expected);
}

#[test]
fn reconciled_records_stand_in_the_order_their_keys_were_first_seen() {
    let batches = || {
        vec![
            vec![reading("C", Some(10), 1, None), reading("A", Some(10), 1, None)],
            vec![reading("B", Some(10), 1, None), reading("C", Some(10), 9, Some("late"))],
            vec![reading("A", Some(5), 1, None)],
        ]
    };
    let first = reconcile(batches());
    let second = reconcile(batches());
    assert_eq!(summary(&first), summary(&second));
    assert_eq!(
        summary(&first),
        vec![
            ("C".to_string(), Some(10), 9, Some("late".to_string())),
            ("A".to_string(), Some(10), 1, None),
            ("B".to_string(), Some(10), 1, None),
            ("A".to_string(), Some(5), 1, None),
        ]
    );
    let ordered = sequence(&first);
    let names: Vec<&str> = ordered.iter().map(|r| r.station_code.as_str()).collect();
    assert_eq!(names, vec!["A", "C", "A", "B"]);
}
