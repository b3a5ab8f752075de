use pi_garage_monitor::db::{classify_day, Dates, Db, Event, OutdoorReading, Reading, StoreError};
use pi_garage_monitor::double::Double;
use pi_garage_monitor::weather::Level;

fn double(value: f64) -> Double {
    Double::from_bits(value.to_bits())
}

fn float(value: Double) -> f64 {
    f64::from_bits(value.to_bits())
}

fn reading(ts: i64, temperature_c: f64) -> Reading {
    Reading {
        ts,
        temperature_c: double(temperature_c),
        humidity_pct: double(55.0),
        pressure_hpa: double(1013.2),
    }
}

fn outdoor(ts: i64, temperature_c: f64, humidity_pct: f64, dew_point_c: f64) -> OutdoorReading {
    OutdoorReading {
        ts,
        temperature_c: double(temperature_c),
        humidity_pct: double(humidity_pct),
        dew_point_c: double(dew_point_c),
        pressure_hpa: None,
    }
}

fn mean(values: &[Double]) -> f64 {
    let mut sum = 0.0;
    for value in values {
        sum += float(*value);
    }
    sum / values.len() as f64
}

/// The UTC date of a timestamp in the first days of 1970.
fn date(ts: i64) -> String {
    format!("1970-01-{:02}", ts.div_euclid(86_400) + 1)
}

fn dates(readings: &[i64], outdoor: &[i64]) -> Dates {
    Dates {
        readings: readings.iter().map(|ts| date(*ts)).collect(),
        outdoor: outdoor.iter().map(|ts| date(*ts)).collect(),
    }
}

fn dew_point(temperature_c: f64, humidity_pct: f64) -> f64 {
    let humidity = (humidity_pct / 100.0).clamp(0.001, 1.0);
    let gamma = humidity.ln() + 17.62 * temperature_c / (243.12 + temperature_c);
    243.12 * gamma / (17.62 - gamma)
}

fn spread(r: &Reading) -> Double {
    let t = float(r.temperature_c);
    double(t - dew_point(t, float(r.humidity_pct)))
}

#[test]
fn latest_returns_none_on_empty_db() {
    let db = Db::open_in_memory();
    assert_eq!(db.latest(), None);
}

#[test]
fn latest_returns_most_recent_by_timestamp() {
    let mut db = Db::open_in_memory();
    db.insert(&reading(200, 21.0)).unwrap();
    db.insert(&reading(100, 19.0)).unwrap();
    let latest = db.latest().unwrap();
    assert_eq!(latest.ts, 200);
    assert!((float(latest.temperature_c) - 21.0).abs() < f64::EPSILON);
}

#[test]
fn records_returns_none_on_empty_db() {
    let db = Db::open_in_memory();
    assert_eq!(db.records(), None);
}

#[test]
fn records_tracks_extremes_with_timestamps() {
    let mut db = Db::open_in_memory();
    db.insert(&reading(100, 19.0)).unwrap();
    db.insert(&reading(200, 32.0)).unwrap();
    db.insert(&reading(300, -22.0)).unwrap();
    let records = db.records().unwrap();
    assert_eq!(records.highest_temperature_c.ts, 200);
    assert!((float(records.highest_temperature_c.value) - 32.0).abs() < f64::EPSILON);
    assert_eq!(records.lowest_temperature_c.ts, 300);
    assert!((float(records.lowest_temperature_c.value) + 22.0).abs() < f64::EPSILON);
}

#[test]
fn daily_extremes_groups_by_local_day() {
    const DAY: i64 = 86_400;
    let mut db = Db::open_in_memory();
    db.insert(&reading(DAY / 2, 5.0)).unwrap();
    db.insert(&reading(DAY / 2 + 60, 15.0)).unwrap();
    db.insert(&reading(DAY + DAY / 2, 25.0)).unwrap();
    let days = db.daily_extremes(
        0,
        &dates(&[DAY / 2, DAY / 2 + 60, DAY + DAY / 2], &[]),
    );
    assert_eq!(days.len(), 2);
    assert!((float(days[0].min_c) - 5.0).abs() < f64::EPSILON);
    assert!((float(days[0].max_c) - 15.0).abs() < f64::EPSILON);
    assert!((float(days[1].min_c) - 25.0).abs() < f64::EPSILON);
}

#[test]
fn events_roundtrip_and_delete() {
    let mut db = Db::open_in_memory();
    let id = db.add_event(1000, "roof replaced");
    let events = db.events();
    assert_eq!(events.len(), 1);
    assert_eq!(events[0].label, "roof replaced");
    assert!(db.delete_event(id));
    assert!(!db.delete_event(id));
    assert!(db.events().is_empty());
}

#[test]
fn daily_extremes_includes_outdoor_when_present() {
    const DAY: i64 = 86_400;
    let mut db = Db::open_in_memory();
    db.insert(&reading(DAY / 2, 15.0)).unwrap();
    db.insert_outdoor(&outdoor(DAY / 2, 25.0, 50.0, 10.0)).unwrap();
    db.insert(&reading(DAY + DAY / 2, 16.0)).unwrap();
    let days = db.daily_extremes(0, &dates(&[DAY / 2, DAY + DAY / 2], &[DAY / 2]));
    assert_eq!(days.len(), 2);
    assert_eq!(days[0].outdoor_max_c, Some(double(25.0)));
    assert_eq!(days[1].outdoor_max_c, None);
}

#[test]
fn temperature_delta_joins_matching_buckets_only() {
    let mut db = Db::open_in_memory();
    db.insert(&reading(100, 15.0)).unwrap();
    db.insert(&reading(200, 17.0)).unwrap();
    db.insert_outdoor(&outdoor(150, 10.0, 70.0, 4.0)).unwrap();
    db.insert(&reading(2000, 20.0)).unwrap();

    let points = db.temperature_delta(0, 900);
    assert_eq!(points.len(), 1);
    assert_eq!(points[0].ts, 0);
    let indoor: Vec<Double> = points[0].indoor.iter().map(|r| r.temperature_c).collect();
    let outside: Vec<Double> = points[0].outdoor.iter().map(|o| o.temperature_c).collect();
    assert!((mean(&indoor) - 16.0).abs() < f64::EPSILON);
    assert!((mean(&indoor) - mean(&outside) - 6.0).abs() < f64::EPSILON);
}

#[test]
fn daily_risk_flags_saturated_and_incoming_air_days() {
    const DAY: i64 = 86_400;
    let mut db = Db::open_in_memory();
    let mut rows: Vec<Reading> = Vec::new();
    for i in 0..6 {
        rows.push(Reading {
            ts: DAY / 2 + i * 60,
            temperature_c: double(12.0),
            humidity_pct: double(99.0),
            pressure_hpa: double(1013.0),
        });
    }
    rows.push(Reading {
        ts: DAY + DAY / 2,
        temperature_c: double(10.0),
        humidity_pct: double(50.0),
        pressure_hpa: double(1013.0),
    });
    for row in &rows {
        db.insert(row).unwrap();
    }
    db.insert_outdoor(&outdoor(DAY + DAY / 2, 22.0, 80.0, 15.0)).unwrap();

    let stamps: Vec<i64> = rows.iter().map(|r| r.ts).collect();
    let spreads: Vec<Double> = rows.iter().map(spread).collect();
    let days = db.daily_risk(0, &dates(&stamps, &[DAY + DAY / 2]), &spreads);
    assert_eq!(days.len(), 2);
    assert_eq!(days[0].level, Level::Critical);
    assert_eq!(days[0].saturated_minutes, 6);
    assert_eq!(days[1].level, Level::Warning);
    assert!((float(days[1].max_outdoor_dew_point_c.unwrap()) - 15.0).abs() < f64::EPSILON);
}

#[test]
fn since_filters_and_buckets() {
    let mut db = Db::open_in_memory();
    db.insert(&reading(30, 10.0)).unwrap();
    db.insert(&reading(120, 20.0)).unwrap();
    db.insert(&reading(150, 30.0)).unwrap();
    let rows = db.since(100, 60);
    assert_eq!(rows.len(), 1);
    assert_eq!(rows[0].ts, 120);
    let values: Vec<Double> = rows[0].rows.iter().map(|r| r.temperature_c).collect();
    assert!((mean(&values) - 25.0).abs() < f64::EPSILON);
}

#[test]
fn values_that_are_not_numbers_are_refused() {
    let mut db = Db::open_in_memory();
    assert_eq!(db.insert(&reading(1, f64::NAN)), Err(StoreError::NotANumber));
    let mut damp = reading(1, 1.0);
    damp.humidity_pct = double(f64::NAN);
    assert_eq!(db.insert(&damp), Err(StoreError::NotANumber));
    let mut light = reading(1, 1.0);
    light.pressure_hpa = double(-f64::NAN);
    assert_eq!(db.insert(&light), Err(StoreError::NotANumber));
    assert_eq!(db.latest(), None);
    assert_eq!(
        db.insert_outdoor(&outdoor(1, 1.0, 2.0, f64::NAN)),
        Err(StoreError::NotANumber)
    );
    assert_eq!(db.latest_outdoor(), None);
    assert_eq!(db.insert(&reading(1, f64::INFINITY)), Ok(()));
}

#[test]
fn the_last_stored_of_equally_old_rows_is_the_latest() {
    let mut db = Db::open_in_memory();
    db.insert(&reading(100, 1.0)).unwrap();
    db.insert(&reading(100, 2.0)).unwrap();
    db.insert(&reading(50, 3.0)).unwrap();
    assert_eq!(db.latest(), Some(reading(100, 2.0)));
    db.insert_outdoor(&outdoor(7, 1.0, 1.0, 1.0)).unwrap();
    db.insert_outdoor(&outdoor(9, 2.0, 1.0, 1.0)).unwrap();
    db.insert_outdoor(&outdoor(8, 3.0, 1.0, 1.0)).unwrap();
    assert_eq!(db.latest_outdoor().map(|o| o.ts), Some(9));
}

#[test]
fn records_go_to_the_earliest_of_equal_values() {
    let mut db = Db::open_in_memory();
    for ts in [300, 100, 200] {
        db.insert(&reading(ts, 20.0)).unwrap();
    }
    let mut dry = reading(400, 20.0);
    dry.humidity_pct = double(10.0);
    db.insert(&dry).unwrap();
    let records = db.records().unwrap();
    assert_eq!(records.highest_temperature_c.ts, 100);
    assert_eq!(records.lowest_temperature_c.ts, 100);
    assert_eq!(records.highest_humidity_pct.ts, 100);
    assert_eq!(records.lowest_humidity_pct.ts, 400);
    assert_eq!(records.lowest_humidity_pct.value, double(10.0));
}

#[test]
fn records_move_outward_only() {
    let mut db = Db::open_in_memory();
    db.insert(&reading(1, 20.0)).unwrap();
    db.insert(&reading(2, 15.0)).unwrap();
    let before = db.records().unwrap();
    db.insert(&reading(3, 17.0)).unwrap();
    assert_eq!(db.records().unwrap(), before);
    db.insert(&reading(4, 21.0)).unwrap();
    let after = db.records().unwrap();
    assert_eq!(after.highest_temperature_c.ts, 4);
    assert_eq!(after.lowest_temperature_c, before.lowest_temperature_c);
}

#[test]
fn buckets_truncate_toward_zero_and_are_at_least_a_second_wide() {
    let mut db = Db::open_in_memory();
    for ts in [-61, -30, 0, 59, 60] {
        db.insert(&reading(ts, 1.0)).unwrap();
    }
    let rows = db.since(-100, 60);
    let starts: Vec<i64> = rows.iter().map(|b| b.ts).collect();
    assert_eq!(starts, vec![-60, 0, 60]);
    assert_eq!(rows[1].rows.len(), 3);
    assert_eq!(db.since(-100, 0).len(), 5);
    assert_eq!(db.since(-100, -5).len(), 5);
    assert_eq!(db.since(60, 60).len(), 1);
    assert!(db.since(61, 60).is_empty());
}

#[test]
fn outdoor_rows_are_bucketed_the_same_way() {
    let mut db = Db::open_in_memory();
    db.insert_outdoor(&outdoor(1800, 5.0, 50.0, 1.0)).unwrap();
    db.insert_outdoor(&outdoor(900, 3.0, 50.0, 1.0)).unwrap();
    db.insert_outdoor(&outdoor(1700, 4.0, 50.0, 1.0)).unwrap();
    let rows = db.outdoor_since(0, 900);
    assert_eq!(rows.len(), 2);
    assert_eq!(rows[0].ts, 900);
    assert_eq!(rows[0].rows.len(), 2);
    assert_eq!(rows[1].ts, 1800);
}

#[test]
fn there_is_no_delta_without_outdoor_rows() {
    let mut db = Db::open_in_memory();
    db.insert(&reading(100, 15.0)).unwrap();
    assert!(db.temperature_delta(0, 900).is_empty());
}

#[test]
fn order_of_storing_does_not_matter() {
    let stamps = [500, 100, 300, 200, 400];
    let mut a = Db::open_in_memory();
    let mut b = Db::open_in_memory();
    for ts in stamps {
        a.insert(&reading(ts, ts as f64)).unwrap();
    }
    for ts in stamps.iter().rev() {
        b.insert(&reading(*ts, *ts as f64)).unwrap();
    }
    let x = a.since(0, 150);
    let y = b.since(0, 150);
    assert_eq!(x.len(), 4);
    assert_eq!(x.len(), y.len());
    for (p, q) in x.iter().zip(y.iter()) {
        assert_eq!(p.ts, q.ts);
        assert_eq!(p.rows, q.rows);
    }
}

#[test]
fn minutes_are_distinct_sample_minutes() {
    let mut db = Db::open_in_memory();
    let stamps = [0, 10, 59, 60, 119, 180];
    for ts in stamps {
        db.insert(&reading(ts, 10.0)).unwrap();
    }
    let spreads: Vec<Double> = [0.5, 0.5, 0.9, 2.0, 0.1, 3.0]
        .iter()
        .map(|s| double(*s))
        .collect();
    let days = db.daily_risk(0, &dates(&stamps, &[]), &spreads);
    assert_eq!(days.len(), 1);
    assert_eq!(days[0].date, "1970-01-01");
    assert_eq!(days[0].saturated_minutes, 2);
    assert_eq!(days[0].near_saturation_minutes, 2);
    assert_eq!(days[0].min_spread_c, double(0.1));
    assert_eq!(days[0].max_humidity_pct, double(55.0));
    assert_eq!(days[0].min_temperature_c, double(10.0));
    assert_eq!(days[0].max_outdoor_dew_point_c, None);
    assert_eq!(days[0].level, Level::Okay);
}

#[test]
fn a_day_takes_its_peaks_and_lows_from_its_own_rows() {
    let mut db = Db::open_in_memory();
    let stamps = [0, 60, 86_400];
    for (ts, temperature_c, humidity_pct) in [(0, 7.0, 40.0), (60, 5.0, 60.0), (86_400, -9.0, 99.0)] {
        let mut row = reading(ts, temperature_c);
        row.humidity_pct = double(humidity_pct);
        db.insert(&row).unwrap();
    }
    db.insert_outdoor(&outdoor(0, 1.0, 50.0, 2.0)).unwrap();
    db.insert_outdoor(&outdoor(30, 1.0, 50.0, 4.0)).unwrap();
    db.insert_outdoor(&outdoor(200_000, 1.0, 50.0, 8.0)).unwrap();
    let spreads = vec![double(f64::NAN), double(6.5), double(8.0)];
    let days = db.daily_risk(0, &dates(&stamps, &[0, 30, 200_000]), &spreads);
    assert_eq!(days.len(), 2);
    assert_eq!(days[0].min_temperature_c, double(5.0));
    assert_eq!(days[0].max_humidity_pct, double(60.0));
    assert_eq!(days[0].min_spread_c, double(6.5));
    assert_eq!(days[0].max_outdoor_dew_point_c, Some(double(4.0)));
    assert_eq!(days[1].date, "1970-01-02");
    assert_eq!(days[1].min_temperature_c, double(-9.0));
    assert_eq!(days[1].max_outdoor_dew_point_c, None);
}

#[test]
fn rows_before_the_window_are_left_out_of_days() {
    let mut db = Db::open_in_memory();
    db.insert(&reading(10, 1.0)).unwrap();
    db.insert(&reading(90_000, 2.0)).unwrap();
    db.insert_outdoor(&outdoor(10, 50.0, 1.0, 1.0)).unwrap();
    let all = dates(&[10, 90_000], &[10]);
    let days = db.daily_extremes(86_400, &all);
    assert_eq!(days.len(), 1);
    assert_eq!(days[0].date, "1970-01-02");
    assert_eq!(days[0].outdoor_min_c, None);
    assert_eq!(db.daily_extremes(0, &all)[0].outdoor_min_c, Some(double(50.0)));
}

#[test]
fn a_past_day_takes_its_worst_level() {
    let mild = double(10.0);
    assert_eq!(classify_day(5, 5, mild, None), Level::Critical);
    assert_eq!(classify_day(5, 5, mild, Some(double(15.0))), Level::Critical);
    assert_eq!(classify_day(4, 14, mild, None), Level::Okay);
    assert_eq!(classify_day(4, 15, mild, None), Level::Warning);
    assert_eq!(classify_day(0, 0, mild, Some(double(10.0))), Level::Okay);
    assert_eq!(classify_day(0, 0, mild, Some(double(10.5))), Level::Warning);
    assert_eq!(classify_day(0, 0, double(-0.0), None), Level::Warning);
}

#[test]
fn events_are_listed_oldest_first_with_ids_that_grow() {
    let mut db = Db::open_in_memory();
    let first = db.add_event(300, "c");
    let second = db.add_event(100, "a");
    let third = db.add_event(300, "d");
    assert_eq!((first, second, third), (1, 2, 3));
    let ids: Vec<i64> = db.events().iter().map(|e| e.id).collect();
    assert_eq!(ids, vec![2, 1, 3]);
    assert!(db.delete_event(third));
    assert_eq!(db.add_event(5, "again"), 3);
    assert!(!db.delete_event(99));
}

#[test]
fn stored_events_can_be_restored_in_the_order_of_their_ids() {
    let mut db = Db::open_in_memory();
    let event = |id: i64| Event { id, ts: 10, label: "x".to_string() };
    assert!(db.restore_event(event(4)));
    assert!(!db.restore_event(event(4)));
    assert!(!db.restore_event(event(2)));
    assert!(db.restore_event(event(9)));
    assert_eq!(db.add_event(1, "next"), 10);
}
