use pi_garage_monitor::db::{Db, OutdoorReading, Reading};
use pi_garage_monitor::double::Double;
use pi_garage_monitor::system::Stats;
use pi_garage_monitor::weather::{IndoorAir, Level, OutdoorAir};
use pi_garage_monitor::web::{
    create_event, created, current_conditions, days_from, delete_event, delta_window, message,
    readings_window, NewEvent, Payload, Reply, RequestError, Window, MAX_HOURS, MAX_POINTS,
};
use pi_garage_monitor::DataEvent;

const NOW: i64 = 1_700_000_000;

fn double(value: f64) -> Double {
    Double::from_bits(value.to_bits())
}

fn new_event(ts: Option<i64>, label: &str) -> NewEvent {
    NewEvent { ts, label: label.to_string() }
}

fn no_stats() -> Stats {
    Stats {
        cpu_temp_c: None,
        cpu_usage_pct: None,
        memory_used_pct: None,
        swap_used_pct: None,
        throttle: None,
    }
}

#[test]
fn history_windows_are_clamped() {
    assert_eq!(MAX_HOURS, 24 * 366);
    assert_eq!(
        readings_window(None, NOW),
        Window { from_ts: NOW - 86_400, bucket_secs: 86 }
    );
    assert_eq!(
        readings_window(Some(0), NOW),
        Window { from_ts: NOW - 3600, bucket_secs: 3 }
    );
    assert_eq!(
        readings_window(Some(u32::MAX), NOW),
        Window { from_ts: NOW - 31_622_400, bucket_secs: 31_622 }
    );
}

#[test]
fn delta_buckets_are_at_least_a_quarter_of_an_hour() {
    assert_eq!(
        delta_window(None, NOW),
        Window { from_ts: NOW - 86_400, bucket_secs: 900 }
    );
    assert_eq!(
        delta_window(Some(300), NOW),
        Window { from_ts: NOW - 1_080_000, bucket_secs: 1080 }
    );
}

#[test]
fn day_windows_are_clamped() {
    assert_eq!(days_from(None, NOW), NOW - 30 * 86_400);
    assert_eq!(days_from(Some(0), NOW), NOW - 86_400);
    assert_eq!(days_from(Some(7), NOW), NOW - 7 * 86_400);
    assert_eq!(days_from(Some(9999), NOW), NOW - 366 * 86_400);
}

#[test]
fn a_history_has_roughly_a_thousand_points() {
    for hours in [1, 2, 24] {
        let window = readings_window(Some(hours), NOW);
        let mut db = Db::open_in_memory();
        let mut ts = window.from_ts;
        while ts <= NOW {
            db.insert(&Reading {
                ts,
                temperature_c: double(20.0),
                humidity_pct: double(50.0),
                pressure_hpa: double(1013.0),
            })
            .unwrap();
            ts += 3;
        }
        let buckets = db.since(window.from_ts, window.bucket_secs);
        assert!(buckets.len() as i64 <= MAX_POINTS + MAX_POINTS / 5 + 2);
        assert!(buckets.len() as i64 >= MAX_POINTS);
    }
}

#[test]
fn labels_are_trimmed_and_bounded() {
    let (ts, label) = create_event(&new_event(Some(5), "  roof replaced\n"), NOW).unwrap();
    assert_eq!((ts, label.as_str()), (5, "roof replaced"));
    let (now, _) = create_event(&new_event(None, "x"), NOW).unwrap();
    assert_eq!(now, NOW);
    assert!(create_event(&new_event(None, &"x".repeat(100)), NOW).is_ok());
    for bad in [String::new(), " \t\u{3000}".to_string(), "x".repeat(101), "é".repeat(51)] {
        let error = create_event(&new_event(None, &bad), NOW).unwrap_err();
        assert_eq!(error, RequestError::Label);
        assert_eq!(error.message(), "event label must be 1-100 characters");
    }
    assert!(create_event(&new_event(None, &"é".repeat(50)), NOW).is_ok());
}

#[test]
fn edits_of_the_timeline_are_announced() {
    assert_eq!(created(), Reply { status: 201, news: Some(DataEvent::Events) });
    assert_eq!(delete_event(true), Reply { status: 204, news: Some(DataEvent::Events) });
    assert_eq!(delete_event(false), Reply { status: 404, news: None });
}

#[test]
fn stream_messages_carry_the_full_state() {
    let reading = message(Some(DataEvent::Reading)).unwrap();
    assert_eq!((reading.name, reading.payload), ("reading", Payload::Conditions));
    let outdoor = message(Some(DataEvent::Outdoor)).unwrap();
    assert_eq!((outdoor.name, outdoor.payload), ("outdoor", Payload::Conditions));
    let events = message(Some(DataEvent::Events)).unwrap();
    assert_eq!((events.name, events.payload), ("events", Payload::Timeline));
    assert!(message(None).is_none());
}

#[test]
fn conditions_leave_out_stale_observations() {
    let indoor = IndoorAir {
        reading: Reading {
            ts: NOW,
            temperature_c: double(12.0),
            humidity_pct: double(50.0),
            pressure_hpa: double(1013.0),
        },
        dew_point_c: double(2.0),
        spread_c: double(10.0),
        temperature_text: "12.0".to_string(),
        spread_text: "10.0".to_string(),
    };
    let outdoor = OutdoorAir {
        reading: OutdoorReading {
            ts: NOW - 7200,
            temperature_c: double(20.0),
            humidity_pct: double(80.0),
            dew_point_c: double(15.0),
            pressure_hpa: None,
        },
        dew_point_text: "15.0".to_string(),
    };
    let fresh = current_conditions(Some(&indoor), Some(&outdoor), no_stats(), NOW);
    assert_eq!(fresh.indoor, Some(indoor.reading));
    assert_eq!(fresh.outdoor, Some(outdoor.reading));
    assert_eq!(fresh.status.unwrap().level, Level::Warning);
    let stale = current_conditions(Some(&indoor), Some(&outdoor), no_stats(), NOW + 1);
    assert_eq!(stale.outdoor, None);
    assert_eq!(stale.status.unwrap().level, Level::Okay);
    let empty = current_conditions(None, Some(&outdoor), no_stats(), NOW);
    assert_eq!(empty.indoor, None);
    assert_eq!(empty.outdoor, Some(outdoor.reading));
    assert!(empty.status.is_none());
    assert_eq!(empty.system, no_stats());
}
