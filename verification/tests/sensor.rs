use pi_garage_monitor::clock::{timestamp_from, timestamp_of, unix_ts_now, ClockError};
use pi_garage_monitor::cycle::{CycleAction, CycleEvent};
use pi_garage_monitor::db::{OutdoorReading, Reading};
use pi_garage_monitor::double::Double;
use pi_garage_monitor::sensor::{interval_secs, sampler_step, secs_into_day, Sensor, SensorError};
use pi_garage_monitor::weather::poller_step;
use pi_garage_monitor::DataEvent;

fn zero() -> Double {
    Double::from_bits(0)
}

#[test]
fn the_sensor_is_opened_on_linux_only() {
    assert!(matches!(Sensor::bme280(true, Ok(())), Ok(Sensor::Bme280)));
    let broken = Sensor::bme280(true, Err("no bus".to_string())).unwrap_err();
    assert!(matches!(broken, SensorError::Device(_)));
    assert_eq!(broken.message(), "no bus");
    let elsewhere = Sensor::bme280(false, Ok(())).unwrap_err();
    assert!(matches!(elsewhere, SensorError::Unsupported));
    assert_eq!(
        elsewhere.message(),
        "the BME280 is only supported on Linux; run with --mock for development"
    );
    assert_eq!(Sensor::mock(), Sensor::Mock);
}

#[test]
fn the_simulated_day_repeats() {
    assert_eq!(secs_into_day(0), 0);
    assert_eq!(secs_into_day(86_399), 86_399);
    assert_eq!(secs_into_day(86_400), 0);
    assert_eq!(secs_into_day(-1), 86_399);
    assert_eq!(secs_into_day(-86_400), 0);
    for now in [i64::MIN, -12_345, 7, i64::MAX] {
        assert_eq!(i64::from(secs_into_day(now)), now.rem_euclid(86_400));
    }
}

#[test]
fn the_interval_is_at_least_a_second() {
    assert_eq!(interval_secs(0), 1);
    assert_eq!(interval_secs(1), 1);
    assert_eq!(interval_secs(60), 60);
}

#[test]
fn the_sampler_stores_what_it_reads_and_never_stops() {
    let row = Reading { ts: 5, temperature_c: zero(), humidity_pct: zero(), pressure_hpa: zero() };
    assert!(matches!(sampler_step(CycleEvent::Woke), CycleAction::Measure));
    assert!(matches!(sampler_step(CycleEvent::Measured(row)), CycleAction::Store(r) if r == row));
    assert!(matches!(sampler_step(CycleEvent::MeasureFailed), CycleAction::Sleep));
    assert!(matches!(
        sampler_step(CycleEvent::Stored),
        CycleAction::Announce(DataEvent::Reading)
    ));
    assert!(matches!(sampler_step(CycleEvent::StoreFailed), CycleAction::Sleep));
    assert!(matches!(sampler_step(CycleEvent::Announced), CycleAction::Sleep));
}

#[test]
fn the_poller_announces_outdoor_data() {
    let row = OutdoorReading {
        ts: 5,
        temperature_c: zero(),
        humidity_pct: zero(),
        dew_point_c: zero(),
        pressure_hpa: None,
    };
    assert!(matches!(poller_step(CycleEvent::Measured(row)), CycleAction::Store(r) if r == row));
    assert!(matches!(
        poller_step(CycleEvent::Stored),
        CycleAction::Announce(DataEvent::Outdoor)
    ));
    assert!(matches!(poller_step(CycleEvent::StoreFailed), CycleAction::Sleep));
}

#[test]
fn a_broken_clock_is_told() {
    assert_eq!(timestamp_from(None), Err(ClockError::BeforeEpoch));
    assert_eq!(timestamp_from(Some(0)), Ok(0));
    assert_eq!(timestamp_from(Some(i64::MAX as u64)), Ok(i64::MAX));
    assert_eq!(timestamp_from(Some(i64::MAX as u64 + 1)), Err(ClockError::FarFuture));
    assert_eq!(ClockError::BeforeEpoch.message(), "system clock set before 1970");
    assert_eq!(
        ClockError::FarFuture.message(),
        "system clock implausibly far in the future"
    );
}

#[test]
fn a_span_counts_by_its_whole_seconds() {
    let span = |secs: u64, nanos: u32| Ok(std::time::Duration::new(secs, nanos));
    assert_eq!(timestamp_of(span(0, 999_999_999)), Ok(0));
    assert_eq!(timestamp_of(span(1_700_000_000, 500_000_000)), Ok(1_700_000_000));
    assert_eq!(timestamp_of(span(i64::MAX as u64, 999_999_999)), Ok(i64::MAX));
    assert_eq!(timestamp_of(span(i64::MAX as u64 + 1, 0)), Err(ClockError::FarFuture));
    let epoch = std::time::UNIX_EPOCH;
    let later = epoch + std::time::Duration::from_secs(1);
    assert_eq!(timestamp_of(epoch.duration_since(later)), Err(ClockError::BeforeEpoch));
}

#[test]
fn the_clock_shows_the_seconds_since_the_epoch() {
    let elapsed = std::time::SystemTime::now()
        .duration_since(std::time::UNIX_EPOCH)
        .unwrap()
        .as_secs() as i64;
    let now = unix_ts_now().unwrap();
    assert!((now - elapsed).abs() <= 2);
}
