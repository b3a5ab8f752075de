use pi_garage_monitor::db::{OutdoorReading, Reading};
use pi_garage_monitor::double::Double;
use pi_garage_monitor::weather::{
    assess, assess_current, assess_day, fresh_outdoor, IndoorAir, Level, OutdoorAir,
    OUTDOOR_STALE_SECS, POLL_INTERVAL_SECS,
};

fn double(value: f64) -> Double {
    Double::from_bits(value.to_bits())
}

fn dew_point(temperature_c: f64, humidity_pct: f64) -> f64 {
    let humidity = (humidity_pct / 100.0).clamp(0.001, 1.0);
    let gamma = humidity.ln() + 17.62 * temperature_c / (243.12 + temperature_c);
    243.12 * gamma / (17.62 - gamma)
}

fn air(temperature_c: f64, humidity_pct: f64, dew_point_c: f64) -> IndoorAir {
    let spread = temperature_c - dew_point_c;
    IndoorAir {
        reading: Reading {
            ts: 0,
            temperature_c: double(temperature_c),
            humidity_pct: double(humidity_pct),
            pressure_hpa: double(1013.0),
        },
        dew_point_c: double(dew_point_c),
        spread_c: double(spread),
        temperature_text: format!("{temperature_c:.1}"),
        spread_text: format!("{spread:.1}"),
    }
}

fn indoor(temperature_c: f64, humidity_pct: f64) -> IndoorAir {
    air(temperature_c, humidity_pct, dew_point(temperature_c, humidity_pct))
}

fn outdoor(dew_point_c: f64) -> OutdoorAir {
    OutdoorAir {
        reading: OutdoorReading {
            ts: 0,
            temperature_c: double(20.0),
            humidity_pct: double(80.0),
            dew_point_c: double(dew_point_c),
            pressure_hpa: Some(double(1010.0)),
        },
        dew_point_text: format!("{dew_point_c:.1}"),
    }
}

#[test]
fn saturated_indoor_air_is_critical() {
    let a = assess(&indoor(12.0, 99.0), None);
    assert_eq!(a.level, Level::Critical);
}

#[test]
fn near_saturated_indoor_air_is_warning() {
    let a = assess(&indoor(12.0, 88.0), None);
    assert_eq!(a.level, Level::Warning);
    assert!(a.message.contains("near saturation"));
}

#[test]
fn humid_outdoor_air_above_indoor_temperature_is_warning() {
    let a = assess(&indoor(12.0, 50.0), Some(&outdoor(15.0)));
    assert_eq!(a.level, Level::Warning);
    assert!(a.message.contains("Outdoor dew point"));
}

#[test]
fn day_with_sustained_saturation_is_critical() {
    assert_eq!(assess_day(10, 60, 0, double(5.0)), Level::Critical);
}

#[test]
fn day_with_damp_spell_or_incoming_air_exposure_is_warning() {
    assert_eq!(assess_day(0, 30, 0, double(5.0)), Level::Warning);
    assert_eq!(assess_day(0, 0, 20, double(10.0)), Level::Warning);
}

#[test]
fn brief_blips_and_dry_days_are_ok() {
    assert_eq!(assess_day(2, 10, 5, double(10.0)), Level::Okay);
}

#[test]
fn freezing_indoor_air_is_critical() {
    let a = assess(&indoor(-4.0, 50.0), None);
    assert_eq!(a.level, Level::Critical);
    assert!(a.message.contains("Freezing"));
}

#[test]
fn near_freezing_indoor_air_is_warning() {
    let a = assess(&indoor(2.0, 40.0), None);
    assert_eq!(a.level, Level::Warning);
    assert!(a.message.contains("Near freezing"));
}

#[test]
fn cold_and_saturated_reports_both_problems() {
    let a = assess(&indoor(-1.0, 99.0), None);
    assert_eq!(a.level, Level::Critical);
    assert!(a.message.contains("saturated"));
    assert!(a.message.contains("Freezing"));
}

#[test]
fn day_dipping_below_freezing_is_warning() {
    assert_eq!(assess_day(0, 0, 0, double(-2.0)), Level::Warning);
    assert_eq!(assess_day(0, 0, 0, double(1.5)), Level::Okay);
}

#[test]
fn dry_conditions_are_ok() {
    let a = assess(&indoor(20.0, 50.0), Some(&outdoor(5.0)));
    assert_eq!(a.level, Level::Okay);
    assert!(f64::from_bits(a.dew_point_spread_c.to_bits()) > 3.0);
}

#[test]
fn messages_are_exact() {
    assert_eq!(
        assess(&air(20.0, 50.0, 9.0), None).message,
        "No condensation or frost risk."
    );
    assert_eq!(
        assess(&air(20.0, 99.0, 19.5), None).message,
        "Indoor air is saturated — condensation is likely forming on surfaces right now."
    );
    assert_eq!(
        assess(&air(20.0, 90.0, 18.0), None).message,
        "Indoor air is near saturation (only 2.0 °C above the dew point) — condensation risk on cold surfaces."
    );
    assert_eq!(
        assess(&air(12.0, 50.0, 2.0), Some(&outdoor(15.0))).message,
        "Outdoor dew point (15.0 °C) is at or above the indoor temperature (12.0 °C) — incoming air will condense on anything in here. Keep the space closed up."
    );
    assert_eq!(
        assess(&air(-4.0, 50.0, -12.0), None).message,
        "Freezing in here (-4.0 °C) — frost damages houseplants and anything that holds water."
    );
    assert_eq!(
        assess(&air(2.0, 40.0, -9.0), None).message,
        "Near freezing (2.0 °C) — cold spots at the floor can frost before the air does. Move houseplants somewhere warmer."
    );
}

#[test]
fn the_more_severe_problem_is_told_first() {
    let a = assess(&air(0.0, 85.0, -2.0), None);
    assert_eq!(a.level, Level::Critical);
    assert!(a.message.starts_with("Freezing in here (0.0 °C)"));
    assert!(a.message.ends_with("condensation risk on cold surfaces."));
    let b = assess(&air(2.0, 85.0, 0.0), None);
    assert_eq!(b.level, Level::Warning);
    assert!(b.message.starts_with("Indoor air is near saturation (only 2.0 °C"));
    assert!(b.message.contains(". Near freezing (2.0 °C)"));
}

#[test]
fn risk_bands_end_where_they_should() {
    assert_eq!(assess(&air(20.0, 90.0, 19.0), None).level, Level::Warning);
    assert_eq!(assess(&air(20.0, 80.0, 17.0), None).level, Level::Okay);
    assert_eq!(assess(&air(0.5, 50.0, -9.0), None).level, Level::Critical);
    assert_eq!(assess(&air(0.6, 50.0, -9.0), None).level, Level::Warning);
    assert_eq!(assess(&air(3.0, 50.0, -6.0), None).level, Level::Warning);
    assert_eq!(assess(&air(3.1, 50.0, -6.0), None).level, Level::Okay);
    assert_eq!(assess(&air(15.0, 50.0, 5.0), Some(&outdoor(15.0))).level, Level::Okay);
    assert_eq!(assess_day(5, 5, 0, double(9.0)), Level::Critical);
    assert_eq!(assess_day(4, 14, 14, double(9.0)), Level::Okay);
    assert_eq!(assess_day(0, 15, 0, double(9.0)), Level::Warning);
    assert_eq!(assess_day(0, 0, 15, double(9.0)), Level::Warning);
    assert_eq!(assess_day(0, 0, 0, double(0.0)), Level::Warning);
}

#[test]
fn the_assessment_hands_on_dew_point_and_spread() {
    let a = assess(&air(20.0, 50.0, 9.25), None);
    assert_eq!(a.indoor_dew_point_c, double(9.25));
    assert_eq!(a.dew_point_spread_c, double(10.75));
}

#[test]
fn a_spread_that_is_no_number_raises_nothing() {
    let mut odd = air(20.0, 50.0, 9.0);
    odd.spread_c = double(f64::NAN);
    assert_eq!(assess(&odd, None).level, Level::Okay);
}

#[test]
fn stale_outdoor_air_is_treated_as_missing() {
    assert_eq!(OUTDOOR_STALE_SECS, 7200);
    assert_eq!(POLL_INTERVAL_SECS, 900);
    let humid = outdoor(15.0);
    let inside = air(12.0, 50.0, 2.0);
    let fresh = assess_current(Some(&inside), Some(&humid), 7200).unwrap();
    assert_eq!(fresh.level, Level::Warning);
    let stale = assess_current(Some(&inside), Some(&humid), 7201).unwrap();
    assert_eq!(stale.level, Level::Okay);
    assert!(assess_current(None, Some(&humid), 0).is_none());
    assert_eq!(fresh_outdoor(Some(humid.reading), 7200), Some(humid.reading));
    assert_eq!(fresh_outdoor(Some(humid.reading), 7201), None);
    assert_eq!(fresh_outdoor(Some(humid.reading), i64::MIN), Some(humid.reading));
    assert_eq!(fresh_outdoor(None, 0), None);
}

#[test]
fn levels_are_ordered_by_severity() {
    assert!(Level::Okay < Level::Warning);
    assert!(Level::Warning < Level::Critical);
    assert_eq!(Level::Warning.worse(Level::Critical), Level::Critical);
    assert_eq!(Level::Warning.worse(Level::Okay), Level::Warning);
    assert_eq!(Level::Warning.max(Level::Critical), Level::Critical);
}

#[test]
fn damper_and_colder_air_is_never_milder() {
    let mut last = Level::Okay;
    for spread in [9.0, 3.0, 2.5, 1.0, 0.5, 0.0] {
        let level = assess(&air(20.0, 50.0, 20.0 - spread), None).level;
        assert!(level >= last);
        last = level;
    }
    assert_eq!(last, Level::Critical);
    let mut frost = Level::Okay;
    for temperature in [9.0, 3.5, 3.0, 1.0, 0.5, -9.0] {
        let level = assess(&air(temperature, 50.0, temperature - 9.0), None).level;
        assert!(level >= frost);
        frost = level;
    }
    assert_eq!(frost, Level::Critical);
}
