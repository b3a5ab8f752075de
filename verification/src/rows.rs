//! The rows that the store keeps.

use crate::double::Double;
use vstd::prelude::*;

verus! {

/// A single temperature/humidity/pressure sample.
#[derive(Clone, Copy, Debug, PartialEq, Eq, Structural)]
pub struct Reading {
    /// Unix timestamp in seconds when the sample was taken.
    pub ts: i64,
    /// Temperature in degrees Celsius.
    pub temperature_c: Double,
    /// Relative humidity in percent (0-100).
    pub humidity_pct: Double,
    /// Barometric pressure in hectopascals.
    pub pressure_hpa: Double,
}

/// One outdoor weather observation from the weather API.
#[derive(Clone, Copy, Debug, PartialEq, Eq, Structural)]
pub struct OutdoorReading {
    /// Unix timestamp in seconds when the observation was fetched.
    pub ts: i64,
    /// Outdoor temperature in degrees Celsius.
    pub temperature_c: Double,
    /// Outdoor relative humidity in percent (0-100).
    pub humidity_pct: Double,
    /// Outdoor dew point in degrees Celsius.
    pub dew_point_c: Double,
    /// Outdoor surface pressure in hectopascals, where it was reported.
    pub pressure_hpa: Option<Double>,
}

/// A labeled point on the renovation timeline (e.g. "roof replaced").
#[derive(Clone, Debug)]
pub struct Event {
    /// Database id, used to delete the event.
    pub id: i64,
    /// Unix timestamp in seconds the event applies to.
    pub ts: i64,
    /// Short human-readable description.
    pub label: String,
}

} // verus!
