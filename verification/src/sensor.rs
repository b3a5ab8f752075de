//! Sensor sources and the sampling interval.

use crate::bus::DataEvent;
use crate::cycle::{next_action, step, CycleAction, CycleEvent};
use crate::rows::Reading;
use vstd::prelude::*;

verus! {

/// A source of temperature/humidity/pressure readings.
#[derive(Clone, Copy, Debug, PartialEq, Eq, Structural)]
pub enum Sensor {
    /// A Bosch BME280 on I2C bus 1, address `0x76`.
    Bme280,
    /// A simulated sensor producing plausible day-cycle values.
    Mock,
}

/// Why there is no sensor.
#[derive(Debug)]
pub enum SensorError {
    /// The host has no I2C hardware.
    Unsupported,
    /// The bus cannot be opened or the sensor does not respond.
    Device(String),
}

impl SensorError {
    /// What is wrong with the sensor.
    pub open spec fn text(self) -> Seq<char> {
        match self {
            SensorError::Unsupported =>
                "the BME280 is only supported on Linux; run with --mock for development"@,
            SensorError::Device(reason) => reason@,
        }
    }

    /// What is wrong with the sensor.
    pub fn message(&self) -> (text: String)
        ensures
            text@ == self.text(),
    {
        match self {
            SensorError::Unsupported =>
                "the BME280 is only supported on Linux; run with --mock for development".to_owned(),
            SensorError::Device(reason) => reason.clone(),
        }
    }
}

impl Sensor {
    /// The BME280, given what came of opening it; there is none on a host
    /// that is not Linux, where the result of opening it is not looked at.
    pub fn bme280(linux: bool, opened: Result<(), String>) -> (r: Result<Sensor, SensorError>)
        ensures
            !linux ==> r == Err::<Sensor, SensorError>(SensorError::Unsupported),
            linux && opened is Ok ==> r == Ok::<Sensor, SensorError>(Sensor::Bme280),
            linux && opened is Err ==> r == Err::<Sensor, SensorError>(
                SensorError::Device(opened->Err_0),
            ),
    {
        if !linux {
            return Err(SensorError::Unsupported);
        }
        match opened {
            Ok(()) => Ok(Sensor::Bme280),
            Err(reason) => Err(SensorError::Device(reason)),
        }
    }

    /// Creates a simulated sensor.
    pub fn mock() -> (s: Sensor)
        ensures
            s == Sensor::Mock,
    {
        Sensor::Mock
    }
}

/// Seconds in a day.
pub const SECS_PER_DAY: i64 = 86_400;

/// How far into its UTC day a time is, in seconds: where the simulated
/// day-cycle stands.
pub fn secs_into_day(now: i64) -> (secs: u32)
    ensures
        secs == now as int % SECS_PER_DAY as int,
        secs < SECS_PER_DAY,
{
    if now >= 0 {
        (now as u64 % 86_400) as u32
    } else {
        let back: u64 = (-(now + 1)) as u64 % 86_400;
        (86_399 - back) as u32
    }
}

/// The simulated day repeats: a day later the cycle stands where it stood.
pub proof fn law_simulated_day_repeats(now: int)
    ensures
        (now + SECS_PER_DAY) % (SECS_PER_DAY as int) == now % (SECS_PER_DAY as int),
{
}

/// The seconds between two samples: at least one.
pub fn interval_secs(requested: u64) -> (secs: u64)
    ensures
        secs == (if requested == 0 {
            1
        } else {
            requested
        }),
{
    if requested == 0 {
        1
    } else {
        requested
    }
}

/// The next action of the sampler.
pub fn sampler_step(event: CycleEvent<Reading>) -> (action: CycleAction<Reading>)
    ensures
        action == next_action(event, DataEvent::Reading),
{
    step(event, DataEvent::Reading)
}

} // verus!
