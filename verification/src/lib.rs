//! Garage climate monitor: the rules behind the readings.
//!
//! Everything the daemon decides is here, on plain values: how measurements
//! compare, how stored rows are grouped into buckets and days, when the air
//! in the garage is a risk, when a notification goes out, how host health
//! files are read, and what each dashboard request asks of the store.

pub mod bus;
pub mod clock;
pub mod cycle;
pub mod days;
pub mod db;
pub mod double;
pub mod level;
pub mod notify;
pub mod rows;
pub mod sensor;
pub mod system;
pub mod table;
pub mod text;
pub mod weather;
pub mod web;

pub use bus::DataEvent;
pub use clock::unix_ts_now;
