//! The stored tables and the questions the dashboard asks of them.
//!
//! Readings and outdoor observations are kept in time order, events in the
//! order of their ids. Averages are left to the caller: a bucket hands out
//! the rows that are averaged.

use crate::days::{
    day_rows, days_of, distinct_minutes, flagged_minutes, has_day, is_days, lemma_day_rows,
    lemma_flagged_minutes, of_day, DayRows,
};
use crate::double::{
    greatest, greatest_at, law_greatest_is_an_upper_bound, law_least_is_a_lower_bound,
    law_named_doubles, least, least_at, pick, Double, ONE, THREE,
};
use crate::level::Level;
pub use crate::rows::{Event, OutdoorReading, Reading};
use crate::table::{
    bucketed, in_time_order, is_bucketing, is_join, joined, law_placed_keeps_time_order, place,
    placed, store, usable_width, Bucket, SharedBucket, Stamped,
};
use crate::text::comes_before;
use crate::weather::{
    assess_day, day_level, NEAR_SATURATION_WARNING_MINUTES, SATURATED_CRITICAL_MINUTES,
};
use vstd::arithmetic::power2::pow2;
use vstd::prelude::*;

verus! {

/// Why a row was not stored.
#[derive(Clone, Copy, Debug, PartialEq, Eq, Structural)]
pub enum StoreError {
    /// A measurement is not a number, and every column needs a value.
    NotANumber,
}

/// A record value and when it was observed.
#[derive(Clone, Copy, Debug, PartialEq, Eq, Structural)]
pub struct Extreme {
    /// Unix timestamp in seconds of the observation.
    pub ts: i64,
    /// The observed value.
    pub value: Double,
}

/// All-time record extremes across the whole database.
#[derive(Clone, Copy, Debug, PartialEq, Eq, Structural)]
pub struct Records {
    /// Hottest reading ever taken.
    pub highest_temperature_c: Extreme,
    /// Coldest reading ever taken.
    pub lowest_temperature_c: Extreme,
    /// Most humid reading ever taken.
    pub highest_humidity_pct: Extreme,
    /// Driest reading ever taken.
    pub lowest_humidity_pct: Extreme,
}

/// The local dates of the stored rows, row by row.
pub struct Dates {
    /// The date of each reading, as `YYYY-MM-DD`.
    pub readings: Vec<String>,
    /// The date of each outdoor observation, as `YYYY-MM-DD`.
    pub outdoor: Vec<String>,
}

/// One local-calendar-day's temperature extremes.
pub struct DailyExtremes {
    /// Local date as `YYYY-MM-DD`.
    pub date: String,
    /// Coldest reading of the day, in degrees Celsius.
    pub min_c: Double,
    /// Hottest reading of the day, in degrees Celsius.
    pub max_c: Double,
    /// Coldest outdoor observation of the day, if weather data exists.
    pub outdoor_min_c: Option<Double>,
    /// Hottest outdoor observation of the day, if weather data exists.
    pub outdoor_max_c: Option<Double>,
}

/// One local-calendar-day's retroactive condensation-risk summary.
pub struct DayRisk {
    /// Local date as `YYYY-MM-DD`.
    pub date: String,
    /// Worst condensation severity reached that day.
    pub level: Level,
    /// Distinct sample minutes with dew-point spread below 1 degree.
    pub saturated_minutes: u32,
    /// Distinct sample minutes with dew-point spread below 3 degrees.
    pub near_saturation_minutes: u32,
    /// Smallest dew-point spread of the day, in degrees Celsius.
    pub min_spread_c: Double,
    /// Highest indoor relative humidity of the day, in percent.
    pub max_humidity_pct: Double,
    /// Coldest indoor reading of the day, in degrees Celsius (proxy for surface temperature).
    pub min_temperature_c: Double,
    /// Highest outdoor dew point of the day, in degrees Celsius, if weather data exists.
    pub max_outdoor_dew_point_c: Option<Double>,
}

/// The rows of the three tables.
pub struct Tables {
    /// Indoor readings in time order.
    pub readings: Seq<Reading>,
    /// Outdoor observations in time order.
    pub outdoor: Seq<OutdoorReading>,
    /// Timeline events in the order of their ids.
    pub events: Seq<Event>,
}

/// Whether every measurement of a reading is a number.
pub open spec fn is_storable(r: Reading) -> bool {
    !r.temperature_c.is_nan() && !r.humidity_pct.is_nan() && !r.pressure_hpa.is_nan()
}

/// Whether every required measurement of an observation is a number.
pub open spec fn is_storable_outdoor(o: OutdoorReading) -> bool {
    !o.temperature_c.is_nan() && !o.humidity_pct.is_nan() && !o.dew_point_c.is_nan()
}

/// The id of the next event: one more than the largest, or 1.
pub open spec fn next_event_id(events: Seq<Event>) -> int {
    if events.len() == 0 {
        1
    } else {
        events.last().id + 1
    }
}

/// Whether an event has this id.
pub open spec fn has_event(events: Seq<Event>, id: i64) -> bool {
    exists|k: int| 0 <= k < events.len() && (#[trigger] events[k]).id == id
}

impl Tables {
    /// What holds of the tables at all times.
    pub open spec fn valid(self) -> bool {
        &&& in_time_order(self.readings)
        &&& in_time_order(self.outdoor)
        &&& forall|i: int|
            0 <= i < self.readings.len() ==> is_storable(#[trigger] self.readings[i])
        &&& forall|i: int|
            0 <= i < self.outdoor.len() ==> is_storable_outdoor(#[trigger] self.outdoor[i])
        &&& forall|i: int, j: int|
            0 <= i < j < self.events.len() ==> (#[trigger] self.events[i]).id < (
            #[trigger] self.events[j]).id
    }
}

/// The store of readings, outdoor observations and timeline events.
pub struct Db {
    readings: Vec<Reading>,
    outdoor: Vec<OutdoorReading>,
    events: Vec<Event>,
}

impl View for Db {
    type V = Tables;

    closed spec fn view(&self) -> Tables {
        Tables { readings: self.readings@, outdoor: self.outdoor@, events: self.events@ }
    }
}

/// A column of the readings table.
#[derive(Clone, Copy, Debug, PartialEq, Eq, Structural)]
pub enum Column {
    /// Temperature in degrees Celsius.
    Temperature,
    /// Relative humidity in percent.
    Humidity,
}

/// The value of a reading in a column.
pub open spec fn column_value(r: Reading, column: Column) -> Double {
    match column {
        Column::Temperature => r.temperature_c,
        Column::Humidity => r.humidity_pct,
    }
}

/// Whether `a` is beyond `b` in the direction of the record.
pub open spec fn is_beyond(a: Double, b: Double, highest: bool) -> bool {
    if highest {
        b.below(a)
    } else {
        a.below(b)
    }
}

/// Whether this is the record of a column: the value of a reading that no
/// reading is beyond, with the earliest time at which it was reached.
pub open spec fn is_record(
    e: Extreme,
    readings: Seq<Reading>,
    column: Column,
    highest: bool,
) -> bool {
    &&& exists|i: int|
        0 <= i < readings.len() && (#[trigger] readings[i]).ts == e.ts && column_value(
            readings[i],
            column,
        ) == e.value
    &&& forall|i: int|
        0 <= i < readings.len() ==> !is_beyond(
            column_value(#[trigger] readings[i], column),
            e.value,
            highest,
        )
    &&& forall|i: int|
        0 <= i < readings.len() && column_value(#[trigger] readings[i], column).units()
            == e.value.units() ==> readings[i].ts >= e.ts
}

/// The temperatures of the readings.
pub open spec fn temperatures(readings: Seq<Reading>) -> Seq<Double> {
    readings.map_values(|r: Reading| r.temperature_c)
}

/// The humidities of the readings.
pub open spec fn humidities(readings: Seq<Reading>) -> Seq<Double> {
    readings.map_values(|r: Reading| r.humidity_pct)
}

/// The temperatures of the outdoor observations.
pub open spec fn outdoor_temperatures(outdoor: Seq<OutdoorReading>) -> Seq<Double> {
    outdoor.map_values(|o: OutdoorReading| o.temperature_c)
}

/// The dew points of the outdoor observations.
pub open spec fn outdoor_dew_points(outdoor: Seq<OutdoorReading>) -> Seq<Double> {
    outdoor.map_values(|o: OutdoorReading| o.dew_point_c)
}

/// The places of the readings of a day.
pub open spec fn readings_of_day(
    t: Tables,
    dates: Dates,
    from_ts: i64,
    date: Seq<char>,
) -> Seq<usize> {
    day_rows(t.readings, dates.readings@, from_ts, date, t.readings.len())
}

/// The places of the outdoor observations of a day.
pub open spec fn outdoor_of_day(
    t: Tables,
    dates: Dates,
    from_ts: i64,
    date: Seq<char>,
) -> Seq<usize> {
    day_rows(t.outdoor, dates.outdoor@, from_ts, date, t.outdoor.len())
}

/// The least of the values at these places, where there are any.
pub open spec fn least_if_any(values: Seq<Double>, places: Seq<usize>) -> Option<Double> {
    if places.len() == 0 {
        None
    } else {
        Some(least(pick(values, places)))
    }
}

/// The greatest of the values at these places, where there are any.
pub open spec fn greatest_if_any(values: Seq<Double>, places: Seq<usize>) -> Option<Double> {
    if places.len() == 0 {
        None
    } else {
        Some(greatest(pick(values, places)))
    }
}

/// Whether these are the temperature extremes of a day that has readings.
pub open spec fn is_day_extremes(e: DailyExtremes, t: Tables, dates: Dates, from_ts: i64) -> bool {
    let indoor = readings_of_day(t, dates, from_ts, e.date@);
    let outdoor = outdoor_of_day(t, dates, from_ts, e.date@);
    &&& indoor.len() > 0
    &&& e.min_c == least(pick(temperatures(t.readings), indoor))
    &&& e.max_c == greatest(pick(temperatures(t.readings), indoor))
    &&& e.outdoor_min_c == least_if_any(outdoor_temperatures(t.outdoor), outdoor)
    &&& e.outdoor_max_c == greatest_if_any(outdoor_temperatures(t.outdoor), outdoor)
}

/// The level of a past day: that of its damp spells and its minimum, and at
/// least a warning where the outdoor dew point rose above the coldest indoor
/// reading.
pub open spec fn past_day_level(
    saturated_minutes: int,
    near_saturation_minutes: int,
    min_temperature_c: Double,
    max_outdoor_dew_point_c: Option<Double>,
) -> Level {
    let damp = day_level(saturated_minutes, near_saturation_minutes, 0, min_temperature_c);
    match max_outdoor_dew_point_c {
        Some(dew) if min_temperature_c.below(dew) => damp.worse_of(Level::Warning),
        _ => damp,
    }
}

/// The minutes of a day in which indoor air was saturated.
pub open spec fn saturated_minutes(
    t: Tables,
    dates: Dates,
    spreads: Seq<Double>,
    from_ts: i64,
    date: Seq<char>,
) -> Set<int> {
    flagged_minutes(
        t.readings,
        spreads,
        readings_of_day(t, dates, from_ts, date),
        Double { bits: ONE },
    )
}

/// The minutes of a day in which indoor air was near saturation.
pub open spec fn near_saturation_minutes(
    t: Tables,
    dates: Dates,
    spreads: Seq<Double>,
    from_ts: i64,
    date: Seq<char>,
) -> Set<int> {
    flagged_minutes(
        t.readings,
        spreads,
        readings_of_day(t, dates, from_ts, date),
        Double { bits: THREE },
    )
}

/// Whether the tallies of every day are in range: no day has more minutes
/// near saturation than a tally can count.
pub open spec fn tallies_fit(
    t: Tables,
    dates: Dates,
    spreads: Seq<Double>,
    from_ts: i64,
) -> bool {
    forall|date: Seq<char>|
        (#[trigger] near_saturation_minutes(t, dates, spreads, from_ts, date)).len() <= u32::MAX
}

/// Whether this is the risk summary of a day that has readings.
pub open spec fn is_day_risk(
    e: DayRisk,
    t: Tables,
    dates: Dates,
    spreads: Seq<Double>,
    from_ts: i64,
) -> bool {
    let indoor = readings_of_day(t, dates, from_ts, e.date@);
    let outdoor = outdoor_of_day(t, dates, from_ts, e.date@);
    let saturated = saturated_minutes(t, dates, spreads, from_ts, e.date@);
    let near = near_saturation_minutes(t, dates, spreads, from_ts, e.date@);
    &&& indoor.len() > 0
    &&& saturated.finite() && e.saturated_minutes == saturated.len()
    &&& near.finite() && e.near_saturation_minutes == near.len()
    &&& e.min_spread_c == least(pick(spreads, indoor))
    &&& e.max_humidity_pct == greatest(pick(humidities(t.readings), indoor))
    &&& e.min_temperature_c == least(pick(temperatures(t.readings), indoor))
    &&& e.max_outdoor_dew_point_c == greatest_if_any(outdoor_dew_points(t.outdoor), outdoor)
    &&& e.level == past_day_level(
        e.saturated_minutes as int,
        e.near_saturation_minutes as int,
        e.min_temperature_c,
        e.max_outdoor_dew_point_c,
    )
}

/// The events in time order, events of one time in the order of their ids.
pub open spec fn by_time(events: Seq<Event>) -> Seq<Event>
    decreases events.len(),
{
    if events.len() == 0 {
        Seq::empty()
    } else {
        placed(by_time(events.drop_last()), events.last())
    }
}

proof fn lemma_by_time_is_ordered(events: Seq<Event>)
    ensures
        in_time_order(by_time(events)),
        by_time(events).len() == events.len(),
    decreases events.len(),
{
    if events.len() > 0 {
        lemma_by_time_is_ordered(events.drop_last());
        law_placed_keeps_time_order(by_time(events.drop_last()), events.last());
    }
}

impl Db {
    /// A store without rows.
    pub fn open_in_memory() -> (db: Db)
        ensures
            db@.valid(),
            db@.readings == Seq::<Reading>::empty(),
            db@.outdoor == Seq::<OutdoorReading>::empty(),
            db@.events == Seq::<Event>::empty(),
    {
        Db { readings: Vec::new(), outdoor: Vec::new(), events: Vec::new() }
    }

    /// Appends one reading; it is refused where a measurement is not a number.
    pub fn insert(&mut self, reading: &Reading) -> (r: Result<(), StoreError>)
        requires
            old(self)@.valid(),
        ensures
            final(self)@.valid(),
            r is Ok <==> is_storable(*reading),
            r is Ok ==> final(self)@ == (Tables {
                readings: placed(old(self)@.readings, *reading),
                ..old(self)@
            }),
            r is Err ==> final(self)@ == old(self)@,
    {
        if reading.temperature_c.not_a_number() || reading.humidity_pct.not_a_number()
            || reading.pressure_hpa.not_a_number() {
            return Err(StoreError::NotANumber);
        }
        let ghost old_rows = self.readings@;
        store(&mut self.readings, *reading);
        proof {
            law_placed_keeps_time_order(old_rows, *reading);
            let p = place(old_rows, reading.ts);
            old_rows.insert_ensures(p, *reading);
            assert forall|i: int| 0 <= i < self@.readings.len() implies is_storable(
                #[trigger] self@.readings[i],
            ) by {
                if i < p {
                    assert(self@.readings[i] == old(self)@.readings[i]);
                } else if i > p {
                    assert(self@.readings[i] == old(self)@.readings[i - 1]);
                }
            }
        }
        Ok(())
    }

    /// Appends one outdoor weather observation; it is refused where a
    /// required measurement is not a number.
    pub fn insert_outdoor(&mut self, outdoor: &OutdoorReading) -> (r: Result<(), StoreError>)
        requires
            old(self)@.valid(),
        ensures
            final(self)@.valid(),
            r is Ok <==> is_storable_outdoor(*outdoor),
            r is Ok ==> final(self)@ == (Tables {
                outdoor: placed(old(self)@.outdoor, *outdoor),
                ..old(self)@
            }),
            r is Err ==> final(self)@ == old(self)@,
    {
        if outdoor.temperature_c.not_a_number() || outdoor.humidity_pct.not_a_number()
            || outdoor.dew_point_c.not_a_number() {
            return Err(StoreError::NotANumber);
        }
        let ghost old_rows = self.outdoor@;
        store(&mut self.outdoor, *outdoor);
        proof {
            law_placed_keeps_time_order(old_rows, *outdoor);
            let p = place(old_rows, outdoor.ts);
            old_rows.insert_ensures(p, *outdoor);
            assert forall|i: int| 0 <= i < self@.outdoor.len() implies is_storable_outdoor(
                #[trigger] self@.outdoor[i],
            ) by {
                if i < p {
                    assert(self@.outdoor[i] == old(self)@.outdoor[i]);
                } else if i > p {
                    assert(self@.outdoor[i] == old(self)@.outdoor[i - 1]);
                }
            }
        }
        Ok(())
    }

    /// Returns the most recent reading, if any exist: of several with the
    /// latest time, the one stored last.
    pub fn latest(&self) -> (r: Option<Reading>)
        requires
            self@.valid(),
        ensures
            r == (if self@.readings.len() == 0 {
                None
            } else {
                Some(self@.readings.last())
            }),
            r is Some ==> forall|i: int|
                0 <= i < self@.readings.len() ==> (#[trigger] self@.readings[i]).ts <= r->Some_0.ts,
    {
        let n: usize = self.readings.len();
        if n == 0 {
            None
        } else {
            proof {
                assert(forall|i: int|
                    0 <= i < self@.readings.len() ==> (#[trigger] self@.readings[i]).stamp()
                        <= self@.readings[n - 1].stamp());
            }
            Some(self.readings[n - 1])
        }
    }

    /// Returns the most recent outdoor observation, if any exist: of several
    /// with the latest time, the one stored last.
    pub fn latest_outdoor(&self) -> (r: Option<OutdoorReading>)
        requires
            self@.valid(),
        ensures
            r == (if self@.outdoor.len() == 0 {
                None
            } else {
                Some(self@.outdoor.last())
            }),
            r is Some ==> forall|i: int|
                0 <= i < self@.outdoor.len() ==> (#[trigger] self@.outdoor[i]).ts <= r->Some_0.ts,
    {
        let n: usize = self.outdoor.len();
        if n == 0 {
            None
        } else {
            proof {
                assert(forall|i: int|
                    0 <= i < self@.outdoor.len() ==> (#[trigger] self@.outdoor[i]).stamp()
                        <= self@.outdoor[n - 1].stamp());
            }
            Some(self.outdoor[n - 1])
        }
    }

    /// Returns readings at or after `from_ts` in `bucket_secs`-wide buckets.
    ///
    /// Bucketing keeps the dashboard payload bounded no matter how large the
    /// requested window is. A width below one second counts as one second.
    pub fn since(&self, from_ts: i64, bucket_secs: i64) -> (buckets: Vec<Bucket<Reading>>)
        requires
            self@.valid(),
        ensures
            is_bucketing(buckets@, self@.readings, from_ts, usable_width(bucket_secs)),
    {
        let width: i64 = if bucket_secs < 1 {
            1
        } else {
            bucket_secs
        };
        bucketed(&self.readings, from_ts, width)
    }

    /// Returns outdoor observations at or after `from_ts` in
    /// `bucket_secs`-wide buckets.
    pub fn outdoor_since(&self, from_ts: i64, bucket_secs: i64) -> (buckets: Vec<
        Bucket<OutdoorReading>,
    >)
        requires
            self@.valid(),
        ensures
            is_bucketing(buckets@, self@.outdoor, from_ts, usable_width(bucket_secs)),
    {
        let width: i64 = if bucket_secs < 1 {
            1
        } else {
            bucket_secs
        };
        bucketed(&self.outdoor, from_ts, width)
    }

    /// Returns indoor and outdoor rows joined into common time buckets.
    ///
    /// Buckets with no outdoor observation are omitted, so the result is
    /// empty until weather polling is enabled.
    pub fn temperature_delta(&self, from_ts: i64, bucket_secs: i64) -> (shared: Vec<
        SharedBucket<Reading, OutdoorReading>,
    >)
        requires
            self@.valid(),
        ensures
            is_join(
                shared@,
                self@.readings,
                self@.outdoor,
                from_ts,
                usable_width(bucket_secs),
            ),
    {
        let width: i64 = if bucket_secs < 1 {
            1
        } else {
            bucket_secs
        };
        joined(&self.readings, &self.outdoor, from_ts, width)
    }

    fn extreme(&self, column: Column, highest: bool) -> (e: Option<Extreme>)
        requires
            self@.valid(),
        ensures
            e is Some <==> self@.readings.len() > 0,
            e is Some ==> is_record(e->Some_0, self@.readings, column, highest),
    {
        if self.readings.len() == 0 {
            return None;
        }
        let mut best: usize = 0;
        let mut n: usize = 1;
        while n < self.readings.len()
            invariant
                self@.valid(),
                best < n <= self.readings.len(),
                forall|i: int|
                    0 <= i < n ==> !is_beyond(
                        column_value(#[trigger] self.readings@[i], column),
                        column_value(self.readings@[best as int], column),
                        highest,
                    ),
                forall|i: int|
                    0 <= i < best ==> is_beyond(
                        column_value(self.readings@[best as int], column),
                        column_value(#[trigger] self.readings@[i], column),
                        highest,
                    ),
            decreases self.readings.len() - n,
        {
            let value = value_in(&self.readings[n], column);
            let record = value_in(&self.readings[best], column);
            let beyond = if highest {
                record.lt(value)
            } else {
                value.lt(record)
            };
            proof {
                assert(is_storable(self@.readings[n as int]));
                assert(is_storable(self@.readings[best as int]));
                assert forall|i: int| 0 <= i < n implies is_storable(
                    #[trigger] self.readings@[i],
                ) by {
                    assert(is_storable(self@.readings[i]));
                }
            }
            if beyond {
                best = n;
            }
            n = n + 1;
        }
        let ts: i64 = self.readings[best].ts;
        let value = value_in(&self.readings[best], column);
        proof {
            assert forall|i: int|
                0 <= i < self@.readings.len() && column_value(
                    #[trigger] self@.readings[i],
                    column,
                ).units() == value.units() implies self@.readings[i].ts >= ts by {
                assert(self.readings@[i] == self@.readings[i]);
                assert(self@.readings[best as int].stamp() == ts);
                if i >= best {
                    assert(self@.readings[best as int].stamp() <= self@.readings[i].stamp());
                }
            }
            assert(self@.readings[best as int].ts == ts);
        }
        Some(Extreme { ts, value })
    }

    /// Returns all-time record extremes, or `None` while the database is empty.
    pub fn records(&self) -> (r: Option<Records>)
        requires
            self@.valid(),
        ensures
            r is Some <==> self@.readings.len() > 0,
            r is Some ==> {
                let all = self@.readings;
                &&& is_record(r->Some_0.highest_temperature_c, all, Column::Temperature, true)
                &&& is_record(r->Some_0.lowest_temperature_c, all, Column::Temperature, false)
                &&& is_record(r->Some_0.highest_humidity_pct, all, Column::Humidity, true)
                &&& is_record(r->Some_0.lowest_humidity_pct, all, Column::Humidity, false)
            },
    {
        match (
            self.extreme(Column::Temperature, true),
            self.extreme(Column::Temperature, false),
            self.extreme(Column::Humidity, true),
            self.extreme(Column::Humidity, false),
        ) {
            (Some(hottest), Some(coldest), Some(dampest), Some(driest)) => Some(
                Records {
                    highest_temperature_c: hottest,
                    lowest_temperature_c: coldest,
                    highest_humidity_pct: dampest,
                    lowest_humidity_pct: driest,
                },
            ),
            _ => None,
        }
    }
}

fn value_in(r: &Reading, column: Column) -> (v: Double)
    ensures
        v == column_value(*r, column),
{
    match column {
        Column::Temperature => r.temperature_c,
        Column::Humidity => r.humidity_pct,
    }
}

fn temperature_column(readings: &Vec<Reading>) -> (values: Vec<Double>)
    ensures
        values@ == temperatures(readings@),
{
    let mut values: Vec<Double> = Vec::new();
    let mut n: usize = 0;
    while n < readings.len()
        invariant
            n <= readings.len(),
            values@ =~= temperatures(readings@).take(n as int),
        decreases readings.len() - n,
    {
        values.push(readings[n].temperature_c);
        n = n + 1;
    }
    values
}

fn humidity_column(readings: &Vec<Reading>) -> (values: Vec<Double>)
    ensures
        values@ == humidities(readings@),
{
    let mut values: Vec<Double> = Vec::new();
    let mut n: usize = 0;
    while n < readings.len()
        invariant
            n <= readings.len(),
            values@ =~= humidities(readings@).take(n as int),
        decreases readings.len() - n,
    {
        values.push(readings[n].humidity_pct);
        n = n + 1;
    }
    values
}

fn outdoor_temperature_column(outdoor: &Vec<OutdoorReading>) -> (values: Vec<Double>)
    ensures
        values@ == outdoor_temperatures(outdoor@),
{
    let mut values: Vec<Double> = Vec::new();
    let mut n: usize = 0;
    while n < outdoor.len()
        invariant
            n <= outdoor.len(),
            values@ =~= outdoor_temperatures(outdoor@).take(n as int),
        decreases outdoor.len() - n,
    {
        values.push(outdoor[n].temperature_c);
        n = n + 1;
    }
    values
}

fn outdoor_dew_point_column(outdoor: &Vec<OutdoorReading>) -> (values: Vec<Double>)
    ensures
        values@ == outdoor_dew_points(outdoor@),
{
    let mut values: Vec<Double> = Vec::new();
    let mut n: usize = 0;
    while n < outdoor.len()
        invariant
            n <= outdoor.len(),
            values@ =~= outdoor_dew_points(outdoor@).take(n as int),
        decreases outdoor.len() - n,
    {
        values.push(outdoor[n].dew_point_c);
        n = n + 1;
    }
    values
}

/// The place of the day with this date, where there is one.
fn find_day<T: Stamped>(
    days: &Vec<DayRows>,
    date: &String,
    rows: &Vec<T>,
    dates: &Vec<String>,
    from_ts: i64,
) -> (found: Option<usize>)
    requires
        dates.len() == rows.len(),
        is_days(days@, rows@, dates@, from_ts, rows@.len()),
    ensures
        match found {
            Some(d) => {
                &&& d < days.len()
                &&& days@[d as int].rows@ == day_rows(
                    rows@,
                    dates@,
                    from_ts,
                    date@,
                    rows@.len(),
                )
                &&& days@[d as int].rows@.len() > 0
            },
            None => day_rows(rows@, dates@, from_ts, date@, rows@.len()).len() == 0,
        },
{
    let mut d: usize = 0;
    while d < days.len()
        invariant
            d <= days.len(),
            forall|c: int| 0 <= c < d ==> (#[trigger] days@[c]).date@ != date@,
            is_days(days@, rows@, dates@, from_ts, rows@.len()),
        decreases days.len() - d,
    {
        if days[d].date == *date {
            return Some(d);
        }
        d = d + 1;
    }
    proof {
        let places = day_rows(rows@, dates@, from_ts, date@, rows@.len());
        lemma_day_rows(rows@, dates@, from_ts, date@, rows@.len());
        if places.len() > 0 {
            let i = places[0] as int;
            assert(rows@[i].stamp() >= from_ts);
            assert(has_day(days@, dates@[i]@));
        }
    }
    None
}

/// Classifies one past day; see [`past_day_level`].
pub fn classify_day(
    saturated_minutes: u32,
    near_saturation_minutes: u32,
    min_temperature_c: Double,
    max_outdoor_dew_point_c: Option<Double>,
) -> (level: Level)
    ensures
        level == past_day_level(
            saturated_minutes as int,
            near_saturation_minutes as int,
            min_temperature_c,
            max_outdoor_dew_point_c,
        ),
{
    let damp = assess_day(saturated_minutes, near_saturation_minutes, 0, min_temperature_c);
    match max_outdoor_dew_point_c {
        Some(dew) if min_temperature_c.lt(dew) => damp.worse(Level::Warning),
        _ => damp,
    }
}

impl Db {
    /// Returns per-calendar-day temperature extremes at or after `from_ts`.
    ///
    /// Outdoor extremes are included for days that have weather
    /// observations; a day without readings is not listed.
    pub fn daily_extremes(&self, from_ts: i64, dates: &Dates) -> (result: Vec<DailyExtremes>)
        requires
            self@.valid(),
            dates.readings@.len() == self@.readings.len(),
            dates.outdoor@.len() == self@.outdoor.len(),
        ensures
            forall|c: int, d: int|
                0 <= c < d < result.len() ==> comes_before(
                    (#[trigger] result@[c]).date@,
                    (#[trigger] result@[d]).date@,
                ),
            forall|d: int|
                0 <= d < result.len() ==> is_day_extremes(
                    #[trigger] result@[d],
                    self@,
                    *dates,
                    from_ts,
                ),
            forall|i: int|
                0 <= i < self@.readings.len() && (#[trigger] self@.readings[i]).ts >= from_ts
                    ==> exists|d: int|
                    0 <= d < result.len() && (#[trigger] result@[d]).date@ == dates.readings@[i]@,
    {
        let indoor = temperature_column(&self.readings);
        let outdoor = outdoor_temperature_column(&self.outdoor);
        let days = days_of(&self.readings, &dates.readings, from_ts);
        let outdoor_days = days_of(&self.outdoor, &dates.outdoor, from_ts);
        let mut result: Vec<DailyExtremes> = Vec::new();
        let mut n: usize = 0;
        while n < days.len()
            invariant
                n <= days.len(),
                result.len() == n,
                dates.readings@.len() == self.readings.len(),
                dates.outdoor@.len() == self.outdoor.len(),
                indoor@ == temperatures(self.readings@),
                outdoor@ == outdoor_temperatures(self.outdoor@),
                is_days(
                    days@,
                    self.readings@,
                    dates.readings@,
                    from_ts,
                    self.readings@.len(),
                ),
                is_days(
                    outdoor_days@,
                    self.outdoor@,
                    dates.outdoor@,
                    from_ts,
                    self.outdoor@.len(),
                ),
                forall|d: int|
                    0 <= d < n ==> (#[trigger] result@[d]).date@ == days@[d].date@
                        && is_day_extremes(result@[d], self@, *dates, from_ts),
            decreases days.len() - n,
        {
            let day = &days[n];
            proof {
                lemma_day_rows(
                    self.readings@,
                    dates.readings@,
                    from_ts,
                    day.date@,
                    self.readings@.len(),
                );
                lemma_day_rows(
                    self.outdoor@,
                    dates.outdoor@,
                    from_ts,
                    day.date@,
                    self.outdoor@.len(),
                );
            }
            let (outdoor_min_c, outdoor_max_c) = match find_day(
                &outdoor_days,
                &day.date,
                &self.outdoor,
                &dates.outdoor,
                from_ts,
            ) {
                Some(d) => (
                    Some(least_at(&outdoor, &outdoor_days[d].rows)),
                    Some(greatest_at(&outdoor, &outdoor_days[d].rows)),
                ),
                None => (None, None),
            };
            result.push(
                DailyExtremes {
                    date: day.date.clone(),
                    min_c: least_at(&indoor, &day.rows),
                    max_c: greatest_at(&indoor, &day.rows),
                    outdoor_min_c,
                    outdoor_max_c,
                },
            );
            n = n + 1;
        }
        proof {
            assert forall|i: int|
                0 <= i < self@.readings.len() && (#[trigger] self@.readings[i]).ts
                    >= from_ts implies exists|d: int|
                0 <= d < result.len() && (#[trigger] result@[d]).date@ == dates.readings@[i]@ by {
                assert(self.readings@[i].stamp() >= from_ts);
                assert(has_day(days@, dates.readings@[i]@));
                let d = choose|d: int|
                    0 <= d < days.len() && (#[trigger] days@[d]).date@ == dates.readings@[i]@;
                assert(result@[d].date@ == days@[d].date@);
            }
        }
        result
    }

    /// Summarizes condensation risk per local calendar day at or after `from_ts`.
    ///
    /// For each day it tallies how long indoor air spent saturated
    /// (dew-point spread below 1 degree) or near saturation (below 3), plus
    /// the day's smallest spread, humidity peak, temperature low, and the
    /// day's highest outdoor dew point when weather data exists. Minutes are
    /// counted as distinct sample minutes, so the tallies stay honest at any
    /// sample interval. `spreads` holds the spread of each reading. The
    /// tallies are in range for any table of at most `u32::MAX` readings; see
    /// [`law_tallies_fit_where_readings_do`].
    pub fn daily_risk(&self, from_ts: i64, dates: &Dates, spreads: &Vec<Double>) -> (result: Vec<
        DayRisk,
    >)
        requires
            self@.valid(),
            tallies_fit(self@, *dates, spreads@, from_ts),
            dates.readings@.len() == self@.readings.len(),
            dates.outdoor@.len() == self@.outdoor.len(),
            spreads@.len() == self@.readings.len(),
        ensures
            forall|c: int, d: int|
                0 <= c < d < result.len() ==> comes_before(
                    (#[trigger] result@[c]).date@,
                    (#[trigger] result@[d]).date@,
                ),
            forall|d: int|
                0 <= d < result.len() ==> is_day_risk(
                    #[trigger] result@[d],
                    self@,
                    *dates,
                    spreads@,
                    from_ts,
                ),
            forall|i: int|
                0 <= i < self@.readings.len() && (#[trigger] self@.readings[i]).ts >= from_ts
                    ==> exists|d: int|
                    0 <= d < result.len() && (#[trigger] result@[d]).date@ == dates.readings@[i]@,
    {
        let temperature = temperature_column(&self.readings);
        let humidity = humidity_column(&self.readings);
        let dew_point = outdoor_dew_point_column(&self.outdoor);
        let days = days_of(&self.readings, &dates.readings, from_ts);
        let outdoor_days = days_of(&self.outdoor, &dates.outdoor, from_ts);
        let mut result: Vec<DayRisk> = Vec::new();
        let mut n: usize = 0;
        while n < days.len()
            invariant
                n <= days.len(),
                result.len() == n,
                in_time_order(self.readings@),
                tallies_fit(self@, *dates, spreads@, from_ts),
                dates.readings@.len() == self.readings.len(),
                dates.outdoor@.len() == self.outdoor.len(),
                spreads@.len() == self.readings.len(),
                temperature@ == temperatures(self.readings@),
                humidity@ == humidities(self.readings@),
                dew_point@ == outdoor_dew_points(self.outdoor@),
                is_days(
                    days@,
                    self.readings@,
                    dates.readings@,
                    from_ts,
                    self.readings@.len(),
                ),
                is_days(
                    outdoor_days@,
                    self.outdoor@,
                    dates.outdoor@,
                    from_ts,
                    self.outdoor@.len(),
                ),
                forall|d: int|
                    0 <= d < n ==> (#[trigger] result@[d]).date@ == days@[d].date@ && is_day_risk(
                        result@[d],
                        self@,
                        *dates,
                        spreads@,
                        from_ts,
                    ),
            decreases days.len() - n,
        {
            let day = &days[n];
            proof {
                lemma_day_rows(
                    self.readings@,
                    dates.readings@,
                    from_ts,
                    day.date@,
                    self.readings@.len(),
                );
                lemma_day_rows(
                    self.outdoor@,
                    dates.outdoor@,
                    from_ts,
                    day.date@,
                    self.outdoor@.len(),
                );
            }
            proof {
                let places = readings_of_day(self@, *dates, from_ts, day.date@);
                let near = near_saturation_minutes(self@, *dates, spreads@, from_ts, day.date@);
                assert(near.len() <= u32::MAX);
                lemma_flagged_minutes(
                    self.readings@,
                    spreads@,
                    places,
                    Double { bits: THREE },
                    0,
                );
                lemma_flagged_is_subset(self.readings@, spreads@, places);
                vstd::set_lib::lemma_len_subset(
                    saturated_minutes(self@, *dates, spreads@, from_ts, day.date@),
                    near,
                );
            }
            let saturated_minutes: u32 = distinct_minutes(
                &self.readings,
                spreads,
                &day.rows,
                Double::from_bits(ONE),
            );
            let near_saturation_minutes: u32 = distinct_minutes(
                &self.readings,
                spreads,
                &day.rows,
                Double::from_bits(THREE),
            );
            let min_temperature_c = least_at(&temperature, &day.rows);
            let max_outdoor_dew_point_c = match find_day(
                &outdoor_days,
                &day.date,
                &self.outdoor,
                &dates.outdoor,
                from_ts,
            ) {
                Some(d) => Some(greatest_at(&dew_point, &outdoor_days[d].rows)),
                None => None,
            };
            result.push(
                DayRisk {
                    date: day.date.clone(),
                    level: classify_day(
                        saturated_minutes,
                        near_saturation_minutes,
                        min_temperature_c,
                        max_outdoor_dew_point_c,
                    ),
                    saturated_minutes,
                    near_saturation_minutes,
                    min_spread_c: least_at(spreads, &day.rows),
                    max_humidity_pct: greatest_at(&humidity, &day.rows),
                    min_temperature_c,
                    max_outdoor_dew_point_c,
                },
            );
            n = n + 1;
        }
        proof {
            assert forall|i: int|
                0 <= i < self@.readings.len() && (#[trigger] self@.readings[i]).ts
                    >= from_ts implies exists|d: int|
                0 <= d < result.len() && (#[trigger] result@[d]).date@ == dates.readings@[i]@ by {
                assert(self.readings@[i].stamp() >= from_ts);
                assert(has_day(days@, dates.readings@[i]@));
                let d = choose|d: int|
                    0 <= d < days.len() && (#[trigger] days@[d]).date@ == dates.readings@[i]@;
                assert(result@[d].date@ == days@[d].date@);
            }
        }
        result
    }

    /// Records a renovation/timeline event, returning its id.
    pub fn add_event(&mut self, ts: i64, label: &str) -> (id: i64)
        requires
            old(self)@.valid(),
            next_event_id(old(self)@.events) <= i64::MAX,
        ensures
            final(self)@.valid(),
            id == next_event_id(old(self)@.events),
            final(self)@.readings == old(self)@.readings,
            final(self)@.outdoor == old(self)@.outdoor,
            final(self)@.events.len() == old(self)@.events.len() + 1,
            final(self)@.events.drop_last() == old(self)@.events,
            final(self)@.events.last().id == id,
            final(self)@.events.last().ts == ts,
            final(self)@.events.last().label@ == label@,
    {
        let n: usize = self.events.len();
        let id: i64 = if n == 0 {
            1
        } else {
            self.events[n - 1].id + 1
        };
        self.events.push(Event { id, ts, label: label.to_owned() });
        proof {
            assert(self@.events.drop_last() =~= old(self)@.events);
            assert forall|i: int, j: int| 0 <= i < j < self@.events.len() implies (
            #[trigger] self@.events[i]).id < (#[trigger] self@.events[j]).id by {
                assert(self@.events[i] == old(self)@.events[i]);
                if j < n {
                    assert(self@.events[j] == old(self)@.events[j]);
                } else if i < n - 1 {
                    assert(old(self)@.events[i].id < old(self)@.events[n - 1].id);
                }
            }
        }
        id
    }

    /// Takes over an event that was recorded before, with its id; it is left
    /// out where its id is not larger than those of the events that are here.
    pub fn restore_event(&mut self, event: Event) -> (taken: bool)
        requires
            old(self)@.valid(),
        ensures
            final(self)@.valid(),
            taken == (old(self)@.events.len() == 0 || old(self)@.events.last().id < event.id),
            taken ==> final(self)@ == (Tables {
                events: old(self)@.events.push(event),
                ..old(self)@
            }),
            !taken ==> final(self)@ == old(self)@,
    {
        let n: usize = self.events.len();
        if n > 0 && self.events[n - 1].id >= event.id {
            return false;
        }
        self.events.push(event);
        proof {
            assert forall|i: int, j: int| 0 <= i < j < self@.events.len() implies (
            #[trigger] self@.events[i]).id < (#[trigger] self@.events[j]).id by {
                assert(self@.events[i] == old(self)@.events[i]);
                if j < n {
                    assert(self@.events[j] == old(self)@.events[j]);
                } else if i < n - 1 {
                    assert(old(self)@.events[i].id < old(self)@.events[n - 1].id);
                }
            }
        }
        true
    }

    /// Returns all recorded events, oldest first; events of one time come in
    /// the order of their ids.
    pub fn events(&self) -> (events: Vec<Event>)
        ensures
            events@ == by_time(self@.events),
    {
        let mut events: Vec<Event> = Vec::new();
        let mut n: usize = 0;
        proof {
            assert(self.events@.take(0) =~= Seq::empty());
        }
        while n < self.events.len()
            invariant
                n <= self.events.len(),
                events@ == by_time(self.events@.take(n as int)),
            decreases self.events.len() - n,
        {
            let e = &self.events[n];
            proof {
                lemma_by_time_is_ordered(self.events@.take(n as int));
                let next = self.events@.take(n + 1);
                assert(next.drop_last() =~= self.events@.take(n as int));
                assert(next.last() == self.events@[n as int]);
            }
            store(&mut events, Event { id: e.id, ts: e.ts, label: e.label.clone() });
            n = n + 1;
        }
        proof {
            assert(self.events@.take(n as int) =~= self.events@);
        }
        events
    }

    /// Deletes an event by id, returning whether it existed.
    pub fn delete_event(&mut self, id: i64) -> (existed: bool)
        requires
            old(self)@.valid(),
        ensures
            final(self)@.valid(),
            existed == has_event(old(self)@.events, id),
            !existed ==> final(self)@ == old(self)@,
            existed ==> exists|k: int|
                0 <= k < old(self)@.events.len() && (#[trigger] old(self)@.events[k]).id == id
                    && final(self)@ == (Tables {
                    events: old(self)@.events.remove(k),
                    ..old(self)@
                }),
    {
        let mut k: usize = 0;
        while k < self.events.len()
            invariant
                k <= self.events.len(),
                *self == *old(self),
                old(self)@.valid(),
                forall|i: int| 0 <= i < k ==> (#[trigger] self@.events[i]).id != id,
            decreases self.events.len() - k,
        {
            if self.events[k].id == id {
                self.events.remove(k);
                proof {
                    let all = old(self)@.events;
                    all.remove_ensures(k as int);
                    assert(all[k as int].id == id);
                    assert forall|i: int, j: int| 0 <= i < j < self@.events.len() implies (
                    #[trigger] self@.events[i]).id < (#[trigger] self@.events[j]).id by {
                        let x = if i < k {
                            i
                        } else {
                            i + 1
                        };
                        let y = if j < k {
                            j
                        } else {
                            j + 1
                        };
                        assert(self@.events[i] == all[x] && self@.events[j] == all[y]);
                    }
                }
                return true;
            }
            k = k + 1;
        }
        false
    }
}

/// After a reading is stored, the latest reading is that one, unless a later
/// one was there already.
pub proof fn law_newest_reading_becomes_the_latest(t: Tables, r: Reading)
    requires
        t.valid(),
    ensures
        placed(t.readings, r).last() == if t.readings.len() == 0 || t.readings.last().ts <= r.ts {
            r
        } else {
            t.readings.last()
        },
{
    law_placed_keeps_time_order(t.readings, r);
    let p = place(t.readings, r.ts);
    t.readings.insert_ensures(p, r);
    if t.readings.len() > 0 && t.readings.last().ts > r.ts {
        assert(p <= t.readings.len() - 1) by {
            if p == t.readings.len() {
                assert(t.readings[p - 1].stamp() <= r.stamp());
            }
        }
        assert(placed(t.readings, r)[t.readings.len() as int] == t.readings[t.readings.len() - 1]);
    }
}

/// A column has one record: its value as a number and its time are
/// determined by the readings.
pub proof fn law_record_is_determined(
    t: Tables,
    a: Extreme,
    b: Extreme,
    column: Column,
    highest: bool,
)
    requires
        t.valid(),
        is_record(a, t.readings, column, highest),
        is_record(b, t.readings, column, highest),
    ensures
        a.ts == b.ts,
        a.value.units() == b.value.units(),
{
    let i = choose|i: int|
        0 <= i < t.readings.len() && (#[trigger] t.readings[i]).ts == a.ts && column_value(
            t.readings[i],
            column,
        ) == a.value;
    let j = choose|j: int|
        0 <= j < t.readings.len() && (#[trigger] t.readings[j]).ts == b.ts && column_value(
            t.readings[j],
            column,
        ) == b.value;
    assert(is_storable(t.readings[i]) && is_storable(t.readings[j]));
    assert(!is_beyond(column_value(t.readings[i], column), b.value, highest));
    assert(!is_beyond(column_value(t.readings[j], column), a.value, highest));
}

/// A record only ever moves outward: storing one more reading leaves a
/// record that the old one is not beyond.
pub proof fn law_records_only_move_outward(
    t: Tables,
    r: Reading,
    before: Extreme,
    after: Extreme,
    column: Column,
    highest: bool,
)
    requires
        t.valid(),
        is_storable(r),
        is_record(before, t.readings, column, highest),
        is_record(after, placed(t.readings, r), column, highest),
    ensures
        !is_beyond(before.value, after.value, highest),
{
    law_placed_keeps_time_order(t.readings, r);
    let p = place(t.readings, r.ts);
    t.readings.insert_ensures(p, r);
    let i = choose|i: int|
        0 <= i < t.readings.len() && (#[trigger] t.readings[i]).ts == before.ts && column_value(
            t.readings[i],
            column,
        ) == before.value;
    let k = if i < p {
        i
    } else {
        i + 1
    };
    assert(placed(t.readings, r)[k] == t.readings[i]);
}

/// An event that was just added has an id that no other event has, so that
/// deleting it gives back the events that were there before, and deleting it
/// a second time finds nothing.
pub proof fn law_added_event_can_be_deleted_once(t: Tables, e: Event)
    requires
        t.valid(),
        e.id == next_event_id(t.events),
    ensures
        !has_event(t.events, e.id),
        has_event(t.events.push(e), e.id),
        forall|k: int|
            0 <= k <= t.events.len() && (#[trigger] t.events.push(e)[k]).id == e.id
                ==> t.events.push(e).remove(k) == t.events,
{
    let n = t.events.len() as int;
    assert forall|k: int| 0 <= k < n implies (#[trigger] t.events[k]).id < e.id by {
        if k < n - 1 {
            assert(t.events[k].id < t.events[n - 1].id);
        }
    }
    assert(t.events.push(e)[n].id == e.id);
    assert forall|k: int|
        0 <= k <= t.events.len() && (#[trigger] t.events.push(e)[k]).id == e.id implies t.events.push(
        e,
    ).remove(k) == t.events by {
        if k < n {
            assert(t.events.push(e)[k] == t.events[k]);
        }
        assert(t.events.push(e).remove(k) =~= t.events);
    }
}

/// The list of events is oldest first and holds each event as often as the
/// table does.
pub proof fn law_events_are_listed_oldest_first(events: Seq<Event>)
    ensures
        in_time_order(by_time(events)),
        by_time(events).to_multiset() == events.to_multiset(),
    decreases events.len(),
{
    lemma_by_time_is_ordered(events);
    if events.len() > 0 {
        let front = events.drop_last();
        law_events_are_listed_oldest_first(front);
        let sorted = by_time(front);
        let p = place(sorted, events.last().ts);
        law_placed_keeps_time_order(sorted, events.last());
        vstd::seq_lib::to_multiset_insert(sorted, p, events.last());
        vstd::seq_lib::to_multiset_build(front, events.last());
        assert(events =~= front.push(events.last()));
    } else {
        assert(by_time(events) =~= events);
    }
}

/// Without outdoor observations there is nothing to compare with: the joined
/// history is empty.
pub proof fn law_no_delta_without_outdoor_rows(
    shared: Seq<SharedBucket<Reading, OutdoorReading>>,
    readings: Seq<Reading>,
    from_ts: i64,
    width: i64,
)
    requires
        is_join(shared, readings, Seq::<OutdoorReading>::empty(), from_ts, width),
    ensures
        shared.len() == 0,
{
    reveal(Seq::filter);
    if shared.len() > 0 {
        assert(shared[0].outdoor@.len() > 0);
    }
}

/// The tallies of every day are in range for any table with at most
/// `u32::MAX` readings.
pub proof fn law_tallies_fit_where_readings_do(
    t: Tables,
    dates: Dates,
    spreads: Seq<Double>,
    from_ts: i64,
)
    requires
        t.readings.len() <= u32::MAX,
    ensures
        tallies_fit(t, dates, spreads, from_ts),
{
    assert forall|date: Seq<char>|
        (#[trigger] near_saturation_minutes(t, dates, spreads, from_ts, date)).len()
            <= u32::MAX by {
        let places = readings_of_day(t, dates, from_ts, date);
        lemma_day_rows(t.readings, dates.readings@, from_ts, date, t.readings.len());
        lemma_flagged_minutes(t.readings, spreads, places, Double { bits: THREE }, 0);
    }
}

/// Saturated air is also near saturation: every saturated minute counts as
/// near saturation too, so that the second tally is never the smaller.
pub proof fn law_saturated_minutes_are_near_saturation(
    t: Tables,
    dates: Dates,
    spreads: Seq<Double>,
    from_ts: i64,
    e: DayRisk,
)
    requires
        is_day_risk(e, t, dates, spreads, from_ts),
    ensures
        e.saturated_minutes <= e.near_saturation_minutes,
{
    lemma_flagged_is_subset(t.readings, spreads, readings_of_day(t, dates, from_ts, e.date@));
    vstd::set_lib::lemma_len_subset(
        saturated_minutes(t, dates, spreads, from_ts, e.date@),
        near_saturation_minutes(t, dates, spreads, from_ts, e.date@),
    );
}

/// A day is critical exactly where its saturated minutes say so, and a damp
/// spell is worth at least a warning.
pub proof fn law_tallies_decide_the_level_of_a_day(
    t: Tables,
    dates: Dates,
    spreads: Seq<Double>,
    from_ts: i64,
    e: DayRisk,
)
    requires
        is_day_risk(e, t, dates, spreads, from_ts),
    ensures
        e.level == Level::Critical <==> e.saturated_minutes >= SATURATED_CRITICAL_MINUTES,
        e.near_saturation_minutes >= NEAR_SATURATION_WARNING_MINUTES ==> e.level.severity()
            >= Level::Warning.severity(),
{
}

/// The peaks and lows of a day's risk summary bound the day and are its own:
/// no reading of the day is colder, damper or closer to saturation, and some
/// reading of the day has each of the values. Only a day on which no spread
/// is a number has a smallest spread that is none of its own.
pub proof fn law_day_risk_bounds_the_day(
    t: Tables,
    dates: Dates,
    spreads: Seq<Double>,
    from_ts: i64,
    e: DayRisk,
)
    requires
        t.valid(),
        t.readings.len() <= usize::MAX,
        spreads.len() == t.readings.len(),
        is_day_risk(e, t, dates, spreads, from_ts),
    ensures
        forall|i: int|
            #![trigger t.readings[i]]
            0 <= i < t.readings.len() && of_day(
                t.readings,
                dates.readings@,
                from_ts,
                e.date@,
                i,
            ) ==> {
                &&& e.min_temperature_c.at_most(t.readings[i].temperature_c)
                &&& t.readings[i].humidity_pct.at_most(e.max_humidity_pct)
                &&& !spreads[i].is_nan() ==> e.min_spread_c.at_most(spreads[i]) && exists|k: int|
                    0 <= k < t.readings.len() && of_day(
                        t.readings,
                        dates.readings@,
                        from_ts,
                        e.date@,
                        k,
                    ) && #[trigger] spreads[k] == e.min_spread_c
            },
        exists|i: int|
            0 <= i < t.readings.len() && of_day(
                t.readings,
                dates.readings@,
                from_ts,
                e.date@,
                i,
            ) && (#[trigger] t.readings[i]).temperature_c == e.min_temperature_c,
        exists|i: int|
            0 <= i < t.readings.len() && of_day(
                t.readings,
                dates.readings@,
                from_ts,
                e.date@,
                i,
            ) && (#[trigger] t.readings[i]).humidity_pct == e.max_humidity_pct,
{
    let places = readings_of_day(t, dates, from_ts, e.date@);
    let temperature = pick(temperatures(t.readings), places);
    let humidity = pick(humidities(t.readings), places);
    let spread = pick(spreads, places);
    lemma_day_rows(t.readings, dates.readings@, from_ts, e.date@, t.readings.len());
    law_least_is_a_lower_bound(temperature);
    law_greatest_is_an_upper_bound(humidity);
    law_least_is_a_lower_bound(spread);
    assert(is_storable(t.readings[places[0] as int]));
    assert(!temperature[0].is_nan() && !humidity[0].is_nan());
    let a = choose|k: int| 0 <= k < temperature.len() && temperature[k] == e.min_temperature_c;
    assert(t.readings[places[a] as int].temperature_c == e.min_temperature_c);
    let b = choose|k: int| 0 <= k < humidity.len() && humidity[k] == e.max_humidity_pct;
    assert(t.readings[places[b] as int].humidity_pct == e.max_humidity_pct);
    assert forall|i: int|
        #![trigger t.readings[i]]
        0 <= i < t.readings.len() && of_day(
            t.readings,
            dates.readings@,
            from_ts,
            e.date@,
            i,
        ) implies {
        &&& e.min_temperature_c.at_most(t.readings[i].temperature_c)
        &&& t.readings[i].humidity_pct.at_most(e.max_humidity_pct)
        &&& !spreads[i].is_nan() ==> e.min_spread_c.at_most(spreads[i]) && exists|k: int|
            0 <= k < t.readings.len() && of_day(
                t.readings,
                dates.readings@,
                from_ts,
                e.date@,
                k,
            ) && #[trigger] spreads[k] == e.min_spread_c
    } by {
        assert(is_storable(t.readings[i]));
        assert(places.contains(i as usize));
        let k = choose|k: int| 0 <= k < places.len() && places[k] == i as usize;
        assert(temperature[k] == t.readings[i].temperature_c);
        assert(humidity[k] == t.readings[i].humidity_pct);
        assert(spread[k] == spreads[i]);
        if !spreads[i].is_nan() {
            let c = choose|c: int| 0 <= c < spread.len() && spread[c] == e.min_spread_c;
            assert(spreads[places[c] as int] == e.min_spread_c);
        }
    }
}

proof fn lemma_flagged_is_subset(readings: Seq<Reading>, spreads: Seq<Double>, places: Seq<usize>)
    ensures
        flagged_minutes(readings, spreads, places, Double { bits: ONE }).subset_of(
            flagged_minutes(readings, spreads, places, Double { bits: THREE }),
        ),
    decreases places.len(),
{
    law_named_doubles();
    if places.len() > 0 {
        lemma_flagged_is_subset(readings, spreads, places.drop_last());
    }
}

/// The extremes of a day bound its readings: none is colder than the
/// minimum or hotter than the maximum.
pub proof fn law_daily_extremes_bound_the_day(
    t: Tables,
    dates: Dates,
    from_ts: i64,
    e: DailyExtremes,
    i: int,
)
    requires
        t.valid(),
        t.readings.len() <= usize::MAX,
        is_day_extremes(e, t, dates, from_ts),
        0 <= i < t.readings.len(),
        t.readings[i].ts >= from_ts,
        dates.readings@[i]@ == e.date@,
    ensures
        e.min_c.at_most(t.readings[i].temperature_c),
        t.readings[i].temperature_c.at_most(e.max_c),
        e.min_c.at_most(e.max_c),
{
    let places = readings_of_day(t, dates, from_ts, e.date@);
    let values = pick(temperatures(t.readings), places);
    lemma_day_rows(t.readings, dates.readings@, from_ts, e.date@, t.readings.len());
    assert(places.contains(i as usize));
    let k = choose|k: int| 0 <= k < places.len() && places[k] == i as usize;
    assert(is_storable(t.readings[i]));
    assert(values[k] == t.readings[i].temperature_c);
    law_least_is_a_lower_bound(values);
    law_greatest_is_an_upper_bound(values);
}

proof fn lemma_picked_extremes(values: Seq<Double>, places: Seq<usize>)
    requires
        forall|k: int|
            0 <= k < places.len() ==> (#[trigger] places[k]) < values.len()
                && !values[places[k] as int].is_nan(),
    ensures
        forall|k: int|
            #![trigger places[k]]
            0 <= k < places.len() ==> least(pick(values, places)).units()
                <= values[places[k] as int].units() <= greatest(pick(values, places)).units(),
        !least(pick(values, places)).is_nan(),
        !greatest(pick(values, places)).is_nan(),
        places.len() > 0 ==> exists|k: int|
            0 <= k < places.len() && values[#[trigger] places[k] as int] == least(
                pick(values, places),
            ),
        places.len() > 0 ==> exists|k: int|
            0 <= k < places.len() && values[#[trigger] places[k] as int] == greatest(
                pick(values, places),
            ),
{
    let picked = pick(values, places);
    law_least_is_a_lower_bound(picked);
    law_greatest_is_an_upper_bound(picked);
    assert forall|k: int| #![trigger places[k]] 0 <= k < places.len() implies least(picked).units()
        <= values[places[k] as int].units() <= greatest(picked).units() by {
        assert(picked[k] == values[places[k] as int]);
    }
    if places.len() > 0 {
        assert(picked[0] == values[places[0] as int]);
        let a = choose|k: int| 0 <= k < picked.len() && picked[k] == least(picked);
        assert(values[places[a] as int] == least(picked));
        let b = choose|k: int| 0 <= k < picked.len() && picked[k] == greatest(picked);
        assert(values[places[b] as int] == greatest(picked));
    }
}

/// The lows and highs of a day are those of its readings: no reading of the
/// day is colder or hotter, and each is the temperature of one of them.
pub proof fn law_a_days_lows_and_highs_are_its_own(
    t: Tables,
    dates: Dates,
    from_ts: i64,
    e: DailyExtremes,
)
    requires
        t.valid(),
        t.readings.len() <= usize::MAX,
        is_day_extremes(e, t, dates, from_ts),
    ensures
        !e.min_c.is_nan(),
        !e.max_c.is_nan(),
        forall|i: int|
            #![trigger t.readings[i]]
            0 <= i < t.readings.len() && t.readings[i].ts >= from_ts && dates.readings@[i]@
                == e.date@ ==> e.min_c.units() <= t.readings[i].temperature_c.units()
                <= e.max_c.units(),
        exists|i: int|
            #![trigger t.readings[i]]
            0 <= i < t.readings.len() && t.readings[i].ts >= from_ts && dates.readings@[i]@
                == e.date@ && t.readings[i].temperature_c == e.min_c,
        exists|i: int|
            #![trigger t.readings[i]]
            0 <= i < t.readings.len() && t.readings[i].ts >= from_ts && dates.readings@[i]@
                == e.date@ && t.readings[i].temperature_c == e.max_c,
{
    let places = readings_of_day(t, dates, from_ts, e.date@);
    let values = temperatures(t.readings);
    lemma_day_rows(t.readings, dates.readings@, from_ts, e.date@, t.readings.len());
    assert forall|k: int| 0 <= k < places.len() implies (#[trigger] places[k]) < values.len()
        && !values[places[k] as int].is_nan() by {
        assert(is_storable(t.readings[places[k] as int]));
    }
    lemma_picked_extremes(values, places);
    assert forall|i: int|
        #![trigger t.readings[i]]
        0 <= i < t.readings.len() && t.readings[i].ts >= from_ts && dates.readings@[i]@
            == e.date@ implies e.min_c.units() <= t.readings[i].temperature_c.units()
        <= e.max_c.units() by {
        assert(places.contains(i as usize));
        let k = choose|k: int| 0 <= k < places.len() && places[k] == i as usize;
        assert(values[places[k] as int] == t.readings[i].temperature_c);
    }
    let a = choose|k: int|
        0 <= k < places.len() && values[#[trigger] places[k] as int] == least(pick(values, places));
    assert(t.readings[places[a] as int].temperature_c == e.min_c);
    let b = choose|k: int|
        0 <= k < places.len() && values[#[trigger] places[k] as int] == greatest(
            pick(values, places),
        );
    assert(t.readings[places[b] as int].temperature_c == e.max_c);
}

/// The outdoor low and high of a day are those of its observations: there are
/// none exactly where the day has no observation, and otherwise no
/// observation of the day is colder or hotter, and each is the temperature of
/// one of them.
pub proof fn law_a_days_outdoor_low_and_high_are_its_own(
    t: Tables,
    dates: Dates,
    from_ts: i64,
    e: DailyExtremes,
)
    requires
        t.valid(),
        t.outdoor.len() <= usize::MAX,
        is_day_extremes(e, t, dates, from_ts),
    ensures
        e.outdoor_min_c is Some <==> exists|i: int|
            #![trigger t.outdoor[i]]
            0 <= i < t.outdoor.len() && t.outdoor[i].ts >= from_ts && dates.outdoor@[i]@ == e.date@,
        e.outdoor_max_c is Some <==> e.outdoor_min_c is Some,
        forall|i: int|
            #![trigger t.outdoor[i]]
            0 <= i < t.outdoor.len() && t.outdoor[i].ts >= from_ts && dates.outdoor@[i]@ == e.date@
                ==> e.outdoor_min_c->Some_0.units() <= t.outdoor[i].temperature_c.units()
                <= e.outdoor_max_c->Some_0.units(),
        e.outdoor_min_c is Some ==> exists|i: int|
            #![trigger t.outdoor[i]]
            0 <= i < t.outdoor.len() && t.outdoor[i].ts >= from_ts && dates.outdoor@[i]@ == e.date@
                && t.outdoor[i].temperature_c == e.outdoor_min_c->Some_0,
        e.outdoor_max_c is Some ==> exists|i: int|
            #![trigger t.outdoor[i]]
            0 <= i < t.outdoor.len() && t.outdoor[i].ts >= from_ts && dates.outdoor@[i]@ == e.date@
                && t.outdoor[i].temperature_c == e.outdoor_max_c->Some_0,
{
    let places = outdoor_of_day(t, dates, from_ts, e.date@);
    let values = outdoor_temperatures(t.outdoor);
    lemma_day_rows(t.outdoor, dates.outdoor@, from_ts, e.date@, t.outdoor.len());
    assert forall|k: int| 0 <= k < places.len() implies (#[trigger] places[k]) < values.len()
        && !values[places[k] as int].is_nan() by {
        assert(is_storable_outdoor(t.outdoor[places[k] as int]));
    }
    lemma_picked_extremes(values, places);
    assert forall|i: int|
        #![trigger t.outdoor[i]]
        0 <= i < t.outdoor.len() && t.outdoor[i].ts >= from_ts && dates.outdoor@[i]@
            == e.date@ implies places.len() > 0 && e.outdoor_min_c->Some_0.units()
        <= t.outdoor[i].temperature_c.units() <= e.outdoor_max_c->Some_0.units() by {
        assert(places.contains(i as usize));
        let k = choose|k: int| 0 <= k < places.len() && places[k] == i as usize;
        assert(values[places[k] as int] == t.outdoor[i].temperature_c);
    }
    if places.len() > 0 {
        let a = choose|k: int|
            0 <= k < places.len() && values[#[trigger] places[k] as int] == least(
                pick(values, places),
            );
        assert(t.outdoor[places[a] as int].temperature_c == e.outdoor_min_c->Some_0);
        let b = choose|k: int|
            0 <= k < places.len() && values[#[trigger] places[k] as int] == greatest(
                pick(values, places),
            );
        assert(t.outdoor[places[b] as int].temperature_c == e.outdoor_max_c->Some_0);
    }
}

/// The highest outdoor dew point of a day's risk summary is that of its
/// observations: there is none exactly where the day has no observation, and
/// otherwise no observation of the day has a higher one, and one of them has
/// exactly that one.
pub proof fn law_the_highest_outdoor_dew_point_is_the_days_own(
    t: Tables,
    dates: Dates,
    spreads: Seq<Double>,
    from_ts: i64,
    e: DayRisk,
)
    requires
        t.valid(),
        t.outdoor.len() <= usize::MAX,
        is_day_risk(e, t, dates, spreads, from_ts),
    ensures
        e.max_outdoor_dew_point_c is Some <==> exists|i: int|
            #![trigger t.outdoor[i]]
            0 <= i < t.outdoor.len() && t.outdoor[i].ts >= from_ts && dates.outdoor@[i]@ == e.date@,
        forall|i: int|
            #![trigger t.outdoor[i]]
            0 <= i < t.outdoor.len() && t.outdoor[i].ts >= from_ts && dates.outdoor@[i]@ == e.date@
                ==> t.outdoor[i].dew_point_c.units() <= e.max_outdoor_dew_point_c->Some_0.units(),
        e.max_outdoor_dew_point_c is Some ==> exists|i: int|
            #![trigger t.outdoor[i]]
            0 <= i < t.outdoor.len() && t.outdoor[i].ts >= from_ts && dates.outdoor@[i]@ == e.date@
                && t.outdoor[i].dew_point_c == e.max_outdoor_dew_point_c->Some_0,
{
    let places = outdoor_of_day(t, dates, from_ts, e.date@);
    let values = outdoor_dew_points(t.outdoor);
    lemma_day_rows(t.outdoor, dates.outdoor@, from_ts, e.date@, t.outdoor.len());
    assert forall|k: int| 0 <= k < places.len() implies (#[trigger] places[k]) < values.len()
        && !values[places[k] as int].is_nan() by {
        assert(is_storable_outdoor(t.outdoor[places[k] as int]));
    }
    lemma_picked_extremes(values, places);
    assert forall|i: int|
        #![trigger t.outdoor[i]]
        0 <= i < t.outdoor.len() && t.outdoor[i].ts >= from_ts && dates.outdoor@[i]@
            == e.date@ implies places.len() > 0 && t.outdoor[i].dew_point_c.units()
        <= e.max_outdoor_dew_point_c->Some_0.units() by {
        assert(places.contains(i as usize));
        let k = choose|k: int| 0 <= k < places.len() && places[k] == i as usize;
        assert(values[places[k] as int] == t.outdoor[i].dew_point_c);
    }
    if places.len() > 0 {
        let b = choose|k: int|
            0 <= k < places.len() && values[#[trigger] places[k] as int] == greatest(
                pick(values, places),
            );
        assert(t.outdoor[places[b] as int].dew_point_c == e.max_outdoor_dew_point_c->Some_0);
    }
}

/// The coldest and the most humid of a day's risk summary are those of its
/// readings, and so is the smallest spread where the spreads of the day are
/// numbers.
pub proof fn law_a_days_risk_is_told_by_its_own_readings(
    t: Tables,
    dates: Dates,
    spreads: Seq<Double>,
    from_ts: i64,
    e: DayRisk,
)
    requires
        t.valid(),
        t.readings.len() <= usize::MAX,
        spreads.len() == t.readings.len(),
        is_day_risk(e, t, dates, spreads, from_ts),
    ensures
        forall|i: int|
            #![trigger t.readings[i]]
            0 <= i < t.readings.len() && t.readings[i].ts >= from_ts && dates.readings@[i]@
                == e.date@ ==> e.min_temperature_c.units() <= t.readings[i].temperature_c.units()
                && t.readings[i].humidity_pct.units() <= e.max_humidity_pct.units() && (
            !spreads[i].is_nan() ==> e.min_spread_c.units() <= spreads[i].units()),
        exists|i: int|
            #![trigger t.readings[i]]
            0 <= i < t.readings.len() && t.readings[i].ts >= from_ts && dates.readings@[i]@
                == e.date@ && t.readings[i].temperature_c == e.min_temperature_c,
        exists|i: int|
            #![trigger t.readings[i]]
            0 <= i < t.readings.len() && t.readings[i].ts >= from_ts && dates.readings@[i]@
                == e.date@ && t.readings[i].humidity_pct == e.max_humidity_pct,
        (exists|i: int|
            #![trigger t.readings[i]]
            0 <= i < t.readings.len() && t.readings[i].ts >= from_ts && dates.readings@[i]@
                == e.date@ && !spreads[i].is_nan()) ==> exists|i: int|
            #![trigger t.readings[i]]
            0 <= i < t.readings.len() && t.readings[i].ts >= from_ts && dates.readings@[i]@
                == e.date@ && spreads[i] == e.min_spread_c,
{
    let places = readings_of_day(t, dates, from_ts, e.date@);
    let temperature = temperatures(t.readings);
    let humidity = humidities(t.readings);
    let picked = pick(spreads, places);
    lemma_day_rows(t.readings, dates.readings@, from_ts, e.date@, t.readings.len());
    assert forall|k: int| 0 <= k < places.len() implies (#[trigger] places[k]) < t.readings.len()
        && !temperature[places[k] as int].is_nan() && !humidity[places[k] as int].is_nan() by {
        assert(is_storable(t.readings[places[k] as int]));
    }
    lemma_picked_extremes(temperature, places);
    lemma_picked_extremes(humidity, places);
    law_least_is_a_lower_bound(picked);
    assert forall|i: int|
        #![trigger t.readings[i]]
        0 <= i < t.readings.len() && t.readings[i].ts >= from_ts && dates.readings@[i]@
            == e.date@ implies e.min_temperature_c.units() <= t.readings[i].temperature_c.units()
        && t.readings[i].humidity_pct.units() <= e.max_humidity_pct.units() && (
    !spreads[i].is_nan() ==> e.min_spread_c.units() <= spreads[i].units()) by {
        assert(places.contains(i as usize));
        let k = choose|k: int| 0 <= k < places.len() && places[k] == i as usize;
        assert(temperature[places[k] as int] == t.readings[i].temperature_c);
        assert(humidity[places[k] as int] == t.readings[i].humidity_pct);
        assert(picked[k] == spreads[i]);
    }
    let a = choose|k: int|
        0 <= k < places.len() && temperature[#[trigger] places[k] as int] == least(
            pick(temperature, places),
        );
    assert(t.readings[places[a] as int].temperature_c == e.min_temperature_c);
    let b = choose|k: int|
        0 <= k < places.len() && humidity[#[trigger] places[k] as int] == greatest(
            pick(humidity, places),
        );
    assert(t.readings[places[b] as int].humidity_pct == e.max_humidity_pct);
    if exists|i: int|
        #![trigger t.readings[i]]
        0 <= i < t.readings.len() && t.readings[i].ts >= from_ts && dates.readings@[i]@ == e.date@
            && !spreads[i].is_nan() {
        let i = choose|i: int|
            #![trigger t.readings[i]]
            0 <= i < t.readings.len() && t.readings[i].ts >= from_ts && dates.readings@[i]@
                == e.date@ && !spreads[i].is_nan();
        assert(places.contains(i as usize));
        let k = choose|k: int| 0 <= k < places.len() && places[k] == i as usize;
        assert(picked[k] == spreads[i]);
        let c = choose|c: int| 0 <= c < picked.len() && picked[c] == e.min_spread_c;
        assert(t.readings[places[c] as int].ts >= from_ts);
        assert(spreads[places[c] as int] == e.min_spread_c);
    }
}

proof fn lemma_flagged_minutes_are_of_rows(
    readings: Seq<Reading>,
    spreads: Seq<Double>,
    places: Seq<usize>,
    limit: Double,
    m: int,
)
    ensures
        flagged_minutes(readings, spreads, places, limit).contains(m) <==> exists|k: int|
            0 <= k < places.len() && spreads[#[trigger] places[k] as int].below(limit)
                && readings[places[k] as int].ts as int / 60 == m,
    decreases places.len(),
{
    if places.len() > 0 {
        let front = places.drop_last();
        lemma_flagged_minutes_are_of_rows(readings, spreads, front, limit, m);
        if exists|k: int|
            0 <= k < front.len() && spreads[#[trigger] front[k] as int].below(limit)
                && readings[front[k] as int].ts as int / 60 == m {
            let k = choose|k: int|
                0 <= k < front.len() && spreads[#[trigger] front[k] as int].below(limit)
                    && readings[front[k] as int].ts as int / 60 == m;
            assert(places[k] == front[k]);
        }
        assert forall|k: int|
            0 <= k < places.len() && spreads[#[trigger] places[k] as int].below(limit)
                && readings[places[k] as int].ts as int / 60 == m implies flagged_minutes(
            readings,
            spreads,
            places,
            limit,
        ).contains(m) by {
            if k < front.len() {
                assert(front[k] == places[k]);
            }
        }
        let last = places.len() - 1;
        assert(places[last] == places.last());
    }
}

/// The tallies of a day count distinct minutes: the minutes in which some
/// reading of the day had a spread below 1 degree, and below 3.
pub proof fn law_tallies_count_the_distinct_minutes_of_the_day(
    t: Tables,
    dates: Dates,
    spreads: Seq<Double>,
    from_ts: i64,
    e: DayRisk,
    saturated: Set<int>,
    near: Set<int>,
)
    requires
        t.readings.len() <= usize::MAX,
        is_day_risk(e, t, dates, spreads, from_ts),
        forall|m: int| #[trigger]
            saturated.contains(m) <==> exists|i: int|
                #![trigger t.readings[i]]
                0 <= i < t.readings.len() && t.readings[i].ts >= from_ts && dates.readings@[i]@
                    == e.date@ && t.readings[i].ts as int / 60 == m && !spreads[i].is_nan()
                    && spreads[i].units() < pow2(1074),
        forall|m: int| #[trigger]
            near.contains(m) <==> exists|i: int|
                #![trigger t.readings[i]]
                0 <= i < t.readings.len() && t.readings[i].ts >= from_ts && dates.readings@[i]@
                    == e.date@ && t.readings[i].ts as int / 60 == m && !spreads[i].is_nan()
                    && spreads[i].units() < 3 * pow2(1074),
    ensures
        saturated.finite() && e.saturated_minutes == saturated.len(),
        near.finite() && e.near_saturation_minutes == near.len(),
{
    law_named_doubles();
    lemma_day_rows(t.readings, dates.readings@, from_ts, e.date@, t.readings.len());
    let places = readings_of_day(t, dates, from_ts, e.date@);
    let one = Double { bits: ONE };
    let three = Double { bits: THREE };
    assert(!one.is_nan() && !three.is_nan());
    assert forall|m: int| saturated.contains(m) == #[trigger] saturated_minutes(
        t,
        dates,
        spreads,
        from_ts,
        e.date@,
    ).contains(m) by {
        lemma_flagged_minutes_are_of_rows(t.readings, spreads, places, one, m);
        lemma_minutes_of_the_day(t, dates, spreads, from_ts, e.date@, one, m);
    }
    assert forall|m: int| near.contains(m) == #[trigger] near_saturation_minutes(
        t,
        dates,
        spreads,
        from_ts,
        e.date@,
    ).contains(m) by {
        lemma_flagged_minutes_are_of_rows(t.readings, spreads, places, three, m);
        lemma_minutes_of_the_day(t, dates, spreads, from_ts, e.date@, three, m);
    }
    assert(saturated =~= saturated_minutes(t, dates, spreads, from_ts, e.date@));
    assert(near =~= near_saturation_minutes(t, dates, spreads, from_ts, e.date@));
}

proof fn lemma_minutes_of_the_day(
    t: Tables,
    dates: Dates,
    spreads: Seq<Double>,
    from_ts: i64,
    date: Seq<char>,
    limit: Double,
    m: int,
)
    requires
        t.readings.len() <= usize::MAX,
        !limit.is_nan(),
    ensures
        ({
            let places = readings_of_day(t, dates, from_ts, date);
            (exists|k: int|
                0 <= k < places.len() && spreads[#[trigger] places[k] as int].below(limit)
                    && t.readings[places[k] as int].ts as int / 60 == m) <==> exists|i: int|
                #![trigger t.readings[i]]
                0 <= i < t.readings.len() && t.readings[i].ts >= from_ts && dates.readings@[i]@
                    == date && t.readings[i].ts as int / 60 == m && !spreads[i].is_nan()
                    && spreads[i].units() < limit.units()
        }),
{
    let places = readings_of_day(t, dates, from_ts, date);
    lemma_day_rows(t.readings, dates.readings@, from_ts, date, t.readings.len());
    if exists|k: int|
        0 <= k < places.len() && spreads[#[trigger] places[k] as int].below(limit)
            && t.readings[places[k] as int].ts as int / 60 == m {
        let k = choose|k: int|
            0 <= k < places.len() && spreads[#[trigger] places[k] as int].below(limit)
                && t.readings[places[k] as int].ts as int / 60 == m;
        let i = places[k] as int;
        assert(t.readings[i].ts >= from_ts && dates.readings@[i]@ == date);
    }
    if exists|i: int|
        #![trigger t.readings[i]]
        0 <= i < t.readings.len() && t.readings[i].ts >= from_ts && dates.readings@[i]@ == date
            && t.readings[i].ts as int / 60 == m && !spreads[i].is_nan() && spreads[i].units()
            < limit.units() {
        let i = choose|i: int|
            #![trigger t.readings[i]]
            0 <= i < t.readings.len() && t.readings[i].ts >= from_ts && dates.readings@[i]@ == date
                && t.readings[i].ts as int / 60 == m && !spreads[i].is_nan() && spreads[i].units()
                < limit.units();
        assert(places.contains(i as usize));
        let k = choose|k: int| 0 <= k < places.len() && places[k] == i as usize;
        assert(spreads[places[k] as int].below(limit));
    }
}

/// The level of a day follows from what its summary says: critical exactly
/// from 5 saturated minutes on, and worth a warning exactly from 15 minutes
/// near saturation on, where it froze, or where the highest outdoor dew point
/// is above the lowest indoor temperature.
pub proof fn law_a_days_summary_decides_its_level(
    saturated_minutes: int,
    near_saturation_minutes: int,
    low: Double,
    dew_point: Option<Double>,
)
    ensures
        ({
            let level = past_day_level(saturated_minutes, near_saturation_minutes, low, dew_point);
            &&& level == Level::Critical <==> saturated_minutes >= 5
            &&& level != Level::Okay <==> {
                ||| saturated_minutes >= 5
                ||| near_saturation_minutes >= 15
                ||| !low.is_nan() && low.units() <= 0
                ||| dew_point is Some && !low.is_nan() && !dew_point->Some_0.is_nan() && low.units()
                    < dew_point->Some_0.units()
            }
        }),
{
}

/// The same, of a day that is listed.
pub proof fn law_a_listed_day_has_the_level_of_its_summary(
    t: Tables,
    dates: Dates,
    spreads: Seq<Double>,
    from_ts: i64,
    e: DayRisk,
)
    requires
        is_day_risk(e, t, dates, spreads, from_ts),
    ensures
        e.level == Level::Critical <==> e.saturated_minutes >= 5,
        e.level != Level::Okay <==> {
            ||| e.saturated_minutes >= 5
            ||| e.near_saturation_minutes >= 15
            ||| !e.min_temperature_c.is_nan() && e.min_temperature_c.units() <= 0
            ||| e.max_outdoor_dew_point_c is Some && !e.min_temperature_c.is_nan()
                && !e.max_outdoor_dew_point_c->Some_0.is_nan() && e.min_temperature_c.units()
                < e.max_outdoor_dew_point_c->Some_0.units()
        },
{
}

/// The records are the extremes of all readings: no reading is hotter,
/// colder, damper or drier; each record is the value of a reading, with its
/// time; and no earlier reading has an equal value.
pub proof fn law_records_are_the_extremes_of_all_readings(t: Tables, r: Records)
    requires
        t.valid(),
        is_record(r.highest_temperature_c, t.readings, Column::Temperature, true),
        is_record(r.lowest_temperature_c, t.readings, Column::Temperature, false),
        is_record(r.highest_humidity_pct, t.readings, Column::Humidity, true),
        is_record(r.lowest_humidity_pct, t.readings, Column::Humidity, false),
    ensures
        forall|i: int|
            #![trigger t.readings[i]]
            0 <= i < t.readings.len() ==> {
                let (c, h) = (t.readings[i].temperature_c.units(), t.readings[i].humidity_pct.units());
                let ts = t.readings[i].ts;
                &&& r.lowest_temperature_c.value.units() <= c <= r.highest_temperature_c.value.units()
                &&& r.lowest_humidity_pct.value.units() <= h <= r.highest_humidity_pct.value.units()
                &&& c == r.highest_temperature_c.value.units() ==> r.highest_temperature_c.ts <= ts
                &&& c == r.lowest_temperature_c.value.units() ==> r.lowest_temperature_c.ts <= ts
                &&& h == r.highest_humidity_pct.value.units() ==> r.highest_humidity_pct.ts <= ts
                &&& h == r.lowest_humidity_pct.value.units() ==> r.lowest_humidity_pct.ts <= ts
            },
        exists|i: int|
            #![trigger t.readings[i]]
            0 <= i < t.readings.len() && t.readings[i].ts == r.highest_temperature_c.ts
                && t.readings[i].temperature_c == r.highest_temperature_c.value,
        exists|i: int|
            #![trigger t.readings[i]]
            0 <= i < t.readings.len() && t.readings[i].ts == r.lowest_temperature_c.ts
                && t.readings[i].temperature_c == r.lowest_temperature_c.value,
        exists|i: int|
            #![trigger t.readings[i]]
            0 <= i < t.readings.len() && t.readings[i].ts == r.highest_humidity_pct.ts
                && t.readings[i].humidity_pct == r.highest_humidity_pct.value,
        exists|i: int|
            #![trigger t.readings[i]]
            0 <= i < t.readings.len() && t.readings[i].ts == r.lowest_humidity_pct.ts
                && t.readings[i].humidity_pct == r.lowest_humidity_pct.value,
{
    assert forall|i: int| #![trigger t.readings[i]] 0 <= i < t.readings.len() implies is_storable(
        t.readings[i],
    ) by {}
}

/// Events are listed by time, and events of one time in the order in which
/// they were recorded: of any two in the list the first is earlier, or of the
/// same time with the smaller id.
pub proof fn law_listed_events_are_in_order(t: Tables)
    requires
        t.valid(),
    ensures
        forall|i: int, j: int|
            0 <= i < j < by_time(t.events).len() ==> {
                let (a, b) = (#[trigger] by_time(t.events)[i], #[trigger] by_time(t.events)[j]);
                a.ts < b.ts || (a.ts == b.ts && a.id < b.id)
            },
{
    lemma_by_time_is_stable(t.events);
    assert forall|i: int, j: int| 0 <= i < j < by_time(t.events).len() implies {
        let (a, b) = (#[trigger] by_time(t.events)[i], #[trigger] by_time(t.events)[j]);
        a.ts < b.ts || (a.ts == b.ts && a.id < b.id)
    } by {
        assert(is_listed_before(by_time(t.events)[i], by_time(t.events)[j]));
    }
}

/// Whether one event is listed in front of another.
pub open spec fn is_listed_before(a: Event, b: Event) -> bool {
    a.ts < b.ts || (a.ts == b.ts && a.id < b.id)
}

#[verifier::spinoff_prover]
proof fn lemma_by_time_is_stable(events: Seq<Event>)
    requires
        forall|i: int, j: int|
            0 <= i < j < events.len() ==> (#[trigger] events[i]).id < (#[trigger] events[j]).id,
    ensures
        forall|i: int|
            0 <= i < by_time(events).len() ==> (#[trigger] by_time(events)[i]).id
                <= events.last().id,
        forall|i: int, j: int|
            0 <= i < j < by_time(events).len() ==> #[trigger] is_listed_before(
                by_time(events)[i],
                by_time(events)[j],
            ),
    decreases events.len(),
{
    if events.len() > 0 {
        let front = events.drop_last();
        let new = events.last();
        let sorted = by_time(front);
        assert forall|i: int, j: int| 0 <= i < j < front.len() implies (#[trigger] front[i]).id < (
        #[trigger] front[j]).id by {
            assert(front[i] == events[i] && front[j] == events[j]);
        }
        lemma_by_time_is_stable(front);
        lemma_by_time_is_ordered(front);
        assert forall|i: int| 0 <= i < sorted.len() implies (#[trigger] sorted[i]).id < new.id by {
            let n = front.len() - 1;
            assert(sorted[i].id <= front[n].id);
            assert(events[n].id < events[n + 1].id);
        }
        lemma_placed_is_stable(sorted, new);
        assert forall|i: int| 0 <= i < by_time(events).len() implies (
        #[trigger] by_time(events)[i]).id <= new.id by {
            assert(placed(sorted, new)[i].id <= new.id);
        }
    }
}

#[verifier::spinoff_prover]
proof fn lemma_placed_is_stable(sorted: Seq<Event>, new: Event)
    requires
        in_time_order(sorted),
        forall|i: int| 0 <= i < sorted.len() ==> (#[trigger] sorted[i]).id < new.id,
        forall|i: int, j: int|
            0 <= i < j < sorted.len() ==> #[trigger] is_listed_before(sorted[i], sorted[j]),
    ensures
        forall|i: int| 0 <= i < placed(sorted, new).len() ==> (#[trigger] placed(sorted, new)[i]).id
            <= new.id,
        forall|i: int, j: int|
            0 <= i < j < placed(sorted, new).len() ==> #[trigger] is_listed_before(
                placed(sorted, new)[i],
                placed(sorted, new)[j],
            ),
{
    let all = placed(sorted, new);
    let p = place(sorted, new.ts);
    law_placed_keeps_time_order(sorted, new);
    sorted.insert_ensures(p, new);
    assert forall|i: int, j: int| 0 <= i < j < all.len() implies #[trigger] is_listed_before(
        all[i],
        all[j],
    ) by {
        let x = if i < p {
            i
        } else {
            i - 1
        };
        let y = if j < p {
            j
        } else {
            j - 1
        };
        if i == p {
            assert(all[j] == sorted[y]);
            assert(sorted[y].stamp() > new.stamp());
        } else if j == p {
            assert(all[i] == sorted[x]);
            assert(sorted[x].stamp() <= new.stamp());
        } else {
            assert(all[i] == sorted[x] && all[j] == sorted[y]);
            assert(is_listed_before(sorted[x], sorted[y]));
        }
    }
    assert forall|i: int| 0 <= i < all.len() implies (#[trigger] all[i]).id <= new.id by {
        if i < p {
            assert(all[i] == sorted[i]);
        } else if i > p {
            assert(all[i] == sorted[i - 1]);
        }
    }
}

/// An event is there to be deleted exactly where some event has its id, and a
/// new event gets the id that follows the last one.
pub proof fn law_events_are_known_by_their_ids(t: Tables, id: i64)
    requires
        t.valid(),
    ensures
        has_event(t.events, id) <==> exists|k: int|
            #![trigger t.events[k]]
            0 <= k < t.events.len() && t.events[k].id == id,
        t.events.len() == 0 ==> next_event_id(t.events) == 1,
        t.events.len() > 0 ==> next_event_id(t.events) == t.events[t.events.len() - 1].id + 1,
        has_event(t.events, id) ==> id < next_event_id(t.events),
{
    if has_event(t.events, id) {
        let k = choose|k: int| 0 <= k < t.events.len() && (#[trigger] t.events[k]).id == id;
        let n = t.events.len() - 1;
        if k < n {
            assert(t.events[k].id < t.events[n].id);
        }
    }
}

/// A row is refused exactly where one of its measurements is no number; an
/// outdoor row may do without a pressure.
pub proof fn law_rows_of_numbers_are_stored(r: Reading, o: OutdoorReading)
    ensures
        is_storable(r) <==> !r.temperature_c.is_nan() && !r.humidity_pct.is_nan()
            && !r.pressure_hpa.is_nan(),
        is_storable_outdoor(o) <==> !o.temperature_c.is_nan() && !o.humidity_pct.is_nan()
            && !o.dew_point_c.is_nan(),
{
}

/// A reading that was stored stands behind all readings that are not later
/// and in front of all that are, and nothing else of the table changes; so it
/// does for an outdoor observation.
pub proof fn law_stored_rows_stand_at_their_time(t: Tables, r: Reading, o: OutdoorReading)
    requires
        t.valid(),
    ensures
        exists|p: int|
            0 <= p <= t.readings.len() && placed(t.readings, r) == (#[trigger] t.readings.take(
                p,
            )).push(r) + t.readings.skip(p) && (forall|i: int|
                0 <= i < p ==> (#[trigger] t.readings[i]).ts <= r.ts) && (forall|i: int|
                p <= i < t.readings.len() ==> (#[trigger] t.readings[i]).ts > r.ts),
        exists|p: int|
            0 <= p <= t.outdoor.len() && placed(t.outdoor, o) == (#[trigger] t.outdoor.take(
                p,
            )).push(o) + t.outdoor.skip(p) && (forall|i: int|
                0 <= i < p ==> (#[trigger] t.outdoor[i]).ts <= o.ts) && (forall|i: int|
                p <= i < t.outdoor.len() ==> (#[trigger] t.outdoor[i]).ts > o.ts),
{
    law_placed_keeps_time_order(t.readings, r);
    law_placed_keeps_time_order(t.outdoor, o);
    let p = place(t.readings, r.ts);
    let q = place(t.outdoor, o.ts);
    t.readings.insert_ensures(p, r);
    t.outdoor.insert_ensures(q, o);
    assert(placed(t.readings, r) =~= t.readings.take(p).push(r) + t.readings.skip(p));
    assert(placed(t.outdoor, o) =~= t.outdoor.take(q).push(o) + t.outdoor.skip(q));
    assert forall|i: int| 0 <= i < p implies (#[trigger] t.readings[i]).ts <= r.ts by {
        assert(t.readings[i].stamp() <= r.stamp());
    }
    assert forall|i: int| p <= i < t.readings.len() implies (#[trigger] t.readings[i]).ts
        > r.ts by {
        assert(t.readings[i].stamp() > r.stamp());
    }
    assert forall|i: int| 0 <= i < q implies (#[trigger] t.outdoor[i]).ts <= o.ts by {
        assert(t.outdoor[i].stamp() <= o.stamp());
    }
    assert forall|i: int| q <= i < t.outdoor.len() implies (#[trigger] t.outdoor[i]).ts > o.ts by {
        assert(t.outdoor[i].stamp() > o.stamp());
    }
}

} // verus!
