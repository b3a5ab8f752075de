//! What each dashboard request asks of the store, and what it is answered.

use crate::bus::DataEvent;
use crate::rows::{OutdoorReading, Reading};
use crate::system::Stats;
use crate::table::{
    is_bucketing, law_number_of_buckets_is_bounded, usable_width, Bucket, Stamped,
};
use crate::text::{
    is_blank, is_white, law_blank_text_trims_to_nothing, law_trimmed_text_has_no_white_ends,
    law_trimming_takes_the_white_space_around, trim, trimmed,
};
use crate::weather::{
    assess_current, assesses, deref_air, fresh_air, fresh_outdoor, Assessment, IndoorAir,
    OutdoorAir,
};
use vstd::prelude::*;
use vstd::utf8::encode_utf8;

verus! {

/// Longest queryable window in hours; a year covers the full renovation
/// timeline.
pub const MAX_HOURS: u32 = 8_784;

/// Longest queryable window in days.
pub const MAX_DAYS: u32 = 366;

/// The hours that a request without a window asks for.
pub const DEFAULT_HOURS: u32 = 24;

/// The days that a request without a window asks for.
pub const DEFAULT_DAYS: u32 = 30;

/// Rough cap on points returned per query; keeps chart payloads small.
pub const MAX_POINTS: i64 = 1000;

/// Minimum delta bucket width; outdoor observations only arrive every
/// 15 minutes, so finer buckets would mostly be empty on the outdoor side.
pub const DELTA_MIN_BUCKET_SECS: i64 = 900;

/// Seconds in the longest queryable window.
pub const MAX_WINDOW_SECS: i64 = 31_622_400;

/// Longest event label, in bytes.
pub const MAX_LABEL_BYTES: usize = 100;

/// The rows that a chart shows.
#[derive(Clone, Copy, Debug, PartialEq, Eq, Structural)]
pub struct Window {
    /// First timestamp of the window.
    pub from_ts: i64,
    /// Width of one bucket.
    pub bucket_secs: i64,
}

/// A number of hours or days: the default where none is asked for, and
/// otherwise what is asked for, at least 1 and at most `max`.
pub open spec fn within(requested: Option<u32>, default: int, max: int) -> int {
    let n = match requested {
        Some(n) => n as int,
        None => default,
    };
    if n < 1 {
        1
    } else if n > max {
        max
    } else {
        n
    }
}

/// The larger of two numbers.
pub open spec fn at_least(n: int, least: int) -> int {
    if n < least {
        least
    } else {
        n
    }
}

/// Seconds in the window that a request asks for.
pub open spec fn window_secs(hours: Option<u32>) -> int {
    within(hours, DEFAULT_HOURS as int, MAX_HOURS as int) * 3600
}

/// The window that ends now, with buckets of at least the given width.
pub open spec fn is_window(
    window: Window,
    hours: Option<u32>,
    now: i64,
    least_bucket_secs: int,
) -> bool {
    &&& window.from_ts == now - window_secs(hours)
    &&& window.bucket_secs == at_least(window_secs(hours) / MAX_POINTS as int, least_bucket_secs)
}

fn clamped(requested: Option<u32>, default: u32, max: u32) -> (n: u32)
    requires
        1 <= max,
    ensures
        n == within(requested, default as int, max as int),
{
    let n: u32 = match requested {
        Some(n) => n,
        None => default,
    };
    if n < 1 {
        1
    } else if n > max {
        max
    } else {
        n
    }
}

fn window(hours: Option<u32>, now: i64, least_bucket_secs: i64) -> (w: Window)
    requires
        now >= i64::MIN + MAX_WINDOW_SECS,
        least_bucket_secs >= 1,
    ensures
        is_window(w, hours, now, least_bucket_secs as int),
{
    let secs: i64 = clamped(hours, DEFAULT_HOURS, MAX_HOURS) as i64 * 3600;
    let share: i64 = secs / MAX_POINTS;
    let bucket_secs: i64 = if share < least_bucket_secs {
        least_bucket_secs
    } else {
        share
    };
    Window { from_ts: now - secs, bucket_secs }
}

/// The window of a history chart: the last 24 hours or those asked for, with
/// buckets wide enough for roughly [`MAX_POINTS`] points.
pub fn readings_window(hours: Option<u32>, now: i64) -> (w: Window)
    requires
        now >= i64::MIN + MAX_WINDOW_SECS,
    ensures
        is_window(w, hours, now, 1),
{
    window(hours, now, 1)
}

/// The window of the chart that compares indoor and outdoor temperatures.
pub fn delta_window(hours: Option<u32>, now: i64) -> (w: Window)
    requires
        now >= i64::MIN + MAX_WINDOW_SECS,
    ensures
        is_window(w, hours, now, DELTA_MIN_BUCKET_SECS as int),
{
    window(hours, now, DELTA_MIN_BUCKET_SECS)
}

/// The first timestamp of a per-day summary of the last 30 days or those
/// asked for.
pub fn days_from(days: Option<u32>, now: i64) -> (from_ts: i64)
    requires
        now >= i64::MIN + MAX_WINDOW_SECS,
    ensures
        from_ts == now - within(days, DEFAULT_DAYS as int, MAX_DAYS as int) * 86_400,
{
    let n: i64 = clamped(days, DEFAULT_DAYS, MAX_DAYS) as i64;
    now - n * 86_400
}

/// A history chart has roughly [`MAX_POINTS`] points, whatever window is
/// asked for and however many rows are stored: a fifth more for the shortest
/// window, whose bucket width rounds down the most, and two for the buckets
/// at its ends.
pub proof fn law_history_has_roughly_the_maximum_of_points<T: Stamped>(
    window: Window,
    hours: Option<u32>,
    now: i64,
    buckets: Seq<Bucket<T>>,
    rows: Seq<T>,
)
    requires
        is_window(window, hours, now, 1),
        is_bucketing(buckets, rows, window.from_ts, window.bucket_secs),
        forall|k: int| 0 <= k < rows.len() ==> (#[trigger] rows[k]).stamp() <= now,
    ensures
        buckets.len() <= MAX_POINTS + MAX_POINTS / 5 + 2,
{
    law_number_of_buckets_is_bounded(buckets, rows, window.from_ts, now, window.bucket_secs);
    let hours = within(hours, DEFAULT_HOURS as int, MAX_HOURS as int);
    let secs = hours * 3600;
    let width = window.bucket_secs as int;
    assert(width >= 3 * hours);
    assert(secs / width <= 1200) by (nonlinear_arith)
        requires
            secs == hours * 3600,
            width >= 3 * hours,
            hours >= 1,
    ;
}

/// Every window of a chart ends now, starts at least an hour and at most a
/// leap year earlier, and has buckets of at least a second.
pub proof fn law_windows_are_bounded(window: Window, hours: Option<u32>, now: i64, least: int)
    requires
        is_window(window, hours, now, least),
        least >= 1,
    ensures
        3600 <= now - window.from_ts <= MAX_WINDOW_SECS,
        window.bucket_secs >= least,
{
}

/// What the stream sends with a message.
#[derive(Clone, Copy, Debug, PartialEq, Eq, Structural)]
pub enum Payload {
    /// The current conditions.
    Conditions,
    /// The timeline.
    Timeline,
}

/// One message of the stream.
pub struct Message {
    /// The name of the message.
    pub name: &'static str,
    /// What it carries.
    pub payload: Payload,
}

/// The message for an item on the bus; none for a receiver that lagged,
/// which just skips ahead: every message carries the full current state, so
/// dropped ones cost nothing.
pub fn message(item: Option<DataEvent>) -> (m: Option<Message>)
    ensures
        m is Some <==> item is Some,
        item == Some(DataEvent::Reading) ==> m->Some_0.name@ == "reading"@ && m->Some_0.payload
            == Payload::Conditions,
        item == Some(DataEvent::Outdoor) ==> m->Some_0.name@ == "outdoor"@ && m->Some_0.payload
            == Payload::Conditions,
        item == Some(DataEvent::Events) ==> m->Some_0.name@ == "events"@ && m->Some_0.payload
            == Payload::Timeline,
{
    match item {
        Some(DataEvent::Reading) => Some(
            Message { name: "reading", payload: Payload::Conditions },
        ),
        Some(DataEvent::Outdoor) => Some(
            Message { name: "outdoor", payload: Payload::Conditions },
        ),
        Some(DataEvent::Events) => Some(Message { name: "events", payload: Payload::Timeline }),
        None => None,
    }
}

/// A timeline event as it is asked for.
pub struct NewEvent {
    /// Unix seconds the event applies to; defaults to now.
    pub ts: Option<i64>,
    /// What happened.
    pub label: String,
}

/// Why a request is refused.
#[derive(Clone, Copy, Debug, PartialEq, Eq, Structural)]
pub enum RequestError {
    /// The label of an event is empty or too long.
    Label,
}

impl RequestError {
    /// What is wrong with the request.
    pub fn message(self) -> (text: &'static str)
        ensures
            text@ == "event label must be 1-100 characters"@,
    {
        match self {
            RequestError::Label => "event label must be 1-100 characters",
        }
    }
}

/// Whether a label is accepted: it is neither empty nor longer than
/// [`MAX_LABEL_BYTES`] once white space around it is gone.
pub open spec fn is_label(label: Seq<char>) -> bool {
    0 < trim(label).len() && encode_utf8(trim(label)).len() <= MAX_LABEL_BYTES
}

/// The time and label under which a new event is stored.
pub fn create_event(new_event: &NewEvent, now: i64) -> (r: Result<(i64, String), RequestError>)
    ensures
        r is Ok <==> is_label(new_event.label@),
        r is Err ==> r->Err_0 == RequestError::Label,
        r is Ok ==> r->Ok_0.1@ == trim(new_event.label@),
        r is Ok ==> r->Ok_0.0 == (match new_event.ts {
            Some(ts) => ts,
            None => now,
        }),
{
    let label = trimmed(new_event.label.as_str());
    if label.as_str().is_empty() || label.as_str().as_bytes().len() > MAX_LABEL_BYTES {
        return Err(RequestError::Label);
    }
    let ts: i64 = match new_event.ts {
        Some(ts) => ts,
        None => now,
    };
    Ok((ts, label))
}

/// A label that is stored has no white space around it, and would be
/// accepted again, unchanged.
pub proof fn law_stored_labels_are_clean(label: Seq<char>)
    requires
        is_label(label),
    ensures
        !crate::text::is_white(trim(label)[0]),
        !crate::text::is_white(trim(label).last()),
        is_label(trim(label)),
        trim(trim(label)) == trim(label),
{
    law_trimmed_text_has_no_white_ends(label);
}

/// The answer to an edit of the timeline.
#[derive(Clone, Copy, Debug, PartialEq, Eq, Structural)]
pub struct Reply {
    /// HTTP status.
    pub status: u16,
    /// What the bus is told, if anything.
    pub news: Option<DataEvent>,
}

/// The answer to a request whose event was stored.
pub fn created() -> (reply: Reply)
    ensures
        reply == (Reply { status: 201, news: Some(DataEvent::Events) }),
{
    Reply { status: 201, news: Some(DataEvent::Events) }
}

/// The answer to a request to delete an event: where there was such an event,
/// everyone hears that the timeline changed.
pub fn delete_event(existed: bool) -> (reply: Reply)
    ensures
        reply == (if existed {
            Reply { status: 204, news: Some(DataEvent::Events) }
        } else {
            Reply { status: 404, news: None }
        }),
{
    if existed {
        Reply { status: 204, news: Some(DataEvent::Events) }
    } else {
        Reply { status: 404, news: None }
    }
}

/// Combined current state for the dashboard header and warning banner.
#[derive(Debug)]
pub struct Conditions {
    /// The latest reading.
    pub indoor: Option<Reading>,
    /// The latest outdoor observation, unless it is stale.
    pub outdoor: Option<OutdoorReading>,
    /// What they mean.
    pub status: Option<Assessment>,
    /// Host health.
    pub system: Stats,
}

/// Builds the current state from the latest reading and observation.
pub fn current_conditions(
    indoor: Option<&IndoorAir>,
    outdoor: Option<&OutdoorAir>,
    system: Stats,
    now: i64,
) -> (c: Conditions)
    ensures
        c.system == system,
        c.indoor == (match indoor {
            Some(air) => Some(air.reading),
            None => None,
        }),
        c.outdoor == (match fresh_air(deref_air(outdoor), now) {
            Some(air) => Some(air.reading),
            None => None,
        }),
        c.status is Some <==> indoor is Some,
        c.status is Some ==> assesses(
            c.status->Some_0,
            *indoor->Some_0,
            fresh_air(deref_air(outdoor), now),
        ),
{
    let indoor_reading: Option<Reading> = match indoor {
        Some(air) => Some(air.reading),
        None => None,
    };
    let outdoor_reading: Option<OutdoorReading> = match outdoor {
        Some(air) => Some(air.reading),
        None => None,
    };
    Conditions {
        indoor: indoor_reading,
        outdoor: fresh_outdoor(outdoor_reading, now),
        status: assess_current(indoor, outdoor, now),
        system,
    }
}

/// A window covers the hours that are asked for: a day where none are, at
/// least one hour, at most 366 days; and a bucket is a thousandth of it, but
/// no less than the least width.
pub proof fn law_windows_cover_the_hours_asked_for(
    window: Window,
    hours: Option<u32>,
    now: i64,
    least: int,
)
    requires
        is_window(window, hours, now, least),
        least >= 1,
    ensures
        hours is None ==> now - window.from_ts == 86_400,
        hours == Some(0u32) ==> now - window.from_ts == 3600,
        hours is Some && 1 <= hours->Some_0 <= 8784 ==> now - window.from_ts == 3600
            * hours->Some_0,
        hours is Some && hours->Some_0 > 8784 ==> now - window.from_ts == 31_622_400,
        1000 * window.bucket_secs <= now - window.from_ts || window.bucket_secs == least,
        now - window.from_ts < 1000 * (window.bucket_secs + 1),
        window.bucket_secs >= least,
{
}

/// A summary covers the days that are asked for: 30 where none are, at least
/// one and at most 366.
pub proof fn law_summaries_cover_the_days_asked_for(days: Option<u32>)
    ensures
        ({
            let n = within(days, DEFAULT_DAYS as int, MAX_DAYS as int);
            &&& days is None ==> n == 30
            &&& days == Some(0u32) ==> n == 1
            &&& days is Some && 1 <= days->Some_0 <= 366 ==> n == days->Some_0
            &&& days is Some && days->Some_0 > 366 ==> n == 366
        }),
{
}

/// The history that the store gives for the window of a request has at most
/// 1202 points, whatever window is asked for.
pub proof fn law_requested_history_is_bounded<T: Stamped>(
    window: Window,
    hours: Option<u32>,
    now: i64,
    buckets: Seq<Bucket<T>>,
    rows: Seq<T>,
)
    requires
        is_window(window, hours, now, 1),
        is_bucketing(buckets, rows, window.from_ts, usable_width(window.bucket_secs)),
        forall|k: int| 0 <= k < rows.len() ==> (#[trigger] rows[k]).stamp() <= now,
    ensures
        buckets.len() <= 1202,
{
    assert(window.bucket_secs >= 1);
    law_history_has_roughly_the_maximum_of_points(window, hours, now, buckets, rows);
}

/// White space around a label is of no account: what is left is the label,
/// and it is accepted exactly where it has at most 100 bytes; white space
/// alone is no label.
pub proof fn law_labels_are_judged_without_the_white_space_around(
    before: Seq<char>,
    label: Seq<char>,
    after: Seq<char>,
)
    requires
        is_blank(before),
        is_blank(after),
        label.len() > 0,
        !is_white(label[0]),
        !is_white(label.last()),
    ensures
        trim(before + label + after) == label,
        is_label(before + label + after) <==> encode_utf8(label).len() <= 100,
        !is_label(before),
{
    law_trimming_takes_the_white_space_around(before, label, after);
    law_blank_text_trims_to_nothing(before);
}

} // verus!
