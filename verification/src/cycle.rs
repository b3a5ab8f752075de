//! The measuring cycle that the sampler and the weather poller run forever.
//!
//! A cycle takes one measurement, stores it, tells the bus that it was
//! stored, and sleeps. A failed measurement or a failed store is skipped and
//! never ends the cycle: transient errors are expected over a long
//! deployment.

use crate::bus::DataEvent;
use vstd::prelude::*;

verus! {

/// What just happened in the cycle.
pub enum CycleEvent<T> {
    /// The interval is over, or the daemon has just started.
    Woke,
    /// A measurement was taken.
    Measured(T),
    /// The measurement failed.
    MeasureFailed,
    /// The measurement was stored.
    Stored,
    /// The measurement could not be stored.
    StoreFailed,
    /// The bus was told.
    Announced,
}

/// What to do next in the cycle.
pub enum CycleAction<T> {
    /// Take a measurement.
    Measure,
    /// Store this measurement.
    Store(T),
    /// Tell the bus; that nobody listens is fine.
    Announce(DataEvent),
    /// Sleep until the next interval.
    Sleep,
}

/// The next action of a cycle that announces `news`.
pub open spec fn next_action<T>(event: CycleEvent<T>, news: DataEvent) -> CycleAction<T> {
    match event {
        CycleEvent::Woke => CycleAction::Measure,
        CycleEvent::Measured(row) => CycleAction::Store(row),
        CycleEvent::MeasureFailed => CycleAction::Sleep,
        CycleEvent::Stored => CycleAction::Announce(news),
        CycleEvent::StoreFailed => CycleAction::Sleep,
        CycleEvent::Announced => CycleAction::Sleep,
    }
}

/// The next action of a cycle that announces `news`.
pub fn step<T>(event: CycleEvent<T>, news: DataEvent) -> (action: CycleAction<T>)
    ensures
        action == next_action(event, news),
{
    match event {
        CycleEvent::Woke => CycleAction::Measure,
        CycleEvent::Measured(row) => CycleAction::Store(row),
        CycleEvent::MeasureFailed => CycleAction::Sleep,
        CycleEvent::Stored => CycleAction::Announce(news),
        CycleEvent::StoreFailed => CycleAction::Sleep,
        CycleEvent::Announced => CycleAction::Sleep,
    }
}

/// Whether an event can follow an action.
pub open spec fn can_follow<T>(action: CycleAction<T>, event: CycleEvent<T>) -> bool {
    match action {
        CycleAction::Measure => event is Measured || event is MeasureFailed,
        CycleAction::Store(_) => event is Stored || event is StoreFailed,
        CycleAction::Announce(_) => event is Announced,
        CycleAction::Sleep => event is Woke,
    }
}

/// Whether these events can happen one after the other, from waking up on.
pub open spec fn is_run<T>(events: Seq<CycleEvent<T>>, news: DataEvent) -> bool {
    &&& events.len() > 0 ==> events[0] is Woke
    &&& forall|i: int, j: int|
        0 <= i < events.len() && j == i + 1 && j < events.len() ==> can_follow(
            next_action(#[trigger] events[i], news),
            #[trigger] events[j],
        )
}

/// Only what was just measured is stored, and only what was just stored is
/// announced.
pub proof fn law_only_measurements_are_stored_and_announced<T>(
    events: Seq<CycleEvent<T>>,
    news: DataEvent,
    i: int,
)
    requires
        is_run(events, news),
        0 <= i < events.len(),
    ensures
        events[i] is Stored ==> i > 0 && events[i - 1] is Measured,
        events[i] is Announced ==> i > 1 && events[i - 1] is Stored && events[i - 2] is Measured,
        next_action(events[i], news) is Store ==> events[i] == CycleEvent::Measured(
            next_action(events[i], news)->Store_0,
        ),
{
    if i > 0 {
        assert(can_follow(next_action(events[i - 1], news), events[i]));
        if events[i] is Announced {
            assert(can_follow(next_action(events[i - 2], news), events[i - 1]));
        }
    }
}

/// No failure ends the cycle: from any point of a run, the next measurement
/// is at most four events away.
pub proof fn law_no_failure_ends_the_cycle<T>(
    events: Seq<CycleEvent<T>>,
    news: DataEvent,
    i: int,
)
    requires
        is_run(events, news),
        0 <= i,
        i + 4 < events.len(),
    ensures
        exists|k: int| i <= k <= i + 4 && #[trigger] next_action(events[k], news) is Measure,
{
    assert(can_follow(next_action(events[i], news), events[i + 1]));
    assert(can_follow(next_action(events[i + 1], news), events[i + 2]));
    assert(can_follow(next_action(events[i + 2], news), events[i + 3]));
    assert(can_follow(next_action(events[i + 3], news), events[i + 4]));
    assert(next_action(events[i], news) is Measure || next_action(events[i + 1], news) is Measure
        || next_action(events[i + 2], news) is Measure || next_action(events[i + 3], news) is Measure
        || next_action(events[i + 4], news) is Measure);
}

/// What is measured is stored, unchanged, what is stored is announced, and
/// every failure leads to sleep: in a run, a measurement is followed by its
/// outcome in the store, a stored row by the announcement, and everything
/// else by the next waking up.
pub proof fn law_what_is_measured_is_stored_and_announced<T>(
    events: Seq<CycleEvent<T>>,
    news: DataEvent,
    i: int,
)
    requires
        is_run(events, news),
        0 <= i,
        i + 1 < events.len(),
    ensures
        events[i] is Woke ==> events[i + 1] is Measured || events[i + 1] is MeasureFailed,
        events[i] is Measured ==> (events[i + 1] is Stored || events[i + 1] is StoreFailed)
            && next_action(events[i], news) == CycleAction::Store(events[i]->Measured_0),
        events[i] is Stored ==> events[i + 1] is Announced && next_action(events[i], news)
            == CycleAction::<T>::Announce(news),
        events[i] is MeasureFailed || events[i] is StoreFailed || events[i] is Announced
            ==> events[i + 1] is Woke,
{
}

} // verus!
