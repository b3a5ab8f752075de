//! Push alerts on risk-level transitions.
//!
//! A notification goes out when the risk level *changes*: escalations
//! immediately, improvements only after a cooldown so a reading hovering at
//! a threshold can't flood the phone.

use crate::bus::DataEvent;
use crate::level::Level;
use vstd::prelude::*;

verus! {

/// Minimum time in seconds between an alert and the follow-up "improved /
/// all clear" notification. Escalations are never delayed.
pub const IMPROVEMENT_COOLDOWN: u64 = 15 * 60;

/// Nanoseconds in a second.
pub const NANOS_PER_SEC: u64 = 1_000_000_000;

/// Whether a notification should go out.
pub open spec fn is_due(level: Level, last_sent: Level, elapsed_since_send: Option<u64>) -> bool {
    ||| level.severity() > last_sent.severity()
    ||| level.severity() < last_sent.severity() && elapsed_since_send is Some
        && elapsed_since_send->Some_0 >= IMPROVEMENT_COOLDOWN
}

/// Decides whether a notification should go out.
///
/// Escalations always send; improvements (including all-clear) wait out
/// [`IMPROVEMENT_COOLDOWN`] since the last send, so conditions oscillating
/// around a threshold produce at most one alert pair per cooldown window.
/// The time since the last send is in whole seconds.
pub fn should_send(level: Level, last_sent: Level, elapsed_since_send: Option<u64>) -> (due: bool)
    ensures
        due == is_due(level, last_sent, elapsed_since_send),
{
    if level > last_sent {
        return true;
    }
    level < last_sent && match elapsed_since_send {
        Some(elapsed) => elapsed >= IMPROVEMENT_COOLDOWN,
        None => false,
    }
}

/// The headers of a notification.
pub struct Notice {
    /// Title line.
    pub title: &'static str,
    /// Delivery priority.
    pub priority: &'static str,
    /// Emoji tags.
    pub tags: &'static str,
}

/// The headers of the notification for a level.
pub fn notice(level: Level) -> (n: Notice)
    ensures
        match level {
            Level::Critical => n.title@ == "Garage alert"@ && n.priority@ == "urgent"@ && n.tags@
                == "rotating_light"@,
            Level::Warning => n.title@ == "Garage caution"@ && n.priority@ == "high"@ && n.tags@
                == "warning"@,
            Level::Okay => n.title@ == "Garage all clear"@ && n.priority@ == "default"@ && n.tags@
                == "white_check_mark"@,
        },
{
    match level {
        Level::Critical => Notice {
            title: "Garage alert",
            priority: "urgent",
            tags: "rotating_light",
        },
        Level::Warning => Notice { title: "Garage caution", priority: "high", tags: "warning" },
        Level::Okay => Notice {
            title: "Garage all clear",
            priority: "default",
            tags: "white_check_mark",
        },
    }
}

/// What the notifier got from the bus.
#[derive(Clone, Copy, Debug, PartialEq, Eq, Structural)]
pub enum BusItem {
    /// Something was stored or edited.
    Data(DataEvent),
    /// Some items were missed.
    Lagged,
    /// The bus is closed: the process is shutting down.
    Closed,
}

/// What the notifier does next.
#[derive(Clone, Copy, Debug, PartialEq, Eq, Structural)]
pub enum NotifyAction {
    /// Wait for the next item on the bus.
    Receive,
    /// Assess the current conditions.
    Assess,
    /// Send the assessment that was just made.
    Send,
    /// Stop.
    Stop,
}

/// What the notifier remembers: the level it last reported, and when, in
/// nanoseconds of a clock that never goes back.
#[derive(Clone, Copy, Debug, PartialEq, Eq, Structural)]
pub struct Notifier {
    /// The level of the last notification that was delivered.
    pub last_sent: Level,
    /// When that notification was delivered.
    pub last_sent_at: Option<u64>,
}

/// The whole seconds from a time to now, 0 where it is not in the past.
pub open spec fn secs_since(at: Option<u64>, now: u64) -> Option<u64> {
    match at {
        Some(then) => Some(
            if now >= then {
                ((now - then) / (NANOS_PER_SEC as int)) as u64
            } else {
                0
            },
        ),
        None => None,
    }
}

impl Notifier {
    /// The notifier at startup. It assumes all-clear: a healthy boot stays
    /// silent, a boot into bad conditions escalates on the first reading.
    pub fn new() -> (n: Notifier)
        ensures
            n == (Notifier { last_sent: Level::Okay, last_sent_at: None }),
    {
        Notifier { last_sent: Level::Okay, last_sent_at: None }
    }

    /// Whether an assessment of this level at this time is to be sent.
    pub open spec fn due(self, level: Level, now: u64) -> bool {
        is_due(level, self.last_sent, secs_since(self.last_sent_at, now))
    }

    /// What follows an item from the bus. Timeline edits don't change
    /// conditions; lagging just means fresher state is already waiting.
    pub fn on_item(&self, item: BusItem) -> (action: NotifyAction)
        ensures
            action == (match item {
                BusItem::Data(DataEvent::Reading) => NotifyAction::Assess,
                BusItem::Data(DataEvent::Outdoor) => NotifyAction::Assess,
                BusItem::Data(DataEvent::Events) => NotifyAction::Receive,
                BusItem::Lagged => NotifyAction::Receive,
                BusItem::Closed => NotifyAction::Stop,
            }),
    {
        match item {
            BusItem::Data(DataEvent::Reading) => NotifyAction::Assess,
            BusItem::Data(DataEvent::Outdoor) => NotifyAction::Assess,
            BusItem::Data(DataEvent::Events) => NotifyAction::Receive,
            BusItem::Lagged => NotifyAction::Receive,
            BusItem::Closed => NotifyAction::Stop,
        }
    }

    /// What follows an assessment at `now`; there is none while no reading
    /// is stored, or where the conditions could not be read.
    pub fn on_assessed(&self, level: Option<Level>, now: u64) -> (action: NotifyAction)
        ensures
            action == (if level is Some && self.due(level->Some_0, now) {
                NotifyAction::Send
            } else {
                NotifyAction::Receive
            }),
    {
        match level {
            Some(level) => {
                let elapsed: Option<u64> = match self.last_sent_at {
                    Some(then) => Some(
                        if now >= then {
                            (now - then) / NANOS_PER_SEC
                        } else {
                            0
                        },
                    ),
                    None => None,
                };
                if should_send(level, self.last_sent, elapsed) {
                    NotifyAction::Send
                } else {
                    NotifyAction::Receive
                }
            },
            None => NotifyAction::Receive,
        }
    }

    /// What follows an attempt to send: a delivered notification is
    /// remembered, and a failed one leaves everything as it was, so that the
    /// next reading retries.
    pub fn on_sent(&mut self, level: Level, delivered: bool, now: u64) -> (action: NotifyAction)
        ensures
            action == NotifyAction::Receive,
            *final(self) == old(self).remembering(level, delivered, now),
    {
        if delivered {
            self.last_sent = level;
            self.last_sent_at = Some(now);
        }
        NotifyAction::Receive
    }

    /// The notifier after an attempt to send.
    pub open spec fn remembering(self, level: Level, delivered: bool, now: u64) -> Notifier {
        if delivered {
            Notifier { last_sent: level, last_sent_at: Some(now) }
        } else {
            self
        }
    }
}

/// One assessment in the life of the notifier: its level and time, and, for
/// the case that it is sent, whether and when it is delivered.
pub struct Observation {
    /// The assessed level.
    pub level: Level,
    /// When it was assessed.
    pub at: u64,
    /// Whether a notification would be delivered.
    pub delivered: bool,
    /// When the attempt to send would end.
    pub done: u64,
}

/// One delivered notification.
pub struct Delivery {
    /// The level reported before.
    pub from: Level,
    /// The level reported now.
    pub to: Level,
    /// When it was decided to send.
    pub at: u64,
    /// When it was delivered.
    pub done: u64,
}

/// The notifier after these assessments.
pub open spec fn notifier_after(start: Notifier, seen: Seq<Observation>) -> Notifier
    decreases seen.len(),
{
    if seen.len() == 0 {
        start
    } else {
        let n = notifier_after(start, seen.drop_last());
        let o = seen.last();
        if n.due(o.level, o.at) {
            n.remembering(o.level, o.delivered, o.done)
        } else {
            n
        }
    }
}

/// The notifications that were delivered on these assessments.
pub open spec fn deliveries(start: Notifier, seen: Seq<Observation>) -> Seq<Delivery>
    decreases seen.len(),
{
    if seen.len() == 0 {
        Seq::empty()
    } else {
        let n = notifier_after(start, seen.drop_last());
        let o = seen.last();
        let earlier = deliveries(start, seen.drop_last());
        if n.due(o.level, o.at) && o.delivered {
            earlier.push(Delivery { from: n.last_sent, to: o.level, at: o.at, done: o.done })
        } else {
            earlier
        }
    }
}

/// Whether the assessments follow one another in time.
pub open spec fn in_sequence(seen: Seq<Observation>) -> bool {
    &&& forall|i: int| 0 <= i < seen.len() ==> (#[trigger] seen[i]).at <= seen[i].done
    &&& forall|i: int, j: int|
        0 <= i < j < seen.len() ==> (#[trigger] seen[i]).done <= (#[trigger] seen[j]).at
}

/// Whether a notification reports an improvement.
pub open spec fn improves(d: Delivery) -> bool {
    d.to.severity() < d.from.severity()
}

/// Whether a notification picks up the level of the one before it, and, where
/// it reports an improvement, waits out the cooldown.
pub open spec fn follows(earlier: Delivery, later: Delivery) -> bool {
    &&& later.from == earlier.to
    &&& improves(later) ==> later.at - earlier.done >= IMPROVEMENT_COOLDOWN * NANOS_PER_SEC
}

proof fn lemma_deliveries(seen: Seq<Observation>)
    requires
        in_sequence(seen),
    ensures
        ({
            let start = Notifier { last_sent: Level::Okay, last_sent_at: None };
            let n = notifier_after(start, seen);
            let all = deliveries(start, seen);
            &&& all.len() == 0 ==> n == start
            &&& all.len() > 0 ==> n.last_sent == all.last().to && n.last_sent_at == Some(
                all.last().done,
            )
            &&& forall|i: int|
                0 <= i < all.len() ==> seen.len() > 0 && (#[trigger] all[i]).done
                    <= seen.last().done && all[i].at <= all[i].done && all[i].from != all[i].to
            &&& forall|i: int, j: int|
                0 <= i < j < all.len() ==> (#[trigger] all[i]).done <= (#[trigger] all[j]).at
            &&& forall|i: int, j: int|
                0 <= i < all.len() && j == i + 1 && j < all.len() ==> #[trigger] follows(
                    all[i],
                    all[j],
                )
            &&& all.len() > 0 ==> all[0].from == Level::Okay && !improves(all[0])
        }),
    decreases seen.len(),
{
    let start = Notifier { last_sent: Level::Okay, last_sent_at: None };
    if seen.len() > 0 {
        let front = seen.drop_last();
        assert forall|i: int| 0 <= i < front.len() implies (#[trigger] front[i]).at
            <= front[i].done by {
            assert(front[i] == seen[i]);
        }
        assert forall|i: int, j: int| 0 <= i < j < front.len() implies (#[trigger] front[i]).done
            <= (#[trigger] front[j]).at by {
            assert(front[i] == seen[i] && front[j] == seen[j]);
        }
        lemma_deliveries(front);
        let n = notifier_after(start, front);
        let o = seen.last();
        let earlier = deliveries(start, front);
        let all = deliveries(start, seen);
        let top = seen.len() - 1;
        assert(seen[top] == o && o.at <= o.done);
        if front.len() > 0 {
            assert(front.last() == seen[top - 1]);
            assert(seen[top - 1].done <= seen[top].at);
        }
        assert forall|i: int| 0 <= i < earlier.len() implies (#[trigger] earlier[i]).done
            <= o.at by {
            assert(earlier[i].done <= front.last().done);
        }
        if n.due(o.level, o.at) && o.delivered {
            let d = all.last();
            if earlier.len() > 0 {
                let last = earlier.last();
                assert(earlier[earlier.len() - 1] == last);
                assert(last.done <= o.at);
                if improves(d) {
                    assert((o.at - last.done) / (NANOS_PER_SEC as int) >= IMPROVEMENT_COOLDOWN);
                    assert(o.at - last.done >= IMPROVEMENT_COOLDOWN * NANOS_PER_SEC);
                }
            }
            assert forall|i: int, j: int|
                0 <= i < all.len() && j == i + 1 && j < all.len() implies #[trigger] follows(
                all[i],
                all[j],
            ) by {
                if j < earlier.len() {
                    assert(follows(earlier[i], earlier[j]));
                }
            }
        }
    }
}

/// From startup on, every notification reports a change: the levels of one
/// notification after the other differ, starting from all-clear.
pub proof fn law_every_notification_reports_a_change(seen: Seq<Observation>)
    requires
        in_sequence(seen),
    ensures
        ({
            let all = deliveries(Notifier { last_sent: Level::Okay, last_sent_at: None }, seen);
            &&& forall|i: int| 0 <= i < all.len() ==> (#[trigger] all[i]).from != all[i].to
            &&& forall|i: int, j: int|
                0 <= i < all.len() && j == i + 1 && j < all.len() ==> (#[trigger] all[j]).from == (
                #[trigger] all[i]).to
            &&& all.len() > 0 ==> all[0].from == Level::Okay
        }),
{
    lemma_deliveries(seen);
    let all = deliveries(Notifier { last_sent: Level::Okay, last_sent_at: None }, seen);
    assert forall|i: int, j: int| 0 <= i < all.len() && j == i + 1 && j < all.len() implies (
    #[trigger] all[j]).from == (#[trigger] all[i]).to by {
        assert(follows(all[i], all[j]));
    }
}

/// Conditions that oscillate around a threshold cannot flood the phone: an
/// improvement is reported no sooner than the cooldown after the
/// notification before it, so that two improvements are at least the
/// cooldown apart.
pub proof fn law_improvements_are_a_cooldown_apart(seen: Seq<Observation>, i: int, j: int)
    requires
        in_sequence(seen),
    ensures
        ({
            let all = deliveries(Notifier { last_sent: Level::Okay, last_sent_at: None }, seen);
            0 <= i < j < all.len() && improves(all[j]) ==> all[j].at - all[i].done
                >= IMPROVEMENT_COOLDOWN * NANOS_PER_SEC
        }),
{
    lemma_deliveries(seen);
    let all = deliveries(Notifier { last_sent: Level::Okay, last_sent_at: None }, seen);
    if 0 <= i < j < all.len() {
        assert(follows(all[j - 1], all[j]));
        if i < j - 1 {
            assert(all[i].done <= all[j - 1].at);
        }
    }
}

/// Of any three notifications in a row one reports an improvement, so that
/// between two improvements there are at most two alerts.
pub proof fn law_at_most_two_alerts_in_a_row(seen: Seq<Observation>, i: int)
    requires
        in_sequence(seen),
        0 <= i,
        i + 2 < deliveries(Notifier { last_sent: Level::Okay, last_sent_at: None }, seen).len(),
    ensures
        ({
            let all = deliveries(Notifier { last_sent: Level::Okay, last_sent_at: None }, seen);
            improves(all[i]) || improves(all[i + 1]) || improves(all[i + 2])
        }),
{
    lemma_deliveries(seen);
    let all = deliveries(Notifier { last_sent: Level::Okay, last_sent_at: None }, seen);
    assert(follows(all[i], all[i + 1]));
    assert(follows(all[i + 1], all[i + 2]));
}

/// An escalation is never delayed, whatever was sent before and whenever.
pub proof fn law_escalations_are_never_delayed(n: Notifier, level: Level, now: u64)
    requires
        level.severity() > n.last_sent.severity(),
    ensures
        n.due(level, now),
{
}

/// An unchanged level stays silent.
pub proof fn law_unchanged_level_stays_silent(n: Notifier, now: u64)
    ensures
        !n.due(n.last_sent, now),
{
}

/// A notification that was not delivered is retried: it is still due at any
/// later assessment of the same level.
pub proof fn law_failed_send_is_retried(n: Notifier, level: Level, now: u64, later: u64)
    requires
        n.due(level, now),
        now <= later,
    ensures
        n.remembering(level, false, now).due(level, later),
{
    if n.last_sent_at is Some && now >= n.last_sent_at->Some_0 {
        let then = n.last_sent_at->Some_0;
        assert((now - then) / (NANOS_PER_SEC as int) <= (later - then) / (NANOS_PER_SEC as int));
    }
}

/// An improvement is told exactly from 15 minutes after the last delivery on,
/// and never where nothing was delivered before; a worse level is told at
/// once and an equal one never.
pub proof fn law_improvements_wait_exactly_a_quarter_of_an_hour(
    n: Notifier,
    level: Level,
    now: u64,
)
    ensures
        level.severity() > n.last_sent.severity() ==> n.due(level, now),
        level == n.last_sent ==> !n.due(level, now),
        level.severity() < n.last_sent.severity() ==> (n.due(level, now) <==> n.last_sent_at is Some
            && now - n.last_sent_at->Some_0 >= 900_000_000_000),
        forall|elapsed: Option<u64>| #[trigger]
            is_due(level, n.last_sent, elapsed) <==> level.severity() > n.last_sent.severity() || (
            level.severity() < n.last_sent.severity() && elapsed is Some && elapsed->Some_0 >= 900),
{
}

/// The notifier remembers a delivery, and only a delivery.
pub proof fn law_only_deliveries_are_remembered(n: Notifier, level: Level, delivered: bool, now: u64)
    ensures
        !delivered ==> n.remembering(level, delivered, now) == n,
        delivered ==> n.remembering(level, delivered, now).last_sent == level && n.remembering(
            level,
            delivered,
            now,
        ).last_sent_at == Some(now),
{
}

} // verus!
