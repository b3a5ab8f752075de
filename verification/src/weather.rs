//! Condensation and frost risk.
//!
//! [`assess`] combines indoor and outdoor state into a dashboard warning:
//! condensation (warm humid air meeting cold surfaces) is what actually
//! destroys electronics in a semi-conditioned space, and frost is what kills
//! the houseplants. [`assess_day`] classifies a past day.

use crate::bus::DataEvent;
use crate::cycle::{next_action, step, CycleAction, CycleEvent};
use crate::double::{law_named_doubles, Double, HALF, ONE, THREE, ZERO};
pub use crate::level::Level;
use crate::rows::{OutdoorReading, Reading};
use vstd::arithmetic::power2::pow2;
use vstd::prelude::*;

verus! {

/// Seconds between two polls of the outdoor weather service.
pub const POLL_INTERVAL_SECS: u64 = 15 * 60;

/// Outdoor observations older than this are treated as missing: a stale
/// value from a dead poller must not silence (or raise) warnings.
pub const OUTDOOR_STALE_SECS: i64 = 2 * 3600;

/// An indoor reading with what floating-point arithmetic derives from it.
#[derive(Clone, Debug)]
pub struct IndoorAir {
    /// The reading.
    pub reading: Reading,
    /// Its dew point in degrees Celsius.
    pub dew_point_c: Double,
    /// Temperature minus dew point, in degrees Celsius.
    pub spread_c: Double,
    /// The temperature with one decimal.
    pub temperature_text: String,
    /// The spread with one decimal.
    pub spread_text: String,
}

/// An outdoor observation with its dew point rendered.
#[derive(Clone, Debug)]
pub struct OutdoorAir {
    /// The observation.
    pub reading: OutdoorReading,
    /// The dew point with one decimal.
    pub dew_point_text: String,
}

/// A risk verdict for the dashboard banner.
#[derive(Clone, Debug)]
pub struct Assessment {
    /// Severity level.
    pub level: Level,
    /// Human-readable explanation.
    pub message: String,
    /// Indoor dew point in degrees Celsius, derived from the latest indoor reading.
    pub indoor_dew_point_c: Double,
    /// How far indoor air is from saturating, in degrees Celsius.
    pub dew_point_spread_c: Double,
}

/// One kind of risk: how bad it is, and the sentence that says so.
pub struct Issue {
    /// Severity of this risk alone.
    pub level: Level,
    /// What the banner says of it; empty where the level is `Okay`.
    pub text: String,
}

/// The condensation risk: saturated below a spread of 1 degree, near
/// saturation below 3, and otherwise a warning where the outdoor dew point
/// is above the indoor temperature.
pub open spec fn condensation_risk(indoor: IndoorAir, outdoor: Option<OutdoorAir>) -> (
    Level,
    Seq<char>,
) {
    if indoor.spread_c.below_halves(2) {
        (
            Level::Critical,
            "Indoor air is saturated — condensation is likely forming on surfaces right now."@,
        )
    } else if indoor.spread_c.below_halves(6) {
        (
            Level::Warning,
            "Indoor air is near saturation (only "@ + indoor.spread_text@
                + " °C above the dew point) — condensation risk on cold surfaces."@,
        )
    } else {
        match outdoor {
            Some(o) if indoor.reading.temperature_c.below(o.reading.dew_point_c) => (
                Level::Warning,
                "Outdoor dew point ("@ + o.dew_point_text@
                    + " °C) is at or above the indoor temperature ("@ + indoor.temperature_text@
                    + " °C) — incoming air will condense on anything in here. Keep the space closed up."@,
            ),
            _ => (Level::Okay, Seq::empty()),
        }
    }
}

/// The frost risk: freezing at half a degree or less, near freezing up to 3.
pub open spec fn frost_risk(indoor: IndoorAir) -> (Level, Seq<char>) {
    if indoor.reading.temperature_c.at_most_halves(1) {
        (
            Level::Critical,
            "Freezing in here ("@ + indoor.temperature_text@
                + " °C) — frost damages houseplants and anything that holds water."@,
        )
    } else if indoor.reading.temperature_c.at_most_halves(6) {
        (
            Level::Warning,
            "Near freezing ("@ + indoor.temperature_text@
                + " °C) — cold spots at the floor can frost before the air does. Move houseplants somewhere warmer."@,
        )
    } else {
        (Level::Okay, Seq::empty())
    }
}

/// What the banner says of two risks: each that is not `Okay`, the most severe
/// first, and the first of them first where they are equally severe.
pub open spec fn report(first: (Level, Seq<char>), second: (Level, Seq<char>)) -> Seq<char> {
    if first.0 == Level::Okay && second.0 == Level::Okay {
        "No condensation or frost risk."@
    } else if first.0 == Level::Okay {
        second.1
    } else if second.0 == Level::Okay {
        first.1
    } else if first.0.severity() < second.0.severity() {
        second.1 + " "@ + first.1
    } else {
        first.1 + " "@ + second.1
    }
}

/// The level and the message of an assessment.
pub open spec fn verdict(indoor: IndoorAir, outdoor: Option<OutdoorAir>) -> (Level, Seq<char>) {
    let condensation = condensation_risk(indoor, outdoor);
    let frost = frost_risk(indoor);
    (condensation.0.worse_of(frost.0), report(condensation, frost))
}

/// Whether an observation taken at `ts` still counts at `now`.
pub open spec fn is_fresh(ts: i64, now: i64) -> bool {
    now - ts <= OUTDOOR_STALE_SECS
}

/// An outdoor observation, where there is one that still counts.
pub open spec fn fresh_air(outdoor: Option<OutdoorAir>, now: i64) -> Option<OutdoorAir> {
    match outdoor {
        Some(o) if is_fresh(o.reading.ts, now) => Some(o),
        _ => None,
    }
}

/// Whether the assessment says this of this indoor and outdoor air.
pub open spec fn assesses(a: Assessment, indoor: IndoorAir, outdoor: Option<OutdoorAir>) -> bool {
    &&& (a.level, a.message@) == verdict(indoor, outdoor)
    &&& a.indoor_dew_point_c == indoor.dew_point_c
    &&& a.dew_point_spread_c == indoor.spread_c
}

fn condensation_issue(indoor: &IndoorAir, outdoor: Option<&OutdoorAir>) -> (issue: Issue)
    ensures
        (issue.level, issue.text@) == condensation_risk(*indoor, deref_air(outdoor)),
{
    proof {
        law_named_doubles();
    }
    if indoor.spread_c.lt(Double::from_bits(ONE)) {
        return Issue {
            level: Level::Critical,
            text: "Indoor air is saturated — condensation is likely forming on surfaces right now.".to_owned(),
        };
    }
    if indoor.spread_c.lt(Double::from_bits(THREE)) {
        let mut text = "Indoor air is near saturation (only ".to_owned();
        text.append(indoor.spread_text.as_str());
        text.append(" °C above the dew point) — condensation risk on cold surfaces.");
        return Issue { level: Level::Warning, text };
    }
    match outdoor {
        Some(o) if indoor.reading.temperature_c.lt(o.reading.dew_point_c) => {
            // "at or above": the comparison is strict, but at one decimal of
            // display the two values can render as equal.
            let mut text = "Outdoor dew point (".to_owned();
            text.append(o.dew_point_text.as_str());
            text.append(" °C) is at or above the indoor temperature (");
            text.append(indoor.temperature_text.as_str());
            text.append(" °C) — incoming air will condense on anything in here. Keep the space closed up.");
            Issue { level: Level::Warning, text }
        },
        _ => Issue { level: Level::Okay, text: String::new() },
    }
}

fn frost_issue(indoor: &IndoorAir) -> (issue: Issue)
    ensures
        (issue.level, issue.text@) == frost_risk(*indoor),
{
    proof {
        law_named_doubles();
    }
    if indoor.reading.temperature_c.le(Double::from_bits(HALF)) {
        let mut text = "Freezing in here (".to_owned();
        text.append(indoor.temperature_text.as_str());
        text.append(" °C) — frost damages houseplants and anything that holds water.");
        Issue { level: Level::Critical, text }
    } else if indoor.reading.temperature_c.le(Double::from_bits(THREE)) {
        let mut text = "Near freezing (".to_owned();
        text.append(indoor.temperature_text.as_str());
        text.append(" °C) — cold spots at the floor can frost before the air does. Move houseplants somewhere warmer.");
        Issue { level: Level::Warning, text }
    } else {
        Issue { level: Level::Okay, text: String::new() }
    }
}

fn joined(first: Issue, second: Issue) -> (text: String)
    ensures
        text@ == report((first.level, first.text@), (second.level, second.text@)),
{
    if first.level == Level::Okay && second.level == Level::Okay {
        "No condensation or frost risk.".to_owned()
    } else if first.level == Level::Okay {
        second.text
    } else if second.level == Level::Okay {
        first.text
    } else if first.level < second.level {
        let mut text = second.text;
        text.append(" ");
        text.append(first.text.as_str());
        text
    } else {
        let mut text = first.text;
        text.append(" ");
        text.append(second.text.as_str());
        text
    }
}

/// The air behind the reference, where there is one.
pub open spec fn deref_air(outdoor: Option<&OutdoorAir>) -> Option<OutdoorAir> {
    match outdoor {
        Some(o) => Some(*o),
        None => None,
    }
}

/// Assesses condensation and frost risk from indoor conditions and, when
/// available, outdoor conditions.
///
/// The failure modes it watches for:
/// - indoor air already near saturation (spread between temperature and
///   dew point closing to zero: moisture will film onto every surface);
/// - outdoor dew point above indoor temperature (opening the door lets air
///   in that will condense onto still-cold contents);
/// - indoor temperature at or approaching freezing (frost kills houseplants
///   and anything that holds water long before it bothers electronics).
///
/// The worst level wins; a doubly bad day reports both problems.
pub fn assess(indoor: &IndoorAir, outdoor: Option<&OutdoorAir>) -> (a: Assessment)
    ensures
        assesses(a, *indoor, deref_air(outdoor)),
{
    let condensation = condensation_issue(indoor, outdoor);
    let frost = frost_issue(indoor);
    let level = condensation.level.worse(frost.level);
    let message = joined(condensation, frost);
    Assessment {
        level,
        message,
        indoor_dew_point_c: indoor.dew_point_c,
        dew_point_spread_c: indoor.spread_c,
    }
}

/// The outdoor observation, where there is one that still counts at `now`.
pub fn fresh_outdoor(outdoor: Option<OutdoorReading>, now: i64) -> (r: Option<OutdoorReading>)
    ensures
        r == (match outdoor {
            Some(o) if is_fresh(o.ts, now) => Some(o),
            _ => None,
        }),
{
    match outdoor {
        Some(o) => {
            if now as i128 - o.ts as i128 <= OUTDOOR_STALE_SECS as i128 {
                Some(o)
            } else {
                None
            }
        },
        None => None,
    }
}

/// Assesses the current state: nothing without an indoor reading, and
/// without outdoor conditions where the last observation is stale.
pub fn assess_current(
    indoor: Option<&IndoorAir>,
    outdoor: Option<&OutdoorAir>,
    now: i64,
) -> (status: Option<Assessment>)
    ensures
        status is Some <==> indoor is Some,
        status is Some ==> assesses(
            status->Some_0,
            *indoor->Some_0,
            fresh_air(deref_air(outdoor), now),
        ),
{
    match indoor {
        Some(air) => {
            let current: Option<&OutdoorAir> = match outdoor {
                Some(o) => {
                    if fresh_outdoor(Some(o.reading), now).is_some() {
                        Some(o)
                    } else {
                        None
                    }
                },
                None => None,
            };
            Some(assess(air, current))
        },
        None => None,
    }
}

/// The next action of the weather poller.
pub fn poller_step(event: CycleEvent<OutdoorReading>) -> (action: CycleAction<OutdoorReading>)
    ensures
        action == next_action(event, DataEvent::Outdoor),
{
    step(event, DataEvent::Outdoor)
}

/// Saturated minutes that make a day critical.
pub const SATURATED_CRITICAL_MINUTES: u32 = 5;

/// Minutes near saturation that make a day worth a warning.
pub const NEAR_SATURATION_WARNING_MINUTES: u32 = 15;

/// Minutes of incoming-air exposure that make a day worth a warning.
pub const INCOMING_AIR_WARNING_MINUTES: u32 = 15;

/// The level of a past day.
pub open spec fn day_level(
    saturated_minutes: int,
    near_saturation_minutes: int,
    incoming_air_minutes: int,
    min_temperature_c: Double,
) -> Level {
    if saturated_minutes >= SATURATED_CRITICAL_MINUTES {
        Level::Critical
    } else if near_saturation_minutes >= NEAR_SATURATION_WARNING_MINUTES || incoming_air_minutes
        >= INCOMING_AIR_WARNING_MINUTES || min_temperature_c.at_most_halves(0) {
        Level::Warning
    } else {
        Level::Okay
    }
}

/// Classifies one past day's risk from its aggregates.
///
/// `incoming_air_minutes` counts sample minutes where the *concurrent*
/// outdoor dew point exceeded the indoor temperature, the same moment-by-
/// moment comparison the live banner makes. A few saturated minutes can be
/// sensor noise around a real spread of about 1 degree; a quarter hour near
/// saturation (or of incoming-air exposure) is a genuine damp spell. Frost
/// only flags an actual dip to freezing, not the wider band that the live
/// banner warns about.
pub fn assess_day(
    saturated_minutes: u32,
    near_saturation_minutes: u32,
    incoming_air_minutes: u32,
    min_temperature_c: Double,
) -> (level: Level)
    ensures
        level == day_level(
            saturated_minutes as int,
            near_saturation_minutes as int,
            incoming_air_minutes as int,
            min_temperature_c,
        ),
{
    proof {
        law_named_doubles();
    }
    if saturated_minutes >= SATURATED_CRITICAL_MINUTES {
        Level::Critical
    } else if near_saturation_minutes >= NEAR_SATURATION_WARNING_MINUTES || incoming_air_minutes
        >= INCOMING_AIR_WARNING_MINUTES || min_temperature_c.le(Double::from_bits(ZERO)) {
        Level::Warning
    } else {
        Level::Okay
    }
}

/// Whether `text` stands somewhere in `message`.
pub open spec fn mentions(message: Seq<char>, text: Seq<char>) -> bool {
    exists|i: int|
        0 <= i <= message.len() - text.len() && #[trigger] message.subrange(i, i + text.len())
            == text
}

/// The worst level wins, and a doubly bad day reports both problems: the
/// level is that of the more severe risk, and the message holds the sentence
/// of every risk that is not `Okay`.
pub proof fn law_worst_level_wins_and_every_problem_is_reported(
    indoor: IndoorAir,
    outdoor: Option<OutdoorAir>,
)
    ensures
        ({
            let (level, message) = verdict(indoor, outdoor);
            let condensation = condensation_risk(indoor, outdoor);
            let frost = frost_risk(indoor);
            &&& level == condensation.0 || level == frost.0
            &&& level.severity() >= condensation.0.severity()
            &&& level.severity() >= frost.0.severity()
            &&& condensation.0 != Level::Okay ==> mentions(message, condensation.1)
            &&& frost.0 != Level::Okay ==> mentions(message, frost.1)
            &&& level == Level::Okay ==> message == "No condensation or frost risk."@
        }),
{
    let (level, message) = verdict(indoor, outdoor);
    let c = condensation_risk(indoor, outdoor);
    let f = frost_risk(indoor);
    let gap = " "@;
    if c.0 != Level::Okay && f.0 != Level::Okay {
        let (first, second) = if c.0.severity() < f.0.severity() {
            (f.1, c.1)
        } else {
            (c.1, f.1)
        };
        assert(message == first + gap + second);
        assert(message.subrange(0, 0int + first.len()) == first);
        let k = (first.len() + gap.len()) as int;
        assert(message.subrange(k, k + second.len()) == second);
    } else if c.0 != Level::Okay || f.0 != Level::Okay {
        assert(message.subrange(0, 0int + message.len()) == message);
    }
}

/// A stale outdoor observation neither silences nor raises a warning: the
/// verdict is the one that no outdoor observation gives.
pub proof fn law_stale_outdoor_air_counts_for_nothing(
    indoor: IndoorAir,
    outdoor: OutdoorAir,
    now: i64,
)
    requires
        !is_fresh(outdoor.reading.ts, now),
    ensures
        verdict(indoor, fresh_air(Some(outdoor), now)) == verdict(indoor, None),
{
}

/// Outdoor air can add a warning and nothing else: with it the level is the
/// one without it, or that of a warning where there was no risk.
pub proof fn law_outdoor_air_adds_at_most_a_warning(indoor: IndoorAir, outdoor: OutdoorAir)
    ensures
        ({
            let without = verdict(indoor, None).0;
            let with_air = verdict(indoor, Some(outdoor)).0;
            with_air == without || (without == Level::Okay && with_air == Level::Warning)
        }),
{
}

/// Damper air is never a milder risk: of two states that differ in the
/// spread alone, the one with the smaller spread is at least as severe.
pub proof fn law_damper_is_never_milder(
    damper: IndoorAir,
    drier: IndoorAir,
    outdoor: Option<OutdoorAir>,
)
    requires
        damper.reading == drier.reading,
        damper.spread_c.at_most(drier.spread_c),
    ensures
        verdict(damper, outdoor).0.severity() >= verdict(drier, outdoor).0.severity(),
{
}

/// Colder air is never a milder frost risk.
pub proof fn law_colder_is_never_a_milder_frost(colder: IndoorAir, warmer: IndoorAir)
    requires
        colder.reading.temperature_c.at_most(warmer.reading.temperature_c),
    ensures
        frost_risk(colder).0.severity() >= frost_risk(warmer).0.severity(),
{
}

/// More minutes of damp or of exposure, or a colder minimum, never make a
/// past day milder.
pub proof fn law_longer_spells_are_never_milder(
    longer: (int, int, int),
    shorter: (int, int, int),
    colder: Double,
    warmer: Double,
)
    requires
        longer.0 >= shorter.0,
        longer.1 >= shorter.1,
        longer.2 >= shorter.2,
        colder.at_most(warmer),
    ensures
        day_level(longer.0, longer.1, longer.2, colder).severity() >= day_level(
            shorter.0,
            shorter.1,
            shorter.2,
            warmer,
        ).severity(),
{
}

/// Three numbers decide the level, whatever else is measured. It is critical
/// exactly where the spread is below 1 degree or the temperature at most half
/// a degree; and there is a risk at all exactly where the spread is below 3
/// degrees, the temperature is at most 3, or the outdoor dew point is above
/// the indoor temperature. (A degree is 2^1074 units.)
pub proof fn law_spread_temperature_and_outdoor_dew_point_decide_the_level(
    a: Assessment,
    indoor: IndoorAir,
    outdoor: Option<OutdoorAir>,
)
    requires
        assesses(a, indoor, outdoor),
    ensures
        ({
            let (t, s) = (indoor.reading.temperature_c, indoor.spread_c);
            let degree = pow2(1074) as int;
            &&& a.level == Level::Critical <==> {
                ||| !s.is_nan() && s.units() < degree
                ||| !t.is_nan() && 2 * t.units() <= degree
            }
            &&& a.level != Level::Okay <==> {
                ||| !s.is_nan() && s.units() < 3 * degree
                ||| !t.is_nan() && t.units() <= 3 * degree
                ||| outdoor is Some && !t.is_nan() && !outdoor->Some_0.reading.dew_point_c.is_nan()
                    && t.units() < outdoor->Some_0.reading.dew_point_c.units()
            }
        }),
        a.indoor_dew_point_c == indoor.dew_point_c,
        a.dew_point_spread_c == indoor.spread_c,
{
}

/// Where only one thing is wrong, the banner says exactly that, and where
/// nothing is, it says so: each state of the air has its own sentence.
pub proof fn law_one_problem_is_told_in_its_own_words(
    a: Assessment,
    indoor: IndoorAir,
    outdoor: Option<OutdoorAir>,
)
    requires
        assesses(a, indoor, outdoor),
        !indoor.reading.temperature_c.is_nan(),
        !indoor.spread_c.is_nan(),
        outdoor is Some ==> !outdoor->Some_0.reading.dew_point_c.is_nan(),
    ensures
        ({
            let (t, s) = (indoor.reading.temperature_c.units(), indoor.spread_c.units());
            let degree = pow2(1074) as int;
            let humid_outside = outdoor is Some && t < outdoor->Some_0.reading.dew_point_c.units();
            &&& t > 3 * degree && s < degree ==> a.message@
                == "Indoor air is saturated — condensation is likely forming on surfaces right now."@
            &&& t > 3 * degree && degree <= s < 3 * degree ==> a.message@
                == "Indoor air is near saturation (only "@ + indoor.spread_text@
                + " °C above the dew point) — condensation risk on cold surfaces."@
            &&& t > 3 * degree && s >= 3 * degree && humid_outside ==> a.message@
                == "Outdoor dew point ("@ + outdoor->Some_0.dew_point_text@
                + " °C) is at or above the indoor temperature ("@ + indoor.temperature_text@
                + " °C) — incoming air will condense on anything in here. Keep the space closed up."@
            &&& t > 3 * degree && s >= 3 * degree && !humid_outside ==> a.message@
                == "No condensation or frost risk."@
            &&& s >= 3 * degree && !humid_outside && 2 * t <= degree ==> a.message@
                == "Freezing in here ("@ + indoor.temperature_text@
                + " °C) — frost damages houseplants and anything that holds water."@
            &&& s >= 3 * degree && !humid_outside && degree < 2 * t && t <= 3 * degree
                ==> a.message@ == "Near freezing ("@ + indoor.temperature_text@
                + " °C) — cold spots at the floor can frost before the air does. Move houseplants somewhere warmer."@
        }),
{
}

/// Where the air is both damp and cold, the banner is that of the same damp
/// air at a harmless temperature and that of the same cold air when dry, one
/// behind the other with a space between: frost first only where it is
/// critical and the damp is not.
pub proof fn law_two_problems_are_told_the_more_severe_first(
    both: Assessment,
    damp: Assessment,
    cold: Assessment,
    indoor: IndoorAir,
    warm: IndoorAir,
    dry: IndoorAir,
    outdoor: Option<OutdoorAir>,
)
    requires
        assesses(both, indoor, outdoor),
        assesses(damp, warm, None),
        assesses(cold, dry, None),
        !indoor.reading.temperature_c.is_nan(),
        !indoor.spread_c.is_nan(),
        !warm.reading.temperature_c.is_nan(),
        !dry.spread_c.is_nan(),
        indoor.reading.temperature_c.units() <= 3 * pow2(1074),
        indoor.spread_c.units() < 3 * pow2(1074),
        warm.spread_c == indoor.spread_c,
        warm.spread_text == indoor.spread_text,
        warm.reading.temperature_c.units() > 3 * pow2(1074),
        dry.reading.temperature_c == indoor.reading.temperature_c,
        dry.temperature_text == indoor.temperature_text,
        dry.spread_c.units() >= 3 * pow2(1074),
    ensures
        both.message@ == (if 2 * indoor.reading.temperature_c.units() <= pow2(1074)
            && indoor.spread_c.units() >= pow2(1074) {
            cold.message@ + " "@ + damp.message@
        } else {
            damp.message@ + " "@ + cold.message@
        }),
{
}

/// An outdoor observation counts for two hours: up to then the assessment is
/// the one with it, and afterwards the one without.
pub proof fn law_outdoor_air_counts_for_two_hours(
    a: Assessment,
    indoor: IndoorAir,
    outdoor: OutdoorAir,
    now: i64,
)
    requires
        assesses(a, indoor, fresh_air(Some(outdoor), now)),
    ensures
        now - outdoor.reading.ts <= 7200 ==> assesses(a, indoor, Some(outdoor)) && fresh_air(
            Some(outdoor),
            now,
        ) == Some(outdoor),
        now - outdoor.reading.ts > 7200 ==> assesses(a, indoor, None) && fresh_air(
            Some(outdoor),
            now,
        ) is None,
        is_fresh(outdoor.reading.ts, now) <==> now - outdoor.reading.ts <= 7200,
{
}

/// A past day is critical exactly from 5 saturated minutes on, and worth a
/// warning exactly from 15 minutes near saturation or of incoming air on, or
/// where it froze.
pub proof fn law_minutes_and_frost_decide_the_level_of_a_past_day(
    saturated_minutes: int,
    near_saturation_minutes: int,
    incoming_air_minutes: int,
    min_temperature_c: Double,
)
    ensures
        ({
            let level = day_level(
                saturated_minutes,
                near_saturation_minutes,
                incoming_air_minutes,
                min_temperature_c,
            );
            &&& level == Level::Critical <==> saturated_minutes >= 5
            &&& level != Level::Okay <==> {
                ||| saturated_minutes >= 5
                ||| near_saturation_minutes >= 15
                ||| incoming_air_minutes >= 15
                ||| !min_temperature_c.is_nan() && min_temperature_c.units() <= 0
            }
        }),
{
}

/// Where it is cold and the outdoor dew point is above the indoor
/// temperature, the banner tells both: the frost as it would be told alone,
/// and the outdoor air; frost first only where it is critical.
pub proof fn law_cold_and_humid_outside_are_both_told(
    both: Assessment,
    cold: Assessment,
    indoor: IndoorAir,
    outdoor: OutdoorAir,
)
    requires
        assesses(both, indoor, Some(outdoor)),
        assesses(cold, indoor, None),
        !indoor.reading.temperature_c.is_nan(),
        !indoor.spread_c.is_nan(),
        !outdoor.reading.dew_point_c.is_nan(),
        indoor.reading.temperature_c.units() <= 3 * pow2(1074),
        indoor.reading.temperature_c.units() < outdoor.reading.dew_point_c.units(),
        indoor.spread_c.units() >= 3 * pow2(1074),
    ensures
        ({
            let humid = "Outdoor dew point ("@ + outdoor.dew_point_text@
                + " °C) is at or above the indoor temperature ("@ + indoor.temperature_text@
                + " °C) — incoming air will condense on anything in here. Keep the space closed up."@;
            both.message@ == if 2 * indoor.reading.temperature_c.units() <= pow2(1074) {
                cold.message@ + " "@ + humid
            } else {
                humid + " "@ + cold.message@
            }
        }),
{
}

/// Air that is handed over is the air that counts.
pub proof fn law_air_is_handed_on(outdoor: OutdoorAir)
    ensures
        deref_air(Some(&outdoor)) == Some(outdoor),
        deref_air(None) is None,
{
}

} // verus!
