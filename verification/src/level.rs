//! Severity levels.

use core::cmp::Ordering;
use vstd::prelude::*;

verus! {

/// Severity of a risk assessment; declaration order is severity order.
#[derive(Clone, Copy, Debug, PartialEq, Eq, Structural, Ord, Hash)]
pub enum Level {
    /// Nothing to worry about.
    Okay,
    /// Conditions are drifting toward damage.
    Warning,
    /// Damaging conditions are likely happening now.
    Critical,
}

impl Level {
    /// How severe the level is: 0 for `Okay`, 1 for `Warning`, 2 for `Critical`.
    pub open spec fn severity(self) -> int {
        match self {
            Level::Okay => 0,
            Level::Warning => 1,
            Level::Critical => 2,
        }
    }

    /// The more severe of two levels.
    pub open spec fn worse_of(self, other: Level) -> Level {
        if self.severity() < other.severity() {
            other
        } else {
            self
        }
    }

    /// The more severe of two levels.
    pub fn worse(self, other: Level) -> (r: Level)
        ensures
            r == self.worse_of(other),
    {
        if self < other {
            other
        } else {
            self
        }
    }
}

/// How two severities compare.
pub open spec fn severity_order(a: int, b: int) -> Option<Ordering> {
    if a < b {
        Some(Ordering::Less)
    } else if a == b {
        Some(Ordering::Equal)
    } else {
        Some(Ordering::Greater)
    }
}

impl PartialOrd for Level {
    fn partial_cmp(&self, other: &Level) -> (r: Option<Ordering>) {
        match (*self, *other) {
            (Level::Okay, Level::Okay) => Some(Ordering::Equal),
            (Level::Okay, _) => Some(Ordering::Less),
            (Level::Warning, Level::Okay) => Some(Ordering::Greater),
            (Level::Warning, Level::Warning) => Some(Ordering::Equal),
            (Level::Warning, Level::Critical) => Some(Ordering::Less),
            (Level::Critical, Level::Critical) => Some(Ordering::Equal),
            (Level::Critical, _) => Some(Ordering::Greater),
        }
    }
}

impl vstd::std_specs::cmp::PartialOrdSpecImpl for Level {
    open spec fn obeys_partial_cmp_spec() -> bool {
        true
    }

    open spec fn partial_cmp_spec(&self, other: &Level) -> Option<Ordering> {
        severity_order(self.severity(), other.severity())
    }
}

/// The levels are three, each worse than the one before it, and of two levels
/// the worse one is one of them and at least as bad as both.
pub proof fn law_levels_get_worse(a: Level, b: Level)
    ensures
        Level::Okay.severity() < Level::Warning.severity() < Level::Critical.severity(),
        a.worse_of(b) == a || a.worse_of(b) == b,
        a.worse_of(b).severity() >= a.severity(),
        a.worse_of(b).severity() >= b.severity(),
        severity_order(a.severity(), b.severity()) == Some(Ordering::Less) <==> a != b && (a
            == Level::Okay || b == Level::Critical),
{
}

} // verus!
