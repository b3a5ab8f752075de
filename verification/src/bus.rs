//! What the data bus carries.

use vstd::prelude::*;

verus! {

/// Something the dashboard and the notifier want to hear of.
#[derive(Clone, Copy, Debug, PartialEq, Eq, Structural)]
pub enum DataEvent {
    /// A reading was stored.
    Reading,
    /// An outdoor observation was stored.
    Outdoor,
    /// A timeline event was added or deleted.
    Events,
}

} // verus!
