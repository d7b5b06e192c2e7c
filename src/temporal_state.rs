//! Where an instant lies relative to now.

use vstd::prelude::*;

verus! {

/// A classification of an instant against the current time.
#[derive(Debug, Clone, Copy, PartialEq, Eq, Structural)]
pub enum TemporalState {
    Past,
    Current,
    Future,
}

/// The state of `t` at the instant `now`.
pub open spec fn temporal_state_of(t: u64, now: u64) -> TemporalState {
    if t < now {
        TemporalState::Past
    } else if t == now {
        TemporalState::Current
    } else {
        TemporalState::Future
    }
}

/// Things that happen at an instant, classified against the current time.
pub trait Temporal {
    fn as_temporal_state(&self) -> TemporalState;
}

} // verus!
