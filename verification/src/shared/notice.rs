//! What there is to tell of a flight when it is published.

use vstd::prelude::*;

verus! {

/// What a tick has to tell of a flight.
#[derive(Debug, Clone, Copy, PartialEq, Eq, Structural)]
pub enum Notice {
    /// It is under way
    EnRoute,
    /// It has arrived since the last tick, and holds its last position
    Arrived,
    /// It arrived before
    Holding,
}

/// What there is to tell of a flight. An arrival is told once.
pub open spec fn notice_of(ended: bool, announced: bool) -> Notice {
    if !ended {
        Notice::EnRoute
    } else if announced {
        Notice::Holding
    } else {
        Notice::Arrived
    }
}

/// What there is to tell of a flight; `announced` is whether its arrival has been
/// told, and is noted where this tells it.
pub fn announce(ended: bool, announced: &mut bool) -> (r: Notice)
    ensures
        r == notice_of(ended, *old(announced)),
        *final(announced) == (*old(announced) || ended),
{
    if !ended {
        Notice::EnRoute
    } else if *announced {
        Notice::Holding
    } else {
        *announced = true;
        Notice::Arrived
    }
}

} // verus!
