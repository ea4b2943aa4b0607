//! The search for a connection in the direct mode.

use vstd::prelude::*;

verus! {

/// How long a connection stands before it is looked at again, in milliseconds.
pub const WATCH_MILLIS: u64 = 500;

/// How long is waited before every new attempt, in milliseconds.
pub const RETRY_MILLIS: u64 = 2_000;

/// How far the search for a connection is.
#[derive(Debug, Clone, Copy, PartialEq, Eq, Structural)]
pub enum ConnectStage {
    /// About to connect.
    Ready,
    Connected,
    /// About to wait before the next attempt.
    Waiting,
}

/// What to do next for a connection.
#[derive(Debug, Clone, Copy, PartialEq, Eq, Structural)]
pub enum ConnectAction {
    /// Connect, and say with `connect_outcome` how that went.
    Connect,
    /// Sleep for this many milliseconds.
    Sleep { millis: u64 },
    /// Note that the connection was closed.
    Closed,
}

/// The next stage and action of a connection.
pub open spec fn connect_next(stage: ConnectStage, alive: bool) -> (ConnectStage, ConnectAction) {
    match stage {
        ConnectStage::Ready => (ConnectStage::Ready, ConnectAction::Connect),
        ConnectStage::Connected => if alive {
            (ConnectStage::Connected, ConnectAction::Sleep { millis: WATCH_MILLIS })
        } else {
            (ConnectStage::Waiting, ConnectAction::Closed)
        },
        ConnectStage::Waiting => (
            ConnectStage::Ready,
            ConnectAction::Sleep { millis: RETRY_MILLIS },
        ),
    }
}

/// Decides what to do next for a connection, given whether it still stands.
pub fn connect_step(stage: ConnectStage, alive: bool) -> (r: (ConnectStage, ConnectAction))
    ensures
        r == connect_next(stage, alive),
{
    match stage {
        ConnectStage::Ready => (ConnectStage::Ready, ConnectAction::Connect),
        ConnectStage::Connected => {
            if alive {
                (ConnectStage::Connected, ConnectAction::Sleep { millis: WATCH_MILLIS })
            } else {
                (ConnectStage::Waiting, ConnectAction::Closed)
            }
        },
        ConnectStage::Waiting => (
            ConnectStage::Ready,
            ConnectAction::Sleep { millis: RETRY_MILLIS },
        ),
    }
}

/// The stage after an attempt to connect.
pub fn connect_outcome(connected: bool) -> (stage: ConnectStage)
    ensures
        stage == if connected {
            ConnectStage::Connected
        } else {
            ConnectStage::Waiting
        },
{
    if connected {
        ConnectStage::Connected
    } else {
        ConnectStage::Waiting
    }
}

/// Every new attempt is waited for: the search becomes ready again by the wait before a
/// new attempt and by nothing else, and connects only when it is ready.
pub proof fn law_attempts_are_waited_for(stage: ConnectStage, alive: bool)
    ensures
        connect_next(stage, alive).0 == ConnectStage::Ready && stage != ConnectStage::Ready
            ==> connect_next(stage, alive).1 == (ConnectAction::Sleep { millis: RETRY_MILLIS }),
        connect_next(stage, alive).1 == ConnectAction::Connect ==> stage == ConnectStage::Ready,
{
}

} // verus!
