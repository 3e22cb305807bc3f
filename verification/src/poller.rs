//! The poll scheduler's decision logic.
//!
//! The scheduler is a state machine driven by the surrounding
//! application: connect, then repeat poll cycles on a fixed interval,
//! and stop on the first failure or when the consumer goes away.  The
//! application performs the connecting, polling, publishing and sleeping;
//! this module decides, from the current state and the event that
//! happened, what the next state is and which action to take.

use vstd::prelude::*;

verus! {

/// Where the scheduler stands.
#[derive(Clone, Copy, Debug, PartialEq, Eq, Structural)]
pub enum PollerState {
    /// Connecting to the runtime and enabling its accounting flag.
    Connecting,
    /// Repeating poll cycles.
    Polling,
    /// Stopped; the snapshot queue is closed.
    Terminated,
}

/// What just happened.
#[derive(Clone, Copy, Debug, PartialEq, Eq, Structural)]
pub enum PollerEvent {
    /// The connection stands and the accounting flag was switched on;
    /// the flag's previous value is kept for the shutdown restore.
    Connected { previous_flag: bool },
    /// The connection could not be made.
    ConnectFailed,
    /// One cycle produced and published a snapshot, taking this long.
    CyclePublished { elapsed_micros: u64 },
    /// A cycle failed; the session is over.
    CycleFailed,
    /// The consumer dropped its end of the queue; stop without error.
    ReceiverDropped,
}

/// What the application must do next.
#[derive(Clone, Copy, Debug, PartialEq, Eq, Structural)]
pub enum PollerAction {
    /// Run the next poll cycle.
    RunCycle,
    /// Surface a connection error and exit non-zero.
    ReportConnectError,
    /// Sleep out the rest of the interval, then run the next cycle.
    Sleep { micros: u64 },
    /// Close the queue and surface a cycle error.
    ReportCycleError,
    /// Close the queue quietly.
    Stop,
}

/// How long to sleep after a cycle: the rest of the interval, or
/// nothing when the cycle overran it.
pub open spec fn spec_sleep_rest(interval_micros: u64, elapsed_micros: u64) -> int {
    if elapsed_micros >= interval_micros {
        0
    } else {
        interval_micros - elapsed_micros
    }
}

/// Decides the scheduler's next state and action.
///
/// Connecting either enters polling or terminates with a connection
/// error.  Polling sleeps out the interval after a published cycle,
/// terminates with an error after a failed cycle, and terminates
/// quietly when the consumer is gone.  A terminated scheduler stays
/// terminated and only stops.
pub fn step(state: PollerState, event: PollerEvent, interval_micros: u64) -> (r: (
    PollerState,
    PollerAction,
))
    ensures
        r == match state {
            PollerState::Connecting => match event {
                PollerEvent::Connected { .. } => (PollerState::Polling, PollerAction::RunCycle),
                _ => (PollerState::Terminated, PollerAction::ReportConnectError),
            },
            PollerState::Polling => match event {
                PollerEvent::CyclePublished { elapsed_micros } => (
                    PollerState::Polling,
                    PollerAction::Sleep {
                        micros: spec_sleep_rest(interval_micros, elapsed_micros) as u64,
                    },
                ),
                PollerEvent::CycleFailed => (
                    PollerState::Terminated,
                    PollerAction::ReportCycleError,
                ),
                _ => (PollerState::Terminated, PollerAction::Stop),
            },
            PollerState::Terminated => (PollerState::Terminated, PollerAction::Stop),
        },
{
    match state {
        PollerState::Connecting => match event {
            PollerEvent::Connected { .. } => (PollerState::Polling, PollerAction::RunCycle),
            _ => (PollerState::Terminated, PollerAction::ReportConnectError),
        },
        PollerState::Polling => match event {
            PollerEvent::CyclePublished { elapsed_micros } => {
                let rest: u64 = if elapsed_micros >= interval_micros {
                    0
                } else {
                    interval_micros - elapsed_micros
                };
                (PollerState::Polling, PollerAction::Sleep { micros: rest })
            },
            PollerEvent::CycleFailed => (PollerState::Terminated, PollerAction::ReportCycleError),
            _ => (PollerState::Terminated, PollerAction::Stop),
        },
        PollerState::Terminated => (PollerState::Terminated, PollerAction::Stop),
    }
}

/// The scoped handle for the remote accounting flag: switching the flag
/// on yields the guard, and releasing it must restore the previous
/// value.  Restoration is best-effort on every exit path; its failure is
/// logged by the application, never escalated.
#[derive(Clone, Copy, Debug, PartialEq, Eq, Structural)]
pub struct FlagGuard {
    /// The flag's value before it was switched on.
    pub previous: bool,
}

impl FlagGuard {
    /// Captures the flag's previous value when the flag is switched on.
    pub fn acquire(previous: bool) -> (r: Self)
        ensures
            r.previous == previous,
    {
        FlagGuard { previous }
    }

    /// Whether releasing the guard must switch the flag back off: only
    /// when it was off before the session.
    pub fn needs_restore(&self) -> (r: bool)
        ensures
            r == !self.previous,
    {
        !self.previous
    }
}

} // verus!
