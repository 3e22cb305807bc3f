use erldash::poller::{step, FlagGuard, PollerAction, PollerEvent, PollerState};

const SECOND: u64 = 1_000_000;

#[test]
fn connecting_enters_polling_on_success() {
    let (state, action) = step(
        PollerState::Connecting,
        PollerEvent::Connected { previous_flag: false },
        SECOND,
    );
    assert_eq!(state, PollerState::Polling);
    assert_eq!(action, PollerAction::RunCycle);
}

#[test]
fn connecting_terminates_on_failure() {
    let (state, action) = step(PollerState::Connecting, PollerEvent::ConnectFailed, SECOND);
    assert_eq!(state, PollerState::Terminated);
    assert_eq!(action, PollerAction::ReportConnectError);
}

#[test]
fn polling_sleeps_out_the_rest_of_the_interval() {
    let (state, action) = step(
        PollerState::Polling,
        PollerEvent::CyclePublished { elapsed_micros: 300_000 },
        SECOND,
    );
    assert_eq!(state, PollerState::Polling);
    assert_eq!(action, PollerAction::Sleep { micros: 700_000 });
}

#[test]
fn overrunning_cycle_sleeps_nothing() {
    let (_, action) = step(
        PollerState::Polling,
        PollerEvent::CyclePublished { elapsed_micros: 3 * SECOND },
        SECOND,
    );
    assert_eq!(action, PollerAction::Sleep { micros: 0 });
}

#[test]
fn cycle_failure_terminates_with_an_error() {
    let (state, action) = step(PollerState::Polling, PollerEvent::CycleFailed, SECOND);
    assert_eq!(state, PollerState::Terminated);
    assert_eq!(action, PollerAction::ReportCycleError);
}

#[test]
fn dropped_receiver_terminates_quietly() {
    let (state, action) = step(PollerState::Polling, PollerEvent::ReceiverDropped, SECOND);
    assert_eq!(state, PollerState::Terminated);
    assert_eq!(action, PollerAction::Stop);
}

#[test]
fn terminated_stays_terminated() {
    let (state, action) = step(
        PollerState::Terminated,
        PollerEvent::Connected { previous_flag: true },
        SECOND,
    );
    assert_eq!(state, PollerState::Terminated);
    assert_eq!(action, PollerAction::Stop);
}

#[test]
fn flag_guard_restores_only_a_previously_clear_flag() {
    assert!(FlagGuard::acquire(false).needs_restore());
    assert!(!FlagGuard::acquire(true).needs_restore());
}
