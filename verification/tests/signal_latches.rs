use initd::signals::SignalState;
use initd::supervisor::poll_cycle;

#[test]
fn initial_state_is_clear() {
    let mut state = SignalState::new();
    assert!(!state.is_shutdown_requested());
    assert!(!state.take_child_exited());
    assert!(!state.take_reload_requested());
}

#[test]
fn take_child_exited_resets_flag() {
    let mut state = SignalState::new();
    state.note_child_exited();
    assert!(state.take_child_exited());
    assert!(!state.take_child_exited()); // should be reset
}

#[test]
fn shutdown_latch_is_sticky() {
    let mut state = SignalState::new();
    state.note_shutdown_requested();
    assert!(state.is_shutdown_requested());
    // repeated reads keep reporting true
    assert!(state.is_shutdown_requested());
    // consuming the other latches does not clear it
    let _ = state.take_child_exited();
    let _ = state.take_reload_requested();
    assert!(state.is_shutdown_requested());
}

#[test]
fn repeated_notes_collapse_into_one_pending_notification() {
    let mut state = SignalState::new();
    state.note_child_exited();
    state.note_child_exited();
    state.note_child_exited();
    assert!(state.take_child_exited());
    assert!(!state.take_child_exited());
}

#[test]
fn take_reload_requested_resets_flag() {
    let mut state = SignalState::new();
    state.note_reload_requested();
    assert!(state.take_reload_requested());
    assert!(!state.take_reload_requested());
}

#[test]
fn poll_cycle_consumes_pending_work() {
    let mut state = SignalState::new();
    state.note_child_exited();
    state.note_reload_requested();
    let d = poll_cycle(&mut state);
    assert!(!d.shutdown);
    assert!(d.reap);
    assert!(d.reload);
    // both latches were taken
    let d2 = poll_cycle(&mut state);
    assert!(!d2.shutdown);
    assert!(!d2.reap);
    assert!(!d2.reload);
}

#[test]
fn poll_cycle_shutdown_wins_and_leaves_other_latches() {
    let mut state = SignalState::new();
    state.note_shutdown_requested();
    state.note_child_exited();
    let d = poll_cycle(&mut state);
    assert!(d.shutdown);
    assert!(!d.reap);
    assert!(!d.reload);
    // the child-exit latch is still pending for the terminal sequence
    assert!(state.take_child_exited());
}
