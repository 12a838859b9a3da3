use spotsync::engine::{initial_state, reconcile, remote_position, update_drift, FollowerState, PlayerAction};
use spotsync::status::SyncStatus;

fn status(playing: bool, track: &str, start_time: i64) -> SyncStatus {
    SyncStatus { playing, track: track.to_owned(), start_time }
}

#[test]
fn remote_position_is_exact() {
    // remotePosition = now - startTime + offset, to the millisecond.
    assert_eq!(remote_position(2500, 1000, 0), 1500);
    assert_eq!(remote_position(2500, 1000, -300), 1200);
    assert_eq!(remote_position(1000, 2500, 0), -1500);
    assert_eq!(remote_position(0, 0, 42), 42);
}

#[test]
fn drift_smoothing_formula() {
    // Two identical diffs from zero: d/2, then d/4 + d/2.
    assert_eq!(update_drift(0, 50), 25);
    assert_eq!(update_drift(25, 50), 37);
    // Truncation toward zero, as for the negative direction.
    assert_eq!(update_drift(0, -5), -2);
    assert_eq!(update_drift(-7, -7), -6);
    // A drift equal to an even diff is a fixed point.
    assert_eq!(update_drift(40, 40), 40);
}

#[test]
fn initial_state_is_stopped_and_empty() {
    let st = initial_state();
    assert!(!st.previous.playing);
    assert_eq!(st.previous.track, "");
    assert_eq!(st.previous.start_time, 0);
    assert_eq!(st.drift, 0);
}

#[test]
fn track_change_loads_and_supersedes() {
    // Track and playing state change together: only a load is issued.
    let state = FollowerState { previous: status(false, "0123", 0), drift: 11 };
    let (next, action) = reconcile(state, status(true, "ab12", 1000), 0, 2500, 0, 2500);
    match action {
        PlayerAction::Load { track, playing, position_ms } => {
            assert_eq!(track, "ab12");
            assert!(playing);
            assert_eq!(position_ms, 1500);
        }
        _ => panic!("expected a load"),
    }
    assert_eq!(next.previous.track, "ab12");
    assert!(next.previous.playing);
    assert_eq!(next.drift, 0);
}

#[test]
fn empty_track_never_loads() {
    // The empty track is a sentinel: no track change, whatever came before.
    let state = FollowerState { previous: status(true, "ab12", 1000), drift: 0 };
    let (_, action) = reconcile(state, status(false, "", 1000), 0, 2500, 0, 2500);
    assert!(matches!(action, PlayerAction::Pause));
    let state2 = FollowerState { previous: status(false, "ab12", 1000), drift: 0 };
    let (_, action2) = reconcile(state2, status(false, "", 1000), 0, 2500, 0, 2500);
    assert!(matches!(action2, PlayerAction::Idle));
}

#[test]
fn transition_table_stopped_to_playing() {
    // Master playing, follower stopped: seek to the inferred position, then play.
    let state = FollowerState { previous: status(false, "ab12", 0), drift: 0 };
    let (next, action) = reconcile(state, status(true, "ab12", 1000), 0, 2500, 0, 2500);
    match action {
        PlayerAction::SeekPlay { position_ms, at } => {
            assert_eq!(position_ms, 1500);
            assert_eq!(at, 2500);
        }
        _ => panic!("expected seek and play"),
    }
    assert!(next.previous.playing);
}

#[test]
fn transition_table_playing_to_stopped() {
    let state = FollowerState { previous: status(true, "ab12", 0), drift: 5 };
    let (next, action) = reconcile(state, status(false, "ab12", 1000), 0, 2500, 700, 2400);
    assert!(matches!(action, PlayerAction::Pause));
    assert_eq!(next.drift, 5);
}

#[test]
fn transition_table_stopped_to_stopped() {
    let state = FollowerState { previous: status(false, "ab12", 0), drift: 5 };
    let (next, action) = reconcile(state, status(false, "ab12", 1000), 0, 2500, 700, 2400);
    assert!(matches!(action, PlayerAction::Idle));
    assert_eq!(next.drift, 5);
}

#[test]
fn steady_playback_below_threshold_is_idle() {
    // diff = 30 gives drift 15, inside the hysteresis band: no player call.
    let state = FollowerState { previous: status(true, "ab12", 1000), drift: 0 };
    let (next, action) = reconcile(state, status(true, "ab12", 1000), 0, 2500, 1530, 2500);
    assert!(matches!(action, PlayerAction::Idle));
    assert_eq!(next.drift, 15);
}

#[test]
fn steady_playback_drift_accumulates_to_correction() {
    // A second tick with diff 30: drift 15/2 + 15 = 22 > 20, hard correction.
    let state = FollowerState { previous: status(true, "ab12", 1000), drift: 15 };
    let (next, action) = reconcile(state, status(true, "ab12", 1000), 0, 2500, 1530, 2500);
    match action {
        PlayerAction::Seek { position_ms, at } => {
            assert_eq!(position_ms, 1500);
            assert_eq!(at, 2500);
        }
        _ => panic!("expected a hard correction"),
    }
    assert_eq!(next.drift, 0);
}

#[test]
fn steady_playback_single_large_diff_corrects_at_once() {
    // diff = 50 gives drift 25, already beyond the 20 ms band: seek and reset.
    let state = FollowerState { previous: status(true, "ab12", 1000), drift: 0 };
    let (next, action) = reconcile(state, status(true, "ab12", 1000), 0, 2500, 1550, 2500);
    match action {
        PlayerAction::Seek { position_ms, at } => {
            assert_eq!(position_ms, 1500);
            assert_eq!(at, 2500);
        }
        _ => panic!("expected a hard correction"),
    }
    assert_eq!(next.drift, 0);
}

#[test]
fn negative_inferred_position_seeks_to_zero() {
    // A track that has not started yet from the follower's view plays from 0.
    let state = FollowerState { previous: status(false, "ab12", 0), drift: 0 };
    let (_, action) = reconcile(state, status(true, "ab12", 4000), 0, 2500, 0, 2500);
    match action {
        PlayerAction::SeekPlay { position_ms, at } => {
            assert_eq!(position_ms, 0);
            assert_eq!(at, 2500);
        }
        _ => panic!("expected seek and play"),
    }
}

#[test]
fn offset_shifts_inferred_position() {
    let state = FollowerState { previous: status(false, "ab12", 0), drift: 0 };
    let (_, action) = reconcile(state, status(true, "ab12", 1000), -300, 2500, 0, 2500);
    match action {
        PlayerAction::SeekPlay { position_ms, .. } => assert_eq!(position_ms, 1200),
        _ => panic!("expected seek and play"),
    }
}
