//! End-to-end follower ticks: decode the master's wire status, reconcile,
//! check the one player command that comes out.

use spotsync::engine::{reconcile, FollowerState, PlayerAction};
use spotsync::status::SyncStatus;
use spotsync::wire::decode_status;

fn status(playing: bool, track: &str, start_time: i64) -> SyncStatus {
    SyncStatus { playing, track: track.to_owned(), start_time }
}

#[test]
fn stopped_follower_starts_at_inferred_position() {
    let wire = "{\"playing\":true,\"track\":\"ab12\",\"start_time\":1000}";
    let master = decode_status(wire).unwrap();
    let state = FollowerState { previous: status(false, "ab12", 0), drift: 0 };
    let (next, action) = reconcile(state, master, 0, 2500, 0, 2500);
    match action {
        PlayerAction::SeekPlay { position_ms, at } => {
            assert_eq!(position_ms, 1500);
            assert_eq!(at, 2500);
        }
        _ => panic!("expected seek and play"),
    }
    assert!(next.previous.playing);
    assert_eq!(next.previous.track, "ab12");
}

#[test]
fn playing_follower_fifty_ahead_corrects_at_once() {
    // Local position projects to 1550 while the master stands at 1500:
    // diff 50 smooths to drift 25, outside the 20 ms band, so this very
    // tick issues the hard correction and the estimate restarts at zero.
    let wire = "{\"playing\":true,\"track\":\"ab12\",\"start_time\":1000}";
    let master = decode_status(wire).unwrap();
    let state = FollowerState { previous: status(true, "ab12", 1000), drift: 0 };
    let (next, action) = reconcile(state, master, 0, 2500, 1550, 2500);
    match action {
        PlayerAction::Seek { position_ms, at } => {
            assert_eq!(position_ms, 1500);
            assert_eq!(at, 2500);
        }
        _ => panic!("expected a hard correction"),
    }
    assert_eq!(next.drift, 0);
}

#[test]
fn small_error_is_tolerated_then_corrected() {
    // diff 30 each tick: drift runs 15, then 15/2 + 15 = 22; only the
    // second tick crosses the band and seeks, after which drift is 0.
    let wire = "{\"playing\":true,\"track\":\"ab12\",\"start_time\":1000}";
    let master = decode_status(wire).unwrap();
    let state = FollowerState { previous: status(true, "ab12", 1000), drift: 0 };
    let (state, action) = reconcile(state, master, 0, 2500, 1530, 2500);
    assert!(matches!(action, PlayerAction::Idle));
    assert_eq!(state.drift, 15);
    let master = decode_status(wire).unwrap();
    let (state, action) = reconcile(state, master, 0, 3000, 2030, 3000);
    match action {
        PlayerAction::Seek { position_ms, at } => {
            assert_eq!(position_ms, 2000);
            assert_eq!(at, 3000);
        }
        _ => panic!("expected a hard correction"),
    }
    assert_eq!(state.drift, 0);
}
