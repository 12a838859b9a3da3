//! The published playback status and its derivation from player state.

use vstd::prelude::*;

verus! {

/// A snapshot of the master's playback state, as published to followers.
///
/// `start_time` is the epoch millisecond, in the master's clock domain, at
/// which the current track would have started: it is back-computed so that
/// `now - start_time` always yields the elapsed playback position, even
/// across pause and resume.  An empty `track` is the sentinel for "no track
/// loaded".
pub struct SyncStatus {
    pub playing: bool,
    pub track: String,
    pub start_time: i64,
}

/// Derives the status to publish from one atomic reading of the player:
/// whether it is playing, the loaded track, the playback position, and the
/// local time at which that position was measured.
///
/// The published `start_time` is back-computed as `measured_at -
/// position_ms`, so that any later reader recovers the position at its own
/// time `t` as `t - start_time`.
pub fn publish_status(playing: bool, track: String, position_ms: u32, measured_at: i64) -> (r:
    SyncStatus)
    requires
        i64::MIN <= measured_at - position_ms,
    ensures
        r.playing == playing,
        r.track@ == track@,
        r.start_time == measured_at - position_ms,
{
    SyncStatus { playing, track, start_time: measured_at - (position_ms as i64) }
}

} // verus!
