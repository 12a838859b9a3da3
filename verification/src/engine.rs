//! The follower's reconciliation engine.
//!
//! Each tick the follower measures the clock offset to the master, fetches
//! the master's published status, infers the master's current playback
//! position, and decides on at most one player command.  The decision
//! function here is pure: the caller performs the command it returns and
//! threads the updated `FollowerState` into the next tick.

use crate::status::SyncStatus;
use vstd::prelude::*;

verus! {

/// Milliseconds of smoothed drift tolerated before a hard correction.
pub const DRIFT_THRESHOLD_MS: i64 = 20;

/// The master's position inferred on the follower's clock: at follower time
/// `now`, a track whose master-domain start is `start_time`, read through a
/// clock offset `offset` (follower + offset = master), has played for
/// `now - start_time + offset` milliseconds.
pub open spec fn spec_remote_position(now: int, start_time: int, offset: int) -> int {
    now - start_time + offset
}

/// The follower's own position projected to `now`: the player reported
/// `local_pos` at local time `measured_at`.
pub open spec fn spec_local_position(local_pos: int, now: int, measured_at: int) -> int {
    local_pos + now - measured_at
}

/// Whether a status announces a different track than the one last seen.
/// The empty track is the "no track loaded" sentinel and never counts as a
/// change.
pub open spec fn spec_track_changed(prev: Seq<char>, new: Seq<char>) -> bool {
    new != prev && new.len() > 0
}

/// Division by two truncating toward zero, as the player's millisecond
/// arithmetic rounds.
pub open spec fn half(d: int) -> int {
    if d >= 0 {
        d / 2
    } else {
        -((-d) / 2)
    }
}

/// One step of exponential smoothing with a one-sample half-life: the new
/// drift estimate keeps half of the old estimate and adopts half of the
/// newly observed position error.
pub open spec fn spec_smoothed(drift: int, diff: int) -> int {
    half(drift) + half(diff)
}

/// A position handed to the player, clamped into `u32`: a negative inferred
/// position belongs to a track that has not started yet from the follower's
/// point of view and is played from its beginning.
pub open spec fn spec_clamp_position(p: int) -> int {
    if p < 0 {
        0
    } else if p > u32::MAX {
        u32::MAX as int
    } else {
        p
    }
}

/// The master's position inferred on the follower's clock.  Exact: no
/// rounding beyond the integer milliseconds of the inputs.
pub fn remote_position(now: i64, start_time: i64, offset: i64) -> (r: i64)
    requires
        i64::MIN <= spec_remote_position(now as int, start_time as int, offset as int)
            <= i64::MAX,
    ensures
        r == spec_remote_position(now as int, start_time as int, offset as int),
{
    let wide: i128 = now as i128 - start_time as i128 + offset as i128;
    wide as i64
}

/// Folds one observed position error `diff` into the smoothed drift
/// estimate.
pub fn update_drift(drift: i64, diff: i64) -> (r: i64)
    ensures
        r == spec_smoothed(drift as int, diff as int),
{
    proof {
        lemma_half_bounds(drift as int);
        lemma_half_bounds(diff as int);
    }
    let hd: i64 = match drift.checked_div(2) {
        Some(h) => h,
        None => 0,
    };
    let hf: i64 = match diff.checked_div(2) {
        Some(h) => h,
        None => 0,
    };
    hd + hf
}

/// Half of an `i64` stays well inside `i64`.
proof fn lemma_half_bounds(d: int)
    requires
        i64::MIN <= d <= i64::MAX,
    ensures
        -0x4000_0000_0000_0000 <= half(d) <= 0x4000_0000_0000_0000,
{
}

/// Law: drift smoothing is a genuine exponential average, not replacement.
/// Starting from a zero estimate, two ticks that observe the same position
/// error `d` leave `half(d)` and then `half(half(d)) + half(d)` — for `d`
/// divisible by four, `d / 2` and then `3 * (d / 4)`.  An estimate that
/// already equals the (even) observed error is a fixed point.
pub proof fn lemma_drift_smoothing(d: int)
    ensures
        spec_smoothed(0, d) == half(d),
        spec_smoothed(spec_smoothed(0, d), d) == half(half(d)) + half(d),
        d % 4 == 0 ==> spec_smoothed(spec_smoothed(0, d), d) == 3 * (d / 4),
        d % 2 == 0 ==> spec_smoothed(d, d) == d,
{
    assert(half(0) == 0);
    if d % 4 == 0 {
        let q = d / 4;
        assert(d == 4 * q) by {
            vstd::arithmetic::div_mod::lemma_fundamental_div_mod(d, 4);
        }
        assert(half(4 * q) == 2 * q) by (nonlinear_arith);
        assert(half(2 * q) == q) by (nonlinear_arith);
    }
    if d % 2 == 0 {
        let q = d / 2;
        assert(d == 2 * q) by {
            vstd::arithmetic::div_mod::lemma_fundamental_div_mod(d, 2);
        }
        assert(half(2 * q) == q) by (nonlinear_arith);
    }
}

/// Law: the publisher and the follower agree on the timeline.  A status
/// published from a master position `position_ms` measured at master time
/// `measured_at` carries `start_time == measured_at - position_ms`; a
/// follower that reads it at local time `now` through offset `offset`
/// infers exactly the master's position advanced by the master-clock time
/// elapsed since the measurement.
pub proof fn lemma_publisher_follower_agreement(
    position_ms: int,
    measured_at: int,
    offset: int,
    now: int,
)
    ensures
        spec_remote_position(now, measured_at - position_ms, offset) == position_ms + ((now
            + offset) - measured_at),
{
}

/// The follower's memory between ticks: the last status it acted on and the
/// smoothed drift estimate.  Created once when the loop starts, with no
/// track loaded and drift zero.
pub struct FollowerState {
    pub previous: SyncStatus,
    pub drift: i64,
}

/// At most one player command per tick.  Positions are follower-local
/// milliseconds; `at` is the follower-local time a seek is anchored to.
pub enum PlayerAction {
    /// Load `track`, start it `playing` or paused, at `position_ms`.
    Load { track: String, playing: bool, position_ms: u32 },
    /// Seek to `position_ms` as of time `at`, then start playing.
    SeekPlay { position_ms: u32, at: i64 },
    /// Pause playback.
    Pause,
    /// Hard drift correction: seek to `position_ms` as of time `at`.
    Seek { position_ms: u32, at: i64 },
    /// Touch nothing this tick.
    Idle,
}

/// The state a follower starts from: not playing, no track loaded, no
/// drift observed.
pub fn initial_state() -> (r: FollowerState)
    ensures
        !r.previous.playing,
        r.previous.track@ == Seq::<char>::empty(),
        r.previous.start_time == 0,
        r.drift == 0,
{
    proof {
        reveal_strlit("");
    }
    FollowerState {
        previous: SyncStatus { playing: false, track: "".to_owned(), start_time: 0 },
        drift: 0,
    }
}

/// Clamps an inferred position into the range the player accepts.
fn clamp_position(p: i64) -> (r: u32)
    ensures
        r == spec_clamp_position(p as int),
{
    if p < 0 {
        0
    } else if p > u32::MAX as i64 {
        u32::MAX
    } else {
        p as u32
    }
}

/// One reconciliation tick: given the follower's memory, the status just
/// fetched from the master, the measured clock offset, the current local
/// time, and the player's latest position reading (`local_pos` measured at
/// `local_measured_at`), decides the single player command for this tick
/// and the state to carry into the next one.
///
/// A changed, non-empty track forces a full resync (`Load`) and discards
/// the drift estimate, which concerned the previous track; it takes
/// precedence over every playing-state transition.  With the track
/// unchanged, the `(previous.playing, status.playing)` table applies:
/// start with a seek, pause, smooth drift, or do nothing.  During steady
/// playback the newly observed position error is folded into the drift
/// estimate; only when the smoothed drift leaves the hysteresis band
/// `[-DRIFT_THRESHOLD_MS, DRIFT_THRESHOLD_MS]` is a hard seek issued, and
/// the estimate then restarts from zero.
pub fn reconcile(
    state: FollowerState,
    status: SyncStatus,
    offset: i64,
    now: i64,
    local_pos: u32,
    local_measured_at: i64,
) -> (r: (FollowerState, PlayerAction))
    requires
        i64::MIN <= spec_remote_position(now as int, status.start_time as int, offset as int)
            <= i64::MAX,
        (!spec_track_changed(state.previous.track@, status.track@) && state.previous.playing
            && status.playing) ==> i64::MIN <= spec_local_position(
            local_pos as int,
            now as int,
            local_measured_at as int,
        ) - spec_remote_position(now as int, status.start_time as int, offset as int)
            <= i64::MAX,
    ensures
        ({
            let rp = spec_remote_position(now as int, status.start_time as int, offset as int);
            let changed = spec_track_changed(state.previous.track@, status.track@);
            let diff = spec_local_position(
                local_pos as int,
                now as int,
                local_measured_at as int,
            ) - rp;
            let smoothed = spec_smoothed(state.drift as int, diff);
            &&& r.0.previous.playing == status.playing
            &&& r.0.previous.track@ == status.track@
            &&& r.0.previous.start_time == status.start_time
            &&& changed ==> (r.1 matches PlayerAction::Load { track, playing, position_ms }
                && track@ == status.track@ && playing == status.playing && position_ms
                == spec_clamp_position(rp) && r.0.drift == 0)
            &&& (!changed && !state.previous.playing && status.playing) ==> (r.1
                matches PlayerAction::SeekPlay { position_ms, at } && position_ms
                == spec_clamp_position(rp) && at == now && r.0.drift == state.drift)
            &&& (!changed && state.previous.playing && !status.playing) ==> (r.1
                is Pause && r.0.drift == state.drift)
            &&& (!changed && !state.previous.playing && !status.playing) ==> (r.1
                is Idle && r.0.drift == state.drift)
            &&& (!changed && state.previous.playing && status.playing && -DRIFT_THRESHOLD_MS
                <= smoothed <= DRIFT_THRESHOLD_MS) ==> (r.1 is Idle && r.0.drift == smoothed)
            &&& (!changed && state.previous.playing && status.playing && !(-DRIFT_THRESHOLD_MS
                <= smoothed <= DRIFT_THRESHOLD_MS)) ==> (r.1 matches PlayerAction::Seek {
                position_ms,
                at,
            } && position_ms == spec_clamp_position(rp) && at == now && r.0.drift == 0)
            &&& status.track@.len() == 0 ==> !(r.1 is Load)
        }),
{
    let rp: i64 = remote_position(now, status.start_time, offset);
    let changed = !(status.track == state.previous.track) && !status.track.as_str().is_empty();
    if changed {
        let track = status.track.clone();
        let playing = status.playing;
        let position_ms = clamp_position(rp);
        (
            FollowerState { previous: status, drift: 0 },
            PlayerAction::Load { track, playing, position_ms },
        )
    } else if !state.previous.playing && status.playing {
        let position_ms = clamp_position(rp);
        (
            FollowerState { previous: status, drift: state.drift },
            PlayerAction::SeekPlay { position_ms, at: now },
        )
    } else if state.previous.playing && !status.playing {
        (FollowerState { previous: status, drift: state.drift }, PlayerAction::Pause)
    } else if !state.previous.playing && !status.playing {
        (FollowerState { previous: status, drift: state.drift }, PlayerAction::Idle)
    } else {
        let lp: i128 = local_pos as i128 + now as i128 - local_measured_at as i128;
        let diff_wide: i128 = lp - rp as i128;
        let diff: i64 = diff_wide as i64;
        let drift = update_drift(state.drift, diff);
        if drift > DRIFT_THRESHOLD_MS || drift < -DRIFT_THRESHOLD_MS {
            let position_ms = clamp_position(rp);
            (
                FollowerState { previous: status, drift: 0 },
                PlayerAction::Seek { position_ms, at: now },
            )
        } else {
            (FollowerState { previous: status, drift }, PlayerAction::Idle)
        }
    }
}

} // verus!
