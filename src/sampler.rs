//! The sampling schedule of a video and the suppression of unchanged frames.
//!
//! Frame rates are given in thousandths of a frame per second, times in
//! milliseconds, and pixel similarities in parts per billion.
use vstd::prelude::*;

verus! {

/// Playback time between two samples.
pub const SAMPLE_INTERVAL_MS: u64 = 5000;

/// A sample at least this similar to the last kept one is unchanged.
pub const UNCHANGED_SIMILARITY: u64 = 980_000_000;

/// How many frames lie between two samples: the frame rate times the sampling
/// interval, rounded down.
pub open spec fn frames_per_sample_spec(fps_milli: u64, interval_ms: u64) -> int {
    (fps_milli as int * interval_ms as int) / 1_000_000
}

/// The playback time of frame `frame_idx`, in milliseconds, rounded down.
pub open spec fn frame_time_ms_spec(frame_idx: u64, fps_milli: u64) -> int {
    (frame_idx as int * 1_000_000) / fps_milli as int
}

/// How many frames lie between two samples, at the given frame rate and interval.
pub fn frames_per_sample(fps_milli: u64, interval_ms: u64) -> (r: u64)
    requires
        frames_per_sample_spec(fps_milli, interval_ms) <= u64::MAX,
    ensures
        r == frames_per_sample_spec(fps_milli, interval_ms),
{
    ((fps_milli as u128 * interval_ms as u128) / 1_000_000) as u64
}

/// Whether frame `frame_idx` is sampled: every `step`-th frame from the first is;
/// with no frames between samples (a step of zero), none is.
pub fn is_sample_frame(frame_idx: u64, step: u64) -> (r: bool)
    ensures
        r == (step > 0 && frame_idx % step == 0),
{
    step > 0 && frame_idx % step == 0
}

/// The playback time of a frame, in milliseconds.
pub fn frame_time_ms(frame_idx: u64, fps_milli: u64) -> (r: u64)
    requires
        fps_milli > 0,
        frame_time_ms_spec(frame_idx, fps_milli) <= u64::MAX,
    ensures
        r == frame_time_ms_spec(frame_idx, fps_milli),
{
    ((frame_idx as u128 * 1_000_000) / fps_milli as u128) as u64
}

/// How many samples a video of the given length has: its length divided by the
/// sampling interval, rounded down.
pub fn samples_to_process(total_time_ms: u64, interval_ms: u64) -> (r: u64)
    requires
        interval_ms > 0,
    ensures
        r == total_time_ms / interval_ms,
{
    total_time_ms / interval_ms
}

/// Whether a sample is changed, given its similarity to the last kept sample
/// (none for the first one): the first sample always is; a later one is unless
/// it is at least 0.98 similar. A changed sample becomes the new last kept one.
pub fn is_changed_frame(similarity_to_last_kept: Option<u64>) -> (r: bool)
    ensures
        r == match similarity_to_last_kept {
            Some(s) => s < UNCHANGED_SIMILARITY,
            None => true,
        },
{
    match similarity_to_last_kept {
        Some(s) => s < UNCHANGED_SIMILARITY,
        None => true,
    }
}

} // verus!
