//! Now-playing metadata and the sample-accurate playback clock shared with the
//! audio callback.
use std::sync::Arc;
use std::sync::atomic::AtomicU64;
use std::sync::atomic::Ordering;

use vstd::prelude::*;

use crate::duration::{Duration, ratio_nanos};

verus! {

/// Samples in one visualizer window published while decoding.
pub const VISUALIZER_WINDOW_SAMPLES: usize = 2_048;

/// What the player shows for the current track.
#[derive(Debug)]
pub struct TrackMetadata {
    pub title: String,
    pub artist: String,
    pub album: String,
    pub duration: Option<Duration>,
}

impl Clone for TrackMetadata {
    fn clone(&self) -> (c: Self)
        ensures
            c == *self,
    {
        TrackMetadata {
            title: self.title.clone(),
            artist: self.artist.clone(),
            album: self.album.clone(),
            duration: self.duration,
        }
    }
}

impl Default for TrackMetadata {
    fn default() -> (m: Self)
        ensures
            m.title@ == Seq::<char>::empty(),
            m.artist@ == Seq::<char>::empty(),
            m.album@ == Seq::<char>::empty(),
            m.duration is None,
    {
        TrackMetadata {
            title: String::new(),
            artist: String::new(),
            album: String::new(),
            duration: None,
        }
    }
}

/// The playing time of `frames` frames at `sample_rate` frames per second.
/// The quotient is taken exactly, in integers, and rounded to the nearest nanosecond; a
/// floating-point division of the same values can land one nanosecond away.
pub fn frames_to_duration(frames: u64, sample_rate: u32) -> (d: Duration)
    requires
        sample_rate > 0,
    ensures
        d@ == ratio_nanos(frames as nat, sample_rate as nat),
{
    Duration::from_ratio(frames, sample_rate as u64)
}

/// The frame counter after `frames` more frames were played from `previous`.
/// The counter wraps like the atomic it lives in.
pub fn frames_after_advance(previous: u64, frames: u64) -> (total: u64)
    ensures
        total == (previous as nat + frames as nat) % 0x1_0000_0000_0000_0000,
{
    let total: u64 = previous.wrapping_add(frames);
    total
}

/// Sample-accurate position shared from the audio callback without channel traffic.
#[derive(Clone)]
pub struct PlaybackClock(Arc<AtomicU64>);

impl Default for PlaybackClock {
    fn default() -> Self {
        PlaybackClock(Arc::new(AtomicU64::new(0)))
    }
}

impl PlaybackClock {
    /// Counts `frames` more played frames and returns the new total.
    /// The total depends on what other holders of the clock did before;
    /// `frames_after_advance` states it for each previous value.
    pub fn advance(&self, frames: u64) -> u64 {
        let previous = self.0.fetch_add(frames, Ordering::Relaxed);
        frames_after_advance(previous, frames)
    }

    /// Current position at `sample_rate` frames per second: the playing time of the frame
    /// count the counter holds at the moment of the read, to the nearest nanosecond. Which
    /// count that is depends on the audio callback, which advances the counter concurrently.
    pub fn position(&self, sample_rate: u32) -> (d: Duration)
        requires
            sample_rate > 0,
        ensures
            exists|frames: u64| d@ == #[trigger] ratio_nanos(frames as nat, sample_rate as nat),
    {
        let frames = self.played_frames();
        frames_to_duration(frames, sample_rate)
    }

    /// Rewinds the counter to zero.
    pub fn reset(&self) {
        self.0.store(0, Ordering::Relaxed);
    }

    /// Moves the counter to `frames`.
    pub fn set_frames(&self, frames: u64) {
        self.0.store(frames, Ordering::Relaxed);
    }

    /// The number of frames the callback has played so far. The audio callback advances
    /// the counter from its own thread, so every value is a possible outcome of this read.
    pub fn played_frames(&self) -> u64 {
        self.0.load(Ordering::Relaxed)
    }
}

} // verus!
