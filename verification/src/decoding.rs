//! Decisions of the decoder and the loudness analyser that do not touch samples:
//! Opus output format, format fallbacks, lengths and frame checks.
use vstd::prelude::*;

use crate::duration::{Duration, ratio_nanos};
use crate::playback_state::{frames_to_duration, VISUALIZER_WINDOW_SAMPLES};

verus! {

/// The rate an Opus stream is decoded at: its own rate when libopus supports it, else
/// 48 kHz.
pub fn opus_sample_rate(rate: u32) -> (r: u32)
    ensures
        r == (if rate == 8000 || rate == 12000 || rate == 16000 || rate == 24000 || rate == 48000 {
            rate
        } else {
            48000
        }),
{
    if rate == 8000 || rate == 12000 || rate == 16000 || rate == 24000 || rate == 48000 {
        rate
    } else {
        48000
    }
}

/// The channel count an Opus stream is decoded to: mono stays mono, all else is stereo.
pub fn opus_channels(channels: u16) -> (c: u16)
    ensures
        c == (if channels == 1 {
            1u16
        } else {
            2u16
        }),
{
    if channels == 1 {
        1
    } else {
        2
    }
}

/// The channel count after decoding: the one already known, else the codec's, else two.
pub fn resolve_channels(known: u16, from_codec: Option<u16>) -> (c: u16)
    ensures
        c == (if known != 0 {
            known
        } else {
            match from_codec {
                Some(n) => n,
                None => 2,
            }
        }),
{
    if known != 0 {
        known
    } else {
        match from_codec {
            Some(n) => n,
            None => 2,
        }
    }
}

/// The sample rate after decoding: the one already known, else the codec's, else 44.1 kHz.
pub fn resolve_sample_rate(known: u32, from_codec: Option<u32>) -> (r: u32)
    ensures
        r == (if known != 0 {
            known
        } else {
            match from_codec {
                Some(n) => n,
                None => 44100,
            }
        }),
{
    if known != 0 {
        known
    } else {
        match from_codec {
            Some(n) => n,
            None => 44100,
        }
    }
}

/// The length of decoded audio when the container gave none: whole frames over the rate.
/// Unknown while the format is unknown or nothing was decoded.
/// The quotient is taken exactly, in integers, and rounded to the nearest nanosecond; a
/// floating-point division of the same values can land one nanosecond away.
pub fn duration_from_samples(sample_count: usize, channels: u16, sample_rate: u32) -> (d: Option<Duration>)
    ensures
        (sample_rate > 0 && channels > 0 && sample_count > 0) ==> (d matches Some(x) && x@ == ratio_nanos(
            ((sample_count as nat) / (channels as nat)) as nat,
            sample_rate as nat,
        )),
        !(sample_rate > 0 && channels > 0 && sample_count > 0) ==> d is None,
{
    if sample_rate > 0 && channels > 0 && sample_count > 0 {
        let frames: usize = sample_count / (channels as usize);
        Some(frames_to_duration(frames as u64, sample_rate))
    } else {
        None
    }
}

/// Number of visualizer windows for `sample_count` samples (the last may be partial).
pub open spec fn window_count(sample_count: nat) -> nat {
    sample_count / (VISUALIZER_WINDOW_SAMPLES as nat) + if sample_count % (VISUALIZER_WINDOW_SAMPLES as nat)
        != 0 {
        1nat
    } else {
        0nat
    }
}

/// The windows `[start, end)` a decoded track is cut into for the visualizer: consecutive
/// runs of `VISUALIZER_WINDOW_SAMPLES` samples, the last one possibly shorter.
pub fn visualizer_windows(sample_count: usize) -> (w: Vec<(usize, usize)>)
    ensures
        w@.len() == window_count(sample_count as nat),
        forall|k: int| 0 <= k < w@.len() ==> (#[trigger] w@[k]).0 == k * VISUALIZER_WINDOW_SAMPLES && w@[k].1
            == (if (k + 1) * VISUALIZER_WINDOW_SAMPLES < sample_count {
                (k + 1) * VISUALIZER_WINDOW_SAMPLES
            } else {
                sample_count as int
            }),
{
    let full: usize = sample_count / VISUALIZER_WINDOW_SAMPLES;
    let n: usize = if sample_count % VISUALIZER_WINDOW_SAMPLES != 0 {
        full + 1
    } else {
        full
    };
    assert(full * VISUALIZER_WINDOW_SAMPLES <= sample_count) by (nonlinear_arith)
        requires
            full == sample_count / 2048,
    ;
    assert(n * VISUALIZER_WINDOW_SAMPLES >= sample_count) by (nonlinear_arith)
        requires
            full == sample_count / 2048,
            n == (if sample_count % 2048 != 0 { full + 1 } else { full as int }),
    ;
    let mut w: Vec<(usize, usize)> = Vec::new();
    let mut k: usize = 0;
    while k < n
        invariant
            k <= n,
            w@.len() == k,
            n == window_count(sample_count as nat),
            full == sample_count / 2048,
            n == (if sample_count % 2048 != 0 { full + 1 } else { full as int }),
            forall|j: int| 0 <= j < w@.len() ==> (#[trigger] w@[j]).0 == j * VISUALIZER_WINDOW_SAMPLES && w@[j].1
                == (if (j + 1) * VISUALIZER_WINDOW_SAMPLES < sample_count {
                    (j + 1) * VISUALIZER_WINDOW_SAMPLES
                } else {
                    sample_count as int
                }),
        decreases n - k,
    {
        assert(k * 2048 < sample_count) by (nonlinear_arith)
            requires
                k < n,
                full == sample_count / 2048,
                n == (if sample_count % 2048 != 0 { full + 1 } else { full as int }),
        ;
        let start: usize = k * VISUALIZER_WINDOW_SAMPLES;
        let end: usize = if sample_count - start > VISUALIZER_WINDOW_SAMPLES {
            start + VISUALIZER_WINDOW_SAMPLES
        } else {
            sample_count
        };
        w.push((start, end));
        k = k + 1;
    }
    w
}

/// Whether PCM is made of complete interleaved frames, as loudness analysis requires.
pub fn complete_frames(sample_count: usize, channels: u16) -> (ok: bool)
    ensures
        ok == (channels != 0 && sample_count > 0 && (sample_count as nat) % (channels as nat) == 0),
{
    channels != 0 && sample_count > 0 && sample_count % (channels as usize) == 0
}

} // verus!
