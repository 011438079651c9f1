//! Decisions of the audio output: stream configuration, ring size and how often the
//! callback publishes its position.
use vstd::prelude::*;

verus! {

/// Requested hardware buffering.
#[derive(Debug, Clone, Copy, PartialEq, Eq, Structural)]
pub enum LatencyProfile {
    /// Let the audio server choose.
    Default,
    /// Ask for a fixed buffer of this many frames.
    FixedFrames(u32),
}

impl Default for LatencyProfile {
    fn default() -> (p: LatencyProfile)
        ensures
            p == LatencyProfile::Default,
    {
        LatencyProfile::Default
    }
}

/// The sample format of an offered stream configuration.
#[derive(Debug, Clone, Copy, PartialEq, Eq, Structural)]
pub enum SampleFormatKind {
    F32,
    I16,
    U16,
    Other,
}

/// An output configuration the device offers.
#[derive(Debug, Clone, Copy, PartialEq, Eq, Structural)]
pub struct OfferedConfig {
    pub channels: u16,
    pub format: SampleFormatKind,
    pub min_sample_rate: u32,
    pub max_sample_rate: u32,
}

/// Index of the first configuration satisfying `pred` from `from` on, or `None`.
pub open spec fn first_satisfying(s: Seq<OfferedConfig>, pred: spec_fn(OfferedConfig) -> bool) -> Option<int>
    decreases s.len(),
{
    if s.len() == 0 {
        None
    } else {
        match first_satisfying(s.drop_last(), pred) {
            Some(i) => Some(i),
            None => if pred(s.last()) {
                Some(s.len() - 1)
            } else {
                None
            },
        }
    }
}

pub open spec fn stereo_f32(c: OfferedConfig) -> bool {
    c.channels == 2 && c.format == SampleFormatKind::F32
}

pub open spec fn stereo_int(c: OfferedConfig) -> bool {
    c.channels == 2 && (c.format == SampleFormatKind::I16 || c.format == SampleFormatKind::U16)
}

pub open spec fn any_f32(c: OfferedConfig) -> bool {
    c.format == SampleFormatKind::F32
}

/// The configuration used when the device has no default one: stereo float, else stereo
/// 16-bit, else any float, else the first offered.
pub open spec fn spec_preferred_config(s: Seq<OfferedConfig>) -> Option<int> {
    match first_satisfying(s, |c: OfferedConfig| stereo_f32(c)) {
        Some(i) => Some(i),
        None => match first_satisfying(s, |c: OfferedConfig| stereo_int(c)) {
            Some(i) => Some(i),
            None => match first_satisfying(s, |c: OfferedConfig| any_f32(c)) {
                Some(i) => Some(i),
                None => if s.len() > 0 {
                    Some(0)
                } else {
                    None
                },
            },
        },
    }
}

proof fn lemma_first_satisfying(s: Seq<OfferedConfig>, pred: spec_fn(OfferedConfig) -> bool, k: int)
    requires
        0 <= k <= s.len(),
        forall|j: int| 0 <= j < k ==> !pred(#[trigger] s[j]),
        k == s.len() || pred(s[k]),
    ensures
        k < s.len() ==> first_satisfying(s, pred) == Some(k),
        k == s.len() ==> first_satisfying(s, pred) is None,
    decreases s.len(),
{
    if s.len() > 0 {
        if k < s.len() - 1 {
            lemma_first_satisfying(s.drop_last(), pred, k);
        } else if k == s.len() - 1 {
            lemma_first_satisfying(s.drop_last(), pred, k);
        } else {
            lemma_first_satisfying(s.drop_last(), pred, k - 1);
        }
    }
}

fn find_config(s: &Vec<OfferedConfig>, which: u8) -> (r: Option<usize>)
    requires
        which < 3,
    ensures
        ({
            let pred = if which == 0 {
                |c: OfferedConfig| stereo_f32(c)
            } else if which == 1 {
                |c: OfferedConfig| stereo_int(c)
            } else {
                |c: OfferedConfig| any_f32(c)
            };
            match first_satisfying(s@, pred) {
                Some(i) => r == Some(i as usize),
                None => r is None,
            }
        }),
{
    let ghost pred = if which == 0 {
        |c: OfferedConfig| stereo_f32(c)
    } else if which == 1 {
        |c: OfferedConfig| stereo_int(c)
    } else {
        |c: OfferedConfig| any_f32(c)
    };
    let mut i: usize = 0;
    while i < s.len()
        invariant
            i <= s@.len(),
            which < 3,
            pred == (if which == 0 {
                |c: OfferedConfig| stereo_f32(c)
            } else if which == 1 {
                |c: OfferedConfig| stereo_int(c)
            } else {
                |c: OfferedConfig| any_f32(c)
            }),
            forall|j: int| 0 <= j < i ==> !pred(#[trigger] s@[j]),
        decreases s@.len() - i,
    {
        let c = s[i];
        let hit = if which == 0 {
            c.channels == 2 && c.format == SampleFormatKind::F32
        } else if which == 1 {
            c.channels == 2 && (c.format == SampleFormatKind::I16 || c.format == SampleFormatKind::U16)
        } else {
            c.format == SampleFormatKind::F32
        };
        assert(hit == pred(s@[i as int]));
        if hit {
            proof {
                lemma_first_satisfying(s@, pred, i as int);
            }
            return Some(i);
        }
        i = i + 1;
    }
    proof {
        lemma_first_satisfying(s@, pred, i as int);
    }
    None
}

/// Picks the configuration to use when the device offers no default one.
pub fn preferred_config(configs: &Vec<OfferedConfig>) -> (r: Option<usize>)
    ensures
        match spec_preferred_config(configs@) {
            Some(i) => r == Some(i as usize),
            None => r is None,
        },
{
    if let Some(i) = find_config(configs, 0) {
        return Some(i);
    }
    if let Some(i) = find_config(configs, 1) {
        return Some(i);
    }
    if let Some(i) = find_config(configs, 2) {
        return Some(i);
    }
    if configs.len() > 0 {
        Some(0)
    } else {
        None
    }
}

/// The sample rate asked of a configuration supporting `min..=max`: 44.1 kHz when
/// possible, else 48 kHz, else its minimum.
pub fn choose_sample_rate(min: u32, max: u32) -> (rate: u32)
    ensures
        rate == (if min <= 44100 && 44100 <= max {
            44100
        } else if min <= 48000 && 48000 <= max {
            48000
        } else {
            min
        }),
{
    if 44100 >= min && 44100 <= max {
        44100
    } else if 48000 >= min && 48000 <= max {
        48000
    } else {
        min
    }
}

/// Samples the output ring holds: ten seconds of interleaved audio.
pub fn ring_capacity(channels: u16, sample_rate: u32) -> (c: usize)
    requires
        channels * sample_rate * 10 <= usize::MAX,
    ensures
        c == channels * sample_rate * 10,
{
    let ch: usize = channels as usize;
    let rate: usize = sample_rate as usize;
    assert(ch * rate <= usize::MAX) by (nonlinear_arith)
        requires
            ch * rate * 10 <= usize::MAX,
    ;
    ch * rate * 10
}

/// Whether the callback publishes its position now: on the first update, after the clock
/// went backwards (a seek or reset), or once about a thirtieth of a second has played
/// since the last one.
pub fn should_publish_position(last_update: u64, played_frames: u64, sample_rate: u32) -> (p: bool)
    ensures
        ({
            let interval: nat = if sample_rate / 30 > 0 {
                (sample_rate / 30) as nat
            } else {
                1
            };
            p == (last_update == 0 || played_frames < last_update || played_frames - last_update
                >= interval)
        }),
{
    let per: u64 = (sample_rate / 30) as u64;
    let interval: u64 = if per > 1 {
        per
    } else {
        1
    };
    let since: u64 = played_frames.saturating_sub(last_update);
    last_update == 0 || played_frames < last_update || since >= interval
}

/// Samples copied into one visualizer window from an output buffer of `len` samples.
pub fn visualizer_window(len: usize) -> (w: usize)
    ensures
        w == (if len < 512 {
            len
        } else {
            512
        }),
{
    if len < 512 {
        len
    } else {
        512
    }
}

/// Whole frames in `samples` interleaved samples.
pub fn whole_frames(samples: usize, channels: usize) -> (f: u64)
    requires
        channels > 0,
    ensures
        f == samples / channels,
{
    (samples / channels) as u64
}

} // verus!
