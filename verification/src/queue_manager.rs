//! Gapless track transitions: tracks are decoded ahead of time, and the
//! manager decides when the next one is handed to the output queue.
//!
//! The manager never touches the output queue itself: `start` and
//! `promote_if_low_water` return the track whose samples the caller appends,
//! so all decoding and copying stays outside the audio callback.
use std::collections::VecDeque;

use vstd::prelude::*;

use crate::playback_state::TrackMetadata;

verus! {

/// A decoded track: its metadata and interleaved PCM samples.
pub struct DecodedTrack<S> {
    pub metadata: TrackMetadata,
    pub samples: Vec<S>,
    pub sample_rate: u32,
    pub channels: u16,
}

/// Why the manager refused a request.
#[derive(Debug, Clone, Copy, PartialEq, Eq, Structural)]
pub enum QueueError {
    /// A track without samples was offered for preloading.
    EmptyTrack,
    /// `start` was called a second time.
    AlreadyStarted,
    /// Nothing is prepared, or a non-final track has no prepared successor.
    SuccessorNotReady,
}

impl QueueError {
    pub fn message(&self) -> (m: &'static str)
        ensures
            m@ == (match *self {
                QueueError::EmptyTrack => "prepared track contained no audio samples"@,
                QueueError::AlreadyStarted => "gapless queue has already started"@,
                QueueError::SuccessorNotReady =>
                    "prepare the next track metadata and PCM before starting playback"@,
            }),
    {
        match self {
            QueueError::EmptyTrack => "prepared track contained no audio samples",
            QueueError::AlreadyStarted => "gapless queue has already started",
            QueueError::SuccessorNotReady =>
                "prepare the next track metadata and PCM before starting playback",
        }
    }
}

/// Samples (over all channels) in two seconds of audio: the low-water mark.
pub open spec fn low_water_mark(channels: u16, sample_rate: u32) -> nat {
    (channels as nat) * (sample_rate as nat) * 2
}

/// The refusal, if any, that `start` gives in a given state.
pub open spec fn start_refusal(started: bool, prepared: nat, final_track: bool) -> Option<QueueError> {
    if started {
        Some(QueueError::AlreadyStarted)
    } else if prepared == 0 || (!final_track && prepared < 2) {
        Some(QueueError::SuccessorNotReady)
    } else {
        None
    }
}

/// Whether `promote_if_low_water` hands out the next track in a given state.
pub open spec fn promotes(started: bool, queued: nat, low_water: nat, prepared: nat) -> bool {
    started && queued <= low_water && prepared > 0
}

/// Track transition coordinator.
pub struct GaplessQueueManager<S> {
    prepared: VecDeque<DecodedTrack<S>>,
    low_water_samples: usize,
    started: bool,
}

impl<S> GaplessQueueManager<S> {
    /// The prepared tracks, oldest first.
    pub closed spec fn spec_prepared(&self) -> Seq<DecodedTrack<S>> {
        self.prepared@
    }

    /// Whether playback has been started.
    pub closed spec fn spec_started(&self) -> bool {
        self.started
    }

    /// Queued samples at or below which the next track is promoted.
    pub closed spec fn spec_low_water(&self) -> nat {
        self.low_water_samples as nat
    }

    #[verifier::type_invariant]
    spec fn inv(self) -> bool {
        forall|i: int| 0 <= i < self.prepared@.len() ==> #[trigger] self.prepared@[i].samples@.len() > 0
    }

    /// Every prepared track holds samples: its PCM is ready to be appended.
    /// Every manager keeps this: `new` establishes it and every method preserves it.
    pub open spec fn spec_all_ready(&self) -> bool {
        forall|i: int|
            0 <= i < self.spec_prepared().len() ==> #[trigger] self.spec_prepared()[i].samples@.len() > 0
    }

    /// A manager for output with `channels` interleaved channels at `sample_rate`;
    /// the low-water mark is two seconds of samples.
    pub fn new(channels: u16, sample_rate: u32) -> (m: Self)
        requires
            low_water_mark(channels, sample_rate) <= usize::MAX,
        ensures
            m.spec_prepared() == Seq::<DecodedTrack<S>>::empty(),
            !m.spec_started(),
            m.spec_low_water() == low_water_mark(channels, sample_rate),
            m.spec_all_ready(),
    {
        let ch: usize = channels as usize;
        let rate: usize = sample_rate as usize;
        assert(ch * rate <= usize::MAX) by (nonlinear_arith)
            requires
                ch * rate * 2 <= usize::MAX,
        ;
        let low: usize = ch * rate * 2;
        GaplessQueueManager { prepared: VecDeque::new(), low_water_samples: low, started: false }
    }

    /// Accepts a decoded track; one without samples is refused and nothing changes.
    pub fn preload_decoded(&mut self, track: DecodedTrack<S>) -> (r: Result<(), QueueError>)
        ensures
            track.samples@.len() == 0 ==> r == Err::<(), QueueError>(QueueError::EmptyTrack)
                && final(self).spec_prepared() == old(self).spec_prepared(),
            track.samples@.len() > 0 ==> r is Ok && final(self).spec_prepared() == old(
                self,
            ).spec_prepared().push(track),
            final(self).spec_started() == old(self).spec_started(),
            final(self).spec_low_water() == old(self).spec_low_water(),
            final(self).spec_all_ready(),
    {
        proof {
            use_type_invariant(&*self);
        }
        if track.samples.len() == 0 {
            return Err(QueueError::EmptyTrack);
        }
        let mut q = VecDeque::new();
        std::mem::swap(&mut q, &mut self.prepared);
        q.push_back(track);
        self.prepared = q;
        Ok(())
    }

    /// Starts playback with the oldest prepared track, which is returned for the caller to
    /// append. Unless `final_track` is set, a successor must already be prepared.
    pub fn start(&mut self, final_track: bool) -> (r: Result<DecodedTrack<S>, QueueError>)
        ensures
            match start_refusal(
                old(self).spec_started(),
                old(self).spec_prepared().len(),
                final_track,
            ) {
                Some(e) => r == Err::<DecodedTrack<S>, QueueError>(e) && final(self).spec_prepared()
                    == old(self).spec_prepared() && final(self).spec_started() == old(
                    self,
                ).spec_started(),
                None => r == Ok::<DecodedTrack<S>, QueueError>(old(self).spec_prepared()[0])
                    && final(self).spec_prepared() == old(self).spec_prepared().drop_first()
                    && final(self).spec_started(),
            },
            final(self).spec_low_water() == old(self).spec_low_water(),
            final(self).spec_all_ready(),
    {
        proof {
            use_type_invariant(&*self);
        }
        if self.started {
            return Err(QueueError::AlreadyStarted);
        }
        if self.prepared.len() == 0 || (!final_track && self.prepared.len() < 2) {
            return Err(QueueError::SuccessorNotReady);
        }
        self.started = true;
        let t = self.take_next();
        Ok(t)
    }

    /// Hands out the next prepared track once the output holds `queued_samples` or fewer
    /// samples and playback has started; otherwise returns `None` and nothing changes.
    pub fn promote_if_low_water(&mut self, queued_samples: usize) -> (r: Option<DecodedTrack<S>>)
        ensures
            promotes(
                old(self).spec_started(),
                queued_samples as nat,
                old(self).spec_low_water(),
                old(self).spec_prepared().len(),
            ) ==> r == Some(old(self).spec_prepared()[0]) && final(self).spec_prepared() == old(
                self,
            ).spec_prepared().drop_first(),
            !promotes(
                old(self).spec_started(),
                queued_samples as nat,
                old(self).spec_low_water(),
                old(self).spec_prepared().len(),
            ) ==> r is None && final(self).spec_prepared() == old(self).spec_prepared(),
            final(self).spec_started() == old(self).spec_started(),
            final(self).spec_low_water() == old(self).spec_low_water(),
            final(self).spec_all_ready(),
    {
        proof {
            use_type_invariant(&*self);
        }
        if !self.started || queued_samples > self.low_water_samples || self.prepared.len() == 0 {
            return None;
        }
        let t = self.take_next();
        Some(t)
    }

    pub fn prepared_count(&self) -> (n: usize)
        ensures
            n == self.spec_prepared().len(),
    {
        self.prepared.len()
    }

    fn take_next(&mut self) -> (t: DecodedTrack<S>)
        requires
            old(self).spec_prepared().len() > 0,
        ensures
            final(self).spec_all_ready(),
            t == old(self).spec_prepared()[0],
            final(self).spec_prepared() == old(self).spec_prepared().drop_first(),
            final(self).spec_started() == old(self).spec_started(),
            final(self).spec_low_water() == old(self).spec_low_water(),
    {
        proof {
            use_type_invariant(&*self);
        }
        let mut q = VecDeque::new();
        std::mem::swap(&mut q, &mut self.prepared);
        let t = q.pop_front().unwrap();
        self.prepared = q;
        t
    }
}

/// Playback starts at most once: after a start succeeded, every later start is refused.
pub proof fn lemma_start_at_most_once(prepared_before: nat, final_before: bool, prepared_after: nat, final_after: bool)
    requires
        start_refusal(false, prepared_before, final_before) is None,
    ensures
        start_refusal(true, prepared_after, final_after) == Some(QueueError::AlreadyStarted),
{
}

/// A non-final track only starts when its successor is ready: a successful non-final start
/// leaves at least one prepared track behind.
pub proof fn lemma_non_final_start_keeps_successor(prepared: nat)
    requires
        start_refusal(false, prepared, false) is None,
    ensures
        prepared >= 2,
        prepared - 1 >= 1,
{
}

/// Tracks leave the manager in the order they were preloaded: preloading appends at the
/// back and taking removes from the front, so a preload never changes which track is taken
/// next, and what is already prepared is taken before it.
pub proof fn lemma_fifo_order<T>(prepared: Seq<T>, x: T)
    ensures
        prepared.len() == 0 ==> prepared.push(x)[0] == x,
        prepared.len() > 0 ==> prepared.push(x)[0] == prepared[0],
        prepared.len() > 0 ==> prepared.push(x).drop_first() == prepared.drop_first().push(x),
{
    if prepared.len() > 0 {
        assert(prepared.push(x).drop_first() =~= prepared.drop_first().push(x));
    }
}

} // verus!
