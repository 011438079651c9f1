//! The player's navigation rules: which track plays next or before, what the queue,
//! selection and folder actions do, and which tracks the library view shows.
use vstd::prelude::*;

use crate::duration::{Duration, NANOS_PER_SEC};
use crate::filters::{FilterState, NavTab};
use crate::library::{LibraryTrack, TrackView};
use crate::paths::{path_starts_with, spec_path_starts_with};
use crate::playback_state::TrackMetadata;
use crate::text::{
    chars_of, contains_chars, eq_ignore_ascii_case, lowercase_chars, spec_ascii_lowercase,
    spec_contains, spec_eq_ignore_ascii_case, spec_trim, to_ascii_lowercase, trim_chars,
};

verus! {

/// The tracks of `s` taken as values.
pub open spec fn views(s: Seq<LibraryTrack>) -> Seq<TrackView> {
    s.map_values(|t: LibraryTrack| t@)
}

/// The ids of `s`, in order.
pub open spec fn ids_of(s: Seq<TrackView>) -> Seq<i64> {
    s.map_values(|t: TrackView| t.id)
}

/// The tracks of `s` whose id is in `ids`, in the order of `s`.
pub open spec fn with_ids(s: Seq<TrackView>, ids: Seq<i64>) -> Seq<TrackView>
    decreases s.len(),
{
    if s.len() == 0 {
        s
    } else {
        let r = with_ids(s.drop_last(), ids);
        if ids.contains(s.last().id) {
            r.push(s.last())
        } else {
            r
        }
    }
}

/// The first index in `s` of a track with id `id`.
pub open spec fn first_index(s: Seq<TrackView>, id: i64) -> Option<int>
    decreases s.len(),
{
    if s.len() == 0 {
        None
    } else {
        match first_index(s.drop_last(), id) {
            Some(i) => Some(i),
            None => if s.last().id == id {
                Some(s.len() - 1)
            } else {
                None
            },
        }
    }
}

pub proof fn lemma_first_index(s: Seq<TrackView>, id: i64, k: int)
    requires
        0 <= k <= s.len(),
        forall|j: int| 0 <= j < k ==> s[j].id != id,
    ensures
        k < s.len() && s[k].id == id ==> first_index(s, id) == Some(k),
        k == s.len() ==> first_index(s, id) is None,
    decreases s.len(),
{
    if s.len() > 0 {
        if k < s.len() {
            if s[k].id == id {
                if k < s.len() - 1 {
                    lemma_first_index(s.drop_last(), id, k);
                } else {
                    lemma_first_index(s.drop_last(), id, k);
                }
            }
        } else {
            lemma_first_index(s.drop_last(), id, k - 1);
        }
    }
}

/// Tracks of `all` whose id is in `ids`, in library order.
pub fn tracks_with_ids(all: &Vec<LibraryTrack>, ids: &Vec<i64>) -> (r: Vec<LibraryTrack>)
    ensures
        views(r@) == with_ids(views(all@), ids@),
{
    let mut r: Vec<LibraryTrack> = Vec::new();
    let mut i: usize = 0;
    while i < all.len()
        invariant
            i <= all@.len(),
            views(r@) == with_ids(views(all@).take(i as int), ids@),
        decreases all@.len() - i,
    {
        let keep = contains_id(ids, all[i].id);
        assert(views(all@).take(i as int + 1).drop_last() =~= views(all@).take(i as int));
        if keep {
            let t = all[i].clone();
            let ghost before = r@;
            r.push(t);
            assert(views(r@) =~= views(before).push(all@[i as int]@));
        }
        i = i + 1;
    }
    assert(views(all@).take(all@.len() as int) =~= views(all@));
    r
}

/// Whether `id` is in `ids`.
pub fn contains_id(ids: &Vec<i64>, id: i64) -> (c: bool)
    ensures
        c == ids@.contains(id),
{
    let mut i: usize = 0;
    while i < ids.len()
        invariant
            i <= ids@.len(),
            forall|j: int| 0 <= j < i ==> ids@[j] != id,
        decreases ids@.len() - i,
    {
        if ids[i] == id {
            assert(ids@[i as int] == id);
            return true;
        }
        i = i + 1;
    }
    false
}

/// Whether there is a visible track and every visible track is selected.
pub fn all_visible_selected(visible: &Vec<LibraryTrack>, selection: &Vec<i64>) -> (b: bool)
    ensures
        b == (visible@.len() > 0 && forall|i: int|
            0 <= i < visible@.len() ==> selection@.contains(#[trigger] visible@[i].id)),
{
    let mut all = visible.len() > 0;
    let mut i: usize = 0;
    while i < visible.len()
        invariant
            i <= visible@.len(),
            all == (visible@.len() > 0 && forall|j: int| 0 <= j < i ==> selection@.contains(#[trigger] visible@[j].id)),
        decreases visible@.len() - i,
    {
        if !contains_id(selection, visible[i].id) {
            all = false;
        }
        i = i + 1;
    }
    all
}


/// The tracks the player steps through: the visible ones, or the whole library when
/// nothing is visible.
pub open spec fn playlist(visible: Seq<TrackView>, all: Seq<TrackView>) -> Seq<TrackView> {
    if visible.len() > 0 {
        visible
    } else {
        all
    }
}

/// The track after the one with id `current` in `list`, wrapping to the first; the first
/// track when `current` is not in the list.
pub open spec fn spec_after(list: Seq<TrackView>, current: Option<i64>) -> i64
    recommends
        list.len() > 0,
{
    match current {
        Some(c) => match first_index(list, c) {
            Some(i) => list[(i + 1) % (list.len() as int)].id,
            None => list[0].id,
        },
        None => list[0].id,
    }
}

/// The track that would play next, when it can be known in advance: the current one again
/// on repeat, the head of the queue, or the next one in the playlist; unknown when the
/// playlist is empty or shuffled.
pub open spec fn spec_peek_next(
    is_repeated: bool,
    current: Option<i64>,
    queued: Seq<i64>,
    visible: Seq<TrackView>,
    all: Seq<TrackView>,
    is_shuffled: bool,
) -> Option<i64> {
    let list = playlist(visible, all);
    if is_repeated {
        current
    } else if queued.len() > 0 {
        Some(queued[0])
    } else if list.len() == 0 || is_shuffled {
        None
    } else {
        Some(spec_after(list, current))
    }
}

/// The id of the track at `first_index(list, id)`, found by a scan.
fn index_of_id(list: &Vec<LibraryTrack>, id: i64) -> (r: Option<usize>)
    ensures
        r matches Some(i) ==> first_index(views(list@), id) == Some(i as int),
        r is None ==> first_index(views(list@), id) is None,
        r matches Some(i) ==> i < list.len() && list@[i as int].id == id,
{
    let ghost s = views(list@);
    let mut i: usize = 0;
    while i < list.len()
        invariant
            i <= list@.len(),
            s == views(list@),
            forall|j: int| 0 <= j < i ==> s[j].id != id,
        decreases list@.len() - i,
    {
        if list[i].id == id {
            proof {
                lemma_first_index(s, id, i as int);
            }
            return Some(i);
        }
        i = i + 1;
    }
    proof {
        lemma_first_index(s, id, i as int);
    }
    None
}

fn after_in(list: &Vec<LibraryTrack>, current: Option<i64>) -> (id: i64)
    requires
        list@.len() > 0,
    ensures
        id == spec_after(views(list@), current),
{
    match current {
        Some(c) => match index_of_id(list, c) {
            Some(i) => {
                let next: usize = (i + 1) % list.len();
                assert(views(list@)[next as int].id == list@[next as int].id);
                assert(views(list@).len() == list@.len());
                list[next].id
            },
            None => {
                assert(views(list@)[0].id == list@[0].id);
                list[0].id
            },
        },
        None => {
            assert(views(list@)[0].id == list@[0].id);
            list[0].id
        },
    }
}

/// The track that would play next, when it can be known in advance.
pub fn peek_next_track_id(
    is_repeated: bool,
    current: Option<i64>,
    queued: &Vec<i64>,
    visible: &Vec<LibraryTrack>,
    all: &Vec<LibraryTrack>,
    is_shuffled: bool,
) -> (r: Option<i64>)
    ensures
        r == spec_peek_next(is_repeated, current, queued@, views(visible@), views(all@), is_shuffled),
{
    if is_repeated {
        return current;
    }
    if queued.len() > 0 {
        return Some(queued[0]);
    }
    let list = if visible.len() > 0 {
        visible
    } else {
        all
    };
    if list.len() == 0 || is_shuffled {
        return None;
    }
    Some(after_in(list, current))
}

/// What `Next` does.
#[derive(Debug, Clone, Copy, PartialEq, Eq, Structural)]
pub enum NextTrack {
    /// Play this track.
    Play(i64),
    /// Play a track of the playlist (which has this many tracks) picked at random.
    Shuffle(usize),
    /// Nothing to play.
    Nothing,
}

/// The choice of the next track and the queue after it: the current one again on repeat,
/// else the head of the queue (taken off it), else a random pick when shuffling, else the
/// playlist's next track.
pub open spec fn spec_next_choice(
    is_repeated: bool,
    current: Option<i64>,
    queued: Seq<i64>,
    visible: Seq<TrackView>,
    all: Seq<TrackView>,
    is_shuffled: bool,
) -> (NextTrack, Seq<i64>) {
    let list = playlist(visible, all);
    if is_repeated && current is Some {
        (NextTrack::Play(current->0), queued)
    } else if queued.len() > 0 {
        (NextTrack::Play(queued[0]), queued.drop_first())
    } else if list.len() == 0 {
        (NextTrack::Nothing, queued)
    } else if is_shuffled {
        (NextTrack::Shuffle(list.len() as usize), queued)
    } else {
        (NextTrack::Play(spec_after(list, current)), queued)
    }
}

/// The track previewed as next (the one decoded ahead for a gapless transition) is the
/// one the next step plays.
pub proof fn lemma_peek_agrees_with_choice(
    is_repeated: bool,
    current: Option<i64>,
    queued: Seq<i64>,
    visible: Seq<TrackView>,
    all: Seq<TrackView>,
    is_shuffled: bool,
)
    ensures
        spec_peek_next(is_repeated, current, queued, visible, all, is_shuffled) matches Some(id)
            ==> spec_next_choice(is_repeated, current, queued, visible, all, is_shuffled).0 == NextTrack::Play(id),
{
}

/// Chooses the next track: the current one again on repeat, else the head of the queue
/// (which is taken off the queue), else a random pick when shuffling, else the playlist's
/// next track.
pub fn choose_next_track(
    is_repeated: bool,
    current: Option<i64>,
    queued: &mut Vec<i64>,
    visible: &Vec<LibraryTrack>,
    all: &Vec<LibraryTrack>,
    is_shuffled: bool,
) -> (r: NextTrack)
    ensures
        (r, final(queued)@) == spec_next_choice(
            is_repeated,
            current,
            old(queued)@,
            views(visible@),
            views(all@),
            is_shuffled,
        ),
{
    if is_repeated {
        if let Some(id) = current {
            return NextTrack::Play(id);
        }
    }
    if queued.len() > 0 {
        let id = queued.remove(0);
        assert(queued@ =~= old(queued)@.drop_first());
        return NextTrack::Play(id);
    }
    let list = if visible.len() > 0 {
        visible
    } else {
        all
    };
    if list.len() == 0 {
        return NextTrack::Nothing;
    }
    if is_shuffled {
        return NextTrack::Shuffle(list.len());
    }
    NextTrack::Play(after_in(list, current))
}

/// The shuffled pick for a random `seed`: the playlist track at `seed` modulo its length.
pub fn shuffle_pick(seed: usize, visible: &Vec<LibraryTrack>, all: &Vec<LibraryTrack>) -> (r: Option<i64>)
    ensures
        ({
            let list = playlist(views(visible@), views(all@));
            if list.len() == 0 {
                r is None
            } else {
                r == Some(list[(seed as int) % (list.len() as int)].id)
            }
        }),
{
    let list = if visible.len() > 0 {
        visible
    } else {
        all
    };
    if list.len() == 0 {
        return None;
    }
    let i: usize = seed % list.len();
    Some(list[i].id)
}

/// What `Previous` does.
#[derive(Debug, Clone, Copy, PartialEq, Eq, Structural)]
pub enum PreviousTrack {
    /// Seek back to the start of the current track.
    Restart,
    /// Play this track.
    Play(i64),
    /// Nothing to play.
    Nothing,
}

/// The track before the one with id `current` in `list`, wrapping to the last; the first
/// track when `current` is not in the list.
pub open spec fn spec_before(list: Seq<TrackView>, current: Option<i64>) -> i64
    recommends
        list.len() > 0,
{
    match current {
        Some(c) => match first_index(list, c) {
            Some(i) => if i == 0 {
                list[list.len() - 1].id
            } else {
                list[i - 1].id
            },
            None => list[0].id,
        },
        None => list[0].id,
    }
}

/// Chooses what `Previous` does: more than three seconds into a track it restarts it,
/// otherwise it steps back in the playlist.
pub fn choose_previous_track(
    elapsed: Duration,
    current: Option<i64>,
    visible: &Vec<LibraryTrack>,
    all: &Vec<LibraryTrack>,
) -> (r: PreviousTrack)
    ensures
        ({
            let list = playlist(views(visible@), views(all@));
            if elapsed@ > 3 * NANOS_PER_SEC {
                r == PreviousTrack::Restart
            } else if list.len() == 0 {
                r == PreviousTrack::Nothing
            } else {
                r == PreviousTrack::Play(spec_before(list, current))
            }
        }),
{
    if elapsed.as_nanos() > 3_000_000_000 {
        return PreviousTrack::Restart;
    }
    let list = if visible.len() > 0 {
        visible
    } else {
        all
    };
    if list.len() == 0 {
        return PreviousTrack::Nothing;
    }
    match current {
        Some(c) => match index_of_id(list, c) {
            Some(i) => {
                let prev: usize = if i == 0 {
                    list.len() - 1
                } else {
                    i - 1
                };
                assert(views(list@)[prev as int].id == list@[prev as int].id);
                assert(views(list@).len() == list@.len());
                PreviousTrack::Play(list[prev].id)
            },
            None => {
                assert(views(list@)[0].id == list@[0].id);
                PreviousTrack::Play(list[0].id)
            },
        },
        None => {
            assert(views(list@)[0].id == list@[0].id);
            PreviousTrack::Play(list[0].id)
        },
    }
}

/// What the play/pause button does.
#[derive(Debug, Clone, Copy, PartialEq, Eq, Structural)]
pub enum ToggleAction {
    Pause,
    Resume,
    Play(i64),
    Nothing,
}

/// Pauses while playing, resumes a chosen track, and otherwise starts the first visible
/// track (or the library's first).
pub fn toggle_playback_action(
    is_playing: bool,
    current: Option<i64>,
    visible: &Vec<LibraryTrack>,
    all: &Vec<LibraryTrack>,
) -> (r: ToggleAction)
    ensures
        ({
            let list = playlist(views(visible@), views(all@));
            if is_playing {
                r == ToggleAction::Pause
            } else if current is Some {
                r == ToggleAction::Resume
            } else if list.len() > 0 {
                r == ToggleAction::Play(list[0].id)
            } else {
                r == ToggleAction::Nothing
            }
        }),
{
    if is_playing {
        ToggleAction::Pause
    } else if current.is_some() {
        ToggleAction::Resume
    } else if visible.len() > 0 {
        ToggleAction::Play(visible[0].id)
    } else if all.len() > 0 {
        ToggleAction::Play(all[0].id)
    } else {
        ToggleAction::Nothing
    }
}

/// Whether a track of `total_frames` frames has finished: every frame was played, or the
/// output ran dry within a tenth of a second of the end.
pub open spec fn spec_track_finished(total_frames: nat, played_frames: nat, queue_empty: bool, sample_rate: nat) -> bool {
    total_frames > 0 && (played_frames >= total_frames || (queue_empty && played_frames + sample_rate
        / 10 >= total_frames))
}

pub fn track_finished(total_frames: u64, played_frames: u64, queue_empty: bool, sample_rate: u64) -> (f: bool)
    requires
        played_frames + sample_rate / 10 <= u64::MAX,
    ensures
        f == spec_track_finished(total_frames as nat, played_frames as nat, queue_empty, sample_rate as nat),
{
    total_frames > 0 && (played_frames >= total_frames || (queue_empty && played_frames + (sample_rate
        / 10) >= total_frames))
}

/// Whether a track without decoded samples has finished: its known, non-zero length has
/// elapsed.
pub fn finished_by_duration(duration: Option<Duration>, elapsed: Duration) -> (f: bool)
    ensures
        f == (duration matches Some(d) && d@ / (NANOS_PER_SEC as nat) > 0 && elapsed@ >= d@),
{
    match duration {
        Some(d) => d.as_secs() > 0 && elapsed.as_nanos() >= d.as_nanos(),
        None => false,
    }
}

/// Whether the time played so far counts as a play of the track (ten seconds or more).
pub fn counts_as_play(elapsed: Duration) -> (c: bool)
    ensures
        c == (elapsed@ >= 10 * NANOS_PER_SEC),
{
    elapsed.as_nanos() >= 10_000_000_000
}

/// The sample at which playback resumes after a seek: the requested offset, capped at the
/// end of the track and moved back to the start of its frame.
pub fn aligned_sample_offset(raw_offset: usize, total_samples: usize, channels: usize) -> (o: usize)
    requires
        channels > 0,
    ensures
        o == (if raw_offset < total_samples {
            raw_offset
        } else {
            total_samples
        }) / channels * channels,
        o % channels == 0,
        o <= total_samples,
{
    let capped: usize = if raw_offset < total_samples {
        raw_offset
    } else {
        total_samples
    };
    let frames: usize = capped / channels;
    assert(frames * channels <= capped) by (nonlinear_arith)
        requires
            frames == capped / channels,
            channels > 0,
    ;
    assert((frames * channels) % (channels as int) == 0) by (nonlinear_arith)
        requires
            channels > 0,
    {
        vstd::arithmetic::div_mod::lemma_mod_multiples_basic(frames as int, channels as int);
    }
    frames * channels
}

/// The track to decode ahead for a gapless transition: the known next track, when gapless
/// playback is on, nothing is preloaded yet, the next track is not the current one again
/// (unless repeating), and it is in the library.
pub fn preload_target(
    gapless_enabled: bool,
    has_preloaded: bool,
    is_repeated: bool,
    current: Option<i64>,
    queued: &Vec<i64>,
    visible: &Vec<LibraryTrack>,
    all: &Vec<LibraryTrack>,
    is_shuffled: bool,
) -> (r: Option<usize>)
    ensures
        ({
            let next = spec_peek_next(is_repeated, current, queued@, views(visible@), views(all@), is_shuffled);
            if !gapless_enabled || has_preloaded || next is None || (current is Some && next
                == current && !is_repeated) {
                r is None
            } else {
                &&& (r matches Some(i) ==> first_index(views(all@), next->0) == Some(i as int) && i < all.len())
                &&& (r is None ==> first_index(views(all@), next->0) is None)
            }
        }),
{
    if !gapless_enabled || has_preloaded {
        return None;
    }
    let next = match peek_next_track_id(is_repeated, current, queued, visible, all, is_shuffled) {
        Some(id) => id,
        None => return None,
    };
    if let Some(c) = current {
        if next == c && !is_repeated {
            return None;
        }
    }
    index_of_id(all, next)
}

/// The now-playing metadata of a library track.
pub fn metadata_of(t: &LibraryTrack) -> (m: TrackMetadata)
    ensures
        m.title@ == t.title@,
        m.artist@ == t.artist@,
        m.album@ == t.album@,
        m.duration == t.duration,
{
    TrackMetadata {
        title: t.title.clone(),
        artist: t.artist.clone(),
        album: t.album.clone(),
        duration: t.duration,
    }
}

/// Index of the first track in `tracks` with id `id`.
pub fn find_track(tracks: &Vec<LibraryTrack>, id: i64) -> (r: Option<usize>)
    ensures
        r matches Some(i) ==> first_index(views(tracks@), id) == Some(i as int),
        r is None ==> first_index(views(tracks@), id) is None,
        r matches Some(i) ==> i < tracks.len() && tracks@[i as int].id == id,
{
    index_of_id(tracks, id)
}

/// The track loudness analysis runs on: the one asked for, else the selected one, else
/// the playing one.
pub fn analysis_target(requested: Option<i64>, selected: Option<i64>, current: Option<i64>) -> (r: Option<i64>)
    ensures
        r == (if requested is Some {
            requested
        } else if selected is Some {
            selected
        } else {
            current
        }),
{
    match requested {
        Some(id) => Some(id),
        None => match selected {
            Some(id) => Some(id),
            None => current,
        },
    }
}


/// `s` without any occurrence of `id`.
pub open spec fn without_id(s: Seq<i64>, id: i64) -> Seq<i64>
    decreases s.len(),
{
    if s.len() == 0 {
        s
    } else {
        let r = without_id(s.drop_last(), id);
        if s.last() == id {
            r
        } else {
            r.push(s.last())
        }
    }
}

proof fn lemma_without_id_contains(s: Seq<i64>, id: i64, x: i64)
    ensures
        without_id(s, id).contains(x) <==> (s.contains(x) && x != id),
    decreases s.len(),
{
    if s.len() > 0 {
        lemma_without_id_contains(s.drop_last(), id, x);
        let r = without_id(s.drop_last(), id);
        assert(s =~= s.drop_last().push(s.last()));
        seq_push_contains(s.drop_last(), s.last(), x);
        seq_push_contains(r, s.last(), x);
    }
}

proof fn lemma_without_id_no_dups(s: Seq<i64>, id: i64)
    requires
        s.no_duplicates(),
    ensures
        without_id(s, id).no_duplicates(),
    decreases s.len(),
{
    if s.len() > 0 {
        lemma_without_id_no_dups(s.drop_last(), id);
        lemma_without_id_contains(s.drop_last(), id, s.last());
        if s.drop_last().contains(s.last()) {
            let k = choose|k: int| 0 <= k < s.drop_last().len() && s.drop_last()[k] == s.last();
            assert(s[k] == s[s.len() - 1]);
        }
    }
}

/// `s` without any occurrence of `id`.
pub fn remove_id(s: &Vec<i64>, id: i64) -> (r: Vec<i64>)
    ensures
        r@ == without_id(s@, id),
{
    let mut r: Vec<i64> = Vec::new();
    let mut i: usize = 0;
    while i < s.len()
        invariant
            i <= s@.len(),
            r@ == without_id(s@.take(i as int), id),
        decreases s@.len() - i,
    {
        assert(s@.take(i as int + 1).drop_last() =~= s@.take(i as int));
        if s[i] != id {
            r.push(s[i]);
        }
        i = i + 1;
    }
    assert(s@.take(s@.len() as int) =~= s@);
    r
}

/// `s` with `x` removed when present and added when absent.
pub open spec fn toggled<A>(s: Set<A>, x: A) -> Set<A> {
    if s.contains(x) {
        s.remove(x)
    } else {
        s.insert(x)
    }
}

/// Toggling the same entry twice gives back the set it started from.
pub proof fn lemma_toggle_twice<A>(s: Set<A>, x: A)
    ensures
        toggled(toggled(s, x), x) == s,
{
    assert(toggled(toggled(s, x), x) =~= s);
}

/// Adds `id` to the selection when absent and removes it when present.
pub fn toggle_id(selection: &mut Vec<i64>, id: i64)
    ensures
        old(selection)@.no_duplicates() ==> final(selection)@.no_duplicates(),
        final(selection)@.to_set() == toggled(old(selection)@.to_set(), id),
        forall|x: i64|
            final(selection)@.contains(x) <==> (if old(selection)@.contains(id) {
                old(selection)@.contains(x) && x != id
            } else {
                old(selection)@.contains(x) || x == id
            }),
{
    if contains_id(selection, id) {
        let r = remove_id(selection, id);
        proof {
            if old(selection)@.no_duplicates() {
                lemma_without_id_no_dups(old(selection)@, id);
            }
            assert forall|x: i64| r@.contains(x) <==> (old(selection)@.contains(x) && x != id) by {
                lemma_without_id_contains(old(selection)@, id, x);
            }
        }
        *selection = r;
    } else {
        selection.push(id);
        proof {
            assert forall|x: i64| selection@.contains(x) <==> (old(selection)@.contains(x) || x == id) by {
                if selection@.contains(x) && x != id {
                    let k = choose|k: int| 0 <= k < selection@.len() && selection@[k] == x;
                    assert(old(selection)@[k] == x);
                }
                if old(selection)@.contains(x) {
                    let k = choose|k: int| 0 <= k < old(selection)@.len() && old(selection)@[k] == x;
                    assert(selection@[k] == x);
                }
                if x == id {
                    assert(selection@[selection@.len() - 1] == x);
                }
            }
        }
    }
}

/// Selects every visible track, or, when all of them are already selected, deselects
/// them all.
pub fn select_all_visible(selection: &mut Vec<i64>, visible: &Vec<LibraryTrack>)
    ensures
        old(selection)@.no_duplicates() ==> final(selection)@.no_duplicates(),
        ({
            let vis = ids_of(views(visible@));
            let all_selected = vis.len() > 0 && forall|i: int| 0 <= i < vis.len() ==> old(
                selection,
            )@.contains(#[trigger] vis[i]);
            forall|x: i64|
                final(selection)@.contains(x) <==> (if all_selected {
                    old(selection)@.contains(x) && !vis.contains(x)
                } else {
                    old(selection)@.contains(x) || vis.contains(x)
                })
        }),
{
    let ghost vis = ids_of(views(visible@));
    let mut all_selected = visible.len() > 0;
    let mut i: usize = 0;
    while i < visible.len()
        invariant
            i <= visible@.len(),
            vis == ids_of(views(visible@)),
            all_selected == (visible@.len() > 0 && forall|j: int| 0 <= j < i ==> selection@.contains(
                #[trigger] vis[j],
            )),
        decreases visible@.len() - i,
    {
        assert(vis[i as int] == visible@[i as int].id);
        if !contains_id(selection, visible[i].id) {
            all_selected = false;
        }
        i = i + 1;
    }
    let mut j: usize = 0;
    if all_selected {
        while j < visible.len()
            invariant
                j <= visible@.len(),
                vis == ids_of(views(visible@)),
                old(selection)@.no_duplicates() ==> selection@.no_duplicates(),
                forall|x: i64|
                    selection@.contains(x) <==> (old(selection)@.contains(x) && !vis.take(
                        j as int,
                    ).contains(x)),
            decreases visible@.len() - j,
        {
            let id = visible[j].id;
            assert(vis[j as int] == id);
            let r = remove_id(selection, id);
            proof {
                if selection@.no_duplicates() {
                    lemma_without_id_no_dups(selection@, id);
                }
                assert forall|x: i64| r@.contains(x) <==> (old(selection)@.contains(x) && !vis.take(
                    j as int + 1,
                ).contains(x)) by {
                    lemma_without_id_contains(selection@, id, x);
                    lemma_take_push_contains(vis, j as int, x);
                }
            }
            *selection = r;
            j = j + 1;
        }
        assert(vis.take(visible@.len() as int) =~= vis);
    } else {
        while j < visible.len()
            invariant
                j <= visible@.len(),
                vis == ids_of(views(visible@)),
                old(selection)@.no_duplicates() ==> selection@.no_duplicates(),
                forall|x: i64|
                    selection@.contains(x) <==> (old(selection)@.contains(x) || vis.take(
                        j as int,
                    ).contains(x)),
            decreases visible@.len() - j,
        {
            let id = visible[j].id;
            assert(vis[j as int] == id);
            let ghost before = selection@;
            if !contains_id(selection, id) {
                selection.push(id);
                proof {
                    assert forall|x: i64| selection@.contains(x) <==> (before.contains(x) || x == id) by {
                        if selection@.contains(x) && x != id {
                            let k = choose|k: int| 0 <= k < selection@.len() && selection@[k] == x;
                            assert(before[k] == x);
                        }
                        if before.contains(x) {
                            let k = choose|k: int| 0 <= k < before.len() && before[k] == x;
                            assert(selection@[k] == x);
                        }
                        if x == id {
                            assert(selection@[selection@.len() - 1] == x);
                        }
                    }
                }
            }
            proof {
                assert forall|x: i64| selection@.contains(x) <==> (old(selection)@.contains(x) || vis.take(
                    j as int + 1,
                ).contains(x)) by {
                    lemma_take_push_contains(vis, j as int, x);
                }
            }
            j = j + 1;
        }
        assert(vis.take(visible@.len() as int) =~= vis);
    }
}

proof fn lemma_take_push_contains(s: Seq<i64>, j: int, x: i64)
    requires
        0 <= j < s.len(),
    ensures
        s.take(j + 1).contains(x) <==> (s.take(j).contains(x) || s[j] == x),
{
    assert(s.take(j + 1) =~= s.take(j).push(s[j]));
    seq_push_contains(s.take(j), s[j], x);
}

/// Ids of the visible tracks that are selected, in view order.
pub fn selected_visible_ids(visible: &Vec<LibraryTrack>, selection: &Vec<i64>) -> (r: Vec<i64>)
    ensures
        r@ == ids_of(with_ids(views(visible@), selection@)),
{
    let mut r: Vec<i64> = Vec::new();
    let mut i: usize = 0;
    while i < visible.len()
        invariant
            i <= visible@.len(),
            r@ == ids_of(with_ids(views(visible@).take(i as int), selection@)),
        decreases visible@.len() - i,
    {
        assert(views(visible@).take(i as int + 1).drop_last() =~= views(visible@).take(i as int));
        let ghost before = with_ids(views(visible@).take(i as int), selection@);
        if contains_id(selection, visible[i].id) {
            r.push(visible[i].id);
            assert(ids_of(before.push(visible@[i as int]@)) =~= ids_of(before).push(visible@[i as int].id));
        }
        i = i + 1;
    }
    assert(views(visible@).take(visible@.len() as int) =~= views(visible@));
    r
}

/// The tracks of `s` inside the folder `folder` (whole path components).
pub open spec fn under_folder(s: Seq<TrackView>, folder: Seq<char>) -> Seq<TrackView>
    decreases s.len(),
{
    if s.len() == 0 {
        s
    } else {
        let r = under_folder(s.drop_last(), folder);
        if spec_path_starts_with(s.last().path, folder) {
            r.push(s.last())
        } else {
            r
        }
    }
}

/// Ids of the library tracks inside `folder`, in library order.
pub fn folder_track_ids(all: &Vec<LibraryTrack>, folder: &str) -> (r: Vec<i64>)
    ensures
        r@ == ids_of(under_folder(views(all@), folder@)),
{
    let mut r: Vec<i64> = Vec::new();
    let mut i: usize = 0;
    while i < all.len()
        invariant
            i <= all@.len(),
            r@ == ids_of(under_folder(views(all@).take(i as int), folder@)),
        decreases all@.len() - i,
    {
        assert(views(all@).take(i as int + 1).drop_last() =~= views(all@).take(i as int));
        let ghost before = under_folder(views(all@).take(i as int), folder@);
        if path_starts_with(all[i].path.as_str(), folder) {
            r.push(all[i].id);
            assert(ids_of(before.push(all@[i as int]@)) =~= ids_of(before).push(all@[i as int].id));
        }
        i = i + 1;
    }
    assert(views(all@).take(all@.len() as int) =~= views(all@));
    r
}

/// Removes the queue entry at `index`; an index past the end changes nothing.
pub fn remove_from_queue(queue: &mut Vec<i64>, index: usize)
    ensures
        final(queue)@ == (if index < old(queue)@.len() {
            old(queue)@.remove(index as int)
        } else {
            old(queue)@
        }),
{
    if index < queue.len() {
        queue.remove(index);
    }
}

/// The texts of `s`.
pub open spec fn text_views(s: Seq<String>) -> Seq<Seq<char>> {
    s.map_values(|t: String| t@)
}

/// Expands a collapsed folder and collapses an expanded one.
pub fn toggle_folder(expanded: &mut Vec<String>, folder: String)
    ensures
        text_views(final(expanded)@).to_set() == toggled(text_views(old(expanded)@).to_set(), folder@),
        forall|f: Seq<char>|
            text_views(final(expanded)@).contains(f) <==> (if text_views(old(expanded)@).contains(folder@) {
                text_views(old(expanded)@).contains(f) && f != folder@
            } else {
                text_views(old(expanded)@).contains(f) || f == folder@
            }),
{
    let fv = chars_of(folder.as_str());
    let ghost old_views = text_views(expanded@);
    let mut kept: Vec<String> = Vec::new();
    let mut found = false;
    let mut i: usize = 0;
    while i < expanded.len()
        invariant
            i <= expanded@.len(),
            old_views == text_views(expanded@),
            fv@ == folder@,
            found == old_views.take(i as int).contains(folder@),
            forall|f: Seq<char>| text_views(kept@).contains(f) <==> (old_views.take(i as int).contains(f)
                && f != folder@),
        decreases expanded@.len() - i,
    {
        let ev = chars_of(expanded[i].as_str());
        let same = crate::text::chars_equal(ev.as_slice(), fv.as_slice());
        let ghost before = text_views(kept@);
        proof {
            assert(old_views[i as int] == expanded@[i as int]@);
            assert(old_views.take(i as int + 1) =~= old_views.take(i as int).push(old_views[i as int]));
        }
        if same {
            found = true;
        } else {
            let e = expanded[i].clone();
            kept.push(e);
            assert(text_views(kept@) =~= before.push(expanded@[i as int]@));
        }
        proof {
            assert forall|f: Seq<char>| text_views(kept@).contains(f) <==> (old_views.take(
                i as int + 1,
            ).contains(f) && f != folder@) by {
                seq_push_contains(old_views.take(i as int), old_views[i as int], f);
                if !same {
                    seq_push_contains(before, expanded@[i as int]@, f);
                }
            }
            seq_push_contains(old_views.take(i as int), old_views[i as int], folder@);
        }
        i = i + 1;
    }
    proof {
        assert(old_views.take(old_views.len() as int) =~= old_views);
    }
    if found {
        *expanded = kept;
    } else {
        let ghost before = text_views(expanded@);
        expanded.push(folder);
        proof {
            assert(text_views(expanded@) =~= before.push(folder@));
            assert forall|f: Seq<char>| text_views(expanded@).contains(f) <==> (old_views.contains(f)
                || f == folder@) by {
                seq_push_contains(before, folder@, f);
            }
        }
    }
}

/// Membership in `s.push(a)`.
pub(crate) proof fn seq_push_contains<A>(s: Seq<A>, a: A, x: A)
    ensures
        s.push(a).contains(x) <==> (s.contains(x) || x == a),
{
    if s.push(a).contains(x) && x != a {
        let k = choose|k: int| 0 <= k < s.push(a).len() && s.push(a)[k] == x;
        assert(s[k] == x);
    }
    if s.contains(x) {
        let k = choose|k: int| 0 <= k < s.len() && s[k] == x;
        assert(s.push(a)[k] == x);
    }
    if x == a {
        assert(s.push(a)[s.len() as int] == x);
    }
}

/// The first track in `tracks` with id `id` takes `duration`; other tracks are unchanged.
pub fn set_track_duration(tracks: &mut Vec<LibraryTrack>, id: i64, duration: Duration)
    ensures
        match first_index(views(old(tracks)@), id) {
            Some(i) => views(final(tracks)@) == views(old(tracks)@).update(
                i,
                TrackView { duration: Some(duration), ..views(old(tracks)@)[i] },
            ),
            None => views(final(tracks)@) == views(old(tracks)@),
        },
{
    if let Some(i) = index_of_id(tracks, id) {
        let mut t = tracks[i].clone();
        t.duration = Some(duration);
        tracks.set(i, t);
        assert(views(tracks@) =~= views(old(tracks)@).update(
            i as int,
            TrackView { duration: Some(duration), ..views(old(tracks)@)[i as int] },
        ));
    }
}

/// The first track in `tracks` with id `id` takes the play count `count`.
pub fn set_track_play_count(tracks: &mut Vec<LibraryTrack>, id: i64, count: u32)
    ensures
        match first_index(views(old(tracks)@), id) {
            Some(i) => views(final(tracks)@) == views(old(tracks)@).update(
                i,
                TrackView { play_count: count, ..views(old(tracks)@)[i] },
            ),
            None => views(final(tracks)@) == views(old(tracks)@),
        },
{
    if let Some(i) = index_of_id(tracks, id) {
        let mut t = tracks[i].clone();
        t.play_count = count;
        tracks.set(i, t);
        assert(views(tracks@) =~= views(old(tracks)@).update(
            i as int,
            TrackView { play_count: count, ..views(old(tracks)@)[i as int] },
        ));
    }
}


/// Lexicographic order of texts by character code (the order of `String`'s `Ord`).
pub open spec fn text_less(a: Seq<char>, b: Seq<char>) -> bool
    decreases a.len(),
{
    if a.len() == 0 {
        b.len() > 0
    } else if b.len() == 0 {
        false
    } else if a[0] != b[0] {
        (a[0] as u32) < (b[0] as u32)
    } else {
        text_less(a.drop_first(), b.drop_first())
    }
}

fn text_less_from(a: &[char], b: &[char], i: usize) -> (r: bool)
    requires
        i <= a@.len(),
        i <= b@.len(),
    ensures
        r == text_less(a@.skip(i as int), b@.skip(i as int)),
    decreases a@.len() - i,
{
    if i == a.len() {
        return i < b.len();
    }
    if i == b.len() {
        return false;
    }
    assert(a@.skip(i as int)[0] == a@[i as int]);
    assert(b@.skip(i as int)[0] == b@[i as int]);
    if a[i] != b[i] {
        return (a[i] as u32) < (b[i] as u32);
    }
    assert(a@.skip(i as int).drop_first() =~= a@.skip(i as int + 1));
    assert(b@.skip(i as int).drop_first() =~= b@.skip(i as int + 1));
    text_less_from(a, b, i + 1)
}

/// `text_less(a@, b@)`, computed.
pub fn text_less_exec(a: &[char], b: &[char]) -> (r: bool)
    ensures
        r == text_less(a@, b@),
{
    let r = text_less_from(a, b, 0);
    assert(a@.skip(0) =~= a@);
    assert(b@.skip(0) =~= b@);
    r
}

/// Whether `a` comes strictly before `b` in the most-played order: more plays first and,
/// when `by_title`, equal counts by title.
pub open spec fn ranks_before(a: TrackView, b: TrackView, by_title: bool) -> bool {
    a.play_count > b.play_count || (by_title && a.play_count == b.play_count && text_less(
        a.title,
        b.title,
    ))
}

/// Where a stable insertion puts `x` into `r`: before the first entry it ranks before.
pub open spec fn insert_position(r: Seq<TrackView>, x: TrackView, by_title: bool) -> int
    decreases r.len(),
{
    if r.len() == 0 {
        0
    } else if ranks_before(x, r[0], by_title) {
        0
    } else {
        1 + insert_position(r.drop_first(), x, by_title)
    }
}

/// `s` stably sorted into the most-played order.
pub open spec fn by_plays(s: Seq<TrackView>, by_title: bool) -> Seq<TrackView>
    decreases s.len(),
{
    if s.len() == 0 {
        s
    } else {
        let r = by_plays(s.drop_last(), by_title);
        r.insert(insert_position(r, s.last(), by_title), s.last())
    }
}

proof fn lemma_insert_position(r: Seq<TrackView>, x: TrackView, by_title: bool, k: int)
    requires
        0 <= k <= r.len(),
        forall|j: int| 0 <= j < k ==> !ranks_before(x, #[trigger] r[j], by_title),
        k == r.len() || ranks_before(x, r[k], by_title),
    ensures
        insert_position(r, x, by_title) == k,
    decreases k,
{
    if k > 0 {
        assert forall|j: int| 0 <= j < k - 1 implies !ranks_before(x, #[trigger] r.drop_first()[j], by_title) by {
            assert(r.drop_first()[j] == r[j + 1]);
        }
        if k < r.len() {
            assert(r.drop_first()[k - 1] == r[k]);
        }
        lemma_insert_position(r.drop_first(), x, by_title, k - 1);
    }
}

/// A library track with the keys of the most-played order.
struct RankKey {
    plays: u32,
    title: Vec<char>,
}

fn key_ranks_before(a: &RankKey, b: &RankKey, by_title: bool) -> (r: bool)
    ensures
        r == (a.plays > b.plays || (by_title && a.plays == b.plays && text_less(a.title@, b.title@))),
{
    if a.plays > b.plays {
        return true;
    }
    if by_title && a.plays == b.plays {
        let l = text_less_from(a.title.as_slice(), b.title.as_slice(), 0);
        assert(a.title@.skip(0) =~= a.title@);
        assert(b.title@.skip(0) =~= b.title@);
        return l;
    }
    false
}

/// `tracks` stably sorted into the most-played order (`sort_by` on play count, descending,
/// then, when `by_title`, on title).
pub fn sort_by_plays(tracks: &Vec<LibraryTrack>, by_title: bool) -> (r: Vec<LibraryTrack>)
    ensures
        views(r@) == by_plays(views(tracks@), by_title),
        views(r@).to_multiset() == views(tracks@).to_multiset(),
        ranked(views(r@), by_title),
        forall|v: TrackView|
            #[trigger] rank_mates(views(r@), v, by_title) == rank_mates(views(tracks@), v, by_title),
{
    let mut out: Vec<LibraryTrack> = Vec::new();
    let mut keys: Vec<RankKey> = Vec::new();
    let mut i: usize = 0;
    while i < tracks.len()
        invariant
            i <= tracks@.len(),
            views(out@) == by_plays(views(tracks@).take(i as int), by_title),
            keys@.len() == out@.len(),
            forall|j: int| 0 <= j < keys@.len() ==> (#[trigger] keys@[j]).plays == out@[j].play_count
                && keys@[j].title@ == out@[j].title@,
        decreases tracks@.len() - i,
    {
        let x = tracks[i].clone();
        let xk = RankKey { plays: x.play_count, title: chars_of(x.title.as_str()) };
        let mut p: usize = 0;
        while p < keys.len() && !key_ranks_before(&xk, &keys[p], by_title)
            invariant
                p <= keys@.len(),
                keys@.len() == out@.len(),
                forall|j: int| 0 <= j < keys@.len() ==> (#[trigger] keys@[j]).plays == out@[j].play_count
                    && keys@[j].title@ == out@[j].title@,
                forall|j: int| 0 <= j < p ==> !ranks_before(x@, #[trigger] views(out@)[j], by_title),
                xk.plays == x.play_count,
                xk.title@ == x.title@,
            decreases keys@.len() - p,
        {
            assert(views(out@)[p as int] == out@[p as int]@);
            p = p + 1;
        }
        proof {
            if p < keys@.len() {
                assert(views(out@)[p as int] == out@[p as int]@);
            }
            lemma_insert_position(views(out@), x@, by_title, p as int);
            assert(views(tracks@).take(i as int + 1).drop_last() =~= views(tracks@).take(i as int));
            assert(views(tracks@).take(i as int + 1).last() == tracks@[i as int]@);
        }
        let ghost before = out@;
        let ghost keys_before = keys@;
        out.insert(p, x);
        keys.insert(p, xk);
        proof {
            assert(views(out@) =~= views(before).insert(p as int, tracks@[i as int]@));
            assert forall|j: int| 0 <= j < keys@.len() implies (#[trigger] keys@[j]).plays == out@[j].play_count
                && keys@[j].title@ == out@[j].title@ by {
                if j < p {
                    assert(keys@[j] == keys_before[j] && out@[j] == before[j]);
                } else if j > p {
                    assert(keys@[j] == keys_before[j - 1] && out@[j] == before[j - 1]);
                }
            }
        }
        i = i + 1;
    }
    assert(views(tracks@).take(tracks@.len() as int) =~= views(tracks@));
    proof {
        lemma_by_plays_permutes(views(tracks@), by_title);
        lemma_by_plays_ranked(views(tracks@), by_title);
        assert forall|v: TrackView|
            #[trigger] rank_mates(views(out@), v, by_title) == rank_mates(views(tracks@), v, by_title) by {
            lemma_by_plays_stable(views(tracks@), by_title, v);
        }
    }
    out
}


/// Ids of the library in most-played order (more plays first; equal counts keep library
/// order).
pub fn most_played_ids(all: &Vec<LibraryTrack>) -> (r: Vec<i64>)
    ensures
        r@ == ids_of(by_plays(views(all@), false)),
{
    let sorted = sort_by_plays(all, false);
    let mut r: Vec<i64> = Vec::new();
    let mut i: usize = 0;
    while i < sorted.len()
        invariant
            i <= sorted@.len(),
            r@ == ids_of(views(sorted@)).take(i as int),
        decreases sorted@.len() - i,
    {
        assert(ids_of(views(sorted@)).take(i as int + 1) =~= ids_of(views(sorted@)).take(i as int).push(
            sorted@[i as int].id,
        ));
        r.push(sorted[i].id);
        i = i + 1;
    }
    assert(ids_of(views(sorted@)).take(sorted@.len() as int) =~= ids_of(views(sorted@)));
    r
}

/// Whether a track passes the view's folder, field filters and search text (already
/// trimmed and lowered). Artist, album and genre compare ignoring ASCII case; the search
/// looks for the text in the lowered title, artist, album, genre and path.
pub open spec fn passes(t: TrackView, folder: Option<Seq<char>>, f: FilterState, search: Seq<char>) -> bool {
    &&& (folder matches Some(p) ==> spec_path_starts_with(t.path, p))
    &&& (f.artist matches Some(a) ==> spec_eq_ignore_ascii_case(t.artist, a@))
    &&& (f.album matches Some(a) ==> spec_eq_ignore_ascii_case(t.album, a@))
    &&& (f.genre matches Some(g) ==> spec_eq_ignore_ascii_case(t.genre, g@))
    &&& (f.year matches Some(y) ==> t.year == Some(y))
    &&& (f.duration matches Some(d) ==> d.spec_matches(t.duration))
    &&& (f.bpm matches Some(b) ==> b.spec_matches(t.bpm))
    &&& (search.len() > 0 ==> (spec_contains(spec_ascii_lowercase(t.title), search) || spec_contains(
        spec_ascii_lowercase(t.artist),
        search,
    ) || spec_contains(spec_ascii_lowercase(t.album), search) || spec_contains(
        spec_ascii_lowercase(t.genre),
        search,
    ) || spec_contains(spec_ascii_lowercase(t.path), search)))
}

/// The tracks of `s` that pass, in order.
pub open spec fn passing(s: Seq<TrackView>, folder: Option<Seq<char>>, f: FilterState, search: Seq<char>) -> Seq<TrackView>
    decreases s.len(),
{
    if s.len() == 0 {
        s
    } else {
        let r = passing(s.drop_last(), folder, f, search);
        if passes(s.last(), folder, f, search) {
            r.push(s.last())
        } else {
            r
        }
    }
}

/// The tracks the library view shows: the library (in most-played order, ties by title, on
/// the most-played tab) narrowed by the selected folder, the filters and the search text.
pub open spec fn spec_visible(
    all: Seq<TrackView>,
    tab: NavTab,
    folder: Option<Seq<char>>,
    f: FilterState,
    search: Seq<char>,
) -> Seq<TrackView> {
    let base = if tab == NavTab::MostPlayed {
        by_plays(all, true)
    } else {
        all
    };
    passing(base, folder, f, spec_ascii_lowercase(spec_trim(search)))
}

fn text_matches(field: &String, search: &[char]) -> (m: bool)
    ensures
        m == spec_contains(spec_ascii_lowercase(field@), search@),
{
    let v = chars_of(field.as_str());
    let l = lowercase_chars(v.as_slice());
    contains_chars(l.as_slice(), search)
}

fn opt_text_eq(value: &String, filter: &Option<String>) -> (m: bool)
    ensures
        m == (filter matches Some(a) ==> spec_eq_ignore_ascii_case(value@, a@)),
{
    match filter {
        Some(a) => eq_ignore_ascii_case(value.as_str(), a.as_str()),
        None => true,
    }
}

fn track_passes(t: &LibraryTrack, folder: &Option<String>, f: &FilterState, search: &[char]) -> (p: bool)
    ensures
        p == passes(t@, match folder {
            Some(x) => Some(x@),
            None => None,
        }, *f, search@),
{
    let in_folder = match folder {
        Some(x) => path_starts_with(t.path.as_str(), x.as_str()),
        None => true,
    };
    if !in_folder || !opt_text_eq(&t.artist, &f.artist) || !opt_text_eq(&t.album, &f.album) || !opt_text_eq(
        &t.genre,
        &f.genre,
    ) {
        return false;
    }
    if let Some(y) = f.year {
        if t.year != Some(y) {
            return false;
        }
    }
    if let Some(d) = f.duration {
        if !d.matches(t.duration) {
            return false;
        }
    }
    if let Some(b) = f.bpm {
        if !b.matches(t.bpm) {
            return false;
        }
    }
    if search.len() == 0 {
        return true;
    }
    text_matches(&t.title, search) || text_matches(&t.artist, search) || text_matches(&t.album, search)
        || text_matches(&t.genre, search) || text_matches(&t.path, search)
}

/// The tracks the library view shows for the current tab, folder, filters and search.
pub fn refresh_visible(
    all: &Vec<LibraryTrack>,
    tab: NavTab,
    folder: &Option<String>,
    f: &FilterState,
    search: &String,
) -> (r: Vec<LibraryTrack>)
    ensures
        views(r@) == spec_visible(views(all@), tab, match folder {
            Some(x) => Some(x@),
            None => None,
        }, *f, search@),
{
    let sv = chars_of(search.as_str());
    let st = trim_chars(sv.as_slice());
    let needle = lowercase_chars(st.as_slice());
    let sorted;
    let base: &Vec<LibraryTrack> = if tab == NavTab::MostPlayed {
        sorted = sort_by_plays(all, true);
        &sorted
    } else {
        all
    };
    let ghost fv = match folder {
        Some(x) => Some(x@),
        None => None,
    };
    let mut r: Vec<LibraryTrack> = Vec::new();
    let mut i: usize = 0;
    while i < base.len()
        invariant
            i <= base@.len(),
            needle@ == spec_ascii_lowercase(spec_trim(search@)),
            fv == (match folder {
                Some(x) => Some(x@),
                None => None,
            }),
            views(r@) == passing(views(base@).take(i as int), fv, *f, needle@),
        decreases base@.len() - i,
    {
        assert(views(base@).take(i as int + 1).drop_last() =~= views(base@).take(i as int));
        assert(views(base@).take(i as int + 1).last() == base@[i as int]@);
        if track_passes(&base[i], folder, f, needle.as_slice()) {
            let ghost before = r@;
            let t = base[i].clone();
            r.push(t);
            assert(views(r@) =~= views(before).push(base@[i as int]@));
        }
        i = i + 1;
    }
    assert(views(base@).take(base@.len() as int) =~= views(base@));
    r
}

/// The window title: the player's name, then `artist - title` of the current track or
/// `Ready` when no title is known.
pub fn window_title(meta: &TrackMetadata) -> (t: String)
    ensures
        t@ == "Kanono Media Player - "@ + (if meta.title@.len() == 0 {
            "Ready"@
        } else {
            meta.artist@ + " - "@ + meta.title@
        }),
{
    let mut t = String::from_str("Kanono Media Player - ");
    let tv = chars_of(meta.title.as_str());
    if tv.len() == 0 {
        t.append("Ready");
    } else {
        t.append(meta.artist.as_str());
        t.append(" - ");
        t.append(meta.title.as_str());
    }
    t
}

/// The name a folder is shown by: its last component, or `Folder`.
pub fn folder_display_name(folder: &str) -> (n: String)
    ensures
        n@ == (match crate::paths::spec_path_file_name(folder@) {
            Some(name) => name,
            None => "Folder"@,
        }),
{
    match crate::paths::path_file_name(folder) {
        Some(name) => name,
        None => String::from_str("Folder"),
    }
}

/// `prefix`, the decimal `count`, then `suffix`.
pub fn count_message(prefix: &str, count: usize, suffix: &str) -> (m: String)
    ensures
        m@ == prefix@ + crate::text::decimal(count as nat) + suffix@,
{
    let mut m = String::from_str(prefix);
    let digits = crate::text::u64_to_string(count as u64);
    m.append(digits.as_str());
    m.append(suffix);
    m
}


/// The text order is transitive.
pub proof fn lemma_text_less_transitive(a: Seq<char>, b: Seq<char>, c: Seq<char>)
    requires
        text_less(a, b),
        text_less(b, c),
    ensures
        text_less(a, c),
    decreases a.len(),
{
    if a.len() > 0 && b.len() > 0 && c.len() > 0 && a[0] == b[0] && b[0] == c[0] {
        lemma_text_less_transitive(a.drop_first(), b.drop_first(), c.drop_first());
    }
}

/// No text sorts before itself.
pub proof fn lemma_text_less_irreflexive(a: Seq<char>)
    ensures
        !text_less(a, a),
    decreases a.len(),
{
    if a.len() > 0 {
        lemma_text_less_irreflexive(a.drop_first());
    }
}

proof fn lemma_ranks_before_transitive(a: TrackView, b: TrackView, c: TrackView, by_title: bool)
    requires
        ranks_before(a, b, by_title),
        ranks_before(b, c, by_title),
    ensures
        ranks_before(a, c, by_title),
{
    if by_title && a.play_count == b.play_count && b.play_count == c.play_count {
        lemma_text_less_transitive(a.title, b.title, c.title);
    }
}

/// No track ranks before itself.
proof fn lemma_ranks_before_irreflexive(a: TrackView, by_title: bool)
    ensures
        !ranks_before(a, a, by_title),
{
    lemma_text_less_irreflexive(a.title);
}

proof fn lemma_insert_position_bound(r: Seq<TrackView>, x: TrackView, by_title: bool)
    ensures
        0 <= insert_position(r, x, by_title) <= r.len(),
        forall|j: int| 0 <= j < insert_position(r, x, by_title) ==> !ranks_before(x, #[trigger] r[j], by_title),
        insert_position(r, x, by_title) < r.len() ==> ranks_before(x, r[insert_position(r, x, by_title)], by_title),
    decreases r.len(),
{
    if r.len() > 0 && !ranks_before(x, r[0], by_title) {
        lemma_insert_position_bound(r.drop_first(), x, by_title);
        assert forall|j: int| 0 <= j < insert_position(r, x, by_title) implies !ranks_before(x, #[trigger] r[j], by_title) by {
            if j > 0 {
                assert(r[j] == r.drop_first()[j - 1]);
            }
        }
    }
}

/// Whether no track of `s` ranks before an earlier one.
pub open spec fn ranked(s: Seq<TrackView>, by_title: bool) -> bool {
    forall|i: int, j: int| 0 <= i < j < s.len() ==> !ranks_before(#[trigger] s[j], #[trigger] s[i], by_title)
}

/// The most-played order is a reordering of the library: it holds the same tracks, each
/// as often.
pub proof fn lemma_by_plays_permutes(s: Seq<TrackView>, by_title: bool)
    ensures
        by_plays(s, by_title).to_multiset() == s.to_multiset(),
    decreases s.len(),
{
    broadcast use vstd::seq_lib::group_to_multiset_ensures;
    if s.len() > 0 {
        let r = by_plays(s.drop_last(), by_title);
        lemma_by_plays_permutes(s.drop_last(), by_title);
        lemma_insert_position_bound(r, s.last(), by_title);
        let p = insert_position(r, s.last(), by_title);
        assert(r.insert(p, s.last()) =~= r.take(p).push(s.last()) + r.skip(p));
        assert(r =~= r.take(p) + r.skip(p));
        vstd::seq_lib::lemma_multiset_commutative(r.take(p).push(s.last()), r.skip(p));
        vstd::seq_lib::lemma_multiset_commutative(r.take(p), r.skip(p));
        assert(s =~= s.drop_last().push(s.last()));
    }
}

/// The most-played order is sorted: no track ranks before one listed earlier.
pub proof fn lemma_by_plays_ranked(s: Seq<TrackView>, by_title: bool)
    ensures
        ranked(by_plays(s, by_title), by_title),
    decreases s.len(),
{
    if s.len() > 0 {
        let r = by_plays(s.drop_last(), by_title);
        let x = s.last();
        lemma_by_plays_ranked(s.drop_last(), by_title);
        lemma_insert_position_bound(r, x, by_title);
        let p = insert_position(r, x, by_title);
        let t = r.insert(p, x);
        assert forall|i: int, j: int| 0 <= i < j < t.len() implies !ranks_before(#[trigger] t[j], #[trigger] t[i], by_title) by {
            if j < p {
                assert(t[i] == r[i] && t[j] == r[j]);
            } else if j == p {
                assert(t[i] == r[i] && t[j] == x);
            } else if i < p {
                assert(t[i] == r[i] && t[j] == r[j - 1]);
            } else if i == p {
                assert(t[i] == x && t[j] == r[j - 1]);
                if ranks_before(r[j - 1], x, by_title) {
                    if j - 1 > p {
                        lemma_ranks_before_transitive(r[j - 1], x, r[p], by_title);
                    } else {
                        lemma_ranks_before_transitive(r[p], x, r[p], by_title);
                        lemma_ranks_before_irreflexive(r[p], by_title);
                    }
                }
            } else {
                assert(t[i] == r[i - 1] && t[j] == r[j - 1]);
            }
        }
    }
}

/// `a` and `b` have the same place in the most-played order: equal play counts and, when
/// `by_title`, equal titles.
pub open spec fn same_rank(a: TrackView, b: TrackView, by_title: bool) -> bool {
    a.play_count == b.play_count && (by_title ==> a.title == b.title)
}

/// The tracks of `s` that have the same place as `v` in the most-played order, in their
/// order in `s`.
pub open spec fn rank_mates(s: Seq<TrackView>, v: TrackView, by_title: bool) -> Seq<TrackView> {
    s.filter(|t: TrackView| same_rank(t, v, by_title))
}

proof fn lemma_filter_none(q: Seq<TrackView>, f: spec_fn(TrackView) -> bool)
    requires
        forall|i: int| 0 <= i < q.len() ==> !f(#[trigger] q[i]),
    ensures
        q.filter(f) == Seq::<TrackView>::empty(),
    decreases q.len(),
{
    reveal(Seq::filter);
    if q.len() > 0 {
        assert forall|i: int| 0 <= i < q.drop_last().len() implies !f(#[trigger] q.drop_last()[i]) by {
            assert(q.drop_last()[i] == q[i]);
        }
        lemma_filter_none(q.drop_last(), f);
        assert(!f(q[q.len() - 1]));
    }
}

/// The most-played order is stable: tracks with the same place in it keep the order they
/// had in the library.
pub proof fn lemma_by_plays_stable(s: Seq<TrackView>, by_title: bool, v: TrackView)
    ensures
        rank_mates(by_plays(s, by_title), v, by_title) == rank_mates(s, v, by_title),
    decreases s.len(),
{
    let f = |t: TrackView| same_rank(t, v, by_title);
    reveal(Seq::filter);
    if s.len() > 0 {
        let r = by_plays(s.drop_last(), by_title);
        let x = s.last();
        lemma_by_plays_stable(s.drop_last(), by_title, v);
        lemma_insert_position_bound(r, x, by_title);
        lemma_by_plays_ranked(s.drop_last(), by_title);
        let p = insert_position(r, x, by_title);
        let a = r.take(p);
        let b = r.skip(p);
        let one = seq![x];
        assert(r.insert(p, x) =~= a + (one + b));
        assert(r =~= a + b);
        Seq::filter_distributes_over_add(a, one + b, f);
        Seq::filter_distributes_over_add(one, b, f);
        Seq::filter_distributes_over_add(a, b, f);
        assert(one.drop_last() =~= Seq::<TrackView>::empty());
        assert(one.last() == x);
        if f(x) {
            assert forall|i: int| 0 <= i < b.len() implies !f(#[trigger] b[i]) by {
                let j = p + i;
                assert(b[i] == r[j]);
                lemma_text_less_irreflexive(x.title);
                if j > p && f(r[j]) {
                    assert(!ranks_before(r[j], r[p], by_title));
                }
            }
            lemma_filter_none(b, f);
            assert(one.filter(f) =~= one);
            assert(b.filter(f) + Seq::<TrackView>::empty() =~= b.filter(f));
            assert(a.filter(f) + b.filter(f) =~= a.filter(f));
            assert(a.filter(f) + (one + b).filter(f) =~= a.filter(f).push(x));
        } else {
            assert(one.drop_last().filter(f) =~= Seq::<TrackView>::empty());
            assert(one.filter(f) =~= Seq::<TrackView>::empty());
            assert(Seq::<TrackView>::empty() + b.filter(f) =~= b.filter(f));
        }
    }
}

/// Every track the view shows passes its folder, filters and search, and comes from the
/// list it was picked from.
pub proof fn lemma_passing_sound(s: Seq<TrackView>, folder: Option<Seq<char>>, f: FilterState, search: Seq<char>)
    ensures
        forall|i: int| 0 <= i < passing(s, folder, f, search).len() ==> passes(
            #[trigger] passing(s, folder, f, search)[i],
            folder,
            f,
            search,
        ) && s.contains(passing(s, folder, f, search)[i]),
    decreases s.len(),
{
    if s.len() > 0 {
        lemma_passing_sound(s.drop_last(), folder, f, search);
        let r = passing(s.drop_last(), folder, f, search);
        assert forall|i: int| 0 <= i < passing(s, folder, f, search).len() implies passes(
            #[trigger] passing(s, folder, f, search)[i],
            folder,
            f,
            search,
        ) && s.contains(passing(s, folder, f, search)[i]) by {
            if i < r.len() {
                assert(passing(s, folder, f, search)[i] == r[i]);
                let k = choose|k: int| 0 <= k < s.drop_last().len() && s.drop_last()[k] == r[i];
                assert(s[k] == r[i]);
            } else {
                assert(passing(s, folder, f, search)[i] == s.last());
                assert(s[s.len() - 1] == s.last());
            }
        }
    }
}

/// Every track of the list that passes is shown.
pub proof fn lemma_passing_complete(s: Seq<TrackView>, folder: Option<Seq<char>>, f: FilterState, search: Seq<char>, k: int)
    requires
        0 <= k < s.len(),
        passes(s[k], folder, f, search),
    ensures
        passing(s, folder, f, search).contains(s[k]),
    decreases s.len(),
{
    let r = passing(s.drop_last(), folder, f, search);
    if k < s.len() - 1 {
        assert(s.drop_last()[k] == s[k]);
        lemma_passing_complete(s.drop_last(), folder, f, search, k);
        seq_push_contains(r, s.last(), s[k]);
    } else {
        seq_push_contains(r, s.last(), s[k]);
    }
}

/// `Previous` early in a track steps back one place in the playlist: from the first track
/// holding the current id at index `i`, it plays the one at `i - 1`; only from index 0 does
/// it wrap round to the last track.
pub proof fn lemma_previous_steps_back(list: Seq<TrackView>, c: i64, i: int)
    requires
        0 <= i < list.len(),
        list[i].id == c,
        forall|j: int| 0 <= j < i ==> list[j].id != c,
    ensures
        i > 0 ==> spec_before(list, Some(c)) == list[i - 1].id,
        i == 0 ==> spec_before(list, Some(c)) == list[list.len() - 1].id,
{
    lemma_first_index(list, c, i);
}

/// Without a current track in the playlist, `Previous` plays the first track.
pub proof fn lemma_previous_without_current(list: Seq<TrackView>, current: Option<i64>)
    requires
        list.len() > 0,
        forall|j: int| 0 <= j < list.len() ==> Some(#[trigger] list[j].id) != current,
    ensures
        spec_before(list, current) == list[0].id,
{
    if let Some(c) = current {
        lemma_first_index(list, c, list.len() as int);
    }
}

/// In a playlist whose ids are distinct, `Next` undoes `Previous`: stepping back from the
/// current track and then forward again lands on the current track.
pub proof fn lemma_next_undoes_previous(list: Seq<TrackView>, i: int)
    requires
        0 <= i < list.len(),
        forall|a: int, b: int| 0 <= a < b < list.len() ==> (#[trigger] list[a]).id != (#[trigger] list[b]).id,
    ensures
        spec_after(list, Some(spec_before(list, Some(list[i].id)))) == list[i].id,
{
    let n = list.len() as int;
    let c = list[i].id;
    assert forall|j: int| 0 <= j < i implies list[j].id != c by {
        assert(list[j].id != list[i].id);
    }
    lemma_first_index(list, c, i);
    let p = if i == 0 {
        n - 1
    } else {
        i - 1
    };
    assert forall|j: int| 0 <= j < p implies list[j].id != list[p].id by {
        assert(list[j].id != list[p].id);
    }
    lemma_first_index(list, list[p].id, p);
    assert((p + 1) % n == i) by {
        if i == 0 {
            assert((n - 1 + 1) % n == 0) by (nonlinear_arith)
                requires
                    n > 0,
            ;
        } else {
            assert((i - 1 + 1) % n == i) by (nonlinear_arith)
                requires
                    0 < i < n,
            ;
        }
    }
}

/// With a genre filter set, every visible track has that genre, ignoring ASCII case.
pub proof fn lemma_genre_filter_shows_only_genre(
    all: Seq<TrackView>,
    tab: NavTab,
    folder: Option<Seq<char>>,
    f: FilterState,
    search: Seq<char>,
    g: String,
)
    requires
        f.genre == Some(g),
    ensures
        forall|i: int|
            0 <= i < spec_visible(all, tab, folder, f, search).len() ==> spec_eq_ignore_ascii_case(
                (#[trigger] spec_visible(all, tab, folder, f, search)[i]).genre,
                g@,
            ),
{
    let base = if tab == NavTab::MostPlayed {
        by_plays(all, true)
    } else {
        all
    };
    let s = spec_ascii_lowercase(spec_trim(search));
    lemma_passing_sound(base, folder, f, s);
}

/// When the genre is the only filter, a track passes exactly when its genre equals the
/// filter's ignoring ASCII case, whatever its other fields (its album included).
pub proof fn lemma_genre_filter_alone(t: TrackView, f: FilterState, g: String)
    requires
        f.genre == Some(g),
        f.artist is None,
        f.album is None,
        f.year is None,
        f.duration is None,
        f.bpm is None,
    ensures
        passes(t, None, f, Seq::empty()) <==> spec_eq_ignore_ascii_case(t.genre, g@),
{
}

/// In the library tab with only a genre filter and no folder or search, every track whose
/// genre matches is shown.
pub proof fn lemma_genre_filter_shows_every_match(all: Seq<TrackView>, f: FilterState, g: String, k: int)
    requires
        f.genre == Some(g),
        f.artist is None,
        f.album is None,
        f.year is None,
        f.duration is None,
        f.bpm is None,
        0 <= k < all.len(),
        spec_eq_ignore_ascii_case(all[k].genre, g@),
    ensures
        spec_visible(all, NavTab::Library, None, f, Seq::empty()).contains(all[k]),
{
    let e = Seq::<char>::empty();
    crate::text::lemma_leading_ws_bound(e);
    crate::text::lemma_trailing_ws_bound(e.skip(0));
    let s = spec_ascii_lowercase(spec_trim(e));
    assert(s.len() == 0);
    assert(s =~= e);
    lemma_passing_complete(all, None, f, s, k);
}

/// `Next` steps forward one place in the playlist: from the first track holding the
/// current id at index `i`, it plays the one at `i + 1`, and the first track after the last.
pub proof fn lemma_next_steps_forward(list: Seq<TrackView>, c: i64, i: int)
    requires
        0 <= i < list.len(),
        list[i].id == c,
        forall|j: int| 0 <= j < i ==> list[j].id != c,
    ensures
        i + 1 < list.len() ==> spec_after(list, Some(c)) == list[i + 1].id,
        i + 1 == list.len() ==> spec_after(list, Some(c)) == list[0].id,
{
    lemma_first_index(list, c, i);
    let n = list.len() as int;
    if i + 1 < n {
        assert((i + 1) % n == i + 1) by (nonlinear_arith)
            requires
                0 <= i + 1 < n,
        ;
    } else {
        assert((i + 1) % n == 0) by (nonlinear_arith)
            requires
                i + 1 == n,
                n > 0,
        ;
    }
}

/// Without a current track in the playlist, `Next` plays the first track.
pub proof fn lemma_next_without_current(list: Seq<TrackView>, current: Option<i64>)
    requires
        list.len() > 0,
        forall|j: int| 0 <= j < list.len() ==> Some(#[trigger] list[j].id) != current,
    ensures
        spec_after(list, current) == list[0].id,
{
    if let Some(c) = current {
        lemma_first_index(list, c, list.len() as int);
    }
}

/// The playlist that `Next` and `Previous` walk is the list on screen when it shows any
/// track, and the whole library otherwise.
pub proof fn lemma_playlist_is_visible_list(visible: Seq<TrackView>, all: Seq<TrackView>)
    ensures
        visible.len() > 0 ==> playlist(visible, all) == visible,
        visible.len() == 0 ==> playlist(visible, all) == all,
{
}

/// Every track the view shows passes each filter that is set: it lies in the chosen
/// folder, has the chosen artist, album and genre (ignoring ASCII case), the chosen year,
/// a length and a tempo in the chosen bands, and contains the search text in its title,
/// artist, album, genre or path (ignoring ASCII case).
pub proof fn lemma_visible_tracks_pass_every_filter(
    all: Seq<TrackView>,
    tab: NavTab,
    folder: Option<Seq<char>>,
    f: FilterState,
    search: Seq<char>,
    i: int,
)
    requires
        0 <= i < spec_visible(all, tab, folder, f, search).len(),
    ensures
        ({
            let t = spec_visible(all, tab, folder, f, search)[i];
            let s = spec_ascii_lowercase(spec_trim(search));
            &&& folder matches Some(p) ==> spec_path_starts_with(t.path, p)
            &&& f.artist matches Some(a) ==> spec_ascii_lowercase(t.artist) == spec_ascii_lowercase(a@)
            &&& f.album matches Some(a) ==> spec_ascii_lowercase(t.album) == spec_ascii_lowercase(a@)
            &&& f.genre matches Some(g) ==> spec_ascii_lowercase(t.genre) == spec_ascii_lowercase(g@)
            &&& f.year matches Some(y) ==> t.year == Some(y)
            &&& f.duration matches Some(d) ==> (t.duration matches Some(len) && d.contains_secs(
                len@ / (NANOS_PER_SEC as nat),
            ))
            &&& f.bpm matches Some(b) ==> (t.bpm matches Some(v) && b.contains_bpm(v))
            &&& s.len() > 0 ==> (spec_contains(spec_ascii_lowercase(t.title), s) || spec_contains(
                spec_ascii_lowercase(t.artist),
                s,
            ) || spec_contains(spec_ascii_lowercase(t.album), s) || spec_contains(
                spec_ascii_lowercase(t.genre),
                s,
            ) || spec_contains(spec_ascii_lowercase(t.path), s))
        }),
{
    let base = if tab == NavTab::MostPlayed {
        by_plays(all, true)
    } else {
        all
    };
    let s = spec_ascii_lowercase(spec_trim(search));
    lemma_passing_sound(base, folder, f, s);
    assert(passes(spec_visible(all, tab, folder, f, search)[i], folder, f, s));
}

} // verus!
