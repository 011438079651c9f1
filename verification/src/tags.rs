//! Building a library record and now-playing metadata from the tags a media probe
//! reports, the WAVE header and ID3 frames.
use vstd::prelude::*;

use crate::duration::{Duration, NANOS_PER_MILLI, NANOS_PER_SEC};
use crate::library::{LibraryTrack, TrackView};
use crate::paths::{path_extension, path_file_stem, spec_path_extension, spec_path_file_stem};
use crate::playback_state::TrackMetadata;
use crate::text::{
    chars_equal, chars_of, parse_i32, parse_u64, spec_ascii_lowercase, spec_ascii_uppercase,
    spec_parse_i32, spec_parse_u64, spec_trim, string_from_chars, to_ascii_lowercase,
    to_ascii_uppercase, trim, trim_chars,
};
use crate::wav::{spec_wav_duration, wav_duration};

verus! {

/// The standard meaning a probe assigns to a tag, as far as the library uses it.
#[derive(Debug, Clone, Copy, PartialEq, Eq, Structural)]
pub enum StandardTag {
    TrackTitle,
    Artist,
    Album,
    Genre,
    Bpm,
    Date,
    ReleaseDate,
    TrackNumber,
    /// Any other standard key, or none: the raw key decides.
    Other,
}

/// One tag reported by a media probe.
#[derive(Debug)]
pub struct ProbedTag {
    pub std_key: StandardTag,
    /// The raw key as stored in the file.
    pub key: String,
    /// The value as text.
    pub value: String,
    /// The trimmed value read as a tempo and rounded, when it reads as a number.
    pub bpm: Option<u32>,
    /// The trimmed value read as a length, when it reads as one.
    pub duration: Option<Duration>,
}

/// The ID3 frames the library falls back on.
#[derive(Debug)]
pub struct Id3Fields {
    pub title: Option<String>,
    pub artist: Option<String>,
    pub album: Option<String>,
    pub genre: Option<String>,
    pub year: Option<i32>,
    pub track: Option<u32>,
    /// The `TBPM` text read as a tempo and rounded, when present and numeric.
    pub bpm: Option<u32>,
    /// The length in seconds the tag reports.
    pub duration_secs: Option<u32>,
    /// The `TLEN` text (milliseconds), when present.
    pub tlen: Option<String>,
}

/// The first `n` characters of `s` (all of `s` when it is shorter).
pub open spec fn first_n(s: Seq<char>, n: nat) -> Seq<char> {
    if s.len() <= n {
        s
    } else {
        s.take(n as int)
    }
}

/// The characters of `s` before its first `sep` (all of `s` when there is none).
pub open spec fn before_first(s: Seq<char>, sep: char) -> Seq<char>
    decreases s.len(),
{
    if s.len() == 0 {
        s
    } else if s[0] == sep {
        Seq::empty()
    } else {
        seq![s[0]] + before_first(s.drop_first(), sep)
    }
}

/// The year in a date tag: its first four characters read as a number.
pub open spec fn spec_tag_year(val: Seq<char>) -> Option<i32> {
    spec_parse_i32(first_n(val, 4))
}

/// The track number in a `n/total` tag.
pub open spec fn spec_tag_track_number(val: Seq<char>) -> Option<i32> {
    spec_parse_i32(spec_trim(before_first(val, '/')))
}

/// Whether `key`, in upper case, is one of two names.
pub open spec fn key_is(k: Seq<char>, a: &str, b: &str) -> bool {
    k == a@ || k == b@
}

/// The record after one probed tag was read, given the fallback title `default_title`.
/// Empty values are ignored; standard keys overwrite; raw keys only fill fields that are
/// still empty (the title also when it is still the fallback).
pub open spec fn spec_apply_tag(t: TrackView, default_title: Seq<char>, tag: ProbedTag) -> TrackView {
    let val = spec_trim(tag.value@);
    if val.len() == 0 {
        t
    } else {
        match tag.std_key {
            StandardTag::TrackTitle => TrackView { title: val, ..t },
            StandardTag::Artist => TrackView { artist: val, ..t },
            StandardTag::Album => TrackView { album: val, ..t },
            StandardTag::Genre => TrackView { genre: val, ..t },
            StandardTag::Bpm => match tag.bpm {
                Some(b) => TrackView { bpm: Some(b), ..t },
                None => t,
            },
            StandardTag::Date | StandardTag::ReleaseDate => match spec_tag_year(val) {
                Some(y) => TrackView { year: Some(y), ..t },
                None => t,
            },
            StandardTag::TrackNumber => match spec_tag_track_number(val) {
                Some(n) => TrackView { track_number: Some(n), ..t },
                None => t,
            },
            StandardTag::Other => {
                let k = spec_ascii_uppercase(tag.key@);
                if key_is(k, "TITLE", "TIT2") && (t.title.len() == 0 || t.title == default_title) {
                    TrackView { title: val, ..t }
                } else if key_is(k, "ARTIST", "TPE1") && t.artist.len() == 0 {
                    TrackView { artist: val, ..t }
                } else if key_is(k, "ALBUM", "TALB") && t.album.len() == 0 {
                    TrackView { album: val, ..t }
                } else if key_is(k, "GENRE", "TCON") && t.genre.len() == 0 {
                    TrackView { genre: val, ..t }
                } else if key_is(k, "BPM", "TBPM") && t.bpm is None {
                    match tag.bpm {
                        Some(b) => TrackView { bpm: Some(b), ..t },
                        None => t,
                    }
                } else if (key_is(k, "DURATION", "LENGTH") || k == "TLEN"@) && t.duration is None {
                    match tag.duration {
                        Some(d) => TrackView { duration: Some(d), ..t },
                        None => t,
                    }
                } else {
                    t
                }
            },
        }
    }
}

/// A standard title, artist, album or genre tag with a non-blank value sets its own field
/// to the trimmed value; every other field of the record stays as it was.
pub proof fn lemma_standard_text_tag_sets_its_field(t: TrackView, default_title: Seq<char>, tag: ProbedTag)
    requires
        spec_trim(tag.value@).len() > 0,
        tag.std_key == StandardTag::TrackTitle || tag.std_key == StandardTag::Artist || tag.std_key
            == StandardTag::Album || tag.std_key == StandardTag::Genre,
    ensures
        ({
            let r = spec_apply_tag(t, default_title, tag);
            let v = spec_trim(tag.value@);
            &&& r.title == (if tag.std_key == StandardTag::TrackTitle { v } else { t.title })
            &&& r.artist == (if tag.std_key == StandardTag::Artist { v } else { t.artist })
            &&& r.album == (if tag.std_key == StandardTag::Album { v } else { t.album })
            &&& r.genre == (if tag.std_key == StandardTag::Genre { v } else { t.genre })
            &&& r.id == t.id && r.path == t.path && r.play_count == t.play_count
            &&& r.year == t.year && r.track_number == t.track_number && r.bpm == t.bpm && r.duration == t.duration
        }),
{
}

/// A raw title, artist, album or genre tag (`TITLE`/`TIT2`, `ARTIST`/`TPE1`, `ALBUM`/`TALB`,
/// `GENRE`/`TCON`, in any case) with a non-blank value fills only its own field, and only
/// when that field is still empty (the title also when it is still the fallback title);
/// every other field of the record stays as it was.
pub proof fn lemma_raw_text_tag_fills_its_field(t: TrackView, default_title: Seq<char>, tag: ProbedTag)
    requires
        spec_trim(tag.value@).len() > 0,
        tag.std_key == StandardTag::Other,
        ({
            let k = spec_ascii_uppercase(tag.key@);
            key_is(k, "TITLE", "TIT2") || key_is(k, "ARTIST", "TPE1") || key_is(k, "ALBUM", "TALB") || key_is(
                k,
                "GENRE",
                "TCON",
            )
        }),
    ensures
        ({
            let r = spec_apply_tag(t, default_title, tag);
            let v = spec_trim(tag.value@);
            let k = spec_ascii_uppercase(tag.key@);
            &&& r.title == (if (k == "TITLE"@ || k == "TIT2"@) && (t.title.len() == 0 || t.title == default_title) {
                v
            } else {
                t.title
            })
            &&& r.artist == (if (k == "ARTIST"@ || k == "TPE1"@) && t.artist.len() == 0 {
                v
            } else {
                t.artist
            })
            &&& r.album == (if (k == "ALBUM"@ || k == "TALB"@) && t.album.len() == 0 {
                v
            } else {
                t.album
            })
            &&& r.genre == (if (k == "GENRE"@ || k == "TCON"@) && t.genre.len() == 0 {
                v
            } else {
                t.genre
            })
            &&& r.id == t.id && r.path == t.path && r.play_count == t.play_count
            &&& r.year == t.year && r.track_number == t.track_number && r.bpm == t.bpm && r.duration == t.duration
        }),
{
    reveal_strlit("TITLE");
    reveal_strlit("TIT2");
    reveal_strlit("ARTIST");
    reveal_strlit("TPE1");
    reveal_strlit("ALBUM");
    reveal_strlit("TALB");
    reveal_strlit("GENRE");
    reveal_strlit("TCON");
    assert("TITLE"@.len() == 5 && "TIT2"@.len() == 4 && "ARTIST"@.len() == 6 && "TPE1"@.len() == 4);
    assert("ALBUM"@.len() == 5 && "TALB"@.len() == 4 && "GENRE"@.len() == 5 && "TCON"@.len() == 4);
    assert("TITLE"@[0] != "ALBUM"@[0] && "TITLE"@[0] != "GENRE"@[0] && "ALBUM"@[0] != "GENRE"@[0]);
    assert("TIT2"@[1] != "TPE1"@[1] && "TIT2"@[1] != "TALB"@[1] && "TIT2"@[1] != "TCON"@[1]);
    assert("TPE1"@[1] != "TALB"@[1] && "TPE1"@[1] != "TCON"@[1] && "TALB"@[1] != "TCON"@[1]);
    reveal_strlit("BPM");
    reveal_strlit("TBPM");
    reveal_strlit("DURATION");
    reveal_strlit("LENGTH");
    reveal_strlit("TLEN");
    assert("BPM"@.len() == 3 && "TBPM"@.len() == 4 && "DURATION"@.len() == 8 && "LENGTH"@.len() == 6
        && "TLEN"@.len() == 4);
    assert("LENGTH"@[0] != "ARTIST"@[0]);
    assert("TBPM"@[1] != "TIT2"@[1] && "TBPM"@[1] != "TPE1"@[1] && "TBPM"@[1] != "TALB"@[1] && "TBPM"@[1]
        != "TCON"@[1]);
    assert("TLEN"@[1] != "TIT2"@[1] && "TLEN"@[1] != "TPE1"@[1] && "TLEN"@[1] != "TALB"@[1] && "TLEN"@[1]
        != "TCON"@[1]);
}

/// A tag whose value is blank changes nothing.
pub proof fn lemma_blank_tag_changes_nothing(t: TrackView, default_title: Seq<char>, tag: ProbedTag)
    requires
        spec_trim(tag.value@).len() == 0,
    ensures
        spec_apply_tag(t, default_title, tag) == t,
{
}

/// The fallback title of a file: its stem, or `Unknown title`.
pub open spec fn spec_default_title(path: Seq<char>) -> Seq<char> {
    match spec_path_file_stem(path) {
        Some(s) => s,
        None => "Unknown title"@,
    }
}

/// Whether the extension of `path` is `a` or `b`, ignoring ASCII case.
pub open spec fn extension_is(path: Seq<char>, a: &str, b: &str) -> bool {
    match spec_path_extension(path) {
        Some(e) => spec_ascii_lowercase(e) == a@ || spec_ascii_lowercase(e) == b@,
        None => false,
    }
}

/// `Some` non-empty text.
pub open spec fn nonempty(v: Option<String>) -> bool {
    v matches Some(s) && s@.len() > 0
}

/// The record after the ID3 fallback: a non-empty ID3 title always wins; artist, album
/// and genre fill empty fields; year, track number, tempo and length fill missing ones,
/// the length from the tag's seconds first and from `TLEN` milliseconds next.
pub open spec fn spec_apply_id3(t: TrackView, f: Id3Fields) -> TrackView {
    let title = if nonempty(f.title) {
        f.title->0@
    } else {
        t.title
    };
    let artist = if nonempty(f.artist) && t.artist.len() == 0 {
        f.artist->0@
    } else {
        t.artist
    };
    let album = if nonempty(f.album) && t.album.len() == 0 {
        f.album->0@
    } else {
        t.album
    };
    let genre = if nonempty(f.genre) && t.genre.len() == 0 {
        f.genre->0@
    } else {
        t.genre
    };
    let year = if t.year is None {
        f.year
    } else {
        t.year
    };
    let track_number = if t.track_number is None {
        match f.track {
            Some(n) => Some(n as i32),
            None => None,
        }
    } else {
        t.track_number
    };
    let bpm = if t.bpm is None {
        f.bpm
    } else {
        t.bpm
    };
    TrackView { title, artist, album, genre, year, track_number, bpm, ..t }
}

/// Whether the ID3 fallback leaves the length as it is (else `spec_id3_duration_nanos`
/// gives the new one).
pub open spec fn spec_id3_keeps_duration(t: TrackView, f: Id3Fields) -> bool {
    t.duration is Some || (!(f.duration_secs matches Some(s) && s > 0) && !(f.tlen matches Some(
        text,
    ) && spec_parse_u64(spec_trim(text@)) matches Some(ms) && ms > 0))
}

/// The length in nanoseconds the ID3 fallback sets when the record has none.
pub open spec fn spec_id3_duration_nanos(f: Id3Fields) -> nat {
    if f.duration_secs matches Some(s) && s > 0 {
        (f.duration_secs->0 as nat) * (NANOS_PER_SEC as nat)
    } else {
        (spec_parse_u64(spec_trim(f.tlen->0@))->0 as nat) * (NANOS_PER_MILLI as nat)
    }
}

/// A record being assembled from what the probes of one file found.
pub struct TrackReader {
    pub track: LibraryTrack,
    pub default_title: String,
}

fn chars_are(v: &[char], lit: &str) -> (b: bool)
    ensures
        b == (v@ == lit@),
{
    let l = chars_of(lit);
    chars_equal(v, l.as_slice())
}

fn is_empty_text(s: &String) -> (e: bool)
    ensures
        e == (s@.len() == 0),
{
    let v = chars_of(s.as_str());
    v.len() == 0
}

fn same_text(a: &String, b: &String) -> (e: bool)
    ensures
        e == (a@ == b@),
{
    let va = chars_of(a.as_str());
    let vb = chars_of(b.as_str());
    chars_equal(va.as_slice(), vb.as_slice())
}

/// The first `n` characters of `v`.
fn first_n_chars(v: &[char], n: usize) -> (r: Vec<char>)
    ensures
        r@ == first_n(v@, n as nat),
{
    let mut r: Vec<char> = Vec::new();
    let mut i: usize = 0;
    while i < v.len() && i < n
        invariant
            i <= v@.len(),
            i <= n,
            r@ == v@.take(i as int),
        decreases v@.len() - i,
    {
        r.push(v[i]);
        i = i + 1;
    }
    assert(r@ =~= first_n(v@, n as nat));
    r
}

proof fn lemma_before_first(s: Seq<char>, sep: char, i: int)
    requires
        0 <= i <= s.len(),
        forall|j: int| 0 <= j < i ==> s[j] != sep,
        i == s.len() || s[i] == sep,
    ensures
        before_first(s, sep) == s.take(i),
    decreases i,
{
    if i == 0 {
        if s.len() > 0 {
            assert(s[0] == sep);
        }
        assert(s.take(0) =~= Seq::<char>::empty());
    } else {
        lemma_before_first(s.drop_first(), sep, i - 1);
        assert(s.take(i) =~= seq![s[0]] + s.drop_first().take(i - 1));
    }
}

/// The characters of `v` before its first `sep`.
fn before_first_chars(v: &[char], sep: char) -> (r: Vec<char>)
    ensures
        r@ == before_first(v@, sep),
{
    let mut r: Vec<char> = Vec::new();
    let mut i: usize = 0;
    while i < v.len() && v[i] != sep
        invariant
            i <= v@.len(),
            r@ == v@.take(i as int),
            forall|j: int| 0 <= j < i ==> v@[j] != sep,
        decreases v@.len() - i,
    {
        r.push(v[i]);
        i = i + 1;
    }
    proof {
        lemma_before_first(v@, sep, i as int);
    }
    r
}

/// The year written at the start of a date tag.
pub fn tag_year(val: &str) -> (y: Option<i32>)
    ensures
        y == spec_tag_year(val@),
{
    let v = chars_of(val);
    let f = first_n_chars(v.as_slice(), 4);
    let s = string_from_chars(f.as_slice());
    parse_i32(s.as_str())
}

/// The track number in an `n` or `n/total` tag.
pub fn tag_track_number(val: &str) -> (n: Option<i32>)
    ensures
        n == spec_tag_track_number(val@),
{
    let v = chars_of(val);
    let head = before_first_chars(v.as_slice(), '/');
    let t = trim_chars(head.as_slice());
    let s = string_from_chars(t.as_slice());
    parse_i32(s.as_str())
}

/// Whether the extension of `path` is `a` or `b`, ignoring ASCII case.
pub fn has_extension(path: &str, a: &str, b: &str) -> (r: bool)
    ensures
        r == extension_is(path@, a, b),
{
    match path_extension(path) {
        None => false,
        Some(e) => {
            let lower = to_ascii_lowercase(e.as_str());
            let v = chars_of(lower.as_str());
            chars_are(v.as_slice(), a) || chars_are(v.as_slice(), b)
        },
    }
}

impl TrackReader {
    /// A blank record for the file at `path`: id 0, the fallback title, empty texts and
    /// nothing else known.
    pub fn new(path: &str) -> (r: TrackReader)
        ensures
            r.default_title@ == spec_default_title(path@),
            r.track@ == (TrackView {
                id: 0,
                path: path@,
                title: spec_default_title(path@),
                artist: Seq::empty(),
                album: Seq::empty(),
                genre: Seq::empty(),
                year: None,
                track_number: None,
                duration: None,
                play_count: 0,
                bpm: None,
            }),
    {
        let default_title = match path_file_stem(path) {
            Some(s) => s,
            None => String::from_str("Unknown title"),
        };
        let track = LibraryTrack {
            id: 0,
            path: String::from_str(path),
            title: default_title.clone(),
            artist: String::new(),
            album: String::new(),
            genre: String::new(),
            year: None,
            track_number: None,
            duration: None,
            play_count: 0,
            bpm: None,
        };
        TrackReader { track, default_title }
    }

    /// Takes the length the container reports, when it reports one.
    pub fn apply_probed_duration(&mut self, duration: Option<Duration>)
        ensures
            final(self).default_title@ == old(self).default_title@,
            final(self).track@ == (match duration {
                Some(d) => TrackView { duration: Some(d), ..old(self).track@ },
                None => old(self).track@,
            }),
    {
        if let Some(d) = duration {
            self.track.duration = Some(d);
        }
    }

    /// Reads one probed tag into the record.
    pub fn apply_tag(&mut self, tag: &ProbedTag)
        ensures
            final(self).default_title@ == old(self).default_title@,
            final(self).track@ == spec_apply_tag(old(self).track@, old(self).default_title@, *tag),
    {
        let val = trim(tag.value.as_str());
        if is_empty_text(&val) {
            return;
        }
        match tag.std_key {
            StandardTag::TrackTitle => self.track.title = val,
            StandardTag::Artist => self.track.artist = val,
            StandardTag::Album => self.track.album = val,
            StandardTag::Genre => self.track.genre = val,
            StandardTag::Bpm => {
                if let Some(b) = tag.bpm {
                    self.track.bpm = Some(b);
                }
            },
            StandardTag::Date | StandardTag::ReleaseDate => {
                if let Some(y) = tag_year(val.as_str()) {
                    self.track.year = Some(y);
                }
            },
            StandardTag::TrackNumber => {
                if let Some(n) = tag_track_number(val.as_str()) {
                    self.track.track_number = Some(n);
                }
            },
            StandardTag::Other => {
                let upper = to_ascii_uppercase(tag.key.as_str());
                let kv = chars_of(upper.as_str());
                let k = kv.as_slice();
                if (chars_are(k, "TITLE") || chars_are(k, "TIT2")) && (is_empty_text(&self.track.title)
                    || same_text(&self.track.title, &self.default_title)) {
                    self.track.title = val;
                } else if (chars_are(k, "ARTIST") || chars_are(k, "TPE1")) && is_empty_text(
                    &self.track.artist,
                ) {
                    self.track.artist = val;
                } else if (chars_are(k, "ALBUM") || chars_are(k, "TALB")) && is_empty_text(
                    &self.track.album,
                ) {
                    self.track.album = val;
                } else if (chars_are(k, "GENRE") || chars_are(k, "TCON")) && is_empty_text(
                    &self.track.genre,
                ) {
                    self.track.genre = val;
                } else if (chars_are(k, "BPM") || chars_are(k, "TBPM")) && self.track.bpm.is_none() {
                    if let Some(b) = tag.bpm {
                        self.track.bpm = Some(b);
                    }
                } else if (chars_are(k, "DURATION") || chars_are(k, "LENGTH") || chars_are(k, "TLEN"))
                    && self.track.duration.is_none() {
                    if let Some(d) = tag.duration {
                        self.track.duration = Some(d);
                    }
                }
            },
        }
    }

    /// Whether the WAVE header should be read: the length is still unknown and the file
    /// is a `.wav`/`.wave` file.
    pub fn needs_wav_header(&self) -> (r: bool)
        ensures
            r == (self.track.duration is None && extension_is(self.track.path@, "wav", "wave")),
    {
        self.track.duration.is_none() && has_extension(self.track.path.as_str(), "wav", "wave")
    }

    /// Takes the length from the bytes of a WAVE file, when its header gives one.
    pub fn apply_wav_header(&mut self, bytes: &[u8])
        ensures
            final(self).default_title@ == old(self).default_title@,
            final(self).track@.duration is Some <==> (old(self).track@.duration is Some
                || spec_wav_duration(bytes@) is Some),
            old(self).track@.duration is None && spec_wav_duration(bytes@) is Some
                ==> final(self).track@.duration->0@ == spec_wav_duration(bytes@)->0,
            old(self).track@.duration is Some ==> final(self).track@ == old(self).track@,
            final(self).track@ == (TrackView { duration: final(self).track@.duration, ..old(self).track@ }),
    {
        if self.track.duration.is_some() {
            return;
        }
        if let Some(d) = wav_duration(bytes) {
            self.track.duration = Some(d);
        }
    }

    /// Whether the ID3 frames should be consulted: the file is an `.mp3` or the artist is
    /// still unknown.
    pub fn needs_id3(&self) -> (r: bool)
        ensures
            r == (extension_is(self.track.path@, "mp3", "mp3") || self.track.artist@.len() == 0),
    {
        has_extension(self.track.path.as_str(), "mp3", "mp3") || is_empty_text(&self.track.artist)
    }

    /// Applies the ID3 fallback.
    pub fn apply_id3(&mut self, f: &Id3Fields)
        ensures
            final(self).default_title@ == old(self).default_title@,
            final(self).track@ == (TrackView {
                duration: final(self).track@.duration,
                ..spec_apply_id3(old(self).track@, *f)
            }),
            spec_id3_keeps_duration(old(self).track@, *f) ==> final(self).track@.duration == old(
                self,
            ).track@.duration,
            !spec_id3_keeps_duration(old(self).track@, *f) ==> (final(self).track@.duration matches Some(
                d,
            ) && d@ == spec_id3_duration_nanos(*f)),
    {
        if let Some(title) = &f.title {
            if !is_empty_text(title) {
                self.track.title = title.clone();
            }
        }
        if let Some(artist) = &f.artist {
            if !is_empty_text(artist) && is_empty_text(&self.track.artist) {
                self.track.artist = artist.clone();
            }
        }
        if let Some(album) = &f.album {
            if !is_empty_text(album) && is_empty_text(&self.track.album) {
                self.track.album = album.clone();
            }
        }
        if let Some(genre) = &f.genre {
            if !is_empty_text(genre) && is_empty_text(&self.track.genre) {
                self.track.genre = genre.clone();
            }
        }
        if self.track.year.is_none() {
            self.track.year = f.year;
        }
        if self.track.track_number.is_none() {
            self.track.track_number = match f.track {
                Some(n) => Some(n as i32),
                None => None,
            };
        }
        if self.track.bpm.is_none() {
            self.track.bpm = f.bpm;
        }
        if self.track.duration.is_none() {
            if let Some(secs) = f.duration_secs {
                if secs > 0 {
                    self.track.duration = Some(Duration::from_secs(secs as u64));
                }
            }
            if self.track.duration.is_none() {
                if let Some(text) = &f.tlen {
                    let t = trim(text.as_str());
                    if let Some(ms) = parse_u64(t.as_str()) {
                        if ms > 0 {
                            self.track.duration = Some(Duration::from_millis(ms));
                        }
                    }
                }
            }
        }
    }

    /// The finished record: an unknown artist or album reads `Unknown Artist` /
    /// `Unknown Album`.
    pub fn finish(self) -> (t: LibraryTrack)
        ensures
            t@ == (TrackView {
                artist: if self.track@.artist.len() == 0 {
                    "Unknown Artist"@
                } else {
                    self.track@.artist
                },
                album: if self.track@.album.len() == 0 {
                    "Unknown Album"@
                } else {
                    self.track@.album
                },
                ..self.track@
            }),
            t.artist@.len() > 0,
            t.album@.len() > 0,
    {
        proof {
            reveal_strlit("Unknown Artist");
            reveal_strlit("Unknown Album");
        }
        let mut track = self.track;
        if is_empty_text(&track.artist) {
            track.artist = String::from_str("Unknown Artist");
        }
        if is_empty_text(&track.album) {
            track.album = String::from_str("Unknown Album");
        }
        track
    }
}

/// Reads one probed tag into now-playing metadata, as the decoder does: standard title,
/// artist and album overwrite; raw keys replace a field that is empty or still holds its
/// fallback.
pub open spec fn spec_apply_decoder_tag(
    title: Seq<char>,
    artist: Seq<char>,
    album: Seq<char>,
    default_title: Seq<char>,
    tag: ProbedTag,
) -> (Seq<char>, Seq<char>, Seq<char>) {
    let val = spec_trim(tag.value@);
    if val.len() == 0 {
        (title, artist, album)
    } else {
        match tag.std_key {
            StandardTag::TrackTitle => (val, artist, album),
            StandardTag::Artist => (title, val, album),
            StandardTag::Album => (title, artist, val),
            _ => {
                let k = spec_ascii_uppercase(tag.key@);
                if key_is(k, "TITLE", "TIT2") && (title.len() == 0 || title == default_title) {
                    (val, artist, album)
                } else if key_is(k, "ARTIST", "TPE1") && (artist.len() == 0 || artist
                    == "Unknown Artist"@) {
                    (title, val, album)
                } else if key_is(k, "ALBUM", "TALB") && (album.len() == 0 || album == "Unknown Album"@) {
                    (title, artist, val)
                } else {
                    (title, artist, album)
                }
            },
        }
    }
}

/// Now-playing metadata for a file before any tag is read: the fallback title and
/// unknown artist and album.
pub fn initial_metadata(default_title: &String) -> (m: TrackMetadata)
    ensures
        m.title@ == default_title@,
        m.artist@ == "Unknown Artist"@,
        m.album@ == "Unknown Album"@,
        m.duration is None,
{
    TrackMetadata {
        title: default_title.clone(),
        artist: String::from_str("Unknown Artist"),
        album: String::from_str("Unknown Album"),
        duration: None,
    }
}

/// The fallback title of the file at `path`: its stem, or `Unknown title`.
pub fn default_title(path: &str) -> (t: String)
    ensures
        t@ == spec_default_title(path@),
{
    match path_file_stem(path) {
        Some(s) => s,
        None => String::from_str("Unknown title"),
    }
}

/// Reads one probed tag into now-playing metadata.
pub fn apply_decoder_tag(meta: &mut TrackMetadata, default_title: &String, tag: &ProbedTag)
    ensures
        (final(meta).title@, final(meta).artist@, final(meta).album@) == spec_apply_decoder_tag(
            old(meta).title@,
            old(meta).artist@,
            old(meta).album@,
            default_title@,
            *tag,
        ),
        final(meta).duration == old(meta).duration,
{
    let val = trim(tag.value.as_str());
    if is_empty_text(&val) {
        return;
    }
    match tag.std_key {
        StandardTag::TrackTitle => meta.title = val,
        StandardTag::Artist => meta.artist = val,
        StandardTag::Album => meta.album = val,
        _ => {
            let unknown_artist = String::from_str("Unknown Artist");
            let unknown_album = String::from_str("Unknown Album");
            let upper = to_ascii_uppercase(tag.key.as_str());
            let kv = chars_of(upper.as_str());
            let k = kv.as_slice();
            if (chars_are(k, "TITLE") || chars_are(k, "TIT2")) && (is_empty_text(&meta.title)
                || same_text(&meta.title, default_title)) {
                meta.title = val;
            } else if (chars_are(k, "ARTIST") || chars_are(k, "TPE1")) && (is_empty_text(&meta.artist)
                || same_text(&meta.artist, &unknown_artist)) {
                meta.artist = val;
            } else if (chars_are(k, "ALBUM") || chars_are(k, "TALB")) && (is_empty_text(&meta.album)
                || same_text(&meta.album, &unknown_album)) {
                meta.album = val;
            }
        },
    }
}

} // verus!
