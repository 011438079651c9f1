//! Tag editing forms: the batch editor for a selection and the single-track editor.
use vstd::prelude::*;

use crate::library::{LibraryTrack, TagUpdate, TrackView};
use crate::player::{views, with_ids};
use crate::text::{
    i64_to_string, parse_i32, parse_u32, signed_decimal, decimal, spec_parse_i32, spec_parse_u32,
    spec_trim, trim, u64_to_string,
};

verus! {

/// A field of the batch tag editor.
#[derive(Debug, Clone, Copy, PartialEq, Eq, Structural)]
pub enum BatchField {
    Artist,
    Album,
    Genre,
    Year,
    Bpm,
}

/// The batch tag editor: for each field, the text typed and whether it is written.
#[derive(Debug, Clone)]
pub struct BatchEditState {
    pub is_open: bool,
    pub apply_artist: bool,
    pub artist: String,
    pub apply_album: bool,
    pub album: String,
    pub apply_genre: bool,
    pub genre: String,
    pub apply_year: bool,
    pub year: String,
    pub apply_bpm: bool,
    pub bpm: String,
}

impl Default for BatchEditState {
    fn default() -> (b: BatchEditState)
        ensures
            !b.is_open,
            !b.apply_artist && !b.apply_album && !b.apply_genre && !b.apply_year && !b.apply_bpm,
            b.artist@.len() == 0 && b.album@.len() == 0 && b.genre@.len() == 0 && b.year@.len() == 0
                && b.bpm@.len() == 0,
    {
        BatchEditState {
            is_open: false,
            apply_artist: false,
            artist: String::new(),
            apply_album: false,
            album: String::new(),
            apply_genre: false,
            genre: String::new(),
            apply_year: false,
            year: String::new(),
            apply_bpm: false,
            bpm: String::new(),
        }
    }
}

/// Trimmed text when `apply` is set.
pub open spec fn text_if(apply: bool, s: Seq<char>) -> Option<Seq<char>> {
    if apply {
        Some(spec_trim(s))
    } else {
        None
    }
}

/// The text of an optional string.
pub open spec fn opt_view(s: Option<String>) -> Option<Seq<char>> {
    match s {
        Some(v) => Some(v@),
        None => None,
    }
}

/// Whether every track in `s` has the artist (`which == 0`), album (1) or genre (2) `v`.
pub open spec fn all_have(s: Seq<TrackView>, which: int, v: Seq<char>) -> bool {
    forall|i: int| 0 <= i < s.len() ==> field_of(#[trigger] s[i], which) == v
}

/// The artist (0), album (1) or genre (2) of a track.
pub open spec fn field_of(t: TrackView, which: int) -> Seq<char> {
    if which == 0 {
        t.artist
    } else if which == 1 {
        t.album
    } else {
        t.genre
    }
}

/// The value shared by the first selected track, or empty text when none is selected.
pub open spec fn first_field(s: Seq<TrackView>, which: int) -> Seq<char> {
    if s.len() > 0 {
        field_of(s[0], which)
    } else {
        Seq::empty()
    }
}

impl BatchEditState {
    /// Stores `value` for `field` and marks the field to be written.
    pub fn set_field(&mut self, field: BatchField, value: String)
        ensures
            final(self).is_open == old(self).is_open,
            match field {
                BatchField::Artist => final(self).artist@ == value@ && final(self).apply_artist
                    && final(self).album == old(self).album && final(self).genre == old(self).genre
                    && final(self).year == old(self).year && final(self).bpm == old(self).bpm
                    && final(self).apply_album == old(self).apply_album && final(self).apply_genre
                    == old(self).apply_genre && final(self).apply_year == old(self).apply_year
                    && final(self).apply_bpm == old(self).apply_bpm,
                BatchField::Album => final(self).album@ == value@ && final(self).apply_album
                    && final(self).artist == old(self).artist && final(self).genre == old(self).genre
                    && final(self).year == old(self).year && final(self).bpm == old(self).bpm
                    && final(self).apply_artist == old(self).apply_artist && final(self).apply_genre
                    == old(self).apply_genre && final(self).apply_year == old(self).apply_year
                    && final(self).apply_bpm == old(self).apply_bpm,
                BatchField::Genre => final(self).genre@ == value@ && final(self).apply_genre
                    && final(self).artist == old(self).artist && final(self).album == old(self).album
                    && final(self).year == old(self).year && final(self).bpm == old(self).bpm
                    && final(self).apply_artist == old(self).apply_artist && final(self).apply_album
                    == old(self).apply_album && final(self).apply_year == old(self).apply_year
                    && final(self).apply_bpm == old(self).apply_bpm,
                BatchField::Year => final(self).year@ == value@ && final(self).apply_year
                    && final(self).artist == old(self).artist && final(self).album == old(self).album
                    && final(self).genre == old(self).genre && final(self).bpm == old(self).bpm
                    && final(self).apply_artist == old(self).apply_artist && final(self).apply_album
                    == old(self).apply_album && final(self).apply_genre == old(self).apply_genre
                    && final(self).apply_bpm == old(self).apply_bpm,
                BatchField::Bpm => final(self).bpm@ == value@ && final(self).apply_bpm
                    && final(self).artist == old(self).artist && final(self).album == old(self).album
                    && final(self).genre == old(self).genre && final(self).year == old(self).year
                    && final(self).apply_artist == old(self).apply_artist && final(self).apply_album
                    == old(self).apply_album && final(self).apply_genre == old(self).apply_genre
                    && final(self).apply_year == old(self).apply_year,
            },
    {
        match field {
            BatchField::Artist => {
                self.artist = value;
                self.apply_artist = true;
            },
            BatchField::Album => {
                self.album = value;
                self.apply_album = true;
            },
            BatchField::Genre => {
                self.genre = value;
                self.apply_genre = true;
            },
            BatchField::Year => {
                self.year = value;
                self.apply_year = true;
            },
            BatchField::Bpm => {
                self.bpm = value;
                self.apply_bpm = true;
            },
        }
    }

    /// Flips whether `field` is written; texts are kept.
    pub fn toggle_apply(&mut self, field: BatchField)
        ensures
            final(self).is_open == old(self).is_open,
            final(self).artist == old(self).artist,
            final(self).album == old(self).album,
            final(self).genre == old(self).genre,
            final(self).year == old(self).year,
            final(self).bpm == old(self).bpm,
            final(self).apply_artist == (old(self).apply_artist != (field == BatchField::Artist)),
            final(self).apply_album == (old(self).apply_album != (field == BatchField::Album)),
            final(self).apply_genre == (old(self).apply_genre != (field == BatchField::Genre)),
            final(self).apply_year == (old(self).apply_year != (field == BatchField::Year)),
            final(self).apply_bpm == (old(self).apply_bpm != (field == BatchField::Bpm)),
    {
        match field {
            BatchField::Artist => self.apply_artist = !self.apply_artist,
            BatchField::Album => self.apply_album = !self.apply_album,
            BatchField::Genre => self.apply_genre = !self.apply_genre,
            BatchField::Year => self.apply_year = !self.apply_year,
            BatchField::Bpm => self.apply_bpm = !self.apply_bpm,
        }
    }

    /// The tag update the editor writes: marked texts trimmed, a marked year or tempo only
    /// when it reads as a number; the title is never written.
    pub fn to_tag_update(&self) -> (u: TagUpdate)
        ensures
            u.title is None,
            opt_view(u.artist) == text_if(self.apply_artist, self.artist@),
            opt_view(u.album) == text_if(self.apply_album, self.album@),
            opt_view(u.genre) == text_if(self.apply_genre, self.genre@),
            u.year == (if self.apply_year {
                spec_parse_i32(spec_trim(self.year@))
            } else {
                None
            }),
            u.bpm == (if self.apply_bpm {
                spec_parse_u32(spec_trim(self.bpm@))
            } else {
                None
            }),
    {
        let artist = if self.apply_artist {
            Some(trim(self.artist.as_str()))
        } else {
            None
        };
        let album = if self.apply_album {
            Some(trim(self.album.as_str()))
        } else {
            None
        };
        let genre = if self.apply_genre {
            Some(trim(self.genre.as_str()))
        } else {
            None
        };
        let year = if self.apply_year {
            let t = trim(self.year.as_str());
            parse_i32(t.as_str())
        } else {
            None
        };
        let bpm = if self.apply_bpm {
            let t = trim(self.bpm.as_str());
            parse_u32(t.as_str())
        } else {
            None
        };
        TagUpdate { title: None, artist, album, genre, year, bpm }
    }
}

/// Whether all tracks of `tracks` have the same field as the first one.
fn all_same_field(tracks: &Vec<LibraryTrack>, which: u8) -> (r: (bool, String))
    requires
        which < 3,
    ensures
        r.1@ == first_field(views(tracks@), which as int),
        r.0 == all_have(views(tracks@), which as int, r.1@),
{
    let ghost s = views(tracks@);
    if tracks.len() == 0 {
        return (true, String::new());
    }
    let common = match which {
        0 => tracks[0].artist.clone(),
        1 => tracks[0].album.clone(),
        _ => tracks[0].genre.clone(),
    };
    assert(common@ == field_of(s[0], which as int));
    let cv = crate::text::chars_of(common.as_str());
    let mut i: usize = 0;
    while i < tracks.len()
        invariant
            i <= tracks@.len(),
            which < 3,
            s == views(tracks@),
            cv@ == common@,
            tracks@.len() > 0,
            common@ == first_field(s, which as int),
            forall|j: int| 0 <= j < i ==> field_of(#[trigger] s[j], which as int) == common@,
        decreases tracks@.len() - i,
    {
        let f = match which {
            0 => &tracks[i].artist,
            1 => &tracks[i].album,
            _ => &tracks[i].genre,
        };
        assert(f@ == field_of(s[i as int], which as int));
        let fv = crate::text::chars_of(f.as_str());
        if !crate::text::chars_equal(fv.as_slice(), cv.as_slice()) {
            return (false, common);
        }
        i = i + 1;
    }
    (true, common)
}

impl BatchEditState {
    /// The editor opened on the tracks of `all` whose ids are selected: artist, album and
    /// genre are filled in and marked when all those tracks share them; year and tempo start
    /// empty and unmarked.
    pub fn for_selection(all: &Vec<LibraryTrack>, selected: &Vec<i64>) -> (b: BatchEditState)
        ensures
            b.is_open,
            ({
                let chosen = with_ids(views(all@), selected@);
                &&& b.apply_artist == all_have(chosen, 0, first_field(chosen, 0))
                &&& b.artist@ == (if b.apply_artist {
                    first_field(chosen, 0)
                } else {
                    Seq::empty()
                })
                &&& b.apply_album == all_have(chosen, 1, first_field(chosen, 1))
                &&& b.album@ == (if b.apply_album {
                    first_field(chosen, 1)
                } else {
                    Seq::empty()
                })
                &&& b.apply_genre == all_have(chosen, 2, first_field(chosen, 2))
                &&& b.genre@ == (if b.apply_genre {
                    first_field(chosen, 2)
                } else {
                    Seq::empty()
                })
            }),
            !b.apply_year && b.year@.len() == 0,
            !b.apply_bpm && b.bpm@.len() == 0,
    {
        let chosen = crate::player::tracks_with_ids(all, selected);
        let (same_artist, artist) = all_same_field(&chosen, 0);
        let (same_album, album) = all_same_field(&chosen, 1);
        let (same_genre, genre) = all_same_field(&chosen, 2);
        BatchEditState {
            is_open: true,
            apply_artist: same_artist,
            artist: if same_artist {
                artist
            } else {
                String::new()
            },
            apply_album: same_album,
            album: if same_album {
                album
            } else {
                String::new()
            },
            apply_genre: same_genre,
            genre: if same_genre {
                genre
            } else {
                String::new()
            },
            apply_year: false,
            year: String::new(),
            apply_bpm: false,
            bpm: String::new(),
        }
    }
}

/// A field of the single-track tag editor.
#[derive(Debug, Clone, Copy, PartialEq, Eq, Structural)]
pub enum EditField {
    Title,
    Artist,
    Album,
    Genre,
    Year,
    Bpm,
}

/// The single-track tag editor.
#[derive(Debug, Clone)]
pub struct EditingTrackState {
    pub track_id: i64,
    pub title: String,
    pub artist: String,
    pub album: String,
    pub genre: String,
    pub year: String,
    pub bpm: String,
}

impl EditingTrackState {
    /// The editor opened on `t`: its texts, and its year and tempo written out (empty when
    /// unknown).
    pub fn from_track(t: &LibraryTrack) -> (e: EditingTrackState)
        ensures
            e.track_id == t.id,
            e.title@ == t.title@,
            e.artist@ == t.artist@,
            e.album@ == t.album@,
            e.genre@ == t.genre@,
            e.year@ == (match t.year {
                Some(y) => signed_decimal(y as int),
                None => Seq::empty(),
            }),
            e.bpm@ == (match t.bpm {
                Some(b) => decimal(b as nat),
                None => Seq::empty(),
            }),
    {
        let year = match t.year {
            Some(y) => i64_to_string(y as i64),
            None => String::new(),
        };
        let bpm = match t.bpm {
            Some(b) => u64_to_string(b as u64),
            None => String::new(),
        };
        EditingTrackState {
            track_id: t.id,
            title: t.title.clone(),
            artist: t.artist.clone(),
            album: t.album.clone(),
            genre: t.genre.clone(),
            year,
            bpm,
        }
    }

    /// Stores `value` in `field`.
    pub fn set_field(&mut self, field: EditField, value: String)
        ensures
            final(self).track_id == old(self).track_id,
            final(self).title == (if field == EditField::Title {
                value
            } else {
                old(self).title
            }),
            final(self).artist == (if field == EditField::Artist {
                value
            } else {
                old(self).artist
            }),
            final(self).album == (if field == EditField::Album {
                value
            } else {
                old(self).album
            }),
            final(self).genre == (if field == EditField::Genre {
                value
            } else {
                old(self).genre
            }),
            final(self).year == (if field == EditField::Year {
                value
            } else {
                old(self).year
            }),
            final(self).bpm == (if field == EditField::Bpm {
                value
            } else {
                old(self).bpm
            }),
    {
        match field {
            EditField::Title => self.title = value,
            EditField::Artist => self.artist = value,
            EditField::Album => self.album = value,
            EditField::Genre => self.genre = value,
            EditField::Year => self.year = value,
            EditField::Bpm => self.bpm = value,
        }
    }

    /// The update the editor writes: all four texts trimmed; year and tempo when they read
    /// as numbers.
    pub fn to_tag_update(&self) -> (u: TagUpdate)
        ensures
            opt_view(u.title) == Some(spec_trim(self.title@)),
            opt_view(u.artist) == Some(spec_trim(self.artist@)),
            opt_view(u.album) == Some(spec_trim(self.album@)),
            opt_view(u.genre) == Some(spec_trim(self.genre@)),
            u.year == spec_parse_i32(spec_trim(self.year@)),
            u.bpm == spec_parse_u32(spec_trim(self.bpm@)),
    {
        let year_text = trim(self.year.as_str());
        let bpm_text = trim(self.bpm.as_str());
        TagUpdate {
            title: Some(trim(self.title.as_str())),
            artist: Some(trim(self.artist.as_str())),
            album: Some(trim(self.album.as_str())),
            genre: Some(trim(self.genre.as_str())),
            year: parse_i32(year_text.as_str()),
            bpm: parse_u32(bpm_text.as_str()),
        }
    }
}

} // verus!
