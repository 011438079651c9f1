//! Texts the views show: the heading of the track list, the summary of the active
//! filters and the fallbacks of the now-playing panel.
use vstd::prelude::*;

use crate::filters::{FilterState, NavTab};
use crate::paths::spec_path_file_name;
use crate::player::folder_display_name;
use crate::playback_state::TrackMetadata;
use crate::text::{i64_to_string, signed_decimal, spec_trim, trim};

verus! {

/// `label` followed by `value` and a space when `value` is set.
pub open spec fn part(label: Seq<char>, value: Option<Seq<char>>) -> Seq<char> {
    match value {
        Some(v) => label + v + " "@,
        None => Seq::empty(),
    }
}

pub open spec fn text_opt(v: Option<String>) -> Option<Seq<char>> {
    match v {
        Some(s) => Some(s@),
        None => None,
    }
}

/// The summary of the active filters: `Artist: a Album: b Genre: g Duration: d Year: y
/// BPM: t`, each part only when that filter is set, without the trailing space.
pub open spec fn spec_filter_summary(f: FilterState) -> Seq<char> {
    spec_trim(
        part("Artist: "@, text_opt(f.artist)) + part("Album: "@, text_opt(f.album)) + part(
            "Genre: "@,
            text_opt(f.genre),
        ) + part(
            "Duration: "@,
            match f.duration {
                Some(d) => Some(d.spec_label()),
                None => None,
            },
        ) + part(
            "Year: "@,
            match f.year {
                Some(y) => Some(signed_decimal(y as int)),
                None => None,
            },
        ) + part(
            "BPM: "@,
            match f.bpm {
                Some(b) => Some(b.spec_label()),
                None => None,
            },
        ),
    )
}

fn append_part(s: &mut String, label: &str, value: Option<&str>)
    ensures
        final(s)@ == old(s)@ + part(
            label@,
            match value {
                Some(v) => Some(v@),
                None => None,
            },
        ),
{
    if let Some(v) = value {
        s.append(label);
        s.append(v);
        s.append(" ");
    } else {
        proof {
            assert(old(s)@ + Seq::<char>::empty() =~= old(s)@);
        }
    }
}

fn opt_str(v: &Option<String>) -> (r: Option<&str>)
    ensures
        match r {
            Some(s) => text_opt(*v) == Some(s@),
            None => v is None,
        },
{
    match v {
        Some(s) => Some(s.as_str()),
        None => None,
    }
}

/// The line of the sidebar that lists the active filters.
pub fn filter_summary(f: &FilterState) -> (s: String)
    ensures
        s@ == spec_filter_summary(*f),
{
    let mut d = String::new();
    append_part(&mut d, "Artist: ", opt_str(&f.artist));
    append_part(&mut d, "Album: ", opt_str(&f.album));
    append_part(&mut d, "Genre: ", opt_str(&f.genre));
    let dur = match f.duration {
        Some(x) => Some(x.label()),
        None => None,
    };
    append_part(&mut d, "Duration: ", dur);
    let year_text = match f.year {
        Some(y) => Some(i64_to_string(y as i64)),
        None => None,
    };
    let year = match &year_text {
        Some(t) => Some(t.as_str()),
        None => None,
    };
    append_part(&mut d, "Year: ", year);
    let bpm = match f.bpm {
        Some(x) => Some(x.label()),
        None => None,
    };
    append_part(&mut d, "BPM: ", bpm);
    let r = trim(d.as_str());
    proof {
        assert(d@ =~= part("Artist: "@, text_opt(f.artist)) + part("Album: "@, text_opt(f.album)) + part(
            "Genre: "@,
            text_opt(f.genre),
        ) + part(
            "Duration: "@,
            match f.duration {
                Some(d) => Some(d.spec_label()),
                None => None,
            },
        ) + part(
            "Year: "@,
            match f.year {
                Some(y) => Some(signed_decimal(y as int)),
                None => None,
            },
        ) + part(
            "BPM: "@,
            match f.bpm {
                Some(b) => Some(b.spec_label()),
                None => None,
            },
        ));
    }
    r
}

/// The first active filter, as the list heading names it.
pub open spec fn first_filter(f: FilterState) -> Seq<char> {
    if f.artist is Some {
        "Artist: "@ + f.artist->0@
    } else if f.album is Some {
        "Album: "@ + f.album->0@
    } else if f.genre is Some {
        "Genre: "@ + f.genre->0@
    } else if f.duration is Some {
        "Duration: "@ + f.duration->0.spec_label()
    } else if f.year is Some {
        "Year: "@ + signed_decimal(f.year->0 as int)
    } else if f.bpm is Some {
        "BPM: "@ + f.bpm->0.spec_label()
    } else {
        Seq::empty()
    }
}

/// The heading of the track list: the most-played view, else the selected folder, else the
/// first active filter, else the search text, else all tracks.
pub open spec fn spec_list_heading(tab: NavTab, folder: Option<Seq<char>>, f: FilterState, search: Seq<char>) -> Seq<
    char,
> {
    if tab == NavTab::MostPlayed {
        "Frequently Played Tracks"@
    } else if folder is Some {
        "Folder: "@ + match spec_path_file_name(folder->0) {
            Some(n) => n,
            None => "Folder"@,
        }
    } else if f.spec_any_active() {
        "Filter: "@ + first_filter(f)
    } else if search.len() > 0 {
        "Search: \""@ + search + "\""@
    } else {
        "All Tracks"@
    }
}

fn first_filter_text(f: &FilterState) -> (s: String)
    ensures
        s@ == first_filter(*f),
{
    let mut s = String::new();
    if let Some(a) = &f.artist {
        s.append("Artist: ");
        s.append(a.as_str());
    } else if let Some(a) = &f.album {
        s.append("Album: ");
        s.append(a.as_str());
    } else if let Some(g) = &f.genre {
        s.append("Genre: ");
        s.append(g.as_str());
    } else if let Some(d) = f.duration {
        s.append("Duration: ");
        s.append(d.label());
    } else if let Some(y) = f.year {
        s.append("Year: ");
        let t = i64_to_string(y as i64);
        s.append(t.as_str());
    } else if let Some(b) = f.bpm {
        s.append("BPM: ");
        s.append(b.label());
    }
    s
}

/// The heading of the track list.
pub fn list_heading(tab: NavTab, folder: &Option<String>, f: &FilterState, search: &str) -> (h: String)
    ensures
        h@ == spec_list_heading(
            tab,
            match folder {
                Some(p) => Some(p@),
                None => None,
            },
            *f,
            search@,
        ),
{
    if tab == NavTab::MostPlayed {
        return String::from_str("Frequently Played Tracks");
    }
    if let Some(p) = folder {
        let mut h = String::from_str("Folder: ");
        let name = folder_display_name(p.as_str());
        h.append(name.as_str());
        return h;
    }
    if f.is_any_active() {
        let mut h = String::from_str("Filter: ");
        let d = first_filter_text(f);
        h.append(d.as_str());
        return h;
    }
    if search.unicode_len() > 0 {
        let mut h = String::from_str("Search: \"");
        h.append(search);
        h.append("\"");
        return h;
    }
    String::from_str("All Tracks")
}

/// Whether the list offers to clear the view: a folder, filter, search, selection or the
/// most-played view narrows it.
pub fn offers_clear(tab: NavTab, folder: &Option<String>, f: &FilterState, search: &str, selected: usize) -> (c: bool)
    ensures
        c == (folder is Some || f.spec_any_active() || search@.len() > 0 || selected > 0 || tab
            == NavTab::MostPlayed),
{
    folder.is_some() || f.is_any_active() || search.unicode_len() > 0 || selected > 0 || tab == NavTab::MostPlayed
}

/// Whether the all-tracks entry of the sidebar is highlighted.
pub fn library_entry_active(tab: NavTab, folder: &Option<String>, f: &FilterState) -> (a: bool)
    ensures
        a == (tab == NavTab::Library && folder is None && !f.spec_any_active()),
{
    tab == NavTab::Library && folder.is_none() && !f.is_any_active()
}

/// The title and artist lines of the now-playing panel, with their fallbacks.
pub fn now_playing_lines(meta: &TrackMetadata) -> (r: (String, String))
    ensures
        r.0@ == (if meta.title@.len() == 0 {
            "Nothing Playing"@
        } else {
            meta.title@
        }),
        r.1@ == (if meta.artist@.len() == 0 {
            "Kanono Media Player"@
        } else {
            meta.artist@
        }),
{
    let title = if meta.title.unicode_len() == 0 {
        String::from_str("Nothing Playing")
    } else {
        meta.title.clone()
    };
    let artist = if meta.artist.unicode_len() == 0 {
        String::from_str("Kanono Media Player")
    } else {
        meta.artist.clone()
    };
    (title, artist)
}

} // verus!
