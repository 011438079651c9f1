use kanono::duration::Duration;
use kanono::filters::{select_tab, tab_after_clear, BpmFilter, DurationFilter, FilterState, NavTab};
use kanono::labels::{filter_summary, library_entry_active, list_heading, now_playing_lines, offers_clear};
use kanono::library::LibraryTrack;
use kanono::player::all_visible_selected;
use kanono::playback_state::TrackMetadata;
use kanono::sidebar::{facet_counts, played_track_count, year_counts, Facet};
use kanono::wav::{synth_wav_header, wav_duration};

fn track(id: i64, artist: &str, genre: &str, year: Option<i32>, plays: u32) -> LibraryTrack {
    LibraryTrack {
        id,
        path: format!("/m/{id}.mp3"),
        title: format!("t{id}"),
        artist: artist.to_string(),
        album: String::new(),
        genre: genre.to_string(),
        year,
        track_number: None,
        duration: None,
        play_count: plays,
        bpm: None,
    }
}

fn library() -> Vec<LibraryTrack> {
    vec![
        track(1, "queen", "Rock", Some(1975), 3),
        track(2, "Abba", "Pop", Some(1976), 0),
        track(3, "queen", "", Some(1975), 0),
        track(4, "Björk", "Pop", None, 1),
        track(5, "", "rock", Some(2001), 0),
    ]
}

#[test]
fn artists_are_counted_and_sorted_ignoring_case() {
    let artists = facet_counts(&library(), Facet::Artist);
    assert_eq!(
        artists,
        vec![("Abba".to_string(), 1), ("Björk".to_string(), 1), ("queen".to_string(), 2)]
    );
}

#[test]
fn genres_keep_distinct_spellings_and_skip_empty() {
    let genres = facet_counts(&library(), Facet::Genre);
    assert_eq!(genres.len(), 3);
    assert_eq!(genres[0], ("Pop".to_string(), 2));
    let rock: Vec<_> = genres[1..].iter().map(|(g, c)| (g.to_lowercase(), *c)).collect();
    assert_eq!(rock, vec![("rock".to_string(), 1), ("rock".to_string(), 1)]);
    assert!(facet_counts(&library(), Facet::Album).is_empty());
}

#[test]
fn facet_order_lowers_beyond_ascii() {
    let lib = vec![track(1, "Zoë", "", None, 0), track(2, "Émile", "", None, 0), track(3, "éclair", "", None, 0)];
    let names: Vec<String> = facet_counts(&lib, Facet::Artist).into_iter().map(|(n, _)| n).collect();
    // "é" (U+00E9) sorts after "z" once lowered; "Émile" lowers to "émile", after "éclair"
    assert_eq!(names, vec!["Zoë".to_string(), "éclair".to_string(), "Émile".to_string()]);
}

#[test]
fn years_newest_first_with_counts() {
    assert_eq!(year_counts(&library()), vec![(2001, 1), (1976, 1), (1975, 2)]);
    assert!(year_counts(&Vec::new()).is_empty());
}

#[test]
fn played_tracks_are_counted() {
    assert_eq!(played_track_count(&library()), 2);
}

#[test]
fn filter_summary_lists_active_filters() {
    let mut f = FilterState::default();
    assert_eq!(filter_summary(&f), "");
    f.artist = Some("Queen".into());
    f.year = Some(1975);
    f.bpm = Some(BpmFilter::Slow);
    assert_eq!(filter_summary(&f), "Artist: Queen Year: 1975 BPM: < 90 (Chill)");
    let mut g = FilterState::default();
    g.duration = Some(DurationFilter::Long);
    assert_eq!(filter_summary(&g), "Duration: 4 - 6 min");
}

#[test]
fn list_heading_follows_the_view() {
    let none = FilterState::default();
    assert_eq!(list_heading(NavTab::MostPlayed, &None, &none, ""), "Frequently Played Tracks");
    assert_eq!(list_heading(NavTab::Folders, &Some("/music/Jazz".into()), &none, "x"), "Folder: Jazz");
    let mut f = FilterState::default();
    f.genre = Some("Pop".into());
    f.year = Some(2000);
    assert_eq!(list_heading(NavTab::Library, &None, &f, "x"), "Filter: Genre: Pop");
    assert_eq!(list_heading(NavTab::Library, &None, &none, "moon"), "Search: \"moon\"");
    assert_eq!(list_heading(NavTab::Library, &None, &none, ""), "All Tracks");
}

#[test]
fn clear_offer_and_library_highlight() {
    let none = FilterState::default();
    assert!(!offers_clear(NavTab::Library, &None, &none, "", 0));
    assert!(offers_clear(NavTab::Library, &None, &none, "", 2));
    assert!(offers_clear(NavTab::MostPlayed, &None, &none, "", 0));
    assert!(library_entry_active(NavTab::Library, &None, &none));
    assert!(!library_entry_active(NavTab::Library, &Some("/a".into()), &none));
}

#[test]
fn now_playing_fallbacks() {
    let empty = TrackMetadata::default();
    let (t, a) = now_playing_lines(&empty);
    assert_eq!(t, "Nothing Playing");
    assert_eq!(a, "Kanono Media Player");
    let meta = TrackMetadata { title: "S".into(), artist: "B".into(), album: String::new(), duration: None };
    assert_eq!(now_playing_lines(&meta), ("S".to_string(), "B".to_string()));
}

#[test]
fn all_visible_selected_needs_every_visible_track() {
    let lib = library();
    assert!(!all_visible_selected(&Vec::new(), &vec![1]));
    assert!(!all_visible_selected(&lib, &vec![1, 2, 3, 4]));
    assert!(all_visible_selected(&lib, &vec![5, 4, 3, 2, 1, 9]));
}

#[test]
fn synth_header_reads_back_as_its_length() {
    let h = synth_wav_header(44_100, 12);
    assert_eq!(h.len(), 44);
    assert_eq!(&h[0..4], b"RIFF");
    assert_eq!(&h[36..40], b"data");
    let mut file = h.clone();
    file.extend_from_slice(&[0u8; 64]);
    assert_eq!(wav_duration(&file), Some(Duration::from_secs(12)));
    assert_eq!(wav_duration(&synth_wav_header(44_100, 0)), None);
    assert_eq!(wav_duration(&synth_wav_header(0, 5)), None);
}

#[test]
fn tab_changes_and_clearing() {
    assert_eq!(tab_after_clear(NavTab::Queue), NavTab::Queue);
    assert_eq!(tab_after_clear(NavTab::Info), NavTab::Info);
    assert_eq!(tab_after_clear(NavTab::Folders), NavTab::Library);
    assert_eq!(tab_after_clear(NavTab::MostPlayed), NavTab::Library);
    let mut folder = Some("/music".to_string());
    assert!(!select_tab(NavTab::Queue, &mut folder));
    assert_eq!(folder.as_deref(), Some("/music"));
    assert!(select_tab(NavTab::MostPlayed, &mut folder));
    assert_eq!(folder.as_deref(), Some("/music"));
    assert!(select_tab(NavTab::Library, &mut folder));
    assert_eq!(folder, None);
}
