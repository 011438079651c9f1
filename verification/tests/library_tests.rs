use kanono::duration::Duration;
use kanono::editing::{BatchEditState, BatchField, EditField, EditingTrackState};
use kanono::library::{
    is_supported, needs_reindex, track_from_row, LibraryTrack, SqlValue, TagUpdate, TrackQuery,
};
use kanono::tags::{
    apply_decoder_tag, default_title, has_extension, initial_metadata, tag_track_number, tag_year,
    Id3Fields, ProbedTag, StandardTag, TrackReader,
};
use kanono::text::{parse_i32, parse_u32, parse_u64, trim};
use rusqlite::types::Value;
use rusqlite::{params_from_iter, Connection};

const SCHEMA: &str = "
    CREATE TABLE IF NOT EXISTS tracks (
        id INTEGER PRIMARY KEY,
        path TEXT NOT NULL UNIQUE,
        title TEXT NOT NULL,
        artist TEXT NOT NULL,
        album TEXT NOT NULL,
        genre TEXT NOT NULL,
        year INTEGER,
        track_number INTEGER,
        duration_ms INTEGER,
        modified_at INTEGER NOT NULL,
        play_count INTEGER DEFAULT 0,
        bpm INTEGER,
        last_played_at INTEGER
    );";

const INSERT: &str = "INSERT INTO tracks (path, title, artist, album, genre, year, track_number, duration_ms, modified_at, play_count, bpm)
     VALUES (?1, ?2, ?3, ?4, ?5, ?6, ?7, ?8, ?9, ?10, ?11)";

fn text(s: &str) -> Value {
    Value::Text(s.to_string())
}

fn insert(c: &Connection, row: [Value; 11]) {
    c.execute(INSERT, params_from_iter(row)).unwrap();
}

fn run(c: &Connection, q: &TrackQuery) -> Vec<LibraryTrack> {
    let composed = q.to_sql();
    let values: Vec<Value> = composed
        .params
        .iter()
        .map(|p| match p {
            SqlValue::Text(t) => Value::Text(t.clone()),
            SqlValue::Integer(i) => Value::Integer(*i),
        })
        .collect();
    let mut statement = c.prepare(&composed.sql).unwrap();
    let rows = statement
        .query_map(params_from_iter(values), |row| {
            Ok(track_from_row(
                row.get(0)?,
                row.get(1)?,
                row.get(2)?,
                row.get(3)?,
                row.get(4)?,
                row.get(5)?,
                row.get(6)?,
                row.get(7)?,
                row.get(8)?,
                row.get(9)?,
                row.get(10)?,
            ))
        })
        .unwrap();
    rows.collect::<rusqlite::Result<Vec<_>>>().unwrap()
}

fn record_play(c: &Connection, id: i64) -> u32 {
    c.execute(
        "UPDATE tracks SET play_count = COALESCE(play_count, 0) + 1, last_played_at = ?1 WHERE id = ?2",
        params_from_iter([Value::Integer(0), Value::Integer(id)]),
    )
    .unwrap();
    c.query_row("SELECT COALESCE(play_count, 0) FROM tracks WHERE id = ?1", [id], |row| row.get(0))
        .unwrap_or(1)
}

fn update_duration(c: &Connection, id: i64, d: Duration) {
    c.execute(
        "UPDATE tracks SET duration_ms = ?1 WHERE id = ?2",
        params_from_iter([Value::Integer(d.as_millis() as i64), Value::Integer(id)]),
    )
    .unwrap();
}

#[test]
fn query_composes_playlist_filters() {
    let c = Connection::open_in_memory().unwrap();
    c.execute_batch(SCHEMA).unwrap();
    insert(&c, [
        text("/music/a.mp3"), text("Motion Picture Soundtrack"), text("Radiohead"), text("Kid A"),
        text("Alternative"), Value::Integer(2000), Value::Integer(10), Value::Integer(260_000),
        Value::Integer(1), Value::Integer(5), Value::Integer(120),
    ]);
    insert(&c, [
        text("/music/b.mp3"), text("Teardrop"), text("Massive Attack"), text("Mezzanine"),
        text("Electronic"), Value::Integer(1998), Value::Integer(3), Value::Integer(330_000),
        Value::Integer(1), Value::Integer(2), Value::Integer(90),
    ]);

    let tracks = run(&c, &TrackQuery {
        text: Some("motion".into()),
        artist: Some("radio".into()),
        album: Some("kid".into()),
        genre: Some("alternative".into()),
        year: Some(2000),
        limit: Some(10),
        ..Default::default()
    });

    assert_eq!(tracks.len(), 1);
    assert_eq!(tracks[0].title, "Motion Picture Soundtrack");
    assert_eq!(tracks[0].play_count, 5);
    assert_eq!(tracks[0].bpm, Some(120));

    let new_count = record_play(&c, tracks[0].id);
    assert_eq!(new_count, 6);

    update_duration(&c, tracks[0].id, Duration::from_secs(265));
    let updated = run(&c, &TrackQuery {
        artist: Some("Radiohead".into()),
        limit: Some(1),
        ..Default::default()
    });
    assert_eq!(updated[0].duration, Some(Duration::from_secs(265)));

    let most_played = run(&c, &TrackQuery { sort_by_play_count: true, ..Default::default() });
    assert_eq!(most_played[0].title, "Motion Picture Soundtrack");
    assert_eq!(most_played[0].play_count, 6);
    assert_eq!(most_played[1].title, "Teardrop");
    assert_eq!(most_played[1].play_count, 2);

    let dur_filtered = run(&c, &TrackQuery {
        min_duration: Some(Duration::from_secs(300)),
        ..Default::default()
    });
    assert_eq!(dur_filtered.len(), 1);
    assert_eq!(dur_filtered[0].title, "Teardrop");

    let bpm_filtered = run(&c, &TrackQuery { min_bpm: Some(100), ..Default::default() });
    assert_eq!(bpm_filtered.len(), 1);
    assert_eq!(bpm_filtered[0].title, "Motion Picture Soundtrack");
}

#[test]
fn composed_sql_text_and_parameters() {
    let plain = TrackQuery::default().to_sql();
    assert_eq!(
        plain.sql,
        "SELECT id, path, title, artist, album, genre, year, track_number, duration_ms, play_count, bpm FROM tracks ORDER BY artist COLLATE NOCASE, album COLLATE NOCASE, track_number, title COLLATE NOCASE"
    );
    assert!(plain.params.is_empty());
    let q = TrackQuery {
        genre: Some("jazz".into()),
        max_duration: Some(Duration::from_millis(1_500)),
        max_bpm: Some(99),
        sort_by_play_count: true,
        limit: Some(25),
        ..Default::default()
    }
    .to_sql();
    assert_eq!(
        q.sql,
        "SELECT id, path, title, artist, album, genre, year, track_number, duration_ms, play_count, bpm FROM tracks WHERE genre LIKE ? AND duration_ms <= ? AND bpm <= ? ORDER BY play_count DESC, artist COLLATE NOCASE, album COLLATE NOCASE, title COLLATE NOCASE LIMIT 25"
    );
    assert_eq!(q.params.len(), 3);
    assert!(matches!(&q.params[0], SqlValue::Text(t) if t == "%jazz%"));
    assert!(matches!(q.params[1], SqlValue::Integer(1_500)));
    assert!(matches!(q.params[2], SqlValue::Integer(99)));
    let searched = TrackQuery { text: Some("x".into()), ..Default::default() }.to_sql();
    assert_eq!(searched.params.len(), 5);
}

#[test]
fn rows_become_tracks() {
    let t = track_from_row(
        4, "/a/b.flac".into(), "T".into(), "A".into(), "B".into(), "G".into(), Some(1999), Some(2),
        Some(61_500), None, Some(128),
    );
    assert_eq!(t.duration, Some(Duration::from_millis(61_500)));
    assert_eq!(t.play_count, 0);
    assert_eq!(t.year, Some(1999));
}

#[test]
fn supported_audio_extensions() {
    assert!(is_supported("/x/song.MP3"));
    assert!(is_supported("a.flac"));
    assert!(is_supported("/x/y.Wave"));
    assert!(!is_supported("/x/cover.jpg"));
    assert!(!is_supported("/x/noext"));
    assert!(needs_reindex(None, 5));
    assert!(needs_reindex(Some(4), 5));
    assert!(!needs_reindex(Some(5), 5));
}

fn sample_track() -> LibraryTrack {
    LibraryTrack {
        id: 7,
        path: "/m/x.mp3".into(),
        title: "Old".into(),
        artist: "Someone".into(),
        album: "Alb".into(),
        genre: "Pop".into(),
        year: Some(2001),
        track_number: Some(3),
        duration: Some(Duration::from_secs(200)),
        play_count: 9,
        bpm: None,
    }
}

#[test]
fn tag_updates_replace_only_given_fields() {
    let t = sample_track();
    let u = TagUpdate { artist: Some("New".into()), bpm: Some(128), ..Default::default() };
    let once = u.apply_to(&t);
    assert_eq!(once.artist, "New");
    assert_eq!(once.bpm, Some(128));
    assert_eq!(once.title, "Old");
    assert_eq!(once.year, Some(2001));
    assert_eq!(once.play_count, 9);
    // writing the same update again changes nothing
    let twice = u.apply_to(&once);
    assert_eq!(twice.artist, once.artist);
    assert_eq!(twice.bpm, once.bpm);
    // an empty update is the identity
    let same = TagUpdate::default().apply_to(&t);
    assert_eq!(same.title, t.title);
    assert_eq!(same.genre, t.genre);
    assert_eq!(same.year, t.year);
}

#[test]
fn batch_editor_opens_on_shared_values() {
    let mut a = sample_track();
    let mut b = sample_track();
    b.id = 8;
    b.album = "Other".into();
    a.genre = "Rock".into();
    b.genre = "Rock".into();
    let all = vec![a, b];
    let state = BatchEditState::for_selection(&all, &vec![7, 8]);
    assert!(state.is_open);
    assert!(state.apply_artist);
    assert_eq!(state.artist, "Someone");
    assert!(!state.apply_album);
    assert_eq!(state.album, "");
    assert!(state.apply_genre);
    assert!(!state.apply_year);
}

#[test]
fn batch_editor_builds_the_update() {
    let mut state = BatchEditState::default();
    state.set_field(BatchField::Year, " 1999 ".into());
    state.set_field(BatchField::Artist, "  Band ".into());
    state.set_field(BatchField::Bpm, "fast".into());
    let u = state.to_tag_update();
    assert_eq!(u.title, None);
    assert_eq!(u.artist.as_deref(), Some("Band"));
    assert_eq!(u.year, Some(1999));
    assert_eq!(u.bpm, None);
    state.toggle_apply(BatchField::Artist);
    assert_eq!(state.to_tag_update().artist, None);
}

#[test]
fn single_editor_round_trip() {
    let t = sample_track();
    let mut e = EditingTrackState::from_track(&t);
    assert_eq!(e.year, "2001");
    assert_eq!(e.bpm, "");
    e.set_field(EditField::Title, " Fresh ".into());
    e.set_field(EditField::Bpm, "121".into());
    let u = e.to_tag_update();
    assert_eq!(u.title.as_deref(), Some("Fresh"));
    assert_eq!(u.bpm, Some(121));
    assert_eq!(u.year, Some(2001));
    let neg = EditingTrackState::from_track(&LibraryTrack { year: Some(-44), ..sample_track() });
    assert_eq!(neg.year, "-44");
}

fn tag(std_key: StandardTag, key: &str, value: &str) -> ProbedTag {
    ProbedTag { std_key, key: key.into(), value: value.into(), bpm: None, duration: None }
}

#[test]
fn reader_applies_probed_tags() {
    let mut r = TrackReader::new("/m/Artist - Song.flac");
    assert_eq!(r.track.title, "Artist - Song");
    r.apply_tag(&tag(StandardTag::Artist, "ARTIST", "  Queen "));
    r.apply_tag(&tag(StandardTag::Date, "DATE", "1975-10-31"));
    r.apply_tag(&tag(StandardTag::TrackNumber, "TRACKNUMBER", " 11/12"));
    r.apply_tag(&tag(StandardTag::Other, "tit2", "Bohemian Rhapsody"));
    r.apply_tag(&tag(StandardTag::Other, "tpe1", "Someone Else"));
    r.apply_tag(&tag(StandardTag::Album, "ALBUM", "   "));
    let mut tempo = tag(StandardTag::Other, "TBPM", "72");
    tempo.bpm = Some(72);
    r.apply_tag(&tempo);
    let t = r.finish();
    assert_eq!(t.artist, "Queen");
    assert_eq!(t.title, "Bohemian Rhapsody");
    assert_eq!(t.year, Some(1975));
    assert_eq!(t.track_number, Some(11));
    assert_eq!(t.bpm, Some(72));
    assert_eq!(t.album, "Unknown Album");
}

#[test]
fn reader_falls_back_on_id3_and_defaults() {
    let mut r = TrackReader::new("/m/song.mp3");
    assert!(r.needs_id3());
    r.apply_id3(&Id3Fields {
        title: Some("From Id3".into()),
        artist: None,
        album: Some("Record".into()),
        genre: None,
        year: Some(1990),
        track: Some(4),
        bpm: None,
        duration_secs: None,
        tlen: Some(" 90500 ".into()),
    });
    let t = r.finish();
    assert_eq!(t.title, "From Id3");
    assert_eq!(t.artist, "Unknown Artist");
    assert_eq!(t.album, "Record");
    assert_eq!(t.track_number, Some(4));
    assert_eq!(t.duration, Some(Duration::from_millis(90_500)));
}

#[test]
fn tag_text_helpers() {
    assert_eq!(tag_year("2004-05-06"), Some(2004));
    assert_eq!(tag_year("20"), Some(20));
    assert_eq!(tag_year("abcd"), None);
    assert_eq!(tag_track_number("3/10"), Some(3));
    assert_eq!(tag_track_number(" 7 "), Some(7));
    assert_eq!(tag_track_number("/5"), None);
    assert!(has_extension("/a/B.MP3", "mp3", "mp2"));
    assert!(!has_extension("/a/b.ogg", "mp3", "mp2"));
    assert_eq!(default_title("/a/b/Track 01.wav"), "Track 01");
    let m = initial_metadata(&"x".to_string());
    assert_eq!(m.title, "x");
    let mut meta = initial_metadata(&"file".to_string());
    apply_decoder_tag(&mut meta, &"file".to_string(), &tag(StandardTag::TrackTitle, "TITLE", " Name "));
    assert_eq!(meta.title, "Name");
}

#[test]
fn number_and_text_parsing() {
    assert_eq!(parse_i32("-12"), Some(-12));
    assert_eq!(parse_i32("+7"), Some(7));
    assert_eq!(parse_i32("2147483648"), None);
    assert_eq!(parse_i32(""), None);
    assert_eq!(parse_u32("4294967295"), Some(u32::MAX));
    assert_eq!(parse_u32("-1"), None);
    assert_eq!(parse_u64("12x"), None);
    assert_eq!(trim("  a b \t"), "a b");
}
