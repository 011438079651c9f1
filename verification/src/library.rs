//! Library records: indexed tracks, playlist queries and tag updates.
use vstd::prelude::*;

use crate::duration::{Duration, NANOS_PER_MILLI};
use crate::paths::{path_extension, spec_path_extension};
use crate::text::{spec_ascii_lowercase, to_ascii_lowercase, chars_of, chars_equal};

verus! {

/// One indexed audio file.
#[derive(Debug)]
pub struct LibraryTrack {
    pub id: i64,
    pub path: String,
    pub title: String,
    pub artist: String,
    pub album: String,
    pub genre: String,
    pub year: Option<i32>,
    pub track_number: Option<i32>,
    pub duration: Option<Duration>,
    pub play_count: u32,
    pub bpm: Option<u32>,
}

/// A track with its texts taken as character sequences.
pub ghost struct TrackView {
    pub id: i64,
    pub path: Seq<char>,
    pub title: Seq<char>,
    pub artist: Seq<char>,
    pub album: Seq<char>,
    pub genre: Seq<char>,
    pub year: Option<i32>,
    pub track_number: Option<i32>,
    pub duration: Option<Duration>,
    pub play_count: u32,
    pub bpm: Option<u32>,
}

impl View for LibraryTrack {
    type V = TrackView;

    open spec fn view(&self) -> TrackView {
        TrackView {
            id: self.id,
            path: self.path@,
            title: self.title@,
            artist: self.artist@,
            album: self.album@,
            genre: self.genre@,
            year: self.year,
            track_number: self.track_number,
            duration: self.duration,
            play_count: self.play_count,
            bpm: self.bpm,
        }
    }
}

impl Clone for LibraryTrack {
    fn clone(&self) -> (c: Self)
        ensures
            c@ == self@,
    {
        LibraryTrack {
            id: self.id,
            path: self.path.clone(),
            title: self.title.clone(),
            artist: self.artist.clone(),
            album: self.album.clone(),
            genre: self.genre.clone(),
            year: self.year,
            track_number: self.track_number,
            duration: self.duration,
            play_count: self.play_count,
            bpm: self.bpm,
        }
    }
}

/// Builds a track from the columns of a library row. A stored length is in milliseconds;
/// a missing play count reads as zero.
pub fn track_from_row(
    id: i64,
    path: String,
    title: String,
    artist: String,
    album: String,
    genre: String,
    year: Option<i32>,
    track_number: Option<i32>,
    duration_ms: Option<i64>,
    play_count: Option<u32>,
    bpm: Option<u32>,
) -> (t: LibraryTrack)
    ensures
        t.id == id,
        t.path@ == path@,
        t.title@ == title@,
        t.artist@ == artist@,
        t.album@ == album@,
        t.genre@ == genre@,
        t.year == year,
        t.track_number == track_number,
        t.duration is Some <==> duration_ms is Some,
        t.duration matches Some(d) ==> d@ == (duration_ms->0 as u64) * NANOS_PER_MILLI,
        t.play_count == (match play_count {
            Some(c) => c,
            None => 0,
        }),
        t.bpm == bpm,
{
    let duration = match duration_ms {
        Some(ms) => Some(Duration::from_millis(ms as u64)),
        None => None,
    };
    let play_count: u32 = match play_count {
        Some(c) => c,
        None => 0,
    };
    LibraryTrack {
        id,
        path,
        title,
        artist,
        album,
        genre,
        year,
        track_number,
        duration,
        play_count,
        bpm,
    }
}

/// Text, artist, album, genre, year, length and tempo filters for the playlist view.
#[derive(Debug, Clone)]
pub struct TrackQuery {
    pub text: Option<String>,
    pub artist: Option<String>,
    pub album: Option<String>,
    pub genre: Option<String>,
    pub year: Option<i32>,
    pub min_duration: Option<Duration>,
    pub max_duration: Option<Duration>,
    pub min_bpm: Option<u32>,
    pub max_bpm: Option<u32>,
    pub sort_by_play_count: bool,
    pub limit: Option<usize>,
}

impl Default for TrackQuery {
    fn default() -> (q: TrackQuery)
        ensures
            q.text is None,
            q.artist is None,
            q.album is None,
            q.genre is None,
            q.year is None,
            q.min_duration is None,
            q.max_duration is None,
            q.min_bpm is None,
            q.max_bpm is None,
            !q.sort_by_play_count,
            q.limit is None,
    {
        TrackQuery {
            text: None,
            artist: None,
            album: None,
            genre: None,
            year: None,
            min_duration: None,
            max_duration: None,
            min_bpm: None,
            max_bpm: None,
            sort_by_play_count: false,
            limit: None,
        }
    }
}

/// Tag values to write to a set of tracks; `None` keeps each track's own value.
#[derive(Debug, Clone)]
pub struct TagUpdate {
    pub title: Option<String>,
    pub artist: Option<String>,
    pub album: Option<String>,
    pub genre: Option<String>,
    pub year: Option<i32>,
    pub bpm: Option<u32>,
}

impl Default for TagUpdate {
    fn default() -> (u: TagUpdate)
        ensures
            u.title is None,
            u.artist is None,
            u.album is None,
            u.genre is None,
            u.year is None,
            u.bpm is None,
    {
        TagUpdate { title: None, artist: None, album: None, genre: None, year: None, bpm: None }
    }
}

/// `Some` text replaces, `None` keeps.
pub open spec fn pick_text(update: Option<String>, current: Seq<char>) -> Seq<char> {
    match update {
        Some(v) => v@,
        None => current,
    }
}

/// `Some` value replaces, `None` keeps.
pub open spec fn pick<T>(update: Option<T>, current: Option<T>) -> Option<T> {
    match update {
        Some(v) => Some(v),
        None => current,
    }
}

impl TagUpdate {
    /// The track as it reads after this update was written to it: title, artist, album,
    /// genre, year and tempo are replaced where the update holds a value.
    pub open spec fn spec_apply(self, t: TrackView) -> TrackView {
        TrackView {
            title: pick_text(self.title, t.title),
            artist: pick_text(self.artist, t.artist),
            album: pick_text(self.album, t.album),
            genre: pick_text(self.genre, t.genre),
            year: pick(self.year, t.year),
            bpm: pick(self.bpm, t.bpm),
            ..t
        }
    }

    /// Whether the update leaves every field as it is.
    pub open spec fn spec_is_empty(self) -> bool {
        &&& self.title is None
        &&& self.artist is None
        &&& self.album is None
        &&& self.genre is None
        &&& self.year is None
        &&& self.bpm is None
    }

    /// Writes this update into `track`, as the library stores a mass-tagged row.
    pub fn apply_to(&self, track: &LibraryTrack) -> (t: LibraryTrack)
        ensures
            t@ == self.spec_apply(track@),
    {
        let title = match &self.title {
            Some(v) => v.clone(),
            None => track.title.clone(),
        };
        let artist = match &self.artist {
            Some(v) => v.clone(),
            None => track.artist.clone(),
        };
        let album = match &self.album {
            Some(v) => v.clone(),
            None => track.album.clone(),
        };
        let genre = match &self.genre {
            Some(v) => v.clone(),
            None => track.genre.clone(),
        };
        let year = match self.year {
            Some(v) => Some(v),
            None => track.year,
        };
        let bpm = match self.bpm {
            Some(v) => Some(v),
            None => track.bpm,
        };
        LibraryTrack {
            id: track.id,
            path: track.path.clone(),
            title,
            artist,
            album,
            genre,
            year,
            track_number: track.track_number,
            duration: track.duration,
            play_count: track.play_count,
            bpm,
        }
    }
}

/// Writing the same update twice leaves a track as writing it once.
pub proof fn lemma_tag_update_idempotent(u: TagUpdate, t: TrackView)
    ensures
        u.spec_apply(u.spec_apply(t)) == u.spec_apply(t),
{
}

/// An update without values leaves every track unchanged.
pub proof fn lemma_empty_tag_update_is_identity(u: TagUpdate, t: TrackView)
    requires
        u.spec_is_empty(),
    ensures
        u.spec_apply(t) == t,
{
}

/// A tag update writes every value it holds and keeps every field it leaves out.
pub proof fn lemma_tag_update_writes_its_values(u: TagUpdate, t: TrackView)
    ensures
        u.title matches Some(v) ==> u.spec_apply(t).title == v@,
        u.artist matches Some(v) ==> u.spec_apply(t).artist == v@,
        u.album matches Some(v) ==> u.spec_apply(t).album == v@,
        u.genre matches Some(v) ==> u.spec_apply(t).genre == v@,
        u.year matches Some(y) ==> u.spec_apply(t).year == Some(y),
        u.bpm matches Some(b) ==> u.spec_apply(t).bpm == Some(b),
        u.title is None ==> u.spec_apply(t).title == t.title,
        u.artist is None ==> u.spec_apply(t).artist == t.artist,
        u.album is None ==> u.spec_apply(t).album == t.album,
        u.genre is None ==> u.spec_apply(t).genre == t.genre,
        u.year is None ==> u.spec_apply(t).year == t.year,
        u.bpm is None ==> u.spec_apply(t).bpm == t.bpm,
{
}

/// A tag update never touches a track's identity, file, number, length or play count.
pub proof fn lemma_tag_update_keeps_identity(u: TagUpdate, t: TrackView)
    ensures
        u.spec_apply(t).id == t.id,
        u.spec_apply(t).path == t.path,
        u.spec_apply(t).track_number == t.track_number,
        u.spec_apply(t).duration == t.duration,
        u.spec_apply(t).play_count == t.play_count,
{
}

/// File extensions the library indexes, in lower case.
pub open spec fn supported_extension(e: Seq<char>) -> bool {
    ||| e == "mp3"@
    ||| e == "mp2"@
    ||| e == "mp1"@
    ||| e == "flac"@
    ||| e == "wav"@
    ||| e == "wave"@
    ||| e == "webm"@
    ||| e == "mkv"@
    ||| e == "ogg"@
    ||| e == "oga"@
    ||| e == "m4a"@
    ||| e == "m4b"@
    ||| e == "mp4"@
    ||| e == "aac"@
    ||| e == "alac"@
    ||| e == "aiff"@
    ||| e == "aif"@
    ||| e == "caf"@
}

/// Whether the file at `path` has an audio extension the library indexes (any ASCII case).
pub open spec fn spec_is_supported(path: Seq<char>) -> bool {
    match spec_path_extension(path) {
        Some(e) => supported_extension(spec_ascii_lowercase(e)),
        None => false,
    }
}

fn text_is(v: &[char], lit: &str) -> (b: bool)
    ensures
        b == (v@ == lit@),
{
    let l = chars_of(lit);
    chars_equal(v, l.as_slice())
}

pub fn is_supported(path: &str) -> (s: bool)
    ensures
        s == spec_is_supported(path@),
{
    match path_extension(path) {
        None => false,
        Some(e) => {
            let lower = to_ascii_lowercase(e.as_str());
            let v = chars_of(lower.as_str());
            let v = v.as_slice();
            text_is(v, "mp3") || text_is(v, "mp2") || text_is(v, "mp1") || text_is(v, "flac")
                || text_is(v, "wav") || text_is(v, "wave") || text_is(v, "webm") || text_is(v, "mkv")
                || text_is(v, "ogg") || text_is(v, "oga") || text_is(v, "m4a") || text_is(v, "m4b")
                || text_is(v, "mp4") || text_is(v, "aac") || text_is(v, "alac") || text_is(v, "aiff")
                || text_is(v, "aif") || text_is(v, "caf")
        },
    }
}

/// Whether a file must be (re)read during a scan: it is new to the library or its
/// modification time differs from the stored one.
pub fn needs_reindex(stored_modified_at: Option<i64>, modified_at: i64) -> (r: bool)
    ensures
        r == (stored_modified_at != Some(modified_at)),
{
    match stored_modified_at {
        Some(m) => m != modified_at,
        None => true,
    }
}


/// A value bound to a `?` placeholder of a library query.
#[derive(Debug, Clone)]
pub enum SqlValue {
    Text(String),
    Integer(i64),
}

/// A bound value with its text taken as characters.
pub ghost enum SqlValueView {
    Text(Seq<char>),
    Integer(i64),
}

impl View for SqlValue {
    type V = SqlValueView;

    open spec fn view(&self) -> SqlValueView {
        match self {
            SqlValue::Text(t) => SqlValueView::Text(t@),
            SqlValue::Integer(i) => SqlValueView::Integer(*i),
        }
    }
}

/// A library query: SQL text with `?` placeholders and the values bound to them, in order.
#[derive(Debug)]
pub struct SqlQuery {
    pub sql: String,
    pub params: Vec<SqlValue>,
}

pub const SELECT_TRACKS: &'static str = "SELECT id, path, title, artist, album, genre, year, track_number, duration_ms, play_count, bpm FROM tracks";
pub const TEXT_CLAUSE: &'static str = "(title LIKE ? OR artist LIKE ? OR album LIKE ? OR genre LIKE ? OR path LIKE ?)";
pub const ARTIST_CLAUSE: &'static str = "artist LIKE ?";
pub const ALBUM_CLAUSE: &'static str = "album LIKE ?";
pub const GENRE_CLAUSE: &'static str = "genre LIKE ?";
pub const YEAR_CLAUSE: &'static str = "year = ?";
pub const MIN_DURATION_CLAUSE: &'static str = "duration_ms >= ?";
pub const MAX_DURATION_CLAUSE: &'static str = "duration_ms <= ?";
pub const MIN_BPM_CLAUSE: &'static str = "bpm >= ?";
pub const MAX_BPM_CLAUSE: &'static str = "bpm <= ?";
pub const ORDER_BY_PLAY_COUNT: &'static str = "ORDER BY play_count DESC, artist COLLATE NOCASE, album COLLATE NOCASE, title COLLATE NOCASE";
pub const ORDER_BY_ARTIST: &'static str = "ORDER BY artist COLLATE NOCASE, album COLLATE NOCASE, track_number, title COLLATE NOCASE";

/// `%text%`: matches any value containing `text` (SQL `LIKE`).
pub open spec fn like_pattern(t: Seq<char>) -> Seq<char> {
    "%"@ + t + "%"@
}

pub open spec fn clause_if(present: bool, clause: &str) -> Seq<Seq<char>> {
    if present {
        seq![clause@]
    } else {
        seq![]
    }
}

pub open spec fn text_param_if(value: Option<String>) -> Seq<SqlValueView> {
    match value {
        Some(t) => seq![SqlValueView::Text(like_pattern(t@))],
        None => seq![],
    }
}

/// The search pattern, once for each of the five searched columns.
pub open spec fn search_params_if(value: Option<String>) -> Seq<SqlValueView> {
    match value {
        Some(t) => seq![
            SqlValueView::Text(like_pattern(t@)),
            SqlValueView::Text(like_pattern(t@)),
            SqlValueView::Text(like_pattern(t@)),
            SqlValueView::Text(like_pattern(t@)),
            SqlValueView::Text(like_pattern(t@)),
        ],
        None => seq![],
    }
}

pub open spec fn int_param_if(value: Option<i64>) -> Seq<SqlValueView> {
    match value {
        Some(i) => seq![SqlValueView::Integer(i)],
        None => seq![],
    }
}

/// A year bound as an SQL integer.
pub open spec fn year_param(y: Option<i32>) -> Option<i64> {
    match y {
        Some(v) => Some(v as i64),
        None => None,
    }
}

/// A length bound as whole milliseconds (cast like `as i64`).
pub open spec fn millis_param(d: Option<Duration>) -> Option<i64> {
    match d {
        Some(v) => Some((v@ / (NANOS_PER_MILLI as nat)) as i64),
        None => None,
    }
}

/// A tempo bound as an SQL integer.
pub open spec fn bpm_param(b: Option<u32>) -> Option<i64> {
    match b {
        Some(v) => Some(v as i64),
        None => None,
    }
}

impl TrackQuery {
    /// The `WHERE` conditions of the query, in order; they are joined with `AND`.
    pub open spec fn spec_clauses(self) -> Seq<Seq<char>> {
        clause_if(self.text is Some, TEXT_CLAUSE) + clause_if(self.artist is Some, ARTIST_CLAUSE)
            + clause_if(self.album is Some, ALBUM_CLAUSE) + clause_if(self.genre is Some, GENRE_CLAUSE)
            + clause_if(self.year is Some, YEAR_CLAUSE) + clause_if(
            self.min_duration is Some,
            MIN_DURATION_CLAUSE,
        ) + clause_if(self.max_duration is Some, MAX_DURATION_CLAUSE) + clause_if(
            self.min_bpm is Some,
            MIN_BPM_CLAUSE,
        ) + clause_if(self.max_bpm is Some, MAX_BPM_CLAUSE)
    }

    /// The values bound to the placeholders, in order: the text pattern five times (title,
    /// artist, album, genre, path), then one value per other filter that is set. Lengths
    /// are bound in whole milliseconds.
    pub open spec fn spec_params(self) -> Seq<SqlValueView> {
        search_params_if(self.text) + text_param_if(self.artist) + text_param_if(self.album) + text_param_if(self.genre)
            + int_param_if(year_param(self.year)) + int_param_if(millis_param(self.min_duration))
            + int_param_if(millis_param(self.max_duration)) + int_param_if(bpm_param(self.min_bpm))
            + int_param_if(bpm_param(self.max_bpm))
    }

    /// The full statement: selection, `WHERE` clause (when any filter is set), ordering
    /// (by play count first when asked) and `LIMIT` (when set).
    pub open spec fn spec_sql(self) -> Seq<char> {
        let clauses = self.spec_clauses();
        let where_clause = if clauses.len() == 0 {
            Seq::<char>::empty()
        } else {
            " WHERE "@ + join(clauses, " AND "@)
        };
        let order_by = if self.sort_by_play_count {
            ORDER_BY_PLAY_COUNT@
        } else {
            ORDER_BY_ARTIST@
        };
        let limit = match self.limit {
            Some(n) => " LIMIT "@ + crate::text::decimal(n as nat),
            None => Seq::<char>::empty(),
        };
        SELECT_TRACKS@ + where_clause + " "@ + order_by + limit
    }

    /// The `WHERE` conditions and their bound values for these filters.
    fn filter_parts(&self) -> (r: (Vec<&'static str>, Vec<SqlValue>))
        ensures
            clause_views(r.0@) == self.spec_clauses(),
            param_views(r.1@) == self.spec_params(),
    {
        let mut clauses: Vec<&'static str> = Vec::new();
        let mut params: Vec<SqlValue> = Vec::new();
        if let Some(text) = &self.text {
            clauses.push(TEXT_CLAUSE);
            let pattern = like(text.as_str());
            params.push(SqlValue::Text(pattern.clone()));
            params.push(SqlValue::Text(pattern.clone()));
            params.push(SqlValue::Text(pattern.clone()));
            params.push(SqlValue::Text(pattern.clone()));
            params.push(SqlValue::Text(pattern));
        }
        assert(param_views(params@) =~= search_params_if(self.text));
        assert(clause_views(clauses@) =~= clause_if(self.text is Some, TEXT_CLAUSE));
        push_text_filter(&mut clauses, &mut params, ARTIST_CLAUSE, &self.artist);
        push_text_filter(&mut clauses, &mut params, ALBUM_CLAUSE, &self.album);
        push_text_filter(&mut clauses, &mut params, GENRE_CLAUSE, &self.genre);
        let year: Option<i64> = match self.year {
            Some(y) => Some(y as i64),
            None => None,
        };
        assert(year == year_param(self.year));
        push_int_filter(&mut clauses, &mut params, YEAR_CLAUSE, year);
        let min_ms: Option<i64> = match self.min_duration {
            Some(d) => Some(d.as_millis() as i64),
            None => None,
        };
        assert(min_ms == millis_param(self.min_duration));
        push_int_filter(&mut clauses, &mut params, MIN_DURATION_CLAUSE, min_ms);
        let max_ms: Option<i64> = match self.max_duration {
            Some(d) => Some(d.as_millis() as i64),
            None => None,
        };
        assert(max_ms == millis_param(self.max_duration));
        push_int_filter(&mut clauses, &mut params, MAX_DURATION_CLAUSE, max_ms);
        let min_bpm: Option<i64> = match self.min_bpm {
            Some(b) => Some(b as i64),
            None => None,
        };
        push_int_filter(&mut clauses, &mut params, MIN_BPM_CLAUSE, min_bpm);
        let max_bpm: Option<i64> = match self.max_bpm {
            Some(b) => Some(b as i64),
            None => None,
        };
        push_int_filter(&mut clauses, &mut params, MAX_BPM_CLAUSE, max_bpm);
        (clauses, params)
    }

    /// Composes the playlist query for these filters.
    pub fn to_sql(&self) -> (q: SqlQuery)
        ensures
            q.sql@ == self.spec_sql(),
            param_views(q.params@) == self.spec_params(),
    {
        let (clauses, params) = self.filter_parts();
        let mut sql = String::new();
        sql.append(SELECT_TRACKS);
        if clauses.len() > 0 {
            sql.append(" WHERE ");
            let joined = join_clauses(&clauses);
            sql.append(joined.as_str());
        }
        sql.append(" ");
        if self.sort_by_play_count {
            sql.append(ORDER_BY_PLAY_COUNT);
        } else {
            sql.append(ORDER_BY_ARTIST);
        }
        if let Some(n) = self.limit {
            sql.append(" LIMIT ");
            let digits = crate::text::u64_to_string(n as u64);
            sql.append(digits.as_str());
        }
        assert(sql@ =~= self.spec_sql());
        SqlQuery { sql, params }
    }
}

/// What a `WHERE` condition binds to its placeholders, read off the condition's text: the
/// search pattern once for each of the five searched columns, a `LIKE` pattern for a text
/// field, the number for a comparison (a length in whole milliseconds).
pub open spec fn clause_binds(q: TrackQuery, c: Seq<char>) -> Seq<SqlValueView> {
    if c == TEXT_CLAUSE@ {
        match q.text {
            Some(t) => {
                let v = SqlValueView::Text("%"@ + t@ + "%"@);
                seq![v, v, v, v, v]
            },
            None => seq![],
        }
    } else if c == ARTIST_CLAUSE@ {
        match q.artist {
            Some(a) => seq![SqlValueView::Text("%"@ + a@ + "%"@)],
            None => seq![],
        }
    } else if c == ALBUM_CLAUSE@ {
        match q.album {
            Some(a) => seq![SqlValueView::Text("%"@ + a@ + "%"@)],
            None => seq![],
        }
    } else if c == GENRE_CLAUSE@ {
        match q.genre {
            Some(g) => seq![SqlValueView::Text("%"@ + g@ + "%"@)],
            None => seq![],
        }
    } else if c == YEAR_CLAUSE@ {
        match q.year {
            Some(y) => seq![SqlValueView::Integer(y as i64)],
            None => seq![],
        }
    } else if c == MIN_DURATION_CLAUSE@ {
        match q.min_duration {
            Some(d) => seq![SqlValueView::Integer((d@ / 1_000_000) as i64)],
            None => seq![],
        }
    } else if c == MAX_DURATION_CLAUSE@ {
        match q.max_duration {
            Some(d) => seq![SqlValueView::Integer((d@ / 1_000_000) as i64)],
            None => seq![],
        }
    } else if c == MIN_BPM_CLAUSE@ {
        match q.min_bpm {
            Some(b) => seq![SqlValueView::Integer(b as i64)],
            None => seq![],
        }
    } else if c == MAX_BPM_CLAUSE@ {
        match q.max_bpm {
            Some(b) => seq![SqlValueView::Integer(b as i64)],
            None => seq![],
        }
    } else {
        seq![]
    }
}

/// The values the conditions `cs` bind, condition after condition.
pub open spec fn binds_in_order(q: TrackQuery, cs: Seq<Seq<char>>) -> Seq<SqlValueView>
    decreases cs.len(),
{
    if cs.len() == 0 {
        seq![]
    } else {
        binds_in_order(q, cs.drop_last()) + clause_binds(q, cs.last())
    }
}

proof fn lemma_binds_concat(q: TrackQuery, a: Seq<Seq<char>>, b: Seq<Seq<char>>)
    ensures
        binds_in_order(q, a + b) == binds_in_order(q, a) + binds_in_order(q, b),
    decreases b.len(),
{
    if b.len() == 0 {
        assert(a + b =~= a);
        assert(binds_in_order(q, a) + seq![] =~= binds_in_order(q, a));
    } else {
        assert((a + b).drop_last() =~= a + b.drop_last());
        assert((a + b).last() == b.last());
        lemma_binds_concat(q, a, b.drop_last());
        assert(binds_in_order(q, a) + binds_in_order(q, b.drop_last()) + clause_binds(q, b.last()) =~= binds_in_order(
            q,
            a,
        ) + (binds_in_order(q, b.drop_last()) + clause_binds(q, b.last())));
    }
}

proof fn lemma_binds_one(q: TrackQuery, present: bool, c: &str)
    ensures
        binds_in_order(q, clause_if(present, c)) == if present {
            clause_binds(q, c@)
        } else {
            seq![]
        },
{
    let s = clause_if(present, c);
    assert(binds_in_order(q, Seq::<Seq<char>>::empty()) == Seq::<SqlValueView>::empty());
    if present {
        assert(s.drop_last() =~= Seq::<Seq<char>>::empty());
        assert(s.last() == c@);
        assert(Seq::<SqlValueView>::empty() + clause_binds(q, c@) =~= clause_binds(q, c@));
    } else {
        assert(s =~= Seq::<Seq<char>>::empty());
    }
}

/// Each `WHERE` condition of a library query is bound to its own filter's value: the bound
/// values are those of the conditions, taken in the order the conditions appear.
pub proof fn lemma_params_follow_clauses(q: TrackQuery)
    ensures
        q.spec_params() == binds_in_order(q, q.spec_clauses()),
{
    reveal_strlit("(title LIKE ? OR artist LIKE ? OR album LIKE ? OR genre LIKE ? OR path LIKE ?)");
    reveal_strlit("artist LIKE ?");
    reveal_strlit("album LIKE ?");
    reveal_strlit("genre LIKE ?");
    reveal_strlit("year = ?");
    reveal_strlit("duration_ms >= ?");
    reveal_strlit("duration_ms <= ?");
    reveal_strlit("bpm >= ?");
    reveal_strlit("bpm <= ?");
    reveal_strlit("%");
    let c1 = clause_if(q.text is Some, TEXT_CLAUSE);
    let c2 = clause_if(q.artist is Some, ARTIST_CLAUSE);
    let c3 = clause_if(q.album is Some, ALBUM_CLAUSE);
    let c4 = clause_if(q.genre is Some, GENRE_CLAUSE);
    let c5 = clause_if(q.year is Some, YEAR_CLAUSE);
    let c6 = clause_if(q.min_duration is Some, MIN_DURATION_CLAUSE);
    let c7 = clause_if(q.max_duration is Some, MAX_DURATION_CLAUSE);
    let c8 = clause_if(q.min_bpm is Some, MIN_BPM_CLAUSE);
    let c9 = clause_if(q.max_bpm is Some, MAX_BPM_CLAUSE);
    lemma_binds_concat(q, c1 + c2 + c3 + c4 + c5 + c6 + c7 + c8, c9);
    lemma_binds_concat(q, c1 + c2 + c3 + c4 + c5 + c6 + c7, c8);
    lemma_binds_concat(q, c1 + c2 + c3 + c4 + c5 + c6, c7);
    lemma_binds_concat(q, c1 + c2 + c3 + c4 + c5, c6);
    lemma_binds_concat(q, c1 + c2 + c3 + c4, c5);
    lemma_binds_concat(q, c1 + c2 + c3, c4);
    lemma_binds_concat(q, c1 + c2, c3);
    lemma_binds_concat(q, c1, c2);
    lemma_binds_one(q, q.text is Some, TEXT_CLAUSE);
    lemma_binds_one(q, q.artist is Some, ARTIST_CLAUSE);
    lemma_binds_one(q, q.album is Some, ALBUM_CLAUSE);
    lemma_binds_one(q, q.genre is Some, GENRE_CLAUSE);
    lemma_binds_one(q, q.year is Some, YEAR_CLAUSE);
    lemma_binds_one(q, q.min_duration is Some, MIN_DURATION_CLAUSE);
    lemma_binds_one(q, q.max_duration is Some, MAX_DURATION_CLAUSE);
    lemma_binds_one(q, q.min_bpm is Some, MIN_BPM_CLAUSE);
    lemma_binds_one(q, q.max_bpm is Some, MAX_BPM_CLAUSE);
    assert(TEXT_CLAUSE@.len() == 78 && ARTIST_CLAUSE@.len() == 13);
    assert(ALBUM_CLAUSE@.len() == 12 && GENRE_CLAUSE@.len() == 12);
    assert(GENRE_CLAUSE@[0] != ALBUM_CLAUSE@[0]);
    assert(MIN_DURATION_CLAUSE@.len() == 16 && MAX_DURATION_CLAUSE@.len() == 16);
    assert(MIN_DURATION_CLAUSE@[12] != MAX_DURATION_CLAUSE@[12]);
    assert(MIN_BPM_CLAUSE@.len() == 8 && MAX_BPM_CLAUSE@.len() == 8 && YEAR_CLAUSE@.len() == 8);
    assert(MIN_BPM_CLAUSE@[0] != YEAR_CLAUSE@[0] && MAX_BPM_CLAUSE@[0] != YEAR_CLAUSE@[0]);
    assert(MIN_BPM_CLAUSE@[4] != MAX_BPM_CLAUSE@[4]);
    assert(q.spec_params() =~= binds_in_order(q, q.spec_clauses()));
}

/// The texts of a list of clauses.
pub open spec fn clause_views(s: Seq<&'static str>) -> Seq<Seq<char>> {
    s.map_values(|c: &'static str| c@)
}

/// The views of a list of bound values.
pub open spec fn param_views(s: Seq<SqlValue>) -> Seq<SqlValueView> {
    s.map_values(|v: SqlValue| v@)
}

/// `parts` joined with `sep` between neighbours.
pub open spec fn join(parts: Seq<Seq<char>>, sep: Seq<char>) -> Seq<char>
    decreases parts.len(),
{
    if parts.len() == 0 {
        Seq::empty()
    } else if parts.len() == 1 {
        parts[0]
    } else {
        join(parts.drop_last(), sep) + sep + parts.last()
    }
}

fn like(text: &str) -> (p: String)
    ensures
        p@ == like_pattern(text@),
{
    let mut p = String::new();
    p.append("%");
    p.append(text);
    p.append("%");
    p
}

fn push_text_filter(
    clauses: &mut Vec<&'static str>,
    params: &mut Vec<SqlValue>,
    clause: &'static str,
    value: &Option<String>,
)
    ensures
        clause_views(final(clauses)@) == clause_views(old(clauses)@)
            + clause_if(value is Some, clause),
        param_views(final(params)@) == param_views(old(params)@)
            + text_param_if(*value),
{
    if let Some(v) = value {
        clauses.push(clause);
        params.push(SqlValue::Text(like(v.as_str())));
    }
    assert(clause_views(final(clauses)@) =~= clause_views(old(clauses)@)
        + clause_if(value is Some, clause));
    assert(param_views(final(params)@) =~= param_views(old(params)@)
        + text_param_if(*value));
}

fn push_int_filter(
    clauses: &mut Vec<&'static str>,
    params: &mut Vec<SqlValue>,
    clause: &'static str,
    value: Option<i64>,
)
    ensures
        clause_views(final(clauses)@) == clause_views(old(clauses)@)
            + clause_if(value is Some, clause),
        param_views(final(params)@) == param_views(old(params)@)
            + int_param_if(value),
{
    if let Some(v) = value {
        clauses.push(clause);
        params.push(SqlValue::Integer(v));
    }
    assert(clause_views(final(clauses)@) =~= clause_views(old(clauses)@)
        + clause_if(value is Some, clause));
    assert(param_views(final(params)@) =~= param_views(old(params)@)
        + int_param_if(value));
}

fn join_clauses(clauses: &Vec<&'static str>) -> (s: String)
    requires
        clauses@.len() > 0,
    ensures
        s@ == join(clause_views(clauses@), " AND "@),
{
    let ghost parts = clause_views(clauses@);
    let mut s = String::new();
    s.append(clauses[0]);
    let mut i: usize = 1;
    assert(parts.take(1).len() == 1);
    assert(join(parts.take(1), " AND "@) == parts[0]);
    while i < clauses.len()
        invariant
            1 <= i <= clauses@.len(),
            parts == clause_views(clauses@),
            s@ == join(parts.take(i as int), " AND "@),
        decreases clauses@.len() - i,
    {
        s.append(" AND ");
        s.append(clauses[i]);
        assert(parts.take(i as int + 1).drop_last() =~= parts.take(i as int));
        i = i + 1;
    }
    assert(parts.take(clauses@.len() as int) =~= parts);
    s
}

} // verus!
