//! Navigation tabs and the sidebar's library filters.
use vstd::prelude::*;

use crate::duration::{Duration, NANOS_PER_SEC};

verus! {

/// The main view currently shown.
#[derive(Debug, Clone, Copy, PartialEq, Eq, Structural)]
pub enum NavTab {
    Library,
    MostPlayed,
    Queue,
    Folders,
    Info,
}

impl Default for NavTab {
    fn default() -> (tab: NavTab)
        ensures
            tab == NavTab::Library,
    {
        NavTab::Library
    }
}

/// The tab shown after the view is cleared: the queue and information tabs stay, every
/// other view returns to the library.
pub fn tab_after_clear(tab: NavTab) -> (t: NavTab)
    ensures
        t == (if tab == NavTab::Queue || tab == NavTab::Info {
            tab
        } else {
            NavTab::Library
        }),
{
    if tab == NavTab::Queue || tab == NavTab::Info {
        tab
    } else {
        NavTab::Library
    }
}

/// Switches the view to `tab`: the library tab drops the folder selection. Returns whether
/// the visible tracks must be recomputed (library and most-played tabs).
pub fn select_tab(tab: NavTab, folder: &mut Option<String>) -> (refresh: bool)
    ensures
        refresh == (tab == NavTab::Library || tab == NavTab::MostPlayed),
        tab == NavTab::Library ==> *final(folder) is None,
        tab != NavTab::Library ==> *final(folder) == *old(folder),
{
    if tab == NavTab::Library {
        *folder = None;
        true
    } else {
        tab == NavTab::MostPlayed
    }
}

/// The filter group expanded in the sidebar.
#[derive(Debug, Clone, Copy, PartialEq, Eq, Structural)]
pub enum FilterCategory {
    All,
    Artists,
    Albums,
    Genres,
    Folders,
    Duration,
    Year,
    Bpm,
}

impl Default for FilterCategory {
    fn default() -> (category: FilterCategory)
        ensures
            category == FilterCategory::All,
    {
        FilterCategory::All
    }
}

/// Track-length bands offered as filters.
#[derive(Debug, Clone, Copy, PartialEq, Eq, Structural)]
pub enum DurationFilter {
    /// Under two minutes.
    Short,
    /// Two minutes up to (not including) four.
    Medium,
    /// Four minutes up to (not including) six.
    Long,
    /// Six minutes or more.
    ExtraLong,
}

impl DurationFilter {
    /// Whether a track of `secs` whole seconds falls in this band.
    pub open spec fn contains_secs(self, secs: nat) -> bool {
        match self {
            DurationFilter::Short => secs < 120,
            DurationFilter::Medium => 120 <= secs && secs < 240,
            DurationFilter::Long => 240 <= secs && secs < 360,
            DurationFilter::ExtraLong => secs >= 360,
        }
    }

    /// Whether a track with length `d` passes this filter; an unknown length never does.
    pub open spec fn spec_matches(self, d: Option<Duration>) -> bool {
        match d {
            None => false,
            Some(d) => self.contains_secs(d@ / (NANOS_PER_SEC as nat)),
        }
    }

    /// The text a duration band is shown by.
    pub open spec fn spec_label(self) -> Seq<char> {
        match self {
            DurationFilter::Short => "< 2 min"@,
            DurationFilter::Medium => "2 - 4 min"@,
            DurationFilter::Long => "4 - 6 min"@,
            DurationFilter::ExtraLong => "> 6 min"@,
        }
    }

    pub fn label(&self) -> (s: &'static str)
        ensures
            s@ == self.spec_label(),
    {
        match self {
            DurationFilter::Short => "< 2 min",
            DurationFilter::Medium => "2 - 4 min",
            DurationFilter::Long => "4 - 6 min",
            DurationFilter::ExtraLong => "> 6 min",
        }
    }

    pub fn matches(&self, d: Option<Duration>) -> (m: bool)
        ensures
            m == self.spec_matches(d),
    {
        match d {
            None => false,
            Some(d) => {
                let s = d.as_secs();
                match self {
                    DurationFilter::Short => s < 120,
                    DurationFilter::Medium => 120 <= s && s < 240,
                    DurationFilter::Long => 240 <= s && s < 360,
                    DurationFilter::ExtraLong => s >= 360,
                }
            },
        }
    }
}

/// Tempo bands offered as filters.
#[derive(Debug, Clone, Copy, PartialEq, Eq, Structural)]
pub enum BpmFilter {
    /// Under 90 BPM.
    Slow,
    /// 90 to 120 BPM inclusive.
    Medium,
    /// 121 to 140 BPM inclusive.
    Fast,
    /// Over 140 BPM.
    HighEnergy,
}

impl BpmFilter {
    /// Whether a tempo of `bpm` falls in this band.
    pub open spec fn contains_bpm(self, bpm: u32) -> bool {
        match self {
            BpmFilter::Slow => bpm < 90,
            BpmFilter::Medium => 90 <= bpm && bpm <= 120,
            BpmFilter::Fast => 121 <= bpm && bpm <= 140,
            BpmFilter::HighEnergy => bpm > 140,
        }
    }

    /// Whether a track with tempo `b` passes this filter; an unknown tempo never does.
    pub open spec fn spec_matches(self, b: Option<u32>) -> bool {
        match b {
            None => false,
            Some(b) => self.contains_bpm(b),
        }
    }

    /// The text a tempo band is shown by.
    pub open spec fn spec_label(self) -> Seq<char> {
        match self {
            BpmFilter::Slow => "< 90 (Chill)"@,
            BpmFilter::Medium => "90 - 120 (Mid)"@,
            BpmFilter::Fast => "120 - 140 (Upbeat)"@,
            BpmFilter::HighEnergy => "> 140 (Energy)"@,
        }
    }

    pub fn label(&self) -> (s: &'static str)
        ensures
            s@ == self.spec_label(),
    {
        match self {
            BpmFilter::Slow => "< 90 (Chill)",
            BpmFilter::Medium => "90 - 120 (Mid)",
            BpmFilter::Fast => "120 - 140 (Upbeat)",
            BpmFilter::HighEnergy => "> 140 (Energy)",
        }
    }

    pub fn matches(&self, b: Option<u32>) -> (m: bool)
        ensures
            m == self.spec_matches(b),
    {
        match b {
            None => false,
            Some(b) => match self {
                BpmFilter::Slow => b < 90,
                BpmFilter::Medium => 90 <= b && b <= 120,
                BpmFilter::Fast => 121 <= b && b <= 140,
                BpmFilter::HighEnergy => b > 140,
            },
        }
    }
}

/// The filters chosen in the sidebar; every `Some` narrows the visible tracks.
#[derive(Debug, Clone)]
pub struct FilterState {
    pub active_category: FilterCategory,
    pub artist: Option<String>,
    pub album: Option<String>,
    pub genre: Option<String>,
    pub duration: Option<DurationFilter>,
    pub year: Option<i32>,
    pub bpm: Option<BpmFilter>,
}

impl Default for FilterState {
    fn default() -> (f: FilterState)
        ensures
            f.active_category == FilterCategory::All,
            f.artist is None,
            f.album is None,
            f.genre is None,
            f.duration is None,
            f.year is None,
            f.bpm is None,
    {
        FilterState {
            active_category: FilterCategory::All,
            artist: None,
            album: None,
            genre: None,
            duration: None,
            year: None,
            bpm: None,
        }
    }
}

impl FilterState {
    /// Whether any value filter (not the expanded category) is set.
    pub open spec fn spec_any_active(&self) -> bool {
        ||| self.artist is Some
        ||| self.album is Some
        ||| self.genre is Some
        ||| self.duration is Some
        ||| self.year is Some
        ||| self.bpm is Some
    }

    pub fn is_any_active(&self) -> (active: bool)
        ensures
            active == self.spec_any_active(),
    {
        self.artist.is_some() || self.album.is_some() || self.genre.is_some()
            || self.duration.is_some() || self.year.is_some() || self.bpm.is_some()
    }

    /// The state `clear` leaves behind.
    pub open spec fn spec_cleared(self) -> FilterState {
        FilterState {
            active_category: FilterCategory::All,
            artist: None,
            album: None,
            genre: None,
            duration: None,
            year: None,
            bpm: None,
        }
    }

    /// Drops every value filter and collapses the sidebar back to `All`.
    pub fn clear(&mut self)
        ensures
            *final(self) == old(self).spec_cleared(),
    {
        self.artist = None;
        self.album = None;
        self.genre = None;
        self.duration = None;
        self.year = None;
        self.bpm = None;
        self.active_category = FilterCategory::All;
    }
}

/// After `clear`, no filter is active, whatever was set before.
pub proof fn lemma_clear_deactivates(f: FilterState)
    ensures
        !f.spec_cleared().spec_any_active(),
{
}

/// Length bands never overlap: a track matches at most one duration filter,
/// and every track with a known length matches exactly one.
pub proof fn lemma_duration_bands_partition(d: Duration)
    ensures
        (DurationFilter::Short.spec_matches(Some(d)) as int)
            + (DurationFilter::Medium.spec_matches(Some(d)) as int)
            + (DurationFilter::Long.spec_matches(Some(d)) as int)
            + (DurationFilter::ExtraLong.spec_matches(Some(d)) as int) == 1,
{
}

/// Tempo bands never overlap and cover every known tempo.
pub proof fn lemma_bpm_bands_partition(b: u32)
    ensures
        (BpmFilter::Slow.spec_matches(Some(b)) as int) + (BpmFilter::Medium.spec_matches(Some(b)) as int)
            + (BpmFilter::Fast.spec_matches(Some(b)) as int)
            + (BpmFilter::HighEnergy.spec_matches(Some(b)) as int) == 1,
{
}

} // verus!
