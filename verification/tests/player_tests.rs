use kanono::duration::Duration;
use kanono::filters::{BpmFilter, DurationFilter, FilterState, NavTab};
use kanono::folder_tree::{build_folder_tree, format_duration, FolderTree};
use kanono::library::LibraryTrack;
use kanono::player::{
    aligned_sample_offset, analysis_target, choose_next_track, choose_previous_track, counts_as_play,
    finished_by_duration, folder_track_ids, most_played_ids, peek_next_track_id, refresh_visible,
    remove_from_queue, select_all_visible, selected_visible_ids, set_track_play_count, sort_by_plays,
    toggle_folder, toggle_id, toggle_playback_action, track_finished, window_title, NextTrack,
    PreviousTrack, ToggleAction,
};
use kanono::playback_state::TrackMetadata;

fn track(id: i64, path: &str, title: &str, artist: &str, plays: u32) -> LibraryTrack {
    LibraryTrack {
        id,
        path: path.to_string(),
        title: title.to_string(),
        artist: artist.to_string(),
        album: String::new(),
        genre: String::new(),
        year: None,
        track_number: None,
        duration: None,
        play_count: plays,
        bpm: None,
    }
}

fn full_track(
    id: i64,
    path: &str,
    title: &str,
    artist: &str,
    album: &str,
    genre: &str,
    year: i32,
    secs: u64,
    plays: u32,
    bpm: u32,
    number: i32,
) -> LibraryTrack {
    LibraryTrack {
        id,
        path: path.to_string(),
        title: title.to_string(),
        artist: artist.to_string(),
        album: album.to_string(),
        genre: genre.to_string(),
        year: Some(year),
        track_number: Some(number),
        duration: Some(Duration::from_secs(secs)),
        play_count: plays,
        bpm: Some(bpm),
    }
}

#[test]
fn test_nav_tab_default() {
    assert_eq!(NavTab::default(), NavTab::Library);
}

#[test]
fn test_seeking_calculation_and_alignment() {
    let duration = Duration::from_secs(180);
    let sample_rate = 48_000usize;
    let channels = 2usize;
    let total_samples = 180 * sample_rate * channels;

    let fraction = 0.5f32;
    let target_secs = duration.as_secs() as f64 * (fraction.clamp(0.0, 1.0) as f64);
    let target_duration = Duration::from_secs(target_secs as u64);
    assert_eq!(target_duration, Duration::from_secs(90));

    let raw_offset = (target_secs * sample_rate as f64 * channels as f64) as usize;
    let sample_offset = aligned_sample_offset(raw_offset, total_samples, channels);
    assert_eq!(sample_offset % channels, 0);
    assert_eq!(sample_offset, 90 * 48000 * 2);
}

#[test]
fn test_track_finished_detection_logic() {
    let total_frames = 48000 * 180u64;
    let played_frames = total_frames;
    let queue_empty = true;
    let sample_rate = 48000u64;

    assert!(track_finished(total_frames, played_frames, queue_empty, sample_rate));

    let played_half = total_frames / 2;
    assert!(!track_finished(total_frames, played_half, queue_empty, sample_rate));

    let played_near_eof = total_frames - 2000;
    assert!(track_finished(total_frames, played_near_eof, queue_empty, sample_rate));
}

#[test]
fn test_filter_state_matching() {
    let mut filter = FilterState::default();
    assert!(!filter.is_any_active());

    filter.duration = Some(DurationFilter::Short);
    assert!(filter.is_any_active());
    assert!(filter.duration.unwrap().matches(Some(Duration::from_secs(90))));
    assert!(!filter.duration.unwrap().matches(Some(Duration::from_secs(200))));

    filter.bpm = Some(BpmFilter::Fast);
    assert!(filter.bpm.unwrap().matches(Some(130)));
    assert!(!filter.bpm.unwrap().matches(Some(80)));

    filter.clear();
    assert!(!filter.is_any_active());
}

fn tree_tracks() -> Vec<LibraryTrack> {
    vec![
        full_track(1, "/music/Rock/Queen/Bohemian.mp3", "Bohemian", "Queen", "Opera", "Rock", 1975, 354, 10, 72, 1),
        full_track(2, "/music/Rock/Queen/RadioGaGa.mp3", "Radio Ga Ga", "Queen", "Works", "Rock", 1984, 348, 5, 112, 2),
        full_track(3, "/music/Jazz/Miles/SoWhat.mp3", "So What", "Miles Davis", "Kind of Blue", "Jazz", 1959, 562, 8, 136, 1),
    ]
}

#[test]
fn test_folder_tree_hierarchical_building() {
    let tracks = tree_tracks();
    let tree = build_folder_tree(&tracks);
    assert!(!tree.roots.is_empty());
    let total_tracks: usize = tree.roots.iter().map(|&r| tree.nodes[r].track_count).sum();
    assert_eq!(total_tracks, 3);
}

fn child_names(tree: &FolderTree, node: usize) -> Vec<String> {
    tree.nodes[node].children.iter().map(|&c| tree.nodes[c].name.clone()).collect()
}

#[test]
fn folder_tree_skips_empty_top_levels_and_sorts_by_name() {
    let tracks = tree_tracks();
    let tree = build_folder_tree(&tracks);
    // "/" holds nothing directly, and "/music" is where the tree branches.
    assert_eq!(tree.roots.len(), 1);
    let root = tree.roots[0];
    assert_eq!(tree.nodes[root].name, "music");
    assert_eq!(tree.nodes[root].path, "/music");
    assert_eq!(tree.nodes[root].track_count, 3);
    assert_eq!(child_names(&tree, root), vec!["Jazz".to_string(), "Rock".to_string()]);
    let rock = tree.nodes[root].children[1];
    assert_eq!(tree.nodes[rock].track_count, 2);
    let queen = tree.nodes[rock].children[0];
    assert_eq!(tree.nodes[queen].name, "Queen");
    assert_eq!(tree.nodes[queen].path, "/music/Rock/Queen");
    assert!(tree.nodes[queen].children.is_empty());
}

#[test]
fn folder_tree_of_no_tracks_is_empty() {
    let tree = build_folder_tree(&Vec::new());
    assert!(tree.nodes.is_empty());
    assert!(tree.roots.is_empty());
}

#[test]
fn folder_tree_orders_names_ignoring_case() {
    let tracks = vec![
        track(1, "/lib/beta/a.mp3", "a", "", 0),
        track(2, "/lib/Alpha/b.mp3", "b", "", 0),
        track(3, "/lib/gamma/c.mp3", "c", "", 0),
    ];
    let tree = build_folder_tree(&tracks);
    assert_eq!(tree.roots.len(), 1);
    let root = tree.roots[0];
    assert_eq!(
        child_names(&tree, root),
        vec!["Alpha".to_string(), "beta".to_string(), "gamma".to_string()]
    );
}

#[test]
fn format_duration_labels() {
    assert_eq!(format_duration(Duration::from_secs(0)), "00:00");
    assert_eq!(format_duration(Duration::from_secs(354)), "05:54");
    assert_eq!(format_duration(Duration::from_secs(3600 + 62)), "1:01:02");
    assert_eq!(format_duration(Duration::from_millis(59_999)), "00:59");
}

fn library() -> Vec<LibraryTrack> {
    vec![
        track(10, "/m/a.mp3", "Alpha", "Zed", 3),
        track(20, "/m/b.mp3", "Beta", "Amy", 7),
        track(30, "/m/c.mp3", "Gamma", "Bob", 7),
    ]
}

#[test]
fn next_track_prefers_repeat_then_queue_then_playlist() {
    let all = library();
    let visible = Vec::new();
    let mut queue = vec![30];
    assert_eq!(choose_next_track(true, Some(10), &mut queue, &visible, &all, false), NextTrack::Play(10));
    assert_eq!(queue, vec![30]);
    assert_eq!(choose_next_track(false, Some(10), &mut queue, &visible, &all, false), NextTrack::Play(30));
    assert!(queue.is_empty());
    assert_eq!(choose_next_track(false, Some(10), &mut queue, &visible, &all, false), NextTrack::Play(20));
    // wraps around at the end of the playlist
    assert_eq!(choose_next_track(false, Some(30), &mut queue, &visible, &all, false), NextTrack::Play(10));
    assert_eq!(choose_next_track(false, Some(20), &mut queue, &visible, &all, true), NextTrack::Shuffle(3));
    assert_eq!(choose_next_track(false, None, &mut queue, &Vec::new(), &Vec::new(), false), NextTrack::Nothing);
}

#[test]
fn peek_next_agrees_with_the_choice() {
    let all = library();
    let visible = vec![library().remove(2), library().remove(0)];
    let queue: Vec<i64> = Vec::new();
    assert_eq!(peek_next_track_id(false, Some(30), &queue, &visible, &all, false), Some(10));
    assert_eq!(peek_next_track_id(false, Some(10), &queue, &visible, &all, false), Some(30));
    assert_eq!(peek_next_track_id(false, Some(10), &queue, &visible, &all, true), None);
    assert_eq!(peek_next_track_id(false, Some(10), &vec![20], &visible, &all, true), Some(20));
    let mut q = queue.clone();
    assert_eq!(choose_next_track(false, Some(30), &mut q, &visible, &all, false), NextTrack::Play(10));
}

#[test]
fn previous_track_restarts_after_three_seconds() {
    let all = library();
    let visible = Vec::new();
    assert_eq!(
        choose_previous_track(Duration::from_secs(5), Some(20), &visible, &all),
        PreviousTrack::Restart
    );
    assert_eq!(
        choose_previous_track(Duration::from_secs(1), Some(20), &visible, &all),
        PreviousTrack::Play(10)
    );
    assert_eq!(
        choose_previous_track(Duration::from_secs(1), Some(10), &visible, &all),
        PreviousTrack::Play(30)
    );
    assert_eq!(
        choose_previous_track(Duration::from_secs(1), None, &Vec::new(), &Vec::new()),
        PreviousTrack::Nothing
    );
}

#[test]
fn toggle_playback_decides_by_state() {
    let all = library();
    assert_eq!(toggle_playback_action(true, Some(10), &Vec::new(), &all), ToggleAction::Pause);
    assert_eq!(toggle_playback_action(false, Some(10), &Vec::new(), &all), ToggleAction::Resume);
    assert_eq!(toggle_playback_action(false, None, &Vec::new(), &all), ToggleAction::Play(10));
    assert_eq!(toggle_playback_action(false, None, &Vec::new(), &Vec::new()), ToggleAction::Nothing);
}

#[test]
fn finishing_and_counting_plays() {
    assert!(finished_by_duration(Some(Duration::from_secs(10)), Duration::from_secs(10)));
    assert!(!finished_by_duration(Some(Duration::from_secs(10)), Duration::from_secs(9)));
    assert!(!finished_by_duration(None, Duration::from_secs(1000)));
    assert!(counts_as_play(Duration::from_secs(10)));
    assert!(!counts_as_play(Duration::from_millis(9_999)));
    assert!(!track_finished(0, 0, true, 48_000));
}

#[test]
fn seek_offset_is_capped_and_aligned() {
    assert_eq!(aligned_sample_offset(1001, 5000, 2), 1000);
    assert_eq!(aligned_sample_offset(9999, 5001, 2), 5000);
    assert_eq!(aligned_sample_offset(7, 100, 3), 6);
}

#[test]
fn most_played_orders_by_count_then_title() {
    let all = library();
    let sorted = sort_by_plays(&all, true);
    let ids: Vec<i64> = sorted.iter().map(|t| t.id).collect();
    assert_eq!(ids, vec![20, 30, 10]);
    assert_eq!(most_played_ids(&all), vec![20, 30, 10]);
    // without the title order, equal counts keep their library order
    let mut reversed = library();
    reversed.reverse();
    let ids: Vec<i64> = sort_by_plays(&reversed, false).iter().map(|t| t.id).collect();
    assert_eq!(ids, vec![30, 20, 10]);
}

#[test]
fn selection_toggles_and_selects_visible() {
    let mut sel = vec![10];
    toggle_id(&mut sel, 20);
    assert_eq!(sel, vec![10, 20]);
    toggle_id(&mut sel, 10);
    assert_eq!(sel, vec![20]);
    let visible = library();
    select_all_visible(&mut sel, &visible);
    let mut sorted = sel.clone();
    sorted.sort();
    assert_eq!(sorted, vec![10, 20, 30]);
    // everything visible is selected: a second press clears the selection
    select_all_visible(&mut sel, &visible);
    assert!(sel.is_empty());
    assert_eq!(selected_visible_ids(&visible, &vec![30, 99, 10]), vec![10, 30]);
}

#[test]
fn queue_and_folder_helpers() {
    let mut q = vec![1, 2, 3];
    remove_from_queue(&mut q, 1);
    assert_eq!(q, vec![1, 3]);
    remove_from_queue(&mut q, 5);
    assert_eq!(q, vec![1, 3]);
    let mut expanded = vec!["/a".to_string()];
    toggle_folder(&mut expanded, "/b".to_string());
    assert_eq!(expanded, vec!["/a".to_string(), "/b".to_string()]);
    toggle_folder(&mut expanded, "/a".to_string());
    assert_eq!(expanded, vec!["/b".to_string()]);
    let all = vec![track(1, "/x/y/a.mp3", "a", "", 0), track(2, "/x/z.mp3", "b", "", 0), track(3, "/xy/c.mp3", "c", "", 0)];
    assert_eq!(folder_track_ids(&all, "/x"), vec![1, 2]);
    assert_eq!(folder_track_ids(&all, "/x/y"), vec![1]);
}

#[test]
fn play_counts_and_analysis_target() {
    let mut all = library();
    set_track_play_count(&mut all, 20, 42);
    assert_eq!(all[1].play_count, 42);
    assert_eq!(all[0].play_count, 3);
    assert_eq!(analysis_target(Some(1), Some(2), Some(3)), Some(1));
    assert_eq!(analysis_target(None, Some(2), Some(3)), Some(2));
    assert_eq!(analysis_target(None, None, Some(3)), Some(3));
    assert_eq!(analysis_target(None, None, None), None);
}

#[test]
fn visible_tracks_follow_search_and_filters() {
    let mut all = library();
    all[0].duration = Some(Duration::from_secs(100));
    all[1].duration = Some(Duration::from_secs(400));
    let filters = FilterState::default();
    let found = refresh_visible(&all, NavTab::Library, &None, &filters, &"amy".to_string());
    assert_eq!(found.iter().map(|t| t.id).collect::<Vec<_>>(), vec![20]);
    let mut short = FilterState::default();
    short.duration = Some(DurationFilter::Short);
    let found = refresh_visible(&all, NavTab::Library, &None, &short, &String::new());
    assert_eq!(found.iter().map(|t| t.id).collect::<Vec<_>>(), vec![10]);
}

#[test]
fn window_title_names_the_track() {
    let meta = TrackMetadata {
        title: "Song".to_string(),
        artist: "Band".to_string(),
        album: String::new(),
        duration: None,
    };
    assert_eq!(window_title(&meta), "Kanono Media Player - Band - Song");
    let idle = TrackMetadata::default();
    assert_eq!(window_title(&idle), "Kanono Media Player - Ready");
}

#[test]
fn folder_tree_breaks_name_ties_by_path_order() {
    let tracks = vec![
        track(1, "/lib/beta/a.mp3", "a", "", 0),
        track(2, "/lib/Beta/b.mp3", "b", "", 0),
        track(3, "/lib/zeta/c.mp3", "c", "", 0),
    ];
    let tree = build_folder_tree(&tracks);
    let root = tree.roots[0];
    assert_eq!(tree.nodes[root].path, "/lib");
    let paths: Vec<String> = tree.nodes[root].children.iter().map(|&c| tree.nodes[c].path.clone()).collect();
    assert_eq!(paths, vec!["/lib/Beta".to_string(), "/lib/beta".to_string(), "/lib/zeta".to_string()]);
}

#[test]
fn folder_tree_skips_single_child_chain_to_the_branching_folder() {
    let tracks = vec![track(1, "/a/b/x.mp3", "x", "", 0), track(2, "/a/b/y.mp3", "y", "", 0)];
    let tree = build_folder_tree(&tracks);
    // "/" and "/a" hold nothing directly and have one subfolder each.
    assert_eq!(tree.roots.len(), 1);
    let root = tree.roots[0];
    assert_eq!(tree.nodes[root].name, "b");
    assert_eq!(tree.nodes[root].path, "/a/b");
    assert_eq!(tree.nodes[root].track_count, 2);
    assert!(tree.nodes[root].children.is_empty());
    assert_eq!(tree.nodes.len(), 1);
}

#[test]
fn folder_tree_stops_skipping_at_a_folder_with_tracks() {
    let tracks = vec![
        track(1, "/a/top.mp3", "t", "", 0),
        track(2, "/a/b/c/deep.mp3", "d", "", 0),
    ];
    let tree = build_folder_tree(&tracks);
    assert_eq!(tree.roots.len(), 1);
    let root = tree.roots[0];
    assert_eq!(tree.nodes[root].path, "/a");
    assert_eq!(tree.nodes[root].track_count, 2);
    // Below a top-level node every folder gets a node, single child or not.
    assert_eq!(child_names(&tree, root), vec!["b".to_string()]);
    let b = tree.nodes[root].children[0];
    assert_eq!(tree.nodes[b].track_count, 1);
    assert_eq!(child_names(&tree, b), vec!["c".to_string()]);
    let mut paths: Vec<&str> = tree.nodes.iter().map(|n| n.path.as_str()).collect();
    paths.sort();
    paths.dedup();
    assert_eq!(paths.len(), tree.nodes.len());
}

#[test]
fn folder_tree_orders_equal_names_by_path() {
    let tracks = vec![track(1, "/lib/rock/a.mp3", "a", "", 0), track(2, "/lib/Rock/b.mp3", "b", "", 0)];
    let tree = build_folder_tree(&tracks);
    assert_eq!(tree.roots.len(), 1);
    let root = tree.roots[0];
    assert_eq!(tree.nodes[root].path, "/lib");
    let kids: Vec<String> = tree.nodes[root].children.iter().map(|&c| tree.nodes[c].path.clone()).collect();
    assert_eq!(kids, vec!["/lib/Rock".to_string(), "/lib/rock".to_string()]);
}

#[test]
fn folder_tree_orders_equal_top_level_names_by_start() {
    let tracks = vec![track(1, "/y/music/b.mp3", "b", "", 0), track(2, "/x/Music/a.mp3", "a", "", 0)];
    let tree = build_folder_tree(&tracks);
    let roots: Vec<String> = tree.roots.iter().map(|&r| tree.nodes[r].path.clone()).collect();
    assert_eq!(roots, vec!["/x/Music".to_string(), "/y/music".to_string()]);
}
