use kanono::decoding::{
    complete_frames, duration_from_samples, opus_channels, opus_sample_rate, resolve_channels,
    resolve_sample_rate, visualizer_windows,
};
use kanono::duration::Duration;
use kanono::mpris::{play_pause_command, playback_status, MprisCommand};
use kanono::output::{
    choose_sample_rate, preferred_config, ring_capacity, should_publish_position, visualizer_window,
    whole_frames, LatencyProfile, OfferedConfig, SampleFormatKind,
};
use kanono::playback_state::{frames_after_advance, frames_to_duration, PlaybackClock, TrackMetadata};
use kanono::plugin::{api_version_matches, kanono_plugin_api_version, ExampleComponent, Plugin, PLUGIN_API_VERSION};
use kanono::queue_manager::{DecodedTrack, GaplessQueueManager, QueueError};
use kanono::wav::wav_duration;

fn prepared_track(title: &str) -> DecodedTrack<f32> {
    DecodedTrack {
        metadata: TrackMetadata { title: title.to_owned(), ..TrackMetadata::default() },
        samples: vec![0.0, 0.0],
        sample_rate: 48_000,
        channels: 2,
    }
}

#[test]
fn non_final_track_requires_prepared_successor_before_starting() {
    let mut manager: GaplessQueueManager<f32> = GaplessQueueManager::new(2, 48_000);
    manager.preload_decoded(prepared_track("current")).unwrap();

    assert!(manager.start(false).is_err());

    manager.preload_decoded(prepared_track("next")).unwrap();
    let first = manager.start(false).unwrap();
    // the caller appends the returned samples to the output queue
    assert_eq!(first.samples.len(), 2);
    assert_eq!(first.metadata.title, "current");
    assert_eq!(manager.prepared_count(), 1);
}

#[test]
fn queue_manager_refusals() {
    let mut manager: GaplessQueueManager<f32> = GaplessQueueManager::new(2, 48_000);
    let empty = DecodedTrack {
        metadata: TrackMetadata::default(),
        samples: Vec::new(),
        sample_rate: 48_000,
        channels: 2,
    };
    assert_eq!(manager.preload_decoded(empty).err(), Some(QueueError::EmptyTrack));
    assert_eq!(manager.prepared_count(), 0);
    assert_eq!(manager.start(true).err(), Some(QueueError::SuccessorNotReady));
    manager.preload_decoded(prepared_track("only")).unwrap();
    assert!(manager.start(true).is_ok());
    manager.preload_decoded(prepared_track("later")).unwrap();
    assert_eq!(manager.start(true).err(), Some(QueueError::AlreadyStarted));
    assert_eq!(QueueError::AlreadyStarted.message(), "gapless queue has already started");
    assert_eq!(QueueError::EmptyTrack.message(), "prepared track contained no audio samples");
}

#[test]
fn promotion_waits_for_the_low_water_mark() {
    let mut manager: GaplessQueueManager<f32> = GaplessQueueManager::new(2, 48_000);
    // before start nothing is promoted
    manager.preload_decoded(prepared_track("a")).unwrap();
    manager.preload_decoded(prepared_track("b")).unwrap();
    assert!(manager.promote_if_low_water(0).is_none());
    manager.start(false).unwrap();
    // two seconds of stereo at 48 kHz is the mark
    assert!(manager.promote_if_low_water(2 * 48_000 * 2 + 1).is_none());
    let next = manager.promote_if_low_water(2 * 48_000 * 2).unwrap();
    assert_eq!(next.metadata.title, "b");
    assert!(manager.promote_if_low_water(0).is_none());
}

#[test]
fn playback_clock_counts_frames() {
    let clock = PlaybackClock::default();
    assert_eq!(clock.played_frames(), 0);
    assert_eq!(clock.advance(48_000), 48_000);
    assert_eq!(clock.advance(24_000), 72_000);
    assert_eq!(clock.position(48_000), Duration::from_millis(1_500));
    clock.set_frames(96_000);
    assert_eq!(clock.position(48_000), Duration::from_secs(2));
    clock.reset();
    assert_eq!(clock.played_frames(), 0);
    assert_eq!(frames_after_advance(u64::MAX, 2), 1);
}

#[test]
fn frames_convert_to_the_nearest_nanosecond() {
    assert_eq!(frames_to_duration(44_100, 44_100), Duration::from_secs(1));
    assert_eq!(frames_to_duration(1, 3), Duration::new(0, 333_333_333));
    assert_eq!(frames_to_duration(2, 3), Duration::new(0, 666_666_667));
}

fn wav_bytes(rate: u32, channels: u16, bits: u16, data_len: u32) -> Vec<u8> {
    let mut b = Vec::new();
    b.extend_from_slice(b"RIFF");
    b.extend_from_slice(&(36 + data_len).to_le_bytes());
    b.extend_from_slice(b"WAVE");
    b.extend_from_slice(b"fmt ");
    b.extend_from_slice(&16u32.to_le_bytes());
    b.extend_from_slice(&1u16.to_le_bytes());
    b.extend_from_slice(&channels.to_le_bytes());
    b.extend_from_slice(&rate.to_le_bytes());
    let block = channels as u32 * (bits as u32 / 8);
    b.extend_from_slice(&(rate * block).to_le_bytes());
    b.extend_from_slice(&(block as u16).to_le_bytes());
    b.extend_from_slice(&bits.to_le_bytes());
    b.extend_from_slice(b"data");
    b.extend_from_slice(&data_len.to_le_bytes());
    b
}

#[test]
fn wav_header_gives_the_length() {
    // 44.1 kHz stereo 16-bit: 176_400 bytes per second
    let b = wav_bytes(44_100, 2, 16, 176_400 * 3);
    assert_eq!(wav_duration(&b), Some(Duration::from_secs(3)));
    let half = wav_bytes(8_000, 1, 8, 4_000);
    assert_eq!(wav_duration(&half), Some(Duration::from_millis(500)));
}

#[test]
fn wav_header_rejections() {
    assert_eq!(wav_duration(b"RIFF"), None);
    let mut not_wave = wav_bytes(44_100, 2, 16, 1000);
    not_wave[8] = b'X';
    assert_eq!(wav_duration(&not_wave), None);
    // no payload
    assert_eq!(wav_duration(&wav_bytes(44_100, 2, 16, 0)), None);
    // a chunk before `fmt ` is skipped
    let mut with_list = Vec::new();
    with_list.extend_from_slice(b"RIFF\0\0\0\0WAVE");
    with_list.extend_from_slice(b"LIST");
    with_list.extend_from_slice(&4u32.to_le_bytes());
    with_list.extend_from_slice(b"abcd");
    with_list.extend_from_slice(&wav_bytes(8_000, 1, 8, 16_000)[12..]);
    assert_eq!(wav_duration(&with_list), Some(Duration::from_secs(2)));
    // a `fmt ` chunk running past the end
    let mut cut = wav_bytes(8_000, 1, 8, 16_000);
    cut.truncate(30);
    assert_eq!(wav_duration(&cut), None);
}

#[test]
fn output_configuration_choices() {
    assert_eq!(choose_sample_rate(8_000, 192_000), 44_100);
    assert_eq!(choose_sample_rate(48_000, 96_000), 48_000);
    assert_eq!(choose_sample_rate(88_200, 96_000), 88_200);
    assert_eq!(ring_capacity(2, 48_000), 960_000);
    assert_eq!(visualizer_window(100), 100);
    assert_eq!(visualizer_window(4_096), 512);
    assert_eq!(whole_frames(7, 2), 3);
    assert!(should_publish_position(0, 10, 48_000));
    assert!(should_publish_position(5_000, 10, 48_000));
    assert!(!should_publish_position(1_000, 2_000, 48_000));
    assert!(should_publish_position(1_000, 2_600, 48_000));
    assert_eq!(LatencyProfile::default(), LatencyProfile::Default);
    let offered = vec![
        OfferedConfig { channels: 1, format: SampleFormatKind::F32, min_sample_rate: 8_000, max_sample_rate: 48_000 },
        OfferedConfig { channels: 2, format: SampleFormatKind::I16, min_sample_rate: 8_000, max_sample_rate: 48_000 },
        OfferedConfig { channels: 2, format: SampleFormatKind::F32, min_sample_rate: 8_000, max_sample_rate: 48_000 },
    ];
    assert_eq!(preferred_config(&offered), Some(2));
    assert_eq!(preferred_config(&offered[..2].to_vec()), Some(1));
    assert_eq!(preferred_config(&offered[..1].to_vec()), Some(0));
    assert_eq!(preferred_config(&Vec::new()), None);
}

#[test]
fn decoding_parameters() {
    assert_eq!(opus_sample_rate(44_100), 48_000);
    assert_eq!(opus_sample_rate(16_000), 16_000);
    assert_eq!(opus_channels(1), 1);
    assert_eq!(opus_channels(6), 2);
    assert_eq!(resolve_channels(0, Some(1)), 1);
    assert_eq!(resolve_channels(0, None), 2);
    assert_eq!(resolve_channels(6, Some(1)), 6);
    assert_eq!(resolve_sample_rate(0, None), 44_100);
    assert_eq!(resolve_sample_rate(0, Some(22_050)), 22_050);
    assert_eq!(duration_from_samples(96_000, 2, 48_000), Some(Duration::from_secs(1)));
    assert_eq!(duration_from_samples(0, 2, 48_000), None);
    assert!(complete_frames(4, 2));
    assert!(!complete_frames(5, 2));
    assert!(!complete_frames(0, 2));
    let w = visualizer_windows(5_000);
    assert_eq!(w, vec![(0, 2_048), (2_048, 4_096), (4_096, 5_000)]);
    assert!(visualizer_windows(0).is_empty());
}

#[test]
fn mpris_and_plugin_basics() {
    assert_eq!(play_pause_command(true), MprisCommand::Pause);
    assert_eq!(play_pause_command(false), MprisCommand::Play);
    assert_eq!(playback_status(true), "Playing");
    assert_eq!(playback_status(false), "Stopped");
    assert!(api_version_matches(PLUGIN_API_VERSION));
    assert!(!api_version_matches(PLUGIN_API_VERSION + 1));
    assert_eq!(kanono_plugin_api_version(), PLUGIN_API_VERSION);
    let mut p = ExampleComponent;
    assert_eq!(p.metadata().name, "Example Component");
    assert!(p.activate().is_ok());
}

#[test]
fn duration_arithmetic() {
    let d = Duration::new(1, 999_999_999);
    assert_eq!(d.as_secs(), 1);
    assert_eq!(d.subsec_nanos(), 999_999_999);
    assert_eq!(d.as_millis(), 1_999);
    assert_eq!(d.as_nanos(), 1_999_999_999);
    assert_eq!(Duration::new(1, 1_500_000_000), Duration::new(2, 500_000_000));
    assert!(Duration::zero().is_zero());
    assert_eq!(Duration::from_millis(2_500), Duration::new(2, 500_000_000));
    assert_eq!(Duration::from_ratio(1, 2), Duration::from_millis(500));
}
