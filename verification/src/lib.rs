//! Verified core of the Kanono media player: playback bookkeeping, gapless
//! queue control, library records and queries, tag and WAVE header parsing, the
//! sidebar's folder tree and lists, and the player's navigation rules.

pub mod decoding;
pub mod duration;
pub mod editing;
pub mod filters;
pub mod folder_tree;
pub mod labels;
pub mod library;
pub mod mpris;
pub mod output;
pub mod playback_state;
pub mod player;
pub mod plugin;
pub mod paths;
pub mod queue_manager;
pub mod sidebar;
pub mod tags;
pub mod text;
pub mod wav;

