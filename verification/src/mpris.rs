//! Desktop media-control commands and the state the player reports back.
use vstd::prelude::*;

verus! {

/// A command received from the desktop's media controls.
#[derive(Debug, Clone, Copy, PartialEq, Eq, Structural)]
pub enum MprisCommand {
    Play,
    Pause,
    Stop,
    Next,
    Previous,
}

/// What the play/pause control asks for: a pause while playing, playback otherwise.
pub fn play_pause_command(playing: bool) -> (c: MprisCommand)
    ensures
        c == (if playing {
            MprisCommand::Pause
        } else {
            MprisCommand::Play
        }),
{
    if playing {
        MprisCommand::Pause
    } else {
        MprisCommand::Play
    }
}

/// The playback status reported to the desktop.
pub fn playback_status(playing: bool) -> (s: &'static str)
    ensures
        s@ == (if playing {
            "Playing"@
        } else {
            "Stopped"@
        }),
{
    if playing {
        "Playing"
    } else {
        "Stopped"
    }
}

} // verus!
