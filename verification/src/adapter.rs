//! What the media receiver does with each remote-control key.
//!
//! The receiver owns the player and the host's volume and exit callbacks;
//! it asks [`player_action`] what a key means and carries the action out.

use crate::RemoteKey;
use vstd::prelude::*;

verus! {

/// An operation on the local player or the host.
#[derive(Clone, Copy, Debug, PartialEq, Eq, Structural)]
pub enum PlayerAction {
    /// Step the volume by the given amount.
    ChangeVolume(i32),
    /// Resume (or toggle) the audio output.
    ResumeOutput,
    /// Skip to the next item.
    Next,
    /// Go back to the previous item.
    Previous,
    /// Leave the receiver.
    Exit,
    /// Nothing to do: seeking needs the playback position, which the
    /// receiver does not track, and unknown keys are dropped.
    Ignore,
}

/// The action each key stands for.
pub open spec fn spec_player_action(key: RemoteKey) -> PlayerAction {
    match key {
        RemoteKey::VolUp => PlayerAction::ChangeVolume(1i32),
        RemoteKey::VolDown => PlayerAction::ChangeVolume(-1i32),
        RemoteKey::PlayPause => PlayerAction::ResumeOutput,
        RemoteKey::Next => PlayerAction::Next,
        RemoteKey::Prev => PlayerAction::Previous,
        RemoteKey::Power => PlayerAction::Exit,
        RemoteKey::SeekForward => PlayerAction::Ignore,
        RemoteKey::SeekBack => PlayerAction::Ignore,
        RemoteKey::Unknown { .. } => PlayerAction::Ignore,
    }
}

/// Translates a remote key into the operation on the player.
pub fn player_action(key: RemoteKey) -> (a: PlayerAction)
    ensures
        a == spec_player_action(key),
{
    match key {
        RemoteKey::VolUp => PlayerAction::ChangeVolume(1i32),
        RemoteKey::VolDown => PlayerAction::ChangeVolume(-1i32),
        RemoteKey::PlayPause => PlayerAction::ResumeOutput,
        RemoteKey::Next => PlayerAction::Next,
        RemoteKey::Prev => PlayerAction::Previous,
        RemoteKey::Power => PlayerAction::Exit,
        RemoteKey::SeekForward | RemoteKey::SeekBack | RemoteKey::Unknown { .. } => {
            PlayerAction::Ignore
        },
    }
}

/// Only the volume keys change the volume, up by one and down by one;
/// seeking and every unknown key, whatever its code and action, do nothing;
/// OK resumes the output, up and down step through the items and power
/// leaves.
pub proof fn lemma_player_action_table(key: RemoteKey, key_code: u32, key_action: u32)
    ensures
        spec_player_action((RemoteKey::Unknown { key_code, key_action })) == PlayerAction::Ignore,
        (spec_player_action(key) == PlayerAction::Ignore) <==> (key == RemoteKey::SeekBack || key
            == RemoteKey::SeekForward || key is Unknown),
        spec_player_action(key) is ChangeVolume <==> (key == RemoteKey::VolUp || key
            == RemoteKey::VolDown),
        spec_player_action(RemoteKey::VolUp) == PlayerAction::ChangeVolume(1i32),
        spec_player_action(RemoteKey::VolDown) == PlayerAction::ChangeVolume(-1i32),
        spec_player_action(RemoteKey::PlayPause) == PlayerAction::ResumeOutput,
        spec_player_action(RemoteKey::Next) == PlayerAction::Next,
        spec_player_action(RemoteKey::Prev) == PlayerAction::Previous,
        spec_player_action(RemoteKey::Power) == PlayerAction::Exit,
{
}

} // verus!
