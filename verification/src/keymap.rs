//! Mapping of Android key codes onto remote-control keys.

pub mod code;

use crate::RemoteKey;
use vstd::prelude::*;

verus! {

/// A key action as carried in a key frame (TLV subcode 2).
#[derive(Clone, Copy, Debug, PartialEq, Eq, Structural)]
pub struct KeyAction {
    pub key_code: i32,
    /// 0 = down, 1 = up.
    pub action: i32,
}

/// The key a key code stands for; a code outside the table keeps its raw
/// code and action (reinterpreted as unsigned) in `Unknown`.
pub open spec fn spec_keymap(key_code: i32, action: i32) -> RemoteKey {
    if key_code == code::DPAD_UP {
        RemoteKey::Next
    } else if key_code == code::DPAD_DOWN {
        RemoteKey::Prev
    } else if key_code == code::DPAD_LEFT {
        RemoteKey::SeekBack
    } else if key_code == code::DPAD_RIGHT {
        RemoteKey::SeekForward
    } else if key_code == code::DPAD_CENTER || key_code == code::ENTER {
        RemoteKey::PlayPause
    } else if key_code == code::VOLUME_UP {
        RemoteKey::VolUp
    } else if key_code == code::VOLUME_DOWN {
        RemoteKey::VolDown
    } else if key_code == code::POWER {
        RemoteKey::Power
    } else {
        RemoteKey::Unknown { key_code: key_code as u32, key_action: action as u32 }
    }
}

/// True for the key codes that have a named key.
pub open spec fn is_mapped_code(key_code: i32) -> bool {
    key_code == code::DPAD_UP || key_code == code::DPAD_DOWN || key_code == code::DPAD_LEFT
        || key_code == code::DPAD_RIGHT || key_code == code::DPAD_CENTER || key_code
        == code::ENTER || key_code == code::VOLUME_UP || key_code == code::VOLUME_DOWN
        || key_code == code::POWER
}

/// Maps a key code onto its semantic key; an unmapped code gives `Unknown`.
pub fn keymap(key_code: i32, action: i32) -> (k: RemoteKey)
    ensures
        k == spec_keymap(key_code, action),
        (k is Unknown) <==> !is_mapped_code(key_code),
        k is Unknown ==> k->key_code == key_code as u32 && k->key_action == action as u32,
{
    if key_code == code::DPAD_UP {
        RemoteKey::Next
    } else if key_code == code::DPAD_DOWN {
        RemoteKey::Prev
    } else if key_code == code::DPAD_LEFT {
        RemoteKey::SeekBack
    } else if key_code == code::DPAD_RIGHT {
        RemoteKey::SeekForward
    } else if key_code == code::DPAD_CENTER || key_code == code::ENTER {
        RemoteKey::PlayPause
    } else if key_code == code::VOLUME_UP {
        RemoteKey::VolUp
    } else if key_code == code::VOLUME_DOWN {
        RemoteKey::VolDown
    } else if key_code == code::POWER {
        RemoteKey::Power
    } else {
        RemoteKey::Unknown { key_code: key_code as u32, key_action: action as u32 }
    }
}

/// A mapped key code means the same key whatever the action that comes
/// with it, and each code of the table gives its key: up and down give next
/// and previous, left and right seek, centre and enter play or pause, the
/// volume keys change the volume and power is power. Only an unmapped code
/// carries the action along.
pub proof fn lemma_keymap_table(key_code: i32, a1: i32, a2: i32)
    ensures
        is_mapped_code(key_code) ==> spec_keymap(key_code, a1) == spec_keymap(key_code, a2),
        !is_mapped_code(key_code) ==> spec_keymap(key_code, a1) == (RemoteKey::Unknown {
            key_code: key_code as u32,
            key_action: a1 as u32,
        }),
        spec_keymap(19, a1) == RemoteKey::Next,
        spec_keymap(20, a1) == RemoteKey::Prev,
        spec_keymap(21, a1) == RemoteKey::SeekBack,
        spec_keymap(22, a1) == RemoteKey::SeekForward,
        spec_keymap(23, a1) == RemoteKey::PlayPause,
        spec_keymap(66, a1) == RemoteKey::PlayPause,
        spec_keymap(24, a1) == RemoteKey::VolUp,
        spec_keymap(25, a1) == RemoteKey::VolDown,
        spec_keymap(26, a1) == RemoteKey::Power,
{
}

} // verus!
