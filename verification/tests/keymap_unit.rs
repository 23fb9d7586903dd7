use airkan::keymap::code;
use airkan::keymap::keymap;
use airkan::RemoteKey;

#[test]
fn map_known() {
    assert_eq!(keymap(code::DPAD_UP, 0), RemoteKey::Next);
    assert_eq!(keymap(code::DPAD_DOWN, 0), RemoteKey::Prev);
    assert_eq!(keymap(code::ENTER, 0), RemoteKey::PlayPause);
    assert_eq!(keymap(code::VOLUME_UP, 0), RemoteKey::VolUp);
    assert_eq!(keymap(code::POWER, 0), RemoteKey::Power);
}

#[test]
fn map_unknown() {
    assert_eq!(keymap(999, 0), RemoteKey::Unknown { key_code: 999, key_action: 0 });
}

#[test]
fn map_unknown_keeps_raw_bits() {
    assert_eq!(
        keymap(-1, 1),
        RemoteKey::Unknown { key_code: 0xFFFF_FFFF, key_action: 1 }
    );
    assert_eq!(keymap(code::DPAD_CENTER, 1), RemoteKey::PlayPause);
}
