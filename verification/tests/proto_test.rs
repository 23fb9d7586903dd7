use airkan::keymap::{code, keymap};
use airkan::proto::{
    build_heartbeat, build_version_resp, parse_key_frame, try_take_frame, ty, FrameError,
};
use airkan::{RemoteKey, REPORT_VERSION};

fn tlv_int(tlv: &mut Vec<u8>, sc: u8, v: i32) {
    tlv.push(sc);
    tlv.extend_from_slice(&v.to_be_bytes());
}

/// A key frame with the same content as the phone sends.
fn build_key_frame(key_code: i32, action: i32) -> Vec<u8> {
    let mut tlv = Vec::new();
    tlv_int(&mut tlv, 1, 0); // metaState
    tlv_int(&mut tlv, 2, action); // action
    tlv_int(&mut tlv, 3, key_code); // keyCode
    tlv_int(&mut tlv, 4, 0); // scanCode
    tlv_int(&mut tlv, 5, 0); // repeatCount
    tlv_int(&mut tlv, 6, 0); // flags
    tlv.push(7); // downTime 8B
    tlv.extend_from_slice(&0u64.to_be_bytes());
    tlv.push(8); // eventTime 8B
    tlv.extend_from_slice(&0u64.to_be_bytes());
    tlv_int(&mut tlv, 10, 0); // deviceId
    tlv_int(&mut tlv, 11, 0); // source

    let mut out = Vec::new();
    out.push(1); // code=1 request
    out.extend_from_slice(&1u32.to_be_bytes());
    let dlen = tlv.len() as u16;
    out.extend_from_slice(&dlen.to_be_bytes());
    out.extend_from_slice(&tlv);

    let payload_len = out.len() as u16;
    let mut frame = vec![ty::KEY];
    frame.extend_from_slice(&payload_len.to_be_bytes());
    frame.extend_from_slice(&out);
    frame
}

#[test]
fn proto_test_parse_vol_up() {
    let frame = build_key_frame(24, 0);
    let f = parse_key_frame(&frame).unwrap();
    assert_eq!(f.frame_type, ty::KEY);
    assert_eq!(f.key_code, 24);
    assert_eq!(f.key_action, 0);
    assert_eq!(f.code, 1);
}

#[test]
fn parse_power_full_tlv() {
    let frame = build_key_frame(26, 1); // POWER up
    let f = parse_key_frame(&frame).unwrap();
    assert_eq!(f.key_code, 26);
    assert_eq!(f.key_action, 1);
}

#[test]
fn proto_test_reject_short_frame() {
    assert!(parse_key_frame(&[4, 0, 0, 1, 2]).is_err());
}

#[test]
fn reject_bad_data_len() {
    let mut frame = build_key_frame(24, 0);
    frame[8] = 0xFF;
    frame[9] = 0xFF;
    assert!(parse_key_frame(&frame).is_err());
}

#[test]
fn proto_test_version_resp_format() {
    let vr = build_version_resp(REPORT_VERSION);
    assert_eq!(vr[0], 0x05);
    assert_eq!(vr[3], 0x02); // code=2
    assert_eq!(vr[4], 0x01); // subcode=1
    assert_eq!(u32::from_be_bytes([vr[5], vr[6], vr[7], vr[8]]), REPORT_VERSION);
}

#[test]
fn proto_test_heartbeat_format() {
    assert_eq!(build_heartbeat(), [2, 0, 0]);
}

#[test]
fn proto_test_take_frame_coalesced() {
    let hb = build_heartbeat();
    let ver = build_version_resp(REPORT_VERSION);
    let mut coalesced = Vec::new();
    coalesced.extend_from_slice(&hb);
    coalesced.extend_from_slice(&ver);

    let (t1, _f1) = try_take_frame(&coalesced).unwrap().unwrap();
    assert_eq!(t1, ty::HEARTBEAT);
    let (t2, _f2) = try_take_frame(&coalesced[3..]).unwrap().unwrap();
    assert_eq!(t2, ty::VERSION);
}

#[test]
fn take_frame_partial() {
    let frame = build_key_frame(24, 0);
    let half = &frame[..frame.len() - 3];
    assert!(try_take_frame(half).unwrap().is_none());
}

#[test]
fn take_frame_rejects_oversized() {
    let mut frame = build_key_frame(24, 0);
    frame[1] = 0x06; // 0x0600 = 1536 > 1500
    frame[2] = 0x00;
    assert!(try_take_frame(&frame).is_err());
}

#[test]
fn keymap_mapping() {
    assert_eq!(keymap(code::DPAD_UP, 0), RemoteKey::Next);
    assert_eq!(keymap(code::DPAD_DOWN, 0), RemoteKey::Prev);
    assert_eq!(keymap(code::DPAD_LEFT, 0), RemoteKey::SeekBack);
    assert_eq!(keymap(code::DPAD_RIGHT, 0), RemoteKey::SeekForward);
    assert_eq!(keymap(code::ENTER, 0), RemoteKey::PlayPause);
    assert_eq!(keymap(code::DPAD_CENTER, 0), RemoteKey::PlayPause);
    assert_eq!(keymap(code::VOLUME_UP, 0), RemoteKey::VolUp);
    assert_eq!(keymap(code::VOLUME_DOWN, 0), RemoteKey::VolDown);
    assert_eq!(keymap(code::POWER, 0), RemoteKey::Power);
    assert_eq!(keymap(999, 0), RemoteKey::Unknown { key_code: 999, key_action: 0 });
}

// Further cases of the framing and parsing rules.

#[test]
fn key_frame_error_variants() {
    assert_eq!(parse_key_frame(&[4, 0, 0, 1, 2]).unwrap_err(), FrameError::TooShort);
    let mut frame = build_key_frame(24, 0);
    frame[8] = 0xFF;
    frame[9] = 0xFF;
    assert_eq!(parse_key_frame(&frame).unwrap_err(), FrameError::DataLenExceedsBuffer);
    let mut big = build_key_frame(24, 0);
    big[1] = 0x06;
    big[2] = 0x00;
    assert_eq!(try_take_frame(&big).unwrap_err(), FrameError::FrameTooLarge);
}

#[test]
fn key_frame_fields_and_defaults() {
    let frame = build_key_frame(-5, 0);
    let f = parse_key_frame(&frame).unwrap();
    assert_eq!(f.seq_id, 1);
    assert_eq!(f.data_len, 58);
    assert_eq!(f.key_code, -5);
    // A frame with no TLV entries keeps both fields at -1.
    let bare = [4u8, 0, 7, 1, 0, 0, 0, 9, 0, 0];
    let g = parse_key_frame(&bare).unwrap();
    assert_eq!(g.seq_id, 9);
    assert_eq!(g.key_code, -1);
    assert_eq!(g.key_action, -1);
}

#[test]
fn key_frame_later_entry_wins_and_long_entries_skip() {
    // data_len 19: action=7, an 8-byte entry of subcode 8 whose first bytes
    // look like subcode 3, then action=0.
    let mut frame = vec![4u8, 0, 30, 1, 0, 0, 0, 2, 0, 19];
    frame.extend_from_slice(&[2, 0, 0, 0, 7]);
    frame.extend_from_slice(&[8, 3, 0, 0, 0, 9, 0, 0, 0]);
    frame.extend_from_slice(&[2, 0, 0, 0, 0]);
    let f = parse_key_frame(&frame).unwrap();
    assert_eq!(f.key_action, 0);
    assert_eq!(f.key_code, -1);
    assert_eq!(f.data_len, 19);
}

#[test]
fn key_frame_ignores_trailing_bytes() {
    let mut frame = build_key_frame(25, 0);
    frame.extend_from_slice(&[2, 0, 0, 0, 1]);
    let f = parse_key_frame(&frame).unwrap();
    assert_eq!(f.key_code, 25);
    assert_eq!(f.key_action, 0);
}

#[test]
fn take_frame_waits_for_header_and_body() {
    assert!(try_take_frame(&[]).unwrap().is_none());
    assert!(try_take_frame(&[2, 0]).unwrap().is_none());
    let frame = build_key_frame(24, 0);
    let (t, f) = try_take_frame(&frame).unwrap().unwrap();
    assert_eq!(t, ty::KEY);
    assert_eq!(f.len(), 68);
    // Exactly the largest accepted frame: 1497 announced bytes.
    let mut max = vec![9u8, 0x05, 0xD9];
    max.resize(1500, 0);
    assert_eq!(try_take_frame(&max).unwrap().unwrap().1.len(), 1500);
}

#[test]
fn version_resp_other_values() {
    let vr = build_version_resp(0xA1B2_C3D4);
    assert_eq!(vr, [0x05, 0x00, 0x06, 0x02, 0x01, 0xA1, 0xB2, 0xC3, 0xD4]);
    let (t, f) = try_take_frame(&vr).unwrap().unwrap();
    assert_eq!(t, ty::VERSION);
    assert_eq!(f.len(), 9);
}

#[test]
fn frame_error_messages() {
    assert_eq!(FrameError::TooShort.message(), "key frame too short (<10)");
    assert_eq!(FrameError::DataLenExceedsBuffer.message(), "key frame data_len exceeds buffer");
    assert_eq!(FrameError::FrameTooLarge.message(), "frame len too large");
}
