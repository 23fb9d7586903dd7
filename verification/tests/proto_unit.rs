use airkan::proto::{build_heartbeat, build_version_resp, parse_key_frame, try_take_frame, ty};
use airkan::REPORT_VERSION;

fn tlv_int(tlv: &mut Vec<u8>, sc: u8, v: i32) {
    tlv.push(sc);
    tlv.extend_from_slice(&v.to_be_bytes());
}

/// A key frame in the format the phone sends.
fn build_key_frame_manual(key_code: i32, action: i32) -> Vec<u8> {
    let mut tlv = Vec::new();
    tlv_int(&mut tlv, 1, 0); // metaState
    tlv_int(&mut tlv, 2, action); // action
    tlv_int(&mut tlv, 3, key_code); // keyCode
    tlv_int(&mut tlv, 4, 0); // scanCode
    tlv_int(&mut tlv, 5, 0); // repeatCount
    tlv_int(&mut tlv, 6, 0); // flags
    tlv.push(7); // downTime (8B)
    tlv.extend_from_slice(&0u64.to_be_bytes());
    tlv.push(8); // eventTime (8B)
    tlv.extend_from_slice(&0u64.to_be_bytes());
    tlv_int(&mut tlv, 10, 0); // deviceId
    tlv_int(&mut tlv, 11, 0); // source

    let mut out = Vec::new();
    out.push(1); // code=1 (request)
    out.extend_from_slice(&1u32.to_be_bytes()); // id
    let dlen = tlv.len() as u16;
    out.extend_from_slice(&dlen.to_be_bytes());
    out.extend_from_slice(&tlv);

    let payload_len = out.len() as u16;
    let mut frame = Vec::new();
    frame.push(ty::KEY);
    frame.extend_from_slice(&payload_len.to_be_bytes());
    frame.extend_from_slice(&out);
    frame
}

#[test]
fn proto_parse_vol_up() {
    let frame = build_key_frame_manual(24, 0);
    let f = parse_key_frame(&frame).unwrap();
    assert_eq!(f.frame_type, ty::KEY);
    assert_eq!(f.key_code, 24);
    assert_eq!(f.key_action, 0);
    assert_eq!(f.code, 1);
}

#[test]
fn proto_reject_short_frame() {
    let bad = [4u8, 0, 0, 1, 2];
    assert!(parse_key_frame(&bad).is_err());
}

#[test]
fn proto_version_resp_format() {
    let vr = build_version_resp(0x0100_0008);
    assert_eq!(vr, [0x05, 0x00, 0x06, 0x02, 0x01, 0x01, 0x00, 0x00, 0x08]);
}

#[test]
fn proto_heartbeat_format() {
    assert_eq!(build_heartbeat(), [2, 0, 0]);
}

#[test]
fn proto_take_frame_coalesced() {
    let hb = build_heartbeat();
    let ver = build_version_resp(REPORT_VERSION);
    let mut coalesced = Vec::new();
    coalesced.extend_from_slice(&hb);
    coalesced.extend_from_slice(&ver);
    let (t1, f1) = try_take_frame(&coalesced).unwrap().unwrap();
    assert_eq!(t1, ty::HEARTBEAT);
    assert_eq!(f1.len(), 3);
    let rest = &coalesced[f1.len()..];
    let (t2, _f2) = try_take_frame(rest).unwrap().unwrap();
    assert_eq!(t2, ty::VERSION);
}
