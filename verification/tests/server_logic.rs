use airkan::adapter::{player_action, PlayerAction};
use airkan::proto::{build_heartbeat, build_version_resp, parse_key_frame, AirkanFrame};
use airkan::server::http::{extract_uri_path, handle_http_request, query_value};
use airkan::server::{dispatch_key, RcSession, RcStep};
use airkan::{RemoteKey, REPORT_VERSION};

fn tlv_int(tlv: &mut Vec<u8>, sc: u8, v: i32) {
    tlv.push(sc);
    tlv.extend_from_slice(&v.to_be_bytes());
}

fn key_frame(key_code: i32, action: i32) -> Vec<u8> {
    let mut tlv = Vec::new();
    tlv_int(&mut tlv, 1, 0);
    tlv_int(&mut tlv, 2, action);
    tlv_int(&mut tlv, 3, key_code);
    tlv_int(&mut tlv, 4, 0);
    tlv_int(&mut tlv, 5, 0);
    tlv_int(&mut tlv, 6, 0);
    tlv.push(7);
    tlv.extend_from_slice(&0u64.to_be_bytes());
    tlv.push(8);
    tlv.extend_from_slice(&0u64.to_be_bytes());
    tlv_int(&mut tlv, 10, 0);
    tlv_int(&mut tlv, 11, 0);
    let mut out = vec![1u8];
    out.extend_from_slice(&1u32.to_be_bytes());
    out.extend_from_slice(&(tlv.len() as u16).to_be_bytes());
    out.extend_from_slice(&tlv);
    let mut frame = vec![4u8];
    frame.extend_from_slice(&(out.len() as u16).to_be_bytes());
    frame.extend_from_slice(&out);
    frame
}

fn frame_of(key_code: i32, action: i32, code: u8) -> AirkanFrame {
    let mut f = parse_key_frame(&key_frame(key_code, action)).unwrap();
    f.code = code;
    f
}

#[test]
fn dispatch_only_down_presses() {
    let mut last = None;
    assert_eq!(dispatch_key(&frame_of(24, 0, 1), &mut last, 0), Some(RemoteKey::VolUp));
    assert_eq!(dispatch_key(&frame_of(24, 1, 1), &mut last, 0), None);
    assert_eq!(dispatch_key(&frame_of(24, 0, 2), &mut last, 0), None);
    assert_eq!(last, None);
}

#[test]
fn dispatch_debounces_play_pause() {
    let mut last = None;
    assert_eq!(dispatch_key(&frame_of(23, 0, 1), &mut last, 1000), Some(RemoteKey::PlayPause));
    assert_eq!(last, Some(1000));
    assert_eq!(dispatch_key(&frame_of(66, 0, 1), &mut last, 1299), None);
    assert_eq!(last, Some(1000));
    assert_eq!(dispatch_key(&frame_of(66, 0, 1), &mut last, 1300), Some(RemoteKey::PlayPause));
    assert_eq!(last, Some(1300));
    // Other keys are never debounced.
    assert_eq!(dispatch_key(&frame_of(24, 0, 1), &mut last, 1301), Some(RemoteKey::VolUp));
    assert_eq!(dispatch_key(&frame_of(24, 0, 1), &mut last, 1302), Some(RemoteKey::VolUp));
}

#[test]
fn session_handshake_then_key() {
    let mut s = RcSession::new(0);
    // Version request as the phone sends it, coalesced with a key frame.
    let mut data = vec![5u8, 0, 5, 1, 0x01, 0x00, 0x00, 0x08];
    data.extend_from_slice(&key_frame(24, 0));
    s.receive(&data[..10]);
    match s.next_step(10) {
        RcStep::SendVersion(vr) => assert_eq!(vr, build_version_resp(REPORT_VERSION)),
        other => panic!("expected a version reply, got {other:?}"),
    }
    s.version_sent();
    // The key frame is still incomplete.
    assert!(matches!(s.next_step(10), RcStep::Idle));
    s.receive(&data[10..]);
    assert!(matches!(s.next_step(20), RcStep::Key(RemoteKey::VolUp)));
    assert!(matches!(s.next_step(20), RcStep::Idle));
    // A second version frame is not answered again.
    s.receive(&[5u8, 0, 5, 1, 0x01, 0x00, 0x00, 0x08]);
    assert!(matches!(s.next_step(30), RcStep::Idle));
}

#[test]
fn session_skips_heartbeats_and_discards_oversized() {
    let mut s = RcSession::new(0);
    s.receive(&build_heartbeat());
    s.receive(&key_frame(26, 1)); // up press: not delivered
    s.receive(&key_frame(26, 0));
    assert!(matches!(s.next_step(5), RcStep::Key(RemoteKey::Power)));
    s.receive(&[9u8, 0x06, 0x00, 1, 2, 3]);
    s.receive(&key_frame(24, 0));
    // The oversized header throws away everything buffered.
    assert!(matches!(s.next_step(6), RcStep::Idle));
    assert!(matches!(s.next_step(6), RcStep::Idle));
}

#[test]
fn session_heartbeat_every_four_seconds() {
    let mut s = RcSession::new(1000);
    assert!(s.poll_heartbeat(4999).is_none());
    assert_eq!(s.poll_heartbeat(5000), Some(build_heartbeat()));
    assert!(s.poll_heartbeat(8999).is_none());
    assert_eq!(s.poll_heartbeat(9000), Some([2, 0, 0]));
}

fn body_of(reply: &str) -> &str {
    reply.split("\r\n\r\n").nth(1).unwrap()
}

#[test]
fn http_request_auth_echoes_device_id() {
    let (reply, auth) = handle_http_request(
        "GET /requestAuth?device_id=phone123&version_code=1 HTTP/1.1\r\nHost: 127.0.0.1\r\n\r\n",
        "sdk_test",
        "esp32test000000",
    );
    assert!(auth);
    assert!(reply.contains("60000"), "requestAuth code");
    assert!(reply.contains("tv_id"), "requestAuth has tv_id");
    let body = body_of(&reply);
    assert_eq!(
        body,
        "{\"code\":60000,\"msg\":\"ok\",\"resp_data\":{\"device_id\":\"phone123\",\"tv_id\":\"esp32test000000\",\"public_key\":\"\",\"verify_code_additional\":\"\",\"versionCode\":\"1\"}}"
    );
    assert!(reply.starts_with("HTTP/1.1 200 OK\r\n"));
    assert!(reply.contains(&format!("Content-Length: {}\r\n", body.len())));
}

#[test]
fn http_request_auth_default_device_id() {
    let (reply, auth) = handle_http_request("GET /requestAuth HTTP/1.1\r\n\r\n", "dev-ü", "tv");
    assert!(auth);
    let body = body_of(&reply);
    assert!(body.contains("\"device_id\":\"dev-ü\""));
    // The length counts UTF-8 bytes.
    assert!(reply.contains(&format!("Content-Length: {}\r\n", body.len())));
    assert_eq!(body.len(), body.chars().count() + 1);
}

#[test]
fn http_get_version() {
    let (reply, auth) = handle_http_request("GET /getInfo?action=getVersion HTTP/1.1\r\n", "d", "t");
    assert!(!auth);
    assert_eq!(
        reply,
        "HTTP/1.1 200 OK\r\nContent-Type: application/json; charset=utf-8\r\nContent-Length: 51\r\nConnection: close\r\n\r\n{\"status\":0,\"msg\":\"ok\",\"data\":{\"version\":16777224}}"
    );
}

#[test]
fn http_cancel_and_complete() {
    let (cancel, a1) = handle_http_request("GET /cancelAuth HTTP/1.1\r\n", "d", "tv9");
    assert!(!a1);
    assert!(cancel.ends_with("\r\n\r\n{\"code\":60000,\"msg\":\"ok\"}"));
    let (complete, a2) = handle_http_request("POST /completeAuth?x=1 HTTP/1.1\r\n", "d", "tv9");
    assert!(!a2);
    assert!(complete.ends_with("{\"code\":60000,\"msg\":\"ok\",\"resp_data\":{\"tv_id\":\"tv9\"}}"));
}

#[test]
fn http_controller_is_not_found() {
    let (reply, auth) = handle_http_request(
        "GET /controller?action=getsources HTTP/1.1\r\nHost: x\r\n\r\n",
        "sdk_test",
        "esp32test000000",
    );
    assert!(!auth);
    assert!(reply.contains("404"), "controller should 404: {reply}");
    assert_eq!(reply, "HTTP/1.1 404 Not Found\r\nContent-Length: 0\r\nConnection: close\r\n\r\n");
    // Only the first line is looked at.
    let (second, _) = handle_http_request("GET / HTTP/1.1\r\nX: /requestAuth\r\n", "d", "t");
    assert!(second.contains("404"));
    let (empty, _) = handle_http_request("", "d", "t");
    assert!(empty.contains("404"));
}

#[test]
fn uri_path_and_query_value() {
    assert_eq!(extract_uri_path("GET /a?b=c HTTP/1.1"), "/a?b=c");
    assert_eq!(extract_uri_path("  GET\t /x  "), "/x");
    assert_eq!(extract_uri_path("GET\u{3000}/wide HTTP/1.1"), "/wide");
    assert_eq!(extract_uri_path("GET"), "");
    assert_eq!(query_value("/r?device_id=abc&x=1", "device_id"), Some("abc"));
    assert_eq!(query_value("/r?device_id=&x=1", "device_id"), None);
    assert_eq!(query_value("/r?x=1", "device_id"), None);
    assert_eq!(query_value("/r?device_id=a b", "device_id"), Some("a"));
    assert_eq!(query_value("/r?xdevice_id=1&device_id=2", "device_id"), Some("1"));
}

#[test]
fn adapter_actions() {
    assert_eq!(player_action(RemoteKey::VolUp), PlayerAction::ChangeVolume(1));
    assert_eq!(player_action(RemoteKey::VolDown), PlayerAction::ChangeVolume(-1));
    assert_eq!(player_action(RemoteKey::PlayPause), PlayerAction::ResumeOutput);
    assert_eq!(player_action(RemoteKey::Next), PlayerAction::Next);
    assert_eq!(player_action(RemoteKey::Prev), PlayerAction::Previous);
    assert_eq!(player_action(RemoteKey::Power), PlayerAction::Exit);
    assert_eq!(player_action(RemoteKey::SeekBack), PlayerAction::Ignore);
    assert_eq!(player_action(RemoteKey::SeekForward), PlayerAction::Ignore);
    assert_eq!(
        player_action(RemoteKey::Unknown { key_code: 3, key_action: 0 }),
        PlayerAction::Ignore
    );
}

/// Runs the host's loop over the given reads and records every step.
fn run_reads(reads: &[&[u8]]) -> Vec<String> {
    let mut s = RcSession::new(0);
    let mut out = Vec::new();
    for (i, r) in reads.iter().enumerate() {
        s.receive(r);
        loop {
            match s.next_step(10 * i as u64) {
                RcStep::Idle => break,
                RcStep::SendVersion(vr) => {
                    out.push(format!("version {vr:?}"));
                    s.version_sent();
                }
                RcStep::Key(k) => out.push(format!("key {k:?}")),
            }
        }
    }
    out
}

#[test]
fn session_steps_do_not_depend_on_read_sizes() {
    let mut stream = vec![5u8, 0, 5, 1, 0x01, 0x00, 0x00, 0x08];
    stream.extend_from_slice(&build_heartbeat());
    stream.extend_from_slice(&key_frame(24, 0));
    stream.extend_from_slice(&[5u8, 0, 5, 1, 0x01, 0x00, 0x00, 0x08]);
    stream.extend_from_slice(&key_frame(19, 0));
    stream.extend_from_slice(&key_frame(25, 1));
    stream.extend_from_slice(&key_frame(26, 0));
    let whole = run_reads(&[&stream]);
    assert_eq!(whole.len(), 4);
    assert!(whole[0].starts_with("version"));
    assert_eq!(&whole[1..], ["key VolUp", "key Next", "key Power"]);
    let bytes: Vec<&[u8]> = stream.chunks(1).collect();
    assert_eq!(run_reads(&bytes), whole);
    let sevens: Vec<&[u8]> = stream.chunks(7).collect();
    assert_eq!(run_reads(&sevens), whole);
}

#[test]
fn heartbeat_spacing_with_half_second_polls() {
    let mut s = RcSession::new(0);
    let mut sent = Vec::new();
    let mut t = 0u64;
    while t <= 20_000 {
        if s.poll_heartbeat(t).is_some() {
            sent.push(t);
        }
        t += 500;
    }
    assert_eq!(sent, vec![4000, 8000, 12000, 16000, 20000]);
    // Irregular polls: every gap stays within the interval plus the poll gap.
    let mut s2 = RcSession::new(100);
    let mut last = 100u64;
    for t in [900u64, 3000, 4099, 4100, 4600, 8000, 8099, 8599, 8600] {
        if s2.poll_heartbeat(t).is_some() {
            assert!(t - last >= 4000 && t - last < 4000 + 3400);
            last = t;
        }
    }
    assert_eq!(last, 8599);
}
