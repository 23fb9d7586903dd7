//! Encoding and decoding of airkan frames.
//!
//! ```text
//! header:      [type:1B][len:2B BE]            type 2 heartbeat, 4 key, 5 version
//! key frame:   header + [code:1B][id:4B BE][data_len:2B BE] + TLV...
//! TLV:         [subcode:1B][value]             subcodes 7 and 8 take 9 bytes, others 5
//! ```

pub mod ty;

use vstd::prelude::*;

verus! {

/// Largest complete frame (header included) that the framing accepts.
pub const MAX_FRAME_LEN: usize = 1500;

/// Why a frame was rejected.
#[derive(Clone, Copy, Debug, PartialEq, Eq, Structural)]
pub enum FrameError {
    /// A key frame shorter than its 10-byte fixed part.
    TooShort,
    /// A key frame whose `data_len` reaches past the end of the buffer.
    DataLenExceedsBuffer,
    /// A frame header announcing more than [`MAX_FRAME_LEN`] bytes.
    FrameTooLarge,
}

impl FrameError {
    /// The text that describes the error.
    pub fn message(&self) -> (m: &'static str)
        ensures
            *self == FrameError::TooShort ==> m@ == "key frame too short (<10)"@,
            *self == FrameError::DataLenExceedsBuffer ==> m@ == "key frame data_len exceeds buffer"@,
            *self == FrameError::FrameTooLarge ==> m@ == "frame len too large"@,
    {
        match self {
            FrameError::TooShort => "key frame too short (<10)",
            FrameError::DataLenExceedsBuffer => "key frame data_len exceeds buffer",
            FrameError::FrameTooLarge => "frame len too large",
        }
    }
}

/// A parsed key frame.
#[derive(Clone, Debug, Default)]
pub struct AirkanFrame {
    pub frame_type: u8,
    pub code: u8,
    pub seq_id: u32,
    pub data_len: u16,
    /// TLV subcode 3, or -1 when absent.
    pub key_code: i32,
    /// TLV subcode 2 (0 = down, 1 = up), or -1 when absent.
    pub key_action: i32,
}

/// Big-endian unsigned value of the two bytes at `i`.
pub open spec fn be16(b: Seq<u8>, i: int) -> int {
    b[i] * 0x100 + b[i + 1]
}

/// Big-endian unsigned value of the four bytes at `i`.
pub open spec fn be32(b: Seq<u8>, i: int) -> int {
    b[i] * 0x100_0000 + b[i + 1] * 0x1_0000 + b[i + 2] * 0x100 + b[i + 3]
}

/// Big-endian two's-complement value of the four bytes at `i`.
pub open spec fn be_i32(b: Seq<u8>, i: int) -> int {
    if be32(b, i) >= 0x8000_0000 {
        be32(b, i) - 0x1_0000_0000
    } else {
        be32(b, i)
    }
}

/// Bytes taken by a TLV entry with the given subcode.
pub open spec fn tlv_width(subcode: u8) -> int {
    if subcode == 7 || subcode == 8 {
        9
    } else {
        5
    }
}

/// The (action, key code) pair found by walking the TLV entries that start
/// at `off` and fit entirely before `end`, starting from `(action, code)`:
/// every entry of subcode 2 sets the action and every entry of subcode 3
/// sets the key code, the later entry winning.
pub open spec fn scan_tlv(buf: Seq<u8>, off: int, end: int, action: int, code: int) -> (int, int)
    decreases
            (if off < end {
                end - off
            } else {
                0
            }),
{
    if off + 5 <= end {
        let sc = buf[off];
        let v = be_i32(buf, off + 1);
        scan_tlv(
            buf,
            off + tlv_width(sc),
            end,
            if sc == 2 {
                v
            } else {
                action
            },
            if sc == 3 {
                v
            } else {
                code
            },
        )
    } else {
        (action, code)
    }
}

/// End of the TLV area of a key frame: its 10-byte fixed part plus `data_len`.
pub open spec fn key_data_end(buf: Seq<u8>) -> int {
    10 + be16(buf, 8)
}

/// What parsing `buf` as a key frame gives.
pub open spec fn spec_parse_key_frame(buf: Seq<u8>) -> Result<AirkanFrame, FrameError> {
    if buf.len() < 10 {
        Err(FrameError::TooShort)
    } else if key_data_end(buf) > buf.len() {
        Err(FrameError::DataLenExceedsBuffer)
    } else {
        let (action, code) = scan_tlv(buf, 10, key_data_end(buf), -1, -1);
        Ok(
            AirkanFrame {
                frame_type: buf[0],
                code: buf[3],
                seq_id: be32(buf, 4) as u32,
                data_len: be16(buf, 8) as u16,
                key_code: code as i32,
                key_action: action as i32,
            },
        )
    }
}

/// Length of the frame announced by the header at the start of `buf`.
pub open spec fn announced_len(buf: Seq<u8>) -> int {
    3 + be16(buf, 1)
}

/// What taking one frame off the front of `buf` gives: `Ok(None)` while the
/// header or the announced body is incomplete, the frame type and the frame
/// length once it is complete, an error when the header announces more than
/// [`MAX_FRAME_LEN`] bytes.
pub open spec fn spec_take_frame(buf: Seq<u8>) -> Result<Option<(u8, int)>, FrameError> {
    if buf.len() < 3 {
        Ok(None)
    } else if announced_len(buf) > MAX_FRAME_LEN {
        Err(FrameError::FrameTooLarge)
    } else if buf.len() < announced_len(buf) {
        Ok(None)
    } else {
        Ok(Some((buf[0], announced_len(buf))))
    }
}

/// The version response sent to the phone:
/// `[0x05][0x00][0x06][0x02][0x01]` followed by `ver` in big-endian.
pub open spec fn version_resp_bytes(ver: u32) -> Seq<u8> {
    seq![
        0x05u8,
        0x00u8,
        0x06u8,
        0x02u8,
        0x01u8,
        (ver / 0x100_0000) as u8,
        ((ver / 0x1_0000) % 0x100) as u8,
        ((ver / 0x100) % 0x100) as u8,
        (ver % 0x100) as u8,
    ]
}

/// The heartbeat frame: type 2 with an empty body.
pub open spec fn heartbeat_bytes() -> Seq<u8> {
    seq![ty::HEARTBEAT, 0x00u8, 0x00u8]
}

/// Version response (device to phone, 9 bytes). The code byte must be 2
/// (response); otherwise the phone reads it as a request and the handshake
/// never completes.
pub fn build_version_resp(ver: u32) -> (r: [u8; 9])
    ensures
        r@ == version_resp_bytes(ver),
        be32(r@, 5) == ver,
{
    let r = [
        0x05u8,
        0x00u8,
        0x06u8,
        0x02u8,
        0x01u8,
        (ver / 0x100_0000) as u8,
        ((ver / 0x1_0000) % 0x100) as u8,
        ((ver / 0x100) % 0x100) as u8,
        (ver % 0x100) as u8,
    ];
    assert(r@ =~= version_resp_bytes(ver));
    r
}

/// Heartbeat frame: the fixed three bytes `{0x02, 0x00, 0x00}`.
pub fn build_heartbeat() -> (r: [u8; 3])
    ensures
        r@ == heartbeat_bytes(),
{
    let r = [ty::HEARTBEAT, 0x00u8, 0x00u8];
    assert(r@ =~= heartbeat_bytes());
    r
}

fn read_be16(buf: &[u8], i: usize) -> (r: u16)
    requires
        i + 2 <= buf@.len(),
    ensures
        r == be16(buf@, i as int),
{
    (buf[i] as u16) * 0x100 + (buf[i + 1] as u16)
}

fn read_be32(buf: &[u8], i: usize) -> (r: u32)
    requires
        i + 4 <= buf@.len(),
    ensures
        r == be32(buf@, i as int),
{
    (buf[i] as u32) * 0x100_0000 + (buf[i + 1] as u32) * 0x1_0000 + (buf[i + 2] as u32) * 0x100
        + (buf[i + 3] as u32)
}

fn read_be_i32(buf: &[u8], i: usize) -> (r: i32)
    requires
        i + 4 <= buf@.len(),
    ensures
        r == be_i32(buf@, i as int),
{
    let u = read_be32(buf, i);
    if u >= 0x8000_0000 {
        ((u - 0x8000_0000) as i32) + i32::MIN
    } else {
        u as i32
    }
}

/// Parses a type-4 key frame; fails when the frame is truncated or its
/// `data_len` reaches past the buffer.
pub fn parse_key_frame(buf: &[u8]) -> (r: Result<AirkanFrame, FrameError>)
    ensures
        r == spec_parse_key_frame(buf@),
        r is Ok <==> buf@.len() >= 10 && key_data_end(buf@) <= buf@.len(),
{
    if buf.len() < 10 {
        return Err(FrameError::TooShort);
    }
    let frame_type = buf[0];
    let code = buf[3];
    let seq_id = read_be32(buf, 4);
    let data_len = read_be16(buf, 8);
    let end: usize = 10 + data_len as usize;
    if end > buf.len() {
        return Err(FrameError::DataLenExceedsBuffer);
    }
    let mut key_code: i32 = -1;
    let mut key_action: i32 = -1;
    let mut off: usize = 10;
    while off + 5 <= end
        invariant
            10 <= off <= end + 8,
            end == key_data_end(buf@),
            end <= buf@.len(),
            scan_tlv(buf@, off as int, end as int, key_action as int, key_code as int) == scan_tlv(
                buf@,
                10,
                end as int,
                -1,
                -1,
            ),
        decreases end + 8 - off,
    {
        let sc = buf[off];
        let v = read_be_i32(buf, off + 1);
        if sc == 2 {
            key_action = v;
        } else if sc == 3 {
            key_code = v;
        }
        off = off + if sc == 7 || sc == 8 {
            9
        } else {
            5
        };
    }
    Ok(AirkanFrame { frame_type, code, seq_id, data_len, key_code, key_action })
}

/// Takes one complete frame off the front of `buf`, judged by the length in
/// its header; returns its type and the frame, header included.
pub fn try_take_frame(buf: &[u8]) -> (r: Result<Option<(u8, &[u8])>, FrameError>)
    ensures
        match spec_take_frame(buf@) {
            Err(e) => r == Err::<Option<(u8, &[u8])>, FrameError>(e),
            Ok(None) => r matches Ok(None),
            Ok(Some((t, n))) => r matches Ok(Some((t2, f))) && t2 == t && f@ == buf@.take(n),
        },
{
    if buf.len() < 3 {
        return Ok(None);
    }
    let need: usize = 3 + read_be16(buf, 1) as usize;
    if need > MAX_FRAME_LEN {
        return Err(FrameError::FrameTooLarge);
    }
    if buf.len() < need {
        return Ok(None);
    }
    let frame = &buf[0..need];
    assert(frame@ =~= buf@.take(need as int));
    Ok(Some((buf[0], frame)))
}

/// The version response is exactly one complete frame of type VERSION.
pub proof fn lemma_version_resp_is_one_frame(ver: u32)
    ensures
        spec_take_frame(version_resp_bytes(ver)) == Ok::<Option<(u8, int)>, FrameError>(
            Some((ty::VERSION, 9)),
        ),
{
}

/// The heartbeat is exactly one complete frame of type HEARTBEAT.
pub proof fn lemma_heartbeat_is_one_frame()
    ensures
        spec_take_frame(heartbeat_bytes()) == Ok::<Option<(u8, int)>, FrameError>(
            Some((ty::HEARTBEAT, 3)),
        ),
{
}

/// A frame that is taken whole is never shorter than its header nor longer
/// than [`MAX_FRAME_LEN`], and lies within the buffer.
pub proof fn lemma_taken_frame_bounds(buf: Seq<u8>)
    ensures
        spec_take_frame(buf) matches Ok(Some((t, n))) ==> 3 <= n <= MAX_FRAME_LEN && n <= buf.len()
            && t == buf[0],
{
}

/// Bytes that follow a complete frame do not change what is taken: frames
/// that arrive coalesced in one read come apart one by one.
pub proof fn lemma_take_frame_ignores_trailing(a: Seq<u8>, b: Seq<u8>)
    requires
        spec_take_frame(a) is Ok,
        spec_take_frame(a)->Ok_0 is Some,
    ensures
        spec_take_frame(a + b) == spec_take_frame(a),
{
    assert((a + b)[0] == a[0]);
    assert((a + b)[1] == a[1]);
    assert((a + b)[2] == a[2]);
}

/// Every strict prefix of a complete frame is an incomplete frame: a frame
/// split across reads is waited for rather than misread.
pub proof fn lemma_take_frame_waits_for_rest(buf: Seq<u8>, k: int)
    requires
        spec_take_frame(buf) is Ok,
        spec_take_frame(buf)->Ok_0 is Some,
        0 <= k < spec_take_frame(buf)->Ok_0->Some_0.1,
    ensures
        spec_take_frame(buf.take(k)) == Ok::<Option<(u8, int)>, FrameError>(None),
{
    if k >= 3 {
        assert(buf.take(k)[1] == buf[1]);
        assert(buf.take(k)[2] == buf[2]);
    }
}

/// Walking the TLV area reads no byte outside `[off, end)`.
proof fn lemma_scan_tlv_local(b1: Seq<u8>, b2: Seq<u8>, off: int, end: int, action: int, code: int)
    requires
        0 <= off,
        end <= b1.len(),
        end <= b2.len(),
        forall|i: int| off <= i < end ==> b1[i] == b2[i],
    ensures
        scan_tlv(b1, off, end, action, code) == scan_tlv(b2, off, end, action, code),
    decreases
            (if off < end {
                end - off
            } else {
                0
            }),
{
    if off + 5 <= end {
        let sc = b1[off];
        assert(b2[off] == sc);
        assert(be_i32(b1, off + 1) == be_i32(b2, off + 1)) by {
            assert(b1[off + 1] == b2[off + 1]);
            assert(b1[off + 2] == b2[off + 2]);
            assert(b1[off + 3] == b2[off + 3]);
            assert(b1[off + 4] == b2[off + 4]);
        }
        let v = be_i32(b1, off + 1);
        lemma_scan_tlv_local(
            b1,
            b2,
            off + tlv_width(sc),
            end,
            if sc == 2 {
                v
            } else {
                action
            },
            if sc == 3 {
                v
            } else {
                code
            },
        );
    }
}

/// A key frame is read only up to the end of its TLV area: bytes after it
/// do not change the parsed frame.
pub proof fn lemma_parse_key_frame_ignores_trailing(a: Seq<u8>, b: Seq<u8>)
    requires
        spec_parse_key_frame(a) is Ok,
    ensures
        spec_parse_key_frame(a + b) == spec_parse_key_frame(a),
{
    let ab = a + b;
    assert forall|i: int| 0 <= i < a.len() implies ab[i] == a[i] by {}
    assert(key_data_end(ab) == key_data_end(a));
    lemma_scan_tlv_local(a, ab, 10, key_data_end(a), -1, -1);
}

/// Big-endian bytes of a value in `[0, 2^32)`.
pub open spec fn be32_bytes(u: int) -> Seq<u8> {
    seq![
        (u / 0x100_0000) as u8,
        ((u / 0x1_0000) % 0x100) as u8,
        ((u / 0x100) % 0x100) as u8,
        (u % 0x100) as u8,
    ]
}

/// Big-endian two's-complement bytes of a 32-bit signed value.
pub open spec fn i32_be_bytes(v: i32) -> Seq<u8> {
    if v < 0 {
        be32_bytes(v + 0x1_0000_0000)
    } else {
        be32_bytes(v as int)
    }
}

/// A TLV entry carrying a 32-bit value.
pub open spec fn tlv_int(subcode: u8, v: i32) -> Seq<u8> {
    seq![subcode] + i32_be_bytes(v)
}

/// A TLV entry carrying a 64-bit zero (time stamps).
pub open spec fn tlv_long_zero(subcode: u8) -> Seq<u8> {
    seq![subcode] + Seq::new(8, |i: int| 0u8)
}

/// The TLV area of a key event as the phone sends it: meta state, action,
/// key code, scan code, repeat count, flags, down time, event time, device
/// id and source.
pub open spec fn phone_key_tlv(key_code: i32, action: i32) -> Seq<u8> {
    tlv_int(1, 0) + tlv_int(2, action) + tlv_int(3, key_code) + tlv_int(4, 0) + tlv_int(5, 0)
        + tlv_int(6, 0) + tlv_long_zero(7) + tlv_long_zero(8) + tlv_int(10, 0) + tlv_int(11, 0)
}

/// A complete key frame as the phone sends it: header (type 4, length 65),
/// code 1 (request), id 1, `data_len` 58 and the TLV area.
pub open spec fn phone_key_frame(key_code: i32, action: i32) -> Seq<u8> {
    seq![ty::KEY, 0u8, 65u8] + seq![1u8] + be32_bytes(1) + seq![0u8, 58u8] + phone_key_tlv(
        key_code,
        action,
    )
}

proof fn lemma_be32_bytes_value(b: Seq<u8>, i: int, u: int)
    requires
        0 <= u < 0x1_0000_0000,
        0 <= i,
        i + 4 <= b.len(),
        b.subrange(i, i + 4) == be32_bytes(u),
    ensures
        be32(b, i) == u,
{
    assert(b[i] == be32_bytes(u)[0]);
    assert(b[i + 1] == be32_bytes(u)[1]);
    assert(b[i + 2] == be32_bytes(u)[2]);
    assert(b[i + 3] == be32_bytes(u)[3]);
    let q0 = u / 0x100_0000;
    let q1 = (u / 0x1_0000) % 0x100;
    let q2 = (u / 0x100) % 0x100;
    let q3 = u % 0x100;
    assert(q0 * 0x100_0000 + q1 * 0x1_0000 + q2 * 0x100 + q3 == u) by (nonlinear_arith)
        requires
            0 <= u < 0x1_0000_0000,
            q0 == u / 0x100_0000,
            q1 == (u / 0x1_0000) % 0x100,
            q2 == (u / 0x100) % 0x100,
            q3 == u % 0x100,
    ;
}

proof fn lemma_i32_be_bytes_value(b: Seq<u8>, i: int, v: i32)
    requires
        0 <= i,
        i + 4 <= b.len(),
        b.subrange(i, i + 4) == i32_be_bytes(v),
    ensures
        be_i32(b, i) == v,
{
    if v < 0 {
        lemma_be32_bytes_value(b, i, v + 0x1_0000_0000);
    } else {
        lemma_be32_bytes_value(b, i, v as int);
    }
}

/// A key frame in the phone's format is one complete frame of type KEY, and
/// parsing it gives back the key code and action it carries.
pub proof fn lemma_phone_key_frame_roundtrip(key_code: i32, action: i32)
    ensures
        spec_take_frame(phone_key_frame(key_code, action)) == Ok::<Option<(u8, int)>, FrameError>(
            Some((ty::KEY, 68)),
        ),
        spec_parse_key_frame(phone_key_frame(key_code, action)) == Ok::<AirkanFrame, FrameError>(
            AirkanFrame {
                frame_type: ty::KEY,
                code: 1,
                seq_id: 1,
                data_len: 58,
                key_code,
                key_action: action,
            },
        ),
{
    let f = phone_key_frame(key_code, action);
    let tlv = phone_key_tlv(key_code, action);
    assert(tlv.len() == 58);
    assert(f.len() == 68);
    assert(f.subrange(10, 68) =~= tlv);
    assert(be16(f, 1) == 65);
    assert(be16(f, 8) == 58);
    assert(f.subrange(4, 8) =~= be32_bytes(1));
    lemma_be32_bytes_value(f, 4, 1);
    // Entry offsets inside the frame: 10, 15, 20, 25, 30, 35, 40, 49, 58, 63.
    assert(f[10] == 1u8 && f[15] == 2u8 && f[20] == 3u8 && f[25] == 4u8 && f[30] == 5u8);
    assert(f[35] == 6u8 && f[40] == 7u8 && f[49] == 8u8 && f[58] == 10u8 && f[63] == 11u8);
    assert(f.subrange(16, 20) =~= i32_be_bytes(action));
    assert(f.subrange(21, 25) =~= i32_be_bytes(key_code));
    lemma_i32_be_bytes_value(f, 16, action);
    lemma_i32_be_bytes_value(f, 21, key_code);
    let a0 = -1int;
    let c0 = -1int;
    let va = be_i32(f, 16);
    let vc = be_i32(f, 21);
    assert(scan_tlv(f, 68, 68, va, vc) == (va, vc));
    assert(scan_tlv(f, 63, 68, va, vc) == (va, vc));
    assert(scan_tlv(f, 58, 68, va, vc) == (va, vc));
    assert(scan_tlv(f, 49, 68, va, vc) == (va, vc));
    assert(scan_tlv(f, 40, 68, va, vc) == (va, vc));
    assert(scan_tlv(f, 35, 68, va, vc) == (va, vc));
    assert(scan_tlv(f, 30, 68, va, vc) == (va, vc));
    assert(scan_tlv(f, 25, 68, va, vc) == (va, vc));
    assert(scan_tlv(f, 20, 68, va, c0) == (va, vc));
    assert(scan_tlv(f, 15, 68, a0, c0) == (va, vc));
    assert(scan_tlv(f, 10, 68, a0, c0) == (va, vc));
}

/// The fixed fields of an accepted key frame are read from their bytes:
/// the type from byte 0, the code from byte 3, the id from bytes 4 to 7 and
/// the data length from bytes 8 and 9, both big-endian; and a frame is
/// accepted exactly when its TLV area fits in the buffer.
pub proof fn lemma_key_frame_fields(buf: Seq<u8>)
    ensures
        spec_parse_key_frame(buf) is Ok <==> (buf.len() >= 10 && 10 + buf[8] * 256 + buf[9]
            <= buf.len()),
        spec_parse_key_frame(buf) matches Ok(f) ==> {
            &&& f.frame_type == buf[0]
            &&& f.code == buf[3]
            &&& f.seq_id as int == buf[4] * 16777216 + buf[5] * 65536 + buf[6] * 256 + buf[7]
            &&& f.data_len as int == buf[8] * 256 + buf[9]
        },
        buf.len() < 10 ==> spec_parse_key_frame(buf) == Err::<AirkanFrame, FrameError>(
            FrameError::TooShort,
        ),
{
}

/// A TLV entry: its subcode and its value bytes, eight for subcodes 7 and
/// 8 (time stamps) and four for every other subcode.
pub open spec fn entry_well_sized(e: (u8, Seq<u8>)) -> bool {
    e.1.len() == (if e.0 == 7 || e.0 == 8 {
        8int
    } else {
        4int
    })
}

/// The bytes of a list of TLV entries, one after the other.
pub open spec fn encode_entries(es: Seq<(u8, Seq<u8>)>) -> Seq<u8>
    decreases es.len(),
{
    if es.len() == 0 {
        Seq::empty()
    } else {
        seq![es[0].0] + es[0].1 + encode_entries(es.drop_first())
    }
}

/// The value of the last entry of subcode `sc` in `es`, read as a signed
/// big-endian number from its first four bytes; `default` when there is none.
pub open spec fn last_value(es: Seq<(u8, Seq<u8>)>, sc: u8, default: int) -> int
    decreases es.len(),
{
    if es.len() == 0 {
        default
    } else {
        last_value(
            es.drop_first(),
            sc,
            if es[0].0 == sc {
                be_i32(es[0].1, 0)
            } else {
                default
            },
        )
    }
}

proof fn lemma_encode_entries_len(es: Seq<(u8, Seq<u8>)>)
    requires
        forall|i: int| 0 <= i < es.len() ==> entry_well_sized(#[trigger] es[i]),
    ensures
        es.len() > 0 ==> encode_entries(es).len() >= 5,
        es.len() == 0 ==> encode_entries(es).len() == 0,
    decreases es.len(),
{
    if es.len() > 0 {
        assert(entry_well_sized(es[0]));
    }
}

proof fn lemma_scan_entries(
    buf: Seq<u8>,
    es: Seq<(u8, Seq<u8>)>,
    off: int,
    end: int,
    action: int,
    code: int,
)
    requires
        forall|i: int| 0 <= i < es.len() ==> entry_well_sized(#[trigger] es[i]),
        0 <= off,
        end == off + encode_entries(es).len(),
        end <= buf.len(),
        buf.subrange(off, end) == encode_entries(es),
    ensures
        scan_tlv(buf, off, end, action, code) == (
            last_value(es, 2, action),
            last_value(es, 3, code),
        ),
    decreases es.len(),
{
    if es.len() == 0 {
    } else {
        let e = es[0];
        let rest = es.drop_first();
        assert(entry_well_sized(e));
        assert forall|i: int| 0 <= i < rest.len() implies entry_well_sized(#[trigger] rest[i]) by {
            assert(rest[i] == es[i + 1]);
        }
        let enc = encode_entries(es);
        let w = 1 + e.1.len();
        assert(enc == seq![e.0] + e.1 + encode_entries(rest));
        assert(buf[off] == enc[0]);
        assert(buf[off + 1] == enc[1] && enc[1] == e.1[0]);
        assert(buf[off + 2] == enc[2] && enc[2] == e.1[1]);
        assert(buf[off + 3] == enc[3] && enc[3] == e.1[2]);
        assert(buf[off + 4] == enc[4] && enc[4] == e.1[3]);
        assert(be_i32(buf, off + 1) == be_i32(e.1, 0));
        assert(tlv_width(e.0) == w);
        assert(buf.subrange(off + w, end) =~= encode_entries(rest)) by {
            assert forall|i: int| 0 <= i < end - (off + w) implies buf.subrange(off + w, end)[i]
                == encode_entries(rest)[i] by {
                assert(buf.subrange(off, end)[w + i] == enc[w + i]);
            }
        }
        lemma_scan_entries(
            buf,
            rest,
            off + w,
            end,
            if e.0 == 2 {
                be_i32(e.1, 0)
            } else {
                action
            },
            if e.0 == 3 {
                be_i32(e.1, 0)
            } else {
                code
            },
        );
    }
}

/// A key frame whose TLV area is a list of entries gives, whatever the
/// other entries and however long the time stamps, the value of the last
/// action entry (subcode 2) and of the last key-code entry (subcode 3), or
/// -1 for an absent one; bytes after the TLV area change nothing.
pub proof fn lemma_key_frame_entries(header: Seq<u8>, es: Seq<(u8, Seq<u8>)>, trailing: Seq<u8>)
    requires
        header.len() == 10,
        forall|i: int| 0 <= i < es.len() ==> entry_well_sized(#[trigger] es[i]),
        header[8] * 256 + header[9] == encode_entries(es).len(),
    ensures
        ({
            let buf = header + encode_entries(es) + trailing;
            &&& spec_parse_key_frame(buf) is Ok
            &&& spec_parse_key_frame(buf)->Ok_0.key_action as int == last_value(es, 2, -1)
            &&& spec_parse_key_frame(buf)->Ok_0.key_code as int == last_value(es, 3, -1)
        }),
{
    let enc = encode_entries(es);
    let buf = header + enc + trailing;
    assert(buf[8] == header[8] && buf[9] == header[9]);
    let end: int = 10int + enc.len() as int;
    assert(buf.subrange(10, end) =~= enc);
    lemma_scan_entries(buf, es, 10, end, -1, -1);
    lemma_last_value_range(es, 2, -1);
    lemma_last_value_range(es, 3, -1);
}

proof fn lemma_last_value_range(es: Seq<(u8, Seq<u8>)>, sc: u8, default: int)
    requires
        i32::MIN <= default <= i32::MAX,
        forall|i: int| 0 <= i < es.len() ==> entry_well_sized(#[trigger] es[i]),
    ensures
        i32::MIN <= last_value(es, sc, default) <= i32::MAX,
    decreases es.len(),
{
    if es.len() > 0 {
        let rest = es.drop_first();
        assert forall|i: int| 0 <= i < rest.len() implies entry_well_sized(#[trigger] rest[i]) by {
            assert(rest[i] == es[i + 1]);
        }
        assert(entry_well_sized(es[0]));
        lemma_last_value_range(
            rest,
            sc,
            if es[0].0 == sc {
                be_i32(es[0].1, 0)
            } else {
                default
            },
        );
    }
}

/// Framing by the header: a buffer shorter than the 3-byte header waits;
/// a header announcing more than 1500 bytes in all is rejected; a frame
/// whose announced bytes have all arrived is taken with its type; otherwise
/// the frame waits for the rest.
pub proof fn lemma_take_frame_law(buf: Seq<u8>)
    ensures
        buf.len() < 3 ==> spec_take_frame(buf) == Ok::<Option<(u8, int)>, FrameError>(None),
        buf.len() >= 3 ==> ({
            let total = 3 + buf[1] * 256 + buf[2];
            &&& total > 1500 ==> spec_take_frame(buf) == Err::<Option<(u8, int)>, FrameError>(
                FrameError::FrameTooLarge,
            )
            &&& total <= 1500 && total <= buf.len() ==> spec_take_frame(buf) == Ok::<
                Option<(u8, int)>,
                FrameError,
            >(Some((buf[0], total)))
            &&& total <= 1500 && total > buf.len() ==> spec_take_frame(buf) == Ok::<
                Option<(u8, int)>,
                FrameError,
            >(None)
        }),
{
}

/// The version response is the 9 bytes 5, 0, 6 (type VERSION, body length
/// 6), 2 (code: response), 1 (TLV subcode: version) and the version in
/// big-endian order; the heartbeat is the 3 bytes 2, 0, 0.
pub proof fn lemma_fixed_frames_layout(ver: u32)
    ensures
        version_resp_bytes(ver).len() == 9,
        version_resp_bytes(ver)[0] == 5 && version_resp_bytes(ver)[1] == 0
            && version_resp_bytes(ver)[2] == 6 && version_resp_bytes(ver)[3] == 2
            && version_resp_bytes(ver)[4] == 1,
        version_resp_bytes(ver)[5] * 16777216 + version_resp_bytes(ver)[6] * 65536
            + version_resp_bytes(ver)[7] * 256 + version_resp_bytes(ver)[8] == ver,
        heartbeat_bytes().len() == 3,
        heartbeat_bytes()[0] == 2 && heartbeat_bytes()[1] == 0 && heartbeat_bytes()[2] == 0,
{
    let b = version_resp_bytes(ver);
    let q0 = ver / 0x100_0000;
    let q1 = (ver / 0x1_0000) % 0x100;
    let q2 = (ver / 0x100) % 0x100;
    let q3 = ver % 0x100;
    assert(q0 * 0x100_0000 + q1 * 0x1_0000 + q2 * 0x100 + q3 == ver) by (nonlinear_arith)
        requires
            q0 == ver / 0x100_0000,
            q1 == (ver / 0x1_0000) % 0x100,
            q2 == (ver / 0x100) % 0x100,
            q3 == ver % 0x100,
    ;
}

} // verus!
