//! Laws of a whole remote-control connection.
//!
//! The host drives an [`RcSession`](super::RcSession) by appending each read
//! with `receive` and then calling `next_step` until it returns `Idle`,
//! writing each version response and confirming it with `version_sent`.
//! [`spec_drain`] is what one such round gives and [`spec_feed`] what a
//! whole series of reads gives. Both are shown equal to a plain walk over
//! the complete frames of the byte stream ([`spec_process`]), from which
//! the connection-level laws follow: the steps do not depend on how the
//! bytes were split into reads, the version request is answered once per
//! connection, and key frames are handled alike before and after the
//! handshake.

use super::{spec_dispatch, spec_next_step, StepView};
use crate::keymap::spec_keymap;
use crate::proto::{spec_parse_key_frame, spec_take_frame, ty, version_resp_bytes};
use crate::{RemoteKey, REPORT_VERSION};
use vstd::prelude::*;

verus! {

/// The effect of one complete frame of type `t`: the new handshake flag,
/// the new time of the last accepted PlayPause, and the steps it yields
/// (none or one).
pub open spec fn frame_step(t: u8, frame: Seq<u8>, hs: bool, ok_last: Option<u64>, now: u64) -> (
    bool,
    Option<u64>,
    Seq<StepView>,
) {
    if t == ty::VERSION && !hs {
        (true, ok_last, seq![StepView::SendVersion(version_resp_bytes(REPORT_VERSION))])
    } else if t == ty::KEY && spec_parse_key_frame(frame) is Ok && spec_dispatch(
        spec_parse_key_frame(frame)->Ok_0,
        ok_last,
        now,
    ).0 is Some {
        let d = spec_dispatch(spec_parse_key_frame(frame)->Ok_0, ok_last, now);
        (hs, d.1, seq![StepView::Key(d.0->Some_0)])
    } else {
        (hs, ok_last, Seq::empty())
    }
}

/// Walks the complete frames at the front of `buf`, in order: gives the
/// bytes left over (an incomplete frame, or nothing after an oversized
/// header), the handshake flag, the time of the last accepted PlayPause and
/// all the steps.
pub open spec fn spec_process(buf: Seq<u8>, hs: bool, ok_last: Option<u64>, now: u64) -> (
    Seq<u8>,
    bool,
    Option<u64>,
    Seq<StepView>,
)
    decreases buf.len(),
{
    match spec_take_frame(buf) {
        Err(_) => (Seq::empty(), hs, ok_last, Seq::empty()),
        Ok(None) => (buf, hs, ok_last, Seq::empty()),
        Ok(Some((t, n))) => {
            if n < 3 || n > buf.len() {
                (buf, hs, ok_last, Seq::empty())
            } else {
                let e = frame_step(t, buf.take(n), hs, ok_last, now);
                let r = spec_process(buf.skip(n), e.0, e.1, now);
                (r.0, r.1, r.2, e.2 + r.3)
            }
        },
    }
}

/// One round of the host's loop after a read: `next_step` until `Idle`,
/// every version response written and confirmed with `version_sent`.
/// Gives the bytes left buffered, the handshake flag, the time of the last
/// accepted PlayPause and the steps handed out.
pub open spec fn spec_drain(buf: Seq<u8>, hs: bool, ok_last: Option<u64>, now: u64) -> (
    Seq<u8>,
    bool,
    Option<u64>,
    Seq<StepView>,
)
    decreases buf.len(),
{
    let (rest, ok2, step) = spec_next_step(buf, hs, ok_last, now);
    if step is Idle || rest.len() >= buf.len() {
        (rest, hs, ok2, Seq::empty())
    } else {
        let r = spec_drain(rest, hs || step is SendVersion, ok2, now);
        (r.0, r.1, r.2, seq![step] + r.3)
    }
}

/// A series of reads, each appended with `receive` and drained at the time
/// given for it in `nows`.
pub open spec fn spec_feed(
    buf: Seq<u8>,
    hs: bool,
    ok_last: Option<u64>,
    reads: Seq<Seq<u8>>,
    nows: Seq<u64>,
) -> (Seq<u8>, bool, Option<u64>, Seq<StepView>)
    decreases reads.len(),
{
    if reads.len() == 0 || nows.len() == 0 {
        (buf, hs, ok_last, Seq::empty())
    } else {
        let d = spec_drain(buf + reads[0], hs, ok_last, nows[0]);
        let r = spec_feed(d.0, d.1, d.2, reads.drop_first(), nows.drop_first());
        (r.0, r.1, r.2, d.3 + r.3)
    }
}

/// A complete frame that is a PlayPause down press.
pub open spec fn is_play_pause_press(t: u8, frame: Seq<u8>) -> bool {
    &&& t == ty::KEY
    &&& spec_parse_key_frame(frame) is Ok
    &&& spec_parse_key_frame(frame)->Ok_0.code == 1
    &&& spec_parse_key_frame(frame)->Ok_0.key_action == 0
    &&& spec_keymap(
        spec_parse_key_frame(frame)->Ok_0.key_code,
        spec_parse_key_frame(frame)->Ok_0.key_action,
    ) == RemoteKey::PlayPause
}

/// A byte stream whose frames never announce more than the largest frame
/// and hold no PlayPause press; an incomplete frame may end it.
pub open spec fn plain_stream(buf: Seq<u8>) -> bool
    decreases buf.len(),
{
    match spec_take_frame(buf) {
        Err(_) => false,
        Ok(None) => true,
        Ok(Some((t, n))) => {
            if n < 3 || n > buf.len() {
                true
            } else {
                !is_play_pause_press(t, buf.take(n)) && plain_stream(buf.skip(n))
            }
        },
    }
}

/// Number of version responses among `steps`.
pub open spec fn count_versions(steps: Seq<StepView>) -> nat
    decreases steps.len(),
{
    if steps.len() == 0 {
        0
    } else {
        (if steps[0] is SendVersion {
            1nat
        } else {
            0nat
        }) + count_versions(steps.drop_first())
    }
}

/// The keys among `steps`, in order.
pub open spec fn keys_of(steps: Seq<StepView>) -> Seq<RemoteKey>
    decreases steps.len(),
{
    if steps.len() == 0 {
        Seq::empty()
    } else {
        (if steps[0] is Key {
            seq![steps[0]->Key_0]
        } else {
            Seq::empty()
        }) + keys_of(steps.drop_first())
    }
}

proof fn lemma_count_versions_add(x: Seq<StepView>, y: Seq<StepView>)
    ensures
        count_versions(x + y) == count_versions(x) + count_versions(y),
    decreases x.len(),
{
    if x.len() > 0 {
        assert((x + y).drop_first() =~= x.drop_first() + y);
        lemma_count_versions_add(x.drop_first(), y);
    } else {
        assert(x + y =~= y);
    }
}

proof fn lemma_keys_of_add(x: Seq<StepView>, y: Seq<StepView>)
    ensures
        keys_of(x + y) == keys_of(x) + keys_of(y),
    decreases x.len(),
{
    if x.len() > 0 {
        assert((x + y).drop_first() =~= x.drop_first() + y);
        lemma_keys_of_add(x.drop_first(), y);
        assert(keys_of(x + y) =~= keys_of(x) + keys_of(y));
    } else {
        assert(x + y =~= y);
        assert(keys_of(x) =~= Seq::<RemoteKey>::empty());
        assert(keys_of(x) + keys_of(y) =~= keys_of(y));
    }
}

/// One `next_step` is one stretch of [`spec_process`]: `Idle` ends the walk
/// where it stands, and any other step is the first step of the walk, which
/// then goes on from the bytes left over.
proof fn lemma_next_step_is_process_prefix(buf: Seq<u8>, hs: bool, ok_last: Option<u64>, now: u64)
    ensures
        ({
            let (rest, ok2, step) = spec_next_step(buf, hs, ok_last, now);
            let p = spec_process(buf, hs, ok_last, now);
            &&& step is Idle ==> ok2 == ok_last && p == (rest, hs, ok_last, Seq::<StepView>::empty())
            &&& !(step is Idle) ==> rest.len() < buf.len() && ({
                let r = spec_process(rest, hs || step is SendVersion, ok2, now);
                p == (r.0, r.1, r.2, seq![step] + r.3)
            })
        }),
    decreases buf.len(),
{
    match spec_take_frame(buf) {
        Err(_) => {},
        Ok(None) => {},
        Ok(Some((t, n))) => {
            if !(n < 3 || n > buf.len()) {
                let rest = buf.skip(n);
                let frame = buf.take(n);
                let e = frame_step(t, frame, hs, ok_last, now);
                if t == ty::VERSION && !hs {
                } else if t == ty::KEY && spec_parse_key_frame(frame) is Ok && spec_dispatch(
                    spec_parse_key_frame(frame)->Ok_0,
                    ok_last,
                    now,
                ).0 is Some {
                } else {
                    assert(e.2 =~= Seq::<StepView>::empty());
                    assert(e.1 == ok_last);
                    lemma_next_step_is_process_prefix(rest, hs, ok_last, now);
                    let r = spec_process(rest, hs, ok_last, now);
                    assert(e.2 + r.3 =~= r.3);
                }
            }
        },
    }
}

/// Draining with `next_step` (the host's loop) walks exactly the complete
/// frames of the buffer.
pub proof fn lemma_drain_is_process(buf: Seq<u8>, hs: bool, ok_last: Option<u64>, now: u64)
    ensures
        spec_drain(buf, hs, ok_last, now) == spec_process(buf, hs, ok_last, now),
    decreases buf.len(),
{
    lemma_next_step_is_process_prefix(buf, hs, ok_last, now);
    let (rest, ok2, step) = spec_next_step(buf, hs, ok_last, now);
    if !(step is Idle) {
        lemma_drain_is_process(rest, hs || step is SendVersion, ok2, now);
    }
}

/// A frame that is not a PlayPause press has the same effect at any time
/// and leaves the debounce state alone.
proof fn lemma_frame_step_timeless(
    t: u8,
    frame: Seq<u8>,
    hs: bool,
    ok1: Option<u64>,
    ok2: Option<u64>,
    now1: u64,
    now2: u64,
)
    requires
        !is_play_pause_press(t, frame),
    ensures
        frame_step(t, frame, hs, ok1, now1).0 == frame_step(t, frame, hs, ok2, now2).0,
        frame_step(t, frame, hs, ok1, now1).1 == ok1,
        frame_step(t, frame, hs, ok2, now2).1 == ok2,
        frame_step(t, frame, hs, ok1, now1).2 == frame_step(t, frame, hs, ok2, now2).2,
{
}

/// On a plain stream the walk does not depend on the time nor on the
/// debounce state, which it leaves alone.
proof fn lemma_process_timeless(
    buf: Seq<u8>,
    hs: bool,
    ok1: Option<u64>,
    ok2: Option<u64>,
    now1: u64,
    now2: u64,
)
    requires
        plain_stream(buf),
    ensures
        spec_process(buf, hs, ok1, now1).0 == spec_process(buf, hs, ok2, now2).0,
        spec_process(buf, hs, ok1, now1).1 == spec_process(buf, hs, ok2, now2).1,
        spec_process(buf, hs, ok1, now1).2 == ok1,
        spec_process(buf, hs, ok2, now2).2 == ok2,
        spec_process(buf, hs, ok1, now1).3 == spec_process(buf, hs, ok2, now2).3,
    decreases buf.len(),
{
    match spec_take_frame(buf) {
        Err(_) => {},
        Ok(None) => {},
        Ok(Some((t, n))) => {
            if !(n < 3 || n > buf.len()) {
                let frame = buf.take(n);
                lemma_frame_step_timeless(t, frame, hs, ok1, ok2, now1, now2);
                let e1 = frame_step(t, frame, hs, ok1, now1);
                let e2 = frame_step(t, frame, hs, ok2, now2);
                lemma_process_timeless(buf.skip(n), e1.0, e1.1, e2.1, now1, now2);
            }
        },
    }
}

/// Splitting a plain stream in two reads gives what one read gives: the
/// walk over the first part, resumed on what it left over followed by the
/// second part, ends in the same state with the same steps as the walk over
/// the whole.
proof fn lemma_process_split(
    a: Seq<u8>,
    b: Seq<u8>,
    hs: bool,
    ok_last: Option<u64>,
    now1: u64,
    now2: u64,
    now: u64,
)
    requires
        plain_stream(a + b),
    ensures
        ({
            let p1 = spec_process(a, hs, ok_last, now1);
            let p2 = spec_process(p1.0 + b, p1.1, p1.2, now2);
            let p = spec_process(a + b, hs, ok_last, now);
            &&& plain_stream(p1.0 + b)
            &&& p2.0 == p.0
            &&& p2.1 == p.1
            &&& p2.2 == p.2
            &&& p1.3 + p2.3 == p.3
        }),
    decreases a.len(),
{
    let ab = a + b;
    if a.len() >= 3 {
        assert(ab[0] == a[0] && ab[1] == a[1] && ab[2] == a[2]);
    }
    match spec_take_frame(a) {
        Err(_) => {
            assert(spec_take_frame(ab) is Err);
        },
        Ok(None) => {
            lemma_process_timeless(ab, hs, ok_last, ok_last, now2, now);
            assert(Seq::<StepView>::empty() + spec_process(ab, hs, ok_last, now2).3 =~= spec_process(
                ab,
                hs,
                ok_last,
                now2,
            ).3);
        },
        Ok(Some((t, n))) => {
            assert(spec_take_frame(ab) == spec_take_frame(a));
            assert(ab.take(n) =~= a.take(n));
            assert(ab.skip(n) =~= a.skip(n) + b);
            let frame = a.take(n);
            lemma_frame_step_timeless(t, frame, hs, ok_last, ok_last, now1, now);
            let e = frame_step(t, frame, hs, ok_last, now1);
            lemma_process_split(a.skip(n), b, e.0, e.1, now1, now2, now);
            let q1 = spec_process(a.skip(n), e.0, e.1, now1);
            let q2 = spec_process(q1.0 + b, q1.1, q1.2, now2);
            assert(e.2 + q1.3 + q2.3 =~= e.2 + (q1.3 + q2.3));
        },
    }
}

/// Starting from a buffer that holds no complete frame (a fresh session, or
/// one whose last `next_step` was `Idle`), bytes that arrive in any series
/// of reads, drained after each read at any times, give the same steps and the same final state as the same
/// bytes arriving in one read, provided no frame announces more than the
/// largest frame and none is a PlayPause press (whose debouncing depends on
/// the time): coalesced frames are all handled, and a frame split across
/// reads is reassembled before it is handled.
pub proof fn lemma_feed_independent_of_reads(
    buf: Seq<u8>,
    hs: bool,
    ok_last: Option<u64>,
    reads: Seq<Seq<u8>>,
    nows: Seq<u64>,
    now: u64,
)
    requires
        reads.len() == nows.len(),
        spec_take_frame(buf) == Ok::<Option<(u8, int)>, crate::proto::FrameError>(None),
        plain_stream(buf + reads.flatten()),
    ensures
        spec_feed(buf, hs, ok_last, reads, nows) == spec_process(
            buf + reads.flatten(),
            hs,
            ok_last,
            now,
        ),
        spec_feed(buf, hs, ok_last, reads, nows) == spec_drain(
            buf + reads.flatten(),
            hs,
            ok_last,
            now,
        ),
    decreases reads.len(),
{
    lemma_drain_is_process(buf + reads.flatten(), hs, ok_last, now);
    if reads.len() == 0 {
        assert(buf + reads.flatten() =~= buf);
    } else {
        let a = buf + reads[0];
        let rest_reads = reads.drop_first();
        assert(buf + reads.flatten() =~= a + rest_reads.flatten());
        lemma_drain_is_process(a, hs, ok_last, nows[0]);
        lemma_process_split(a, rest_reads.flatten(), hs, ok_last, nows[0], now, now);
        let d = spec_process(a, hs, ok_last, nows[0]);
        lemma_process_leaves_no_frame(a, hs, ok_last, nows[0]);
        lemma_feed_independent_of_reads(d.0, d.1, d.2, rest_reads, nows.drop_first(), now);
    }
}

/// What a walk leaves over holds no complete frame.
proof fn lemma_process_leaves_no_frame(buf: Seq<u8>, hs: bool, ok_last: Option<u64>, now: u64)
    ensures
        spec_take_frame(spec_process(buf, hs, ok_last, now).0) == Ok::<
            Option<(u8, int)>,
            crate::proto::FrameError,
        >(None),
    decreases buf.len(),
{
    match spec_take_frame(buf) {
        Err(_) => {},
        Ok(None) => {},
        Ok(Some((t, n))) => {
            if !(n < 3 || n > buf.len()) {
                let e = frame_step(t, buf.take(n), hs, ok_last, now);
                lemma_process_leaves_no_frame(buf.skip(n), e.0, e.1, now);
            }
        },
    }
}

pub open spec fn flag(b: bool) -> nat {
    if b {
        1
    } else {
        0
    }
}

proof fn lemma_process_counts_versions(buf: Seq<u8>, hs: bool, ok_last: Option<u64>, now: u64)
    ensures
        ({
            let p = spec_process(buf, hs, ok_last, now);
            count_versions(p.3) + flag(hs) == flag(p.1)
        }),
    decreases buf.len(),
{
    match spec_take_frame(buf) {
        Err(_) => {},
        Ok(None) => {},
        Ok(Some((t, n))) => {
            if !(n < 3 || n > buf.len()) {
                let e = frame_step(t, buf.take(n), hs, ok_last, now);
                lemma_process_counts_versions(buf.skip(n), e.0, e.1, now);
                let r = spec_process(buf.skip(n), e.0, e.1, now);
                lemma_count_versions_add(e.2, r.3);
                assert(count_versions(e.2) + flag(hs) == flag(e.0)) by {
                    if e.2.len() > 0 {
                        assert(e.2.drop_first() =~= Seq::<StepView>::empty());
                        assert(count_versions(e.2.drop_first()) == 0);
                    } else {
                        assert(count_versions(e.2) == 0);
                    }
                }
            }
        },
    }
}

/// The version request is answered once per connection: over any series of
/// reads drained by the host, the number of version responses handed out,
/// plus one if the handshake was already done, is one if the handshake is
/// done at the end and zero otherwise. So at most one is ever handed out,
/// none once the handshake is done, and the handshake is done exactly when
/// one was.
pub proof fn lemma_version_answered_once(
    buf: Seq<u8>,
    hs: bool,
    ok_last: Option<u64>,
    reads: Seq<Seq<u8>>,
    nows: Seq<u64>,
)
    ensures
        ({
            let f = spec_feed(buf, hs, ok_last, reads, nows);
            &&& count_versions(f.3) + flag(hs) == flag(f.1)
            &&& count_versions(f.3) <= 1
            &&& hs ==> count_versions(f.3) == 0 && f.1
        }),
    decreases reads.len(),
{
    if reads.len() == 0 || nows.len() == 0 {
        assert(count_versions(Seq::<StepView>::empty()) == 0);
    } else {
        let a = buf + reads[0];
        lemma_drain_is_process(a, hs, ok_last, nows[0]);
        lemma_process_counts_versions(a, hs, ok_last, nows[0]);
        let d = spec_drain(a, hs, ok_last, nows[0]);
        lemma_version_answered_once(d.0, d.1, d.2, reads.drop_first(), nows.drop_first());
        let r = spec_feed(d.0, d.1, d.2, reads.drop_first(), nows.drop_first());
        lemma_count_versions_add(d.3, r.3);
    }
}

proof fn lemma_process_keys_ignore_handshake(
    buf: Seq<u8>,
    hs1: bool,
    hs2: bool,
    ok_last: Option<u64>,
    now: u64,
)
    ensures
        ({
            let p1 = spec_process(buf, hs1, ok_last, now);
            let p2 = spec_process(buf, hs2, ok_last, now);
            &&& p1.0 == p2.0
            &&& p1.2 == p2.2
            &&& keys_of(p1.3) == keys_of(p2.3)
        }),
    decreases buf.len(),
{
    match spec_take_frame(buf) {
        Err(_) => {},
        Ok(None) => {},
        Ok(Some((t, n))) => {
            if !(n < 3 || n > buf.len()) {
                let frame = buf.take(n);
                let e1 = frame_step(t, frame, hs1, ok_last, now);
                let e2 = frame_step(t, frame, hs2, ok_last, now);
                assert(e1.1 == e2.1);
                assert(keys_of(e1.2) == keys_of(e2.2)) by {
                    if e1.2.len() > 0 {
                        assert(e1.2.drop_first() =~= Seq::<StepView>::empty());
                    }
                    if e2.2.len() > 0 {
                        assert(e2.2.drop_first() =~= Seq::<StepView>::empty());
                    }
                    assert(keys_of(Seq::<StepView>::empty()) =~= Seq::<RemoteKey>::empty());
                }
                lemma_process_keys_ignore_handshake(buf.skip(n), e1.0, e2.0, e1.1, now);
                let r1 = spec_process(buf.skip(n), e1.0, e1.1, now);
                let r2 = spec_process(buf.skip(n), e2.0, e2.1, now);
                lemma_keys_of_add(e1.2, r1.3);
                lemma_keys_of_add(e2.2, r2.3);
            }
        },
    }
}

/// Key frames are handled alike before and after the handshake: over any
/// series of reads, the keys delivered, the bytes left buffered and the
/// debounce state do not depend on whether the handshake was done.
pub proof fn lemma_keys_ignore_handshake(
    buf: Seq<u8>,
    hs1: bool,
    hs2: bool,
    ok_last: Option<u64>,
    reads: Seq<Seq<u8>>,
    nows: Seq<u64>,
)
    ensures
        ({
            let f1 = spec_feed(buf, hs1, ok_last, reads, nows);
            let f2 = spec_feed(buf, hs2, ok_last, reads, nows);
            &&& f1.0 == f2.0
            &&& f1.2 == f2.2
            &&& keys_of(f1.3) == keys_of(f2.3)
        }),
    decreases reads.len(),
{
    if reads.len() == 0 || nows.len() == 0 {
    } else {
        let a = buf + reads[0];
        lemma_drain_is_process(a, hs1, ok_last, nows[0]);
        lemma_drain_is_process(a, hs2, ok_last, nows[0]);
        lemma_process_keys_ignore_handshake(a, hs1, hs2, ok_last, nows[0]);
        let d1 = spec_drain(a, hs1, ok_last, nows[0]);
        let d2 = spec_drain(a, hs2, ok_last, nows[0]);
        lemma_keys_ignore_handshake(d1.0, d1.1, d2.1, d1.2, reads.drop_first(), nows.drop_first());
        let r1 = spec_feed(d1.0, d1.1, d1.2, reads.drop_first(), nows.drop_first());
        let r2 = spec_feed(d2.0, d2.1, d2.2, reads.drop_first(), nows.drop_first());
        lemma_keys_of_add(d1.3, r1.3);
        lemma_keys_of_add(d2.3, r2.3);
    }
}

/// The stream holds a complete VERSION frame among the frames a walk
/// reaches.
pub open spec fn has_version_frame(buf: Seq<u8>) -> bool
    decreases buf.len(),
{
    match spec_take_frame(buf) {
        Ok(Some((t, n))) => {
            if n < 3 || n > buf.len() {
                false
            } else {
                t == ty::VERSION || has_version_frame(buf.skip(n))
            }
        },
        _ => false,
    }
}

/// Where the first VERSION frame of the walk ends.
pub open spec fn first_version_end(buf: Seq<u8>) -> int
    decreases buf.len(),
{
    match spec_take_frame(buf) {
        Ok(Some((t, n))) => {
            if n < 3 || n > buf.len() {
                0
            } else if t == ty::VERSION {
                n
            } else {
                n + first_version_end(buf.skip(n))
            }
        },
        _ => 0,
    }
}

proof fn lemma_take_frame_of_prefix(buf: Seq<u8>, k: int)
    requires
        spec_take_frame(buf) is Ok,
        spec_take_frame(buf)->Ok_0 is Some,
        spec_take_frame(buf)->Ok_0->Some_0.1 <= k <= buf.len(),
    ensures
        spec_take_frame(buf.take(k)) == spec_take_frame(buf),
        buf.take(k).take(spec_take_frame(buf)->Ok_0->Some_0.1) == buf.take(
            spec_take_frame(buf)->Ok_0->Some_0.1,
        ),
{
    let n = spec_take_frame(buf)->Ok_0->Some_0.1;
    assert(buf.take(k)[0] == buf[0] && buf.take(k)[1] == buf[1] && buf.take(k)[2] == buf[2]);
    assert(buf.take(k).take(n) =~= buf.take(n));
}

/// In one read, a stream with a complete VERSION frame, walked before the
/// handshake, is answered exactly once, right at its first VERSION frame:
/// the steps are those of the frames up to and including that frame, the
/// last of which is the version response, followed by those of the rest
/// walked with the handshake done, which hold no version response.
pub proof fn lemma_first_version_frame_answered(buf: Seq<u8>, ok_last: Option<u64>, now: u64)
    requires
        has_version_frame(buf),
    ensures
        ({
            let k = first_version_end(buf);
            let p = spec_process(buf, false, ok_last, now);
            let q = spec_process(buf.take(k), false, ok_last, now);
            let r = spec_process(buf.skip(k), true, q.2, now);
            &&& 3 <= k <= buf.len()
            &&& p.1
            &&& p.3 == q.3 + r.3
            &&& q.3.len() > 0
            &&& q.3.last() == StepView::SendVersion(version_resp_bytes(REPORT_VERSION))
            &&& count_versions(q.3) == 1
            &&& count_versions(r.3) == 0
            &&& count_versions(p.3) == 1
            &&& p.0 == r.0
            &&& p.2 == r.2
        }),
    decreases buf.len(),
{
    let n = spec_take_frame(buf)->Ok_0->Some_0.1;
    let t = spec_take_frame(buf)->Ok_0->Some_0.0;
    let frame = buf.take(n);
    let e = frame_step(t, frame, false, ok_last, now);
    if t == ty::VERSION {
        let k = n;
        lemma_take_frame_of_prefix(buf, k);
        let bk = buf.take(k);
        assert(bk.skip(n) =~= Seq::<u8>::empty());
        assert(spec_take_frame(Seq::<u8>::empty()) is Ok);
        assert(spec_process(Seq::<u8>::empty(), true, ok_last, now).3 =~= Seq::<StepView>::empty());
        assert(frame_step(t, bk.take(n), false, ok_last, now) == e);
        let q = spec_process(bk, false, ok_last, now);
        assert(q.3 =~= e.2 + Seq::<StepView>::empty());
        assert(q.3 =~= seq![StepView::SendVersion(version_resp_bytes(REPORT_VERSION))]);
        assert(q.3.drop_first() =~= Seq::<StepView>::empty());
        assert(count_versions(q.3.drop_first()) == 0);
        lemma_process_counts_versions(buf.skip(k), true, ok_last, now);
        let r = spec_process(buf.skip(k), true, ok_last, now);
        lemma_count_versions_add(q.3, r.3);
    } else {
        let rest = buf.skip(n);
        lemma_first_version_frame_answered(rest, e.1, now);
        let k2 = first_version_end(rest);
        let k = n + k2;
        lemma_take_frame_of_prefix(buf, k);
        let bk = buf.take(k);
        assert(bk.skip(n) =~= rest.take(k2));
        assert(buf.skip(k) =~= rest.skip(k2));
        let q2 = spec_process(rest.take(k2), false, e.1, now);
        let r2 = spec_process(rest.skip(k2), true, q2.2, now);
        let q = spec_process(bk, false, ok_last, now);
        assert(q.3 == e.2 + q2.3);
        assert(e.2.len() <= 1);
        assert(count_versions(e.2) == 0) by {
            if e.2.len() > 0 {
                assert(e.2.drop_first() =~= Seq::<StepView>::empty());
                assert(count_versions(e.2.drop_first()) == 0);
            }
        }
        lemma_count_versions_add(e.2, q2.3);
        lemma_count_versions_add(e.2, spec_process(rest, false, e.1, now).3);
        assert(e.2 + q2.3 + r2.3 =~= e.2 + (q2.3 + r2.3));
        assert((e.2 + q2.3).last() == q2.3.last());
    }
}

/// Over any series of reads of a plain stream that starts on a frame
/// boundary before the handshake, a complete VERSION frame anywhere in the
/// stream means the version response is handed out exactly once and the
/// handshake ends done.
pub proof fn lemma_version_answered_in_feed(
    buf: Seq<u8>,
    ok_last: Option<u64>,
    reads: Seq<Seq<u8>>,
    nows: Seq<u64>,
    now: u64,
)
    requires
        reads.len() == nows.len(),
        spec_take_frame(buf) == Ok::<Option<(u8, int)>, crate::proto::FrameError>(None),
        plain_stream(buf + reads.flatten()),
        has_version_frame(buf + reads.flatten()),
    ensures
        ({
            let f = spec_feed(buf, false, ok_last, reads, nows);
            &&& f.1
            &&& count_versions(f.3) == 1
        }),
{
    lemma_feed_independent_of_reads(buf, false, ok_last, reads, nows, now);
    lemma_first_version_frame_answered(buf + reads.flatten(), ok_last, now);
}

} // verus!
