//! Decisions of the remote-control service, free of sockets and clocks.
//!
//! The host owns the TCP connection and a monotonic millisecond clock; for
//! each connection it keeps an [`RcSession`], hands it the bytes it reads
//! and the current time, and carries out the steps the session returns.
//! The HTTP authentication replies are in [`http`]; the laws of a whole
//! connection are in [`connection`].

pub mod connection;
pub mod http;

use crate::keymap::{keymap, spec_keymap};
use crate::proto::{
    build_heartbeat, build_version_resp, heartbeat_bytes, parse_key_frame, spec_parse_key_frame,
    spec_take_frame, try_take_frame, ty, version_resp_bytes, AirkanFrame,
};
use crate::{RemoteKey, REPORT_VERSION};
use vstd::prelude::*;

verus! {

/// Two PlayPause presses closer together than this (in milliseconds) count
/// as one.
pub const PLAY_PAUSE_DEBOUNCE_MS: u64 = 300;

/// The device sends a heartbeat whenever this many milliseconds have passed
/// since the last one, so that the phone's watchdog does not expire.
pub const HEARTBEAT_INTERVAL_MS: u64 = 4000;

/// Time from `since` to `now` on a monotonic clock; zero if `now` is earlier.
pub open spec fn elapsed(since: u64, now: u64) -> int {
    if now >= since {
        now - since
    } else {
        0
    }
}

/// What a parsed key frame delivers, and the new time of the last accepted
/// PlayPause: only down presses (code 1, action 0) are delivered, and a
/// PlayPause within [`PLAY_PAUSE_DEBOUNCE_MS`] of the last accepted one is
/// dropped.
pub open spec fn spec_dispatch(f: AirkanFrame, ok_last: Option<u64>, now: u64) -> (
    Option<RemoteKey>,
    Option<u64>,
) {
    if f.code != 1 || f.key_action != 0 {
        (None, ok_last)
    } else {
        let key = spec_keymap(f.key_code, f.key_action);
        if key == RemoteKey::PlayPause {
            if ok_last is Some && elapsed(ok_last->Some_0, now) < PLAY_PAUSE_DEBOUNCE_MS {
                (None, ok_last)
            } else {
                (Some(key), Some(now))
            }
        } else {
            (Some(key), ok_last)
        }
    }
}

/// Decides which key, if any, a parsed key frame delivers at time `now_ms`,
/// and records the time of an accepted PlayPause in `ok_last`.
pub fn dispatch_key(f: &AirkanFrame, ok_last: &mut Option<u64>, now_ms: u64) -> (k: Option<
    RemoteKey,
>)
    ensures
        (k, *final(ok_last)) == spec_dispatch(*f, *old(ok_last), now_ms),
        k is Some ==> f.code == 1 && f.key_action == 0,
{
    if f.code != 1 || f.key_action != 0 {
        return None;
    }
    let key = keymap(f.key_code, f.key_action);
    if key == RemoteKey::PlayPause {
        match *ok_last {
            Some(t) => {
                let since: u64 = if now_ms >= t {
                    now_ms - t
                } else {
                    0
                };
                if since < PLAY_PAUSE_DEBOUNCE_MS {
                    return None;
                }
            },
            None => {},
        }
        *ok_last = Some(now_ms);
    }
    Some(key)
}

/// A PlayPause accepted at `t1` suppresses every PlayPause press that
/// follows within the debounce window, whatever the key frame that carries
/// it; one that comes at or after the end of the window is delivered.
pub proof fn lemma_play_pause_debounce(
    f1: AirkanFrame,
    f2: AirkanFrame,
    ok_last: Option<u64>,
    t1: u64,
    t2: u64,
)
    requires
        spec_dispatch(f1, ok_last, t1).0 == Some(RemoteKey::PlayPause),
        f2.code == 1,
        f2.key_action == 0,
        spec_keymap(f2.key_code, f2.key_action) == RemoteKey::PlayPause,
        t1 <= t2,
    ensures
        t2 - t1 < 300 ==> spec_dispatch(f2, spec_dispatch(f1, ok_last, t1).1, t2).0
            is None,
        t2 - t1 >= 300 ==> spec_dispatch(
            f2,
            spec_dispatch(f1, ok_last, t1).1,
            t2,
        ).0 == Some(RemoteKey::PlayPause),
{
}

/// Every key other than PlayPause is delivered on each down press, however
/// close together, and leaves the debounce state alone.
pub proof fn lemma_other_keys_not_debounced(f: AirkanFrame, ok_last: Option<u64>, now: u64)
    requires
        f.code == 1,
        f.key_action == 0,
        spec_keymap(f.key_code, f.key_action) != RemoteKey::PlayPause,
    ensures
        spec_dispatch(f, ok_last, now) == (Some(spec_keymap(f.key_code, f.key_action)), ok_last),
{
}

/// What the host does next on a remote-control connection.
#[derive(Debug)]
pub enum RcStep {
    /// Nothing to do until more bytes arrive.
    Idle,
    /// Write this version response; on success report it with
    /// [`RcSession::version_sent`] and raise the connection status.
    SendVersion([u8; 9]),
    /// Deliver this key to the host.
    Key(RemoteKey),
}

/// The mathematical content of an [`RcStep`].
pub enum StepView {
    Idle,
    SendVersion(Seq<u8>),
    Key(RemoteKey),
}

impl View for RcStep {
    type V = StepView;

    open spec fn view(&self) -> StepView {
        match self {
            RcStep::Idle => StepView::Idle,
            RcStep::SendVersion(b) => StepView::SendVersion(b@),
            RcStep::Key(k) => StepView::Key(*k),
        }
    }
}

/// Processing of buffered bytes, frame by frame, up to the first frame that
/// asks something of the host: gives the bytes still buffered afterwards,
/// the new time of the last accepted PlayPause, and the step.
///
/// A version frame is answered while the handshake is not done; a key frame
/// that parses and is delivered yields its key; every other complete frame
/// (heartbeats, repeated version frames, key frames that are malformed or
/// not delivered, unknown types) is consumed silently. An incomplete frame
/// leaves the buffer as it is; an oversized header discards the buffer.
pub open spec fn spec_next_step(buf: Seq<u8>, handshake_done: bool, ok_last: Option<u64>, now: u64) -> (
    Seq<u8>,
    Option<u64>,
    StepView,
)
    decreases buf.len(),
{
    match spec_take_frame(buf) {
        Err(_) => (Seq::empty(), ok_last, StepView::Idle),
        Ok(None) => (buf, ok_last, StepView::Idle),
        Ok(Some((t, n))) => {
            let frame = buf.take(n);
            let rest = buf.skip(n);
            if n < 3 || n > buf.len() {
                (buf, ok_last, StepView::Idle)
            } else if t == ty::VERSION && !handshake_done {
                (rest, ok_last, StepView::SendVersion(version_resp_bytes(REPORT_VERSION)))
            } else if t == ty::KEY && spec_parse_key_frame(frame) is Ok && spec_dispatch(
                spec_parse_key_frame(frame)->Ok_0,
                ok_last,
                now,
            ).0 is Some {
                let d = spec_dispatch(spec_parse_key_frame(frame)->Ok_0, ok_last, now);
                (rest, d.1, StepView::Key(d.0->Some_0))
            } else {
                spec_next_step(rest, handshake_done, ok_last, now)
            }
        },
    }
}

/// State of one remote-control connection: bytes received but not yet
/// consumed, whether the version handshake is done, the time of the last
/// accepted PlayPause, and the time of the last heartbeat sent.
pub struct RcSession {
    buf: Vec<u8>,
    handshake_done: bool,
    ok_last: Option<u64>,
    last_heartbeat_ms: u64,
}

impl RcSession {
    /// Bytes received and not yet consumed.
    pub closed spec fn pending(&self) -> Seq<u8> {
        self.buf@
    }

    /// Whether the version handshake has been completed.
    pub closed spec fn handshake_done(&self) -> bool {
        self.handshake_done
    }

    /// Time of the last accepted PlayPause.
    pub closed spec fn last_play_pause(&self) -> Option<u64> {
        self.ok_last
    }

    /// Time of the last heartbeat sent (initially the connection time).
    pub closed spec fn last_heartbeat(&self) -> u64 {
        self.last_heartbeat_ms
    }

    /// A fresh connection accepted at `now_ms`.
    pub fn new(now_ms: u64) -> (s: Self)
        ensures
            s.pending() == Seq::<u8>::empty(),
            !s.handshake_done(),
            s.last_play_pause() is None,
            s.last_heartbeat() == now_ms,
    {
        RcSession { buf: Vec::new(), handshake_done: false, ok_last: None, last_heartbeat_ms: now_ms }
    }

    /// Appends bytes read from the connection.
    pub fn receive(&mut self, data: &[u8])
        ensures
            final(self).pending() == old(self).pending() + data@,
            final(self).handshake_done() == old(self).handshake_done(),
            final(self).last_play_pause() == old(self).last_play_pause(),
            final(self).last_heartbeat() == old(self).last_heartbeat(),
    {
        let ghost old_buf = self.buf@;
        let mut i: usize = 0;
        while i < data.len()
            invariant
                i <= data@.len(),
                self.buf@ == old_buf + data@.take(i as int),
                old_buf == old(self).buf@,
                self.handshake_done == old(self).handshake_done,
                self.ok_last == old(self).ok_last,
                self.last_heartbeat_ms == old(self).last_heartbeat_ms,
            decreases data@.len() - i,
        {
            self.buf.push(data[i]);
            i = i + 1;
            assert(self.buf@ =~= old_buf + data@.take(i as int));
        }
        assert(data@.take(data@.len() as int) =~= data@);
    }

    /// The heartbeat to send at `now_ms`, if one is due; a heartbeat that
    /// is handed out counts as sent.
    pub fn poll_heartbeat(&mut self, now_ms: u64) -> (hb: Option<[u8; 3]>)
        ensures
            (hb is Some, final(self).last_heartbeat()) == spec_poll_heartbeat(
                old(self).last_heartbeat(),
                now_ms,
            ),
            hb is Some <==> elapsed(old(self).last_heartbeat(), now_ms) >= HEARTBEAT_INTERVAL_MS,
            hb matches Some(b) ==> b@ == heartbeat_bytes() && final(self).last_heartbeat()
                == now_ms,
            hb is None ==> final(self).last_heartbeat() == old(self).last_heartbeat(),
            final(self).pending() == old(self).pending(),
            final(self).handshake_done() == old(self).handshake_done(),
            final(self).last_play_pause() == old(self).last_play_pause(),
    {
        let since: u64 = if now_ms >= self.last_heartbeat_ms {
            now_ms - self.last_heartbeat_ms
        } else {
            0
        };
        if since >= HEARTBEAT_INTERVAL_MS {
            self.last_heartbeat_ms = now_ms;
            Some(build_heartbeat())
        } else {
            None
        }
    }

    /// Records that the version response was written: the handshake is done.
    pub fn version_sent(&mut self)
        ensures
            final(self).handshake_done(),
            final(self).pending() == old(self).pending(),
            final(self).last_play_pause() == old(self).last_play_pause(),
            final(self).last_heartbeat() == old(self).last_heartbeat(),
    {
        self.handshake_done = true;
    }

    /// Consumes buffered frames up to the first one that asks something of
    /// the host, as [`spec_next_step`] describes.
    pub fn next_step(&mut self, now_ms: u64) -> (step: RcStep)
        ensures
            ({
                let (b, o, v) = spec_next_step(
                    old(self).pending(),
                    old(self).handshake_done(),
                    old(self).last_play_pause(),
                    now_ms,
                );
                &&& final(self).pending() == b
                &&& final(self).last_play_pause() == o
                &&& step@ == v
            }),
            final(self).handshake_done() == old(self).handshake_done(),
            final(self).last_heartbeat() == old(self).last_heartbeat(),
    {
        let ghost goal = spec_next_step(self.buf@, self.handshake_done, self.ok_last, now_ms);
        loop
            invariant
                spec_next_step(self.buf@, self.handshake_done, self.ok_last, now_ms) == goal,
                goal == spec_next_step(
                    old(self).buf@,
                    old(self).handshake_done,
                    old(self).ok_last,
                    now_ms,
                ),
                self.handshake_done == old(self).handshake_done,
                self.last_heartbeat_ms == old(self).last_heartbeat_ms,
            decreases self.buf@.len(),
        {
            let taken = try_take_frame(self.buf.as_slice());
            let (t, n) = match taken {
                Err(_) => {
                    self.buf.clear();
                    return RcStep::Idle;
                },
                Ok(None) => {
                    return RcStep::Idle;
                },
                Ok(Some((t, f))) => (t, f.len()),
            };
            let ghost before = self.buf@;
            let mut frame = self.buf.split_off(n);
            core::mem::swap(&mut self.buf, &mut frame);
            assert(frame@ =~= before.take(n as int));
            assert(self.buf@ =~= before.skip(n as int));
            if t == ty::VERSION && !self.handshake_done {
                let vr = build_version_resp(REPORT_VERSION);
                return RcStep::SendVersion(vr);
            }
            if t == ty::KEY {
                match parse_key_frame(frame.as_slice()) {
                    Ok(f) => {
                        match dispatch_key(&f, &mut self.ok_last, now_ms) {
                            Some(k) => {
                                return RcStep::Key(k);
                            },
                            None => {},
                        }
                    },
                    Err(_) => {},
                }
            }
        }
    }
}

/// What one step of a connection guarantees: the bytes left buffered are a
/// suffix of those before (frames are consumed in order, none is reordered
/// or invented); `Idle` leaves no complete frame behind; a version response
/// is only ever asked for while the handshake is not done, and it is the
/// response for [`REPORT_VERSION`].
pub proof fn lemma_next_step_properties(
    buf: Seq<u8>,
    handshake_done: bool,
    ok_last: Option<u64>,
    now: u64,
)
    ensures
        ({
            let (rest, _, step) = spec_next_step(buf, handshake_done, ok_last, now);
            &&& rest.len() <= buf.len()
            &&& rest == buf.skip(buf.len() - rest.len())
            &&& step is Idle ==> spec_take_frame(rest) == Ok::<Option<(u8, int)>, crate::proto::FrameError>(None)
            &&& handshake_done ==> !(step is SendVersion)
            &&& step matches StepView::SendVersion(b) ==> b == version_resp_bytes(REPORT_VERSION)
        }),
    decreases buf.len(),
{
    match spec_take_frame(buf) {
        Err(_) => {
            assert(buf.skip(buf.len() as int) =~= Seq::<u8>::empty());
        },
        Ok(None) => {
            assert(buf.skip(0) =~= buf);
        },
        Ok(Some((t, n))) => {
            let rest = buf.skip(n);
            if n < 3 || n > buf.len() {
                assert(buf.skip(0) =~= buf);
            } else {
                lemma_next_step_properties(rest, handshake_done, ok_last, now);
                let r = spec_next_step(rest, handshake_done, ok_last, now).0;
                assert(rest.skip(rest.len() - r.len()) =~= buf.skip(buf.len() - r.len()));
            }
        },
    }
}

/// Whether a heartbeat polled at `now` goes out, and the new time of the
/// last heartbeat.
pub open spec fn spec_poll_heartbeat(last: u64, now: u64) -> (bool, u64) {
    if elapsed(last, now) >= HEARTBEAT_INTERVAL_MS {
        (true, now)
    } else {
        (false, last)
    }
}

/// Polling for heartbeats at each of the times in `polls`, in order: gives
/// the final time of the last heartbeat and the times at which heartbeats
/// went out.
pub open spec fn spec_polls(last: u64, polls: Seq<u64>) -> (u64, Seq<u64>)
    decreases polls.len(),
{
    if polls.len() == 0 {
        (last, Seq::empty())
    } else {
        let (sent, l2) = spec_poll_heartbeat(last, polls[0]);
        let r = spec_polls(l2, polls.drop_first());
        (
            r.0,
            (if sent {
                seq![polls[0]]
            } else {
                Seq::empty()
            }) + r.1,
        )
    }
}

/// Poll times that never go back and follow each other, and `prev`, by at
/// most `gap` milliseconds.
pub open spec fn polls_within(prev: u64, polls: Seq<u64>, gap: u64) -> bool {
    &&& forall|i: int| 0 <= i < polls.len() ==> prev <= #[trigger] polls[i]
    &&& polls.len() > 0 ==> polls[0] - prev <= gap
    &&& forall|i: int|
        1 <= i < polls.len() ==> polls[i - 1] <= #[trigger] polls[i] && polls[i] - polls[i - 1]
            <= gap
}

proof fn lemma_polls_spacing(last: u64, prev: u64, polls: Seq<u64>, gap: u64)
    requires
        last <= prev,
        prev - last < HEARTBEAT_INTERVAL_MS,
        polls_within(prev, polls, gap),
    ensures
        ({
            let (fin, sent) = spec_polls(last, polls);
            let times = seq![last] + sent;
            &&& forall|j: int|
                1 <= j < times.len() ==> HEARTBEAT_INTERVAL_MS <= #[trigger] times[j] - times[j
                    - 1] < HEARTBEAT_INTERVAL_MS + gap
            &&& fin == times.last()
            &&& polls.len() > 0 ==> last <= fin <= polls.last() && polls.last() - fin
                < HEARTBEAT_INTERVAL_MS
        }),
    decreases polls.len(),
{
    if polls.len() == 0 {
        let times = seq![last] + Seq::<u64>::empty();
        assert(times =~= seq![last]);
    } else {
        let p0 = polls[0];
        let rest = polls.drop_first();
        let (sent0, l2) = spec_poll_heartbeat(last, p0);
        assert(polls_within(p0, rest, gap)) by {
            assert forall|i: int| 0 <= i < rest.len() implies p0 <= #[trigger] rest[i] by {
                if i > 0 {
                    assert(polls[0] <= polls[i + 1]) by {
                        lemma_sorted_polls(prev, polls, gap, 0, i + 1);
                    }
                } else {
                    assert(polls[0] <= polls[1]);
                }
            }
            assert forall|i: int| 1 <= i < rest.len() implies rest[i - 1] <= #[trigger] rest[i]
                && rest[i] - rest[i - 1] <= gap by {
                assert(polls[i] <= polls[i + 1] && polls[i + 1] - polls[i] <= gap);
            }
        }
        lemma_polls_spacing(l2, p0, rest, gap);
        let (fin, sent_rest) = spec_polls(l2, rest);
        let times2 = seq![l2] + sent_rest;
        let times = seq![last] + spec_polls(last, polls).1;
        if sent0 {
            assert(times =~= seq![last] + times2);
            assert forall|j: int| 1 <= j < times.len() implies HEARTBEAT_INTERVAL_MS
                <= #[trigger] times[j] - times[j - 1] < HEARTBEAT_INTERVAL_MS + gap by {
                if j > 1 {
                    assert(times[j] == times2[j - 1] && times[j - 1] == times2[j - 2]);
                }
            }
        } else {
            assert(times =~= times2);
        }
        if rest.len() > 0 {
            assert(rest.last() == polls.last());
        }
    }
}

proof fn lemma_sorted_polls(prev: u64, polls: Seq<u64>, gap: u64, i: int, j: int)
    requires
        polls_within(prev, polls, gap),
        0 <= i <= j < polls.len(),
    ensures
        polls[i] <= polls[j],
    decreases j - i,
{
    if i < j {
        lemma_sorted_polls(prev, polls, gap, i, j - 1);
        assert(polls[j - 1] <= polls[j]);
    }
}

/// Heartbeat spacing on a connection whose host polls at most `gap`
/// milliseconds apart (the read timeout plus the handling of one read):
/// starting from the connection time, consecutive heartbeats (and the first
/// one after the start) are at least [`HEARTBEAT_INTERVAL_MS`] and less than
/// `HEARTBEAT_INTERVAL_MS + gap` apart, so none goes out within the first
/// interval and one goes out in every window of that length; at the last
/// poll, less than an interval has passed since the last heartbeat.
pub proof fn lemma_heartbeat_spacing(start: u64, polls: Seq<u64>, gap: u64)
    requires
        polls_within(start, polls, gap),
    ensures
        ({
            let (fin, sent) = spec_polls(start, polls);
            let times = seq![start] + sent;
            &&& forall|j: int|
                1 <= j < times.len() ==> 4000 <= #[trigger] times[j] - times[j
                    - 1] < 4000 + gap
            &&& fin == times.last()
            &&& polls.len() > 0 ==> polls.last() - fin < 4000
        }),
{
    lemma_polls_spacing(start, start, polls, gap);
}

/// A heartbeat goes out exactly when at least 4000 ms have passed since the
/// last one (or since the connection started), and then counts from the
/// poll time.
pub proof fn lemma_poll_heartbeat_rule(last: u64, now: u64)
    ensures
        spec_poll_heartbeat(last, now).0 <==> (now >= last && now - last >= 4000),
        spec_poll_heartbeat(last, now).1 == if now >= last && now - last >= 4000 {
            now
        } else {
            last
        },
{
}

} // verus!
