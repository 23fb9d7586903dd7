//! Device side of the airkan remote-control protocol: a phone on the same
//! network authenticates over HTTP and then drives the device with key
//! frames over a long-lived TCP connection.
//!
//! The library holds the protocol logic: frame building and parsing
//! ([`proto`]), the key-code table ([`keymap`]), the HTTP authentication
//! replies ([`server::http`]), the per-connection state machine and key
//! debouncing ([`server`]) and the mapping of remote keys onto player
//! actions ([`adapter`]).
//! Sockets, threads and clocks are left to the host program, which feeds
//! bytes and timestamps in and carries the returned actions out.

pub mod adapter;
pub mod keymap;
pub mod proto;
pub mod server;

pub use keymap::KeyAction;
pub use proto::{parse_key_frame, AirkanFrame};

use vstd::prelude::*;

verus! {

/// Version reported to the phone; it must exceed 0x01000000 for the phone
/// to treat the device as remotely controllable.
pub const REPORT_VERSION: u32 = 0x0100_0008;

/// Default port of the HTTP authentication service.
pub const HTTP_PORT: u16 = 6095;

/// Default port of the TCP remote-control service.
pub const RC_PORT: u16 = 6091;

/// A remote-control key event, as delivered to the host.
#[derive(Clone, Copy, Debug, PartialEq, Eq, Structural)]
pub enum RemoteKey {
    /// Up: next track.
    Next,
    /// Down: previous track.
    Prev,
    /// Left: seek backwards.
    SeekBack,
    /// Right: seek forwards.
    SeekForward,
    /// OK / centre: toggle play and pause (debounced).
    PlayPause,
    /// Volume up.
    VolUp,
    /// Volume down.
    VolDown,
    /// Power / standby.
    Power,
    /// A key without a mapping; the raw key code and action are kept.
    Unknown { key_code: u32, key_action: u32 },
}

/// Callbacks through which the host receives remote-control events.
///
/// The host calls these from its own service threads and is responsible
/// for their thread safety.
pub trait RemoteControlEvents: Send + Sync + 'static {
    /// A key was pressed (down action only, PlayPause already debounced).
    fn on_key(&self, key: RemoteKey);

    /// The connection to the phone came up or went down.
    fn on_status(&self, up: bool);
}

/// Callbacks that ignore every event.
pub struct NoOpEvents;

impl RemoteControlEvents for NoOpEvents {
    fn on_key(&self, _key: RemoteKey) {
    }

    fn on_status(&self, _up: bool) {
    }
}

} // verus!
