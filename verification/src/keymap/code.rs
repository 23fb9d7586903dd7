//! Android `KeyEvent` key codes used by the remote.

use vstd::prelude::*;

verus! {

pub const DPAD_UP: i32 = 19;

pub const DPAD_DOWN: i32 = 20;

pub const DPAD_LEFT: i32 = 21;

pub const DPAD_RIGHT: i32 = 22;

pub const DPAD_CENTER: i32 = 23;

pub const VOLUME_UP: i32 = 24;

pub const VOLUME_DOWN: i32 = 25;

pub const POWER: i32 = 26;

pub const ENTER: i32 = 66;

} // verus!
