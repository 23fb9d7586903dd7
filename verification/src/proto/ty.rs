//! Frame types carried in the first byte of the frame header.

use vstd::prelude::*;

verus! {

pub const HEARTBEAT: u8 = 2;

pub const KEY: u8 = 4;

pub const VERSION: u8 = 5;

} // verus!
