//! Bit patterns of the numbers that several modules share.
use vstd::prelude::*;

verus! {

/// `1.0`.
pub const ONE: u32 = 0x3f80_0000;

/// `-1.0`.
pub const MINUS_ONE: u32 = 0xbf80_0000;

/// `2.0`.
pub const TWO: u32 = 0x4000_0000;

/// `4.0`.
pub const FOUR: u32 = 0x4080_0000;

/// `0.5`.
pub const HALF: u32 = 0x3f00_0000;

/// `0.001`, a millisecond in seconds.
pub const THOUSANDTH: u32 = 0x3a83_126f;

/// Twice pi.
pub const TWO_PI: u32 = 0x40c9_0fdb;

} // verus!
