//! Bit patterns of small round numbers.
use vstd::prelude::*;

verus! {

/// 0.5
pub const HALF: u32 = 0x3f00_0000;

/// 1
pub const ONE: u32 = 0x3f80_0000;

/// -1
pub const MINUS_ONE: u32 = 0xbf80_0000;

/// 2
pub const TWO: u32 = 0x4000_0000;

/// 4
pub const FOUR: u32 = 0x4080_0000;

/// 8
pub const EIGHT: u32 = 0x4100_0000;

/// 10
pub const TEN: u32 = 0x4120_0000;

/// 12
pub const TWELVE: u32 = 0x4140_0000;

/// 14
pub const FOURTEEN: u32 = 0x4160_0000;

/// 16
pub const SIXTEEN: u32 = 0x4180_0000;

/// 18
pub const EIGHTEEN: u32 = 0x4190_0000;

/// 24
pub const TWENTY_FOUR: u32 = 0x41c0_0000;

/// 1.5
pub const ONE_AND_HALF: u32 = 0x3fc0_0000;

} // verus!
