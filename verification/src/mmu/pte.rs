//! Page-table entry flag bits (Sv39).

use vstd::prelude::*;

verus! {

/// Valid.
pub const V: u64 = 0x1;
/// Readable.
pub const R: u64 = 0x2;
/// Writable.
pub const W: u64 = 0x4;
/// Executable.
pub const X: u64 = 0x8;
/// Accessible from user mode.
pub const U: u64 = 0x10;

} // verus!
