//! `sstatus` field masks (the S-mode view of the status register).

use vstd::prelude::*;

verus! {

/// Supervisor interrupt enable.
pub const SIE: u64 = 0x2;
/// Supervisor previous interrupt enable (holds SIE across a trap).
pub const SPIE: u64 = 0x20;
/// Supervisor previous privilege (0 = U, 1 = S).
pub const SPP: u64 = 0x100;
/// Permit Supervisor User Memory access: S-mode may load and store U-pages only when
/// this is set (never fetch from them).
pub const SUM: u64 = 0x4_0000;

} // verus!
