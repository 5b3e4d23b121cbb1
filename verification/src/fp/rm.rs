//! Rounding-mode encodings, `instr[14:12]` on an arithmetic floating-point instruction.

use vstd::prelude::*;

verus! {

/// Round to nearest, ties to even.
pub const RNE: u32 = 0;

/// Round towards zero.
pub const RTZ: u32 = 1;

/// Round down.
pub const RDN: u32 = 2;

/// Round up.
pub const RUP: u32 = 3;

/// Round to nearest, ties to max magnitude.
pub const RMM: u32 = 4;

/// Use the dynamic mode in `fcsr.frm`.
pub const DYN: u32 = 7;

} // verus!
