//! funct3 width selectors for the LOAD opcode.

use vstd::prelude::*;

verus! {

pub const LB: u32 = 0x0;
pub const LH: u32 = 0x1;
pub const LW: u32 = 0x2;
pub const LD: u32 = 0x3;
pub const LBU: u32 = 0x4;
pub const LHU: u32 = 0x5;
pub const LWU: u32 = 0x6;

} // verus!
