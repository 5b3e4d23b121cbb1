//! funct3 width selectors for the STORE opcode.

use vstd::prelude::*;

verus! {

pub const SB: u32 = 0x0;
pub const SH: u32 = 0x1;
pub const SW: u32 = 0x2;
pub const SD: u32 = 0x3;

} // verus!
