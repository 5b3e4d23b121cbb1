//! funct3 condition selectors for the BRANCH opcode.

use vstd::prelude::*;

verus! {

pub const BEQ: u32 = 0x0;
pub const BNE: u32 = 0x1;
pub const BLT: u32 = 0x4;
pub const BGE: u32 = 0x5;
pub const BLTU: u32 = 0x6;
pub const BGEU: u32 = 0x7;

} // verus!
