//! funct7 selectors, `instr[31:25]`.

use vstd::prelude::*;

verus! {

pub const MULDIV: u32 = 0x01;
pub const SFENCE_VMA: u32 = 0x09;

} // verus!
