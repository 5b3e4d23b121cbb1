//! funct3 width selectors for the AMO opcode.

use vstd::prelude::*;

verus! {

pub const W: u32 = 0x2;
pub const D: u32 = 0x3;

} // verus!
