//! funct3 selectors for the M extension (OP / OP-32 with funct7 = MULDIV).

use vstd::prelude::*;

verus! {

pub const MUL: u32 = 0x0;
pub const MULH: u32 = 0x1;
pub const MULHSU: u32 = 0x2;
pub const MULHU: u32 = 0x3;
pub const DIV: u32 = 0x4;
pub const DIVU: u32 = 0x5;
pub const REM: u32 = 0x6;
pub const REMU: u32 = 0x7;

} // verus!
