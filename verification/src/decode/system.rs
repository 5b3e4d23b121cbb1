//! funct3 selectors for the SYSTEM opcode.

use vstd::prelude::*;

verus! {

pub const PRIV: u32 = 0x0;
pub const CSRRW: u32 = 0x1;
pub const CSRRS: u32 = 0x2;
pub const CSRRC: u32 = 0x3;
pub const CSRRWI: u32 = 0x5;
pub const CSRRSI: u32 = 0x6;
pub const CSRRCI: u32 = 0x7;

} // verus!
