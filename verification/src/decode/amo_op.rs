//! funct5 selectors for the AMO opcode, `instr[31:27]`.

use vstd::prelude::*;

verus! {

pub const ADD: u32 = 0x00;
pub const SWAP: u32 = 0x01;
pub const LR: u32 = 0x02;
pub const SC: u32 = 0x03;
pub const XOR: u32 = 0x04;
pub const OR: u32 = 0x08;
pub const AND: u32 = 0x0c;
pub const MIN: u32 = 0x10;
pub const MAX: u32 = 0x14;
pub const MINU: u32 = 0x18;
pub const MAXU: u32 = 0x1c;

} // verus!
