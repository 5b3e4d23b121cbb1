//! funct3 ALU-op selectors, `instr[14:12]`, shared by OP and OP-IMM.

use vstd::prelude::*;

pub mod amo;
pub mod branch;
pub mod load;
pub mod m;
pub mod store;

verus! {

pub const ADD: u32 = 0x0;
pub const SLL: u32 = 0x1;
pub const SLT: u32 = 0x2;
pub const SLTU: u32 = 0x3;
pub const XOR: u32 = 0x4;
pub const SR: u32 = 0x5;
pub const OR: u32 = 0x6;
pub const AND: u32 = 0x7;

} // verus!
