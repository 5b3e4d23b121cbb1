//! RISC-V base opcode field, `instr[6:0]`.

use vstd::prelude::*;

verus! {

pub const LUI: u32 = 0x37;
pub const AUIPC: u32 = 0x17;
pub const OP_IMM: u32 = 0x13;
pub const OP: u32 = 0x33;
pub const OP_IMM_32: u32 = 0x1b;
pub const OP_32: u32 = 0x3b;
pub const BRANCH: u32 = 0x63;
pub const JAL: u32 = 0x6f;
pub const JALR: u32 = 0x67;
pub const LOAD: u32 = 0x03;
pub const STORE: u32 = 0x23;
pub const SYSTEM: u32 = 0x73;
pub const MISC_MEM: u32 = 0x0f;
pub const AMO: u32 = 0x2f;

} // verus!
