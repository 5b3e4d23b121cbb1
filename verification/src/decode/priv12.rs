//! funct12 codes for SYSTEM privileged instructions (`instr[31:20]`, funct3 = 0).

use vstd::prelude::*;

verus! {

pub const ECALL: u32 = 0x000;
pub const EBREAK: u32 = 0x001;
pub const SRET: u32 = 0x102;
pub const WFI: u32 = 0x105;

} // verus!
