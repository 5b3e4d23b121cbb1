//! Trap cause codes (`scause`). S-mode `ecall` has none: it is an SBI firmware call, so
//! it never reaches the kernel as a trap.

use vstd::prelude::*;

verus! {

pub const BREAKPOINT: u64 = 3;
pub const ECALL_FROM_U: u64 = 8;
pub const INSTRUCTION_PAGE_FAULT: u64 = 12;
pub const LOAD_PAGE_FAULT: u64 = 13;
pub const STORE_PAGE_FAULT: u64 = 15;
/// Supervisor software interrupt: the interrupt bit and code 1.
pub const SUPERVISOR_SOFTWARE: u64 = 0x8000_0000_0000_0001;
/// Supervisor timer interrupt: the interrupt bit and code 5.
pub const SUPERVISOR_TIMER: u64 = 0x8000_0000_0000_0005;

} // verus!
