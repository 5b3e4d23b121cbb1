//! CSR addresses (`instr[31:20]`), named per the privileged architecture.

use vstd::prelude::*;

verus! {

/// Read-only `time` counter (user-level). Not stored: the hart answers it from the
/// machine clock, so time stays deterministic.
pub const TIME: u16 = 0xc01;
pub const SSTATUS: u16 = 0x100;
pub const SIE: u16 = 0x104;
pub const STVEC: u16 = 0x105;
pub const SSCRATCH: u16 = 0x140;
pub const SEPC: u16 = 0x141;
pub const SCAUSE: u16 = 0x142;
pub const STVAL: u16 = 0x143;
pub const SIP: u16 = 0x144;
pub const SATP: u16 = 0x180;
/// Supervisor timer-compare (Sstc): the timer interrupt is raised once
/// `time >= stimecmp`.
pub const STIMECMP: u16 = 0x14d;

} // verus!
