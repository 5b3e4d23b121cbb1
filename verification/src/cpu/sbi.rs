//! SBI calls the kernel makes from S-mode (the machine plays firmware).

use vstd::prelude::*;

verus! {

/// Send-IPI extension id (`"sPI"`), function 0 = `sbi_send_ipi`.
pub const EID_IPI: u64 = 0x0073_5049;
pub const FID_SEND_IPI: u64 = 0;
/// Hart State Management extension id (`"HSM"`), function 0 = `sbi_hart_start`.
pub const EID_HSM: u64 = 0x0048_534D;
pub const FID_HART_START: u64 = 0;
pub const SUCCESS: u64 = 0;
/// -2, as a register holds it.
pub const ERR_NOT_SUPPORTED: u64 = 0xffff_ffff_ffff_fffe;
/// -3, as a register holds it.
pub const ERR_INVALID_PARAM: u64 = 0xffff_ffff_ffff_fffd;
/// -6, as a register holds it.
pub const ERR_ALREADY_AVAILABLE: u64 = 0xffff_ffff_ffff_fffa;

} // verus!
