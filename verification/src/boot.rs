//! Choosing what the guest boots: the kernel reads its workload from `/chosen/bootargs`, so
//! selecting one is a device-tree patch.

use vstd::prelude::*;
use vstd::string::*;
use vstd::utf8::encode_utf8;
use crate::dtb::{set_bootargs, with_bootargs};

verus! {

/// A workload selection from the text the page carries: empty means the kernel's default.
#[must_use]
pub fn selection(workload: &str) -> (r: Option<&str>)
    ensures
        r == if workload@.len() == 0 {
            None
        } else {
            Some(workload)
        },
{
    if workload.is_empty() {
        None
    } else {
        Some(workload)
    }
}

/// The bootargs for a workload selection, or `None` to boot the default: no property at all,
/// which is not the same as an empty one.
#[must_use]
pub fn bootargs_for(workload: Option<&str>) -> (r: Option<String>)
    ensures
        match workload {
            Some(name) => r is Some && (r->0)@ == "workload="@ + name@,
            None => r is None,
        },
{
    match workload {
        Some(name) => {
            let mut args: String = "workload=".to_owned();
            args.append(name);
            Some(args)
        },
        None => None,
    }
}

/// The device tree to boot with, given a workload selection: the unpatched tree for `None`,
/// and where the patch does not apply.
#[must_use]
pub fn dtb_for(base: &[u8], workload: Option<&str>) -> (r: Vec<u8>)
    ensures
        r@ == match workload {
            Some(name) => match with_bootargs(base@, encode_utf8("workload="@ + name@)) {
                Some(out) => out,
                None => base@,
            },
            None => base@,
        },
{
    match bootargs_for(workload) {
        Some(args) => match set_bootargs(base, args.as_str()) {
            Some(out) => out,
            None => vstd::slice::slice_to_vec(base),
        },
        None => vstd::slice::slice_to_vec(base),
    }
}

} // verus!
