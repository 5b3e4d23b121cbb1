//! Choosing what the guest boots.

use snemu::boot::{bootargs_for, dtb_for, selection};

fn token(out: &mut Vec<u8>, t: u32) {
    out.extend_from_slice(&t.to_be_bytes());
}

fn node(out: &mut Vec<u8>, name: &str) {
    token(out, 1);
    out.extend_from_slice(name.as_bytes());
    out.push(0);
    while out.len() % 4 != 0 {
        out.push(0);
    }
}

fn prop(out: &mut Vec<u8>, strings: &mut Vec<u8>, name: &str, value: &[u8]) {
    token(out, 3);
    token(out, value.len() as u32);
    token(out, strings.len() as u32);
    strings.extend_from_slice(name.as_bytes());
    strings.push(0);
    out.extend_from_slice(value);
    while out.len() % 4 != 0 {
        out.push(0);
    }
}

/// A device tree of a machine with two harts and 128 MiB.
fn virt() -> Vec<u8> {
    let mut s = Vec::new();
    let mut names = Vec::new();
    node(&mut s, "");
    prop(&mut s, &mut names, "#address-cells", &2u32.to_be_bytes());
    prop(&mut s, &mut names, "#size-cells", &2u32.to_be_bytes());
    prop(&mut s, &mut names, "compatible", b"riscv-virtio\0");
    prop(&mut s, &mut names, "model", b"riscv-virtio,qemu\0");
    node(&mut s, "memory@80000000");
    prop(&mut s, &mut names, "device_type", b"memory\0");
    let mut reg = 0x8000_0000u64.to_be_bytes().to_vec();
    reg.extend_from_slice(&0x0800_0000u64.to_be_bytes());
    prop(&mut s, &mut names, "reg", &reg);
    token(&mut s, 2);
    node(&mut s, "chosen");
    prop(&mut s, &mut names, "stdout-path", b"/soc/serial@10000000\0");
    token(&mut s, 2);
    node(&mut s, "cpus");
    prop(&mut s, &mut names, "#address-cells", &1u32.to_be_bytes());
    prop(&mut s, &mut names, "#size-cells", &0u32.to_be_bytes());
    for id in 0..2u32 {
        node(&mut s, &format!("cpu@{id}"));
        prop(&mut s, &mut names, "device_type", b"cpu\0");
        prop(&mut s, &mut names, "reg", &id.to_be_bytes());
        token(&mut s, 2);
    }
    token(&mut s, 2);
    token(&mut s, 2);
    token(&mut s, 9);
    let off_struct = 40 + 16u32;
    let off_strings = off_struct + s.len() as u32;
    let total = off_strings + names.len() as u32;
    let mut out = Vec::new();
    for word in [
        0xd00d_feed,
        total,
        off_struct,
        off_strings,
        40,
        17,
        16,
        0,
        names.len() as u32,
        s.len() as u32,
    ] {
        out.extend_from_slice(&u32::to_be_bytes(word));
    }
    out.extend_from_slice(&[0; 16]);
    out.extend_from_slice(&s);
    out.extend_from_slice(&names);
    out
}

#[test]
fn an_empty_string_selects_the_kernels_default() {
    assert_eq!(selection(""), None);
}

#[test]
fn a_name_selects_that_workload() {
    assert_eq!(selection("stitch-repl"), Some("stitch-repl"));
}

#[test]
fn whitespace_is_not_treated_as_absent() {
    assert_eq!(selection(" "), Some(" "));
}

#[test]
fn a_selection_becomes_a_workload_bootarg() {
    assert_eq!(bootargs_for(Some("stitch-drivel")).as_deref(), Some("workload=stitch-drivel"));
}

#[test]
fn no_selection_means_no_bootargs() {
    assert_eq!(bootargs_for(None), None);
}

#[test]
fn the_patched_tree_parses_and_carries_the_selection() {
    let patched = dtb_for(&virt(), Some("stitch-kvetch"));
    let fdt = fdt::Fdt::new(&patched).expect("still a valid device tree");

    assert_eq!(fdt.chosen().bootargs(), Some("workload=stitch-kvetch"));
    assert!(fdt.cpus().count() >= 1, "and the rest of the tree survived");
}

#[test]
fn no_selection_leaves_the_tree_untouched() {
    assert_eq!(dtb_for(&virt(), None), virt());
}

#[test]
fn an_unknown_workload_is_the_guests_business_not_ours() {
    let patched = dtb_for(&virt(), Some("no-such-workload"));
    let fdt = fdt::Fdt::new(&patched).expect("valid tree");

    assert_eq!(fdt.chosen().bootargs(), Some("workload=no-such-workload"));
}

#[test]
fn an_unpatchable_tree_falls_back_to_booting_the_default() {
    let junk = b"not a device tree".to_vec();
    assert_eq!(dtb_for(&junk, Some("stitch-repl")), junk);
}
