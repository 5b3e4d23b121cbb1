//! Device-tree patching, read back with an independent reader.

use snemu::dtb::{set_bootargs, set_memory_size};

fn token(out: &mut Vec<u8>, t: u32) {
    out.extend_from_slice(&t.to_be_bytes());
}

fn node(out: &mut Vec<u8>, name: &str) {
    token(out, 1);
    out.extend_from_slice(name.as_bytes());
    out.push(0);
    while out.len() % 4 != 0 {
        out.push(0);
    }
}

fn prop(out: &mut Vec<u8>, strings: &mut Vec<u8>, name: &str, value: &[u8]) {
    token(out, 3);
    token(out, value.len() as u32);
    token(out, strings.len() as u32);
    strings.extend_from_slice(name.as_bytes());
    strings.push(0);
    out.extend_from_slice(value);
    while out.len() % 4 != 0 {
        out.push(0);
    }
}

/// A device tree of a machine with two harts and 128 MiB.
fn virt() -> Vec<u8> {
    let mut s = Vec::new();
    let mut names = Vec::new();
    node(&mut s, "");
    prop(&mut s, &mut names, "#address-cells", &2u32.to_be_bytes());
    prop(&mut s, &mut names, "#size-cells", &2u32.to_be_bytes());
    prop(&mut s, &mut names, "compatible", b"riscv-virtio\0");
    prop(&mut s, &mut names, "model", b"riscv-virtio,qemu\0");
    node(&mut s, "memory@80000000");
    prop(&mut s, &mut names, "device_type", b"memory\0");
    let mut reg = 0x8000_0000u64.to_be_bytes().to_vec();
    reg.extend_from_slice(&0x0800_0000u64.to_be_bytes());
    prop(&mut s, &mut names, "reg", &reg);
    token(&mut s, 2);
    node(&mut s, "chosen");
    prop(&mut s, &mut names, "stdout-path", b"/soc/serial@10000000\0");
    token(&mut s, 2);
    node(&mut s, "cpus");
    prop(&mut s, &mut names, "#address-cells", &1u32.to_be_bytes());
    prop(&mut s, &mut names, "#size-cells", &0u32.to_be_bytes());
    for id in 0..2u32 {
        node(&mut s, &format!("cpu@{id}"));
        prop(&mut s, &mut names, "device_type", b"cpu\0");
        prop(&mut s, &mut names, "reg", &id.to_be_bytes());
        token(&mut s, 2);
    }
    token(&mut s, 2);
    token(&mut s, 2);
    token(&mut s, 9);
    let off_struct = 40 + 16u32;
    let off_strings = off_struct + s.len() as u32;
    let total = off_strings + names.len() as u32;
    let mut out = Vec::new();
    for word in [
        0xd00d_feed,
        total,
        off_struct,
        off_strings,
        40,
        17,
        16,
        0,
        names.len() as u32,
        s.len() as u32,
    ] {
        out.extend_from_slice(&u32::to_be_bytes(word));
    }
    out.extend_from_slice(&[0; 16]);
    out.extend_from_slice(&s);
    out.extend_from_slice(&names);
    out
}


#[test]
fn injected_bootargs_parse_back_via_the_fdt_reader() {
    let patched = set_bootargs(&virt(), "workload=demo").expect("patch");
    let fdt = fdt::Fdt::new(&patched).expect("valid fdt after patch");
    assert_eq!(fdt.chosen().bootargs(), Some("workload=demo"));
}

#[test]
fn patch_preserves_the_rest_of_the_tree() {
    let patched = set_bootargs(&virt(), "workload=smp").expect("patch");
    let fdt = fdt::Fdt::new(&patched).expect("valid fdt");
    assert_eq!(fdt.chosen().bootargs(), Some("workload=smp"));
    assert!(fdt.memory().regions().count() >= 1);
    assert!(fdt.cpus().count() >= 2); // -smp 2
}

#[test]
fn rejects_a_non_fdt_blob() {
    assert!(set_bootargs(&[0, 1, 2, 3, 4, 5, 6, 7], "x").is_none());
}

#[test]
fn set_memory_size_shrinks_the_region_read_back_by_the_fdt_reader() {
    const NEW: u64 = 48 * 1024 * 1024;
    let base_before = fdt::Fdt::new(&virt())
        .unwrap()
        .memory()
        .regions()
        .next()
        .unwrap()
        .starting_address as u64;

    let patched = set_memory_size(&virt(), NEW).expect("patch");
    assert_eq!(patched.len(), virt().len());

    let fdt = fdt::Fdt::new(&patched).expect("valid fdt after patch");
    let region = fdt.memory().regions().next().expect("memory region");
    assert_eq!(region.size, Some(NEW as usize), "size took");
    assert_eq!(region.starting_address as u64, base_before, "base unchanged");
    assert!(fdt.cpus().count() >= 2);
}

#[test]
fn set_memory_size_rejects_a_non_fdt_blob() {
    assert!(set_memory_size(&[0, 1, 2, 3, 4, 5, 6, 7], 1).is_none());
}

/// A tree with only these nodes, given by name, `None` closing the last one.
fn tree(nodes: &[Option<&str>]) -> Vec<u8> {
    let mut s = Vec::new();
    for n in nodes {
        match n {
            Some(name) => node(&mut s, name),
            None => token(&mut s, 2),
        }
    }
    token(&mut s, 9);
    let mut out = Vec::new();
    for word in [0xd00d_feed, 40 + s.len() as u32, 40, 40 + s.len() as u32, 40, 17, 16, 0, 0, s.len() as u32] {
        out.extend_from_slice(&u32::to_be_bytes(word));
    }
    out.extend_from_slice(&s);
    out
}

#[test]
fn a_nested_chosen_node_is_not_the_one() {
    let nested = tree(&[Some(""), Some("soc"), Some("chosen"), None, None, None]);
    assert_eq!(set_bootargs(&nested, "x"), None);
    let both =
        tree(&[Some(""), Some("soc"), Some("chosen"), None, None, Some("chosen"), None, None]);
    let patched = set_bootargs(&both, "workload=demo").expect("patch");
    let fdt = fdt::Fdt::new(&patched).expect("valid fdt after patch");
    assert_eq!(fdt.chosen().bootargs(), Some("workload=demo"));
    assert!(fdt.find_node("/soc/chosen").expect("kept").properties().next().is_none());
    assert_eq!(set_bootargs(&tree(&[Some("chosen"), None]), "x"), None, "the root is not it");
}

#[test]
fn the_old_memory_size_gives_the_old_tree_back() {
    let shrunk = set_memory_size(&virt(), 0x100_0000).expect("patch");
    assert_ne!(shrunk, virt());
    assert_eq!(set_memory_size(&shrunk, 0x0800_0000).expect("patch"), virt());
}
