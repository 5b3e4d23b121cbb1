//! Loading an ELF image.

use snemu::loader::{load, ElfError};
use snemu::mem::RAM_BASE;

fn tiny_elf(entry: u64, vaddr: u64, paddr: u64, segment: &[u8]) -> Vec<u8> {
    let mut img = vec![0u8; 64];
    img[0..4].copy_from_slice(&[0x7f, b'E', b'L', b'F']);
    img[4] = 2; // ELFCLASS64
    img[5] = 1; // ELFDATA2LSB
    img[6] = 1; // EV_CURRENT
    img[0x12..0x14].copy_from_slice(&243u16.to_le_bytes()); // EM_RISCV
    img[0x18..0x20].copy_from_slice(&entry.to_le_bytes()); // e_entry
    img[0x20..0x28].copy_from_slice(&64u64.to_le_bytes()); // e_phoff
    img[0x36..0x38].copy_from_slice(&56u16.to_le_bytes()); // e_phentsize
    img[0x38..0x3a].copy_from_slice(&1u16.to_le_bytes()); // e_phnum

    let mut ph = vec![0u8; 56];
    ph[0..4].copy_from_slice(&1u32.to_le_bytes()); // PT_LOAD
    ph[0x08..0x10].copy_from_slice(&120u64.to_le_bytes()); // p_offset (64 + 56)
    ph[0x10..0x18].copy_from_slice(&vaddr.to_le_bytes()); // p_vaddr
    ph[0x18..0x20].copy_from_slice(&paddr.to_le_bytes()); // p_paddr
    ph[0x20..0x28].copy_from_slice(&(segment.len() as u64).to_le_bytes()); // p_filesz
    ph[0x28..0x30].copy_from_slice(&(segment.len() as u64).to_le_bytes()); // p_memsz
    img.extend_from_slice(&ph);
    img.extend_from_slice(segment);
    img
}

#[test]
fn loads_segment_and_runs_from_entry() {
    let entry = RAM_BASE + 0x100;
    let segment = 0x02a0_0093_u32.to_le_bytes(); // addi x1, x0, 42
    let img = tiny_elf(entry, entry, entry, &segment);

    let mut cpu = load(&img, 0x1000, None).unwrap();
    assert_eq!(cpu.pc(), entry);

    cpu.step().unwrap();
    assert_eq!(cpu.reg(1), 42);
}

#[test]
fn higher_half_entry_is_translated_to_physical() {
    let vaddr = 0xffff_ffff_8000_0000 + 0x100;
    let paddr = RAM_BASE + 0x100;
    let segment = 0x02a0_0093_u32.to_le_bytes(); // addi x1, x0, 42
    let img = tiny_elf(vaddr, vaddr, paddr, &segment);

    let mut cpu = load(&img, 0x1000, None).unwrap();
    assert_eq!(cpu.pc(), paddr); // started at the physical entry
    cpu.step().unwrap();
    assert_eq!(cpu.reg(1), 42);
}

#[test]
fn rejects_a_non_elf_image() {
    assert!(matches!(load(&[0, 1, 2, 3], 0x1000, None), Err(ElfError::BadMagic)));
}

#[test]
fn rejects_a_non_riscv_elf() {
    let mut img = tiny_elf(RAM_BASE, RAM_BASE, RAM_BASE, &[0; 4]);
    img[0x12..0x14].copy_from_slice(&62u16.to_le_bytes()); // EM_X86_64
    assert!(matches!(load(&img, 0x1000, None), Err(ElfError::Unsupported)));
}
