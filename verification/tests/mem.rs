//! Guest RAM.

use snemu::mem::{BusError, Memory, PAGE, RAM_BASE};

#[test]
fn writes_then_reads_a_byte_at_the_ram_base() {
    let mut mem = Memory::new(0x1000);
    mem.write_u8(RAM_BASE, 0xab).unwrap();
    assert_eq!(mem.read_u8(RAM_BASE).unwrap(), 0xab);
}

#[test]
fn multi_width_round_trips() {
    let mut mem = Memory::new(0x1000);
    mem.write_u16(RAM_BASE, 0x1234).unwrap();
    assert_eq!(mem.read_u16(RAM_BASE).unwrap(), 0x1234);
    mem.write_u32(RAM_BASE, 0xdead_beef).unwrap();
    assert_eq!(mem.read_u32(RAM_BASE).unwrap(), 0xdead_beef);
    mem.write_u64(RAM_BASE, 0x0123_4567_89ab_cdef).unwrap();
    assert_eq!(mem.read_u64(RAM_BASE).unwrap(), 0x0123_4567_89ab_cdef);
}

#[test]
fn out_of_range_access_is_an_error() {
    let mut mem = Memory::new(0x1000);
    let below = RAM_BASE - 1;
    let past_end = RAM_BASE + 0x1000;
    assert_eq!(mem.read_u8(below), Err(BusError::OutOfRange { addr: below }));
    assert_eq!(
        mem.write_u8(past_end, 0),
        Err(BusError::OutOfRange { addr: past_end })
    );
    let straddle = RAM_BASE + 0x1000 - 2;
    assert_eq!(
        mem.read_u32(straddle),
        Err(BusError::OutOfRange { addr: straddle })
    );
}

#[test]
fn stores_little_endian() {
    let mut mem = Memory::new(0x1000);
    mem.write_u32(RAM_BASE, 0xdead_beef).unwrap();
    assert_eq!(mem.read_u8(RAM_BASE).unwrap(), 0xef);
    assert_eq!(mem.read_u8(RAM_BASE + 1).unwrap(), 0xbe);
    assert_eq!(mem.read_u8(RAM_BASE + 2).unwrap(), 0xad);
    assert_eq!(mem.read_u8(RAM_BASE + 3).unwrap(), 0xde);
}

const PAGE_U64: u64 = PAGE as u64;

#[test]
fn scramble_is_a_bijection_over_frames() {
    let mut mem = Memory::new(16 * PAGE);
    mem.set_scramble(true);
    for f in 0..16u64 {
        mem.write_u8(RAM_BASE + f * PAGE_U64, f as u8 + 1).unwrap();
    }
    for f in 0..16u64 {
        assert_eq!(mem.read_u8(RAM_BASE + f * PAGE_U64).unwrap(), f as u8 + 1);
    }
}

#[test]
fn scramble_preserves_multipage_bulk_write() {
    let mut mem = Memory::new(16 * PAGE);
    mem.set_scramble(true);
    let mut blob = vec![0u8; 8 * PAGE];
    for f in 0..8 {
        blob[f * PAGE] = f as u8 + 1; // tag each page with its frame index
    }
    mem.write_bytes(RAM_BASE, &blob).unwrap();
    for f in 0..8u64 {
        assert_eq!(mem.read_u8(RAM_BASE + f * PAGE_U64).unwrap(), f as u8 + 1);
    }
}

#[test]
fn scramble_is_deterministic_and_clones() {
    let mut a = Memory::new(64 * PAGE);
    a.set_scramble(true);
    a.write_u32(RAM_BASE + 5 * PAGE_U64, 0xcafe_f00d).unwrap();
    let mut b = Memory::new(64 * PAGE);
    b.set_scramble(true);
    b.write_u32(RAM_BASE + 5 * PAGE_U64, 0xcafe_f00d).unwrap();
    assert_eq!(a.read_u32(RAM_BASE + 5 * PAGE_U64).unwrap(), 0xcafe_f00d);
    let c = a.clone();
    assert_eq!(c.read_u32(RAM_BASE + 5 * PAGE_U64).unwrap(), 0xcafe_f00d);
}
