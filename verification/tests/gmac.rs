//! The Ethernet MAC: registers, the transmit ring, and captured frames.

use snemu::gmac::{
    Gmac, GMAC1_BASE, GMAC1_SIZE, SYS_SYSCON_BASE, SYS_SYSCON_SIZE, TX_BASE_ADDR,
    TX_BASE_ADDR_HI, TX_END_ADDR, TX_RING_LEN, VERSION_OFFSET,
};
use snemu::mem::Memory;

const RAM_BASE: u64 = 0x8000_0000;

fn rig(mem: &mut Memory, ring_pa: u64, buf_pa: u64, payload: &[u8]) {
    for (i, &b) in payload.iter().enumerate() {
        mem.write_u8(buf_pa + i as u64, b).unwrap();
    }
    let len = u32::try_from(payload.len()).unwrap();
    mem.write_u32(ring_pa, (buf_pa & 0xFFFF_FFFF) as u32).unwrap();
    mem.write_u32(ring_pa + 4, (buf_pa >> 32) as u32).unwrap();
    mem.write_u32(ring_pa + 8, len).unwrap();
    mem.write_u32(ring_pa + 12, 0x8000_0000 | 0x2000_0000 | 0x1000_0000 | len).unwrap();
}

fn armed(ring_pa: u64) -> Gmac {
    let mut g = Gmac::new();
    g.write(GMAC1_BASE + TX_BASE_ADDR_HI, (ring_pa >> 32) as u32);
    g.write(GMAC1_BASE + TX_BASE_ADDR, (ring_pa & 0xFFFF_FFFF) as u32);
    g.write(GMAC1_BASE + TX_RING_LEN, 4);
    g
}

#[test]
fn a_kick_clears_ownership_on_the_descriptor() {
    let (ring_pa, buf_pa) = (RAM_BASE + 0x1000, RAM_BASE + 0x2000);
    let mut mem = Memory::new(0x10000);
    rig(&mut mem, ring_pa, buf_pa, b"hello");
    let mut g = armed(ring_pa);
    g.service_tx(&mut mem);
    assert_eq!(mem.read_u32(ring_pa + 12).unwrap() & 0x8000_0000, 0, "OWN cleared");
}

#[test]
fn a_kick_captures_the_frame_the_descriptor_points_at() {
    let (ring_pa, buf_pa) = (RAM_BASE + 0x1000, RAM_BASE + 0x2000);
    let mut mem = Memory::new(0x10000);
    rig(&mut mem, ring_pa, buf_pa, b"hello");
    let mut g = armed(ring_pa);
    g.service_tx(&mut mem);
    assert_eq!(g.frames(), &[b"hello".to_vec()]);
}

#[test]
fn a_descriptor_naming_an_unreachable_buffer_reports_an_error() {
    let ring_pa = RAM_BASE + 0x1000;
    let mut mem = Memory::new(0x10000);
    rig(&mut mem, ring_pa, RAM_BASE + 0x2000, b"hello");
    mem.write_u32(ring_pa, 0xDEAD_0000u32).unwrap(); // buffer address nowhere
    let mut g = armed(ring_pa);
    g.service_tx(&mut mem);
    let writeback = mem.read_u32(ring_pa + 12).unwrap();
    assert_eq!(writeback & 0x8000_0000, 0, "still handed back");
    assert_ne!(writeback & 0x8000, 0, "but flagged as an error");
    assert!(g.frames().is_empty(), "and nothing was transmitted");
}

#[test]
fn a_successful_transmit_leaves_the_error_bit_clear() {
    let (ring_pa, buf_pa) = (RAM_BASE + 0x1000, RAM_BASE + 0x2000);
    let mut mem = Memory::new(0x10000);
    rig(&mut mem, ring_pa, buf_pa, b"hello");
    let mut g = armed(ring_pa);
    g.service_tx(&mut mem);
    assert_eq!(mem.read_u32(ring_pa + 12).unwrap() & 0x8000, 0);
}

#[test]
fn successive_kicks_resume_where_the_last_one_stopped() {
    let (ring_pa, buf_a, buf_b) = (RAM_BASE + 0x1000, RAM_BASE + 0x2000, RAM_BASE + 0x3000);
    let mut mem = Memory::new(0x10000);
    let mut g = armed(ring_pa);

    rig(&mut mem, ring_pa, buf_a, b"first");
    g.service_tx(&mut mem);

    rig(&mut mem, ring_pa + 16, buf_b, b"second");
    g.service_tx(&mut mem);

    assert_eq!(g.frames(), &[b"first".to_vec(), b"second".to_vec()]);
    assert_eq!(mem.read_u32(ring_pa + 16 + 12).unwrap() & 0x8000_0000, 0, "slot 1 returned");
}

#[test]
fn the_cursor_wraps_at_the_end_of_the_ring() {
    let ring_pa = RAM_BASE + 0x1000;
    let mut mem = Memory::new(0x10000);
    let mut g = armed(ring_pa);
    for round in 0..5u64 {
        let slot = round % 4;
        rig(&mut mem, ring_pa + slot * 16, RAM_BASE + 0x2000, b"x");
        g.service_tx(&mut mem);
    }
    assert_eq!(g.frames().len(), 5, "the fifth kick wrapped back to slot 0");
}

#[test]
fn a_descriptor_the_guest_still_owns_is_left_alone() {
    let (ring_pa, buf_pa) = (RAM_BASE + 0x1000, RAM_BASE + 0x2000);
    let mut mem = Memory::new(0x10000);
    rig(&mut mem, ring_pa, buf_pa, b"hello");
    mem.write_u32(ring_pa + 12, 0x3000_0005).unwrap(); // FD | LD | len, OWN clear
    let mut g = armed(ring_pa);
    g.service_tx(&mut mem);
    assert!(g.frames().is_empty());
}

#[test]
fn a_kick_before_the_ring_base_is_programmed_transmits_nothing() {
    let mut mem = Memory::new(0x10000);
    let mut g = Gmac::new();
    g.service_tx(&mut mem);
    assert!(g.frames().is_empty(), "no ring base — nothing to walk");
}

#[test]
fn the_ring_base_register_reads_back_what_was_written() {
    let mut g = armed(RAM_BASE + 0x1000);
    assert_eq!(g.read(GMAC1_BASE + TX_BASE_ADDR), (RAM_BASE + 0x1000) & 0xFFFF_FFFF);
    g.write(GMAC1_BASE + TX_RING_LEN, 7);
    assert_eq!(g.read(GMAC1_BASE + TX_RING_LEN), 7);
}

#[test]
fn the_version_register_identifies_a_dwmac_5_20() {
    assert_eq!(Gmac::new().read(GMAC1_BASE + VERSION_OFFSET) & 0xFF, 0x52);
}

#[test]
fn the_version_word_carries_a_vendor_byte_above_the_core_id() {
    assert_ne!(Gmac::new().read(GMAC1_BASE + VERSION_OFFSET), 0x52);
}

#[test]
fn an_unconfigured_register_reads_zero() {
    let g = Gmac::new();
    assert_eq!(g.read(GMAC1_BASE), 0);
    assert_eq!(g.read(GMAC1_BASE + TX_BASE_ADDR), 0);
}

#[test]
fn the_phy_interface_field_is_non_zero() {
    assert_ne!(Gmac::new().read(SYS_SYSCON_BASE + 0x90), 0);
}

#[test]
fn both_windows_are_claimed_and_neighbours_are_not() {
    assert!(Gmac::in_window(GMAC1_BASE));
    assert!(Gmac::in_window(GMAC1_BASE + GMAC1_SIZE - 1));
    assert!(Gmac::in_window(SYS_SYSCON_BASE));
    assert!(Gmac::in_window(SYS_SYSCON_BASE + SYS_SYSCON_SIZE - 1));
    assert!(!Gmac::in_window(GMAC1_BASE - 1), "GMAC0's window is not modelled");
    assert!(!Gmac::in_window(GMAC1_BASE + GMAC1_SIZE));
    assert!(!Gmac::in_window(SYS_SYSCON_BASE + SYS_SYSCON_SIZE));
}

#[test]
fn only_the_tail_pointer_write_hands_the_device_control() {
    assert!(Gmac::is_tx_kick(GMAC1_BASE + TX_END_ADDR));
    assert!(!Gmac::is_tx_kick(GMAC1_BASE + TX_BASE_ADDR));
    assert!(!Gmac::is_tx_kick(GMAC1_BASE + TX_RING_LEN));
}
