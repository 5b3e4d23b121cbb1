//! Routing: RAM and the devices behind one address space.

use snemu::bus::{Bus, FWCFG_BASE};
use snemu::mem::{Memory, RAM_BASE};

#[test]
fn fwcfg_selector_and_data_registers_serve_the_real_directory() {
    let mut bus = Bus::new(Memory::new(0x1000));
    bus.fwcfg_enable_ramfb();
    bus.write_u16(FWCFG_BASE + 0x08, 0x0019u16.to_be()).unwrap();
    let count_bytes: [u8; 4] = std::array::from_fn(|_| bus.read_u8(FWCFG_BASE).unwrap());
    assert_eq!(u32::from_be_bytes(count_bytes), 1, "one real file, not an empty directory");
}

#[test]
fn fwcfg_directory_is_empty_without_enabling_ramfb() {
    let mut bus = Bus::new(Memory::new(0x1000));
    bus.write_u16(FWCFG_BASE + 0x08, 0x0019u16.to_be()).unwrap();
    let count_bytes: [u8; 4] = std::array::from_fn(|_| bus.read_u8(FWCFG_BASE).unwrap());
    assert_eq!(u32::from_be_bytes(count_bytes), 0, "no file until opted in");
}

#[test]
fn addresses_outside_the_fwcfg_page_are_untouched() {
    let mut bus = Bus::new(Memory::new(64 * 1024 * 1024));
    bus.write_u32(RAM_BASE, 0x1234_5678).unwrap();
    assert_eq!(bus.read_u32(RAM_BASE).unwrap(), 0x1234_5678, "RAM still routes");
}

#[test]
fn dma_write_through_the_bus_captures_the_ramfb_config() {
    let desc_pa = RAM_BASE + 0x1000;
    let payload_pa = RAM_BASE + 0x2000;
    let mut bus = Bus::new(Memory::new(0x10000));

    let control: u32 = (0x42 << 16) | 0x08 | 0x10;
    bus.write_ram(desc_pa, &control.to_be_bytes()).unwrap();
    bus.write_ram(desc_pa + 4, &28u32.to_be_bytes()).unwrap();
    bus.write_ram(desc_pa + 8, &payload_pa.to_be_bytes()).unwrap();
    let mut cfg = [0u8; 28];
    cfg[0..8].copy_from_slice(&0x8000_3000u64.to_be_bytes()); // addr
    cfg[16..20].copy_from_slice(&1024u32.to_be_bytes()); // width
    cfg[20..24].copy_from_slice(&768u32.to_be_bytes()); // height
    bus.write_ram(payload_pa, &cfg).unwrap();

    bus.write_u32(FWCFG_BASE + 0x10, ((desc_pa >> 32) as u32).to_be()).unwrap();
    bus.write_u32(FWCFG_BASE + 0x14, (desc_pa as u32).to_be()).unwrap();

    let cfg = bus.fwcfg_ramfb_cfg().expect("DMA write should have captured a config");
    assert_eq!(cfg.addr, 0x8000_3000);
    assert_eq!(cfg.width, 1024);
    assert_eq!(cfg.height, 768);

    let control_after = u32::from_be_bytes(std::array::from_fn(|i| {
        bus.read_u8(desc_pa + i as u64).unwrap()
    }));
    assert_eq!(control_after, 0, "control cleared to 0 on success");
}
