//! The firmware configuration device.

use snemu::fwcfg::{
    Fwcfg, RamfbCfg, DMA_CTL_ERROR, DMA_CTL_SELECT, DMA_CTL_WRITE, ENTRY_SIZE, NAME_LEN,
    RAMFB_REPORTED_SIZE, RAMFB_SELECT_KEY, SELECTOR_FILE_DIR,
};
use snemu::mem::{Memory, RAM_BASE};

const RAMFB_NAME: &[u8] = b"etc/ramfb";

fn read_n(dev: &mut Fwcfg, n: usize) -> Vec<u8> {
    (0..n).map(|_| dev.read_data_byte()).collect()
}

#[test]
fn selecting_file_dir_then_reading_reproduces_the_directory_blob() {
    let mut dev = Fwcfg::new();
    dev.write_selector(SELECTOR_FILE_DIR);
    let blob = read_n(&mut dev, 4 + ENTRY_SIZE);

    assert_eq!(&blob[0..4], &1u32.to_be_bytes(), "count header");
    assert_eq!(&blob[4..8], &RAMFB_REPORTED_SIZE.to_be_bytes(), "entry size");
    assert_eq!(&blob[8..10], &RAMFB_SELECT_KEY.to_be_bytes(), "select key");
    assert_eq!(&blob[10..12], &[0, 0], "reserved");
    let name_field = &blob[12..12 + NAME_LEN];
    assert_eq!(&name_field[..RAMFB_NAME.len()], RAMFB_NAME, "name");
    assert!(name_field[RAMFB_NAME.len()..].iter().all(|&b| b == 0), "name NUL-padded");
}

#[test]
fn selecting_an_unknown_key_reads_as_empty() {
    let mut dev = Fwcfg::new();
    dev.write_selector(0x9999);
    assert_eq!(read_n(&mut dev, 8), vec![0u8; 8]);
}

#[test]
fn reading_before_any_selector_write_returns_zero() {
    let mut dev = Fwcfg::new();
    assert_eq!(read_n(&mut dev, 4), vec![0u8; 4]);
}

#[test]
fn reading_past_the_directory_end_returns_zero_not_panic() {
    let mut dev = Fwcfg::new();
    dev.write_selector(SELECTOR_FILE_DIR);
    let blob = read_n(&mut dev, 4 + ENTRY_SIZE + 16); // 16 bytes past the end
    assert!(blob[4 + ENTRY_SIZE..].iter().all(|&b| b == 0));
}

#[test]
fn reselecting_resets_the_read_cursor() {
    let mut dev = Fwcfg::new();
    dev.write_selector(SELECTOR_FILE_DIR);
    let first_four = read_n(&mut dev, 4);
    dev.write_selector(SELECTOR_FILE_DIR); // re-select the same key
    let again = read_n(&mut dev, 4);
    assert_eq!(first_four, again, "re-selecting must restart the cursor at byte 0");
}

const DESC_PA: u64 = RAM_BASE + 0x1000;
const PAYLOAD_PA: u64 = RAM_BASE + 0x2000;

fn stage_valid_write(mem: &mut Memory, cfg_bytes: &[u8; 28]) {
    let control = (u32::from(RAMFB_SELECT_KEY) << 16) | DMA_CTL_SELECT | DMA_CTL_WRITE;
    mem.write_u32(DESC_PA, control.to_be()).unwrap();
    mem.write_u32(DESC_PA + 4, RAMFB_REPORTED_SIZE.to_be()).unwrap();
    mem.write_u64(DESC_PA + 8, PAYLOAD_PA.to_be()).unwrap();
    for (i, &b) in cfg_bytes.iter().enumerate() {
        mem.write_u8(PAYLOAD_PA + i as u64, b).unwrap();
    }
}

fn sample_cfg_bytes() -> [u8; 28] {
    let mut buf = [0u8; 28];
    buf[0..8].copy_from_slice(&0x8000_1000u64.to_be_bytes()); // addr
    buf[8..12].copy_from_slice(&0x3432_5258u32.to_be_bytes()); // fourcc (XRGB8888)
    buf[12..16].copy_from_slice(&0u32.to_be_bytes()); // flags
    buf[16..20].copy_from_slice(&1024u32.to_be_bytes()); // width
    buf[20..24].copy_from_slice(&768u32.to_be_bytes()); // height
    buf[24..28].copy_from_slice(&4096u32.to_be_bytes()); // stride
    buf
}

#[test]
fn a_valid_select_and_write_captures_the_config_and_clears_control() {
    let mut mem = Memory::new(0x10000);
    stage_valid_write(&mut mem, &sample_cfg_bytes());
    let mut dev = Fwcfg::new();

    dev.complete_dma(&mut mem, DESC_PA);

    assert_eq!(
        dev.ramfb_cfg(),
        Some(RamfbCfg {
            addr: 0x8000_1000,
            fourcc: 0x3432_5258,
            flags: 0,
            width: 1024,
            height: 768,
            stride: 4096,
        })
    );
    assert_eq!(mem.read_u32(DESC_PA).unwrap(), 0, "control cleared on success");
}

#[test]
fn an_unknown_select_key_reports_error_and_captures_nothing() {
    let mut mem = Memory::new(0x10000);
    stage_valid_write(&mut mem, &sample_cfg_bytes());
    let bad_control = (0x9999u32 << 16) | DMA_CTL_SELECT | DMA_CTL_WRITE;
    mem.write_u32(DESC_PA, bad_control.to_be()).unwrap();
    let mut dev = Fwcfg::new();

    dev.complete_dma(&mut mem, DESC_PA);

    assert_eq!(dev.ramfb_cfg(), None);
    assert_eq!(mem.read_u32(DESC_PA).unwrap().to_be(), DMA_CTL_ERROR);
}

#[test]
fn a_read_request_without_the_write_bit_is_rejected() {
    let mut mem = Memory::new(0x10000);
    stage_valid_write(&mut mem, &sample_cfg_bytes());
    let read_control = (u32::from(RAMFB_SELECT_KEY) << 16) | DMA_CTL_SELECT; // no WRITE
    mem.write_u32(DESC_PA, read_control.to_be()).unwrap();
    let mut dev = Fwcfg::new();

    dev.complete_dma(&mut mem, DESC_PA);

    assert_eq!(dev.ramfb_cfg(), None);
    assert_eq!(mem.read_u32(DESC_PA).unwrap().to_be(), DMA_CTL_ERROR);
}

#[test]
fn a_mismatched_length_is_rejected() {
    let mut mem = Memory::new(0x10000);
    stage_valid_write(&mut mem, &sample_cfg_bytes());
    mem.write_u32(DESC_PA + 4, 4u32.to_be()).unwrap(); // wrong length
    let mut dev = Fwcfg::new();

    dev.complete_dma(&mut mem, DESC_PA);

    assert_eq!(dev.ramfb_cfg(), None);
    assert_eq!(mem.read_u32(DESC_PA).unwrap().to_be(), DMA_CTL_ERROR);
}

#[test]
fn ramfb_cfg_is_none_until_a_write_completes() {
    let dev = Fwcfg::new();
    assert_eq!(dev.ramfb_cfg(), None);
}

#[test]
fn dma_addr_high_then_low_assembles_the_64_bit_descriptor_address() {
    let mut dev = Fwcfg::new();
    dev.write_dma_addr_high(0x0001_0203);
    let assembled = dev.write_dma_addr_low(0x8000_2000);
    assert_eq!(assembled, 0x0001_0203_8000_2000);
}

#[test]
fn writing_the_low_half_again_reassembles_with_the_last_staged_high_half() {
    let mut dev = Fwcfg::new();
    dev.write_dma_addr_high(0x0000_0000);
    assert_eq!(dev.write_dma_addr_low(0x8000_1000), 0x8000_1000);
    dev.write_dma_addr_high(0x0000_0001);
    assert_eq!(dev.write_dma_addr_low(0x8000_2000), 0x1_8000_2000);
}
