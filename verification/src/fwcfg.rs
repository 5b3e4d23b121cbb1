//! A minimal `fw_cfg` device: the legacy selector+data directory read, and the DMA
//! select+write path. Everything on the wire is big-endian.

use vstd::prelude::*;
use crate::bytes::{
    be_bytes, lemma_be_of_be_bytes, lemma_span_of_widths, push_be, swap_bytes, swapped,
};
use crate::mem::{offset, MemState, Memory};

verus! {

/// Selector key for the file directory, fixed by the `fw_cfg` specification.
pub const SELECTOR_FILE_DIR: u16 = 0x19;

/// DMA control bits.
pub const DMA_CTL_SELECT: u32 = 0x08;
pub const DMA_CTL_WRITE: u32 = 0x10;
pub const DMA_CTL_ERROR: u32 = 0x01;

/// Size in bytes of one file-directory entry on the wire.
pub const ENTRY_SIZE: usize = 64;
/// Bytes of the name field in an entry.
pub const NAME_LEN: usize = 56;

/// The select key of `etc/ramfb`, the one file served.
pub const RAMFB_SELECT_KEY: u16 = 0x42;
/// Its reported size: that of a ramfb configuration.
pub const RAMFB_REPORTED_SIZE: u32 = 28;

/// The ramfb configuration that a guest hands over by a DMA write.
#[derive(Debug, Clone, Copy, PartialEq, Eq, Structural)]
pub struct RamfbCfg {
    pub addr: u64,
    pub fourcc: u32,
    pub flags: u32,
    pub width: u32,
    pub height: u32,
    pub stride: u32,
}

/// The `fw_cfg` device: a selector register picks an item, sequential data-register
/// reads return its bytes, and a DMA descriptor writes `etc/ramfb`.
#[derive(Clone, Copy)]
pub struct Fwcfg {
    /// The currently selected item, if any.
    pub selected: Option<u16>,
    /// Read cursor into the selected item's content.
    pub cursor: usize,
    /// Whether `etc/ramfb` is in the directory.
    pub ramfb: bool,
    /// The configuration from a successful `etc/ramfb` DMA write, if any.
    pub ramfb_cfg: Option<RamfbCfg>,
    /// The DMA descriptor's physical address, assembled from two register writes.
    pub dma_addr: u64,
}

/// The bytes of the name `etc/ramfb`.
pub open spec fn ramfb_name() -> Seq<u8> {
    seq![0x65u8, 0x74, 0x63, 0x2f, 0x72, 0x61, 0x6d, 0x66, 0x62]
}

/// The directory blob: a count, then (with ramfb) one entry of size, select key, a
/// reserved half-word and the NUL-padded name.
pub open spec fn directory(ramfb: bool) -> Seq<u8> {
    if ramfb {
        be_bytes(1, 4) + be_bytes(RAMFB_REPORTED_SIZE as nat, 4) + be_bytes(
            RAMFB_SELECT_KEY as nat,
            2,
        ) + be_bytes(0, 2) + ramfb_name() + Seq::new(
            (NAME_LEN - ramfb_name().len()) as nat,
            |i: int| 0u8,
        )
    } else {
        be_bytes(0, 4)
    }
}

/// The content of item `key`: the directory, or nothing.
pub open spec fn item(key: u16, ramfb: bool) -> Seq<u8> {
    if key == SELECTOR_FILE_DIR {
        directory(ramfb)
    } else {
        Seq::empty()
    }
}

/// The ramfb configuration at `address`; what cannot be read is 0.
#[verifier::opaque]
pub open spec fn ramfb_cfg_at(m: MemState, address: u64) -> RamfbCfg {
    RamfbCfg {
        addr: m.load_be_or_zero(address, 8) as u64,
        fourcc: m.load_be_or_zero(offset(address, 8), 4) as u32,
        flags: m.load_be_or_zero(offset(address, 12), 4) as u32,
        width: m.load_be_or_zero(offset(address, 16), 4) as u32,
        height: m.load_be_or_zero(offset(address, 20), 4) as u32,
        stride: m.load_be_or_zero(offset(address, 24), 4) as u32,
    }
}

/// Whether the descriptor at `desc` is a well-formed write of `etc/ramfb`.
pub open spec fn is_ramfb_write(m: MemState, desc: u64) -> bool {
    let control = m.load_be_or_zero(desc, 4) as u32;
    &&& control & DMA_CTL_SELECT != 0
    &&& control & DMA_CTL_WRITE != 0
    &&& control / 0x1_0000 == RAMFB_SELECT_KEY
    &&& m.load_be_or_zero(offset(desc, 4), 4) == RAMFB_REPORTED_SIZE
}

impl Fwcfg {
    /// What the data register shows.
    pub open spec fn data(self) -> u8 {
        match self.selected {
            Some(key) if self.cursor < item(key, self.ramfb).len() => item(
                key,
                self.ramfb,
            )[self.cursor as int],
            _ => 0,
        }
    }

    /// The device after the data register was read.
    pub open spec fn after_data(self) -> Fwcfg {
        Fwcfg {
            cursor: if self.selected is Some && self.cursor < usize::MAX {
                (self.cursor + 1) as usize
            } else {
                self.cursor
            },
            ..self
        }
    }

    /// The device after a DMA descriptor at `desc` was handed over.
    pub open spec fn after_dma(self, m: MemState, desc: u64) -> Fwcfg {
        if is_ramfb_write(m, desc) {
            Fwcfg {
                ramfb_cfg: Some(
                    ramfb_cfg_at(m, m.load_be_or_zero(offset(desc, 8), 8) as u64),
                ),
                ..self
            }
        } else {
            self
        }
    }

    /// Memory after that: the status is written over the descriptor's control field.
    pub open spec fn memory_after_dma(m: MemState, desc: u64) -> MemState {
        let status: u32 = if is_ramfb_write(m, desc) {
            0
        } else {
            DMA_CTL_ERROR
        };
        m.store_if_mapped(desc, 4, swapped(status as nat, 4))
    }

    /// A device that serves `etc/ramfb`, with nothing selected.
    pub fn new() -> (r: Self)
        ensures
            r == (Fwcfg {
                selected: None,
                cursor: 0,
                ramfb: true,
                ramfb_cfg: None,
                dma_addr: 0,
            }),
    {
        Self { selected: None, cursor: 0, ramfb: true, ramfb_cfg: None, dma_addr: 0 }
    }

    /// A device whose directory is empty: a machine without a ramfb.
    pub fn without_ramfb() -> (r: Self)
        ensures
            r == (Fwcfg {
                selected: None,
                cursor: 0,
                ramfb: false,
                ramfb_cfg: None,
                dma_addr: 0,
            }),
    {
        Self { selected: None, cursor: 0, ramfb: false, ramfb_cfg: None, dma_addr: 0 }
    }

    /// Make `etc/ramfb` exist in the directory.
    pub fn enable_ramfb(&mut self)
        ensures
            *final(self) == (Fwcfg { ramfb: true, ..*old(self) }),
    {
        self.ramfb = true;
    }

    /// The captured ramfb configuration, if a valid DMA write has completed.
    pub fn ramfb_cfg(&self) -> (r: Option<RamfbCfg>)
        ensures
            r == self.ramfb_cfg,
    {
        self.ramfb_cfg
    }

    /// Complete a DMA select+write transfer: read the 16-byte descriptor at `desc_pa`,
    /// check that it is a well-formed write to `etc/ramfb`, capture the configuration
    /// it points at, and write the completion status over the descriptor's control
    /// field: 0 on success, [`DMA_CTL_ERROR`] otherwise.
    pub fn complete_dma(&mut self, ram: &mut Memory, desc_pa: u64)
        ensures
            *final(self) == old(self).after_dma(old(ram)@, desc_pa),
            final(ram)@ == Self::memory_after_dma(old(ram)@, desc_pa),
    {
        proof {
            lemma_span_of_widths();
        }
        let control: u32 = ram.read_be_or_zero(desc_pa, 4) as u32;
        let length: u32 = ram.read_be_or_zero(desc_pa.wrapping_add(4), 4) as u32;
        let address: u64 = ram.read_be_or_zero(desc_pa.wrapping_add(8), 8);
        let select_key: u32 = control / 0x1_0000;
        let valid: bool = control & DMA_CTL_SELECT != 0 && control & DMA_CTL_WRITE != 0
            && select_key == RAMFB_SELECT_KEY as u32 && length == RAMFB_REPORTED_SIZE;
        proof {
            assert(desc_pa.wrapping_add(4) == offset(desc_pa, 4));
            assert(desc_pa.wrapping_add(8) == offset(desc_pa, 8));
            assert(valid == is_ramfb_write(ram@, desc_pa));
        }
        let status: u32 = if valid {
            self.ramfb_cfg = Some(read_ramfb_cfg(ram, address));
            0
        } else {
            DMA_CTL_ERROR
        };
        let wire: u32 = swap_bytes(status as u64, 4) as u32;
        let _ = ram.write_u32(desc_pa, wire);
    }

    /// Stage the high half of the DMA descriptor's physical address.
    pub fn write_dma_addr_high(&mut self, value: u32)
        ensures
            *final(self) == (Fwcfg {
                dma_addr: (old(self).dma_addr as int % 0x1_0000_0000 + value * 0x1_0000_0000)
                    as u64,
                ..*old(self)
            }),
    {
        self.dma_addr = put_high(self.dma_addr, value);
    }

    /// Stage the low half and return the assembled descriptor address. This is the DMA
    /// trigger: the bus completes the transfer with the address at once.
    pub fn write_dma_addr_low(&mut self, value: u32) -> (r: u64)
        ensures
            r == old(self).dma_addr as int / 0x1_0000_0000 * 0x1_0000_0000 + value,
            *final(self) == (Fwcfg { dma_addr: r, ..*old(self) }),
    {
        self.dma_addr = put_low(self.dma_addr, value);
        self.dma_addr
    }

    /// Select an item by key. Resets the read cursor, so re-selecting the same key
    /// starts a fresh read.
    pub fn write_selector(&mut self, key: u16)
        ensures
            *final(self) == (Fwcfg { selected: Some(key), cursor: 0, ..*old(self) }),
    {
        self.selected = Some(key);
        self.cursor = 0;
    }

    /// Read the next byte of the selected item's content, advancing the cursor: 0 past
    /// the item's end or with nothing selected.
    pub fn read_data_byte(&mut self) -> (r: u8)
        ensures
            r == old(self).data(),
            *final(self) == old(self).after_data(),
    {
        let key: u16 = match self.selected {
            Some(key) => key,
            None => {
                return 0;
            },
        };
        let content: Vec<u8> = Self::item_bytes(key, self.ramfb);
        let byte: u8 = if self.cursor < content.len() {
            content[self.cursor]
        } else {
            0
        };
        if self.cursor < usize::MAX {
            self.cursor = self.cursor + 1;
        }
        byte
    }

    /// The content of item `key`.
    fn item_bytes(key: u16, ramfb: bool) -> (r: Vec<u8>)
        ensures
            r@ == item(key, ramfb),
    {
        if key == SELECTOR_FILE_DIR {
            directory_bytes(ramfb)
        } else {
            Vec::new()
        }
    }
}

/// A 64-bit register slot with its low half replaced.
pub fn put_low(slot: u64, value: u32) -> (r: u64)
    ensures
        r == slot as int / 0x1_0000_0000 * 0x1_0000_0000 + value,
{
    slot / 0x1_0000_0000 * 0x1_0000_0000 + value as u64
}

/// A 64-bit register slot with its high half replaced.
pub fn put_high(slot: u64, value: u32) -> (r: u64)
    ensures
        r == slot as int % 0x1_0000_0000 + value * 0x1_0000_0000,
{
    slot % 0x1_0000_0000 + value as u64 * 0x1_0000_0000
}

/// Build the directory blob.
fn directory_bytes(ramfb: bool) -> (r: Vec<u8>)
    ensures
        r@ == directory(ramfb),
{
    let mut buf: Vec<u8> = Vec::new();
    if !ramfb {
        push_be(&mut buf, 0, 4);
        proof {
            assert(buf@ =~= directory(ramfb));
        }
        return buf;
    }
    push_be(&mut buf, 1, 4);
    push_be(&mut buf, RAMFB_REPORTED_SIZE as u64, 4);
    push_be(&mut buf, RAMFB_SELECT_KEY as u64, 2);
    push_be(&mut buf, 0, 2);
    let mut name: Vec<u8> = vec![0x65, 0x74, 0x63, 0x2f, 0x72, 0x61, 0x6d, 0x66, 0x62];
    let ghost head = buf@;
    proof {
        assert(name@ =~= ramfb_name());
    }
    while name.len() < NAME_LEN
        invariant
            ramfb_name().len() <= name@.len() <= NAME_LEN,
            name@ == ramfb_name() + Seq::new(
                (name@.len() - ramfb_name().len()) as nat,
                |i: int| 0u8,
            ),
        decreases NAME_LEN - name.len(),
    {
        name.push(0);
        proof {
            assert(name@ =~= ramfb_name() + Seq::new(
                (name@.len() - ramfb_name().len()) as nat,
                |i: int| 0u8,
            ));
        }
    }
    buf.append(&mut name);
    proof {
        assert(buf@ =~= directory(true));
    }
    buf
}

/// Decode a 28-byte ramfb configuration from guest RAM at `address`. Unreadable
/// fields are 0.
fn read_ramfb_cfg(ram: &Memory, address: u64) -> (r: RamfbCfg)
    ensures
        r == ramfb_cfg_at(ram@, address),
{
    proof {
        reveal(ramfb_cfg_at);
        lemma_span_of_widths();
        assert(address.wrapping_add(8) == offset(address, 8));
        assert(address.wrapping_add(12) == offset(address, 12));
        assert(address.wrapping_add(16) == offset(address, 16));
        assert(address.wrapping_add(20) == offset(address, 20));
        assert(address.wrapping_add(24) == offset(address, 24));
    }
    RamfbCfg {
        addr: ram.read_be_or_zero(address, 8),
        fourcc: ram.read_be_or_zero(address.wrapping_add(8), 4) as u32,
        flags: ram.read_be_or_zero(address.wrapping_add(12), 4) as u32,
        width: ram.read_be_or_zero(address.wrapping_add(16), 4) as u32,
        height: ram.read_be_or_zero(address.wrapping_add(20), 4) as u32,
        stride: ram.read_be_or_zero(address.wrapping_add(24), 4) as u32,
    }
}

/// `n` reads of the data register.
pub open spec fn data_stream(dev: Fwcfg, n: nat) -> Seq<u8>
    decreases n,
{
    if n == 0 {
        Seq::empty()
    } else {
        seq![dev.data()] + data_stream(dev.after_data(), (n - 1) as nat)
    }
}

/// Selecting an item and reading as many bytes as it holds gives the item, whatever was
/// selected before.
pub proof fn law_reading_a_selected_item_gives_its_content(dev: Fwcfg, key: u16, n: nat)
    requires
        n == item(key, dev.ramfb).len(),
    ensures
        data_stream(Fwcfg { selected: Some(key), cursor: 0, ..dev }, n) == item(key, dev.ramfb),
{
    lemma_directory_is_short(dev.ramfb);
    let d = Fwcfg { selected: Some(key), cursor: 0, ..dev };
    lemma_stream_from(d, n);
    assert(item(key, dev.ramfb).subrange(0, n as int) =~= item(key, dev.ramfb));
}

proof fn lemma_directory_is_short(ramfb: bool)
    ensures
        directory(ramfb).len() <= 68,
{
    lemma_be_of_be_bytes(1, 4);
    lemma_be_of_be_bytes(0, 4);
    lemma_be_of_be_bytes(0, 2);
    lemma_be_of_be_bytes(RAMFB_REPORTED_SIZE as nat, 4);
    lemma_be_of_be_bytes(RAMFB_SELECT_KEY as nat, 2);
}

proof fn lemma_stream_from(dev: Fwcfg, n: nat)
    requires
        dev.selected is Some,
        dev.cursor + n == item(dev.selected->0, dev.ramfb).len(),
        item(dev.selected->0, dev.ramfb).len() <= 68,
    ensures
        data_stream(dev, n) == item(dev.selected->0, dev.ramfb).subrange(
            dev.cursor as int,
            dev.cursor + n,
        ),
    decreases n,
{
    let all = item(dev.selected->0, dev.ramfb);
    if n > 0 {
        lemma_stream_from(dev.after_data(), (n - 1) as nat);
        assert(data_stream(dev, n) =~= all.subrange(dev.cursor as int, dev.cursor + n));
    } else {
        assert(data_stream(dev, n) =~= all.subrange(dev.cursor as int, dev.cursor + n));
    }
}

} // verus!
