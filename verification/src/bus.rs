//! The system bus: address-decodes guest physical accesses to RAM or a memory-mapped
//! device. Holds RAM and the devices; the hart goes through it for every fetch, load
//! and store.

use vstd::prelude::*;
use crate::bytes::{lemma_span_of_widths, span_of, swap_bytes, swapped};
use crate::fwcfg::{Fwcfg, RamfbCfg};
use crate::mem::{law_writes_keep_ram_covered, lemma_stores_keep_ram_covered, BusError, MemState, Memory};
use crate::uart::{Uart, UartState};
use crate::virtio::{
    high_set, low_set, Virtio, VirtioState, REG_QUEUE_NOTIFY, WINDOW_BASE, WINDOW_SIZE,
};

verus! {

/// ns16550a UART base on the QEMU `virt` machine, and its register window.
pub const UART_BASE: u64 = 0x1000_0000;
pub const UART_SIZE: u64 = 0x100;

/// `fw_cfg` register page and the registers in it that are modelled; anything else in
/// the page reads 0 and swallows writes.
pub const FWCFG_BASE: u64 = 0x1010_0000;
pub const FWCFG_SIZE: u64 = 0x1000;
pub const FWCFG_REG_DATA: u64 = 0x1010_0000;
pub const FWCFG_REG_SELECTOR: u64 = 0x1010_0008;
pub const FWCFG_REG_DMA_ADDR_HIGH: u64 = 0x1010_0010;
pub const FWCFG_REG_DMA_ADDR_LOW: u64 = 0x1010_0014;

/// Whether `addr` falls in the UART's window.
#[verifier::allow_in_spec]
pub fn in_uart(addr: u64) -> bool
    returns
        UART_BASE <= addr < UART_BASE + UART_SIZE,
{
    UART_BASE <= addr && addr < UART_BASE + UART_SIZE
}

/// Whether `addr` falls in the fw_cfg register page.
#[verifier::allow_in_spec]
pub fn in_fwcfg(addr: u64) -> bool
    returns
        FWCFG_BASE <= addr < FWCFG_BASE + FWCFG_SIZE,
{
    FWCFG_BASE <= addr && addr < FWCFG_BASE + FWCFG_SIZE
}

/// Offset into the UART register window, or `None` if `addr` is not the UART.
pub fn uart_offset(addr: u64) -> (r: Option<usize>)
    ensures
        r == if in_uart(addr) {
            Some((addr - UART_BASE) as usize)
        } else {
            None
        },
{
    if in_uart(addr) {
        Some((addr - UART_BASE) as usize)
    } else {
        None
    }
}

/// RAM and the devices.
pub struct Bus {
    ram: Memory,
    uart: Uart,
    virtio: Virtio,
    fwcfg: Fwcfg,
}

/// What a [`Bus`] holds.
pub struct BusState {
    pub ram: MemState,
    pub uart: UartState,
    pub virtio: VirtioState,
    pub fwcfg: Fwcfg,
}

impl BusState {
    /// What an access of `len` bytes at `addr` shows, without the effects of a read.
    #[verifier::opaque]
    pub open spec fn peek(self, addr: u64, len: int) -> Option<nat> {
        if in_fwcfg(addr) {
            Some(0)
        } else if len == 4 && WINDOW_BASE <= addr < WINDOW_BASE + WINDOW_SIZE {
            Some(self.virtio.register(addr) as nat)
        } else if in_uart(addr) {
            Some(self.uart.register(addr - UART_BASE) as nat)
        } else {
            self.ram.load(addr, len)
        }
    }

    /// What a read of `len` bytes at `addr` returns, and the bus after it. Reads have effects
    /// on two devices: one of any width takes a byte off the UART's receive buffer, and a
    /// byte read of the fw_cfg data register moves on to the next byte.
    #[verifier::opaque]
    pub open spec fn read(self, addr: u64, len: int) -> (Option<nat>, BusState) {
        if len == 1 && addr == FWCFG_REG_DATA {
            (
                Some(self.fwcfg.data() as nat),
                BusState { fwcfg: self.fwcfg.after_data(), ..self },
            )
        } else if in_uart(addr) {
            (
                self.peek(addr, len),
                BusState { uart: self.uart.after_read(addr - UART_BASE), ..self },
            )
        } else {
            (self.peek(addr, len), self)
        }
    }

    /// The bus after the low `len` bytes of `v` were written at `addr`, or `None` where
    /// nothing is mapped. fw_cfg registers are big-endian on the wire.
    #[verifier::opaque]
    pub open spec fn write(self, addr: u64, len: int, v: nat) -> Option<BusState> {
        if len == 2 && addr == FWCFG_REG_SELECTOR {
            Some(
                BusState {
                    fwcfg: Fwcfg {
                        selected: Some(swapped(v, 2) as u16),
                        cursor: 0,
                        ..self.fwcfg
                    },
                    ..self
                },
            )
        } else if len == 4 && addr == FWCFG_REG_DMA_ADDR_HIGH {
            Some(
                BusState {
                    fwcfg: Fwcfg {
                        dma_addr: high_set(self.fwcfg.dma_addr, swapped(v, 4) as u32),
                        ..self.fwcfg
                    },
                    ..self
                },
            )
        } else if len == 4 && addr == FWCFG_REG_DMA_ADDR_LOW {
            let desc = low_set(self.fwcfg.dma_addr, swapped(v, 4) as u32);
            Some(
                BusState {
                    fwcfg: Fwcfg { dma_addr: desc, ..self.fwcfg }.after_dma(self.ram, desc),
                    ram: Fwcfg::memory_after_dma(self.ram, desc),
                    ..self
                },
            )
        } else if in_fwcfg(addr) {
            Some(self)
        } else if len == 4 && WINDOW_BASE <= addr < WINDOW_BASE + WINDOW_SIZE {
            let written = self.virtio.after_write(addr, v as u32);
            if addr == WINDOW_BASE + REG_QUEUE_NOTIFY {
                let (virtio, ram) = written.notified(self.ram);
                Some(BusState { virtio, ram, ..self })
            } else {
                Some(BusState { virtio: written, ..self })
            }
        } else if in_uart(addr) {
            Some(
                BusState {
                    uart: self.uart.after_write(addr - UART_BASE, (v % 256) as u8),
                    ..self
                },
            )
        } else {
            match self.ram.store(addr, len, v) {
                Some(ram) => Some(BusState { ram, ..self }),
                None => None,
            }
        }
    }
}

/// A write leaves RAM above its extent 0.
proof fn lemma_write_keeps_ram_covered(b: BusState, addr: u64, len: int, v: nat)
    requires
        b.ram.covered(),
        0 <= len,
    ensures
        match b.write(addr, len, v) {
            Some(next) => next.ram.covered(),
            None => true,
        },
{
    reveal(BusState::write);
    lemma_stores_keep_ram_covered(b.ram, addr, len, v);
    let desc = low_set(b.fwcfg.dma_addr, swapped(v, 4) as u32);
    let status: u32 = if crate::fwcfg::is_ramfb_write(b.ram, desc) {
        0
    } else {
        crate::fwcfg::DMA_CTL_ERROR
    };
    lemma_stores_keep_ram_covered(b.ram, desc, 4, swapped(status as nat, 4));
    let written = b.virtio.after_write(addr, v as u32);
    crate::virtio::lemma_drained_keeps_ram_covered(
        written.tx,
        b.ram,
        written.output,
        written.waiting(b.ram),
    );
}

impl View for Bus {
    type V = BusState;

    closed spec fn view(&self) -> BusState {
        BusState {
            ram: self.ram@,
            uart: self.uart@,
            virtio: self.virtio@,
            fwcfg: self.fwcfg,
        }
    }
}

impl Clone for Bus {
    fn clone(&self) -> (r: Self)
        ensures
            r@ == self@,
            self.wf() ==> r.wf(),
    {
        Bus {
            ram: self.ram.clone(),
            uart: self.uart.clone(),
            virtio: self.virtio.clone(),
            fwcfg: self.fwcfg,
        }
    }
}

impl Bus {
    pub closed spec fn wf(self) -> bool {
        self.uart.wf() && self.ram@.covered()
    }

    /// A bus over `ram`, with the devices in their reset state and no ramfb.
    pub fn new(ram: Memory) -> (r: Self)
        requires
            ram@.covered(),
        ensures
            r.wf(),
            r@ == fresh(ram@),
    {
        Self {
            ram,
            uart: Uart::new(),
            virtio: Virtio::new(),
            fwcfg: Fwcfg::without_ramfb(),
        }
    }

    /// Make `etc/ramfb` exist in the fw_cfg directory. Off by default.
    pub fn fwcfg_enable_ramfb(&mut self)
        requires
            old(self).wf(),
        ensures
            final(self).wf(),
            final(self)@ == (BusState {
                fwcfg: Fwcfg { ramfb: true, ..old(self)@.fwcfg },
                ..old(self)@
            }),
    {
        self.fwcfg.enable_ramfb();
    }

    /// The captured `etc/ramfb` config, if a DMA write has completed.
    pub fn fwcfg_ramfb_cfg(&self) -> (r: Option<RamfbCfg>)
        ensures
            r == self@.fwcfg.ramfb_cfg,
    {
        self.fwcfg.ramfb_cfg()
    }

    pub fn uart_output(&self) -> (r: &[u8])
        ensures
            r@ == self@.uart.output,
    {
        self.uart.output()
    }

    /// Queue host console input for the guest to read via the UART receive buffer.
    pub fn push_console_input(&mut self, bytes: &[u8])
        requires
            old(self).wf(),
        ensures
            final(self).wf(),
            final(self)@ == (BusState {
                uart: UartState {
                    output: old(self)@.uart.output,
                    input: old(self)@.uart.input + bytes@,
                },
                ..old(self)@
            }),
    {
        self.uart.push_input(bytes);
    }

    /// Overwrite guest RAM (used to patch a snapshot's DTB before a fork).
    pub fn write_ram(&mut self, addr: u64, bytes: &[u8]) -> (r: Result<(), BusError>)
        requires
            old(self).wf(),
        ensures
            final(self).wf(),
            final(self)@ == (BusState {
                ram: old(self)@.ram.write(addr, bytes@).1,
                ..old(self)@
            }),
            match old(self)@.ram.write(addr, bytes@).0 {
                None => r == Ok::<(), BusError>(()),
                Some(at) => r == Err::<(), BusError>(BusError::OutOfRange { addr: at }),
            },
    {
        proof {
            law_writes_keep_ram_covered(self.ram@, addr, bytes@);
        }
        self.ram.write_bytes(addr, bytes)
    }

    /// Forget what was written before, for the RAM footprint.
    pub fn reset_high_water(&mut self)
        requires
            old(self).wf(),
        ensures
            final(self).wf(),
            final(self)@ == (BusState {
                ram: MemState { high_water: 0, ..old(self)@.ram },
                ..old(self)@
            }),
    {
        self.ram.reset_high_water();
    }

    /// Bytes the virtio-console has transmitted (the telemetry frame stream).
    pub fn virtio_tx_output(&self) -> (r: &[u8])
        ensures
            r@ == self@.virtio.output,
    {
        self.virtio.tx_output()
    }

    /// RAM, for the page-table walker (PTEs always live in physical memory).
    pub fn ram(&self) -> (r: &Memory)
        ensures
            r@ == self@.ram,
            self.wf() ==> r@.covered(),
    {
        &self.ram
    }

    pub fn read_u8(&mut self, addr: u64) -> (r: Result<u8, BusError>)
        requires
            old(self).wf(),
        ensures
            final(self).wf(),
            final(self)@ == old(self)@.read(addr, 1).1,
            match old(self)@.read(addr, 1).0 {
                Some(v) => r == Ok::<u8, BusError>(v as u8) && v == v as u8,
                None => r == Err::<u8, BusError>(BusError::OutOfRange { addr }),
            },
    {
        proof {
            reveal(BusState::read);
            reveal(BusState::peek);
        }
        if addr == FWCFG_REG_DATA {
            return Ok(self.fwcfg.read_data_byte());
        }
        if in_fwcfg(addr) {
            return Ok(0);
        }
        match uart_offset(addr) {
            Some(off) => Ok(self.uart.read(off)),
            None => self.ram.read_u8(addr),
        }
    }

    pub fn read_u16(&mut self, addr: u64) -> (r: Result<u16, BusError>)
        requires
            old(self).wf(),
        ensures
            final(self).wf(),
            final(self)@ == old(self)@.read(addr, 2).1,
            match old(self)@.read(addr, 2).0 {
                Some(v) => r == Ok::<u16, BusError>(v as u16) && v == v as u16,
                None => r == Err::<u16, BusError>(BusError::OutOfRange { addr }),
            },
    {
        proof {
            reveal(BusState::read);
            reveal(BusState::peek);
        }
        if in_fwcfg(addr) {
            return Ok(0);
        }
        match uart_offset(addr) {
            Some(off) => Ok(self.uart.read(off) as u16),
            None => self.ram.read_u16(addr),
        }
    }

    /// What a 2-byte read shows, with nothing taken off a device.
    pub fn peek_u16(&self, addr: u64) -> (r: Result<u16, BusError>)
        requires
            self.wf(),
        ensures
            match self@.peek(addr, 2) {
                Some(v) => r == Ok::<u16, BusError>(v as u16) && v == v as u16,
                None => r == Err::<u16, BusError>(BusError::OutOfRange { addr }),
            },
    {
        proof {
            reveal(BusState::peek);
        }
        if in_fwcfg(addr) {
            return Ok(0);
        }
        match uart_offset(addr) {
            Some(off) => Ok(self.uart.peek(off) as u16),
            None => self.ram.read_u16(addr),
        }
    }

    pub fn read_u32(&mut self, addr: u64) -> (r: Result<u32, BusError>)
        requires
            old(self).wf(),
        ensures
            final(self).wf(),
            final(self)@ == old(self)@.read(addr, 4).1,
            match old(self)@.read(addr, 4).0 {
                Some(v) => r == Ok::<u32, BusError>(v as u32) && v == v as u32,
                None => r == Err::<u32, BusError>(BusError::OutOfRange { addr }),
            },
    {
        proof {
            reveal(BusState::read);
            reveal(BusState::peek);
        }
        if in_fwcfg(addr) {
            return Ok(0);
        }
        if Virtio::in_window(addr) {
            return Ok(self.virtio.read(addr));
        }
        match uart_offset(addr) {
            Some(off) => Ok(self.uart.read(off) as u32),
            None => self.ram.read_u32(addr),
        }
    }

    /// What a 4-byte read shows, with nothing taken off a device.
    pub fn peek_u32(&self, addr: u64) -> (r: Result<u32, BusError>)
        requires
            self.wf(),
        ensures
            match self@.peek(addr, 4) {
                Some(v) => r == Ok::<u32, BusError>(v as u32) && v == v as u32,
                None => r == Err::<u32, BusError>(BusError::OutOfRange { addr }),
            },
    {
        proof {
            reveal(BusState::peek);
        }
        if in_fwcfg(addr) {
            return Ok(0);
        }
        if Virtio::in_window(addr) {
            return Ok(self.virtio.read(addr));
        }
        match uart_offset(addr) {
            Some(off) => Ok(self.uart.peek(off) as u32),
            None => self.ram.read_u32(addr),
        }
    }

    pub fn read_u64(&mut self, addr: u64) -> (r: Result<u64, BusError>)
        requires
            old(self).wf(),
        ensures
            final(self).wf(),
            final(self)@ == old(self)@.read(addr, 8).1,
            match old(self)@.read(addr, 8).0 {
                Some(v) => r == Ok::<u64, BusError>(v as u64) && v == v as u64,
                None => r == Err::<u64, BusError>(BusError::OutOfRange { addr }),
            },
    {
        proof {
            reveal(BusState::read);
            reveal(BusState::peek);
        }
        if in_fwcfg(addr) {
            return Ok(0);
        }
        match uart_offset(addr) {
            Some(off) => Ok(self.uart.read(off) as u64),
            None => self.ram.read_u64(addr),
        }
    }

    pub fn write_u8(&mut self, addr: u64, value: u8) -> (r: Result<(), BusError>)
        requires
            old(self).wf(),
        ensures
            final(self).wf(),
            match old(self)@.write(addr, 1, value as nat) {
                Some(next) => r == Ok::<(), BusError>(()) && final(self)@ == next,
                None => r == Err::<(), BusError>(BusError::OutOfRange { addr }) && final(self)@
                    == old(self)@,
            },
    {
        proof {
            lemma_write_keeps_ram_covered(self@, addr, 1, value as nat);
            reveal(BusState::write);
        }
        if in_fwcfg(addr) {
            return Ok(());
        }
        match uart_offset(addr) {
            Some(off) => {
                self.uart.write(off, value);
                Ok(())
            },
            None => self.ram.write_u8(addr, value),
        }
    }

    pub fn write_u16(&mut self, addr: u64, value: u16) -> (r: Result<(), BusError>)
        requires
            old(self).wf(),
        ensures
            final(self).wf(),
            match old(self)@.write(addr, 2, value as nat) {
                Some(next) => r == Ok::<(), BusError>(()) && final(self)@ == next,
                None => r == Err::<(), BusError>(BusError::OutOfRange { addr }) && final(self)@
                    == old(self)@,
            },
    {
        proof {
            lemma_write_keeps_ram_covered(self@, addr, 2, value as nat);
            reveal(BusState::write);
        }
        if addr == FWCFG_REG_SELECTOR {
            // fw_cfg registers are big-endian on the wire, whatever the guest is.
            proof {
                lemma_span_of_widths();
            }
            self.fwcfg.write_selector(swap_bytes(value as u64, 2) as u16);
            return Ok(());
        }
        if in_fwcfg(addr) {
            return Ok(());
        }
        match uart_offset(addr) {
            Some(off) => {
                self.uart.write(off, (value % 256) as u8);
                Ok(())
            },
            None => self.ram.write_u16(addr, value),
        }
    }

    pub fn write_u32(&mut self, addr: u64, value: u32) -> (r: Result<(), BusError>)
        requires
            old(self).wf(),
        ensures
            final(self).wf(),
            match old(self)@.write(addr, 4, value as nat) {
                Some(next) => r == Ok::<(), BusError>(()) && final(self)@ == next,
                None => r == Err::<(), BusError>(BusError::OutOfRange { addr }) && final(self)@
                    == old(self)@,
            },
    {
        proof {
            lemma_write_keeps_ram_covered(self@, addr, 4, value as nat);
            reveal(BusState::write);
        }
        proof {
            lemma_span_of_widths();
        }
        if addr == FWCFG_REG_DMA_ADDR_HIGH {
            self.fwcfg.write_dma_addr_high(swap_bytes(value as u64, 4) as u32);
            return Ok(());
        }
        if addr == FWCFG_REG_DMA_ADDR_LOW {
            // The low-half write is the DMA trigger: assemble the descriptor address,
            // then let the device touch RAM.
            let desc_pa: u64 = self.fwcfg.write_dma_addr_low(swap_bytes(value as u64, 4) as u32);
            self.fwcfg.complete_dma(&mut self.ram, desc_pa);
            return Ok(());
        }
        if in_fwcfg(addr) {
            return Ok(());
        }
        if Virtio::in_window(addr) {
            self.virtio.write(addr, value);
            if Virtio::is_notify(addr) {
                // A queue notify hands the device control: drain the TX ring from guest
                // RAM and publish the used ring back into it.
                self.virtio.service_tx(&mut self.ram);
            }
            return Ok(());
        }
        match uart_offset(addr) {
            Some(off) => {
                self.uart.write(off, (value % 256) as u8);
                Ok(())
            },
            None => self.ram.write_u32(addr, value),
        }
    }

    pub fn write_u64(&mut self, addr: u64, value: u64) -> (r: Result<(), BusError>)
        requires
            old(self).wf(),
        ensures
            final(self).wf(),
            match old(self)@.write(addr, 8, value as nat) {
                Some(next) => r == Ok::<(), BusError>(()) && final(self)@ == next,
                None => r == Err::<(), BusError>(BusError::OutOfRange { addr }) && final(self)@
                    == old(self)@,
            },
    {
        proof {
            lemma_write_keeps_ram_covered(self@, addr, 8, value as nat);
            reveal(BusState::write);
        }
        if in_fwcfg(addr) {
            return Ok(());
        }
        match uart_offset(addr) {
            Some(off) => {
                self.uart.write(off, (value % 256) as u8);
                Ok(())
            },
            None => self.ram.write_u64(addr, value),
        }
    }
}

/// The bus over RAM `ram` with the devices in their reset state.
pub open spec fn fresh(ram: MemState) -> BusState {
    BusState {
        ram,
        uart: UartState { output: Seq::empty(), input: Seq::empty() },
        virtio: VirtioState {
            status: 0,
            features_sel: 0,
            queue_sel: 0,
            rx: crate::virtio::idle_queue(),
            tx: crate::virtio::idle_queue(),
            output: Seq::empty(),
        },
        fwcfg: Fwcfg {
            selected: None,
            cursor: 0,
            ramfb: false,
            ramfb_cfg: None,
            dma_addr: 0,
        },
    }
}

/// Whether `addr` is a device register rather than RAM.
pub open spec fn in_device(addr: u64) -> bool {
    in_fwcfg(addr) || in_uart(addr) || WINDOW_BASE <= addr < WINDOW_BASE + WINDOW_SIZE
}

/// A read gives back what the last write of the same width put at the same RAM address,
/// and a write to RAM reaches no device.
pub proof fn law_read_after_write(b: BusState, addr: u64, len: int, v: nat)
    requires
        len == 1 || len == 2 || len == 4 || len == 8,
        v < span_of(len as nat),
        !in_device(addr),
        b.write(addr, len, v) is Some,
    ensures
        b.write(addr, len, v)->0.read(addr, len).0 == Some(v),
        b.write(addr, len, v)->0.uart == b.uart,
        b.write(addr, len, v)->0.virtio == b.virtio,
        b.write(addr, len, v)->0.fwcfg == b.fwcfg,
{
    reveal(BusState::peek);
    reveal(BusState::read);
    reveal(BusState::write);
    crate::mem::law_load_after_store(b.ram, addr, len, v);
}

/// A read of more than a byte returns what a look without effects shows.
pub proof fn lemma_read_shows_what_a_peek_does(b: BusState, addr: u64, len: int)
    requires
        len != 1,
    ensures
        b.read(addr, len).0 == b.peek(addr, len),
        !in_uart(addr) ==> b.read(addr, len).1 == b,
{
    reveal(BusState::read);
}

/// Every register access inside the fw_cfg page succeeds.
pub proof fn law_the_fwcfg_page_never_faults(b: BusState, addr: u64, len: int, v: nat)
    requires
        in_fwcfg(addr),
    ensures
        b.read(addr, len).0 is Some,
        b.write(addr, len, v) is Some,
{
    reveal(BusState::peek);
    reveal(BusState::read);
    reveal(BusState::write);
}

} // verus!
