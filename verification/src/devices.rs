//! What the guest sees of the devices, at the addresses where it sees it.

use vstd::prelude::*;
use crate::bus::BusState;
use crate::bytes::{be, be_bytes, le_bytes, lemma_be_of_be_bytes, swapped};
use crate::fwcfg::{item, ramfb_cfg_at, Fwcfg, RamfbCfg};
use crate::framebuffer::{law_every_pixel_is_in_the_image, ppm_header, rgb_rows};
use crate::gmac::GmacState;
use crate::isa::memory::{lemma_number, number};
use crate::machine::captured;
use crate::mem::{lemma_place_bounds, offset, MemState};
use crate::memop::lemma_fetched_bytes;
use crate::uart::UartState;
use crate::virtio::{
    chain_data, descriptor_data, descriptor_next, drained, published, queue_after_write, ring_slot,
    Queue, VirtioState,
};

verus! {

// The console UART.

/// A byte written to the UART is printed, whatever the width of the write: its low byte. What was
/// typed is read in order, one byte for each read of any width, and 0 where nothing waits. The
/// line status tells whether something does, and always that there is room to print.
pub proof fn law_the_console(b: BusState, n: int, v: nat)
    requires
        n == 1 || n == 2 || n == 4 || n == 8,
    ensures
        b.write(0x1000_0000, n, v) == Some(
            BusState {
                uart: UartState { output: b.uart.output.push((v % 0x100) as u8), ..b.uart },
                ..b
            },
        ),
        b.uart.input.len() > 0 ==> b.read(0x1000_0000, n) == (
            Some(b.uart.input[0] as nat),
            BusState { uart: UartState { input: b.uart.input.skip(1), ..b.uart }, ..b },
        ),
        b.uart.input.len() == 0 ==> b.read(0x1000_0000, n) == (Some(0nat), b),
        b.read(0x1000_0005, n) == (
            Some(
                if b.uart.input.len() > 0 {
                    0x61nat
                } else {
                    0x60
                },
            ),
            b,
        ),
{
    reveal(BusState::read);
    reveal(BusState::peek);
    reveal(BusState::write);
}

/// The other UART registers show 0 and take nothing.
pub proof fn law_the_other_uart_registers(b: BusState, addr: u64, n: int, v: nat)
    requires
        n == 1 || n == 2 || n == 4 || n == 8,
        0x1000_0000 < addr < 0x1000_0100,
    ensures
        addr != 0x1000_0005 ==> b.read(addr, n) == (Some(0nat), b),
        b.write(addr, n, v) == Some(b),
{
    reveal(BusState::read);
    reveal(BusState::peek);
    reveal(BusState::write);
}

// The telemetry console.

/// The device tells that it is a virtio console of the modern layout, which offers its version
/// alone as a feature, with a receive and a transmit queue of up to 256 buffers.
pub proof fn law_the_telemetry_console_tells_what_it_is(b: BusState)
    ensures
        b.read(0x1000_1000, 4) == (Some(0x7472_6976nat), b),
        b.read(0x1000_1004, 4) == (Some(2nat), b),
        b.read(0x1000_1008, 4) == (Some(3nat), b),
        b.read(0x1000_1010, 4) == (
            Some(
                if b.virtio.features_sel == 1 {
                    1nat
                } else {
                    0
                },
            ),
            b,
        ),
        b.read(0x1000_1034, 4) == (
            Some(
                if b.virtio.queue_sel <= 1 {
                    256nat
                } else {
                    0
                },
            ),
            b,
        ),
        b.read(0x1000_1044, 4) == (
            Some(
                if b.virtio.queue_sel == 0 {
                    b.virtio.rx.ready as nat
                } else if b.virtio.queue_sel == 1 {
                    b.virtio.tx.ready as nat
                } else {
                    0
                },
            ),
            b,
        ),
        b.read(0x1000_1070, 4) == (Some(b.virtio.status as nat), b),
{
    reveal(BusState::read);
    reveal(BusState::peek);
}

/// In each of the seven slots after it there is a transport without a device.
pub proof fn law_the_other_slots_are_empty(b: BusState, slot: int, v: u32)
    requires
        1 <= slot < 8,
    ensures
        b.read((0x1000_1000 + slot * 0x1000) as u64, 4) == (Some(0x7472_6976nat), b),
        b.read((0x1000_1004 + slot * 0x1000) as u64, 4) == (Some(2nat), b),
        b.read((0x1000_1008 + slot * 0x1000) as u64, 4) == (Some(0nat), b),
        b.write((0x1000_1070 + slot * 0x1000) as u64, 4, v as nat) == Some(b),
{
    reveal(BusState::read);
    reveal(BusState::peek);
    reveal(BusState::write);
}

/// `old_value` with its low half replaced.
pub open spec fn low_half(old_value: u64, v: u32) -> u64 {
    (old_value as int / 0x1_0000_0000 * 0x1_0000_0000 + v) as u64
}

/// `old_value` with its high half replaced.
pub open spec fn high_half(old_value: u64, v: u32) -> u64 {
    (v * 0x1_0000_0000 + old_value as int % 0x1_0000_0000) as u64
}

proof fn lemma_queue_registers(q: Queue, reg: u64, v: u32)
    ensures
        queue_after_write(q, reg, v) == if reg == 0x38 {
            Queue { num: v, ..q }
        } else if reg == 0x44 {
            Queue { ready: v, ..q }
        } else if reg == 0x80 {
            Queue { desc: low_half(q.desc, v), ..q }
        } else if reg == 0x84 {
            Queue { desc: high_half(q.desc, v), ..q }
        } else if reg == 0x90 {
            Queue { avail: low_half(q.avail, v), ..q }
        } else if reg == 0x94 {
            Queue { avail: high_half(q.avail, v), ..q }
        } else if reg == 0xa0 {
            Queue { used: low_half(q.used, v), ..q }
        } else if reg == 0xa4 {
            Queue { used: high_half(q.used, v), ..q }
        } else {
            q
        },
{
}

/// The driver sets a queue up by the registers of the one it has selected: its size, whether it
/// is ready, and the halves of the addresses of its descriptors and of its two rings. Nothing
/// else changes.
pub proof fn law_a_queue_is_set_up(b: BusState, v: u32, reg: u64)
    requires
        reg < 0x1000,
        reg != 0x50,
    ensures
        ({
            let s = b.virtio;
            let q = if s.queue_sel == 0 {
                s.rx
            } else {
                s.tx
            };
            let set = if reg == 0x38 {
                Queue { num: v, ..q }
            } else if reg == 0x44 {
                Queue { ready: v, ..q }
            } else if reg == 0x80 {
                Queue { desc: low_half(q.desc, v), ..q }
            } else if reg == 0x84 {
                Queue { desc: high_half(q.desc, v), ..q }
            } else if reg == 0x90 {
                Queue { avail: low_half(q.avail, v), ..q }
            } else if reg == 0x94 {
                Queue { avail: high_half(q.avail, v), ..q }
            } else if reg == 0xa0 {
                Queue { used: low_half(q.used, v), ..q }
            } else if reg == 0xa4 {
                Queue { used: high_half(q.used, v), ..q }
            } else {
                q
            };
            let virtio = if reg == 0x70 {
                VirtioState { status: v, ..s }
            } else if reg == 0x14 {
                VirtioState { features_sel: v, ..s }
            } else if reg == 0x30 {
                VirtioState { queue_sel: v, ..s }
            } else if s.queue_sel == 0 {
                VirtioState { rx: set, ..s }
            } else if s.queue_sel == 1 {
                VirtioState { tx: set, ..s }
            } else {
                s
            };
            b.write((0x1000_1000 + reg) as u64, 4, v as nat) == Some(BusState { virtio, ..b })
        }),
{
    lemma_queue_registers(b.virtio.rx, reg, v);
    lemma_queue_registers(b.virtio.tx, reg, v);
    lemma_register_write(b, reg, v);
    lemma_console_registers(b.virtio, reg, v);
}

proof fn lemma_register_write(b: BusState, reg: u64, v: u32)
    requires
        reg < 0x1000,
        reg != 0x50,
    ensures
        b.write((0x1000_1000 + reg) as u64, 4, v as nat) == Some(
            BusState { virtio: b.virtio.after_write((0x1000_1000 + reg) as u64, v), ..b },
        ),
{
    reveal(BusState::write);
}

proof fn lemma_console_registers(s: VirtioState, reg: u64, v: u32)
    requires
        reg < 0x1000,
    ensures
        s.after_write((0x1000_1000 + reg) as u64, v) == if reg == 0x70 {
            VirtioState { status: v, ..s }
        } else if reg == 0x14 {
            VirtioState { features_sel: v, ..s }
        } else if reg == 0x30 {
            VirtioState { queue_sel: v, ..s }
        } else if s.queue_sel == 0 {
            VirtioState { rx: queue_after_write(s.rx, reg, v), ..s }
        } else if s.queue_sel == 1 {
            VirtioState { tx: queue_after_write(s.tx, reg, v), ..s }
        } else {
            s
        },
{
}

/// A notify sends what waits on a transmit queue that is ready, if it has a size: as many buffers
/// as the driver's count is ahead of the device's. Otherwise it does nothing.
pub proof fn law_a_notify_sends_what_waits(b: BusState, v: u32)
    ensures
        ({
            let q = b.virtio.tx;
            let count = b.ram.load_or_zero(offset(q.avail, 2), 2) as int;
            let n = ((count - q.last) % 0x1_0000) as nat;
            let (q1, ram, output) = drained(q, b.ram, b.virtio.output, n);
            b.write(0x1000_1050, 4, v as nat) == Some(
                if q.ready != 0 && q.num != 0 {
                    BusState { ram, virtio: VirtioState { tx: q1, output, ..b.virtio }, ..b }
                } else {
                    b
                },
            )
        }),
{
    reveal(BusState::write);
}

/// Sending the next buffer takes the descriptor that the driver's ring names next, puts what it
/// points at after what was sent before, and puts the descriptor on the device's ring, with a
/// length of 0, and counts it there.
pub proof fn law_the_next_buffer_is_sent(q: Queue, m: MemState, out: Seq<u8>, n: nat)
    requires
        n > 0,
        q.num > 0,
    ensures
        ({
            let slot = q.last as int % q.num as int;
            let head = m.load_or_zero(offset(q.avail, 4 + 2 * slot), 2) as u16;
            let count = ((q.last + 1) % 0x1_0000) as u16;
            let m1 = m.store_if_mapped(offset(q.used, 4 + 8 * slot), 4, head as nat);
            let m2 = m1.store_if_mapped(offset(q.used, 8 + 8 * slot), 4, 0);
            let m3 = m2.store_if_mapped(offset(q.used, 2), 2, count as nat);
            drained(q, m, out, n) == drained(
                Queue { last: count, ..q },
                m3,
                out + chain_data(m, q.desc, head, q.num as nat),
                (n - 1) as nat,
            )
        }),
        drained(q, m, out, 0) == (q, m, out),
{
    reveal(ring_slot);
    reveal(published);
}

/// What a descriptor points at: the bytes at the address in its first eight bytes, as many as the
/// four after them say, or none where they are not all RAM, and then, where bit 0 of its flags is
/// set, what the descriptor that its last two bytes name points at.
pub proof fn law_descriptors_are_followed(m: MemState, table: u64, index: u16, more: nat)
    ensures
        ({
            let entry = offset(table, index * 16);
            let bytes = m.fetch(
                m.load_or_zero(entry, 8) as u64,
                m.load_or_zero(offset(entry, 8), 4) as int,
            );
            let data = match bytes {
                Some(data) => data,
                None => Seq::empty(),
            };
            let flags = m.load_or_zero(offset(entry, 12), 2) as u16;
            let next = m.load_or_zero(offset(entry, 14), 2) as u16;
            &&& flags & 1 == 0 || more == 0 ==> chain_data(m, table, index, more) == data
            &&& flags & 1 != 0 && more > 0 ==> chain_data(m, table, index, more) == data
                + chain_data(m, table, next, (more - 1) as nat)
        }),
{
    reveal(descriptor_data);
    reveal(descriptor_next);
}

// The firmware configuration.

/// The directory of files: their count, and for the one there may be its size, its key and its
/// name, which is `etc/ramfb`.
pub proof fn law_the_directory(ramfb: bool)
    ensures
        ({
            let d = item(0x19, ramfb);
            &&& !ramfb ==> d == seq![0u8, 0, 0, 0]
            &&& ramfb ==> {
                &&& d.len() == 68
                &&& d.take(21) == seq![
                    0u8, 0, 0, 1, 0, 0, 0, 28, 0, 0x42, 0, 0, 0x65, 0x74, 0x63, 0x2f, 0x72, 0x61,
                    0x6d, 0x66, 0x62,
                ]
                &&& forall|i: int| 21 <= i < 68 ==> #[trigger] d[i] == 0
            }
        }),
        forall|key: u16| key != 0x19 ==> (#[trigger] item(key, ramfb)).len() == 0,
{
    reveal_with_fuel(be_bytes, 5);
    lemma_be_of_be_bytes(1, 4);
    lemma_be_of_be_bytes(28, 4);
    lemma_be_of_be_bytes(0x42, 2);
    lemma_be_of_be_bytes(0, 2);
    lemma_be_of_be_bytes(0, 4);
    let d = item(0x19, ramfb);
    if ramfb {
        assert(d.take(21) =~= seq![
            0u8, 0, 0, 1, 0, 0, 0, 28, 0, 0x42, 0, 0, 0x65, 0x74, 0x63, 0x2f, 0x72, 0x61, 0x6d,
            0x66, 0x62,
        ]);
    } else {
        assert(d =~= seq![0u8, 0, 0, 0]);
    }
}

/// A key written to the selector, its high byte first, selects the item, which is then read from
/// its start.
pub proof fn law_an_item_is_selected(b: BusState, high: u8, low: u8)
    ensures
        b.write(0x1010_0008, 2, (high + low * 0x100) as nat) == Some(
            BusState {
                fwcfg: Fwcfg {
                    selected: Some((high * 0x100 + low) as u16),
                    cursor: 0,
                    ..b.fwcfg
                },
                ..b
            },
        ),
{
    reveal(BusState::write);
    lemma_swapped_pair(high, low);
}

proof fn lemma_be_four(a: u8, b: u8, c: u8, d: u8)
    ensures
        be(seq![a, b]) == a * 0x100 + b,
        be(seq![a, b, c, d]) == a * 0x100_0000 + b * 0x1_0000 + c * 0x100 + d,
{
    let e = Seq::<u8>::empty();
    assert(seq![a, b, c, d].drop_last() =~= seq![a, b, c]);
    assert(seq![a, b, c].drop_last() =~= seq![a, b]);
    assert(seq![a, b].drop_last() =~= seq![a]);
    assert(seq![a].drop_last() =~= e);
    assert(be(e) == 0);
    assert(be(seq![a]) == a);
    assert(be(seq![a, b]) == a * 0x100 + b);
    assert(be(seq![a, b, c]) == a * 0x1_0000 + b * 0x100 + c);
}

proof fn lemma_swapped_pair(high: u8, low: u8)
    ensures
        swapped((high + low * 0x100) as nat, 2) == high * 0x100 + low,
{
    let v = (high + low * 0x100) as nat;
    reveal_with_fuel(le_bytes, 3);
    assert(v % 256 == high && v / 256 == low);
    assert(le_bytes(v, 2) =~= seq![high, low]);
    lemma_be_four(high, low, 0, 0);
}

/// A number of four bytes, read in the other order.
proof fn lemma_swapped_four(a: u8, b: u8, c: u8, d: u8)
    ensures
        swapped((a + b * 0x100 + c * 0x1_0000 + d * 0x100_0000) as nat, 4) == a * 0x100_0000 + b
            * 0x1_0000 + c * 0x100 + d,
{
    let v = (a + b * 0x100 + c * 0x1_0000 + d * 0x100_0000) as nat;
    reveal_with_fuel(le_bytes, 5);
    let v1 = v / 256;
    assert(v % 256 == a && v1 == b + c * 0x100 + d * 0x1_0000);
    let v2 = v1 / 256;
    assert(v1 % 256 == b && v2 == c + d * 0x100);
    assert(v2 % 256 == c && v2 / 256 == d);
    assert(le_bytes(v, 4) =~= seq![a, b, c, d]);
    lemma_be_four(a, b, c, d);
}

/// A DMA descriptor that selects the file `etc/ramfb` and writes it whole hands the configuration
/// over that its address points at: where the picture is, its format, flags, width, height and
/// stride, each with its highest byte first. Its control word then is 0. Any other descriptor is
/// refused, and its control word is the error bit.
pub proof fn law_a_framebuffer_is_configured(dev: Fwcfg, m: MemState, desc: u64)
    ensures
        ({
            let control = m.load_be_or_zero(desc, 4) as u32;
            let length = m.load_be_or_zero(offset(desc, 4), 4);
            let at = m.load_be_or_zero(offset(desc, 8), 8) as u64;
            let good = control & 0x08 != 0 && control & 0x10 != 0 && control / 0x1_0000 == 0x42
                && length == 28;
            &&& dev.after_dma(m, desc) == if good {
                Fwcfg {
                    ramfb_cfg: Some(
                        RamfbCfg {
                            addr: m.load_be_or_zero(at, 8) as u64,
                            fourcc: m.load_be_or_zero(offset(at, 8), 4) as u32,
                            flags: m.load_be_or_zero(offset(at, 12), 4) as u32,
                            width: m.load_be_or_zero(offset(at, 16), 4) as u32,
                            height: m.load_be_or_zero(offset(at, 20), 4) as u32,
                            stride: m.load_be_or_zero(offset(at, 24), 4) as u32,
                        },
                    ),
                    ..dev
                }
            } else {
                dev
            }
            &&& Fwcfg::memory_after_dma(m, desc) == m.store_if_mapped(
                desc,
                4,
                if good {
                    0
                } else {
                    0x0100_0000
                },
            )
        }),
{
    reveal(ramfb_cfg_at);
    lemma_swapped_status();
}

proof fn lemma_swapped_status()
    ensures
        swapped(0, 4) == 0,
        swapped(1, 4) == 0x0100_0000,
{
    lemma_swapped_four(0, 0, 0, 0);
    lemma_swapped_four(1, 0, 0, 0);
}

/// The address of a DMA descriptor is written in two halves, the high one first, each with its
/// highest byte first; the second write hands the descriptor over.
pub proof fn law_a_descriptor_is_handed_over(b: BusState, b3: u8, b2: u8, b1: u8, b0: u8)
    ensures
        ({
            let v = (b3 + b2 * 0x100 + b1 * 0x1_0000 + b0 * 0x100_0000) as nat;
            let half = b3 * 0x100_0000 + b2 * 0x1_0000 + b1 * 0x100 + b0;
            let dma = b.fwcfg.dma_addr as int;
            let desc = (dma / 0x1_0000_0000 * 0x1_0000_0000 + half) as u64;
            &&& b.write(0x1010_0010, 4, v) == Some(
                BusState {
                    fwcfg: Fwcfg {
                        dma_addr: (half * 0x1_0000_0000 + dma % 0x1_0000_0000) as u64,
                        ..b.fwcfg
                    },
                    ..b
                },
            )
            &&& b.write(0x1010_0014, 4, v) == Some(
                BusState {
                    fwcfg: Fwcfg { dma_addr: desc, ..b.fwcfg }.after_dma(b.ram, desc),
                    ram: Fwcfg::memory_after_dma(b.ram, desc),
                    ..b
                },
            )
        }),
{
    reveal(BusState::write);
    lemma_swapped_four(b3, b2, b1, b0);
}

// The network device.

/// The network device tells its version and its interface, and gives back the ring's address and
/// length as they were written.
pub proof fn law_the_ring_registers_are_read_back(g: GmacState, v: u32, w: u32)
    ensures
        g.register(0x1604_0110) == 0x1052,
        g.register(0x1303_0090) == 0x4,
        g.after_write(0x1604_1114, v).after_write(0x1604_1110, w).tx_base as int == w
            * 0x1_0000_0000 + v,
        g.after_write(0x1604_1110, w).after_write(0x1604_1114, v).tx_base as int == w
            * 0x1_0000_0000 + v,
        g.after_write(0x1604_112c, v) == (GmacState { tx_ring_len: v, ..g }),
        g.after_write(0x1604_1114, v).register(0x1604_1114) == v,
        g.after_write(0x1604_1110, v).register(0x1604_1110) == v,
        g.after_write(0x1604_112c, v).register(0x1604_112c) == v,
        g.after_write(0x1604_1120, v) == g,
{
}

proof fn lemma_error_bit(v: u32)
    requires
        v < 0x8000_0000,
    ensures
        (v | 0x8000) as int == if v as int / 0x8000 % 2 == 1 {
            v as int
        } else {
            v + 0x8000
        },
{
    if v as int / 0x8000 % 2 == 1 {
        assert(v / 0x8000 % 2 == 1 ==> v | 0x8000 == v) by (bit_vector);
    } else {
        assert(v < 0x8000_0000 && v / 0x8000 % 2 == 0 ==> v | 0x8000 == v + 0x8000)
            by (bit_vector);
    }
}

/// A descriptor of sixteen bytes gives the low and the high half of its buffer's address in its
/// first two words and the length in fourteen bits of the third, and is the device's while bit 31
/// of the fourth is set. The device gives it back with that bit cleared, and with bit 15 set
/// where the buffer is not all RAM; where it is, the buffer is sent. Then comes the next
/// descriptor, and after the last the first.
pub proof fn law_a_descriptor_is_transmitted(g: GmacState, m: MemState, n: nat)
    requires
        g.tx_ring_len > 0,
    ensures
        ({
            let desc = offset(g.tx_base, g.tx_current * 16);
            let lo = m.load_or_zero(desc, 4);
            let hi = m.load_or_zero(offset(desc, 4), 4);
            let len = m.load_or_zero(offset(desc, 8), 4) % 0x4000;
            let last = m.load_or_zero(offset(desc, 12), 4) as u32;
            let frame = m.fetch((hi * 0x1_0000_0000 + lo) as u64, len as int);
            let next = ((g.tx_current + 1) % g.tx_ring_len as int) as u32;
            let cleared = last - 0x8000_0000;
            &&& n == 0 || last < 0x8000_0000 ==> g.transmit(m, n) == (g, m)
            &&& n > 0 && last >= 0x8000_0000 && frame is Some ==> g.transmit(m, n) == (GmacState {
                frames: g.frames.push(frame->0),
                tx_current: next,
                ..g
            }).transmit(m.store_if_mapped(offset(desc, 12), 4, cleared as nat), (n - 1) as nat)
            &&& n > 0 && last >= 0x8000_0000 && frame is None ==> g.transmit(m, n) == (GmacState {
                tx_current: next,
                ..g
            }).transmit(
                m.store_if_mapped(
                    offset(desc, 12),
                    4,
                    (if cleared / 0x8000 % 2 == 1 {
                        cleared
                    } else {
                        cleared + 0x8000
                    }) as nat,
                ),
                (n - 1) as nat,
            )
        }),
{
    let desc = offset(g.tx_base, g.tx_current * 16);
    let last = m.load_or_zero(offset(desc, 12), 4) as u32;
    if last >= 0x8000_0000 {
        lemma_error_bit((last - 0x8000_0000) as u32);
    }
}

/// A kick walks the ring once, at most 64 descriptors of it, and nothing where there is none.
pub proof fn law_a_kick_walks_the_ring(g: GmacState, m: MemState)
    ensures
        g.tx_base == 0 || g.tx_ring_len == 0 ==> g.kicked(m) == (g, m),
        g.tx_base != 0 && 0 < g.tx_ring_len <= 64 ==> g.kicked(m) == g.transmit(
            m,
            g.tx_ring_len as nat,
        ),
        g.tx_base != 0 && g.tx_ring_len > 64 ==> g.kicked(m) == g.transmit(m, 64),
{
}

// The picture.

/// The picture of a machine is what its RAM holds where the configuration points: byte `c` (red,
/// green, blue) of pixel `x` of row `y` is the byte at that row's start, four bytes a pixel on,
/// blue first; 0 where there is no RAM.
pub proof fn law_the_picture_is_in_ram(m: MemState, cfg: RamfbCfg, x: int, y: int, c: int)
    requires
        0 <= x < cfg.width,
        0 <= y < cfg.height,
        0 <= c < 3,
        4 * cfg.width <= cfg.stride,
    ensures
        ({
            let pixels = captured(m, cfg);
            let (w, h, s) = (cfg.width as nat, cfg.height as nat, cfg.stride as nat);
            let header = ppm_header(w, h);
            let image = header + rgb_rows(pixels, w, s, h);
            let at = y * cfg.stride + 4 * x + 2 - c;
            image[header.len() + 3 * (y * cfg.width + x) + c] == match m.load(
                offset(cfg.addr, at),
                1,
            ) {
                Some(v) => v as u8,
                None => 0,
            }
        }),
{
    let pixels = captured(m, cfg);
    let (w, h, s) = (cfg.width as nat, cfg.height as nat, cfg.stride as nat);
    law_every_pixel_is_in_the_image(pixels, w, h, s, x, y, c);
    let at = y * cfg.stride + 4 * x + 2 - c;
    assert(0 <= at < cfg.stride * cfg.height) by (nonlinear_arith)
        requires
            0 <= y,
            y + 1 <= cfg.height,
            0 <= x,
            x + 1 <= cfg.width,
            4 * cfg.width <= cfg.stride,
            0 <= c < 3,
            at == y * cfg.stride + 4 * x + 2 - c,
    ;
}

// How the devices read memory.

/// Bytes of RAM are read one by one, in order, or not at all where one of them is not RAM.
pub proof fn law_buffers_are_read_byte_by_byte(m: MemState, addr: u64, len: int)
    requires
        m.scramble is None,
        m.bytes.len() <= 0x7fff_ffff_ffff_ffff,
        0x8000_0000 <= addr,
        0 <= len,
        addr + len <= u64::MAX,
    ensures
        addr - 0x8000_0000 + len <= m.bytes.len() ==> m.fetch(addr, len) == Some(
            m.bytes.subrange(addr - 0x8000_0000, addr - 0x8000_0000 + len),
        ),
        addr - 0x8000_0000 + len > m.bytes.len() && len > 0 ==> m.fetch(addr, len) is None,
{
    if addr - 0x8000_0000 + len <= m.bytes.len() {
        lemma_fetched_bytes(m, addr, len);
    } else if len > 0 {
        assert(offset(addr, len - 1) == addr + len - 1);
        assert(m.load(offset(addr, len - 1), 1) is None);
    }
}

/// Numbers in RAM are read with their highest byte first by one device, and with the lowest first
/// by the others, and as 0 where they are not RAM.
pub proof fn law_numbers_are_read_either_way(m: MemState, addr: u64)
    requires
        m.scramble is None,
        0x8000_0000 <= addr,
    ensures
        ({
            let at = addr - 0x8000_0000;
            let b = m.bytes;
            &&& at + 4 <= b.len() ==> m.load_be_or_zero(addr, 4) == b[at] * 0x100_0000 + b[at + 1]
                * 0x1_0000 + b[at + 2] * 0x100 + b[at + 3]
            &&& at + 4 <= b.len() ==> m.load_or_zero(addr, 4) == b[at] + b[at + 1] * 0x100 + b[at
                + 2] * 0x1_0000 + b[at + 3] * 0x100_0000
            &&& at + 2 <= b.len() ==> m.load_or_zero(addr, 2) == b[at] + b[at + 1] * 0x100
            &&& at + 4 > b.len() ==> m.load_be_or_zero(addr, 4) == 0 && m.load_or_zero(addr, 4)
                == 0
        }),
{
    let at = addr - 0x8000_0000;
    lemma_place_bounds(m, at);
    let b = m.bytes;
    if at + 4 <= b.len() {
        assert(b.subrange(at, at + 4) =~= seq![b[at], b[at + 1], b[at + 2], b[at + 3]]);
        lemma_be_four(b[at], b[at + 1], b[at + 2], b[at + 3]);
        lemma_number(b, at, 4);
        reveal_with_fuel(number, 5);
    }
    if at + 2 <= b.len() {
        lemma_number(b, at, 2);
        reveal_with_fuel(number, 3);
    }
}

} // verus!
