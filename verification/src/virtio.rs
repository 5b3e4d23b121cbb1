//! A virtio-mmio console: the register file of one transport slot and the transmit
//! queue of port 0, which carries the guest's telemetry stream to the host.

use vstd::prelude::*;
use crate::bytes::lemma_span_of_widths;
use crate::fwcfg::{put_high, put_low};
use crate::mem::{lemma_stores_keep_ram_covered, offset, MemState, Memory};

verus! {

/// The eight virtio-mmio transport slots of the QEMU `virt` machine.
pub const WINDOW_BASE: u64 = 0x1000_1000;
pub const WINDOW_SIZE: u64 = 0x8000;
/// Bytes of one slot; the console sits in the first, the others are empty.
pub const SLOT_SIZE: u64 = 0x1000;

pub const REG_MAGIC: u64 = 0x000;
pub const REG_VERSION: u64 = 0x004;
pub const REG_DEVICE_ID: u64 = 0x008;
pub const REG_DEVICE_FEATURES: u64 = 0x010;
pub const REG_DEVICE_FEATURES_SEL: u64 = 0x014;
pub const REG_QUEUE_SEL: u64 = 0x030;
pub const REG_QUEUE_NUM_MAX: u64 = 0x034;
pub const REG_QUEUE_NUM: u64 = 0x038;
pub const REG_QUEUE_READY: u64 = 0x044;
pub const REG_QUEUE_NOTIFY: u64 = 0x050;
pub const REG_STATUS: u64 = 0x070;
pub const REG_QUEUE_DESC_LOW: u64 = 0x080;
pub const REG_QUEUE_DESC_HIGH: u64 = 0x084;
pub const REG_QUEUE_DRIVER_LOW: u64 = 0x090;
pub const REG_QUEUE_DRIVER_HIGH: u64 = 0x094;
pub const REG_QUEUE_DEVICE_LOW: u64 = 0x0a0;
pub const REG_QUEUE_DEVICE_HIGH: u64 = 0x0a4;

/// "virt", little-endian.
pub const MAGIC: u32 = 0x7472_6976;
/// The modern register layout.
pub const VERSION: u32 = 2;
/// A console device.
pub const DEVICE_CONSOLE: u32 = 3;
/// The largest queue the device takes.
pub const QUEUE_NUM_MAX: u32 = 256;
/// The transmit queue of port 0.
pub const TX_QUEUE: u32 = 1;
/// The descriptor flag that another descriptor follows.
pub const DESC_F_NEXT: u16 = 1;

/// One virtqueue: its size, whether the driver has made it ready, where its three rings
/// are, and how far the device has come in the available ring.
#[derive(Clone, Copy, Debug, PartialEq, Eq, Structural)]
pub struct Queue {
    pub num: u32,
    pub ready: u32,
    pub desc: u64,
    pub avail: u64,
    pub used: u64,
    pub last: u16,
}

/// The console device.
pub struct Virtio {
    status: u32,
    features_sel: u32,
    queue_sel: u32,
    /// The receive and transmit queues; a selector above them names none.
    rx: Queue,
    tx: Queue,
    output: Vec<u8>,
}

/// What a [`Virtio`] holds.
pub struct VirtioState {
    pub status: u32,
    pub features_sel: u32,
    pub queue_sel: u32,
    pub rx: Queue,
    pub tx: Queue,
    pub output: Seq<u8>,
}

/// A queue the driver has not set up.
pub open spec fn idle_queue() -> Queue {
    Queue { num: 0, ready: 0, desc: 0, avail: 0, used: 0, last: 0 }
}

/// `q` after the driver has written `value` to queue register `reg`.
pub open spec fn queue_after_write(q: Queue, reg: u64, value: u32) -> Queue {
    if reg == REG_QUEUE_NUM {
        Queue { num: value, ..q }
    } else if reg == REG_QUEUE_READY {
        Queue { ready: value, ..q }
    } else if reg == REG_QUEUE_DESC_LOW {
        Queue { desc: low_set(q.desc, value), ..q }
    } else if reg == REG_QUEUE_DESC_HIGH {
        Queue { desc: high_set(q.desc, value), ..q }
    } else if reg == REG_QUEUE_DRIVER_LOW {
        Queue { avail: low_set(q.avail, value), ..q }
    } else if reg == REG_QUEUE_DRIVER_HIGH {
        Queue { avail: high_set(q.avail, value), ..q }
    } else if reg == REG_QUEUE_DEVICE_LOW {
        Queue { used: low_set(q.used, value), ..q }
    } else if reg == REG_QUEUE_DEVICE_HIGH {
        Queue { used: high_set(q.used, value), ..q }
    } else {
        q
    }
}

/// `slot` with its low half replaced.
pub open spec fn low_set(slot: u64, value: u32) -> u64 {
    (slot as int / 0x1_0000_0000 * 0x1_0000_0000 + value) as u64
}

/// `slot` with its high half replaced.
pub open spec fn high_set(slot: u64, value: u32) -> u64 {
    (slot as int % 0x1_0000_0000 + value * 0x1_0000_0000) as u64
}

/// The data the descriptor at `entry` points at: nothing where the buffer does not
/// resolve.
#[verifier::opaque]
pub open spec fn descriptor_data(m: MemState, entry: u64) -> Seq<u8> {
    match m.fetch(
        m.load_or_zero(entry, 8) as u64,
        m.load_or_zero(offset(entry, 8), 4) as int,
    ) {
        Some(data) => data,
        None => Seq::empty(),
    }
}

/// The descriptor that follows the one at `entry`, if it says that one does.
#[verifier::opaque]
pub open spec fn descriptor_next(m: MemState, entry: u64) -> Option<u16> {
    if m.load_or_zero(offset(entry, 12), 2) as u16 & DESC_F_NEXT != 0 {
        Some(m.load_or_zero(offset(entry, 14), 2) as u16)
    } else {
        None
    }
}

/// The data of descriptor `index` of the table at `table` and of up to `more`
/// descriptors chained to it.
pub open spec fn chain_data(m: MemState, table: u64, index: u16, more: nat) -> Seq<u8>
    decreases more,
{
    let entry = offset(table, index * 16);
    match descriptor_next(m, entry) {
        Some(next) if more > 0 => descriptor_data(m, entry) + chain_data(
            m,
            table,
            next,
            (more - 1) as nat,
        ),
        _ => descriptor_data(m, entry),
    }
}

/// The ring position the device is at.
#[verifier::opaque]
pub open spec fn ring_slot(q: Queue) -> int {
    q.last as int % q.num as int
}

/// The ring position the device is at.
fn slot_of(q: Queue) -> (r: u64)
    requires
        q.num > 0,
    ensures
        r == ring_slot(q),
        r < 0x1_0000,
{
    proof {
        reveal(ring_slot);
        vstd::arithmetic::div_mod::lemma_mod_decreases(q.last as nat, q.num as nat);
    }
    q.last as u64 % q.num as u64
}

/// Memory after the chain that starts at `head` was put on the used ring.
#[verifier::opaque]
pub open spec fn published(q: Queue, m: MemState, head: u16) -> MemState {
    let slot = ring_slot(q);
    let next = ((q.last + 1) % 0x1_0000) as u16;
    let m1 = m.store_if_mapped(offset(q.used, 4 + 8 * slot), 4, head as nat);
    let m2 = m1.store_if_mapped(offset(q.used, 8 + 8 * slot), 4, 0);
    m2.store_if_mapped(offset(q.used, 2), 2, next as nat)
}

/// Put the chain that starts at `head` on the used ring.
fn publish(q: Queue, ram: &mut Memory, head: u16)
    requires
        q.num > 0,
    ensures
        final(ram)@ == published(q, old(ram)@, head),
{
    let slot: u64 = slot_of(q);
    let next: u16 = q.last.wrapping_add(1);
    let u4: u64 = q.used.wrapping_add(4 + 8 * slot);
    let u8_: u64 = q.used.wrapping_add(8 + 8 * slot);
    let u2: u64 = q.used.wrapping_add(2);
    proof {
        reveal(published);
        assert(u4 == offset(q.used, 4 + 8 * slot));
        assert(u8_ == offset(q.used, 8 + 8 * slot));
        assert(u2 == offset(q.used, 2));
    }
    let _ = ram.write_u32(u4, head as u32);
    let _ = ram.write_u32(u8_, 0);
    let _ = ram.write_u16(u2, next);
}

/// The queue, memory and output after the device has taken `n` buffers off the
/// available ring: each chain's data is appended to the output, and the chain is
/// published on the used ring.
pub open spec fn drained(q: Queue, m: MemState, out: Seq<u8>, n: nat) -> (Queue, MemState, Seq<u8>)
    decreases n,
{
    if n == 0 {
        (q, m, out)
    } else {
        let slot = ring_slot(q);
        let head = m.load_or_zero(offset(q.avail, 4 + 2 * slot), 2) as u16;
        let data = chain_data(m, q.desc, head, q.num as nat);
        let next = ((q.last + 1) % 0x1_0000) as u16;
        drained(
            Queue { last: next, ..q },
            published(q, m, head),
            out + data,
            (n - 1) as nat,
        )
    }
}

/// The device's writes leave RAM above its extent 0.
pub proof fn lemma_drained_keeps_ram_covered(q: Queue, m: MemState, out: Seq<u8>, n: nat)
    requires
        m.covered(),
    ensures
        drained(q, m, out, n).1.covered(),
    decreases n,
{
    if n > 0 {
        reveal(published);
        let slot = ring_slot(q);
        let head = m.load_or_zero(offset(q.avail, 4 + 2 * slot), 2) as u16;
        let next = ((q.last + 1) % 0x1_0000) as u16;
        let m1 = m.store_if_mapped(offset(q.used, 4 + 8 * slot), 4, head as nat);
        let m2 = m1.store_if_mapped(offset(q.used, 8 + 8 * slot), 4, 0);
        lemma_stores_keep_ram_covered(m, offset(q.used, 4 + 8 * slot), 4, head as nat);
        lemma_stores_keep_ram_covered(m1, offset(q.used, 8 + 8 * slot), 4, 0);
        lemma_stores_keep_ram_covered(m2, offset(q.used, 2), 2, next as nat);
        lemma_drained_keeps_ram_covered(
            Queue { last: next, ..q },
            published(q, m, head),
            out + chain_data(m, q.desc, head, q.num as nat),
            (n - 1) as nat,
        );
    }
}

impl VirtioState {
    /// What the register at `addr` shows; an empty slot shows a transport without a
    /// device.
    pub open spec fn register(self, addr: u64) -> u32 {
        let reg = (addr - WINDOW_BASE) % SLOT_SIZE as int;
        let here = addr - WINDOW_BASE < SLOT_SIZE;
        if reg == REG_MAGIC {
            MAGIC
        } else if reg == REG_VERSION {
            VERSION
        } else if !here {
            0
        } else if reg == REG_DEVICE_ID {
            DEVICE_CONSOLE
        } else if reg == REG_DEVICE_FEATURES {
            // The one feature offered is bit 32, VERSION_1.
            if self.features_sel == 1 {
                1
            } else {
                0
            }
        } else if reg == REG_QUEUE_NUM_MAX {
            if self.queue_sel <= TX_QUEUE {
                QUEUE_NUM_MAX
            } else {
                0
            }
        } else if reg == REG_QUEUE_READY {
            if self.queue_sel == 0 {
                self.rx.ready
            } else if self.queue_sel == TX_QUEUE {
                self.tx.ready
            } else {
                0
            }
        } else if reg == REG_STATUS {
            self.status
        } else {
            0
        }
    }

    /// The device after `value` was written to the register at `addr`.
    pub open spec fn after_write(self, addr: u64, value: u32) -> VirtioState {
        let reg = ((addr - WINDOW_BASE) % SLOT_SIZE as int) as u64;
        if addr - WINDOW_BASE >= SLOT_SIZE {
            self
        } else if reg == REG_STATUS {
            VirtioState { status: value, ..self }
        } else if reg == REG_DEVICE_FEATURES_SEL {
            VirtioState { features_sel: value, ..self }
        } else if reg == REG_QUEUE_SEL {
            VirtioState { queue_sel: value, ..self }
        } else if self.queue_sel == 0 {
            VirtioState { rx: queue_after_write(self.rx, reg, value), ..self }
        } else if self.queue_sel == TX_QUEUE {
            VirtioState { tx: queue_after_write(self.tx, reg, value), ..self }
        } else {
            self
        }
    }

    /// How many buffers wait on the transmit queue.
    pub open spec fn waiting(self, m: MemState) -> nat {
        ((m.load_or_zero(offset(self.tx.avail, 2), 2) - self.tx.last) % 0x1_0000) as nat
    }

    /// The device and memory after a notify: a ready transmit queue is drained.
    pub open spec fn notified(self, m: MemState) -> (VirtioState, MemState) {
        if self.tx.ready == 0 || self.tx.num == 0 {
            (self, m)
        } else {
            let (q, after, out) = drained(self.tx, m, self.output, self.waiting(m));
            (VirtioState { tx: q, output: out, ..self }, after)
        }
    }
}

impl View for Virtio {
    type V = VirtioState;

    closed spec fn view(&self) -> VirtioState {
        VirtioState {
            status: self.status,
            features_sel: self.features_sel,
            queue_sel: self.queue_sel,
            rx: self.rx,
            tx: self.tx,
            output: self.output@,
        }
    }
}

impl Clone for Virtio {
    fn clone(&self) -> (r: Self)
        ensures
            r@ == self@,
    {
        let output = self.output.clone();
        proof {
            assert(output@ =~= self.output@);
        }
        Virtio {
            status: self.status,
            features_sel: self.features_sel,
            queue_sel: self.queue_sel,
            rx: self.rx,
            tx: self.tx,
            output,
        }
    }
}

/// Write `value` to queue register `reg` of `q`.
fn write_queue(q: Queue, reg: u64, value: u32) -> (r: Queue)
    ensures
        r == queue_after_write(q, reg, value),
{
    if reg == REG_QUEUE_NUM {
        Queue { num: value, ..q }
    } else if reg == REG_QUEUE_READY {
        Queue { ready: value, ..q }
    } else if reg == REG_QUEUE_DESC_LOW {
        Queue { desc: put_low(q.desc, value), ..q }
    } else if reg == REG_QUEUE_DESC_HIGH {
        Queue { desc: put_high(q.desc, value), ..q }
    } else if reg == REG_QUEUE_DRIVER_LOW {
        Queue { avail: put_low(q.avail, value), ..q }
    } else if reg == REG_QUEUE_DRIVER_HIGH {
        Queue { avail: put_high(q.avail, value), ..q }
    } else if reg == REG_QUEUE_DEVICE_LOW {
        Queue { used: put_low(q.used, value), ..q }
    } else if reg == REG_QUEUE_DEVICE_HIGH {
        Queue { used: put_high(q.used, value), ..q }
    } else {
        q
    }
}

/// Append the data of the descriptor at `entry` to `out`.
fn append_descriptor(ram: &Memory, entry: u64, out: &mut Vec<u8>)
    ensures
        final(out)@ == old(out)@ + descriptor_data(ram@, entry),
{
    proof {
        reveal(descriptor_data);
        lemma_span_of_widths();
    }
    let a8: u64 = entry.wrapping_add(8);
    proof {
        assert(a8 == offset(entry, 8));
    }
    let addr: u64 = match ram.read_u64(entry) {
        Ok(v) => v,
        Err(_) => 0,
    };
    let len: u32 = ram.read_u32_or_zero(a8);
    match ram.fetch(addr, len as usize) {
        Some(data) => {
            let mut data = data;
            out.append(&mut data);
        },
        None => {},
    }
    proof {
        assert(out@ =~= old(out)@ + descriptor_data(ram@, entry));
    }
}

/// The descriptor that follows the one at `entry`.
fn next_descriptor(ram: &Memory, entry: u64) -> (r: Option<u16>)
    ensures
        r == descriptor_next(ram@, entry),
{
    proof {
        reveal(descriptor_next);
    }
    let a12: u64 = entry.wrapping_add(12);
    let a14: u64 = entry.wrapping_add(14);
    proof {
        assert(a12 == offset(entry, 12));
        assert(a14 == offset(entry, 14));
    }
    if ram.read_u16_or_zero(a12) & DESC_F_NEXT != 0 {
        Some(ram.read_u16_or_zero(a14))
    } else {
        None
    }
}

/// Append the data of a descriptor chain to `out`.
fn append_chain(ram: &Memory, table: u64, head: u16, num: u32, out: &mut Vec<u8>)
    ensures
        final(out)@ == old(out)@ + chain_data(ram@, table, head, num as nat),
{
    let mut index: u16 = head;
    let mut more: u32 = num;
    let ghost goal = out@ + chain_data(ram@, table, head, num as nat);
    loop
        invariant_except_break
            goal == out@ + chain_data(ram@, table, index, more as nat),
        ensures
            out@ == goal,
        decreases more,
    {
        let entry: u64 = table.wrapping_add(index as u64 * 16);
        proof {
            assert(entry == offset(table, index * 16));
        }
        let ghost before = out@;
        append_descriptor(ram, entry, out);
        match next_descriptor(ram, entry) {
            Some(next) if more > 0 => {
                proof {
                    let rest = chain_data(ram@, table, next, (more - 1) as nat);
                    assert(out@ + rest =~= before + (descriptor_data(ram@, entry) + rest));
                }
                index = next;
                more = more - 1;
            },
            _ => {
                break;
            },
        }
    }
}

impl Virtio {
    pub fn new() -> (r: Self)
        ensures
            r@ == (VirtioState {
                status: 0,
                features_sel: 0,
                queue_sel: 0,
                rx: idle_queue(),
                tx: idle_queue(),
                output: Seq::empty(),
            }),
    {
        let q: Queue = Queue { num: 0, ready: 0, desc: 0, avail: 0, used: 0, last: 0 };
        Self { status: 0, features_sel: 0, queue_sel: 0, rx: q, tx: q, output: Vec::new() }
    }

    /// Whether `addr` is in one of the transport slots.
    pub fn in_window(addr: u64) -> (r: bool)
        ensures
            r == (WINDOW_BASE <= addr < WINDOW_BASE + WINDOW_SIZE),
    {
        WINDOW_BASE <= addr && addr < WINDOW_BASE + WINDOW_SIZE
    }

    /// Whether a write to `addr` notifies the console's queues.
    pub fn is_notify(addr: u64) -> (r: bool)
        ensures
            r == (addr == WINDOW_BASE + REG_QUEUE_NOTIFY),
    {
        addr == WINDOW_BASE + REG_QUEUE_NOTIFY
    }

    /// Read the register at `addr`.
    pub fn read(&self, addr: u64) -> (r: u32)
        requires
            WINDOW_BASE <= addr < WINDOW_BASE + WINDOW_SIZE,
        ensures
            r == self@.register(addr),
    {
        let reg: u64 = (addr - WINDOW_BASE) % SLOT_SIZE;
        if reg == REG_MAGIC {
            MAGIC
        } else if reg == REG_VERSION {
            VERSION
        } else if addr - WINDOW_BASE >= SLOT_SIZE {
            0
        } else if reg == REG_DEVICE_ID {
            DEVICE_CONSOLE
        } else if reg == REG_DEVICE_FEATURES {
            if self.features_sel == 1 {
                1
            } else {
                0
            }
        } else if reg == REG_QUEUE_NUM_MAX {
            if self.queue_sel <= TX_QUEUE {
                QUEUE_NUM_MAX
            } else {
                0
            }
        } else if reg == REG_QUEUE_READY {
            if self.queue_sel == 0 {
                self.rx.ready
            } else if self.queue_sel == TX_QUEUE {
                self.tx.ready
            } else {
                0
            }
        } else if reg == REG_STATUS {
            self.status
        } else {
            0
        }
    }

    /// Write the register at `addr`.
    pub fn write(&mut self, addr: u64, value: u32)
        requires
            WINDOW_BASE <= addr < WINDOW_BASE + WINDOW_SIZE,
        ensures
            final(self)@ == old(self)@.after_write(addr, value),
    {
        let reg: u64 = (addr - WINDOW_BASE) % SLOT_SIZE;
        if addr - WINDOW_BASE >= SLOT_SIZE {
            return;
        }
        if reg == REG_STATUS {
            self.status = value;
        } else if reg == REG_DEVICE_FEATURES_SEL {
            self.features_sel = value;
        } else if reg == REG_QUEUE_SEL {
            self.queue_sel = value;
        } else if self.queue_sel == 0 {
            self.rx = write_queue(self.rx, reg, value);
        } else if self.queue_sel == TX_QUEUE {
            self.tx = write_queue(self.tx, reg, value);
        }
    }

    /// Drain the transmit ring from guest RAM and publish the used ring back into it.
    pub fn service_tx(&mut self, ram: &mut Memory)
        ensures
            (final(self)@, final(ram)@) == old(self)@.notified(old(ram)@),
    {
        if self.tx.ready == 0 || self.tx.num == 0 {
            return;
        }
        proof {
            lemma_span_of_widths();
        }
        let a2: u64 = self.tx.avail.wrapping_add(2);
        proof {
            assert(a2 == offset(self.tx.avail, 2));
        }
        let idx: u16 = ram.read_u16_or_zero(a2);
        let mut left: u16 = idx.wrapping_sub(self.tx.last);
        let ghost goal = drained(self.tx, ram@, self.output@, left as nat);
        proof {
            assert(left as nat == self@.waiting(ram@));
        }
        while left > 0
            invariant
                self.tx.num > 0,
                goal == drained(self.tx, ram@, self.output@, left as nat),
                self.status == old(self).status,
                self.features_sel == old(self).features_sel,
                self.queue_sel == old(self).queue_sel,
                self.rx == old(self).rx,
            decreases left,
        {
            self.drain_one(ram, Ghost(left as nat));
            left = left - 1;
        }
    }

    /// Take one buffer off the transmit queue.
    fn drain_one(&mut self, ram: &mut Memory, Ghost(n): Ghost<nat>)
        requires
            n > 0,
            old(self).tx.num > 0,
        ensures
            final(self).tx.num == old(self).tx.num,
            final(self).status == old(self).status,
            final(self).features_sel == old(self).features_sel,
            final(self).queue_sel == old(self).queue_sel,
            final(self).rx == old(self).rx,
            drained(old(self).tx, old(ram)@, old(self).output@, n) == drained(
                final(self).tx,
                final(ram)@,
                final(self).output@,
                (n - 1) as nat,
            ),
    {
        let slot: u64 = slot_of(self.tx);
        let a: u64 = self.tx.avail.wrapping_add(4 + 2 * slot);
        proof {
            assert(a == offset(self.tx.avail, 4 + 2 * slot));
        }
        let head: u16 = ram.read_u16_or_zero(a);
        let next: u16 = self.tx.last.wrapping_add(1);
        append_chain(ram, self.tx.desc, head, self.tx.num, &mut self.output);
        publish(self.tx, ram, head);
        self.tx.last = next;
    }

    /// Everything transmitted so far.
    pub fn tx_output(&self) -> (r: &[u8])
        ensures
            r@ == self@.output,
    {
        self.output.as_slice()
    }
}

/// The transmitted stream only grows.
pub proof fn law_tx_output_is_append_only(q: Queue, m: MemState, out: Seq<u8>, n: nat)
    ensures
        out.is_prefix_of(drained(q, m, out, n).2),
    decreases n,
{
    if n > 0 {
        let slot = ring_slot(q);
        let head = m.load_or_zero(offset(q.avail, 4 + 2 * slot), 2) as u16;
        let data = chain_data(m, q.desc, head, q.num as nat);
        let next = ((q.last + 1) % 0x1_0000) as u16;
        law_tx_output_is_append_only(
            Queue { last: next, ..q },
            published(q, m, head),
            out + data,
            (n - 1) as nat,
        );
    }
}

} // verus!
