//! A booted guest as a page drives it: run a budget, then drain what is new. Every method is
//! a direct call into the modules where the behaviour lives.

use vstd::prelude::*;
use crate::budget::{self, slice, Budget, Status};
use crate::cursor::{drained, Cursor};
use crate::loader::{load_machine, machine_of, memory_of, ElfError};
use crate::machine::{Machine, MachineState};
use crate::telemetry::{shown, Decoder, DecoderState, FrameView};

verus! {

/// How many harts a guest has: the kernel brings up its secondary unconditionally.
pub const HARTS: usize = 2;

/// A booted guest, and the drain state a page keeps between animation frames.
pub struct Handle {
    machine: Machine,
    uart: Cursor,
    virtio: Cursor,
    decoder: Decoder,
}

/// What a [`Handle`] holds.
pub struct HandleState {
    pub machine: MachineState,
    /// How much of the UART's output has been drained.
    pub uart: nat,
    /// How much of the console's output has been drained.
    pub virtio: nat,
    pub decoder: DecoderState,
}

impl View for Handle {
    type V = HandleState;

    closed spec fn view(&self) -> HandleState {
        HandleState {
            machine: self.machine@,
            uart: self.uart.consumed as nat,
            virtio: self.virtio.consumed as nat,
            decoder: self.decoder@,
        }
    }
}

impl Handle {
    /// Whether the machine is well-formed.
    pub closed spec fn wf(self) -> bool {
        self.machine.wf()
    }

    /// Load a kernel image, with a device tree, into `ram_bytes` of guest RAM.
    pub fn new(elf: &[u8], ram_bytes: usize, dtb: &[u8]) -> (r: Result<Self, ElfError>)
        ensures
            match memory_of(elf@, ram_bytes as nat, Some(dtb@)) {
                Err(e) => r matches Err(f) && f == e,
                Ok((ram, pc, addr)) => r matches Ok(h) && h.wf() && h@ == (HandleState {
                    machine: machine_of(elf@, ram, pc, addr, HARTS as nat),
                    uart: 0,
                    virtio: 0,
                    decoder: DecoderState::empty(),
                }),
            },
    {
        match load_machine(elf, ram_bytes, Some(dtb), HARTS) {
            Err(e) => Err(e),
            Ok(machine) => Ok(
                Handle {
                    machine,
                    uart: Cursor::new(),
                    virtio: Cursor::new(),
                    decoder: Decoder::new(),
                },
            ),
        }
    }

    /// Run the guest for at most `instret` instructions.
    pub fn step_budget(&mut self, instret: u64) -> (r: Status)
        requires
            old(self).wf(),
        ensures
            final(self).wf(),
            ({
                let (m, status) = slice(
                    old(self)@.machine,
                    Budget { limit: instret, start: old(self)@.machine.time },
                    instret as nat,
                );
                final(self)@ == (HandleState { machine: m, ..old(self)@ }) && r@ == status
            }),
    {
        budget::run(&mut self.machine, instret)
    }

    /// UART bytes written since the last call.
    pub fn drain_uart(&mut self) -> (r: Vec<u8>)
        requires
            old(self).wf(),
        ensures
            final(self).wf(),
            r@ == drained(old(self)@.machine.bus.uart.output, old(self)@.uart as int),
            final(self)@ == (HandleState {
                uart: old(self)@.machine.bus.uart.output.len(),
                ..old(self)@
            }),
    {
        vstd::slice::slice_to_vec(self.uart.drain(self.machine.uart_output()))
    }

    /// Telemetry frames completed since the last call.
    pub fn drain_frames(&mut self) -> (r: Vec<FrameView>)
        requires
            old(self).wf(),
        ensures
            final(self).wf(),
            ({
                let bytes = drained(
                    old(self)@.machine.bus.virtio.output,
                    old(self)@.virtio as int,
                );
                shown(r@) == old(self)@.decoder.completed(bytes) && final(self)@ == (HandleState {
                    virtio: old(self)@.machine.bus.virtio.output.len(),
                    decoder: old(self)@.decoder.push(bytes),
                    ..old(self)@
                })
            }),
    {
        let bytes: &[u8] = self.virtio.drain(self.machine.virtio_tx_output());
        self.decoder.push(bytes)
    }

    /// The guest's retired-instruction count: its clock.
    #[must_use]
    pub fn instret(&self) -> (r: u64)
        ensures
            r == self@.machine.time,
    {
        self.machine.instret()
    }
}

/// How often a page drains does not matter: a drain before and one after the guest has sent
/// more give the frames of a single drain after, each once and in order.
pub proof fn law_drains_give_every_frame_once(d: DecoderState, before: Seq<u8>, more: Seq<u8>, consumed: nat)
    requires
        consumed <= before.len(),
    ensures
        ({
            let first = drained(before, consumed as int);
            let second = drained(before + more, before.len() as int);
            let whole = drained(before + more, consumed as int);
            &&& d.completed(first) + d.push(first).completed(second) == d.completed(whole)
            &&& d.push(first).push(second) == d.push(whole)
        }),
{
    crate::cursor::law_drains_add_up_to_the_buffer(before, more, consumed as int);
    crate::telemetry::law_pushes_may_be_cut_anywhere(
        d,
        drained(before, consumed as int),
        drained(before + more, before.len() as int),
    );
}

} // verus!
