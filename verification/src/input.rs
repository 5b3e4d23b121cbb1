//! What the reader typed, and when. Stamping each delivery with the guest's clock turns a
//! session into a replay script.

use vstd::prelude::*;
use vstd::string::*;
use crate::bus::BusState;
use crate::machine::{Machine, MachineState};
use crate::uart::UartState;

verus! {

/// One delivery: what was typed, and the guest clock it landed on.
#[derive(Debug, PartialEq, Eq)]
pub struct InputEvent {
    /// The guest's retired-instruction count at the moment of delivery.
    pub instret: u64,
    /// What was typed.
    pub text: String,
}

/// Every delivery so far, in the order it happened.
#[derive(Debug)]
pub struct InputLog {
    entries: Vec<InputEvent>,
}

impl View for InputLog {
    type V = Seq<(u64, Seq<char>)>;

    closed spec fn view(&self) -> Seq<(u64, Seq<char>)> {
        Seq::new(self.entries@.len(), |i: int| (self.entries@[i].instret, self.entries@[i].text@))
    }
}

impl Default for InputLog {
    fn default() -> (r: Self)
        ensures
            r@ == Seq::<(u64, Seq<char>)>::empty(),
    {
        let r = InputLog { entries: Vec::new() };
        proof {
            assert(r@ =~= Seq::<(u64, Seq<char>)>::empty());
        }
        r
    }
}

impl InputLog {
    /// The deliveries, oldest first.
    #[must_use]
    pub fn entries(&self) -> (r: &[InputEvent])
        ensures
            Seq::new(r@.len(), |i: int| (r@[i].instret, r@[i].text@)) == self@,
    {
        self.entries.as_slice()
    }
}

/// Deliver typed text to the guest's console, recording when it landed.
pub fn deliver(machine: &mut Machine, log: &mut InputLog, text: &str)
    requires
        old(machine).wf(),
    ensures
        final(machine).wf(),
        final(log)@ == old(log)@.push((old(machine)@.time, text@)),
        final(machine)@ == (MachineState {
            bus: BusState {
                uart: UartState {
                    output: old(machine)@.bus.uart.output,
                    input: old(machine)@.bus.uart.input + text.spec_bytes(),
                },
                ..old(machine)@.bus
            },
            ..old(machine)@
        }),
{
    let instret: u64 = machine.instret();
    log.entries.push(InputEvent { instret, text: text.to_owned() });
    machine.push_console_input(text.as_bytes());
    proof {
        assert(log@ =~= old(log)@.push((old(machine)@.time, text@)));
    }
}

/// Delivering text costs the guest no time: the stamp is the clock before and after.
pub proof fn law_delivery_takes_no_guest_time(m: MachineState, text: Seq<u8>)
    ensures
        (MachineState {
            bus: BusState {
                uart: UartState { output: m.bus.uart.output, input: m.bus.uart.input + text },
                ..m.bus
            },
            ..m
        }).time == m.time,
{
}

} // verus!
