//! The ns16550a console UART: bytes written to the transmit register accumulate as
//! console output, and host input waits in a queue for the guest to read.

use vstd::prelude::*;

verus! {

/// Transmit holding register (written) and receive buffer register (read).
pub const REG_DATA: usize = 0;
/// Line status register.
pub const REG_LINE_STATUS: usize = 5;
/// Line status: a received byte is waiting.
pub const LINE_DATA_READY: u8 = 0x01;
/// Line status: the transmitter is empty (always: output is taken at once).
pub const LINE_TRANSMIT_EMPTY: u8 = 0x60;

/// The UART: what it has printed, and what the host has typed and the guest not read.
pub struct Uart {
    output: Vec<u8>,
    input: Vec<u8>,
    /// How much of `input` the guest has read.
    taken: usize,
}

/// What a [`Uart`] holds: printed bytes and bytes waiting to be read.
pub struct UartState {
    pub output: Seq<u8>,
    pub input: Seq<u8>,
}

impl UartState {
    /// What register `off` shows.
    pub open spec fn register(self, off: int) -> u8 {
        if off == REG_DATA {
            if self.input.len() > 0 {
                self.input[0]
            } else {
                0
            }
        } else if off == REG_LINE_STATUS {
            if self.input.len() > 0 {
                (LINE_TRANSMIT_EMPTY + LINE_DATA_READY) as u8
            } else {
                LINE_TRANSMIT_EMPTY
            }
        } else {
            0
        }
    }

    /// The UART after the guest has read register `off`: reading the data register
    /// takes the first waiting byte.
    pub open spec fn after_read(self, off: int) -> UartState {
        if off == REG_DATA && self.input.len() > 0 {
            UartState { output: self.output, input: self.input.skip(1) }
        } else {
            self
        }
    }

    /// The UART after the guest has written `value` to register `off`.
    pub open spec fn after_write(self, off: int, value: u8) -> UartState {
        if off == REG_DATA {
            UartState { output: self.output.push(value), input: self.input }
        } else {
            self
        }
    }
}

impl View for Uart {
    type V = UartState;

    closed spec fn view(&self) -> UartState {
        UartState { output: self.output@, input: self.input@.skip(self.taken as int) }
    }
}

impl Clone for Uart {
    fn clone(&self) -> (r: Self)
        ensures
            r@ == self@,
            self.wf() ==> r.wf(),
    {
        let output = self.output.clone();
        let input = self.input.clone();
        proof {
            assert(output@ =~= self.output@);
            assert(input@ =~= self.input@);
        }
        Uart { output, input, taken: self.taken }
    }
}

impl Uart {
    /// No more has been read than was typed.
    pub closed spec fn wf(self) -> bool {
        self.taken <= self.input@.len()
    }

    pub fn new() -> (r: Self)
        ensures
            r.wf(),
            r@ == (UartState { output: Seq::empty(), input: Seq::empty() }),
    {
        let r = Self { output: Vec::new(), input: Vec::new(), taken: 0 };
        proof {
            assert(r@.input =~= Seq::<u8>::empty());
        }
        r
    }

    /// Everything printed so far.
    pub fn output(&self) -> (r: &[u8])
        ensures
            r@ == self@.output,
    {
        self.output.as_slice()
    }

    /// Queue bytes for the guest to read.
    pub fn push_input(&mut self, bytes: &[u8])
        requires
            old(self).wf(),
        ensures
            final(self).wf(),
            final(self)@ == (UartState {
                output: old(self)@.output,
                input: old(self)@.input + bytes@,
            }),
    {
        let ghost before = self.input@;
        self.input.extend_from_slice(bytes);
        proof {
            assert(self.input@ =~= before + bytes@);
            assert(self@.input =~= old(self)@.input + bytes@);
        }
    }

    /// What register `off` shows, without the effects of a read.
    pub fn peek(&self, off: usize) -> (r: u8)
        requires
            self.wf(),
        ensures
            r == self@.register(off as int),
    {
        let waiting: bool = self.taken < self.input.len();
        if off == REG_DATA {
            if waiting {
                self.input[self.taken]
            } else {
                0
            }
        } else if off == REG_LINE_STATUS {
            if waiting {
                LINE_TRANSMIT_EMPTY + LINE_DATA_READY
            } else {
                LINE_TRANSMIT_EMPTY
            }
        } else {
            0
        }
    }

    /// Read register `off`; reading the data register takes the byte it shows.
    pub fn read(&mut self, off: usize) -> (r: u8)
        requires
            old(self).wf(),
        ensures
            final(self).wf(),
            r == old(self)@.register(off as int),
            final(self)@ == old(self)@.after_read(off as int),
    {
        let value: u8 = self.peek(off);
        if off == REG_DATA && self.taken < self.input.len() {
            self.taken = self.taken + 1;
            proof {
                assert(self@.input =~= old(self)@.input.skip(1));
            }
        }
        value
    }

    /// Write register `off`; the data register transmits.
    pub fn write(&mut self, off: usize, value: u8)
        requires
            old(self).wf(),
        ensures
            final(self).wf(),
            final(self)@ == old(self)@.after_write(off as int, value),
    {
        if off == REG_DATA {
            self.output.push(value);
        }
    }
}

/// Console output only grows: no read or write takes back a byte that was printed.
pub proof fn law_output_is_append_only(u: UartState, off: int, value: u8)
    ensures
        u.output.is_prefix_of(u.after_write(off, value).output),
        u.after_read(off).output == u.output,
{
}

} // verus!
