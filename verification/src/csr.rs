//! The control-and-status register file: a flat store over the CSR addresses the
//! machine models. Addresses outside that set surface as [`CsrError::Unknown`]
//! rather than silently reading as zero.

use vstd::prelude::*;

pub mod addr;
pub mod sstatus;

verus! {

/// How many CSRs are modelled (the S-mode trap set, `satp` and `stimecmp`).
pub const CSR_COUNT: usize = 10;

/// A CSR access named an address the machine does not model.
#[derive(Debug, Clone, Copy, PartialEq, Eq, Structural)]
pub enum CsrError {
    Unknown(u16),
}

/// The control-and-status register file: a flat array indexed by [`Csr::slot`].
#[derive(Clone, Copy)]
pub struct Csr {
    values: [u64; 10],
}

/// The array slot of a modelled CSR.
pub open spec fn slot_of(a: u16) -> Option<int> {
    if a == addr::SSTATUS {
        Some(0)
    } else if a == addr::SIE {
        Some(1)
    } else if a == addr::STVEC {
        Some(2)
    } else if a == addr::SSCRATCH {
        Some(3)
    } else if a == addr::SEPC {
        Some(4)
    } else if a == addr::SCAUSE {
        Some(5)
    } else if a == addr::STVAL {
        Some(6)
    } else if a == addr::SIP {
        Some(7)
    } else if a == addr::SATP {
        Some(8)
    } else if a == addr::STIMECMP {
        Some(9)
    } else {
        None
    }
}

/// The value of modelled register `a` in register file `file`.
pub open spec fn csr_get(file: Seq<u64>, a: u16) -> u64 {
    file[slot_of(a)->0]
}

/// `file` with modelled register `a` set to `value`.
pub open spec fn csr_set(file: Seq<u64>, a: u16, value: u64) -> Seq<u64> {
    file.update(slot_of(a)->0, value)
}

impl View for Csr {
    type V = Seq<u64>;

    closed spec fn view(&self) -> Seq<u64> {
        self.values@
    }
}

impl Csr {
    pub fn new() -> (r: Self)
        ensures
            r@ == Seq::new(10, |i: int| 0u64),
    {
        let values: [u64; 10] = [0;10];
        proof {
            assert(values@ =~= Seq::new(10, |i: int| 0u64));
        }
        Self { values }
    }

    /// The dense array slot for a modelled CSR, or `None` if unmodelled.
    fn slot(a: u16) -> (r: Option<usize>)
        ensures
            match slot_of(a) {
                Some(i) => r == Some(i as usize) && 0 <= i < 10,
                None => r is None,
            },
    {
        if a == addr::SSTATUS {
            Some(0)
        } else if a == addr::SIE {
            Some(1)
        } else if a == addr::STVEC {
            Some(2)
        } else if a == addr::SSCRATCH {
            Some(3)
        } else if a == addr::SEPC {
            Some(4)
        } else if a == addr::SCAUSE {
            Some(5)
        } else if a == addr::STVAL {
            Some(6)
        } else if a == addr::SIP {
            Some(7)
        } else if a == addr::SATP {
            Some(8)
        } else if a == addr::STIMECMP {
            Some(9)
        } else {
            None
        }
    }

    pub fn read(&self, a: u16) -> (r: Result<u64, CsrError>)
        ensures
            self@.len() == CSR_COUNT,
            match slot_of(a) {
                Some(_) => r == Ok::<u64, CsrError>(csr_get(self@, a)),
                None => r == Err::<u64, CsrError>(CsrError::Unknown(a)),
            },
    {
        match Self::slot(a) {
            Some(i) => Ok(self.values[i]),
            None => Err(CsrError::Unknown(a)),
        }
    }

    pub fn write(&mut self, a: u16, value: u64) -> (r: Result<(), CsrError>)
        ensures
            final(self)@.len() == CSR_COUNT,
            match slot_of(a) {
                Some(_) => r == Ok::<(), CsrError>(()) && final(self)@ == csr_set(
                    old(self)@,
                    a,
                    value,
                ),
                None => r == Err::<(), CsrError>(CsrError::Unknown(a)) && final(self)@
                    == old(self)@,
            },
    {
        match Self::slot(a) {
            Some(i) => {
                self.values[i] = value;
                Ok(())
            },
            None => Err(CsrError::Unknown(a)),
        }
    }

    /// The whole register file.
    pub fn values(&self) -> (r: &[u64; 10])
        ensures
            r@ == self@,
    {
        &self.values
    }
}

/// A modelled register reads back what was last written to it, and a write to one
/// register leaves every other as it was.
pub proof fn law_registers_are_independent(file: Seq<u64>, a: u16, b: u16, value: u64)
    requires
        file.len() == CSR_COUNT,
        slot_of(a) is Some,
        slot_of(b) is Some,
    ensures
        csr_get(csr_set(file, a, value), a) == value,
        a != b ==> csr_get(csr_set(file, a, value), b) == csr_get(file, b),
{
}

} // verus!
