//! The control and status registers.

use snemu::csr::{addr, Csr, CsrError};

const SUPPORTED: [u16; 10] = [
    addr::SSTATUS,
    addr::SIE,
    addr::STVEC,
    addr::SSCRATCH,
    addr::SEPC,
    addr::SCAUSE,
    addr::STVAL,
    addr::SIP,
    addr::SATP,
    addr::STIMECMP,
];

#[test]
fn supported_csrs_default_to_zero_and_round_trip() {
    let mut csr = Csr::new();
    assert_eq!(csr.read(addr::STVEC).unwrap(), 0);
    csr.write(addr::STVEC, 0xdead_beef).unwrap();
    assert_eq!(csr.read(addr::STVEC).unwrap(), 0xdead_beef);
}

#[test]
fn unknown_csr_addresses_are_errors() {
    let mut csr = Csr::new();
    assert_eq!(csr.read(0xfff), Err(CsrError::Unknown(0xfff)));
    assert_eq!(csr.write(0xfff, 1), Err(CsrError::Unknown(0xfff)));
}

#[test]
fn every_modeled_csr_defaults_to_zero_and_round_trips_independently() {
    let mut csr = Csr::new();
    for &a in SUPPORTED.iter() {
        assert_eq!(csr.read(a).unwrap(), 0, "{a:#x} defaults to zero");
    }
    for (i, &a) in SUPPORTED.iter().enumerate() {
        csr.write(a, 0x1000 + i as u64).unwrap();
    }
    for (i, &a) in SUPPORTED.iter().enumerate() {
        assert_eq!(csr.read(a).unwrap(), 0x1000 + i as u64, "{a:#x} kept its own value");
    }
}
