//! The probe: one program, whose result two hosts agree on.

use snemu::machine::Machine;
use snemu::mem::{Memory, RAM_BASE};
use snemu::probe::{
    check_portable, hash_diagnostics, run, run_with, Probe, Speedups, EXPECTED_HASH_DIAGNOSTICS,
};

#[test]
fn the_probe_matches_expectations_on_the_host() {
    check_portable(&run()).unwrap();
}

#[test]
fn hashing_a_u64_is_target_independent() {
    assert_eq!(hash_diagnostics()[0], EXPECTED_HASH_DIAGNOSTICS[0]);
}

#[test]
fn hashing_a_slice_via_hash_is_target_independent() {
    assert_eq!(hash_diagnostics()[1], EXPECTED_HASH_DIAGNOSTICS[1]);
}

#[test]
fn hashing_raw_bytes_via_write_is_target_independent() {
    assert_eq!(hash_diagnostics()[2], EXPECTED_HASH_DIAGNOSTICS[2]);
}

#[test]
fn the_speedups_change_nothing_but_speed() {
    let oracle = run_with(Speedups::off());
    let fast = run_with(Speedups::on());

    assert_eq!(fast.regs, oracle.regs, "registers diverged");
    assert_eq!(fast.uart, oracle.uart, "device output diverged");
    assert_eq!(fast.instret, oracle.instret, "retired instruction count diverged");
    assert_eq!(fast.state_hash, oracle.state_hash, "machine state diverged");
    assert_eq!(fast.fault, oracle.fault, "one configuration faulted and the other did not");
}

#[test]
fn the_speedups_are_actually_applied() {

    let loop_body: [u32; 5] = [
        0x0011_8193, // addi x3, x3, 1
        0x0012_0213, // addi x4, x4, 1
        0x0012_8293, // addi x5, x5, 1
        0x0013_0313, // addi x6, x6, 1
        0xFF1F_F06F, // jal  x0, -16
    ];

    let biggest_step = |speedups: Speedups| {
        let mut m = Machine::new(Memory::new(64 * 1024), 1);
        speedups.apply(&mut m);
        let mut image = Vec::new();
        for w in loop_body {
            image.extend_from_slice(&w.to_le_bytes());
        }
        m.write_ram(RAM_BASE, &image).expect("fits");
        m.set_pc(0, RAM_BASE);

        let mut biggest = 0;
        for _ in 0..40 {
            let before = m.instret();
            m.step().expect("steps");
            biggest = biggest.max(m.instret() - before);
        }
        biggest
    };

    assert_eq!(biggest_step(Speedups::off()), 1, "the interpreter retires one at a time");
    assert!(
        biggest_step(Speedups::on()) > 1,
        "with the block JIT on, a step should retire a whole block — if this fails, \
         the accelerators are not reaching the machine"
    );
}

#[test]
fn each_speedup_is_independently_transparent() {
    let oracle = run_with(Speedups::off());
    for (label, cfg) in [
        ("fetch cache", Speedups { fetch_cache: true, ..Speedups::off() }),
        ("block jit", Speedups { block_jit: true, ..Speedups::off() }),
        ("tlb", Speedups { tlb: true, ..Speedups::off() }),
    ] {
        let got = run_with(cfg);
        assert_eq!(got.state_hash, oracle.state_hash, "{label} changed machine state");
        assert_eq!(got.instret, oracle.instret, "{label} changed retired instret");
    }
}

#[test]
#[should_panic(expected = "x2 = 1 << 40")]
fn the_oracle_rejects_a_probe_that_disagrees() {
    let mut wrong = run();
    wrong.regs[2] = 0xDEAD;
    check_portable(&wrong).unwrap();
}

#[test]
#[should_panic(expected = "MMIO byte write")]
fn the_oracle_rejects_a_probe_with_no_uart_output() {
    let mut wrong = run();
    wrong.uart.clear();
    check_portable(&wrong).unwrap();
}

#[test]
fn the_probe_actually_executed_something() {
    let p: Probe = run();
    assert!(p.instret > 0, "no instructions retired");
    assert!(p.state_hash != 0, "state hash looks unpopulated");
    assert!(!p.uart.is_empty(), "guest produced no UART output");
}
