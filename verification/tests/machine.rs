//! The machine: scheduling, snapshots, hashing, profiling and collapsed memory operations.

use snemu::machine::Machine;
use snemu::mem::{Memory, RAM_BASE};

fn machine_with(program: &[u32], harts: usize) -> Machine {
    let mut mem = Memory::new(0x1000);
    for (i, &word) in program.iter().enumerate() {
        mem.write_u32(RAM_BASE + (i as u64) * 4, word).unwrap();
    }
    Machine::new(mem, harts)
}

#[test]
fn a_clone_is_an_independent_deterministic_snapshot() {
    let program = &[0x02a0_0093, 0x0070_0113, 0x0010_0193];
    let mut m = machine_with(program, 1);
    m.step().unwrap(); // x1 = 42
    let snapshot = m.clone();
    m.step().unwrap(); // original advances: x2 = 7

    assert_eq!(snapshot.reg(0, 1), 42);
    assert_eq!(snapshot.reg(0, 2), 0);
    assert_eq!(m.reg(0, 2), 7);

    let mut resumed = snapshot.clone();
    resumed.step().unwrap();
    assert_eq!(resumed.reg(0, 2), 7);
}

#[test]
fn state_hash_is_equal_for_equal_state_and_changes_as_the_guest_runs() {
    let program = &[0x02a0_0093, 0x0070_0113, 0x0010_0193];
    let mut a = machine_with(program, 1);
    let mut b = machine_with(program, 1);

    assert_eq!(a.state_hash(), b.state_hash());

    let before = a.state_hash();
    a.step().unwrap();
    assert_ne!(a.state_hash(), before, "a retired instruction must change the hash");

    b.step().unwrap();
    assert_eq!(a.state_hash(), b.state_hash(), "same input to the same point ⇒ same state");

    let mut c = a.clone();
    assert_eq!(a.state_hash(), c.state_hash(), "a clone is the same state");
    c.set_reg(0, 5, 0xdead);
    assert_ne!(a.state_hash(), c.state_hash(), "a changed register changes the hash");
}

#[test]
fn state_hash_reflects_guest_ram_writes() {
    let mut a = machine_with(&[], 1);
    let b = machine_with(&[], 1);
    assert_eq!(a.state_hash(), b.state_hash());
    a.write_ram(RAM_BASE + 0x40, &[1, 2, 3, 4]).unwrap();
    assert_ne!(a.state_hash(), b.state_hash(), "a guest RAM write changes the hash");
}

#[test]
fn profiler_attributes_each_retired_instruction_to_its_pc() {
    let program = &[0x02a0_0093, 0x0070_0113, 0x0010_0193];
    let mut m = machine_with(program, 1);
    m.enable_profiling();
    for _ in 0..3 {
        m.step().unwrap();
    }
    let profile = m.take_profile().expect("profiling was enabled");
    assert_eq!(profile.get(&RAM_BASE), Some(&1));
    assert_eq!(profile.get(&(RAM_BASE + 4)), Some(&1));
    assert_eq!(profile.get(&(RAM_BASE + 8)), Some(&1));
    assert_eq!(profile.values().sum::<u64>(), 3);
}

#[test]
fn profiling_is_off_by_default() {
    let mut m = machine_with(&[0x02a0_0093], 1);
    m.step().unwrap();
    assert!(m.take_profile().is_none());
}

#[test]
fn boot_hart_runs_while_the_secondary_stays_parked() {
    let mut m = machine_with(&[0x02a0_0093], 2); // addi x1, x0, 42
    assert!(m.is_running(0));
    assert!(!m.is_running(1));

    m.step().unwrap();

    assert_eq!(m.reg(0, 1), 42); // hart 0 executed the instruction
    assert_eq!(m.pc(0), RAM_BASE + 4);
    assert_eq!(m.reg(1, 1), 0); // hart 1 never ran
    assert_eq!(m.pc(1), RAM_BASE);
}

#[test]
fn an_all_idle_machine_fast_forwards_to_the_earliest_armed_timer() {
    let mut m = machine_with(&[0x0000_0013], 2); // nop; harts are parked below
    m.harts[0].arm_idle_timer(1200);
    m.harts[1].arm_idle_timer(500);

    m.step().unwrap(); // no hart retires → jump to min(1200, 500)
    assert_eq!(m.instret(), 500, "clock jumped to the earliest deadline");

    m.step().unwrap(); // clock now 500: hart 1's timer fires, hart 0 waits
    assert!(m.is_running(1), "the earliest-deadline hart woke");
    assert!(!m.is_running(0), "the later-deadline hart is still parked");
}

#[test]
fn a_running_hart_advances_the_clock_and_wakes_an_idle_peer_without_a_jump() {
    const SELF_LOOP: u32 = 0x0000_006f; // jal x0, 0
    let mut m = machine_with(&[SELF_LOOP], 2);
    m.harts[1].arm_idle_timer(3);

    for _ in 0..2 {
        m.step().unwrap();
        assert!(!m.is_running(1), "idle until the clock reaches the deadline");
    }
    assert_eq!(m.pc(0), RAM_BASE, "hart 0 kept spinning on its self-loop");

    m.step().unwrap();
    assert!(m.is_running(1), "idle peer woke when the running hart's clock hit 3");
    assert_eq!(m.instret(), 4, "clock advanced by execution (3 hart-0 + 1 wake), not a jump");
}

#[test]
fn a_native_memop_advances_a_running_peer_by_the_charged_instret() {
    const SELF_LOOP: u32 = 0x0000_006f; // jal x0, 0
    let after_memset = RAM_BASE + 4;
    let peer_pc = RAM_BASE + 0x100;
    let mut mem = Memory::new(0x2000);
    mem.write_u32(after_memset, SELF_LOOP).unwrap(); // hart 0 parks here post-memset
    mem.write_u32(peer_pc, SELF_LOOP).unwrap(); // hart 1 spins here, retiring 1/round
    let mut m = Machine::new(mem, 2);
    m.set_native_op_pcs(Some(RAM_BASE), None); // memset entry PC = RAM_BASE
    m.set_native_ops(true);

    m.harts[0].set_pc(RAM_BASE);
    m.harts[0].set_reg(1, after_memset); // ra
    m.harts[0].set_reg(10, RAM_BASE + 0x800); // a0 = dst (disjoint from code)
    m.harts[0].set_reg(11, 0); // a1 = val
    m.harts[0].set_reg(12, 8); // a2 = len
    m.harts[1].start(peer_pc, 1, 0);

    let charged = 27; // memop_charge(8) = 24 + (8/8)*3 + 0
    m.step().unwrap();

    assert_eq!(m.pc(0), after_memset, "hart 0 returned from the collapsed memset");
    assert_eq!(m.pc(1), peer_pc, "hart 1 kept spinning on its self-loop");
    assert_eq!(
        m.instret(),
        charged * 2,
        "clock counts hart 0's charged stores AND hart 1's catch-up retirements"
    );
}

#[test]
fn the_memop_probe_measures_real_retired_against_the_charge() {
    const NOP: u32 = 0x0000_0013; // addi x0, x0, 0
    const RET: u32 = 0x0000_8067; // jalr x0, 0(x1)
    let ret_target = RAM_BASE + 0x100;
    let mut mem = Memory::new(0x2000);
    mem.write_u32(RAM_BASE, NOP).unwrap();
    mem.write_u32(RAM_BASE + 4, NOP).unwrap();
    mem.write_u32(RAM_BASE + 8, RET).unwrap();
    mem.write_u32(ret_target, 0x0000_006f).unwrap(); // self-loop after return
    let mut m = Machine::new(mem, 1);
    m.set_native_op_pcs(Some(RAM_BASE), None); // memset entry = RAM_BASE
    m.enable_memop_probe(); // native ops stay OFF — the probe measures the real loop

    m.harts[0].set_reg(1, ret_target); // ra
    m.harts[0].set_reg(12, 8); // a2 = len → charged = memop_charge(8) = 27
    for _ in 0..3 {
        m.step().unwrap(); // run the 3-instruction stub to its return
    }

    let (invocations, real, charged) =
        m.memop_probe_report().expect("probe was enabled");
    assert_eq!(invocations, 1, "one memop observed");
    assert_eq!(real, 3, "the interpreter retired the stub's 3 instructions");
    assert_eq!(charged, 27, "memop_charge(8) would have charged 27");
}

#[test]
fn a_lone_hart_collapses_a_memop_to_the_charged_instret_in_one_step() {
    let after_memset = RAM_BASE + 4;
    let mut mem = Memory::new(0x4000);
    mem.write_u32(after_memset, 0x0000_006f).unwrap();
    let mut m = Machine::new(mem, 1);
    m.set_native_op_pcs(Some(RAM_BASE), None);
    m.set_native_ops(true);

    m.harts[0].set_pc(RAM_BASE);
    m.harts[0].set_reg(1, after_memset); // ra
    m.harts[0].set_reg(10, RAM_BASE + 0x1000); // dst
    m.harts[0].set_reg(11, 0); // val
    m.harts[0].set_reg(12, 0x1000); // len = 4096

    m.step().unwrap();

    let charged = 24 + (0x1000 / 8) * 3; // memop_charge(4096) = 24 + 512*3 = 1560
    assert_eq!(m.instret(), charged, "clock jumped by the charged instret in one step");
    assert_eq!(m.pc(0), after_memset, "returned from the memset");
    assert_eq!(m.reg(0, 10), RAM_BASE + 0x1000, "a0 = dst per the memop ABI");
}

#[test]
fn a_native_memop_wakes_an_idle_peer_whose_timer_fires_within_the_span() {
    let after_memset = RAM_BASE + 4;
    let mut mem = Memory::new(0x2000);
    mem.write_u32(after_memset, 0x0000_006f).unwrap(); // hart 0 self-loops post-memset
    let mut m = Machine::new(mem, 2);
    m.set_native_op_pcs(Some(RAM_BASE), None);
    m.set_native_ops(true);

    m.harts[0].set_pc(RAM_BASE);
    m.harts[0].set_reg(1, after_memset); // ra
    m.harts[0].set_reg(10, RAM_BASE + 0x800); // dst
    m.harts[0].set_reg(11, 0); // val
    m.harts[0].set_reg(12, 8); // len → charged = 27
    let charged = 27;
    m.harts[1].arm_idle_timer(charged); // fires on the span's final tick

    assert!(!m.is_running(1), "hart 1 idle before the collapse");
    m.step().unwrap();

    assert!(m.is_running(1), "hart 1's timer fired within the collapsed span");
    assert_eq!(m.pc(0), after_memset, "hart 0 returned from the collapsed memset");
}

#[test]
fn instret_counts_every_retired_instruction_deterministically() {
    let program = &[0x02a0_0093, 0x0070_0113, 0x0010_0193];
    let mut m = machine_with(program, 1);
    assert_eq!(m.instret(), 0, "a fresh machine has retired nothing");
    m.step().unwrap();
    m.step().unwrap();
    m.step().unwrap();
    assert_eq!(m.instret(), 3);

    let mut again = machine_with(program, 1);
    for _ in 0..3 {
        again.step().unwrap();
    }
    assert_eq!(again.instret(), m.instret(), "same program → same instret");
}

#[test]
fn instret_aggregates_across_running_harts() {
    let mut m = machine_with(&[0x02a0_0093], 2); // addi x1, x0, 42
    m.step().unwrap();
    assert_eq!(m.instret(), 1, "only the running hart retired");
}

#[test]
fn a_single_hart_machine_still_runs_hart_zero() {
    let mut m = machine_with(&[0x02a0_0093], 1);
    assert_eq!(m.hart_count(), 1);
    m.step().unwrap();
    assert_eq!(m.reg(0, 1), 42);
}

#[test]
fn hart_start_wakes_a_parked_secondary_at_the_entry() {
    const ECALL: u32 = 0x0000_0073;
    const SELF_LOOP: u32 = 0x0000_006f; // jal x0, 0 — hart 1 idles here
    const EID_HSM: u64 = 0x0048_534D;
    let entry = RAM_BASE + 0x40;

    let mut mem = Memory::new(0x1000);
    mem.write_u32(RAM_BASE, ECALL).unwrap(); // hart 0 issues the SBI call
    mem.write_u32(entry, SELF_LOOP).unwrap(); // hart 1's entry point
    let mut m = Machine::new(mem, 2);
    m.set_reg(0, 17, EID_HSM); // a7 = EID
    m.set_reg(0, 16, 0); // a6 = FID 0
    m.set_reg(0, 10, 1); // a0 = target hartid
    m.set_reg(0, 11, entry); // a1 = start address
    m.set_reg(0, 12, 0x1234); // a2 = opaque
    assert!(!m.is_running(1));

    m.step().unwrap();

    assert_eq!(m.reg(0, 10), 0); // SBI_SUCCESS returned to the caller
    assert!(m.is_running(1)); // secondary woken
    assert_eq!(m.pc(1), entry); // ...running its self-loop at the entry
    assert_eq!(m.reg(1, 10), 1); // a0 = hartid
    assert_eq!(m.reg(1, 11), 0x1234); // a1 = opaque
}

#[test]
fn hart_start_on_an_unknown_hart_id_errors() {
    const ECALL: u32 = 0x0000_0073;
    const EID_HSM: u64 = 0x0048_534D;
    let mut m = machine_with(&[ECALL], 2);
    m.set_reg(0, 17, EID_HSM);
    m.set_reg(0, 16, 0);
    m.set_reg(0, 10, 5); // no hart 5 exists
    m.set_reg(0, 11, RAM_BASE);
    m.step().unwrap();
    assert_eq!(m.reg(0, 10) as i64, -3); // SBI_ERR_INVALID_PARAM
}
