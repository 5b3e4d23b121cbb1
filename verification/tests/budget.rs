//! Running a slice of the guest under a budget of instructions.

use snemu::budget::{run, Budget, Status};
use snemu::machine::Machine;
use snemu::mem::{Memory, RAM_BASE};

const WFI: u32 = 0x1050_0073;
const SPIN: u32 = 0x0000_006F;
const ILLEGAL: u32 = 0x0000_0000;

fn machine_running(program: &[u32]) -> Machine {
    let mut m = Machine::new(Memory::new(64 * 1024), 1);
    let mut image = Vec::new();
    for w in program {
        image.extend_from_slice(&w.to_le_bytes());
    }
    m.write_ram(RAM_BASE, &image).expect("program fits");
    m.set_pc(0, RAM_BASE);
    m
}

#[test]
fn a_budget_measures_a_delta_not_an_absolute_instret() {
    let b = Budget::new(1_000, 5_000_000);
    assert_eq!(b.spent(5_000_400), 400);
    assert!(!b.is_exhausted(5_000_400), "400 of 1000 spent — not exhausted");
}

#[test]
fn a_budget_is_exhausted_once_the_limit_is_reached() {
    let b = Budget::new(1_000, 0);
    assert!(!b.is_exhausted(999), "just under");
    assert!(b.is_exhausted(1_000), "exactly at the limit is exhausted");
    assert!(b.is_exhausted(1_001), "and past it");
}

#[test]
fn a_zero_budget_is_exhausted_immediately() {
    assert!(Budget::new(0, 42).is_exhausted(42));
}

#[test]
fn a_guest_that_keeps_running_reports_running_with_the_instret_spent() {
    let mut m = machine_running(&[SPIN]);
    assert_eq!(run(&mut m, 50), Status::Running { instret: 50 });
}

#[test]
fn successive_slices_each_get_a_full_budget() {
    let mut m = machine_running(&[SPIN]);
    run(&mut m, 50);
    assert_eq!(run(&mut m, 50), Status::Running { instret: 50 });
    assert_eq!(m.instret(), 100, "the machine advanced across both slices");
}

#[test]
fn a_guest_that_can_never_progress_reports_halted_instead_of_spinning() {
    let mut m = machine_running(&[WFI]);
    let status = run(&mut m, 1_000_000);
    assert!(
        matches!(status, Status::Halted { .. }),
        "a wedged guest must halt the slice, got {status:?}"
    );
}

#[test]
fn halting_reports_what_was_spent_not_the_whole_budget() {
    let mut m = machine_running(&[WFI]);
    let Status::Halted { instret } = run(&mut m, 1_000_000) else {
        panic!("expected Halted");
    };
    assert!(instret < 1_000_000, "spent {instret}, which is the whole budget");
}

#[test]
fn a_faulting_guest_reports_trapped_carrying_the_reason() {
    let mut m = machine_running(&[ILLEGAL]);
    let Status::Trapped { reason, .. } = run(&mut m, 100) else {
        panic!("expected Trapped");
    };
    assert!(!reason.is_empty(), "the fault must name itself");
}

#[test]
fn the_instret_accessor_reports_each_variants_own_count() {
    assert_eq!(Status::Running { instret: 7 }.instret(), 7);
    assert_eq!(Status::Halted { instret: 9 }.instret(), 9);
    assert_eq!(
        Status::Trapped { instret: 11, reason: "boom".into() }.instret(),
        11
    );
}

#[test]
fn the_budget_counts_instructions_not_steps() {
    let loop_body = [
        0x0011_8193u32, // addi x3, x3, 1
        0x0012_0213,    // addi x4, x4, 1
        0x0012_8293,    // addi x5, x5, 1
        0x0013_0313,    // addi x6, x6, 1
        0xFF1F_F06F,    // jal  x0, -16   (back to the top)
    ];
    let mut m = machine_running(&loop_body);
    m.set_block_jit(true);

    let spent = run(&mut m, 12).instret();
    assert!(spent >= 12, "should run its budget out, spent {spent}");
    assert!(
        spent <= 20,
        "spent {spent} for a budget of 12 — that is step-counting, not instret"
    );
}

#[test]
fn a_zero_budget_retires_nothing() {
    let mut m = machine_running(&[SPIN]);
    assert_eq!(run(&mut m, 0), Status::Running { instret: 0 });
    assert_eq!(m.instret(), 0, "the guest must not have moved");
}
