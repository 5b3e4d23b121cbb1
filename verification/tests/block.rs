//! Compiled blocks and their cache.

use std::sync::Arc;

use snemu::block::{compile_op, AluOp, Block, BlockCache, Compiled, Cond, Op, HOT_THRESHOLD};
use snemu::bus::Bus;
use snemu::cpu::Hart;
use snemu::mem::Memory;

fn hart_and_bus() -> (Hart, Bus) {
    (Hart::new(), Bus::new(Memory::new(0x1000)))
}

#[test]
fn a_block_runs_alu_ops_then_takes_a_true_branch() {
    let (mut hart, mut bus) = hart_and_bus();
    let block = Block::new(
        vec![
            Op::AluImm { alu: AluOp::Add, rd: 1, rs1: 0, imm: 5 },
            Op::AluImm { alu: AluOp::Add, rd: 2, rs1: 1, imm: 3 },
            Op::Branch { cond: Cond::Ne, rs1: 1, rs2: 2, taken: 0x2010, not_taken: 0x2004 },
        ],
        0, // exit_pc unused: the branch sets pc
    );

    block.exec(&mut hart, &mut bus).unwrap();

    assert_eq!(hart.reg(1), 5);
    assert_eq!(hart.reg(2), 8);
    assert_eq!(hart.pc(), 0x2010, "x1(5) != x2(8) -> branch taken");
}

#[test]
fn a_reg_reg_op_reads_two_sources() {
    let (mut hart, mut bus) = hart_and_bus();
    hart.set_reg(1, 40);
    hart.set_reg(2, 2);
    let block = Block::new(
        vec![
            Op::AluReg { alu: AluOp::Add, rd: 3, rs1: 1, rs2: 2 },
            Op::Branch { cond: Cond::Ne, rs1: 3, rs2: 3, taken: 0x2010, not_taken: 0x2004 },
        ],
        0,
    );

    block.exec(&mut hart, &mut bus).unwrap();

    assert_eq!(hart.reg(3), 42);
    assert_eq!(hart.pc(), 0x2004, "x3 == x3 -> not taken, fall through");
}

#[test]
fn a_write_to_x0_is_discarded() {
    let (mut hart, mut bus) = hart_and_bus();
    let block = Block::new(vec![Op::AluImm { alu: AluOp::Add, rd: 0, rs1: 0, imm: 99 }], 0x2004);

    block.exec(&mut hart, &mut bus).unwrap();

    assert_eq!(hart.reg(0), 0);
    assert_eq!(hart.pc(), 0x2004, "no branch -> pc advances to the block's exit");
}

#[test]
fn compile_op_lowers_supported_families_and_rejects_the_rest() {
    let addi = 0x0050_0093; // addi x1, x0, 5
    assert!(matches!(
        compile_op(addi, 4, 0x1000),
        Compiled::Continue(Op::AluImm { rd: 1, rs1: 0, imm: 5, .. })
    ));
    let lw = 0x0000_2083; // lw x1, 0(x0)
    assert!(matches!(
        compile_op(lw, 4, 0x1000),
        Compiled::Continue(Op::Load { rd: 1, rs1: 0, imm: 0, .. })
    ));
    let bne = 0x0020_9463; // bne x1, x2, +8
    assert!(matches!(
        compile_op(bne, 4, 0x1000),
        Compiled::Terminate(Op::Branch { rs1: 1, rs2: 2, taken, not_taken: 0x1004, .. })
            if taken == 0x1008
    ));
    let ecall = 0x0000_0073; // ecall — a trap boundary the compiler doesn't lower
    assert!(matches!(compile_op(ecall, 4, 0x1000), Compiled::Unsupported));
}

#[test]
fn a_pc_compiles_only_once_it_is_hot() {
    let mut cache = BlockCache::default();
    for _ in 0..HOT_THRESHOLD - 1 {
        assert!(!cache.record_hot(0x1000), "cold visits don't compile");
    }
    assert!(cache.record_hot(0x1000), "the threshold visit triggers a compile");
}

#[test]
fn get_returns_an_inserted_block_and_flush_drops_it() {
    let mut cache = BlockCache::default();
    assert!(cache.get(0x2000).is_none(), "cold lookup misses");
    cache.insert(0x2000, Arc::new(Block::new(vec![], 0x2004)));
    assert!(cache.get(0x2000).is_some(), "warm lookup hits");
    cache.flush();
    assert!(cache.get(0x2000).is_none(), "flush (satp/sfence) drops the block");
}
