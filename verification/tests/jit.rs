//! Native code: generated, decoded and run on the host model.

use snemu::block::{AluOp, Cond, Op};
use snemu::jit::host::Host;
use snemu::jit::{Code, CodeArena, NativeBlock};

#[test]
fn a_generated_function_returning_a_constant_runs() {
    let mut arena = CodeArena::new();
    let mut code = Code::new();
    code.movz(0, 42);
    code.ret();
    let entry = arena.install(code.bytes());
    assert_eq!(entry.at, 0);
    let mut host = Host::new([0; 32]);
    assert!(host.call(code.bytes(), 0));
    assert_eq!(host.get(0), 42);
}

fn ref_exec(regs: &mut [u64; 32], ops: &[Op], exit_pc: u64) -> (u64, u64) {
    let w = |regs: &mut [u64; 32], rd: u8, v: u64| {
        if rd != 0 {
            regs[rd as usize] = v;
        }
    };
    for (i, op) in ops.iter().enumerate() {
        let retired = i as u64 + 1;
        match *op {
            Op::SetImm { rd, value } => w(regs, rd, value),
            Op::AluImm { alu, rd, rs1, imm } => {
                w(regs, rd, alu.apply(regs[rs1 as usize], imm as u64));
            }
            Op::AluReg { alu, rd, rs1, rs2 } => {
                w(regs, rd, alu.apply(regs[rs1 as usize], regs[rs2 as usize]));
            }
            Op::Branch { cond, rs1, rs2, taken, not_taken } => {
                let take = cond.eval(regs[rs1 as usize], regs[rs2 as usize]);
                return (retired, if take { taken } else { not_taken });
            }
            Op::Jump { rd, link, target } => {
                w(regs, rd, link);
                return (retired, target);
            }
            Op::JumpReg { rd, rs1, imm, link } => {
                let target = regs[rs1 as usize].wrapping_add(imm as u64) & !1;
                w(regs, rd, link);
                return (retired, target);
            }
            Op::Load { .. } | Op::Store { .. } => unreachable!("no mem ops in these tests"),
        }
    }
    (ops.len() as u64, exit_pc)
}

fn assert_native_matches(ops: &[Op], init: [u64; 32], exit_pc: u64) {
    let mut expected = init;
    let (exp_retired, exp_pc) = ref_exec(&mut expected, ops, exit_pc);

    let mut regs = init;
    let mut arena = CodeArena::new();
    let block = NativeBlock::compile_into(ops, exit_pc, &mut arena).expect("block is emittable");
    let exit = block.run(&arena, &mut regs).expect("block runs");

    assert_eq!(exit.retired, exp_retired, "retired count");
    assert_eq!(exit.pc, exp_pc, "resume pc");
    assert_eq!(regs, expected, "register file");
}

#[test]
fn a_native_alu_block_matches_the_op_semantics() {
    let ops = vec![
        Op::SetImm { rd: 5, value: 0x1234_5678_9abc_def0 },
        Op::AluImm { alu: AluOp::Add, rd: 6, rs1: 5, imm: -0x100 },
        Op::AluReg { alu: AluOp::Xor, rd: 7, rs1: 5, rs2: 6 },
        Op::AluReg { alu: AluOp::Sub, rd: 8, rs1: 6, rs2: 5 },
        Op::AluReg { alu: AluOp::And, rd: 9, rs1: 5, rs2: 7 },
        Op::AluReg { alu: AluOp::Or, rd: 10, rs1: 8, rs2: 9 },
        Op::AluImm { alu: AluOp::Add, rd: 0, rs1: 7, imm: 0xff }, // rd=0: discarded write
    ];
    let mut init = [0u64; 32];
    init[5] = 111;
    init[6] = 222;
    assert_native_matches(&ops, init, 0xffff_ffff_8020_1234);
}

#[test]
fn a_native_conditional_branch_resolves_both_directions() {
    let mut init = [0u64; 32];
    init[5] = 7;
    init[6] = 7;
    let taken = 0x1000;
    let not_taken = 0x1004;
    assert_native_matches(
        &[Op::Branch { cond: Cond::Eq, rs1: 5, rs2: 6, taken, not_taken }],
        init,
        0,
    );
    assert_native_matches(
        &[Op::Branch { cond: Cond::Ne, rs1: 5, rs2: 6, taken, not_taken }],
        init,
        0,
    );
    let mut signed = [0u64; 32];
    signed[5] = u64::MAX;
    signed[6] = 1;
    for cond in [Cond::Lt, Cond::Ge, Cond::Ltu, Cond::Geu] {
        assert_native_matches(
            &[Op::Branch { cond, rs1: 5, rs2: 6, taken, not_taken }],
            signed,
            0,
        );
    }
}

#[test]
fn native_jump_and_jumpreg_set_the_link_and_target() {
    let mut init = [0u64; 32];
    init[5] = 0x2000_0003; // JumpReg base; +imm then clear bit 0
    assert_native_matches(
        &[Op::Jump { rd: 1, link: 0xffff_0004, target: 0x8000_0000 }],
        init,
        0,
    );
    assert_native_matches(
        &[Op::JumpReg { rd: 5, rs1: 5, imm: 8, link: 0xabc0_0004 }],
        init,
        0,
    );
}

#[test]
fn register_reuse_across_a_long_block_matches_the_semantics() {
    let mut ops = Vec::new();
    for _ in 0..8 {
        ops.push(Op::AluReg { alu: AluOp::Add, rd: 5, rs1: 5, rs2: 6 });
        ops.push(Op::AluReg { alu: AluOp::Xor, rd: 6, rs1: 6, rs2: 7 });
        ops.push(Op::AluImm { alu: AluOp::Sub, rd: 7, rs1: 7, imm: 1 });
    }
    ops.push(Op::Branch { cond: Cond::Ne, rs1: 5, rs2: 6, taken: 0x400, not_taken: 0x404 });
    let mut init = [0u64; 32];
    init[5] = 0x1111;
    init[6] = 0x2222;
    init[7] = 40;
    assert_native_matches(&ops, init, 0);
}

#[test]
fn a_block_touching_too_many_registers_falls_back() {
    let mut arena = CodeArena::new();
    let ops: Vec<Op> = (1..=13).map(|g| Op::SetImm { rd: g, value: g as u64 }).collect();
    assert!(
        NativeBlock::compile_into(&ops, 0, &mut arena).is_none(),
        "more guest regs than the host pool → fall back to the portable executor",
    );
}

#[test]
fn a_block_with_a_memory_op_does_not_compile() {
    let mut arena = CodeArena::new();
    let with_load = vec![Op::Load { funct3: 3, rd: 1, rs1: 2, imm: 0, pc: 0x1000 }];
    assert!(
        NativeBlock::compile_into(&with_load, 0, &mut arena).is_none(),
        "a load isn't emittable yet",
    );
    let with_shift = vec![Op::AluReg { alu: AluOp::Sll, rd: 1, rs1: 2, rs2: 3 }];
    assert!(
        NativeBlock::compile_into(&with_shift, 0, &mut arena).is_none(),
        "shifts aren't emittable yet",
    );
}

#[test]
fn a_generated_function_can_add_its_two_arguments() {
    let mut arena = CodeArena::new();
    let mut code = Code::new();
    code.add(0, 0, 1);
    code.ret();
    let entry = arena.install(code.bytes());
    assert_eq!(entry.at, 0);
    let f = |a: u64, b: u64| {
        let mut host = Host::new([0; 32]);
        host.set(0, a);
        host.set(1, b);
        assert!(host.call(code.bytes(), 0));
        host.get(0)
    };
    assert_eq!(f(3, 4), 7);
    assert_eq!(f(1000, 337), 1337);
}

#[test]
fn the_arena_bump_allocates_many_blocks_and_resets() {
    let mut arena = CodeArena::new();
    let a = NativeBlock::compile_into(
        &[Op::SetImm { rd: 1, value: 7 }],
        0x10,
        &mut arena,
    )
    .unwrap();
    let b = NativeBlock::compile_into(
        &[Op::SetImm { rd: 1, value: 9 }],
        0x20,
        &mut arena,
    )
    .unwrap();
    let mut regs = [0u64; 32];
    assert_eq!(a.run(&arena, &mut regs).unwrap().pc, 0x10);
    assert_eq!(regs[1], 7);
    assert_eq!(b.run(&arena, &mut regs).unwrap().pc, 0x20);
    assert_eq!(regs[1], 9);
    arena.reset(); // safe once the block handles above are dropped by the caller
}
