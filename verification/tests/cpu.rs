//! The hart: instructions, traps, interrupts, and the block compiler against stepping.

use snemu::cpu::{send_ipi, Cpu, Hart, Privilege, StepError};
use snemu::csr::{addr, sstatus};
use snemu::decode::{funct3, funct7, opcode, priv12, system, ALT_OP_BIT};
use snemu::jit::{CodeArena, NativeBlock};
use snemu::mem::{Memory, RAM_BASE};
use snemu::mmu::pte;
use snemu::model::SIP_SSIP;

fn priv_instr(funct12: u32) -> u32 {
    (funct12 << 20) | (system::PRIV << 12) | opcode::SYSTEM
}
fn ecall() -> u32 {
    priv_instr(priv12::ECALL)
}
fn ebreak() -> u32 {
    priv_instr(priv12::EBREAK)
}
fn sret() -> u32 {
    priv_instr(priv12::SRET)
}
fn wfi() -> u32 {
    priv_instr(priv12::WFI)
}

fn fence() -> u32 {
    opcode::MISC_MEM // funct3 = 0
}
fn fence_i() -> u32 {
    (1 << 12) | opcode::MISC_MEM // funct3 = 1
}

fn c_addi(rd: u32, imm: i32) -> u16 {
    let imm = imm as u32;
    let w = (((imm >> 5) & 1) << 12) | (rd << 7) | ((imm & 0x1f) << 2) | 0b01;
    w as u16
}
fn c_li(rd: u32, imm: i32) -> u16 {
    let imm = imm as u32;
    let w = (0b010 << 13) | (((imm >> 5) & 1) << 12) | (rd << 7) | ((imm & 0x1f) << 2) | 0b01;
    w as u16
}
fn cr(funct4: u32, rd: u32, rs2: u32) -> u16 {
    ((funct4 << 12) | (rd << 7) | (rs2 << 2) | 0b10) as u16
}
fn c_mv(rd: u32, rs2: u32) -> u16 {
    cr(0b1000, rd, rs2)
}
fn c_add(rd: u32, rs2: u32) -> u16 {
    cr(0b1001, rd, rs2)
}
fn c_jr(rs1: u32) -> u16 {
    cr(0b1000, rs1, 0)
}
fn c_jalr(rs1: u32) -> u16 {
    cr(0b1001, rs1, 0)
}

fn csr_reg(funct3: u32, rd: u32, rs1: u32, csr: u16) -> u32 {
    (u32::from(csr) << 20) | (rs1 << 15) | (funct3 << 12) | (rd << 7) | opcode::SYSTEM
}
fn csr_imm(funct3: u32, rd: u32, uimm: u32, csr: u16) -> u32 {
    (u32::from(csr) << 20) | (uimm << 15) | (funct3 << 12) | (rd << 7) | opcode::SYSTEM
}
fn csrrw(rd: u32, rs1: u32, csr: u16) -> u32 {
    csr_reg(system::CSRRW, rd, rs1, csr)
}
fn csrrs(rd: u32, rs1: u32, csr: u16) -> u32 {
    csr_reg(system::CSRRS, rd, rs1, csr)
}
fn csrrc(rd: u32, rs1: u32, csr: u16) -> u32 {
    csr_reg(system::CSRRC, rd, rs1, csr)
}
fn csrrwi(rd: u32, uimm: u32, csr: u16) -> u32 {
    csr_imm(system::CSRRWI, rd, uimm, csr)
}
fn csrrsi(rd: u32, uimm: u32, csr: u16) -> u32 {
    csr_imm(system::CSRRSI, rd, uimm, csr)
}
fn csrrci(rd: u32, uimm: u32, csr: u16) -> u32 {
    csr_imm(system::CSRRCI, rd, uimm, csr)
}

fn run_rrr(enc: fn(u32, u32, u32) -> u32, a: u64, b: u64) -> u64 {
    let mut mem = Memory::new(0x1000);
    mem.write_u32(RAM_BASE, enc(3, 1, 2)).unwrap();
    let mut cpu = Cpu::new(mem);
    cpu.set_reg(1, a);
    cpu.set_reg(2, b);
    cpu.step().unwrap();
    cpu.reg(3)
}

fn m_op(opcode: u32, funct3: u32, rd: u32, rs1: u32, rs2: u32) -> u32 {
    r_type(opcode, funct3, funct7::MULDIV << 25, rd, rs1, rs2)
}
fn op_mul(rd: u32, rs1: u32, rs2: u32) -> u32 {
    m_op(opcode::OP, funct3::m::MUL, rd, rs1, rs2)
}
fn mulh(rd: u32, rs1: u32, rs2: u32) -> u32 {
    m_op(opcode::OP, funct3::m::MULH, rd, rs1, rs2)
}
fn mulhsu(rd: u32, rs1: u32, rs2: u32) -> u32 {
    m_op(opcode::OP, funct3::m::MULHSU, rd, rs1, rs2)
}
fn mulhu(rd: u32, rs1: u32, rs2: u32) -> u32 {
    m_op(opcode::OP, funct3::m::MULHU, rd, rs1, rs2)
}
fn div(rd: u32, rs1: u32, rs2: u32) -> u32 {
    m_op(opcode::OP, funct3::m::DIV, rd, rs1, rs2)
}
fn divu(rd: u32, rs1: u32, rs2: u32) -> u32 {
    m_op(opcode::OP, funct3::m::DIVU, rd, rs1, rs2)
}
fn rem(rd: u32, rs1: u32, rs2: u32) -> u32 {
    m_op(opcode::OP, funct3::m::REM, rd, rs1, rs2)
}
fn remu(rd: u32, rs1: u32, rs2: u32) -> u32 {
    m_op(opcode::OP, funct3::m::REMU, rd, rs1, rs2)
}
fn mulw(rd: u32, rs1: u32, rs2: u32) -> u32 {
    m_op(opcode::OP_32, funct3::m::MUL, rd, rs1, rs2)
}
fn divw(rd: u32, rs1: u32, rs2: u32) -> u32 {
    m_op(opcode::OP_32, funct3::m::DIV, rd, rs1, rs2)
}
fn divuw(rd: u32, rs1: u32, rs2: u32) -> u32 {
    m_op(opcode::OP_32, funct3::m::DIVU, rd, rs1, rs2)
}
fn remw(rd: u32, rs1: u32, rs2: u32) -> u32 {
    m_op(opcode::OP_32, funct3::m::REM, rd, rs1, rs2)
}
fn remuw(rd: u32, rs1: u32, rs2: u32) -> u32 {
    m_op(opcode::OP_32, funct3::m::REMU, rd, rs1, rs2)
}

fn addi(rd: u32, rs1: u32, imm: i32) -> u32 {
    i_type(opcode::OP_IMM, funct3::ADD, rd, rs1, imm)
}

fn u_type(opcode: u32, rd: u32, imm20: u32) -> u32 {
    ((imm20 & 0xf_ffff) << 12) | (rd << 7) | opcode
}

fn lui(rd: u32, imm20: u32) -> u32 {
    u_type(opcode::LUI, rd, imm20)
}

fn auipc(rd: u32, imm20: u32) -> u32 {
    u_type(opcode::AUIPC, rd, imm20)
}

fn i_type(opcode: u32, funct3: u32, rd: u32, rs1: u32, imm: i32) -> u32 {
    let imm = (imm as u32) & 0xfff;
    (imm << 20) | (rs1 << 15) | (funct3 << 12) | (rd << 7) | opcode
}

fn slti(rd: u32, rs1: u32, imm: i32) -> u32 {
    i_type(opcode::OP_IMM, funct3::SLT, rd, rs1, imm)
}
fn sltiu(rd: u32, rs1: u32, imm: i32) -> u32 {
    i_type(opcode::OP_IMM, funct3::SLTU, rd, rs1, imm)
}
fn xori(rd: u32, rs1: u32, imm: i32) -> u32 {
    i_type(opcode::OP_IMM, funct3::XOR, rd, rs1, imm)
}
fn ori(rd: u32, rs1: u32, imm: i32) -> u32 {
    i_type(opcode::OP_IMM, funct3::OR, rd, rs1, imm)
}
fn andi(rd: u32, rs1: u32, imm: i32) -> u32 {
    i_type(opcode::OP_IMM, funct3::AND, rd, rs1, imm)
}

fn shift_imm(opcode: u32, funct3: u32, alt: u32, rd: u32, rs1: u32, shamt: u32) -> u32 {
    alt | (shamt << 20) | (rs1 << 15) | (funct3 << 12) | (rd << 7) | opcode
}
fn slli(rd: u32, rs1: u32, shamt: u32) -> u32 {
    shift_imm(opcode::OP_IMM, funct3::SLL, 0, rd, rs1, shamt)
}
fn srli(rd: u32, rs1: u32, shamt: u32) -> u32 {
    shift_imm(opcode::OP_IMM, funct3::SR, 0, rd, rs1, shamt)
}
fn srai(rd: u32, rs1: u32, shamt: u32) -> u32 {
    shift_imm(opcode::OP_IMM, funct3::SR, ALT_OP_BIT, rd, rs1, shamt)
}
fn addiw(rd: u32, rs1: u32, imm: i32) -> u32 {
    i_type(opcode::OP_IMM_32, funct3::ADD, rd, rs1, imm)
}
fn slliw(rd: u32, rs1: u32, shamt: u32) -> u32 {
    shift_imm(opcode::OP_IMM_32, funct3::SLL, 0, rd, rs1, shamt)
}
fn srliw(rd: u32, rs1: u32, shamt: u32) -> u32 {
    shift_imm(opcode::OP_IMM_32, funct3::SR, 0, rd, rs1, shamt)
}
fn sraiw(rd: u32, rs1: u32, shamt: u32) -> u32 {
    shift_imm(opcode::OP_IMM_32, funct3::SR, ALT_OP_BIT, rd, rs1, shamt)
}

fn r_type(opcode: u32, funct3: u32, alt: u32, rd: u32, rs1: u32, rs2: u32) -> u32 {
    alt | (rs2 << 20) | (rs1 << 15) | (funct3 << 12) | (rd << 7) | opcode
}
fn op_add(rd: u32, rs1: u32, rs2: u32) -> u32 {
    r_type(opcode::OP, funct3::ADD, 0, rd, rs1, rs2)
}
fn op_sub(rd: u32, rs1: u32, rs2: u32) -> u32 {
    r_type(opcode::OP, funct3::ADD, ALT_OP_BIT, rd, rs1, rs2)
}
fn sll(rd: u32, rs1: u32, rs2: u32) -> u32 {
    r_type(opcode::OP, funct3::SLL, 0, rd, rs1, rs2)
}
fn slt(rd: u32, rs1: u32, rs2: u32) -> u32 {
    r_type(opcode::OP, funct3::SLT, 0, rd, rs1, rs2)
}
fn sltu(rd: u32, rs1: u32, rs2: u32) -> u32 {
    r_type(opcode::OP, funct3::SLTU, 0, rd, rs1, rs2)
}
fn xor(rd: u32, rs1: u32, rs2: u32) -> u32 {
    r_type(opcode::OP, funct3::XOR, 0, rd, rs1, rs2)
}
fn srl(rd: u32, rs1: u32, rs2: u32) -> u32 {
    r_type(opcode::OP, funct3::SR, 0, rd, rs1, rs2)
}
fn sra(rd: u32, rs1: u32, rs2: u32) -> u32 {
    r_type(opcode::OP, funct3::SR, ALT_OP_BIT, rd, rs1, rs2)
}
fn or(rd: u32, rs1: u32, rs2: u32) -> u32 {
    r_type(opcode::OP, funct3::OR, 0, rd, rs1, rs2)
}
fn and(rd: u32, rs1: u32, rs2: u32) -> u32 {
    r_type(opcode::OP, funct3::AND, 0, rd, rs1, rs2)
}
fn addw(rd: u32, rs1: u32, rs2: u32) -> u32 {
    r_type(opcode::OP_32, funct3::ADD, 0, rd, rs1, rs2)
}
fn subw(rd: u32, rs1: u32, rs2: u32) -> u32 {
    r_type(opcode::OP_32, funct3::ADD, ALT_OP_BIT, rd, rs1, rs2)
}
fn sllw(rd: u32, rs1: u32, rs2: u32) -> u32 {
    r_type(opcode::OP_32, funct3::SLL, 0, rd, rs1, rs2)
}
fn srlw(rd: u32, rs1: u32, rs2: u32) -> u32 {
    r_type(opcode::OP_32, funct3::SR, 0, rd, rs1, rs2)
}
fn sraw(rd: u32, rs1: u32, rs2: u32) -> u32 {
    r_type(opcode::OP_32, funct3::SR, ALT_OP_BIT, rd, rs1, rs2)
}

fn b_type(funct3: u32, rs1: u32, rs2: u32, imm: i32) -> u32 {
    let imm = imm as u32;
    ((imm >> 12) & 1) << 31
        | ((imm >> 5) & 0x3f) << 25
        | (rs2 << 20)
        | (rs1 << 15)
        | (funct3 << 12)
        | ((imm >> 1) & 0xf) << 8
        | ((imm >> 11) & 1) << 7
        | opcode::BRANCH
}
fn beq(rs1: u32, rs2: u32, imm: i32) -> u32 {
    b_type(funct3::branch::BEQ, rs1, rs2, imm)
}
fn bne(rs1: u32, rs2: u32, imm: i32) -> u32 {
    b_type(funct3::branch::BNE, rs1, rs2, imm)
}
fn blt(rs1: u32, rs2: u32, imm: i32) -> u32 {
    b_type(funct3::branch::BLT, rs1, rs2, imm)
}
fn bge(rs1: u32, rs2: u32, imm: i32) -> u32 {
    b_type(funct3::branch::BGE, rs1, rs2, imm)
}
fn bltu(rs1: u32, rs2: u32, imm: i32) -> u32 {
    b_type(funct3::branch::BLTU, rs1, rs2, imm)
}
fn bgeu(rs1: u32, rs2: u32, imm: i32) -> u32 {
    b_type(funct3::branch::BGEU, rs1, rs2, imm)
}

fn jal(rd: u32, imm: i32) -> u32 {
    let imm = imm as u32;
    ((imm >> 20) & 1) << 31
        | ((imm >> 1) & 0x3ff) << 21
        | ((imm >> 11) & 1) << 20
        | ((imm >> 12) & 0xff) << 12
        | (rd << 7)
        | opcode::JAL
}
fn jalr(rd: u32, rs1: u32, imm: i32) -> u32 {
    i_type(opcode::JALR, 0, rd, rs1, imm)
}

fn lb(rd: u32, base: u32, imm: i32) -> u32 {
    i_type(opcode::LOAD, funct3::load::LB, rd, base, imm)
}
fn lh(rd: u32, base: u32, imm: i32) -> u32 {
    i_type(opcode::LOAD, funct3::load::LH, rd, base, imm)
}
fn lw(rd: u32, base: u32, imm: i32) -> u32 {
    i_type(opcode::LOAD, funct3::load::LW, rd, base, imm)
}
fn ld(rd: u32, base: u32, imm: i32) -> u32 {
    i_type(opcode::LOAD, funct3::load::LD, rd, base, imm)
}
fn lbu(rd: u32, base: u32, imm: i32) -> u32 {
    i_type(opcode::LOAD, funct3::load::LBU, rd, base, imm)
}
fn lhu(rd: u32, base: u32, imm: i32) -> u32 {
    i_type(opcode::LOAD, funct3::load::LHU, rd, base, imm)
}
fn lwu(rd: u32, base: u32, imm: i32) -> u32 {
    i_type(opcode::LOAD, funct3::load::LWU, rd, base, imm)
}

fn s_type(funct3: u32, base: u32, src: u32, imm: i32) -> u32 {
    let imm = imm as u32;
    ((imm >> 5) & 0x7f) << 25
        | (src << 20)
        | (base << 15)
        | (funct3 << 12)
        | (imm & 0x1f) << 7
        | opcode::STORE
}
fn sb(src: u32, base: u32, imm: i32) -> u32 {
    s_type(funct3::store::SB, base, src, imm)
}
fn sh(src: u32, base: u32, imm: i32) -> u32 {
    s_type(funct3::store::SH, base, src, imm)
}
fn sw(src: u32, base: u32, imm: i32) -> u32 {
    s_type(funct3::store::SW, base, src, imm)
}
fn sd(src: u32, base: u32, imm: i32) -> u32 {
    s_type(funct3::store::SD, base, src, imm)
}

fn cpu_with(program: &[u32]) -> Cpu {
    let mut mem = Memory::new(0x1000);
    for (i, &word) in program.iter().enumerate() {
        mem.write_u32(RAM_BASE + (i as u64) * 4, word).unwrap();
    }
    Cpu::new(mem)
}

#[test]
fn a_compiled_block_matches_the_interpreter() {
    let program = &[
        0x0050_0093, // addi x1, x0, 5
        0x0030_8113, // addi x2, x1, 3
        0x0020_81b3, // add  x3, x1, x2
        0x0020_9463, // bne  x1, x2, +8   (taken: 5 != 8)
    ];

    let mut interp = cpu_with(program);
    for _ in 0..4 {
        interp.step().unwrap();
    }

    let mut jit = cpu_with(program);
    let block = jit.hart.compile_block(&jit.bus);
    block.exec(&mut jit.hart, &mut jit.bus).unwrap();

    assert_eq!(jit.hart.x, interp.hart.x, "all registers match the interpreter");
    assert_eq!(jit.hart.pc(), interp.hart.pc(), "pc matches the interpreter");
    assert_eq!(jit.hart.pc(), RAM_BASE + 0xc + 8, "the bne was taken to pc+8");
}

#[test]
fn native_backend_matches_the_interpreter() {
    let program = &[
        0x0050_0093, // addi x1, x0, 5
        0x0030_8113, // addi x2, x1, 3
        0x0020_81b3, // add  x3, x1, x2
        0x0020_9463, // bne  x1, x2, +8   (taken)
    ];
    let mut interp = cpu_with(program);
    for _ in 0..4 {
        interp.step().unwrap();
    }

    let mut jit = cpu_with(program);
    jit.hart.set_native_jit(true);
    let block = jit.hart.compile_block(&jit.bus);
    let mut arena = CodeArena::new();
    assert!(
        NativeBlock::compile_into(block.ops(), block.exit_pc(), &mut arena).is_some(),
        "this block is natively compilable — native, not the portable executor, runs it",
    );
    let retired = jit.hart.run_block(&block, &mut jit.bus).unwrap();

    assert_eq!(retired, 4, "every op retired");
    assert_eq!(jit.hart.x, interp.hart.x, "native registers match the interpreter");
    assert_eq!(jit.hart.pc(), interp.hart.pc(), "native pc matches the interpreter");
}

fn assert_block_matches_interp(program: &[u32], setup: impl Fn(&mut Cpu)) {
    let mut interp = cpu_with(program);
    setup(&mut interp);
    for _ in 0..program.len() {
        interp.step().unwrap();
    }
    let mut jit = cpu_with(program);
    setup(&mut jit);
    let block = jit.hart.compile_block(&jit.bus);
    block.exec(&mut jit.hart, &mut jit.bus).unwrap();
    assert_eq!(jit.hart.x, interp.hart.x, "registers diverged from the interpreter");
    assert_eq!(jit.hart.pc(), interp.hart.pc(), "pc diverged from the interpreter");
}

#[test]
fn block_jit_covers_the_alu_families() {
    let program = &[
        op_add(3, 1, 2),
        op_sub(4, 1, 2),
        sll(5, 1, 2),
        slt(6, 1, 2),
        sltu(7, 1, 2),
        xor(8, 1, 2),
        srl(9, 1, 2),
        sra(10, 1, 2),
        or(11, 1, 2),
        and(12, 1, 2),
        i_type(opcode::OP_IMM, funct3::ADD, 13, 1, -3), // addi
        slli(14, 1, 4),
        srli(15, 1, 4),
        srai(16, 1, 4),
        andi(17, 1, 0xF),
        slti(18, 1, 100),
        sltiu(19, 1, 100),
        xori(20, 1, 0x55),
        addiw(21, 1, 7),
        slliw(22, 1, 3),
        sraiw(23, 1, 2),
        addw(24, 1, 2),
        subw(25, 1, 2),
        sllw(26, 1, 2),
        sraw(27, 1, 2),
        srlw(28, 1, 2),
        u_type(opcode::LUI, 29, 0xABCDE),
        u_type(opcode::AUIPC, 30, 0x10),
        bne(1, 2, 8),
    ];
    assert_block_matches_interp(program, |cpu| {
        cpu.set_reg(1, 0x1_2345_6789);
        cpu.set_reg(2, 5);
    });
}

#[test]
fn block_jit_reports_the_faulting_instructions_pc_mid_block() {
    let mut mem = Memory::new(0x10000);
    let code = RAM_BASE + 0x3000;
    mem.write_u32(code, i_type(opcode::OP_IMM, funct3::ADD, 5, 0, 1)).unwrap(); // op1: addi, no fault
    mem.write_u32(code + 4, sw(7, 6, 0)).unwrap(); // op2: store to x6 (unmapped) → faults
    let root = RAM_BASE + 0x8000;
    let leaf = ((0x8000_0000_u64 >> 12) << 10) | pte::V | pte::R | pte::W | pte::X;
    mem.write_u64(root + 4 * 8, leaf).unwrap();

    let mut cpu = Cpu::new(mem);
    cpu.hart.csr.write(addr::SATP, (8 << 60) | (root >> 12)).unwrap();
    cpu.hart.csr.write(addr::STVEC, 0x1_0000_3000).unwrap();
    cpu.set_pc(0x1_0000_3000); // VPN[2]=4, offset 0x3000
    cpu.set_reg(6, 0x1_4000_0000); // store target in VPN[2]=5 — unmapped → faults

    let block = cpu.hart.compile_block(&cpu.bus);
    block.exec(&mut cpu.hart, &mut cpu.bus).unwrap();

    assert_eq!(cpu.hart.csr.read(addr::SCAUSE).unwrap(), 15, "store page fault");
    assert_eq!(
        cpu.hart.csr.read(addr::SEPC).unwrap(),
        0x1_0000_3004,
        "sepc points at the faulting store, not the block entry"
    );
    assert_eq!(cpu.hart.csr.read(addr::STVAL).unwrap(), 0x1_4000_0000, "faulting VA");
}

#[test]
fn block_jit_covers_jumps() {
    assert_block_matches_interp(
        &[
            i_type(opcode::OP_IMM, funct3::ADD, 5, 0, 7), // addi x5, x0, 7
            jal(1, 16),                                   // jal x1, +16
        ],
        |_| {},
    );
    assert_block_matches_interp(&[jalr(1, 2, 4)], |cpu| {
        cpu.set_reg(2, RAM_BASE + 0x40);
    });
}

#[test]
fn block_jit_covers_loads_and_stores() {
    let program = &[
        u_type(opcode::AUIPC, 1, 0), // auipc x1, 0  -> x1 = RAM_BASE (a valid RAM ptr)
        i_type(opcode::OP_IMM, funct3::ADD, 1, 1, 0x400), // addi x1, x1, 0x400
        sw(2, 1, 0),  // sw x2, 0(x1)
        lw(3, 1, 0),  // lw x3, 0(x1)
        ld(4, 1, 0),  // ld x4, 0(x1)  (a second width)
        bne(3, 2, 8), // not taken: x3 == x2
    ];
    assert_block_matches_interp(program, |cpu| {
        cpu.set_reg(2, 0x1234_5678);
    });
}

#[test]
fn block_jit_covers_all_branch_conditions() {
    let conds: &[fn(u32, u32, i32) -> u32] = &[beq, bne, blt, bge, bltu, bgeu];
    let cases: &[(u64, u64)] = &[(5, 5), (5, 8), (8, 5), (u64::MAX, 1)];
    for &enc in conds {
        for &(a, b) in cases {
            assert_block_matches_interp(&[enc(1, 2, 8)], |cpu| {
                cpu.set_reg(1, a);
                cpu.set_reg(2, b);
            });
        }
    }
}

#[test]
fn the_block_jit_changes_nothing_but_speed() {
    let program = &[
        0x0010_8093, // addi x1, x1, 1
        0xfe20_9ee3, // bne  x1, x2, -4   (loop back to the addi while x1 != x2)
    ];
    let exit_pc = RAM_BASE + 8; // fall-through past the branch when x1 == x2
    let run = |jit: bool| {
        let mut cpu = cpu_with(program);
        cpu.set_reg(2, 10); // loop ten times
        cpu.set_block_jit(jit);
        for _ in 0..1000 {
            if cpu.pc() == exit_pc {
                break;
            }
            cpu.step().unwrap();
        }
        (cpu.instret(), cpu.pc(), cpu.reg(1), cpu.reg(2))
    };
    let off = run(false);
    let on = run(true);
    assert_eq!(on, off, "block JIT ON must equal the interpreter OFF");
    assert_eq!(on.1, exit_pc, "the loop actually exited");
    assert_eq!(on.2, 10, "x1 counted up to x2");

    let mut cpu = cpu_with(program);
    cpu.set_reg(2, 10);
    cpu.set_block_jit(true);
    for _ in 0..1000 {
        if cpu.pc() == exit_pc {
            break;
        }
        cpu.step().unwrap();
    }
    assert!(cpu.hart.block_jit_hits() > 0, "the loop's block should hit the cache");
}

#[test]
fn the_decode_cache_changes_nothing_but_speed() {
    let program = &[0x0010_8093, 0x0000_006f]; // addi x1,x1,1 ; jal x0,0
    let run = |cache: bool| {
        let mut cpu = cpu_with(program);
        cpu.set_decode_cache(cache);
        for _ in 0..8 {
            cpu.step().unwrap();
        }
        (cpu.instret(), cpu.pc(), cpu.reg(1))
    };
    let off = run(false);
    let on = run(true);
    assert_eq!(on, off, "cache ON must equal cache OFF");
    let mut cpu = cpu_with(program);
    cpu.set_decode_cache(true);
    for _ in 0..8 {
        cpu.step().unwrap();
    }
    assert!(cpu.decode_cache_hits() > 0, "the loop should hit the cache");
}

#[test]
fn addi_sets_register_and_advances() {
    let mut cpu = cpu_with(&[addi(1, 0, 42)]);
    cpu.step().unwrap();
    assert_eq!(cpu.reg(1), 42);
    assert_eq!(cpu.pc(), RAM_BASE + 4);
    assert_eq!(cpu.instret(), 1);
}

#[test]
fn addi_sign_extends_the_immediate() {
    let mut cpu = cpu_with(&[addi(1, 0, -1)]);
    cpu.step().unwrap();
    assert_eq!(cpu.reg(1), u64::MAX);
}

#[test]
fn x0_is_hard_wired_zero() {
    let mut cpu = cpu_with(&[addi(0, 0, 42)]);
    cpu.step().unwrap();
    assert_eq!(cpu.reg(0), 0);
}

#[test]
fn lui_loads_and_sign_extends_the_upper_immediate() {
    let mut cpu = cpu_with(&[lui(1, 0x12345), lui(2, 0xfffff)]);
    cpu.step().unwrap();
    assert_eq!(cpu.reg(1), 0x1234_5000);
    assert_eq!(cpu.pc(), RAM_BASE + 4);
    cpu.step().unwrap();
    assert_eq!(cpu.reg(2), 0xffff_ffff_ffff_f000);
}

#[test]
fn auipc_adds_the_immediate_to_the_physical_pc() {
    let mut cpu = cpu_with(&[auipc(1, 0x1)]);
    cpu.step().unwrap();
    assert_eq!(cpu.reg(1), RAM_BASE + 0x1000);
}

#[test]
fn op_imm_compare_logic_and_shift_family() {
    let program = &[
        addi(1, 0, 12),    // x1  = 12
        slti(2, 1, 20),    // x2  = (12 <s 20)  = 1
        slti(3, 1, 5),     // x3  = (12 <s 5)   = 0
        sltiu(4, 1, -1),   // x4  = (12 <u MAX) = 1
        xori(5, 1, 0xff),  // x5  = 12 ^ 0xff   = 243
        ori(6, 1, 1),      // x6  = 12 | 1      = 13
        andi(7, 1, 6),     // x7  = 12 & 6      = 4
        slli(8, 1, 4),     // x8  = 12 << 4     = 192
        srli(9, 1, 2),     // x9  = 12 >> 2     = 3
        addi(10, 0, -16),  // x10 = -16
        srai(11, 10, 2),   // x11 = -16 >>a 2   = -4
    ];
    let mut cpu = cpu_with(program);
    for _ in 0..program.len() {
        cpu.step().unwrap();
    }
    assert_eq!(cpu.reg(2), 1);
    assert_eq!(cpu.reg(3), 0);
    assert_eq!(cpu.reg(4), 1);
    assert_eq!(cpu.reg(5), 243);
    assert_eq!(cpu.reg(6), 13);
    assert_eq!(cpu.reg(7), 4);
    assert_eq!(cpu.reg(8), 192);
    assert_eq!(cpu.reg(9), 3);
    assert_eq!(cpu.reg(11), (-4_i64) as u64);
}

#[test]
fn op_register_register_family() {
    let program = &[
        addi(1, 0, 12),   // x1  = 12
        addi(2, 0, 5),    // x2  = 5
        addi(12, 0, 2),   // x12 = 2  (shift amount source)
        addi(13, 0, -16), // x13 = -16
        op_add(3, 1, 2),     // 17
        op_sub(4, 1, 2),     // 7
        sll(5, 1, 12),    // 12 << 2 = 48
        slt(6, 2, 1),     // (5 <s 12) = 1
        sltu(7, 1, 2),    // (12 <u 5) = 0
        xor(8, 1, 2),     // 12 ^ 5 = 9
        or(9, 1, 2),      // 12 | 5 = 13
        and(10, 1, 2),    // 12 & 5 = 4
        srl(11, 1, 12),   // 12 >> 2 = 3
        sra(14, 13, 12),  // -16 >>a 2 = -4
    ];
    let mut cpu = cpu_with(program);
    for _ in 0..program.len() {
        cpu.step().unwrap();
    }
    assert_eq!(cpu.reg(3), 17);
    assert_eq!(cpu.reg(4), 7);
    assert_eq!(cpu.reg(5), 48);
    assert_eq!(cpu.reg(6), 1);
    assert_eq!(cpu.reg(7), 0);
    assert_eq!(cpu.reg(8), 9);
    assert_eq!(cpu.reg(9), 13);
    assert_eq!(cpu.reg(10), 4);
    assert_eq!(cpu.reg(11), 3);
    assert_eq!(cpu.reg(14), (-4_i64) as u64);
}

#[test]
fn word_ops_truncate_to_32_bits_and_sign_extend() {
    let program = &[
        addi(1, 0, 1),    // x1 = 1
        slli(2, 1, 31),   // x2 = 0x8000_0000
        slli(3, 1, 32),   // x3 = 0x1_0000_0000 (high bit beyond 32)
        addi(7, 0, 31),   // x7 = 31 (shift source)
        addiw(4, 3, 7),   // (0x1_0000_0000 + 7) low32 = 7
        slliw(13, 1, 31), // (1 << 31) sign-extended
        srliw(9, 2, 4),   // 0x8000_0000 >>l 4 = 0x0800_0000
        sraiw(8, 2, 4),   // 0x8000_0000 >>a 4, sign-extended
        addw(5, 2, 2),    // (0x8000_0000 + 0x8000_0000) low32 = 0
        subw(10, 3, 1),   // (0 - 1) low32 = -1, sign-extended
        sllw(6, 1, 7),    // (1 << 31) sign-extended
        srlw(11, 2, 7),   // 0x8000_0000 >>l 31 = 1
        sraw(12, 2, 7),   // 0x8000_0000 >>a 31 = -1, sign-extended
    ];
    let mut cpu = cpu_with(program);
    for _ in 0..program.len() {
        cpu.step().unwrap();
    }
    assert_eq!(cpu.reg(4), 7);
    assert_eq!(cpu.reg(13), 0xffff_ffff_8000_0000);
    assert_eq!(cpu.reg(9), 0x0800_0000);
    assert_eq!(cpu.reg(8), 0xffff_ffff_f800_0000);
    assert_eq!(cpu.reg(5), 0);
    assert_eq!(cpu.reg(10), u64::MAX);
    assert_eq!(cpu.reg(6), 0xffff_ffff_8000_0000);
    assert_eq!(cpu.reg(11), 1);
    assert_eq!(cpu.reg(12), u64::MAX);
}

fn branch_taken(branch: fn(u32, u32, i32) -> u32, a: i32, b: i32) -> bool {
    let program = &[
        addi(1, 0, a),     // 0
        addi(2, 0, b),     // 4
        branch(1, 2, 8),   // 8:  taken -> 16, else -> 12
        addi(10, 0, 1),    // 12: not-taken marker
        addi(0, 0, 0),     // 16: nop (taken landing)
    ];
    let mut cpu = cpu_with(program);
    for _ in 0..4 {
        cpu.step().unwrap();
    }
    cpu.reg(10) == 0
}

#[test]
fn branches_take_the_right_path() {
    assert!(branch_taken(beq, 7, 7));
    assert!(!branch_taken(beq, 7, 8));
    assert!(branch_taken(bne, 7, 8));
    assert!(!branch_taken(bne, 7, 7));
    assert!(branch_taken(blt, -1, 1));
    assert!(!branch_taken(blt, 1, -1));
    assert!(branch_taken(bge, 1, 1));
    assert!(!branch_taken(bge, -1, 1));
    assert!(!branch_taken(bltu, -1, 1));
    assert!(branch_taken(bltu, 1, 2));
    assert!(branch_taken(bgeu, -1, 1));
    assert!(!branch_taken(bgeu, 1, 2));
}

#[test]
fn jal_links_return_address_and_jumps() {
    let program = &[
        jal(1, 8),     // 0: x1 = pc+4; pc -> 8
        addi(2, 0, 1), // 4: skipped
        addi(3, 0, 1), // 8: executed
    ];
    let mut cpu = cpu_with(program);
    cpu.step().unwrap();
    cpu.step().unwrap();
    assert_eq!(cpu.reg(1), RAM_BASE + 4);
    assert_eq!(cpu.reg(2), 0);
    assert_eq!(cpu.reg(3), 1);
}

#[test]
fn jalr_links_and_jumps_to_register_plus_offset() {
    let program = &[
        auipc(5, 0),    // 0:  x5 = RAM_BASE
        jalr(1, 5, 16), // 4:  x1 = pc+4; pc -> RAM_BASE + 16
        addi(2, 0, 1),  // 8:  skipped
        addi(6, 0, 1),  // 12: skipped
        addi(3, 0, 1),  // 16: executed
    ];
    let mut cpu = cpu_with(program);
    for _ in 0..3 {
        cpu.step().unwrap();
    }
    assert_eq!(cpu.reg(5), RAM_BASE);
    assert_eq!(cpu.reg(1), RAM_BASE + 8);
    assert_eq!(cpu.reg(2), 0);
    assert_eq!(cpu.reg(6), 0);
    assert_eq!(cpu.reg(3), 1);
}

#[test]
fn stores_and_loads_round_trip_with_correct_extension() {
    let program = &[
        auipc(2, 0),       // 0:  x2 = RAM_BASE
        addi(2, 2, 0x200), // 4:  x2 = scratch area (RAM_BASE + 0x200)
        addi(1, 0, -1),    // 8:  x1 = 0xffff_ffff_ffff_ffff
        addi(6, 0, 1),     // 12: x6 = 1
        slli(6, 6, 31),    // 16: x6 = 0x8000_0000
        sd(1, 2, 0),       // 20: [x2+0]  = all ones (8 bytes)
        sb(1, 2, 8),       // 24: [x2+8]  = 0xff
        sw(6, 2, 16),      // 28: [x2+16] = 0x8000_0000
        sh(1, 2, 32),      // 32: [x2+32] = 0xffff
        ld(3, 2, 0),       // 36: x3  = u64::MAX
        lb(4, 2, 8),       // 40: x4  = sign(0xff)  = -1
        lbu(5, 2, 8),      // 44: x5  = 255
        lw(7, 2, 16),      // 48: x7  = sign(0x8000_0000)
        lwu(8, 2, 16),     // 52: x8  = 0x8000_0000
        lh(11, 2, 32),     // 56: x11 = sign(0xffff) = -1
        lhu(12, 2, 32),    // 60: x12 = 65535
    ];
    let mut cpu = cpu_with(program);
    for _ in 0..program.len() {
        cpu.step().unwrap();
    }
    assert_eq!(cpu.reg(3), u64::MAX);
    assert_eq!(cpu.reg(4), u64::MAX);
    assert_eq!(cpu.reg(5), 255);
    assert_eq!(cpu.reg(7), 0xffff_ffff_8000_0000);
    assert_eq!(cpu.reg(8), 0x8000_0000);
    assert_eq!(cpu.reg(11), u64::MAX);
    assert_eq!(cpu.reg(12), 65535);
}

#[test]
fn m_extension_multiply() {
    assert_eq!(run_rrr(op_mul, 6, 7), 42);
    assert_eq!(run_rrr(mulh, 1 << 62, 4), 1);
    assert_eq!(run_rrr(mulhu, 1 << 62, 4), 1);
    assert_eq!(run_rrr(mulhsu, u64::MAX, 2), u64::MAX);
    assert_eq!(run_rrr(mulw, 0x10000, 0x8000), 0xffff_ffff_8000_0000);
}

#[test]
fn m_extension_divide_and_remainder_with_edge_cases() {
    assert_eq!(run_rrr(div, 20, 6), 3);
    assert_eq!(run_rrr(div, (-20_i64) as u64, 6), (-3_i64) as u64);
    assert_eq!(run_rrr(div, 5, 0), u64::MAX); // div by zero -> -1
    assert_eq!(run_rrr(div, 1 << 63, (-1_i64) as u64), 1 << 63); // MIN / -1 -> MIN
    assert_eq!(run_rrr(divu, 20, 6), 3);
    assert_eq!(run_rrr(divu, 5, 0), u64::MAX); // div by zero -> all ones
    assert_eq!(run_rrr(rem, 20, 6), 2);
    assert_eq!(run_rrr(rem, (-20_i64) as u64, 6), (-2_i64) as u64);
    assert_eq!(run_rrr(rem, 5, 0), 5); // rem by zero -> dividend
    assert_eq!(run_rrr(rem, 1 << 63, (-1_i64) as u64), 0); // MIN % -1 -> 0
    assert_eq!(run_rrr(remu, 20, 6), 2);
    assert_eq!(run_rrr(remu, 5, 0), 5); // rem by zero -> dividend
}

#[test]
fn m_extension_word_divide_and_remainder() {
    assert_eq!(run_rrr(divw, (-20_i64) as u64, 6), (-3_i64) as u64);
    assert_eq!(run_rrr(divw, 5, 0), u64::MAX); // -1 sign-extended
    assert_eq!(run_rrr(divw, 1 << 31, (-1_i64) as u64), 0xffff_ffff_8000_0000);
    assert_eq!(run_rrr(divuw, 20, 6), 3);
    assert_eq!(run_rrr(divuw, 5, 0), u64::MAX); // 0xffff_ffff sign-extended
    assert_eq!(run_rrr(remw, (-20_i64) as u64, 6), (-2_i64) as u64);
    assert_eq!(run_rrr(remuw, 20, 6), 2);
}

#[test]
fn csr_instructions_read_modify_write() {
    let s = addr::SSCRATCH;
    let program = &[
        addi(1, 0, 0x12),    // x1 = 0x12
        csrrw(2, 1, s),      // x2 = old(0); sscratch = 0x12
        csrrs(3, 0, s),      // x3 = 0x12 (read; rs1=x0 -> no write)
        addi(4, 0, 0x01),    // x4 = 1
        csrrs(5, 4, s),      // x5 = 0x12 (old); sscratch = 0x13
        addi(6, 0, 0x02),    // x6 = 2
        csrrc(7, 6, s),      // x7 = 0x13 (old); sscratch = 0x11
        csrrwi(8, 0x1f, s),  // x8 = 0x11 (old); sscratch = 0x1f
        csrrsi(9, 0, s),     // x9 = 0x1f (read; uimm=0 -> no write)
        csrrci(10, 0x0f, s), // x10 = 0x1f (old); sscratch = 0x10
        csrrsi(11, 0x04, s), // x11 = 0x10 (old); sscratch = 0x14
        csrrs(12, 0, s),     // x12 = 0x14 (final read)
    ];
    let mut cpu = cpu_with(program);
    for _ in 0..program.len() {
        cpu.step().unwrap();
    }
    assert_eq!(cpu.reg(2), 0);
    assert_eq!(cpu.reg(3), 0x12);
    assert_eq!(cpu.reg(5), 0x12);
    assert_eq!(cpu.reg(7), 0x13);
    assert_eq!(cpu.reg(8), 0x11);
    assert_eq!(cpu.reg(9), 0x1f);
    assert_eq!(cpu.reg(10), 0x1f);
    assert_eq!(cpu.reg(11), 0x10);
    assert_eq!(cpu.reg(12), 0x14);
}

#[test]
fn csr_access_to_unmodeled_register_reports_unknown() {
    let mut cpu = cpu_with(&[csrrw(1, 0, 0xbc0)]); // 0xbc0 not modeled
    assert_eq!(
        cpu.step(),
        Err(StepError::UnknownCsr {
            pc: RAM_BASE,
            addr: 0xbc0,
        })
    );
}

#[test]
fn s_mode_ecall_is_serviced_as_sbi_not_trapped() {
    let mut cpu = cpu_with(&[ecall(), addi(1, 0, 7)]);
    cpu.hart.csr.write(addr::STVEC, RAM_BASE + 0x200).unwrap();
    cpu.set_reg(17, 0xdead); // a7 = unrecognized EID
    cpu.step().unwrap();
    assert_eq!(cpu.pc(), RAM_BASE + 4); // advanced; did NOT trap to stvec
    assert_eq!(cpu.reg(10) as i64, -2); // a0 = SBI_ERR_NOT_SUPPORTED
}

#[test]
fn sbi_send_ipi_raises_a_software_interrupt_for_this_hart() {
    let mut cpu = cpu_with(&[ecall()]);
    cpu.set_reg(17, 0x735049); // a7 = EID "sPI" (send_ipi extension)
    cpu.set_reg(16, 0); // a6 = FID 0
    cpu.set_reg(10, 1); // a0 = hart_mask, bit 0 -> hart 0 (us)
    cpu.set_reg(11, 0); // a1 = hart_mask_base
    cpu.step().unwrap();
    assert_eq!(cpu.reg(10), 0); // a0 = SBI_SUCCESS
    assert_ne!(cpu.hart.csr.read(addr::SIP).unwrap() & (1 << 1), 0); // SSIP raised
}

#[test]
fn send_ipi_targets_the_selected_hart_not_the_others() {
    let mut harts = vec![Hart::new(), Hart::new()];
    send_ipi(&mut harts, 1 << 1, 0);
    assert_eq!(harts[0].csr_read(addr::SIP) & SIP_SSIP, 0);
    assert_ne!(harts[1].csr_read(addr::SIP) & SIP_SSIP, 0);
}

#[test]
fn pending_software_interrupt_traps_to_the_handler() {
    let mut cpu = cpu_with(&[addi(1, 0, 7)]);
    cpu.hart.csr.write(addr::STVEC, RAM_BASE + 0x200).unwrap();
    cpu.hart.csr.write(addr::SIP, 1 << 1).unwrap(); // SSIP pending
    cpu.hart.csr.write(addr::SIE, 1 << 1).unwrap(); // SSIE enabled
    cpu.hart.csr.write(addr::SSTATUS, sstatus::SIE).unwrap();
    cpu.step().unwrap();
    assert_eq!(cpu.pc(), RAM_BASE + 0x200);
    assert_eq!(cpu.hart.csr.read(addr::SCAUSE).unwrap(), (1 << 63) | 1); // software int
}

#[test]
fn ebreak_traps_with_the_breakpoint_cause() {
    let mut cpu = cpu_with(&[ebreak()]);
    cpu.hart.csr.write(addr::STVEC, RAM_BASE + 0x200).unwrap();
    cpu.step().unwrap();
    assert_eq!(cpu.pc(), RAM_BASE + 0x200);
    assert_eq!(cpu.hart.csr.read(addr::SCAUSE).unwrap(), 3); // breakpoint
}

const STIE: u64 = 1 << 5;

#[test]
fn timer_interrupt_fires_when_time_reaches_stimecmp() {
    let mut cpu = cpu_with(&[jal(0, 0)]);
    cpu.hart.csr.write(addr::STVEC, RAM_BASE + 0x200).unwrap();
    cpu.hart.csr.write(addr::STIMECMP, 0).unwrap(); // deadline 0; time >= 0 at once
    cpu.hart.csr.write(addr::SIE, STIE).unwrap();
    cpu.hart.csr.write(addr::SSTATUS, sstatus::SIE).unwrap();
    cpu.step().unwrap();
    assert_eq!(cpu.pc(), RAM_BASE + 0x200); // trapped to stvec
    assert_eq!(cpu.hart.csr.read(addr::SCAUSE).unwrap(), (1 << 63) | 5); // timer interrupt
    assert_eq!(cpu.hart.csr.read(addr::SEPC).unwrap(), RAM_BASE); // resume the un-run instr
}

#[test]
fn timer_interrupt_is_masked_when_sstatus_sie_clear() {
    let mut cpu = cpu_with(&[addi(1, 0, 7)]);
    cpu.hart.csr.write(addr::STIMECMP, 0).unwrap();
    cpu.hart.csr.write(addr::SIE, STIE).unwrap();
    cpu.step().unwrap();
    assert_eq!(cpu.reg(1), 7); // the instruction ran instead of trapping
    assert_eq!(cpu.pc(), RAM_BASE + 4);
}

#[test]
fn timer_interrupt_needs_the_per_source_enable() {
    let mut cpu = cpu_with(&[addi(1, 0, 7)]);
    cpu.hart.csr.write(addr::STIMECMP, 0).unwrap();
    cpu.hart.csr.write(addr::SSTATUS, sstatus::SIE).unwrap();
    cpu.step().unwrap();
    assert_eq!(cpu.reg(1), 7);
}

#[test]
fn timer_interrupt_waits_for_the_deadline() {
    let mut cpu = cpu_with(&[addi(1, 0, 7), addi(2, 0, 9)]);
    cpu.hart.csr.write(addr::STIMECMP, 5).unwrap(); // five ticks out
    cpu.hart.csr.write(addr::SIE, STIE).unwrap();
    cpu.hart.csr.write(addr::SSTATUS, sstatus::SIE).unwrap();
    cpu.step().unwrap(); // instret 0 < 5: runs the instruction, no trap
    assert_eq!(cpu.reg(1), 7);
    assert_eq!(cpu.pc(), RAM_BASE + 4);
}

#[test]
fn sret_instruction_returns_to_sepc() {
    let mut cpu = cpu_with(&[sret()]);
    cpu.hart.csr.write(addr::SEPC, RAM_BASE + 0x40).unwrap();
    cpu.hart.csr.write(addr::SSTATUS, sstatus::SPIE).unwrap(); // SPP=U, SPIE=1
    cpu.step().unwrap();
    assert_eq!(cpu.pc(), RAM_BASE + 0x40);
    assert_eq!(cpu.privilege(), Privilege::User);
}

#[test]
fn wfi_is_a_nop_that_advances() {
    let mut cpu = cpu_with(&[wfi()]);
    cpu.step().unwrap();
    assert_eq!(cpu.pc(), RAM_BASE + 4);
}

#[test]
fn wfi_with_idle_skip_disabled_is_a_bare_nop_that_never_parks() {
    let mut cpu = cpu_with(&[wfi()]);
    cpu.set_idle_skip(false);
    cpu.step().unwrap();
    assert_eq!(cpu.pc(), RAM_BASE + 4);
    assert!(cpu.hart.is_running(), "idle-skip off: wfi does not park the hart");
}

#[test]
fn wfi_parks_the_hart_when_no_interrupt_is_pending() {
    let mut cpu = cpu_with(&[wfi()]);
    cpu.step().unwrap();
    assert_eq!(cpu.pc(), RAM_BASE + 4, "wfi still retires and advances PC");
    assert!(!cpu.hart.is_running(), "wfi with nothing pending parks the hart");
}

#[test]
fn an_idle_hart_fast_forwards_the_clock_to_its_timer_deadline() {
    let mut cpu = cpu_with(&[wfi(), jal(0, 0)]);
    cpu.hart.csr.write(addr::STVEC, RAM_BASE + 0x200).unwrap();
    cpu.hart.csr.write(addr::STIMECMP, 1000).unwrap();
    cpu.hart.csr.write(addr::SIE, STIE).unwrap();
    cpu.hart.csr.write(addr::SSTATUS, sstatus::SIE).unwrap();

    cpu.step().unwrap(); // wfi: time 0 < 1000, nothing pending → park
    assert!(!cpu.hart.is_running());
    cpu.step().unwrap(); // parked, idle → jump clock to the deadline
    cpu.step().unwrap(); // deliver the timer trap

    assert_eq!(cpu.pc(), RAM_BASE + 0x200, "trapped to stvec");
    assert_eq!(cpu.hart.csr.read(addr::SCAUSE).unwrap(), (1 << 63) | 5);
    assert_eq!(cpu.instret(), 1000, "clock fast-forwarded to the deadline");
}

#[test]
fn fence_instructions_are_noops() {
    let mut cpu = cpu_with(&[fence(), fence_i()]);
    cpu.step().unwrap();
    assert_eq!(cpu.pc(), RAM_BASE + 4);
    cpu.step().unwrap();
    assert_eq!(cpu.pc(), RAM_BASE + 8);
}

#[test]
fn take_trap_enters_the_supervisor_handler() {
    const HANDLER: u64 = RAM_BASE + 0x100;
    const TRAP_PC: u64 = RAM_BASE + 0x40;
    const ILLEGAL_INSTRUCTION: u64 = 2;
    let mut cpu = Cpu::new(Memory::new(0x1000));
    cpu.hart.csr.write(addr::STVEC, HANDLER).unwrap();
    cpu.hart.csr.write(addr::SSTATUS, sstatus::SIE).unwrap(); // interrupts enabled
    cpu.set_pc(TRAP_PC);

    cpu.hart.take_trap(ILLEGAL_INSTRUCTION, 0xbad);

    assert_eq!(cpu.pc(), HANDLER);
    assert_eq!(cpu.hart.csr.read(addr::SEPC).unwrap(), TRAP_PC);
    assert_eq!(cpu.hart.csr.read(addr::SCAUSE).unwrap(), ILLEGAL_INSTRUCTION);
    assert_eq!(cpu.hart.csr.read(addr::STVAL).unwrap(), 0xbad);
    let s = cpu.hart.csr.read(addr::SSTATUS).unwrap();
    assert_eq!(s & sstatus::SIE, 0, "SIE cleared on trap");
    assert_ne!(s & sstatus::SPIE, 0, "SPIE holds prior SIE");
    assert_ne!(s & sstatus::SPP, 0, "SPP records the interrupted S-mode");
    assert_eq!(cpu.privilege(), Privilege::Supervisor);
}

#[test]
fn sret_restores_state_and_returns() {
    const RETURN_PC: u64 = RAM_BASE + 0x80;
    let mut cpu = Cpu::new(Memory::new(0x1000));
    cpu.hart.csr.write(addr::SEPC, RETURN_PC).unwrap();
    cpu.hart.csr.write(addr::SSTATUS, sstatus::SPIE).unwrap();

    cpu.hart.sret();

    assert_eq!(cpu.pc(), RETURN_PC);
    assert_eq!(cpu.privilege(), Privilege::User); // SPP was U
    let s = cpu.hart.csr.read(addr::SSTATUS).unwrap();
    assert_ne!(s & sstatus::SIE, 0, "SIE restored from SPIE");
    assert_ne!(s & sstatus::SPIE, 0, "SPIE set to 1");
    assert_eq!(s & sstatus::SPP, 0, "SPP cleared to U");
}

#[test]
fn compressed_addi_executes_and_advances_by_two() {
    let mut mem = Memory::new(0x1000);
    mem.write_u16(RAM_BASE, c_addi(1, 5)).unwrap(); // c.addi x1, 5
    let mut cpu = Cpu::new(mem);
    cpu.step().unwrap();
    assert_eq!(cpu.reg(1), 5); // x1 = x1 + 5
    assert_eq!(cpu.pc(), RAM_BASE + 2); // compressed -> advance by 2
}

#[test]
fn compressed_li_and_cr_arithmetic() {
    let mut mem = Memory::new(0x1000);
    mem.write_u16(RAM_BASE, c_li(1, -3)).unwrap(); // x1 = -3
    mem.write_u16(RAM_BASE + 2, c_mv(2, 1)).unwrap(); // x2 = x1
    mem.write_u16(RAM_BASE + 4, c_add(2, 1)).unwrap(); // x2 += x1
    let mut cpu = Cpu::new(mem);
    for _ in 0..3 {
        cpu.step().unwrap();
    }
    assert_eq!(cpu.reg(1), (-3_i64) as u64);
    assert_eq!(cpu.reg(2), (-6_i64) as u64);
    assert_eq!(cpu.pc(), RAM_BASE + 6); // three compressed instructions
}

#[test]
fn compressed_jr_does_not_link() {
    let mut mem = Memory::new(0x1000);
    mem.write_u16(RAM_BASE, c_jr(5)).unwrap();
    let mut cpu = Cpu::new(mem);
    cpu.set_reg(5, RAM_BASE + 0x40);
    cpu.step().unwrap();
    assert_eq!(cpu.pc(), RAM_BASE + 0x40);
    assert_eq!(cpu.reg(1), 0);
}

#[test]
fn compressed_jalr_links_with_compressed_length() {
    let mut mem = Memory::new(0x1000);
    mem.write_u16(RAM_BASE, c_jalr(5)).unwrap();
    let mut cpu = Cpu::new(mem);
    cpu.set_reg(5, RAM_BASE + 0x40);
    cpu.step().unwrap();
    assert_eq!(cpu.pc(), RAM_BASE + 0x40);
    assert_eq!(cpu.reg(1), RAM_BASE + 2); // link = pc + 2, not + 4
}

#[test]
fn compressed_j_jumps_forward_and_backward() {
    let mut mem = Memory::new(0x1000);
    mem.write_u16(RAM_BASE, 0xa019).unwrap();
    let mut cpu = Cpu::new(mem);
    cpu.step().unwrap();
    assert_eq!(cpu.pc(), RAM_BASE + 6);

    let mut mem = Memory::new(0x1000);
    mem.write_u16(RAM_BASE + 0x40, 0xbfdd).unwrap();
    let mut cpu = Cpu::new(mem);
    cpu.set_pc(RAM_BASE + 0x40);
    cpu.step().unwrap();
    assert_eq!(cpu.pc(), RAM_BASE + 0x40 - 10);
}

#[test]
fn compressed_sdsp_stores_sp_relative() {
    let mut mem = Memory::new(0x2000);
    mem.write_u16(RAM_BASE, 0xea2e).unwrap();
    mem.write_u32(RAM_BASE + 2, ld(5, 2, 272)).unwrap(); // ld x5, 272(x2)
    let mut cpu = Cpu::new(mem);
    cpu.set_reg(2, RAM_BASE + 0x100); // sp
    cpu.set_reg(11, 0xdead_beef_cafe_babe);
    cpu.step().unwrap(); // c.sdsp
    cpu.step().unwrap(); // ld
    assert_eq!(cpu.reg(5), 0xdead_beef_cafe_babe);
}

#[test]
fn compressed_addi4spn_computes_sp_offset() {
    let mut mem = Memory::new(0x1000);
    mem.write_u16(RAM_BASE, 0xaa8).unwrap();
    let mut cpu = Cpu::new(mem);
    cpu.set_reg(2, 0x4000); // sp
    cpu.step().unwrap();
    assert_eq!(cpu.reg(10), 0x4000 + 344);
    assert_eq!(cpu.pc(), RAM_BASE + 2);
}

#[test]
fn compressed_addi16sp_adjusts_sp() {
    let mut mem = Memory::new(0x1000);
    mem.write_u16(RAM_BASE, 0x7171).unwrap();
    let mut cpu = Cpu::new(mem);
    cpu.set_reg(2, 0x4000); // sp
    cpu.step().unwrap();
    assert_eq!(cpu.reg(2), 0x4000 - 176);
}

#[test]
fn compressed_ldsp_loads_sp_relative() {
    let mut mem = Memory::new(0x2000);
    mem.write_u16(RAM_BASE, 0x6542).unwrap();
    mem.write_u64(RAM_BASE + 0x100 + 16, 0x1122_3344_5566_7788)
        .unwrap();
    let mut cpu = Cpu::new(mem);
    cpu.set_reg(2, RAM_BASE + 0x100); // sp
    cpu.step().unwrap();
    assert_eq!(cpu.reg(10), 0x1122_3344_5566_7788);
}

#[test]
fn compressed_bnez_branches_when_nonzero() {
    let mut mem = Memory::new(0x1000);
    mem.write_u16(RAM_BASE, 0xe579).unwrap();
    let mut cpu = Cpu::new(mem);
    cpu.set_reg(10, 1);
    cpu.step().unwrap();
    assert_eq!(cpu.pc(), RAM_BASE + 206); // taken

    let mut mem = Memory::new(0x1000);
    mem.write_u16(RAM_BASE, 0xe579).unwrap();
    let mut cpu = Cpu::new(mem); // x10 == 0
    cpu.step().unwrap();
    assert_eq!(cpu.pc(), RAM_BASE + 2); // not taken
}

#[test]
fn compressed_sd_stores_register_relative() {
    let mut mem = Memory::new(0x2000);
    mem.write_u16(RAM_BASE, 0xe188).unwrap();
    mem.write_u32(RAM_BASE + 2, ld(5, 11, 0)).unwrap(); // ld x5, 0(x11)
    let mut cpu = Cpu::new(mem);
    cpu.set_reg(11, RAM_BASE + 0x200); // base
    cpu.set_reg(10, 0xfeed_face_0000_1234);
    cpu.step().unwrap(); // c.sd
    cpu.step().unwrap(); // ld
    assert_eq!(cpu.reg(5), 0xfeed_face_0000_1234);
}

#[test]
fn compressed_ld_loads_register_relative() {
    let mut mem = Memory::new(0x2000);
    mem.write_u16(RAM_BASE, 0x6108).unwrap();
    mem.write_u64(RAM_BASE + 0x200, 0x0102_0304_0506_0708)
        .unwrap();
    let mut cpu = Cpu::new(mem);
    cpu.set_reg(10, RAM_BASE + 0x200);
    cpu.step().unwrap();
    assert_eq!(cpu.reg(10), 0x0102_0304_0506_0708);
}

#[test]
fn compressed_beqz_branches_when_zero() {
    let mut mem = Memory::new(0x1000);
    mem.write_u16(RAM_BASE + 0x200, 0xc909).unwrap();
    let mut cpu = Cpu::new(mem);
    cpu.set_pc(RAM_BASE + 0x200); // x10 == 0
    cpu.step().unwrap();
    assert_eq!(cpu.pc(), RAM_BASE + 0x200 + 18); // taken

    let mut mem = Memory::new(0x1000);
    mem.write_u16(RAM_BASE + 0x200, 0xc909).unwrap();
    let mut cpu = Cpu::new(mem);
    cpu.set_pc(RAM_BASE + 0x200);
    cpu.set_reg(10, 1);
    cpu.step().unwrap();
    assert_eq!(cpu.pc(), RAM_BASE + 0x200 + 2); // not taken
}

#[test]
fn compressed_and_combines_registers() {
    let mut mem = Memory::new(0x1000);
    mem.write_u16(RAM_BASE, 0x8d71).unwrap();
    let mut cpu = Cpu::new(mem);
    cpu.set_reg(10, 0xff0f);
    cpu.set_reg(12, 0x0ff0);
    cpu.step().unwrap();
    assert_eq!(cpu.reg(10), 0xff0f & 0x0ff0);
}

#[test]
fn compressed_sub_subtracts_registers() {
    let mut mem = Memory::new(0x1000);
    mem.write_u16(RAM_BASE, 0x8d89).unwrap();
    let mut cpu = Cpu::new(mem);
    cpu.set_reg(11, 100);
    cpu.set_reg(10, 30);
    cpu.step().unwrap();
    assert_eq!(cpu.reg(11), 70);
}

#[test]
fn compressed_srli_shifts_right_logical() {
    let mut mem = Memory::new(0x1000);
    mem.write_u16(RAM_BASE, 0x8189).unwrap();
    let mut cpu = Cpu::new(mem);
    cpu.set_reg(11, 0xff);
    cpu.step().unwrap();
    assert_eq!(cpu.reg(11), 0xff >> 2);
}

#[test]
fn compressed_swsp_stores_word_sp_relative() {
    let mut mem = Memory::new(0x2000);
    mem.write_u16(RAM_BASE, 0xd62a).unwrap();
    mem.write_u32(RAM_BASE + 2, lw(5, 2, 44)).unwrap(); // lw x5, 44(x2)
    let mut cpu = Cpu::new(mem);
    cpu.set_reg(2, RAM_BASE + 0x100); // sp
    cpu.set_reg(10, 0x0bcd_1234);
    cpu.step().unwrap(); // c.swsp
    cpu.step().unwrap(); // lw
    assert_eq!(cpu.reg(5), 0x0bcd_1234);
}

#[test]
fn compressed_lwsp_loads_word_sp_relative() {
    let mut mem = Memory::new(0x2000);
    mem.write_u16(RAM_BASE, 0x5532).unwrap();
    mem.write_u32(RAM_BASE + 0x100 + 44, 0x0011_2233).unwrap();
    let mut cpu = Cpu::new(mem);
    cpu.set_reg(2, RAM_BASE + 0x100); // sp
    cpu.step().unwrap();
    assert_eq!(cpu.reg(10), 0x0011_2233);
}

#[test]
fn executes_through_sv39_translation() {
    let mut mem = Memory::new(0x10000);
    mem.write_u32(RAM_BASE + 0x3000, addi(1, 0, 42)).unwrap();
    let root = RAM_BASE + 0x8000;
    let leaf = ((0x8000_0000_u64 >> 12) << 10) | pte::V | pte::R | pte::W | pte::X;
    mem.write_u64(root + 4 * 8, leaf).unwrap();

    let mut cpu = Cpu::new(mem);
    cpu.hart.csr.write(addr::SATP, (8 << 60) | (root >> 12)).unwrap();
    cpu.set_pc(0x1_0000_0000 | 0x3000); // VPN[2]=4, offset 0x3000

    cpu.step().unwrap();
    assert_eq!(cpu.reg(1), 42);
}

#[test]
fn compressed_or_combines_registers() {
    let mut mem = Memory::new(0x1000);
    mem.write_u16(RAM_BASE, 0x8dd1).unwrap();
    let mut cpu = Cpu::new(mem);
    cpu.set_reg(11, 0xf0);
    cpu.set_reg(12, 0x0f);
    cpu.step().unwrap();
    assert_eq!(cpu.reg(11), 0xff);
}

#[test]
fn compressed_slli_shifts_left() {
    let mut mem = Memory::new(0x1000);
    mem.write_u16(RAM_BASE, 0x0522).unwrap();
    let mut cpu = Cpu::new(mem);
    cpu.set_reg(10, 0xab);
    cpu.step().unwrap();
    assert_eq!(cpu.reg(10), 0xab << 8);
}

#[test]
fn compressed_andi_masks_register() {
    let mut mem = Memory::new(0x1000);
    mem.write_u16(RAM_BASE, 0x8905).unwrap();
    let mut cpu = Cpu::new(mem);
    cpu.set_reg(10, 0xff);
    cpu.step().unwrap();
    assert_eq!(cpu.reg(10), 0xff & 1);
}

#[test]
fn compressed_lui_loads_upper_immediate() {
    let mut mem = Memory::new(0x1000);
    mem.write_u16(RAM_BASE, 0x6741).unwrap();
    let mut cpu = Cpu::new(mem);
    cpu.step().unwrap();
    assert_eq!(cpu.reg(14), 0x10000);
}

#[test]
fn compressed_sw_stores_word_register_relative() {
    let mut mem = Memory::new(0x2000);
    mem.write_u16(RAM_BASE, 0xc188).unwrap();
    mem.write_u32(RAM_BASE + 2, lw(5, 11, 0)).unwrap(); // lw x5, 0(x11)
    let mut cpu = Cpu::new(mem);
    cpu.set_reg(11, RAM_BASE + 0x200);
    cpu.set_reg(10, 0x0bad_f00d);
    cpu.step().unwrap(); // c.sw
    cpu.step().unwrap(); // lw
    assert_eq!(cpu.reg(5), 0x0bad_f00d);
}

#[test]
fn compressed_lw_loads_word_register_relative() {
    let mut mem = Memory::new(0x2000);
    mem.write_u16(RAM_BASE, 0x4318).unwrap();
    mem.write_u32(RAM_BASE + 0x200, 0x0102_0304).unwrap();
    let mut cpu = Cpu::new(mem);
    cpu.set_reg(14, RAM_BASE + 0x200);
    cpu.step().unwrap();
    assert_eq!(cpu.reg(14), 0x0102_0304);
}

#[test]
fn compressed_addiw_sign_extends_word() {
    let mut mem = Memory::new(0x1000);
    mem.write_u16(RAM_BASE, 0x2501).unwrap();
    let mut cpu = Cpu::new(mem);
    cpu.set_reg(10, 0x1_8000_0000);
    cpu.step().unwrap();
    assert_eq!(cpu.reg(10), 0xffff_ffff_8000_0000);
}

#[test]
fn compressed_xor_combines_registers() {
    let mut mem = Memory::new(0x1000);
    mem.write_u16(RAM_BASE, 0x8d2d).unwrap();
    let mut cpu = Cpu::new(mem);
    cpu.set_reg(10, 0xff00);
    cpu.set_reg(11, 0x0ff0);
    cpu.step().unwrap();
    assert_eq!(cpu.reg(10), 0xff00 ^ 0x0ff0);
}

#[test]
fn compressed_srai_arithmetic_shifts_register() {
    let mut mem = Memory::new(0x1000);
    mem.write_u16(RAM_BASE, 0x9601).unwrap();
    let mut cpu = Cpu::new(mem);
    cpu.set_reg(12, 0xffff_ffff_0000_0000);
    cpu.step().unwrap();
    assert_eq!(cpu.reg(12), 0xffff_ffff_ffff_ffff); // sign-propagating >> 32
}

#[test]
fn compressed_addw_adds_words_and_sign_extends() {
    let mut mem = Memory::new(0x1000);
    mem.write_u16(RAM_BASE, 0x9d2d).unwrap();
    let mut cpu = Cpu::new(mem);
    cpu.set_reg(10, 0x7fff_ffff);
    cpu.set_reg(11, 1);
    cpu.step().unwrap();
    assert_eq!(cpu.reg(10), 0xffff_ffff_8000_0000); // sext32(0x7fffffff + 1)
}

#[test]
fn compressed_subw_subtracts_words_and_sign_extends() {
    let mut mem = Memory::new(0x1000);
    mem.write_u16(RAM_BASE, 0x9d0d).unwrap();
    let mut cpu = Cpu::new(mem);
    cpu.set_reg(10, 0);
    cpu.set_reg(11, 1);
    cpu.step().unwrap();
    assert_eq!(cpu.reg(10), u64::MAX); // sext32(0 - 1) = -1
}

#[test]
fn a_fetch_page_fault_traps_instead_of_halting() {
    let mut mem = Memory::new(0x4000);
    mem.write_u32(RAM_BASE, addi(1, 0, 1)).unwrap(); // never runs
    let mut cpu = Cpu::new(mem);
    cpu.set_pc(RAM_BASE);
    let root = RAM_BASE + 0x2000; // page-aligned, zeroed
    cpu.hart.csr.write(addr::SATP, (8u64 << 60) | (root >> 12)).unwrap();
    cpu.hart.csr.write(addr::STVEC, RAM_BASE + 0x300).unwrap();
    cpu.step().unwrap();
    assert_eq!(cpu.pc(), RAM_BASE + 0x300); // trapped to stvec, not halted
    assert_eq!(cpu.hart.csr.read(addr::SCAUSE).unwrap(), 12); // instruction page fault
    assert_eq!(cpu.hart.csr.read(addr::STVAL).unwrap(), RAM_BASE); // faulting VA
}

#[test]
fn sfence_vma_is_a_nop() {
    let mut cpu = cpu_with(&[0x1200_0073]);
    cpu.step().unwrap();
    assert_eq!(cpu.pc(), RAM_BASE + 4);
}

#[test]
fn store_to_uart_produces_console_output() {
    let program = &[
        lui(2, 0x10000),               // x2 = 0x1000_0000 (UART base)
        addi(1, 0, i32::from(b'X')),   // x1 = 'X'
        sb(1, 2, 0),                   // store 'X' to the UART THR
    ];
    let mut cpu = cpu_with(program);
    for _ in 0..program.len() {
        cpu.step().unwrap();
    }
    assert_eq!(cpu.uart_output(), b"X");
}

#[test]
fn unknown_instruction_reports_unimplemented() {
    let mut cpu = cpu_with(&[0xffff_ffff]);
    assert_eq!(
        cpu.step(),
        Err(StepError::Unimplemented {
            pc: RAM_BASE,
            instr: 0xffff_ffff,
        })
    );
}

fn amo(funct5: u32, width: u32, rd: u32, rs1: u32, rs2: u32) -> u32 {
    (funct5 << 27) | (rs2 << 20) | (rs1 << 15) | (width << 12) | (rd << 7) | 0x2f
}

fn run_amo_d(funct5: u32, init: u64, rs2: u64) -> (u64, u64) {
    let mut mem = Memory::new(0x2000);
    mem.write_u32(RAM_BASE, amo(funct5, 3, 3, 1, 2)).unwrap();
    mem.write_u32(RAM_BASE + 4, ld(4, 1, 0)).unwrap();
    mem.write_u64(RAM_BASE + 0x200, init).unwrap();
    let mut cpu = Cpu::new(mem);
    cpu.set_reg(1, RAM_BASE + 0x200);
    cpu.set_reg(2, rs2);
    cpu.step().unwrap(); // amo
    cpu.step().unwrap(); // ld back
    (cpu.reg(3), cpu.reg(4))
}

fn run_amo_w(funct5: u32, init: u32, rs2: u64) -> (u64, u32) {
    let mut mem = Memory::new(0x2000);
    mem.write_u32(RAM_BASE, amo(funct5, 2, 3, 1, 2)).unwrap();
    mem.write_u32(RAM_BASE + 4, lwu(4, 1, 0)).unwrap();
    mem.write_u32(RAM_BASE + 0x200, init).unwrap();
    let mut cpu = Cpu::new(mem);
    cpu.set_reg(1, RAM_BASE + 0x200);
    cpu.set_reg(2, rs2);
    cpu.step().unwrap(); // amo
    cpu.step().unwrap(); // lwu back
    (cpu.reg(3), cpu.reg(4) as u32)
}

const AMO_LR: u32 = 0x02;
const AMO_SC: u32 = 0x03;
const AMO_ADD: u32 = 0x00;
const AMO_SWAP: u32 = 0x01;
const AMO_XOR: u32 = 0x04;
const AMO_OR: u32 = 0x08;
const AMO_AND: u32 = 0x0c;
const AMO_MIN: u32 = 0x10;
const AMO_MAX: u32 = 0x14;
const AMO_MINU: u32 = 0x18;
const AMO_MAXU: u32 = 0x1c;

#[test]
fn a_extension_amoor_d_captured() {
    let mut mem = Memory::new(0x2000);
    mem.write_u32(RAM_BASE, 0x40a5_b52f).unwrap();
    mem.write_u32(RAM_BASE + 4, ld(5, 11, 0)).unwrap();
    mem.write_u64(RAM_BASE + 0x200, 0x00ff).unwrap();
    let mut cpu = Cpu::new(mem);
    cpu.set_reg(11, RAM_BASE + 0x200);
    cpu.set_reg(10, 0xff00);
    cpu.step().unwrap(); // amoor.d
    cpu.step().unwrap(); // ld x5, 0(x11)
    assert_eq!(cpu.reg(10), 0x00ff); // rd <- old value
    assert_eq!(cpu.reg(5), 0xffff); // memory <- old | rs2
}

#[test]
fn a_extension_amo_doubleword_family() {
    assert_eq!(run_amo_d(AMO_SWAP, 0x1111, 0x2222), (0x1111, 0x2222));
    assert_eq!(run_amo_d(AMO_ADD, 5, 7), (5, 12));
    assert_eq!(run_amo_d(AMO_XOR, 0xff, 0x0f), (0xff, 0xf0));
    assert_eq!(run_amo_d(AMO_OR, 0xf0, 0x0f), (0xf0, 0xff));
    assert_eq!(run_amo_d(AMO_AND, 0xf0, 0x3c), (0xf0, 0x30));
    let neg5 = (-5_i64) as u64;
    assert_eq!(run_amo_d(AMO_MIN, neg5, 3), (neg5, neg5));
    assert_eq!(run_amo_d(AMO_MAX, neg5, 3), (neg5, 3));
    assert_eq!(run_amo_d(AMO_MINU, neg5, 3), (neg5, 3));
    assert_eq!(run_amo_d(AMO_MAXU, neg5, 3), (neg5, neg5));
}

fn rdtime(rd: u32) -> u32 {
    csrrs(rd, 0, addr::TIME)
}

#[test]
fn rdtime_reads_a_monotonic_counter_from_instret() {
    let program = &[rdtime(1), addi(0, 0, 0), rdtime(2)];
    let mut cpu = cpu_with(program);
    for _ in 0..program.len() {
        cpu.step().unwrap();
    }
    assert_eq!(cpu.reg(1), 0);
    assert_eq!(cpu.reg(2), 2);
    assert!(cpu.reg(2) > cpu.reg(1));
}

#[test]
fn a_extension_lr_sc_word_round_trips() {
    let mut mem = Memory::new(0x2000);
    mem.write_u32(RAM_BASE, 0x1407_a62f).unwrap(); // lr.w x12, (x15)
    mem.write_u32(RAM_BASE + 4, amo(AMO_SC, 2, 13, 15, 14)).unwrap(); // sc.w x13, x14, (x15)
    mem.write_u32(RAM_BASE + 8, lwu(11, 15, 0)).unwrap(); // reload the cell
    mem.write_u32(RAM_BASE + 0x200, 0x1234).unwrap();
    let mut cpu = Cpu::new(mem);
    cpu.set_reg(15, RAM_BASE + 0x200);
    cpu.set_reg(14, 0xbeef);
    for _ in 0..3 {
        cpu.step().unwrap();
    }
    assert_eq!(cpu.reg(12), 0x1234); // lr returned the old value
    assert_eq!(cpu.reg(13), 0); // sc reported success
    assert_eq!(cpu.reg(11), 0xbeef); // store landed
}

#[test]
fn a_extension_sc_without_reservation_fails() {
    let mut mem = Memory::new(0x2000);
    mem.write_u32(RAM_BASE, amo(AMO_SC, 3, 13, 15, 14)).unwrap(); // sc.d, no prior lr
    mem.write_u32(RAM_BASE + 4, ld(11, 15, 0)).unwrap(); // reload the cell
    mem.write_u64(RAM_BASE + 0x200, 0x1234).unwrap();
    let mut cpu = Cpu::new(mem);
    cpu.set_reg(15, RAM_BASE + 0x200);
    cpu.set_reg(14, 0xbeef);
    cpu.step().unwrap(); // sc.d
    cpu.step().unwrap(); // ld back
    assert_eq!(cpu.reg(13), 1); // sc reported failure
    assert_eq!(cpu.reg(11), 0x1234); // memory untouched
}

#[test]
fn a_extension_store_breaks_the_reservation() {
    let mut mem = Memory::new(0x2000);
    mem.write_u32(RAM_BASE, amo(AMO_LR, 3, 12, 15, 0)).unwrap(); // lr.d x12, (x15)
    mem.write_u32(RAM_BASE + 4, sd(14, 15, 0)).unwrap(); // sd x14, 0(x15)
    mem.write_u32(RAM_BASE + 8, amo(AMO_SC, 3, 13, 15, 14)).unwrap(); // sc.d x13, x14, (x15)
    mem.write_u64(RAM_BASE + 0x200, 0x1234).unwrap();
    let mut cpu = Cpu::new(mem);
    cpu.set_reg(15, RAM_BASE + 0x200);
    cpu.set_reg(14, 0xbeef);
    for _ in 0..3 {
        cpu.step().unwrap();
    }
    assert_eq!(cpu.reg(13), 1); // reservation broken by the intervening store
}

#[test]
fn a_extension_amo_word_sign_extends_old_value() {
    let (old, mem) = run_amo_w(AMO_ADD, 0x8000_0000, 1);
    assert_eq!(old, 0xffff_ffff_8000_0000);
    assert_eq!(mem, 0x8000_0001);
}
