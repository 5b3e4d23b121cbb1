//! What the probe's program does, step by step, and that no accelerator changes it.

use vstd::prelude::*;
use crate::alu::{word, AluOp};
use crate::block::{lowered, BlockState, Op};
use crate::bus::BusState;
use crate::bytes::{le, le_bytes, lemma_le_of_le_bytes, lemma_span_of_widths, overwrite};
use crate::cpu::{HartEffect, StepError};
use crate::csr::addr;
use crate::decode::{funct3, is_compressed, opcode, Instr};
use crate::decode_cache::Decoded;
use crate::loader::blank;
use crate::machine::{law_the_state_hash_ignores_toggles, MachineState};
use crate::mem::{law_load_after_store, lemma_place_bounds, MemState, RAM_BASE};
use crate::mmu::{translation, Access};
use crate::model::{
    block_at, execute, fetch_and_retire, fetched, interpret, load_value, remembering, retire,
    run_next, run_op, run_ops, sem_jal, sem_load, sem_op_imm, sem_store, step, store_value,
    try_block, BlockEntry, HartModel, ILEN_FULL, MAX_OPS,
};
use crate::probe::{
    after, disagreement, image_of, loaded, observes, program, Probe, Speedups, BUDGET, PROBE_RAM,
    SCRATCH, UART_THR, WIDE,
};

verus! {

/// Which instruction comes after `k` steps: the last one jumps to itself.
spec fn index(k: nat) -> int {
    if k < 12 {
        k as int
    } else {
        12
    }
}

/// Where the program is after `k` steps.
spec fn pc_at(k: nat) -> u64 {
    (RAM_BASE + 4 * index(k)) as u64
}

/// The registers after `k` steps.
spec fn regs_at(k: nat) -> Seq<u64> {
    Seq::new(
        32,
        |i: int|
            if i == 1 && k >= 1 {
                1u64
            } else if i == 2 && k >= 2 {
                WIDE
            } else if i == 3 && k >= 5 {
                SCRATCH
            } else if i == 3 && k == 4 {
                RAM_BASE
            } else if i == 3 && k == 3 {
                1
            } else if i == 4 && k >= 7 {
                WIDE
            } else if i == 5 && k >= 12 {
                1
            } else if i == 6 && k >= 9 {
                UART_THR
            } else if i == 6 && k == 8 {
                1
            } else if i == 7 && k >= 10 {
                0x41
            } else {
                0
            },
    )
}

/// RAM with the program in it.
spec fn program_ram() -> MemState {
    blank(PROBE_RAM as nat).write(RAM_BASE, image_of(program())).1
}

/// The bus after `k` steps: the value is stored by the sixth, the byte sent by the eleventh.
spec fn bus_at(k: nat) -> BusState {
    let start = crate::bus::fresh(program_ram());
    let stored = start.write(SCRATCH, 8, WIDE as nat)->0;
    if k < 6 {
        start
    } else if k < 11 {
        stored
    } else {
        stored.write(UART_THR, 1, 0x41)->0
    }
}

/// Whether RAM holds the program.
spec fn holds_program(m: MemState) -> bool {
    &&& m.scramble is None
    &&& m.bytes.len() == PROBE_RAM
    &&& forall|j: int|
        0 <= j < 13 ==> m.bytes.subrange(4 * j, 4 * j + 4) == le_bytes(
            #[trigger] program()[j] as nat,
            4,
        )
}

proof fn lemma_image(words: Seq<u32>)
    ensures
        image_of(words).len() == 4 * words.len(),
        forall|j: int|
            0 <= j < words.len() ==> image_of(words).subrange(4 * j, 4 * j + 4) == le_bytes(
                #[trigger] words[j] as nat,
                4,
            ),
    decreases words.len(),
{
    if words.len() > 0 {
        lemma_image(words.drop_last());
        lemma_le_of_le_bytes(words.last() as nat, 4);
        let image = image_of(words);
        let rest = image_of(words.drop_last());
        assert forall|j: int| 0 <= j < words.len() implies image.subrange(4 * j, 4 * j + 4)
            == le_bytes(#[trigger] words[j] as nat, 4) by {
            if j < words.len() - 1 {
                assert(words.drop_last()[j] == words[j]);
                assert(image.subrange(4 * j, 4 * j + 4) =~= rest.subrange(4 * j, 4 * j + 4));
            } else {
                assert(image.subrange(4 * j, 4 * j + 4) =~= le_bytes(words[j] as nat, 4));
            }
        }
    }
}

proof fn lemma_program_ram()
    ensures
        holds_program(program_ram()),
        program_ram().bytes.len() == PROBE_RAM,
{
    lemma_image(program());
    let m = blank(PROBE_RAM as nat);
    let image = image_of(program());
    lemma_place_bounds(m, 0);
    assert(m.span(RAM_BASE, 52) == Some(0int));
    let ram = program_ram();
    assert(ram.bytes == overwrite(m.bytes, 0, image));
    assert forall|j: int| 0 <= j < 13 implies ram.bytes.subrange(4 * j, 4 * j + 4) == le_bytes(
        #[trigger] program()[j] as nat,
        4,
    ) by {
        assert(ram.bytes.subrange(4 * j, 4 * j + 4) =~= image.subrange(4 * j, 4 * j + 4));
    }
}

/// The bus at every step: the program stays in place, the value is where it was stored, and
/// the byte was sent.
proof fn lemma_bus(k: nat)
    ensures
        holds_program(bus_at(k).ram),
        bus_at(5).write(SCRATCH, 8, WIDE as nat) == Some(bus_at(6)),
        bus_at(10).write(UART_THR, 1, 0x41) == Some(bus_at(11)),
        k >= 6 ==> bus_at(k).ram.load(SCRATCH, 8) == Some(WIDE as nat),
        bus_at(k).uart.input.len() == 0,
        bus_at(k).uart.output == if k < 11 {
            Seq::<u8>::empty()
        } else {
            seq![0x41u8]
        },
{
    reveal(BusState::write);
    lemma_program_ram();
    lemma_span_of_widths();
    let start = crate::bus::fresh(program_ram());
    let m = start.ram;
    lemma_place_bounds(m, 0x100);
    assert(m.span(SCRATCH, 8) == Some(0x100int));
    lemma_le_of_le_bytes(WIDE as nat, 8);
    assert(m.store(SCRATCH, 8, WIDE as nat) is Some);
    law_load_after_store(m, SCRATCH, 8, WIDE as nat);
    let after = m.store(SCRATCH, 8, WIDE as nat)->0;
    let stored = start.write(SCRATCH, 8, WIDE as nat)->0;
    assert(stored.ram == after);
    assert forall|j: int| 0 <= j < 13 implies after.bytes.subrange(4 * j, 4 * j + 4) == le_bytes(
        #[trigger] program()[j] as nat,
        4,
    ) by {
        assert(after.bytes.subrange(4 * j, 4 * j + 4) =~= m.bytes.subrange(4 * j, 4 * j + 4));
    }
    let sent = stored.write(UART_THR, 1, 0x41)->0;
    assert(sent.ram == after);
    assert(sent.uart.output =~= seq![0x41u8]);
}

/// Whether the hart is where the program is after `k` steps. What the accelerators keep is
/// left open, and so are the counters.
spec fn at_step(h: HartModel, k: nat) -> bool {
    h == HartModel {
        x: regs_at(k),
        pc: pc_at(k),
        instret: h.instret,
        cycle: h.cycle,
        ilen: h.ilen,
        decode: h.decode,
        blocks: h.blocks,
        tlb: h.tlb,
        ..HartModel::reset()
    }
}

/// The decoded instruction after `k` steps.
spec fn decoded_at(k: nat) -> Decoded {
    Decoded { raw: program()[index(k)], ilen: ILEN_FULL }
}

proof fn lemma_untranslated(h: HartModel, b: BusState, k: nat, va: u64, access: Access)
    requires
        at_step(h, k),
    ensures
        h.translate(b, va, access) == Some(va),
{
    reveal(translation);
    assert(h.get(addr::SATP) == 0);
}

/// The low half of a number of four bytes.
#[verifier::spinoff_prover]
#[verifier::rlimit(60)]
proof fn lemma_low_half(v: nat)
    requires
        v < 0x1_0000_0000,
    ensures
        le(le_bytes(v, 4).subrange(0, 2)) == v % 0x1_0000,
{
    lemma_le_of_le_bytes(v, 4);
    lemma_le_of_le_bytes(v % 0x1_0000, 2);
    lemma_span_of_widths();
    reveal_with_fuel(le_bytes, 5);
    assert(le_bytes(v, 4).subrange(0, 2) =~= le_bytes(v % 0x1_0000, 2));
}

proof fn lemma_program_words(j: int)
    requires
        0 <= j < 13,
    ensures
        program()[j] % 4 == 3,
{
}

proof fn lemma_fetched(h: HartModel, b: BusState, k: nat)
    requires
        at_step(h, k),
        holds_program(b.ram),
    ensures
        fetched(h, b, pc_at(k)) == Some(decoded_at(k)),
        b.read(pc_at(k), 2) == (Some(program()[index(k)] as nat % 0x1_0000), b),
        b.read(pc_at(k), 4) == (Some(program()[index(k)] as nat), b),
        !is_compressed((program()[index(k)] as nat % 0x1_0000) as u16),
{
    reveal(fetched);
    reveal(BusState::peek);
    reveal(BusState::read);
    let pc = pc_at(k);
    let j = index(k);
    let raw = program()[j];
    lemma_untranslated(h, b, k, pc, Access::Fetch);
    lemma_place_bounds(b.ram, 4 * j);
    lemma_span_of_widths();
    lemma_le_of_le_bytes(raw as nat, 4);
    lemma_low_half(raw as nat);
    lemma_program_words(j);
    assert(b.ram.bytes.subrange(4 * j, 4 * j + 4) == le_bytes(raw as nat, 4));
    assert(b.ram.bytes.subrange(4 * j, 4 * j + 2) =~= le_bytes(raw as nat, 4).subrange(0, 2));
    assert(b.ram.span(pc, 2) == Some(4 * j));
    assert(b.ram.span(pc, 4) == Some(4 * j));
}

// Instructions.

proof fn lemma_addi(h: HartModel, b: BusState, raw: u32)
    requires
        Instr(raw).opcode() == opcode::OP_IMM,
        Instr(raw).funct3() == funct3::ADD,
    ensures
        execute(h, b, raw) == (
            h.with_reg(
                Instr(raw).rd() as int,
                word(h.x[Instr(raw).rs1() as int] + Instr(raw).i_imm()),
            ).advanced(),
            b,
            Ok::<(), StepError>(()),
        ),
{
    reveal(execute);
    reveal(sem_op_imm);
    reveal(AluOp::result);
}

proof fn lemma_slli(h: HartModel, b: BusState, raw: u32)
    requires
        Instr(raw).opcode() == opcode::OP_IMM,
        Instr(raw).funct3() == funct3::SLL,
    ensures
        execute(h, b, raw) == (
            h.with_reg(
                Instr(raw).rd() as int,
                h.x[Instr(raw).rs1() as int] << (Instr(raw).shamt6() as u64 % 64),
            ).advanced(),
            b,
            Ok::<(), StepError>(()),
        ),
{
    reveal(execute);
    reveal(sem_op_imm);
    reveal(AluOp::result);
}

/// Whether executing the instruction after `k` steps leads to the next step.
spec fn leads_on(h: HartModel, k: nat) -> bool {
    execute(h, bus_at(k), program()[index(k)]) == (
        HartModel { x: regs_at(k + 1), pc: pc_at(k + 1), ..h },
        bus_at(k + 1),
        Ok::<(), StepError>(()),
    )
}

proof fn lemma_step_0(h: HartModel)
    requires
        at_step(h, 0),
        h.ilen == ILEN_FULL,
    ensures
        leads_on(h, 0),
{
    let raw = 0x100093u32;
    assert(program()[0] == raw);
    assert(Instr(raw).rd() == 1 && Instr(raw).rs1() == 0 && Instr(raw).i_imm() == 1);
    lemma_addi(h, bus_at(0), raw);
    assert(regs_at(1) =~= regs_at(0).update(1, word(regs_at(0)[0] + 1)));
}

proof fn lemma_step_1(h: HartModel)
    requires
        at_step(h, 1),
        h.ilen == ILEN_FULL,
    ensures
        leads_on(h, 1),
{
    let raw = 0x2809113u32;
    assert(program()[1] == raw);
    assert(Instr(raw).rd() == 2 && Instr(raw).rs1() == 1 && Instr(raw).shamt6() == 40);
    lemma_slli(h, bus_at(1), raw);
    assert(1u64 << 40u64 == 0x10000000000u64) by (bit_vector);
    assert(regs_at(2) =~= regs_at(1).update(2, 0x10000000000u64));
}

proof fn lemma_step_2(h: HartModel)
    requires
        at_step(h, 2),
        h.ilen == ILEN_FULL,
    ensures
        leads_on(h, 2),
{
    let raw = 0x100193u32;
    assert(program()[2] == raw);
    assert(Instr(raw).rd() == 3 && Instr(raw).rs1() == 0 && Instr(raw).i_imm() == 1);
    lemma_addi(h, bus_at(2), raw);
    assert(regs_at(3) =~= regs_at(2).update(3, word(regs_at(2)[0] + 1)));
}

proof fn lemma_step_3(h: HartModel)
    requires
        at_step(h, 3),
        h.ilen == ILEN_FULL,
    ensures
        leads_on(h, 3),
{
    let raw = 0x1f19193u32;
    assert(program()[3] == raw);
    assert(Instr(raw).rd() == 3 && Instr(raw).rs1() == 3 && Instr(raw).shamt6() == 31);
    lemma_slli(h, bus_at(3), raw);
    assert(1u64 << 31u64 == 0x80000000u64) by (bit_vector);
    assert(regs_at(4) =~= regs_at(3).update(3, 0x80000000u64));
}

proof fn lemma_step_4(h: HartModel)
    requires
        at_step(h, 4),
        h.ilen == ILEN_FULL,
    ensures
        leads_on(h, 4),
{
    let raw = 0x10018193u32;
    assert(program()[4] == raw);
    assert(Instr(raw).rd() == 3 && Instr(raw).rs1() == 3 && Instr(raw).i_imm() == 256);
    lemma_addi(h, bus_at(4), raw);
    assert(regs_at(5) =~= regs_at(4).update(3, word(regs_at(4)[3] + 256)));
}

proof fn lemma_step_5(h: HartModel)
    requires
        at_step(h, 5),
        h.ilen == ILEN_FULL,
    ensures
        leads_on(h, 5),
{
    let raw = 0x21b023u32;
    assert(program()[5] == raw);
    let b = bus_at(5);
    reveal(execute);
    reveal(sem_store);
    reveal(store_value);
    lemma_bus(5);
    assert(Instr(raw).rs1() == 3 && Instr(raw).rs2() == 2 && Instr(raw).s_imm() == 0);
    assert(Instr(raw).opcode() == opcode::STORE && Instr(raw).funct3() == 3);
    lemma_untranslated(h, b, 5, h.x[3], Access::Store);
    assert(regs_at(6) =~= regs_at(5));
}

proof fn lemma_step_6(h: HartModel)
    requires
        at_step(h, 6),
        h.ilen == ILEN_FULL,
    ensures
        leads_on(h, 6),
{
    let raw = 0x1b203u32;
    assert(program()[6] == raw);
    let b = bus_at(6);
    reveal(execute);
    reveal(sem_load);
    reveal(load_value);
    reveal(BusState::read);
    reveal(BusState::peek);
    lemma_bus(6);
    assert(Instr(raw).rs1() == 3 && Instr(raw).rd() == 4 && Instr(raw).i_imm() == 0);
    assert(Instr(raw).opcode() == opcode::LOAD && Instr(raw).funct3() == 3);
    lemma_untranslated(h, b, 6, SCRATCH, Access::Load);
    assert(regs_at(7) =~= regs_at(6).update(4, WIDE));
}

proof fn lemma_step_7(h: HartModel)
    requires
        at_step(h, 7),
        h.ilen == ILEN_FULL,
    ensures
        leads_on(h, 7),
{
    let raw = 0x100313u32;
    assert(program()[7] == raw);
    assert(Instr(raw).rd() == 6 && Instr(raw).rs1() == 0 && Instr(raw).i_imm() == 1);
    lemma_addi(h, bus_at(7), raw);
    assert(regs_at(8) =~= regs_at(7).update(6, word(regs_at(7)[0] + 1)));
}

proof fn lemma_step_8(h: HartModel)
    requires
        at_step(h, 8),
        h.ilen == ILEN_FULL,
    ensures
        leads_on(h, 8),
{
    let raw = 0x1c31313u32;
    assert(program()[8] == raw);
    assert(Instr(raw).rd() == 6 && Instr(raw).rs1() == 6 && Instr(raw).shamt6() == 28);
    lemma_slli(h, bus_at(8), raw);
    assert(1u64 << 28u64 == 0x10000000u64) by (bit_vector);
    assert(regs_at(9) =~= regs_at(8).update(6, 0x10000000u64));
}

proof fn lemma_step_9(h: HartModel)
    requires
        at_step(h, 9),
        h.ilen == ILEN_FULL,
    ensures
        leads_on(h, 9),
{
    let raw = 0x4100393u32;
    assert(program()[9] == raw);
    assert(Instr(raw).rd() == 7 && Instr(raw).rs1() == 0 && Instr(raw).i_imm() == 65);
    lemma_addi(h, bus_at(9), raw);
    assert(regs_at(10) =~= regs_at(9).update(7, word(regs_at(9)[0] + 65)));
}

proof fn lemma_step_10(h: HartModel)
    requires
        at_step(h, 10),
        h.ilen == ILEN_FULL,
    ensures
        leads_on(h, 10),
{
    let raw = 0x730023u32;
    assert(program()[10] == raw);
    let b = bus_at(10);
    reveal(execute);
    reveal(sem_store);
    reveal(store_value);
    lemma_bus(10);
    assert(Instr(raw).rs1() == 6 && Instr(raw).rs2() == 7 && Instr(raw).s_imm() == 0);
    assert(Instr(raw).opcode() == opcode::STORE && Instr(raw).funct3() == 0);
    lemma_untranslated(h, b, 10, h.x[6], Access::Store);
    assert(regs_at(11) =~= regs_at(10));
}

proof fn lemma_step_11(h: HartModel)
    requires
        at_step(h, 11),
        h.ilen == ILEN_FULL,
    ensures
        leads_on(h, 11),
{
    let raw = 0x128293u32;
    assert(program()[11] == raw);
    assert(Instr(raw).rd() == 5 && Instr(raw).rs1() == 5 && Instr(raw).i_imm() == 1);
    lemma_addi(h, bus_at(11), raw);
    assert(regs_at(12) =~= regs_at(11).update(5, word(regs_at(11)[5] + 1)));
}

proof fn lemma_spin(h: HartModel, k: nat)
    requires
        k >= 12,
        at_step(h, k),
        h.ilen == ILEN_FULL,
    ensures
        leads_on(h, k),
{
    let raw = 0x6fu32;
    assert(program()[12] == raw);
    reveal(execute);
    reveal(sem_jal);
    assert(Instr(raw).opcode() == opcode::JAL && Instr(raw).rd() == 0);
    assert(Instr(raw).j_imm() == 0);
    assert(regs_at(k + 1) =~= regs_at(k));
}

proof fn lemma_leads_on(h: HartModel, k: nat)
    requires
        at_step(h, k),
        h.ilen == ILEN_FULL,
    ensures
        leads_on(h, k),
{
    if k == 0 {
        lemma_step_0(h);
    } else if k == 1 {
        lemma_step_1(h);
    } else if k == 2 {
        lemma_step_2(h);
    } else if k == 3 {
        lemma_step_3(h);
    } else if k == 4 {
        lemma_step_4(h);
    } else if k == 5 {
        lemma_step_5(h);
    } else if k == 6 {
        lemma_step_6(h);
    } else if k == 7 {
        lemma_step_7(h);
    } else if k == 8 {
        lemma_step_8(h);
    } else if k == 9 {
        lemma_step_9(h);
    } else if k == 10 {
        lemma_step_10(h);
    } else if k == 11 {
        lemma_step_11(h);
    } else {
        lemma_spin(h, k);
    }
}

// Accelerators.

/// Whether what the decode cache remembers of the program is the program.
spec fn decode_is_true(h: HartModel) -> bool {
    match h.decode {
        Some(c) => c.satp == 0 && forall|i: nat|
            c.entries.dom().contains(#[trigger] pc_at(i)) ==> c.entries[pc_at(i)] == decoded_at(i),
        None => true,
    }
}

/// The jump to itself, as a block.
spec fn spin_block() -> BlockState {
    let spin = pc_at(12);
    BlockState {
        ops: seq![Op::Jump { rd: 0, link: word(spin + 4), target: spin }],
        exit_pc: word(spin + 4),
    }
}

/// Whether the block cache has seen only what the first `k` steps came by, and holds no block
/// but that of the jump to itself.
spec fn blocks_are_true(h: HartModel, k: nat) -> bool {
    match h.blocks {
        Some(c) => forall|i: nat|
            c.entries.dom().contains(#[trigger] pc_at(i)) ==> {
                &&& index(i) < k
                &&& c.compiled(pc_at(i)) matches Some(block) ==> index(i) == 12 && block
                    == spin_block()
            },
        None => true,
    }
}

proof fn lemma_retire(h: HartModel, k: nat)
    requires
        at_step(h, k),
        h.ilen == ILEN_FULL,
    ensures
        retire(h, bus_at(k), program()[index(k)]) == (
            HartModel {
                x: regs_at(k + 1),
                pc: pc_at(k + 1),
                instret: h.instret.wrapping_add(1),
                ..h
            },
            bus_at(k + 1),
            Ok::<HartEffect, StepError>(HartEffect::Retired),
        ),
{
    reveal(retire);
    lemma_leads_on(h, k);
}

proof fn lemma_fetch_and_retire(h: HartModel, k: nat)
    requires
        at_step(h, k),
    ensures
        fetch_and_retire(h, bus_at(k)) == retire(
            remembering(HartModel { ilen: ILEN_FULL, ..h }, program()[index(k)]),
            bus_at(k),
            program()[index(k)],
        ),
{
    reveal(fetch_and_retire);
    lemma_bus(k);
    lemma_fetched(h, bus_at(k), k);
    lemma_untranslated(h, bus_at(k), k, pc_at(k), Access::Fetch);
}

proof fn lemma_interpret(h: HartModel, k: nat)
    requires
        at_step(h, k),
        decode_is_true(h),
    ensures
        ({
            let (h1, b1, r) = interpret(h, bus_at(k));
            &&& at_step(h1, k + 1)
            &&& decode_is_true(h1)
            &&& h1.blocks == h.blocks
            &&& b1 == bus_at(k + 1)
            &&& r == Ok::<HartEffect, StepError>(HartEffect::Retired)
        }),
{
    reveal(interpret);
    let raw = program()[index(k)];
    match h.decode {
        None => {
            lemma_fetch_and_retire(h, k);
            lemma_retire(remembering(HartModel { ilen: ILEN_FULL, ..h }, raw), k);
        },
        Some(cache) => {
            assert(h.get(addr::SATP) == 0);
            let h1 = HartModel { decode: Some(cache.after_lookup(0, h.pc)), ..h };
            match cache.lookup(0, h.pc) {
                Some(d) => {
                    assert(d == decoded_at(k));
                    lemma_retire(HartModel { ilen: d.ilen, ..h1 }, k);
                },
                None => {
                    let h2 = remembering(HartModel { ilen: ILEN_FULL, ..h1 }, raw);
                    lemma_fetch_and_retire(h1, k);
                    lemma_retire(h2, k);
                    let c = h2.decode->0;
                    assert forall|i: nat| c.entries.dom().contains(#[trigger] pc_at(i)) implies
                        c.entries[pc_at(i)] == decoded_at(i) by {
                        if pc_at(i) == pc_at(k) {
                            assert(index(i) == index(k));
                        }
                    }
                },
            }
        },
    }
}

proof fn lemma_spin_block(h: HartModel, k: nat)
    requires
        k >= 12,
        at_step(h, k),
    ensures
        block_at(h, bus_at(k), pc_at(k), MAX_OPS as nat) == spin_block(),
{
    reveal(lowered);
    lemma_bus(k);
    lemma_fetched(h, bus_at(k), k);
    let raw = 0x6fu32;
    assert(program()[12] == raw);
    assert(Instr(raw).opcode() == opcode::JAL && Instr(raw).rd() == 0);
    assert(Instr(raw).j_imm() == 0);
}

proof fn lemma_spin_block_runs(h: HartModel, k: nat)
    requires
        k >= 12,
        at_step(h, k),
    ensures
        run_ops(h, bus_at(k), spin_block().ops, spin_block().exit_pc, 0) == (
            h,
            bus_at(k),
            Ok::<u64, StepError>(1),
        ),
{
    reveal(run_op);
    assert(h.with_pc(pc_at(k)) == h);
}

proof fn lemma_try_block(h: HartModel, k: nat)
    requires
        at_step(h, k),
        h.blocks is Some,
        blocks_are_true(h, k),
    ensures
        ({
            let (h1, b1, r) = try_block(h, bus_at(k));
            &&& h1 == (HartModel { blocks: h1.blocks, ..h })
            &&& h1.blocks is Some
            &&& blocks_are_true(h1, k + 1)
            &&& b1 == bus_at(k)
            &&& r == Ok::<Option<u64>, StepError>(None) || (k >= 12 && r == Ok::<
                Option<u64>,
                StepError,
            >(Some(1)))
        }),
{
    reveal(try_block);
    let cache = h.blocks->0;
    let (h1, b1, r) = try_block(h, bus_at(k));
    if cache.compiled(h.pc) is Some {
        assert(cache.entries.dom().contains(pc_at(k)));
        lemma_spin_block_runs(
            HartModel { blocks: Some(cache.after_lookup(h.pc)), ..h },
            k,
        );
    } else if cache.heat(h.pc) >= crate::block::HOT_THRESHOLD {
        assert(cache.entries.dom().contains(pc_at(k)));
        lemma_spin_block(h, k);
        let warm = cache.with(h.pc, BlockEntry::Hot(cache.heat(h.pc)));
        let c = warm.with(h.pc, BlockEntry::Compiled(spin_block()));
        lemma_spin_block_runs(HartModel { blocks: Some(c), ..h }, k);
    }
    let c = h1.blocks->0;
    assert forall|i: nat| c.entries.dom().contains(#[trigger] pc_at(i)) implies {
        &&& index(i) < k + 1
        &&& c.compiled(pc_at(i)) matches Some(block) ==> index(i) == 12 && block == spin_block()
    } by {
        if pc_at(i) == pc_at(k) {
            assert(index(i) == index(k));
        } else {
            assert(cache.entries.dom().contains(pc_at(i)));
        }
    }
}

/// A hart that runs the program, whatever its accelerators hold of it.
spec fn steady(h: HartModel, k: nat) -> bool {
    at_step(h, k) && decode_is_true(h) && blocks_are_true(h, k)
}

proof fn lemma_step(h: HartModel, k: nat)
    requires
        steady(h, k),
    ensures
        ({
            let (h1, b1, r) = step(h, bus_at(k));
            &&& steady(h1, k + 1)
            &&& b1 == bus_at(k + 1)
            &&& r == Ok::<HartEffect, StepError>(HartEffect::Retired) || r == Ok::<
                HartEffect,
                StepError,
            >(HartEffect::Block(1))
        }),
{
    reveal(step);
    reveal(run_next);
    reveal(HartModel::pending);
    assert(forall|v: u64| #[trigger] (0u64 & v) == 0) by (bit_vector);
    assert(h.get(addr::SIP) == 0 && h.get(addr::SIE) == 0);
    assert(h.pending() is None);
    if h.blocks is Some {
        lemma_try_block(h, k);
        let (h1, b1, r) = try_block(h, bus_at(k));
        if r == Ok::<Option<u64>, StepError>(None) {
            lemma_interpret(h1, k);
        } else {
            assert(regs_at(k + 1) =~= regs_at(k));
        }
    } else {
        lemma_interpret(h, k);
    }
}

/// Whether the machine is where the program is after `k` steps.
spec fn running(m: MachineState, k: nat) -> bool {
    &&& m.harts.len() == 1
    &&& steady(m.harts[0], k)
    &&& m.bus == bus_at(k)
    &&& m.time == k
    &&& m.profile is None
    &&& !m.native_ops
    &&& m.probe is None
}

proof fn lemma_stepped(m: MachineState, k: nat)
    requires
        k < BUDGET,
        running(m, k),
    ensures
        m.stepped().1 is Ok,
        running(m.stepped().0, k + 1),
{
    reveal(MachineState::stepped);
    reveal(MachineState::round);
    reveal(MachineState::turn);
    reveal(MachineState::entered);
    reveal(MachineState::noted);
    reveal_with_fuel(MachineState::turns, 2);
    lemma_step(HartModel { cycle: m.time, ..m.harts[0] }, k);
}

proof fn lemma_after(m: MachineState, k: nat, n: nat)
    requires
        k + n <= BUDGET,
        running(m, k),
    ensures
        after(m, n).1 is None,
        running(after(m, n).0, k + n),
    decreases n,
{
    if n > 0 {
        lemma_stepped(m, k);
        lemma_after(m.stepped().0, k + 1, (n - 1) as nat);
    }
}

proof fn lemma_run(s: Speedups)
    ensures
        after(loaded(s), BUDGET as nat).1 is None,
        running(after(loaded(s), BUDGET as nat).0, BUDGET as nat),
{
    let m = loaded(s);
    assert(m.harts[0].x =~= regs_at(0));
    assert(running(m, 0));
    lemma_after(m, 0, BUDGET as nat);
}

/// Whatever the accelerators, the probe sees the program through: nothing faults, every step
/// retires one instruction, the registers hold what the program puts there, and one byte comes
/// out of the UART. So it agrees with every expectation.
pub proof fn law_the_probe_sees_the_program_through(p: Probe, s: Speedups)
    requires
        observes(p, s),
    ensures
        p.fault is None,
        p.instret == BUDGET,
        p.regs@ == seq![0u64, 1, WIDE, SCRATCH, WIDE, 1, UART_THR, 0x41],
        p.uart@ == seq![0x41u8],
        disagreement(p) is None,
{
    lemma_run(s);
    lemma_bus(BUDGET as nat);
    assert(p.regs@ =~= seq![0u64, 1, WIDE, SCRATCH, WIDE, 1, UART_THR, 0x41]);
}

/// The accelerators change nothing but speed: two runs, whichever are on in each, give the
/// same probe, state hash and all.
pub proof fn law_accelerators_change_nothing_but_speed(
    p: Probe,
    s: Speedups,
    q: Probe,
    t: Speedups,
)
    requires
        observes(p, s),
        observes(q, t),
    ensures
        p.fault is None && q.fault is None,
        p.instret == q.instret,
        p.regs@ == q.regs@,
        p.uart@ == q.uart@,
        p.state_hash == q.state_hash,
{
    law_the_probe_sees_the_program_through(p, s);
    law_the_probe_sees_the_program_through(q, t);
    lemma_run(s);
    lemma_run(t);
    law_the_state_hash_ignores_toggles(
        after(loaded(s), BUDGET as nat).0,
        after(loaded(t), BUDGET as nat).0,
    );
}

} // verus!
