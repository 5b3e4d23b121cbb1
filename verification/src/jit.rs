//! The native block JIT: lowers the block IR to AArch64 machine code in a code arena, and
//! runs it against a guest register file. A block keeps its guest registers in host
//! registers for its whole run: loaded once at entry, stored once at exit. Blocks with a
//! memory op, an operation that is not emitted, or more registers than the host pool holds
//! are declined, and run on the portable executor instead.

use vstd::prelude::*;
use crate::alu::{to_word, AluOp, Cond};
use crate::block::{ops_wf, Op};
use crate::bytes::push_le;
use self::host::{
    code_bytes, encode, entry_state, executed, hrun, hstep, law_executing_encoded_code_runs_it,
    lemma_code_len, Host, HostCond, HostOp, HostState, Insn, XZR,
};

pub mod correct;
pub mod host;

verus! {

/// The guest register-file pointer during the block, the retired count at return.
pub const REGS: u32 = 0;
/// The resume pc at return.
pub const PC: u32 = 1;
/// Scratch: immediates, targets, the exit pc of a block-ending op.
pub const SA: u32 = 9;
/// Scratch.
pub const SB: u32 = 10;
/// How many host registers there are for guest registers.
pub const POOL_SIZE: usize = 12;

/// The `i`-th host register for guest registers: `x2..x8`, then `x11..x15`.
#[verifier::allow_in_spec]
pub fn pool(i: u32) -> u32
    requires
        i < 12,
    returns
        (if i < 7 {
            (2 + i) as u32
        } else {
            (4 + i) as u32
        }),
{
    if i < 7 {
        2 + i
    } else {
        4 + i
    }
}

/// The host condition that matches a branch condition after a comparison of the two
/// operands (signed conditions use N/V, unsigned use C).
#[verifier::allow_in_spec]
pub fn cond_code(cond: Cond) -> HostCond
    returns
        (match cond {
            Cond::Eq => HostCond::Eq,
            Cond::Ne => HostCond::Ne,
            Cond::Lt => HostCond::Lt,
            Cond::Ge => HostCond::Ge,
            Cond::Ltu => HostCond::Lo,
            Cond::Geu => HostCond::Hs,
        }),
{
    match cond {
        Cond::Eq => HostCond::Eq,
        Cond::Ne => HostCond::Ne,
        Cond::Lt => HostCond::Lt,
        Cond::Ge => HostCond::Ge,
        Cond::Ltu => HostCond::Lo,
        Cond::Geu => HostCond::Hs,
    }
}

/// The host operation for an ALU op that is one register-register instruction, or `None`
/// for one that is not emitted (shifts, set-less-than, the 32-bit forms).
#[verifier::allow_in_spec]
pub fn alu_base(alu: AluOp) -> Option<HostOp>
    returns
        (match alu {
            AluOp::Add => Some(HostOp::Add),
            AluOp::Sub => Some(HostOp::Sub),
            AluOp::And => Some(HostOp::And),
            AluOp::Or => Some(HostOp::Orr),
            AluOp::Xor => Some(HostOp::Eor),
            _ => None::<HostOp>,
        }),
{
    match alu {
        AluOp::Add => Some(HostOp::Add),
        AluOp::Sub => Some(HostOp::Sub),
        AluOp::And => Some(HostOp::And),
        AluOp::Or => Some(HostOp::Orr),
        AluOp::Xor => Some(HostOp::Eor),
        _ => None,
    }
}

// What a block needs.

/// Whether an op reads guest register `g`.
pub open spec fn reads(op: Op, g: int) -> bool {
    match op {
        Op::AluImm { alu, rd, rs1, imm } => rs1 == g,
        Op::AluReg { alu, rd, rs1, rs2 } => rs1 == g || rs2 == g,
        Op::Branch { cond, rs1, rs2, taken, not_taken } => rs1 == g || rs2 == g,
        Op::JumpReg { rd, rs1, imm, link } => rs1 == g,
        _ => false,
    }
}

/// Whether an op writes guest register `g`.
pub open spec fn writes(op: Op, g: int) -> bool {
    match op {
        Op::AluImm { alu, rd, rs1, imm } => rd == g,
        Op::AluReg { alu, rd, rs1, rs2 } => rd == g,
        Op::SetImm { rd, value } => rd == g,
        Op::Jump { rd, link, target } => rd == g,
        Op::JumpReg { rd, rs1, imm, link } => rd == g,
        _ => false,
    }
}

/// Whether native code is emitted for an op.
pub open spec fn emittable(op: Op) -> bool {
    match op {
        Op::AluImm { alu, rd, rs1, imm } => alu_base(alu) is Some,
        Op::AluReg { alu, rd, rs1, rs2 } => alu_base(alu) is Some,
        Op::Load { funct3, rd, rs1, imm, pc } => false,
        Op::Store { funct3, rs1, rs2, imm, pc } => false,
        _ => true,
    }
}

/// Whether an op ends its block.
pub open spec fn ends(op: Op) -> bool {
    op is Branch || op is Jump || op is JumpReg
}

/// Which guest registers the first `n` ops read. `x0` never counts.
pub open spec fn read_set(ops: Seq<Op>, n: int) -> Seq<bool> {
    Seq::new(32, |g: int| g != 0 && exists|i: int| 0 <= i < n && reads(#[trigger] ops[i], g))
}

/// Which guest registers the first `n` ops write.
pub open spec fn dirty_set(ops: Seq<Op>, n: int) -> Seq<bool> {
    Seq::new(32, |g: int| g != 0 && exists|i: int| 0 <= i < n && writes(#[trigger] ops[i], g))
}

/// Which guest registers a block touches.
pub open spec fn used_set(ops: Seq<Op>) -> Seq<bool> {
    Seq::new(
        32,
        |g: int| read_set(ops, ops.len() as int)[g] || dirty_set(ops, ops.len() as int)[g],
    )
}

/// How many of the first `n` guest registers are used.
pub open spec fn rank(used: Seq<bool>, n: int) -> int
    decreases n,
{
    if n <= 0 {
        0
    } else {
        rank(used, n - 1) + if used[n - 1] {
            1int
        } else {
            0
        }
    }
}

/// The host register of guest register `g`: the next free one of the pool, or the zero
/// register where the block does not use `g`.
pub open spec fn host_reg(used: Seq<bool>, g: int) -> u32 {
    if used[g] {
        pool(rank(used, g) as u32)
    } else {
        XZR
    }
}

/// The host register of every guest register.
pub open spec fn host_map(used: Seq<bool>) -> Seq<u32> {
    Seq::new(32, |g: int| host_reg(used, g))
}

// The code of a block.

/// Materialise a 64-bit constant: a `movz` for the low lane, a `movk` per higher one.
pub open spec fn imm_code(xd: u32, v: u64) -> Seq<Insn> {
    seq![
        Insn::Movz { xd, imm: (v % 0x1_0000) as u16 },
        Insn::Movk { xd, imm: (v / 0x1_0000 % 0x1_0000) as u16, hw: 1 },
        Insn::Movk { xd, imm: (v / 0x1_0000_0000 % 0x1_0000) as u16, hw: 2 },
        Insn::Movk { xd, imm: (v / 0x1_0000_0000_0000) as u16, hw: 3 },
    ]
}

/// The code of one op over the host registers `m`. A block-ending op leaves the exit pc in
/// [`SA`].
pub open spec fn op_code(m: Seq<u32>, op: Op) -> Seq<Insn> {
    match op {
        Op::SetImm { rd, value } => if rd == 0 {
            Seq::empty()
        } else {
            imm_code(m[rd as int], value)
        },
        Op::AluImm { alu, rd, rs1, imm } => if rd == 0 {
            Seq::empty()
        } else {
            imm_code(SA, to_word(imm)) + seq![
                Insn::Alu {
                    op: alu_base(alu)->0,
                    xd: m[rd as int],
                    xn: m[rs1 as int],
                    xm: SA,
                },
            ]
        },
        Op::AluReg { alu, rd, rs1, rs2 } => if rd == 0 {
            Seq::empty()
        } else {
            seq![
                Insn::Alu {
                    op: alu_base(alu)->0,
                    xd: m[rd as int],
                    xn: m[rs1 as int],
                    xm: m[rs2 as int],
                },
            ]
        },
        Op::Branch { cond, rs1, rs2, taken, not_taken } => seq![
            Insn::Cmp { xn: m[rs1 as int], xm: m[rs2 as int] },
        ] + imm_code(SA, taken) + imm_code(SB, not_taken) + seq![
            Insn::Csel { xd: SA, xn: SA, xm: SB, cond: cond_code(cond) },
        ],
        Op::Jump { rd, link, target } => (if rd == 0 {
            Seq::empty()
        } else {
            imm_code(m[rd as int], link)
        }) + imm_code(SA, target),
        Op::JumpReg { rd, rs1, imm, link } => imm_code(SB, to_word(imm)) + seq![
            Insn::Alu { op: HostOp::Add, xd: SA, xn: m[rs1 as int], xm: SB },
        ] + imm_code(SB, 0xffff_ffff_ffff_fffe) + seq![
            Insn::Alu { op: HostOp::And, xd: SA, xn: SA, xm: SB },
        ] + (if rd == 0 {
            Seq::empty()
        } else {
            imm_code(m[rd as int], link)
        }),
        Op::Load { funct3, rd, rs1, imm, pc } => Seq::empty(),
        Op::Store { funct3, rs1, rs2, imm, pc } => Seq::empty(),
    }
}

/// The code of the first `n` ops.
pub open spec fn body_code(m: Seq<u32>, ops: Seq<Op>, n: int) -> Seq<Insn>
    decreases n,
{
    if n <= 0 {
        Seq::empty()
    } else {
        body_code(m, ops, n - 1) + op_code(m, ops[n - 1])
    }
}

/// How many ops run: up to the first that ends the block.
pub open spec fn live(ops: Seq<Op>, from: int) -> int
    decreases ops.len() - from,
{
    if from < 0 || from >= ops.len() {
        from
    } else if ends(ops[from]) {
        from + 1
    } else {
        live(ops, from + 1)
    }
}

/// Load those of the first `n` guest registers that are read.
pub open spec fn prologue_code(m: Seq<u32>, read: Seq<bool>, n: int) -> Seq<Insn>
    decreases n,
{
    if n <= 0 {
        Seq::empty()
    } else if read[n - 1] {
        prologue_code(m, read, n - 1).push(
            Insn::Ldr { xt: m[n - 1], xn: REGS, slot: (n - 1) as u32 },
        )
    } else {
        prologue_code(m, read, n - 1)
    }
}

/// Store those of the first `n` guest registers that were written.
pub open spec fn epilogue_code(m: Seq<u32>, dirty: Seq<bool>, n: int) -> Seq<Insn>
    decreases n,
{
    if n <= 0 {
        Seq::empty()
    } else if dirty[n - 1] {
        epilogue_code(m, dirty, n - 1).push(
            Insn::Store { xt: m[n - 1], xn: REGS, slot: (n - 1) as u32 },
        )
    } else {
        epilogue_code(m, dirty, n - 1)
    }
}

/// Return the retired count and the resume pc: what the block-ending op left in [`SA`], or
/// the fall-through address.
pub open spec fn tail_code(retired: u16, ended: bool, exit_pc: u64) -> Seq<Insn> {
    seq![Insn::Movz { xd: REGS, imm: retired }] + (if ended {
        seq![Insn::Alu { op: HostOp::Orr, xd: PC, xn: XZR, xm: SA }]
    } else {
        imm_code(PC, exit_pc)
    }) + seq![Insn::Ret]
}

/// Whether one of the ops ends the block.
pub open spec fn ended(ops: Seq<Op>) -> bool {
    exists|i: int| 0 <= i < ops.len() && ends(#[trigger] ops[i])
}

/// Whether a block can be lowered.
pub open spec fn compilable(ops: Seq<Op>) -> bool {
    &&& ops.len() <= 0xffff
    &&& forall|i: int| 0 <= i < ops.len() ==> emittable(#[trigger] ops[i])
    &&& rank(used_set(ops), 32) <= POOL_SIZE
}

/// The native code of a block.
pub open spec fn block_code(ops: Seq<Op>, exit_pc: u64) -> Seq<Insn> {
    let m = host_map(used_set(ops));
    let n = ops.len() as int;
    prologue_code(m, read_set(ops, n), 32) + body_code(m, ops, live(ops, 0)) + epilogue_code(
        m,
        dirty_set(ops, n),
        32,
    ) + tail_code(ops.len() as u16, ended(ops), exit_pc)
}

/// A growable buffer of machine code: a tiny assembler. Each method appends one
/// instruction.
pub struct Code {
    bytes: Vec<u8>,
    trace: Ghost<Seq<Insn>>,
}

impl View for Code {
    type V = Seq<Insn>;

    closed spec fn view(&self) -> Seq<Insn> {
        self.trace@
    }
}

impl Code {
    /// The buffer holds the encodings of the instructions it was given, all well-formed.
    pub closed spec fn wf(self) -> bool {
        &&& self.bytes@ == code_bytes(self.trace@)
        &&& forall|k: int| 0 <= k < self.trace@.len() ==> (#[trigger] self.trace@[k]).wf()
    }

    pub fn new() -> (r: Self)
        ensures
            r.wf(),
            r@ == Seq::<Insn>::empty(),
    {
        let r = Code { bytes: Vec::new(), trace: Ghost(Seq::empty()) };
        proof {
            assert(r.bytes@ =~= code_bytes(r.trace@));
        }
        r
    }

    pub fn bytes(&self) -> (r: &[u8])
        requires
            self.wf(),
        ensures
            r@ == code_bytes(self@),
            forall|k: int| 0 <= k < self@.len() ==> (#[trigger] self@[k]).wf(),
    {
        self.bytes.as_slice()
    }

    /// Append one 32-bit instruction, little-endian.
    pub fn emit(&mut self, insn: Insn)
        requires
            old(self).wf(),
            insn.wf(),
        ensures
            final(self).wf(),
            final(self)@ == old(self)@.push(insn),
    {
        let w: u32 = encode(insn);
        push_le(&mut self.bytes, w as u64, 4);
        proof {
            let t = self.trace@.push(insn);
            assert(t.drop_last() =~= self.trace@);
            self.trace@ = t;
        }
    }

    /// `movz Xd, #imm16`: load a 16-bit immediate, zeroing the rest.
    pub fn movz(&mut self, xd: u32, imm16: u16)
        requires
            old(self).wf(),
            xd < 32,
        ensures
            final(self).wf(),
            final(self)@ == old(self)@.push(Insn::Movz { xd, imm: imm16 }),
    {
        self.emit(Insn::Movz { xd, imm: imm16 });
    }

    /// `add Xd, Xn, Xm`.
    pub fn add(&mut self, xd: u32, xn: u32, xm: u32)
        requires
            old(self).wf(),
            xd < 32,
            xn < 32,
            xm < 32,
        ensures
            final(self).wf(),
            final(self)@ == old(self)@.push(Insn::Alu { op: HostOp::Add, xd, xn, xm }),
    {
        self.emit(Insn::Alu { op: HostOp::Add, xd, xn, xm });
    }

    /// `ret`.
    pub fn ret(&mut self)
        requires
            old(self).wf(),
        ensures
            final(self).wf(),
            final(self)@ == old(self)@.push(Insn::Ret),
    {
        self.emit(Insn::Ret);
    }

    /// `movz` for the low lane, then a `movk` per higher lane.
    pub fn mov_imm64(&mut self, xd: u32, value: u64)
        requires
            old(self).wf(),
            xd < 32,
        ensures
            final(self).wf(),
            final(self)@ == old(self)@ + imm_code(xd, value),
    {
        self.emit(Insn::Movz { xd, imm: (value % 0x1_0000) as u16 });
        self.emit(Insn::Movk { xd, imm: (value / 0x1_0000 % 0x1_0000) as u16, hw: 1 });
        self.emit(Insn::Movk { xd, imm: (value / 0x1_0000_0000 % 0x1_0000) as u16, hw: 2 });
        self.emit(Insn::Movk { xd, imm: (value / 0x1_0000_0000_0000) as u16, hw: 3 });
        proof {
            assert(self@ =~= old(self)@ + imm_code(xd, value));
        }
    }

    /// The code of one op over the host registers `m`.
    fn op(&mut self, m: &[u32; 32], op: Op)
        requires
            old(self).wf(),
            op.wf(),
            emittable(op),
            forall|g: int| 0 <= g < 32 ==> (#[trigger] m@[g]) < 32,
        ensures
            final(self).wf(),
            final(self)@ == old(self)@ + op_code(m@, op),
    {
        match op {
            Op::SetImm { rd, value } => {
                if rd != 0 {
                    self.mov_imm64(m[rd as usize], value);
                }
            },
            Op::AluImm { alu, rd, rs1, imm } => {
                if rd != 0 {
                    match alu_base(alu) {
                        Some(base) => {
                            self.mov_imm64(SA, to_word(imm));
                            self.emit(
                                Insn::Alu {
                                    op: base,
                                    xd: m[rd as usize],
                                    xn: m[rs1 as usize],
                                    xm: SA,
                                },
                            );
                        },
                        None => {},
                    }
                }
            },
            Op::AluReg { alu, rd, rs1, rs2 } => {
                if rd != 0 {
                    match alu_base(alu) {
                        Some(base) => {
                            self.emit(
                                Insn::Alu {
                                    op: base,
                                    xd: m[rd as usize],
                                    xn: m[rs1 as usize],
                                    xm: m[rs2 as usize],
                                },
                            );
                        },
                        None => {},
                    }
                }
            },
            Op::Branch { cond, rs1, rs2, taken, not_taken } => {
                self.emit(Insn::Cmp { xn: m[rs1 as usize], xm: m[rs2 as usize] });
                self.mov_imm64(SA, taken);
                self.mov_imm64(SB, not_taken);
                self.emit(Insn::Csel { xd: SA, xn: SA, xm: SB, cond: cond_code(cond) });
            },
            Op::Jump { rd, link, target } => {
                if rd != 0 {
                    self.mov_imm64(m[rd as usize], link);
                }
                self.mov_imm64(SA, target);
            },
            Op::JumpReg { rd, rs1, imm, link } => {
                // The target is computed before rd is written: they may be the same.
                self.mov_imm64(SB, to_word(imm));
                self.emit(Insn::Alu { op: HostOp::Add, xd: SA, xn: m[rs1 as usize], xm: SB });
                self.mov_imm64(SB, 0xffff_ffff_ffff_fffe);
                self.emit(Insn::Alu { op: HostOp::And, xd: SA, xn: SA, xm: SB });
                if rd != 0 {
                    self.mov_imm64(m[rd as usize], link);
                }
            },
            _ => {},
        }
        proof {
            assert(self@ =~= old(self)@ + op_code(m@, op));
        }
    }
}

/// Which guest registers the ops read and write, or `None` where one is not emitted.
fn scan(ops: &[Op]) -> (r: Option<([bool; 32], [bool; 32])>)
    requires
        ops_wf(ops@),
    ensures
        r is Some <==> forall|i: int| 0 <= i < ops@.len() ==> emittable(#[trigger] ops@[i]),
        r is Some ==> (r->0).0@ == read_set(ops@, ops@.len() as int) && (r->0).1@ == dirty_set(
            ops@,
            ops@.len() as int,
        ),
{
    let mut read: [bool; 32] = [false;32];
    let mut dirty: [bool; 32] = [false;32];
    let mut i: usize = 0;
    proof {
        assert(read@ =~= read_set(ops@, 0));
        assert(dirty@ =~= dirty_set(ops@, 0));
    }
    while i < ops.len()
        invariant
            i <= ops@.len(),
            ops_wf(ops@),
            forall|k: int| 0 <= k < i ==> emittable(#[trigger] ops@[k]),
            read@ == read_set(ops@, i as int),
            dirty@ == dirty_set(ops@, i as int),
        decreases ops@.len() - i,
    {
        let op: Op = ops[i];
        let ghost r0 = read@;
        let ghost d0 = dirty@;
        proof {
            assert(ops@[i as int].wf());
        }
        match op {
            Op::SetImm { rd, value } => {
                mark(&mut dirty, rd);
            },
            Op::Jump { rd, link, target } => {
                mark(&mut dirty, rd);
            },
            Op::AluImm { alu, rd, rs1, imm } => {
                if alu_base(alu).is_none() {
                    proof {
                        assert(!emittable(ops@[i as int]));
                    }
                    return None;
                }
                mark(&mut read, rs1);
                mark(&mut dirty, rd);
            },
            Op::AluReg { alu, rd, rs1, rs2 } => {
                if alu_base(alu).is_none() {
                    proof {
                        assert(!emittable(ops@[i as int]));
                    }
                    return None;
                }
                mark(&mut read, rs1);
                mark(&mut read, rs2);
                mark(&mut dirty, rd);
            },
            Op::Branch { cond, rs1, rs2, taken, not_taken } => {
                mark(&mut read, rs1);
                mark(&mut read, rs2);
            },
            Op::JumpReg { rd, rs1, imm, link } => {
                mark(&mut read, rs1);
                mark(&mut dirty, rd);
            },
            _ => {
                proof {
                    assert(!emittable(ops@[i as int]));
                }
                return None;
            },
        }
        proof {
            lemma_sets_grow(ops@, i as int);
            assert(read@ =~= read_set(ops@, i + 1));
            assert(dirty@ =~= dirty_set(ops@, i + 1));
        }
        i += 1;
    }
    Some((read, dirty))
}

/// One more op adds the registers it names.
pub proof fn lemma_sets_grow(ops: Seq<Op>, n: int)
    requires
        0 <= n < ops.len(),
    ensures
        forall|g: int|
            0 <= g < 32 ==> #[trigger] read_set(ops, n + 1)[g] == (read_set(ops, n)[g] || (g != 0
                && reads(ops[n], g))),
        forall|g: int|
            0 <= g < 32 ==> #[trigger] dirty_set(ops, n + 1)[g] == (dirty_set(ops, n)[g] || (g != 0
                && writes(ops[n], g))),
{
    assert forall|g: int| 0 <= g < 32 implies #[trigger] read_set(ops, n + 1)[g] == (read_set(
        ops,
        n,
    )[g] || (g != 0 && reads(ops[n], g))) by {
        if g != 0 && reads(ops[n], g) {
            assert(0 <= n < n + 1 && reads(ops[n], g));
        }
        if read_set(ops, n)[g] {
            let i = choose|i: int| 0 <= i < n && reads(#[trigger] ops[i], g);
            assert(0 <= i < n + 1 && reads(ops[i], g));
        }
    }
    assert forall|g: int| 0 <= g < 32 implies #[trigger] dirty_set(ops, n + 1)[g] == (dirty_set(
        ops,
        n,
    )[g] || (g != 0 && writes(ops[n], g))) by {
        if g != 0 && writes(ops[n], g) {
            assert(0 <= n < n + 1 && writes(ops[n], g));
        }
        if dirty_set(ops, n)[g] {
            let i = choose|i: int| 0 <= i < n && writes(#[trigger] ops[i], g);
            assert(0 <= i < n + 1 && writes(ops[i], g));
        }
    }
}

/// Mark register `r`, unless it is `x0`.
fn mark(set: &mut [bool; 32], r: u8)
    requires
        r < 32,
    ensures
        final(set)@ == if r == 0 {
            old(set)@
        } else {
            old(set)@.update(r as int, true)
        },
{
    if r != 0 {
        set[r as usize] = true;
    }
}

/// Assign a host register to every used guest register, or `None` where there are more
/// than the pool holds.
fn allocate(used: &[bool; 32]) -> (r: Option<[u32; 32]>)
    ensures
        r is Some <==> rank(used@, 32) <= POOL_SIZE,
        r is Some ==> (r->0)@ == host_map(used@) && forall|g: int|
            0 <= g < 32 ==> (#[trigger] (r->0)@[g]) < 32,
{
    let mut m: [u32; 32] = [XZR;32];
    let mut next: u32 = 0;
    let mut g: usize = 0;
    while g < 32
        invariant
            g <= 32,
            next <= POOL_SIZE,
            next == rank(used@, g as int),
            forall|k: int| 0 <= k < g ==> m@[k] == host_reg(used@, k) && m@[k] < 32,
            forall|k: int| g <= k < 32 ==> m@[k] == XZR,
        decreases 32 - g,
    {
        if used[g] {
            if next >= 12 {
                proof {
                    lemma_rank_grows(used@, g + 1, 32);
                }
                return None;
            }
            m[g] = pool(next);
            next += 1;
        }
        g += 1;
    }
    proof {
        assert(m@ =~= host_map(used@));
    }
    Some(m)
}

proof fn lemma_rank_grows(used: Seq<bool>, a: int, b: int)
    requires
        0 <= a <= b,
    ensures
        0 <= rank(used, a) <= rank(used, b),
    decreases b,
{
    if a < b {
        lemma_rank_grows(used, a, b - 1);
    } else if a > 0 {
        lemma_rank_grows(used, a - 1, a - 1);
    }
}

// The arena.

/// The size of a chunk of the arena: blocks are a few hundred bytes, so one holds thousands.
pub const CHUNK_BYTES: usize = 0x10_0000;
/// Chunks are whole pages.
pub const PAGE_BYTES: usize = 0x4000;

/// One region of code memory, filled from the start.
struct Chunk {
    bytes: Vec<u8>,
    cap: usize,
}

/// A growable arena of code memory that compiled blocks are bump-allocated into.
pub struct CodeArena {
    chunks: Vec<Chunk>,
}

/// Where a piece of code is in an arena.
#[derive(Debug, Clone, Copy, PartialEq, Eq, Structural)]
pub struct Entry {
    pub chunk: usize,
    pub at: usize,
}

impl View for CodeArena {
    type V = Seq<Seq<u8>>;

    closed spec fn view(&self) -> Seq<Seq<u8>> {
        Seq::new(self.chunks@.len(), |i: int| self.chunks@[i].bytes@)
    }
}

/// Whether `code` stands in the arena at `entry`.
pub open spec fn holds(arena: Seq<Seq<u8>>, entry: Entry, code: Seq<u8>) -> bool {
    &&& entry.chunk < arena.len()
    &&& entry.at + code.len() <= arena[entry.chunk as int].len()
    &&& arena[entry.chunk as int].subrange(entry.at as int, entry.at + code.len()) == code
}

/// Whether everything in `before` is still in place in `after`.
pub open spec fn extends(before: Seq<Seq<u8>>, after: Seq<Seq<u8>>) -> bool {
    &&& before.len() <= after.len()
    &&& forall|i: int|
        0 <= i < before.len() ==> (#[trigger] before[i]).is_prefix_of(after[i])
}

impl CodeArena {
    /// No chunk holds more than its capacity.
    pub closed spec fn wf(self) -> bool {
        forall|i: int|
            0 <= i < self.chunks@.len() ==> (#[trigger] self.chunks@[i]).bytes@.len()
                <= self.chunks@[i].cap
    }

    pub fn new() -> (r: Self)
        ensures
            r.wf(),
            r@ == Seq::<Seq<u8>>::empty(),
    {
        let r = CodeArena { chunks: Vec::new() };
        proof {
            assert(r@ =~= Seq::<Seq<u8>>::empty());
        }
        r
    }

    /// Copy `code` into the arena and return where it is. Takes a fresh chunk when the
    /// current one cannot fit it. What is there already stays in place.
    pub fn install(&mut self, code: &[u8]) -> (r: Entry)
        requires
            old(self).wf(),
            code@.len() <= usize::MAX - PAGE_BYTES,
        ensures
            final(self).wf(),
            holds(final(self)@, r, code@),
            extends(old(self)@, final(self)@),
    {
        let need: usize = code.len();
        let n: usize = self.chunks.len();
        let fits: bool = if n == 0 {
            false
        } else {
            let last: &Chunk = &self.chunks[n - 1];
            proof {
                assert(self.chunks@[n - 1].bytes@.len() <= self.chunks@[n - 1].cap);
            }
            last.cap - last.bytes.len() >= need
        };
        if !fits {
            let want: usize = if need > CHUNK_BYTES {
                need
            } else {
                CHUNK_BYTES
            };
            let cap: usize = (want + (PAGE_BYTES - 1)) / PAGE_BYTES * PAGE_BYTES;
            proof {
                assert(cap >= want);
            }
            self.chunks.push(Chunk { bytes: Vec::new(), cap });
        }
        let ghost mid = self.chunks@;
        let k: usize = self.chunks.len() - 1;
        let at: usize = self.chunks[k].bytes.len();
        self.chunks[k].bytes.extend_from_slice(code);
        proof {
            let after = self.chunks@;
            assert(after[k as int].bytes@ =~= mid[k as int].bytes@ + code@);
            assert forall|i: int| 0 <= i < after.len() implies (#[trigger] after[i]).bytes@.len()
                <= after[i].cap by {
                if i != k {
                    assert(after[i] == mid[i]);
                }
            }
            assert(self@[k as int].subrange(at as int, at + code@.len()) =~= code@);
            assert forall|i: int| 0 <= i < old(self)@.len() implies (
            #[trigger] old(self)@[i]).is_prefix_of(self@[i]) by {
                assert(mid[i] == old(self).chunks@[i]);
                if i != k {
                    assert(after[i] == mid[i]);
                }
            }
        }
        Entry { chunk: k, at }
    }

    /// Rewind every chunk to empty, keeping the chunks for reuse.
    pub fn reset(&mut self)
        requires
            old(self).wf(),
        ensures
            final(self).wf(),
            final(self)@ == Seq::new(old(self)@.len(), |i: int| Seq::<u8>::empty()),
    {
        let mut i: usize = 0;
        let ghost before = self.chunks@;
        while i < self.chunks.len()
            invariant
                self.chunks@.len() == before.len(),
                i <= before.len(),
                forall|j: int|
                    0 <= j < i ==> (#[trigger] self.chunks@[j]).bytes@ == Seq::<u8>::empty(),
            decreases before.len() - i,
        {
            self.chunks[i].bytes.clear();
            proof {
                assert(self.chunks@[i as int].bytes@ =~= Seq::<u8>::empty());
            }
            i += 1;
        }
        proof {
            assert(self@ =~= Seq::new(old(self)@.len(), |i: int| Seq::<u8>::empty()));
        }
    }
}

/// What a native block returns: the instructions it retired and the pc to resume at.
#[derive(Debug, Clone, Copy, PartialEq, Eq, Structural)]
pub struct NativeExit {
    pub retired: u64,
    pub pc: u64,
}

/// A block lowered to native code: where it is in its arena.
#[derive(Debug, Clone, Copy, PartialEq, Eq, Structural)]
pub struct NativeBlock {
    pub entry: Entry,
}

impl NativeBlock {
    /// Lower a block into `arena`, its guest registers staying in host registers for the
    /// whole block. `None` if an op is not lowerable, or the block touches more guest
    /// registers than the host pool holds.
    pub fn compile_into(ops: &[Op], exit_pc: u64, arena: &mut CodeArena) -> (r: Option<Self>)
        requires
            old(arena).wf(),
            ops_wf(ops@),
        ensures
            final(arena).wf(),
            extends(old(arena)@, final(arena)@),
            r is Some <==> compilable(ops@),
            r is Some ==> holds(
                final(arena)@,
                (r->0).entry,
                code_bytes(block_code(ops@, exit_pc)),
            ),
            r is None ==> final(arena)@ == old(arena)@,
    {
        proof {
            lemma_extends_self(arena@);
        }
        // Blocks are length-capped.
        if ops.len() > 0xffff {
            return None;
        }
        let retired: u16 = ops.len() as u16;
        // Which guest registers are read (loaded at entry) and written (stored at exit).
        let (read, dirty): ([bool; 32], [bool; 32]) = match scan(ops) {
            Some(sets) => sets,
            None => {
                return None;
            },
        };
        let used: [bool; 32] = union(&read, &dirty);
        proof {
            assert(used@ =~= used_set(ops@));
        }
        let m: [u32; 32] = match allocate(&used) {
            Some(m) => m,
            None => {
                return None;
            },
        };
        let mut code: Code = Code::new();
        emit_prologue(&mut code, &m, &read);
        let over: bool = emit_body(&mut code, &m, ops);
        emit_epilogue(&mut code, &m, &dirty);
        let ghost before_tail = code@;
        code.movz(REGS, retired);
        if over {
            code.emit(Insn::Alu { op: HostOp::Orr, xd: PC, xn: XZR, xm: SA });
        } else {
            code.mov_imm64(PC, exit_pc);
        }
        code.ret();
        proof {
            assert(code@ =~= before_tail + tail_code(retired, over, exit_pc));
            assert(code@ =~= block_code(ops@, exit_pc));
            lemma_code_len(code@);
            lemma_block_code_len(ops@, exit_pc);
        }
        Some(NativeBlock { entry: arena.install(code.bytes()) })
    }

    /// Execute the block against `regs`, returning the retired count and resume pc.
    pub fn run(&self, arena: &CodeArena, regs: &mut [u64; 32]) -> (r: Option<NativeExit>)
        requires
            self.entry.chunk < arena@.len(),
        ensures
            match executed(
                arena@[self.entry.chunk as int],
                self.entry.at as int,
                entry_state(old(regs)@),
            ) {
                Some(s) => final(regs)@ == s.mem && r == Some(
                    NativeExit { retired: s.x[REGS as int], pc: s.x[PC as int] },
                ),
                None => r is None && final(regs)@ == old(regs)@,
            },
    {
        let mut host: Host = Host::new(*regs);
        let code: &[u8] = arena.chunks[self.entry.chunk].bytes.as_slice();
        if !host.call(code, self.entry.at) {
            return None;
        }
        *regs = host.memory();
        Some(NativeExit { retired: host.get(REGS), pc: host.get(PC) })
    }
}

/// An op takes at most 14 instructions, so a block's code is a few megabytes at most.
proof fn lemma_block_code_len(ops: Seq<Op>, exit_pc: u64)
    requires
        ops.len() <= 0xffff,
    ensures
        block_code(ops, exit_pc).len() <= 14 * 0xffff + 80,
{
    let m = host_map(used_set(ops));
    lemma_live_bounds(ops, 0);
    lemma_body_len(m, ops, live(ops, 0));
    lemma_frame_len(m, read_set(ops, ops.len() as int), 32);
    lemma_frame_len(m, dirty_set(ops, ops.len() as int), 32);
}

proof fn lemma_body_len(m: Seq<u32>, ops: Seq<Op>, n: int)
    requires
        0 <= n,
    ensures
        body_code(m, ops, n).len() <= 14 * n,
    decreases n,
{
    if n > 0 {
        lemma_body_len(m, ops, n - 1);
    }
}

proof fn lemma_frame_len(m: Seq<u32>, set: Seq<bool>, n: int)
    requires
        0 <= n,
    ensures
        prologue_code(m, set, n).len() <= n,
        epilogue_code(m, set, n).len() <= n,
    decreases n,
{
    if n > 0 {
        lemma_frame_len(m, set, n - 1);
    }
}

proof fn lemma_live_bounds(ops: Seq<Op>, from: int)
    requires
        0 <= from <= ops.len(),
    ensures
        from <= live(ops, from) <= ops.len(),
    decreases ops.len() - from,
{
    if from < ops.len() && !ends(ops[from]) {
        lemma_live_bounds(ops, from + 1);
    }
}

proof fn lemma_extends_self(a: Seq<Seq<u8>>)
    ensures
        extends(a, a),
{
    assert forall|i: int| 0 <= i < a.len() implies (#[trigger] a[i]).is_prefix_of(a[i]) by {
        assert(a[i].subrange(0, a[i].len() as int) =~= a[i]);
    }
}

/// The registers in either set.
fn union(a: &[bool; 32], b: &[bool; 32]) -> (r: [bool; 32])
    ensures
        r@ == Seq::new(32, |g: int| a@[g] || b@[g]),
{
    let mut r: [bool; 32] = [false;32];
    let mut g: usize = 0;
    while g < 32
        invariant
            g <= 32,
            forall|k: int| 0 <= k < g ==> r@[k] == (a@[k] || b@[k]),
        decreases 32 - g,
    {
        r[g] = a[g] || b[g];
        g += 1;
    }
    proof {
        assert(r@ =~= Seq::new(32, |g: int| a@[g] || b@[g]));
    }
    r
}

/// Load each read guest register into its host register.
fn emit_prologue(code: &mut Code, m: &[u32; 32], read: &[bool; 32])
    requires
        old(code).wf(),
        forall|g: int| 0 <= g < 32 ==> (#[trigger] m@[g]) < 32,
    ensures
        final(code).wf(),
        final(code)@ == old(code)@ + prologue_code(m@, read@, 32),
{
    let ghost before = code@;
    let mut g: usize = 0;
    proof {
        assert(code@ =~= before + prologue_code(m@, read@, 0));
    }
    while g < 32
        invariant
            g <= 32,
            code.wf(),
            forall|k: int| 0 <= k < 32 ==> (#[trigger] m@[k]) < 32,
            code@ == before + prologue_code(m@, read@, g as int),
        decreases 32 - g,
    {
        if read[g] {
            code.emit(Insn::Ldr { xt: m[g], xn: REGS, slot: g as u32 });
        }
        g += 1;
        proof {
            assert(code@ =~= before + prologue_code(m@, read@, g as int));
        }
    }
}

/// Store each written guest register back.
fn emit_epilogue(code: &mut Code, m: &[u32; 32], dirty: &[bool; 32])
    requires
        old(code).wf(),
        forall|g: int| 0 <= g < 32 ==> (#[trigger] m@[g]) < 32,
    ensures
        final(code).wf(),
        final(code)@ == old(code)@ + epilogue_code(m@, dirty@, 32),
{
    let ghost before = code@;
    let mut g: usize = 0;
    proof {
        assert(code@ =~= before + epilogue_code(m@, dirty@, 0));
    }
    while g < 32
        invariant
            g <= 32,
            code.wf(),
            forall|k: int| 0 <= k < 32 ==> (#[trigger] m@[k]) < 32,
            code@ == before + epilogue_code(m@, dirty@, g as int),
        decreases 32 - g,
    {
        if dirty[g] {
            code.emit(Insn::Store { xt: m[g], xn: REGS, slot: g as u32 });
        }
        g += 1;
        proof {
            assert(code@ =~= before + epilogue_code(m@, dirty@, g as int));
        }
    }
}

/// The ops up to the first that ends the block: whether one did.
fn emit_body(code: &mut Code, m: &[u32; 32], ops: &[Op]) -> (over: bool)
    requires
        old(code).wf(),
        ops_wf(ops@),
        forall|i: int| 0 <= i < ops@.len() ==> emittable(#[trigger] ops@[i]),
        forall|g: int| 0 <= g < 32 ==> (#[trigger] m@[g]) < 32,
    ensures
        final(code).wf(),
        final(code)@ == old(code)@ + body_code(m@, ops@, live(ops@, 0)),
        over == ended(ops@),
{
    let ghost before = code@;
    let mut i: usize = 0;
    proof {
        assert(code@ =~= before + body_code(m@, ops@, 0));
    }
    while i < ops.len()
        invariant
            i <= ops@.len(),
            code.wf(),
            before == old(code)@,
            ops_wf(ops@),
            forall|k: int| 0 <= k < ops@.len() ==> emittable(#[trigger] ops@[k]),
            forall|k: int| 0 <= k < 32 ==> (#[trigger] m@[k]) < 32,
            forall|k: int| 0 <= k < i ==> !ends(#[trigger] ops@[k]),
            live(ops@, 0) == live(ops@, i as int),
            code@ == before + body_code(m@, ops@, i as int),
        decreases ops@.len() - i,
    {
        let op: Op = ops[i];
        proof {
            assert(ops@[i as int].wf());
            assert(emittable(ops@[i as int]));
        }
        code.op(m, op);
        i += 1;
        proof {
            assert(code@ =~= before + body_code(m@, ops@, i as int));
        }
        let stop: bool = match op {
            Op::Branch { .. } => true,
            Op::Jump { .. } => true,
            Op::JumpReg { .. } => true,
            _ => false,
        };
        if stop {
            proof {
                assert(ends(ops@[i - 1]));
            }
            return true;
        }
    }
    false
}

/// Direct-mapped native-cache slots, indexed by `pc / 2`.
pub const NATIVE_SLOTS: usize = 4096;

/// One direct-mapped slot: the epoch it was written in, its entry pc, what came of compiling
/// it (`None` for a block that was declined), and the block it was compiled from.
struct NativeSlot {
    epoch: u64,
    tag: u64,
    result: Option<NativeBlock>,
    source: Ghost<(Seq<Op>, u64)>,
}

/// A per-hart cache of compiled native blocks, direct-mapped by entry pc. Filled lazily;
/// emptied with the block cache, by an epoch bump and an arena rewind.
pub struct NativeCache {
    epoch: u64,
    slots: Vec<NativeSlot>,
    arena: CodeArena,
}

/// The slot of `pc`.
pub open spec fn native_slot(pc: u64) -> int {
    pc as int / 2 % NATIVE_SLOTS as int
}

/// What running the native code of a block does to a register file: the new file and the
/// exit, or `None` where the block is declined.
pub open spec fn native_result(ops: Seq<Op>, exit_pc: u64, regs: Seq<u64>) -> Option<
    (Seq<u64>, NativeExit),
> {
    if compilable(ops) {
        let s = hrun(entry_state(regs), block_code(ops, exit_pc));
        Some((s.mem, NativeExit { retired: s.x[REGS as int], pc: s.x[PC as int] }))
    } else {
        None
    }
}

impl View for NativeCache {
    type V = Map<u64, (Seq<Op>, u64)>;

    /// The block each live entry was compiled from, by pc.
    closed spec fn view(&self) -> Map<u64, (Seq<Op>, u64)> {
        Map::new(
            |pc: u64|
                self.slots@[native_slot(pc)].epoch == self.epoch && self.slots@[native_slot(pc)].tag
                    == pc,
            |pc: u64| self.slots@[native_slot(pc)].source@,
        )
    }
}

/// The entries with `pc`'s replaced; whatever shared its slot is gone.
pub open spec fn with_entry(
    entries: Map<u64, (Seq<Op>, u64)>,
    pc: u64,
    source: (Seq<Op>, u64),
) -> Map<u64, (Seq<Op>, u64)> {
    Map::new(
        |q: u64| q == pc || (entries.dom().contains(q) && native_slot(q) != native_slot(pc)),
        |q: u64|
            if q == pc {
                source
            } else {
                entries[q]
            },
    )
}

/// As many empty slots as the cache has.
fn empty_slots() -> (slots: Vec<NativeSlot>)
    ensures
        slots@.len() == NATIVE_SLOTS,
        forall|j: int|
            0 <= j < NATIVE_SLOTS ==> (#[trigger] slots@[j]).epoch == 0 && slots@[j].result is None,
{
    let mut slots: Vec<NativeSlot> = Vec::with_capacity(NATIVE_SLOTS);
    while slots.len() < NATIVE_SLOTS
        invariant
            slots@.len() <= NATIVE_SLOTS,
            forall|j: int|
                0 <= j < slots@.len() ==> (#[trigger] slots@[j]).epoch == 0 && slots@[j].result
                    is None,
        decreases NATIVE_SLOTS - slots.len(),
    {
        slots.push(
            NativeSlot {
                epoch: 0,
                tag: 0,
                result: None,
                source: Ghost((Seq::empty(), 0)),
            },
        );
    }
    slots
}

impl NativeCache {
    /// A live slot holds the code of the block it was compiled from, or nothing where that
    /// block is declined.
    pub closed spec fn wf(self) -> bool {
        &&& self.slots@.len() == NATIVE_SLOTS
        &&& self.epoch >= 1
        &&& self.arena.wf()
        &&& forall|i: int|
            0 <= i < NATIVE_SLOTS ==> (#[trigger] self.slots@[i]).epoch <= self.epoch
        &&& forall|i: int|
            0 <= i < NATIVE_SLOTS && (#[trigger] self.slots@[i]).epoch == self.epoch ==> {
                let (ops, exit_pc) = self.slots@[i].source@;
                &&& ops_wf(ops)
                &&& self.slots@[i].result is Some <==> compilable(ops)
                &&& self.slots@[i].result is Some ==> holds(
                    self.arena@,
                    (self.slots@[i].result->0).entry,
                    code_bytes(block_code(ops, exit_pc)),
                )
            }
    }

    pub fn new() -> (r: Self)
        ensures
            r.wf(),
            r@ == Map::<u64, (Seq<Op>, u64)>::empty(),
    {
        let r = NativeCache { epoch: 1, slots: empty_slots(), arena: CodeArena::new() };
        proof {
            assert(r@ =~= Map::<u64, (Seq<Op>, u64)>::empty());
        }
        r
    }

    fn index(pc: u64) -> (r: usize)
        ensures
            r == native_slot(pc),
            r < NATIVE_SLOTS,
    {
        (pc / 2 % NATIVE_SLOTS as u64) as usize
    }

    /// Invalidate every slot and rewind the arena. The epoch moves first, so that no slot
    /// is read over rewound code.
    pub fn flush(&mut self)
        requires
            old(self).wf(),
        ensures
            final(self).wf(),
            final(self)@ == Map::<u64, (Seq<Op>, u64)>::empty(),
    {
        if self.epoch == u64::MAX {
            self.slots = empty_slots();
            self.epoch = 1;
        } else {
            self.epoch = self.epoch + 1;
        }
        self.arena.reset();
        proof {
            assert(self@ =~= Map::<u64, (Seq<Op>, u64)>::empty());
        }
    }

    /// Run the block entered at `pc` natively, compiling and caching it on first visit.
    /// `None` if the block is declined: the caller then runs the portable executor. A live
    /// entry for `pc` is run as it was compiled.
    pub fn run(&mut self, pc: u64, ops: &[Op], exit_pc: u64, regs: &mut [u64; 32]) -> (r: Option<
        NativeExit,
    >)
        requires
            old(self).wf(),
            ops_wf(ops@),
        ensures
            final(self).wf(),
            ({
                let (o, e) = if old(self)@.dom().contains(pc) {
                    old(self)@[pc]
                } else {
                    (ops@, exit_pc)
                };
                match native_result(o, e, old(regs)@) {
                    Some((x, exit)) => final(regs)@ == x && r == Some(exit),
                    None => final(regs)@ == old(regs)@ && r is None,
                }
            }),
            final(self)@ == if old(self)@.dom().contains(pc) {
                old(self)@
            } else {
                with_entry(old(self)@, pc, (ops@, exit_pc))
            },
    {
        let idx: usize = Self::index(pc);
        let slot: &NativeSlot = &self.slots[idx];
        if slot.epoch == self.epoch && slot.tag == pc {
            return match slot.result {
                Some(block) => {
                    proof {
                        let (o, e) = self.slots@[idx as int].source@;
                        lemma_held_code_runs(self.arena@, block.entry, o, e, regs@);
                    }
                    block.run(&self.arena, regs)
                },
                None => None,
            };
        }
        let ghost before = self.arena@;
        let result: Option<NativeBlock> = NativeBlock::compile_into(ops, exit_pc, &mut self.arena);
        proof {
            assert forall|i: int|
                0 <= i < NATIVE_SLOTS && (#[trigger] self.slots@[i]).epoch == self.epoch
                    && self.slots@[i].result is Some implies holds(
                self.arena@,
                (self.slots@[i].result->0).entry,
                code_bytes(
                    block_code(self.slots@[i].source@.0, self.slots@[i].source@.1),
                ),
            ) by {
                lemma_held_code_stays(
                    before,
                    self.arena@,
                    (self.slots@[i].result->0).entry,
                    code_bytes(
                        block_code(self.slots@[i].source@.0, self.slots@[i].source@.1),
                    ),
                );
            }
        }
        let exit: Option<NativeExit> = match result {
            Some(block) => {
                proof {
                    lemma_held_code_runs(self.arena@, block.entry, ops@, exit_pc, regs@);
                }
                block.run(&self.arena, regs)
            },
            None => None,
        };
        let ghost source = (ops@, exit_pc);
        self.slots[idx] = NativeSlot {
            epoch: self.epoch,
            tag: pc,
            result,
            source: Ghost(source),
        };
        proof {
            assert(self@ =~= with_entry(old(self)@, pc, source));
        }
        exit
    }
}

impl Default for NativeCache {
    fn default() -> (r: Self)
        ensures
            r.wf(),
            r@ == Map::<u64, (Seq<Op>, u64)>::empty(),
    {
        Self::new()
    }
}

impl Clone for NativeCache {
    /// A copy starts cold: native code is a rebuildable function of the guest's, so it does
    /// not enter a snapshot.
    fn clone(&self) -> (r: Self)
        ensures
            r.wf(),
            r@ == Map::<u64, (Seq<Op>, u64)>::empty(),
    {
        Self::new()
    }
}

proof fn lemma_held_code_stays(
    before: Seq<Seq<u8>>,
    after: Seq<Seq<u8>>,
    entry: Entry,
    code: Seq<u8>,
)
    requires
        holds(before, entry, code),
        extends(before, after),
    ensures
        holds(after, entry, code),
{
    let i = entry.chunk as int;
    assert(before[i].is_prefix_of(after[i]));
    assert(after[i].subrange(entry.at as int, entry.at + code.len()) =~= before[i].subrange(
        entry.at as int,
        entry.at + code.len(),
    ));
}

/// Executing code depends on the bytes from its entry on, and not past its `ret`.
proof fn lemma_executed_within(bytes: Seq<u8>, code: Seq<u8>, at: int, k: int, s: HostState)
    requires
        0 <= at,
        0 <= k,
        at + code.len() <= bytes.len(),
        bytes.subrange(at, at + code.len()) == code,
        executed(code, k, s) is Some,
    ensures
        executed(bytes, at + k, s) == executed(code, k, s),
    decreases code.len() - k,
{
    assert(k + 4 <= code.len());
    assert(bytes.subrange(at + k, at + k + 4) =~= code.subrange(k, k + 4));
    let w = crate::bytes::le(code.subrange(k, k + 4)) as u32;
    match self::host::decoded(w) {
        Some(Insn::Ret) => {},
        Some(i) => {
            lemma_executed_within(bytes, code, at, k + 4, hstep(s, i));
        },
        None => {},
    }
}

/// Running a block's code where the arena holds it does what the code does.
proof fn lemma_held_code_runs(
    arena: Seq<Seq<u8>>,
    entry: Entry,
    ops: Seq<Op>,
    exit_pc: u64,
    regs: Seq<u64>,
)
    requires
        ops_wf(ops),
        compilable(ops),
        holds(arena, entry, code_bytes(block_code(ops, exit_pc))),
    ensures
        executed(arena[entry.chunk as int], entry.at as int, entry_state(regs)) == Some(
            hrun(entry_state(regs), block_code(ops, exit_pc)),
        ),
{
    let code = block_code(ops, exit_pc);
    lemma_block_code_shape(ops, exit_pc);
    law_executing_encoded_code_runs_it(code, entry_state(regs));
    lemma_executed_within(
        arena[entry.chunk as int],
        code_bytes(code),
        entry.at as int,
        0,
        entry_state(regs),
    );
}

/// Whether every instruction is well-formed and none returns.
pub open spec fn straight(code: Seq<Insn>) -> bool {
    forall|k: int|
        0 <= k < code.len() ==> (#[trigger] code[k]).wf() && code[k] != Insn::Ret
}

proof fn lemma_straight_concat(a: Seq<Insn>, b: Seq<Insn>)
    requires
        straight(a),
        straight(b),
    ensures
        straight(a + b),
{
    assert forall|k: int| 0 <= k < (a + b).len() implies (#[trigger] (a + b)[k]).wf() && (a + b)[k]
        != Insn::Ret by {
        if k < a.len() {
            assert((a + b)[k] == a[k]);
        } else {
            assert((a + b)[k] == b[k - a.len()]);
        }
    }
}

proof fn lemma_straight_imm(xd: u32, v: u64)
    requires
        xd < 32,
    ensures
        straight(imm_code(xd, v)),
{
}

/// Every host register is one of the host's.
pub proof fn lemma_host_map_bounds(used: Seq<bool>)
    requires
        used.len() == 32,
        rank(used, 32) <= POOL_SIZE,
    ensures
        forall|g: int|
            0 <= g < 32 ==> (#[trigger] host_map(used)[g]) < 32 && (used[g] ==> {
                &&& 2 <= host_map(used)[g] <= 15
                &&& host_map(used)[g] != SA
                &&& host_map(used)[g] != SB
            }),
{
    assert forall|g: int| 0 <= g < 32 implies (#[trigger] host_map(used)[g]) < 32 && (used[g] ==> {
        &&& 2 <= host_map(used)[g] <= 15
        &&& host_map(used)[g] != SA
        &&& host_map(used)[g] != SB
    }) by {
        if used[g] {
            lemma_rank_grows(used, g + 1, 32);
            lemma_rank_grows(used, 0, g);
            assert(rank(used, g + 1) == rank(used, g) + 1);
        }
    }
}

/// Two used guest registers never share a host register.
pub proof fn lemma_host_map_injective(used: Seq<bool>, a: int, b: int)
    requires
        used.len() == 32,
        rank(used, 32) <= POOL_SIZE,
        0 <= a < b < 32,
        used[a],
        used[b],
    ensures
        host_map(used)[a] != host_map(used)[b],
{
    lemma_rank_grows(used, 0, a);
    lemma_rank_grows(used, a + 1, b);
    lemma_rank_grows(used, b + 1, 32);
    assert(rank(used, a + 1) == rank(used, a) + 1);
    assert(rank(used, b + 1) == rank(used, b) + 1);
}

proof fn lemma_straight_op(m: Seq<u32>, op: Op)
    requires
        m.len() == 32,
        forall|g: int| 0 <= g < 32 ==> (#[trigger] m[g]) < 32,
        op.wf(),
        emittable(op),
    ensures
        straight(op_code(m, op)),
{
    match op {
        Op::SetImm { rd, value } => {},
        Op::AluImm { alu, rd, rs1, imm } => {
            lemma_straight_imm(SA, to_word(imm));
            assert(m[rd as int] < 32 && m[rs1 as int] < 32);
        },
        Op::AluReg { alu, rd, rs1, rs2 } => {
            assert(m[rd as int] < 32 && m[rs1 as int] < 32 && m[rs2 as int] < 32);
        },
        Op::Branch { cond, rs1, rs2, taken, not_taken } => {
            let c = seq![Insn::Cmp { xn: m[rs1 as int], xm: m[rs2 as int] }];
            let d = seq![Insn::Csel { xd: SA, xn: SA, xm: SB, cond: cond_code(cond) }];
            assert(straight(c));
            assert(straight(d));
            lemma_straight_imm(SA, taken);
            lemma_straight_imm(SB, not_taken);
            lemma_straight_concat(c, imm_code(SA, taken));
            lemma_straight_concat(c + imm_code(SA, taken), imm_code(SB, not_taken));
            lemma_straight_concat(
                c + imm_code(SA, taken) + imm_code(SB, not_taken),
                d,
            );
        },
        Op::Jump { rd, link, target } => {
            let a = if rd == 0 {
                Seq::<Insn>::empty()
            } else {
                imm_code(m[rd as int], link)
            };
            assert(straight(a));
            lemma_straight_concat(a, imm_code(SA, target));
        },
        Op::JumpReg { rd, rs1, imm, link } => {
            let a = imm_code(SB, to_word(imm));
            let b = seq![Insn::Alu { op: HostOp::Add, xd: SA, xn: m[rs1 as int], xm: SB }];
            let c = imm_code(SB, 0xffff_ffff_ffff_fffe);
            let d = seq![Insn::Alu { op: HostOp::And, xd: SA, xn: SA, xm: SB }];
            let e = if rd == 0 {
                Seq::<Insn>::empty()
            } else {
                imm_code(m[rd as int], link)
            };
            assert(m[rs1 as int] < 32);
            assert(straight(b) && straight(d) && straight(e));
            lemma_straight_concat(a, b);
            lemma_straight_concat(a + b, c);
            lemma_straight_concat(a + b + c, d);
            lemma_straight_concat(a + b + c + d, e);
        },
        _ => {},
    }
}

proof fn lemma_straight_body(m: Seq<u32>, ops: Seq<Op>, n: int)
    requires
        m.len() == 32,
        forall|g: int| 0 <= g < 32 ==> (#[trigger] m[g]) < 32,
        ops_wf(ops),
        forall|i: int| 0 <= i < ops.len() ==> emittable(#[trigger] ops[i]),
        0 <= n <= ops.len(),
    ensures
        straight(body_code(m, ops, n)),
    decreases n,
{
    if n > 0 {
        lemma_straight_body(m, ops, n - 1);
        assert(ops[n - 1].wf() && emittable(ops[n - 1]));
        lemma_straight_op(m, ops[n - 1]);
        lemma_straight_concat(body_code(m, ops, n - 1), op_code(m, ops[n - 1]));
    }
}

proof fn lemma_straight_frame(m: Seq<u32>, set: Seq<bool>, n: int)
    requires
        m.len() == 32,
        forall|g: int| 0 <= g < 32 ==> (#[trigger] m[g]) < 32,
        0 <= n <= 32,
    ensures
        straight(prologue_code(m, set, n)),
        straight(epilogue_code(m, set, n)),
    decreases n,
{
    if n > 0 {
        lemma_straight_frame(m, set, n - 1);
        assert(m[n - 1] < 32);
    }
}

/// A block's code is well-formed and returns once, at its end.
proof fn lemma_block_code_shape(ops: Seq<Op>, exit_pc: u64)
    requires
        ops_wf(ops),
        compilable(ops),
    ensures
        block_code(ops, exit_pc).len() > 0,
        block_code(ops, exit_pc).last() == Insn::Ret,
        straight(block_code(ops, exit_pc).drop_last()),
        forall|k: int|
            0 <= k < block_code(ops, exit_pc).len() ==> (#[trigger] block_code(
                ops,
                exit_pc,
            )[k]).wf(),
        forall|k: int|
            0 <= k < block_code(ops, exit_pc).len() - 1 ==> #[trigger] block_code(ops, exit_pc)[k]
                != Insn::Ret,
{
    let used = used_set(ops);
    let m = host_map(used);
    let n = ops.len() as int;
    lemma_host_map_bounds(used);
    let p = prologue_code(m, read_set(ops, n), 32);
    let b = body_code(m, ops, live(ops, 0));
    let e = epilogue_code(m, dirty_set(ops, n), 32);
    let retired = ops.len() as u16;
    let t0 = seq![Insn::Movz { xd: REGS, imm: retired }];
    let t1 = if ended(ops) {
        seq![Insn::Alu { op: HostOp::Orr, xd: PC, xn: XZR, xm: SA }]
    } else {
        imm_code(PC, exit_pc)
    };
    lemma_straight_frame(m, read_set(ops, n), 32);
    lemma_straight_frame(m, dirty_set(ops, n), 32);
    lemma_live_bounds(ops, 0);
    lemma_straight_body(m, ops, live(ops, 0));
    lemma_straight_imm(PC, exit_pc);
    assert(straight(t0) && straight(t1));
    lemma_straight_concat(p, b);
    lemma_straight_concat(p + b, e);
    lemma_straight_concat(p + b + e, t0);
    lemma_straight_concat(p + b + e + t0, t1);
    let code = block_code(ops, exit_pc);
    assert(code =~= (p + b + e + t0 + t1).push(Insn::Ret));
    assert(code.drop_last() =~= p + b + e + t0 + t1);
    assert forall|k: int| 0 <= k < code.len() implies (#[trigger] code[k]).wf() by {
        if k < code.len() - 1 {
            assert(code[k] == code.drop_last()[k]);
        }
    }
    assert forall|k: int| 0 <= k < code.len() - 1 implies #[trigger] code[k] != Insn::Ret by {
        assert(code[k] == code.drop_last()[k]);
    }
}

} // verus!
