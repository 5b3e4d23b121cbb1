//! What a native `memset` or `memcpy` does to memory: what the routine it stands for does.

use vstd::prelude::*;
use crate::bus::BusState;
use crate::bytes::{le, overwrite};
use crate::csr::csr_get;
use crate::mem::{lemma_place_bounds, offset, MemState};
use crate::mmu::{law_bare_mode_is_the_identity, Access};
use crate::model::{
    chunk_at, lemma_chunk_len, memop_plan, memop_run, native_memop, Chunk, HartModel,
};

verus! {

/// Whether the `len` bytes from `addr` on are RAM, stored in order, and addresses stand for
/// themselves.
pub open spec fn plain_ram(h: HartModel, b: BusState, addr: u64, len: int) -> bool {
    &&& csr_get(h.csr, 0x180) as int / 0x1000_0000_0000_0000 != 8
    &&& b.ram.scramble is None
    &&& b.ram.bytes.len() <= 0x7fff_ffff_ffff_ffff
    &&& 0x8000_0000 <= addr
    &&& addr - 0x8000_0000 + len <= b.ram.bytes.len()
}

/// Whether `after` is `before` with other bytes in RAM.
pub open spec fn same_but_bytes(before: BusState, after: BusState) -> bool {
    &&& after == BusState { ram: after.ram, ..before }
    &&& after.ram.scramble == before.ram.scramble
    &&& after.ram.bytes.len() == before.ram.bytes.len()
}

proof fn lemma_run_of_the_rest(b: BusState, is_set: bool, value: u8, c: Chunk, rest: Seq<Chunk>, from: int)
    requires
        0 <= from <= rest.len(),
    ensures
        memop_run(b, is_set, value, seq![c] + rest, from + 1) == memop_run(
            b,
            is_set,
            value,
            rest,
            from,
        ),
    decreases rest.len() - from,
{
    if from < rest.len() {
        let d = rest[from];
        assert((seq![c] + rest)[from + 1] == d);
        let data = if is_set {
            Some(Seq::new(d.len as nat, |i: int| value))
        } else {
            b.ram.fetch(d.src, d.len as int)
        };
        if let Some(data) = data {
            let b1 = BusState { ram: b.ram.write(d.dst, data).1, ..b };
            lemma_run_of_the_rest(b1, is_set, value, c, rest, from + 1);
        }
    }
}

pub proof fn lemma_fetched_bytes(m: MemState, addr: u64, len: int)
    requires
        m.scramble is None,
        m.bytes.len() <= 0x7fff_ffff_ffff_ffff,
        0x8000_0000 <= addr,
        0 <= len,
        addr - 0x8000_0000 + len <= m.bytes.len(),
    ensures
        m.fetch(addr, len) == Some(
            m.bytes.subrange(addr - 0x8000_0000, addr - 0x8000_0000 + len),
        ),
{
    let at = addr - 0x8000_0000;
    assert forall|i: int| 0 <= i < len implies #[trigger] m.load(offset(addr, i), 1) == Some(
        m.bytes[at + i] as nat,
    ) by {
        lemma_place_bounds(m, at + i);
        assert(offset(addr, i) == addr + i);
        let s = m.bytes.subrange(at + i, at + i + 1);
        assert(s.drop_first() =~= Seq::<u8>::empty());
        assert(le(s.drop_first()) == 0);
        assert(le(s) == m.bytes[at + i]);
    }
    assert(m.fetch(addr, len)->0 =~= m.bytes.subrange(at, at + len));
}

proof fn lemma_written_bytes(m: MemState, addr: u64, data: Seq<u8>)
    requires
        m.scramble is None,
        0x8000_0000 <= addr,
        addr - 0x8000_0000 + data.len() <= m.bytes.len(),
    ensures
        m.write(addr, data).0 is None,
        m.write(addr, data).1.scramble is None,
        m.write(addr, data).1.bytes == overwrite(m.bytes, addr - 0x8000_0000, data),
{
    lemma_place_bounds(m, addr - 0x8000_0000);
}

/// In bare mode a piece is where its offset says.
proof fn lemma_piece(
    h: HartModel,
    b: BusState,
    is_set: bool,
    dst: u64,
    src: u64,
    len: u64,
    off: u64,
)
    requires
        csr_get(h.csr, 0x180) as int / 0x1000_0000_0000_0000 != 8,
        off < len,
        dst + len <= u64::MAX,
        !is_set ==> src + len <= u64::MAX,
    ensures
        ({
            let c = chunk_at(h, b, is_set, dst, src, len, off);
            &&& c is Some
            &&& (c->0).dst == dst + off
            &&& !is_set ==> (c->0).src == src + off
            &&& 0 < (c->0).len
            &&& off + (c->0).len <= len
        }),
{
    reveal(chunk_at);
    lemma_chunk_len(is_set, dst, src, len, off);
    let satp = csr_get(h.csr, 0x180);
    let user = h.is_user();
    let d = crate::alu::word(dst + off);
    let s = crate::alu::word(src + off);
    law_bare_mode_is_the_identity(satp, d, Access::Store, b.ram, user, h.sum());
    law_bare_mode_is_the_identity(satp, s, Access::Load, b.ram, user, h.sum());
}

proof fn lemma_filled(
    h: HartModel,
    start: BusState,
    b: BusState,
    dst: u64,
    src: u64,
    len: u64,
    off: u64,
    value: u8,
)
    requires
        plain_ram(h, b, dst, len as int),
        off <= len,
    ensures
        ({
            let plan = memop_plan(h, start, true, dst, src, len, off);
            let (b1, all) = memop_run(b, true, value, plan->0, 0);
            let at = dst - 0x8000_0000;
            &&& plan is Some
            &&& all
            &&& same_but_bytes(b, b1)
            &&& forall|i: int|
                0 <= i < b.ram.bytes.len() ==> #[trigger] b1.ram.bytes[i] == if at + off <= i < at
                    + len {
                    value
                } else {
                    b.ram.bytes[i]
                }
        }),
    decreases len - off,
{
    if off < len {
        lemma_piece(h, start, true, dst, src, len, off);
        let c = chunk_at(h, start, true, dst, src, len, off)->0;
        let data = Seq::new(c.len as nat, |i: int| value);
        lemma_written_bytes(b.ram, c.dst, data);
        let b1 = BusState { ram: b.ram.write(c.dst, data).1, ..b };
        let next = (off + c.len) as u64;
        lemma_filled(h, start, b1, dst, src, len, next, value);
        let rest = memop_plan(h, start, true, dst, src, len, next)->0;
        lemma_run_of_the_rest(b1, true, value, c, rest, 0);
        assert((seq![c] + rest)[0] == c);
    }
}

/// A native `memset` fills the bytes from register 10 on, as many as register 12 says, with the
/// low byte of register 11, and changes nothing else in memory. The hart is back where register
/// 1 says, its registers as they were. The charge is three instructions for each eight bytes,
/// four for each of the rest, and twenty-four for the call.
pub proof fn law_a_native_memset_fills(
    h: HartModel,
    b: BusState,
    memset_pc: Option<u64>,
    memcpy_pc: Option<u64>,
)
    requires
        memset_pc == Some(h.pc),
        plain_ram(h, b, h.x[10], h.x[12] as int),
    ensures
        ({
            let (h1, b1, r) = native_memop(h, b, memset_pc, memcpy_pc);
            let at = h.x[10] - 0x8000_0000;
            let len = h.x[12] as int;
            &&& h1 == HartModel { pc: h.x[1], ..h }
            &&& r is Some && r->0 as int == 24 + len / 8 * 3 + len % 8 * 4
            &&& same_but_bytes(b, b1)
            &&& forall|i: int|
                at <= i < at + len ==> #[trigger] b1.ram.bytes[i] == h.x[11] as int % 0x100
            &&& forall|i: int|
                0 <= i < b.ram.bytes.len() && !(at <= i < at + len) ==> #[trigger] b1.ram.bytes[i]
                    == b.ram.bytes[i]
        }),
{
    reveal(native_memop);
    lemma_filled(
        h,
        b,
        b,
        h.x[10],
        h.x[11],
        h.x[12],
        0,
        (h.x[11] as int % 0x100) as u8,
    );
}

proof fn lemma_copied(
    h: HartModel,
    start: BusState,
    b: BusState,
    dst: u64,
    src: u64,
    len: u64,
    off: u64,
    value: u8,
)
    requires
        plain_ram(h, b, dst, len as int),
        plain_ram(h, b, src, len as int),
        dst + len <= src || src + len <= dst,
        off <= len,
    ensures
        ({
            let plan = memop_plan(h, start, false, dst, src, len, off);
            let (b1, all) = memop_run(b, false, value, plan->0, 0);
            let at = dst - 0x8000_0000;
            &&& plan is Some
            &&& all
            &&& same_but_bytes(b, b1)
            &&& forall|i: int|
                0 <= i < b.ram.bytes.len() ==> #[trigger] b1.ram.bytes[i] == if at + off <= i < at
                    + len {
                    b.ram.bytes[i - dst + src]
                } else {
                    b.ram.bytes[i]
                }
        }),
    decreases len - off,
{
    if off < len {
        lemma_piece(h, start, false, dst, src, len, off);
        let c = chunk_at(h, start, false, dst, src, len, off)->0;
        lemma_fetched_bytes(b.ram, c.src, c.len as int);
        let data = b.ram.fetch(c.src, c.len as int)->0;
        lemma_written_bytes(b.ram, c.dst, data);
        let b1 = BusState { ram: b.ram.write(c.dst, data).1, ..b };
        let next = (off + c.len) as u64;
        lemma_copied(h, start, b1, dst, src, len, next, value);
        let rest = memop_plan(h, start, false, dst, src, len, next)->0;
        lemma_run_of_the_rest(b1, false, value, c, rest, 0);
        assert((seq![c] + rest)[0] == c);
        let b2 = memop_run(b1, false, value, rest, 0).0;
        assert forall|i: int| 0 <= i < b.ram.bytes.len() implies #[trigger] b2.ram.bytes[i] == if (
        dst - 0x8000_0000) + off <= i < (dst - 0x8000_0000) + len {
            b.ram.bytes[i - dst + src]
        } else {
            b.ram.bytes[i]
        } by {
            let at = dst - 0x8000_0000;
            if at + next <= i < at + len {
                let k = i - dst + src;
                assert(b1.ram.bytes[k] == b.ram.bytes[k]);
            }
        }
    }
}

/// A native `memcpy` copies the bytes from register 11 on to those from register 10 on, as many
/// as register 12 says, and changes nothing else in memory, where the two do not overlap. The
/// rest is as with `memset`.
pub proof fn law_a_native_memcpy_copies(
    h: HartModel,
    b: BusState,
    memset_pc: Option<u64>,
    memcpy_pc: Option<u64>,
)
    requires
        memset_pc != Some(h.pc),
        memcpy_pc == Some(h.pc),
        plain_ram(h, b, h.x[10], h.x[12] as int),
        plain_ram(h, b, h.x[11], h.x[12] as int),
        h.x[10] + h.x[12] <= h.x[11] || h.x[11] + h.x[12] <= h.x[10],
    ensures
        ({
            let (h1, b1, r) = native_memop(h, b, memset_pc, memcpy_pc);
            let at = h.x[10] - 0x8000_0000;
            let from = h.x[11] - 0x8000_0000;
            let len = h.x[12] as int;
            &&& h1 == HartModel { pc: h.x[1], ..h }
            &&& r is Some && r->0 as int == 24 + len / 8 * 3 + len % 8 * 4
            &&& same_but_bytes(b, b1)
            &&& forall|k: int| 0 <= k < len ==> b1.ram.bytes[#[trigger] (at + k)]
                == b.ram.bytes[from + k]
            &&& forall|i: int|
                0 <= i < b.ram.bytes.len() && !(at <= i < at + len) ==> #[trigger] b1.ram.bytes[i]
                    == b.ram.bytes[i]
        }),
{
    reveal(native_memop);
    lemma_copied(
        h,
        b,
        b,
        h.x[10],
        h.x[11],
        h.x[12],
        0,
        (h.x[11] as int % 0x100) as u8,
    );
}

/// Anywhere but at the start of one of the two routines there is nothing to do natively.
pub proof fn law_other_code_is_not_run_natively(
    h: HartModel,
    b: BusState,
    memset_pc: Option<u64>,
    memcpy_pc: Option<u64>,
)
    requires
        memset_pc != Some(h.pc),
        memcpy_pc != Some(h.pc),
    ensures
        native_memop(h, b, memset_pc, memcpy_pc) == (h, b, None::<u64>),
{
    reveal(native_memop);
}

} // verus!
