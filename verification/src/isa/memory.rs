//! What the instructions that access memory do, told from the bytes of RAM.

use vstd::prelude::*;
use crate::alu::{amo_combined, amo_combined_w, low32};
use crate::bus::BusState;
use crate::bytes::{
    le, le_bytes, lemma_le_bound, lemma_le_of_le_bytes, lemma_span_of_widths, overwrite,
};
use crate::cpu::StepError;
use crate::decode::Instr;
use crate::isa::{
    at, done, law_atomic_doublewords, law_atomic_words, lemma_extended, lemma_immediate_word,
    lemma_sum_wraps, register, twos, wrote,
};
use crate::mem::{lemma_place_bounds, BusError};
use crate::mmu::Access;
use crate::model::{
    amo_loaded, amo_stored, execute, load_value, sem_amo, sem_amo_rmw, sem_load, sem_lr, sem_sc, sem_store, store_value,
    HartModel,
};

verus! {

/// The number in the `n` bytes from `at` on, the lowest byte first.
pub open spec fn number(bytes: Seq<u8>, at: int, n: int) -> int
    decreases n,
{
    if n <= 0 {
        0
    } else {
        bytes[at] + 0x100 * number(bytes, at + 1, n - 1)
    }
}

/// Whether the `n` bytes from physical address `pa` on are RAM, stored in order.
pub open spec fn in_ram(b: BusState, pa: u64, n: int) -> bool {
    &&& b.ram.scramble is None
    &&& 0x8000_0000 <= pa
    &&& pa - 0x8000_0000 + n <= b.ram.bytes.len()
}

/// Whether `after` is `before` with other bytes at most in the `n` from `pa` on.
pub open spec fn only_changed(before: BusState, after: BusState, pa: u64, n: int) -> bool {
    &&& after == BusState { ram: after.ram, ..before }
    &&& after.ram.scramble == before.ram.scramble
    &&& after.ram.bytes.len() == before.ram.bytes.len()
    &&& forall|i: int|
        0 <= i < before.ram.bytes.len() && !(pa - 0x8000_0000 <= i < pa - 0x8000_0000 + n)
            ==> #[trigger] after.ram.bytes[i] == before.ram.bytes[i]
    &&& after.ram.high_water == if before.ram.high_water < pa - 0x8000_0000 + n {
        pa - 0x8000_0000 + n
    } else {
        before.ram.high_water as int
    }
}

pub proof fn lemma_number(bytes: Seq<u8>, at: int, n: int)
    requires
        0 <= n,
        0 <= at,
        at + n <= bytes.len(),
    ensures
        le(bytes.subrange(at, at + n)) == number(bytes, at, n),
    decreases n,
{
    if n > 0 {
        lemma_number(bytes, at + 1, n - 1);
        assert(bytes.subrange(at, at + n).drop_first() =~= bytes.subrange(at + 1, at + n));
    }
}

pub proof fn lemma_number_bound(bytes: Seq<u8>, at: int, n: int)
    requires
        n == 1 || n == 2 || n == 4 || n == 8,
        0 <= at,
        at + n <= bytes.len(),
    ensures
        0 <= number(bytes, at, n),
        n == 1 ==> number(bytes, at, n) < 0x100,
        n == 2 ==> number(bytes, at, n) < 0x1_0000,
        n == 4 ==> number(bytes, at, n) < 0x1_0000_0000,
        n == 8 ==> number(bytes, at, n) < 0x1_0000_0000_0000_0000,
{
    lemma_number(bytes, at, n);
    lemma_le_bound(bytes.subrange(at, at + n));
    lemma_span_of_widths();
}

/// A read of RAM returns the number that stands there and has no effect.
pub proof fn law_ram_is_read(b: BusState, pa: u64, n: int)
    requires
        n == 1 || n == 2 || n == 4 || n == 8,
        in_ram(b, pa, n),
    ensures
        b.read(pa, n) == (Some(number(b.ram.bytes, pa - 0x8000_0000, n) as nat), b),
{
    reveal(BusState::read);
    reveal(BusState::peek);
    lemma_place_bounds(b.ram, pa - 0x8000_0000);
    lemma_number(b.ram.bytes, pa - 0x8000_0000, n);
}

/// A write to RAM puts the number there and changes nothing else.
pub proof fn law_ram_is_written(b: BusState, pa: u64, n: int, v: nat)
    requires
        n == 1 || n == 2 || n == 4 || n == 8,
        in_ram(b, pa, n),
        n == 1 ==> v < 0x100,
        n == 2 ==> v < 0x1_0000,
        n == 4 ==> v < 0x1_0000_0000,
        n == 8 ==> v < 0x1_0000_0000_0000_0000,
        b.ram.bytes.len() <= u64::MAX,
    ensures
        b.write(pa, n, v) is Some,
        only_changed(b, b.write(pa, n, v)->0, pa, n),
        number(b.write(pa, n, v)->0.ram.bytes, pa - 0x8000_0000, n) == v,
{
    reveal(BusState::write);
    lemma_span_of_widths();
    lemma_le_of_le_bytes(v, n as nat);
    let raw = pa - 0x8000_0000;
    lemma_place_bounds(b.ram, raw);
    let after = b.write(pa, n, v)->0;
    assert(after.ram.bytes == overwrite(b.ram.bytes, raw, le_bytes(v, n as nat)));
    lemma_number(after.ram.bytes, raw, n);
    assert(after.ram.bytes.subrange(raw, raw + n) =~= le_bytes(v, n as nat));
}

/// Past the end of RAM there is nothing to read or write.
pub proof fn law_past_ram_there_is_nothing(b: BusState, pa: u64, n: int, v: nat)
    requires
        n == 1 || n == 2 || n == 4 || n == 8,
        0x8000_0000 <= pa,
        pa - 0x8000_0000 + n > b.ram.bytes.len(),
    ensures
        b.read(pa, n) == (None::<nat>, b),
        b.write(pa, n, v) is None,
{
    reveal(BusState::read);
    reveal(BusState::peek);
    reveal(BusState::write);
    lemma_le_of_le_bytes(v, n as nat);
}

/// The bytes that a load or a store of the lower three digits' width moves.
pub open spec fn width(f3: int) -> int {
    if f3 == 0 || f3 == 4 {
        1
    } else if f3 == 1 || f3 == 5 {
        2
    } else if f3 == 2 || f3 == 6 {
        4
    } else {
        8
    }
}

/// The values that so many bytes can hold.
pub open spec fn values(n: int) -> int {
    if n == 1 {
        0x100
    } else if n == 2 {
        0x1_0000
    } else if n == 4 {
        0x1_0000_0000
    } else {
        0x1_0000_0000_0000_0000
    }
}

/// The loads `lb`, `lh`, `lw` and `ld` put the number at their address in rd with its sign
/// extended, `lbu`, `lhu` and `lwu` as it is. Past RAM they fail.
pub proof fn law_loads(h: HartModel, b: BusState, raw: u32, pa: u64)
    requires
        raw % 0x80 == 0x03,
        raw as int / 0x1000 % 8 != 7,
        h.translate(
            b,
            ((h.x[register(raw, 0x8000)] + twos(raw as int / 0x10_0000, 0x1000))
                % 0x1_0000_0000_0000_0000) as u64,
            Access::Load,
        ) == Some(pa),
    ensures
        ({
            let f3 = raw as int / 0x1000 % 8;
            let n = width(f3);
            let v = number(b.ram.bytes, pa - 0x8000_0000, n);
            &&& in_ram(b, pa, n) ==> execute(h, b, raw) == done(
                wrote(
                    h,
                    register(raw, 0x80),
                    if f3 < 4 {
                        twos(v, values(n))
                    } else {
                        v
                    },
                ),
                b,
            )
            &&& 0x8000_0000 <= pa && pa - 0x8000_0000 + n > b.ram.bytes.len() ==> execute(
                h,
                b,
                raw,
            ) == (h, b, Err::<(), StepError>(StepError::Bus(BusError::OutOfRange { addr: pa })))
        }),
{
    reveal(execute);
    reveal(sem_load);
    reveal(load_value);
    let n = width(raw as int / 0x1000 % 8);
    let a = h.x[register(raw, 0x8000)];
    lemma_immediate_word(raw);
    lemma_sum_wraps(a as int, Instr(raw).i_imm() as int, twos(raw as int / 0x10_0000, 0x1000));
    if in_ram(b, pa, n) {
        law_ram_is_read(b, pa, n);
        lemma_number_bound(b.ram.bytes, pa - 0x8000_0000, n);
    }
    if 0x8000_0000 <= pa && pa - 0x8000_0000 + n > b.ram.bytes.len() {
        law_past_ram_there_is_nothing(b, pa, n, 0);
    }
}

pub proof fn lemma_store_offset(raw: u32)
    ensures
        Instr(raw).s_imm() as int == twos(
            raw as int / 0x200_0000 * 0x20 + raw as int / 0x80 % 0x20,
            0x1000,
        ) % 0x1_0000_0000_0000_0000,
{
}

/// The stores `sb`, `sh`, `sw` and `sd` put the low bytes of rs2 at their address and change
/// nothing else in memory. A reservation of that address is lost. Past RAM they fail.
pub proof fn law_stores(h: HartModel, b: BusState, raw: u32, pa: u64)
    requires
        raw % 0x80 == 0x23,
        raw as int / 0x1000 % 8 < 4,
        b.ram.bytes.len() <= u64::MAX,
        h.translate(
            b,
            ((h.x[register(raw, 0x8000)] + twos(
                raw as int / 0x200_0000 * 0x20 + raw as int / 0x80 % 0x20,
                0x1000,
            )) % 0x1_0000_0000_0000_0000) as u64,
            Access::Store,
        ) == Some(pa),
    ensures
        ({
            let n = width(raw as int / 0x1000 % 8);
            let (h1, b1, r) = execute(h, b, raw);
            let kept = HartModel {
                reservation: if h.reservation == Some(pa) {
                    None
                } else {
                    h.reservation
                },
                ..h
            };
            &&& in_ram(b, pa, n) ==> {
                &&& r is Ok
                &&& h1 == at(kept, h.pc + h.ilen)
                &&& only_changed(b, b1, pa, n)
                &&& number(b1.ram.bytes, pa - 0x8000_0000, n) == h.x[register(raw, 0x10_0000)]
                    as int % values(n)
            }
            &&& 0x8000_0000 <= pa && pa - 0x8000_0000 + n > b.ram.bytes.len() ==> h1 == kept && b1
                == b && r == Err::<(), StepError>(
                StepError::Bus(BusError::OutOfRange { addr: pa }),
            )
        }),
{
    reveal(execute);
    reveal(sem_store);
    reveal(store_value);
    let n = width(raw as int / 0x1000 % 8);
    let a = h.x[register(raw, 0x8000)];
    let value = h.x[register(raw, 0x10_0000)];
    lemma_store_offset(raw);
    lemma_sum_wraps(
        a as int,
        Instr(raw).s_imm() as int,
        twos(raw as int / 0x200_0000 * 0x20 + raw as int / 0x80 % 0x20, 0x1000),
    );
    let v = crate::model::truncated(value, n);
    assert(v == value as int % values(n));
    if in_ram(b, pa, n) {
        law_ram_is_written(b, pa, n, v);
    }
    if 0x8000_0000 <= pa && pa - 0x8000_0000 + n > b.ram.bytes.len() {
        law_past_ram_there_is_nothing(b, pa, n, v);
    }
}

/// What an atomic instruction leaves at its address for an old value and an operand of `n`
/// bytes, which [`law_atomic_words`] and [`law_atomic_doublewords`] tell.
pub open spec fn left_in_memory(f5: int, n: int, old_value: int, operand: u64) -> int {
    if n == 4 {
        amo_combined_w(f5 as u32, old_value as u32, (operand % 0x1_0000_0000) as u32)->0 as int
    } else {
        amo_combined(f5 as u32, old_value as u64, operand)->0 as int
    }
}

proof fn lemma_left_in_memory(f5: u32, n: int, old_value: nat, operand: u64)
    requires
        f5 == 0 || f5 == 1 || f5 == 4 || f5 == 8 || f5 == 0xc || f5 == 0x10 || f5 == 0x14 || f5
            == 0x18 || f5 == 0x1c,
        n == 4 || n == 8,
    ensures
        ({
            let left = left_in_memory(f5 as int, n, old_value as int, operand);
            &&& 0 <= left
            &&& n == 4 ==> left < 0x1_0000_0000
            &&& n == 8 ==> left < 0x1_0000_0000_0000_0000
            &&& amo_stored(f5, n, old_value, operand) == Some(left as nat)
        }),
{
    law_atomic_words(old_value as u32, low32(operand));
    law_atomic_doublewords(old_value as u64, operand);
}

proof fn lemma_old_value(n: int, v: int)
    requires
        n == 4 || n == 8,
        0 <= v < values(n),
    ensures
        amo_loaded(n, v as nat) as int == twos(v, values(n)) % 0x1_0000_0000_0000_0000,
{
    if n == 4 {
        lemma_extended(v as u32);
    } else {
        assert(v % 0x1_0000_0000_0000_0000 == v);
        assert((v - 0x1_0000_0000_0000_0000) % 0x1_0000_0000_0000_0000 == v);
    }
}

/// The atomic instructions `amoadd`, `amoswap`, `amoxor`, `amoor`, `amoand`, `amomin`, `amomax`,
/// `amominu` and `amomaxu`, of words and doublewords, put the old value at their address in rd,
/// its sign extended, and what they make of it and rs2 at the address.
pub proof fn law_atomics(h: HartModel, b: BusState, raw: u32, pa: u64)
    requires
        raw % 0x80 == 0x2f,
        raw as int / 0x1000 % 8 == 2 || raw as int / 0x1000 % 8 == 3,
        ({
            let f5 = raw as int / 0x800_0000;
            f5 == 0 || f5 == 1 || f5 == 4 || f5 == 8 || f5 == 0xc || f5 == 0x10 || f5 == 0x14 || f5
                == 0x18 || f5 == 0x1c
        }),
        b.ram.bytes.len() <= u64::MAX,
        h.translate(b, h.x[register(raw, 0x8000)], Access::Store) == Some(pa),
        in_ram(b, pa, width(raw as int / 0x1000 % 8)),
    ensures
        ({
            let n = width(raw as int / 0x1000 % 8);
            let (h1, b1, r) = execute(h, b, raw);
            let old_value = number(b.ram.bytes, pa - 0x8000_0000, n);
            &&& r is Ok
            &&& h1 == wrote(h, register(raw, 0x80), twos(old_value, values(n)))
            &&& only_changed(b, b1, pa, n)
            &&& number(b1.ram.bytes, pa - 0x8000_0000, n) == left_in_memory(
                raw as int / 0x800_0000,
                n,
                old_value,
                h.x[register(raw, 0x10_0000)],
            )
        }),
{
    reveal(execute);
    reveal(sem_amo);
    reveal(sem_amo_rmw);
    let n = width(raw as int / 0x1000 % 8);
    let old_value = number(b.ram.bytes, pa - 0x8000_0000, n);
    let operand = h.x[register(raw, 0x10_0000)];
    law_ram_is_read(b, pa, n);
    lemma_number_bound(b.ram.bytes, pa - 0x8000_0000, n);
    lemma_left_in_memory(raw / 0x800_0000, n, old_value as nat, operand);
    let left = left_in_memory(raw as int / 0x800_0000, n, old_value, operand);
    law_ram_is_written(b, pa, n, left as nat);
    lemma_old_value(n, old_value);
}

/// `amoswap` leaves its operand in memory: what a load of the address then finds.
pub proof fn law_a_swap_leaves_its_operand(h: HartModel, b: BusState, raw: u32, pa: u64)
    requires
        raw % 0x80 == 0x2f,
        raw as int / 0x1000 % 8 == 2 || raw as int / 0x1000 % 8 == 3,
        raw as int / 0x800_0000 == 1,
        b.ram.bytes.len() <= u64::MAX,
        h.translate(b, h.x[register(raw, 0x8000)], Access::Store) == Some(pa),
        in_ram(b, pa, width(raw as int / 0x1000 % 8)),
    ensures
        ({
            let n = width(raw as int / 0x1000 % 8);
            execute(h, b, raw).1.read(pa, n).0 == Some(
                (h.x[register(raw, 0x10_0000)] as int % values(n)) as nat,
            )
        }),
{
    let n = width(raw as int / 0x1000 % 8);
    let operand = h.x[register(raw, 0x10_0000)];
    let old_value = number(b.ram.bytes, pa - 0x8000_0000, n);
    law_atomics(h, b, raw, pa);
    law_ram_is_read(execute(h, b, raw).1, pa, n);
    law_atomic_words(old_value as u32, (operand % 0x1_0000_0000) as u32);
    law_atomic_doublewords(old_value as u64, operand);
}

/// `lr` puts the value at its address in rd, its sign extended, and reserves the address. `sc`
/// stores rs2 there and puts 0 in rd if the address is still reserved, and otherwise puts 1 in
/// rd and stores nothing; either way nothing is reserved after it.
pub proof fn law_reservations(h: HartModel, b: BusState, raw: u32, pa: u64)
    requires
        raw % 0x80 == 0x2f,
        raw as int / 0x1000 % 8 == 2 || raw as int / 0x1000 % 8 == 3,
        b.ram.bytes.len() <= u64::MAX,
        h.translate(b, h.x[register(raw, 0x8000)], Access::Store) == Some(pa),
        in_ram(b, pa, width(raw as int / 0x1000 % 8)),
    ensures
        ({
            let n = width(raw as int / 0x1000 % 8);
            let rd = register(raw, 0x80);
            let (h1, b1, r) = execute(h, b, raw);
            &&& raw as int / 0x800_0000 == 2 ==> execute(h, b, raw) == done(
                wrote(
                    HartModel { reservation: Some(pa), ..h },
                    rd,
                    twos(number(b.ram.bytes, pa - 0x8000_0000, n), values(n)),
                ),
                b,
            )
            &&& raw as int / 0x800_0000 == 3 && h.reservation != Some(pa) ==> execute(h, b, raw)
                == done(wrote(HartModel { reservation: None, ..h }, rd, 1), b)
            &&& raw as int / 0x800_0000 == 3 && h.reservation == Some(pa) ==> {
                &&& r is Ok
                &&& h1 == wrote(HartModel { reservation: None, ..h }, rd, 0)
                &&& only_changed(b, b1, pa, n)
                &&& number(b1.ram.bytes, pa - 0x8000_0000, n) == h.x[register(raw, 0x10_0000)]
                    as int % values(n)
            }
        }),
{
    reveal(execute);
    reveal(sem_amo);
    reveal(sem_lr);
    reveal(sem_sc);
    let n = width(raw as int / 0x1000 % 8);
    let operand = h.x[register(raw, 0x10_0000)];
    law_ram_is_read(b, pa, n);
    lemma_number_bound(b.ram.bytes, pa - 0x8000_0000, n);
    let v = crate::model::truncated(operand, n);
    assert(v == operand as int % values(n));
    law_ram_is_written(b, pa, n, v);
}

} // verus!
