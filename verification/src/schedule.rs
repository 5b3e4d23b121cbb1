//! How the harts of a machine take turns, what the firmware does when it is called, and how the
//! clock goes on.

use vstd::prelude::*;
use vstd::arithmetic::power2::pow2;
use crate::bus::BusState;
use crate::cpu::{
    cpu_step, serviced, targeted, HartEffect, HartState, Privilege, SbiRequest, StepError,
};
use crate::csr::csr_get;
use crate::isa::put;
use crate::machine::{occurs, total_fires, MachineState};
use crate::model::{native_memop, step, HartModel};
use crate::probe::after;

verus! {

// The firmware.

/// Whether bit `id - base` of `mask` is set.
pub open spec fn names(mask: u64, base: u64, id: int) -> bool {
    base <= id < base + 64 && mask as int / pow2((id - base) as nat) as int % 2 == 1
}

proof fn lemma_targeted(mask: u64, base: u64, id: int)
    ensures
        targeted(mask, base, id) == names(mask, base, id),
{
    if base <= id < base + 64 {
        let k = (id - base) as u64;
        vstd::bits::lemma_u64_shr_is_div(mask, k);
        let v = mask >> k;
        assert((v & 1 != 0) == (v % 2 == 1)) by (bit_vector);
    }
}

/// A hart that called the firmware, with its answer: an error in register 10, and 0 in register
/// 11.
pub open spec fn answered(h: HartModel, error: int) -> HartModel {
    put(put(h, 10, error), 11, 0)
}

/// Sending interrupts raises the software interrupt of every hart that the mask names, counted
/// from its base, and of no other. Nothing else of them changes, and the caller is told of
/// success.
pub proof fn law_interrupts_are_sent(
    harts: Seq<HartModel>,
    caller: int,
    req: SbiRequest,
    i: int,
)
    requires
        req.eid == 0x73_5049,
        req.fid == 0,
        0 <= caller < harts.len(),
        0 <= i < harts.len(),
        harts[i].csr.len() == 10,
    ensures
        ({
            let after = serviced(harts, caller, req);
            let h = harts[i];
            let t = after[i];
            let raised = HartModel { csr: t.csr, ..h };
            &&& after.len() == harts.len()
            &&& t == if i == caller {
                answered(raised, 0)
            } else {
                raised
            }
            &&& csr_get(t.csr, 0x144) == if names(req.arg0, req.arg1, i) {
                csr_get(h.csr, 0x144) | 2
            } else {
                csr_get(h.csr, 0x144)
            }
            &&& csr_get(t.csr, 0x100) == csr_get(h.csr, 0x100)
            &&& csr_get(t.csr, 0x104) == csr_get(h.csr, 0x104)
            &&& csr_get(t.csr, 0x105) == csr_get(h.csr, 0x105)
            &&& csr_get(t.csr, 0x180) == csr_get(h.csr, 0x180)
            &&& csr_get(t.csr, 0x14d) == csr_get(h.csr, 0x14d)
            &&& !names(req.arg0, req.arg1, i) ==> t.csr == h.csr
        }),
{
    reveal(serviced);
    lemma_targeted(req.arg0, req.arg1, i);
}

/// Starting a hart that there is and that is not running makes it run, from the address that was
/// asked for, with its number in register 10 and what was handed on in register 11. Nothing else
/// of it changes, and no other hart does but the caller, who is told of success. A hart that
/// there is not is error -3, and one that runs is -6.
pub proof fn law_harts_are_started(harts: Seq<HartModel>, caller: int, req: SbiRequest)
    requires
        req.eid == 0x48_534d,
        req.fid == 0,
        0 <= caller < harts.len(),
        harts[caller].run == HartState::Running,
    ensures
        ({
            let after = serviced(harts, caller, req);
            let target = req.arg0 as int;
            let woken = HartModel {
                run: HartState::Running,
                pc: req.arg1,
                ..put(put(harts[target], 10, target), 11, req.arg2 as int)
            };
            &&& req.arg0 >= harts.len() ==> after == harts.update(
                caller,
                answered(harts[caller], -3),
            )
            &&& req.arg0 < harts.len() && harts[target].run == HartState::Running ==> after
                == harts.update(caller, answered(harts[caller], -6))
            &&& req.arg0 < harts.len() && harts[target].run != HartState::Running ==> after
                == harts.update(target, woken).update(caller, answered(harts[caller], 0))
        }),
{
    reveal(serviced);
}

/// Any other call is answered with error -2.
pub proof fn law_other_calls_are_refused(harts: Seq<HartModel>, caller: int, req: SbiRequest)
    requires
        !(req.eid == 0x73_5049 && req.fid == 0),
        !(req.eid == 0x48_534d && req.fid == 0),
        0 <= caller < harts.len(),
    ensures
        serviced(harts, caller, req) == harts.update(caller, answered(harts[caller], -2)),
{
    reveal(serviced);
}

// Turns.

/// A turn is one step of a hart against the machine's clock and bus. The clock goes on by what
/// the step retired: one instruction, or those of a block, or none where the hart is parked. A
/// call of the firmware is answered at once.
pub proof fn law_a_turn_is_a_step(m: MachineState, i: int, probing: bool)
    requires
        0 <= i < m.harts.len(),
    ensures
        ({
            let (h, bus, r) = step(HartModel { cycle: m.time, ..m.harts[i] }, m.bus);
            let (n, turn) = m.turn(i, probing);
            let harts = m.harts.update(i, h);
            let clock = |k: int| (m.time + k) % 0x1_0000_0000_0000_0000;
            &&& n.bus == bus
            &&& match r {
                Err(e) => turn == Err::<bool, StepError>(e) && n.harts == harts && n.time
                    == m.time,
                Ok(HartEffect::Idle) => turn == Ok::<bool, StepError>(false) && n.harts == harts
                    && n.time == m.time,
                Ok(HartEffect::Retired) => turn == Ok::<bool, StepError>(true) && n.harts == harts
                    && n.time == clock(1),
                Ok(HartEffect::Block(k)) => turn == Ok::<bool, StepError>(true) && n.harts == harts
                    && n.time == clock(k as int),
                Ok(HartEffect::Sbi(req)) => turn == Ok::<bool, StepError>(true) && n.harts
                    == serviced(harts, i, req) && n.time == clock(1),
            }
        }),
{
    reveal(MachineState::turn);
    reveal(MachineState::noted);
    m.lemma_entered_keeps(i, m.harts[i].pc);
}

/// The harts take turns in the order of their numbers, each once; those that are stopped are
/// passed over, and an error ends the round.
pub proof fn law_harts_take_turns(m: MachineState, i: int, retired: bool)
    requires
        0 <= i <= m.harts.len(),
    ensures
        i == m.harts.len() ==> m.turns(i, retired) == (m, Ok::<bool, StepError>(retired)),
        i < m.harts.len() && m.harts[i].run == HartState::Stopped ==> m.turns(i, retired)
            == m.turns(i + 1, retired),
        i < m.harts.len() && m.harts[i].run != HartState::Stopped ==> match m.turn(i, true) {
            (n, Ok(b)) => m.turns(i, retired) == n.turns(i + 1, retired || b),
            (n, Err(e)) => m.turns(i, retired) == (n, Err::<bool, StepError>(e)),
        },
{
    if i < m.harts.len() {
        m.lemma_turn_keeps_harts(i, true);
    }
}

/// A round is a turn of every hart from the first on. One in which nothing was retired moves the
/// clock on to the earliest time at which a parked hart wakes, if that is to come.
pub proof fn law_a_round(m: MachineState)
    ensures
        match m.turns(0, false) {
            (n, Err(e)) => m.round() == (n, Err::<(), StepError>(e)),
            (n, Ok(true)) => m.round() == (n, Ok::<(), StepError>(())),
            (n, Ok(false)) => m.round() == (
                MachineState {
                    time: match MachineState::earliest_deadline(n.harts, n.harts.len() as int) {
                        Some(t) => if t > n.time {
                            t
                        } else {
                            n.time
                        },
                        None => n.time,
                    },
                    ..n
                },
                Ok::<(), StepError>(()),
            ),
        },
{
    reveal(MachineState::round);
}

/// A parked hart wakes at its `stimecmp`, if its timer interrupt is enabled and interrupts are;
/// all ones there means never.
pub proof fn law_when_a_hart_wakes(h: HartModel)
    ensures
        ({
            let at = csr_get(h.csr, 0x14d);
            let enabled = csr_get(h.csr, 0x104) & 0x20 != 0 && (h.privilege == Privilege::User
                || csr_get(h.csr, 0x100) & 0x2 != 0);
            h.deadline() == if enabled && at != 0xffff_ffff_ffff_ffff {
                Some(at)
            } else {
                None
            }
        }),
{
    reveal(HartModel::deadline);
}

/// A step of a machine is a round, unless native memory operations are on and a running hart is
/// at the start of one: then the first such hart's is carried out and charged. On a machine of
/// one hart the clock goes on by the charge.
pub proof fn law_a_native_operation_is_charged(m: MachineState)
    requires
        m.harts.len() == 1,
    ensures
        ({
            let h = m.harts[0];
            let here = h.run == HartState::Running && (m.memset_pc == Some(h.pc) || m.memcpy_pc
                == Some(h.pc));
            let (h1, bus, charge) = native_memop(h, m.bus, m.memset_pc, m.memcpy_pc);
            let (n, r) = m.stepped();
            &&& !(m.native_ops && here) ==> m.stepped() == m.round()
            &&& m.native_ops && here && charge is Some ==> {
                &&& r is Ok
                &&& n.harts == seq![h1]
                &&& n.bus == bus
                &&& n.time == (m.time + charge->0) % 0x1_0000_0000_0000_0000
            }
            &&& m.native_ops && here && charge is None ==> m.stepped() == (MachineState {
                harts: seq![h1],
                bus,
                ..m
            }).round()
        }),
{
    reveal(MachineState::stepped);
    reveal(MachineState::collapsed);
    reveal_with_fuel(MachineState::at_memop, 2);
    let (h1, bus, charge) = native_memop(m.harts[0], m.bus, m.memset_pc, m.memcpy_pc);
    assert(m.harts.update(0, h1) =~= seq![h1]);
}

/// A hart on its own steps against its count of retired instructions as its clock. A call of the
/// firmware is answered at once, and where it is parked its clock goes on to when it wakes.
pub proof fn law_a_lone_hart(h: HartModel, b: BusState)
    ensures
        ({
            let (h1, b1, r) = step(HartModel { cycle: h.instret, ..h }, b);
            match r {
                Err(e) => cpu_step(h, b) == (h1, b1, Err::<(), StepError>(e)),
                Ok(HartEffect::Sbi(req)) => cpu_step(h, b) == (
                    serviced(seq![h1], 0, req)[0],
                    b1,
                    Ok::<(), StepError>(()),
                ),
                Ok(HartEffect::Idle) => cpu_step(h, b) == (
                    HartModel {
                        instret: match h1.deadline() {
                            Some(t) => if t > h1.instret {
                                t
                            } else {
                                h1.instret
                            },
                            None => h1.instret,
                        },
                        ..h1
                    },
                    b1,
                    Ok::<(), StepError>(()),
                ),
                Ok(_) => cpu_step(h, b) == (h1, b1, Ok::<(), StepError>(())),
            }
        }),
{
}

// Running to a marker.

/// A run to a marker ends when the console has printed it, with the number of steps that it took,
/// or at the first step that fails, or when its steps are used up; it takes no other steps.
pub proof fn law_a_run_ends_at_its_marker(
    m: MachineState,
    marker: Seq<u8>,
    seen: int,
    left: nat,
    steps: u64,
)
    requires
        steps + left <= u64::MAX,
    ensures
        ({
            let (end, r) = m.until_uart(marker, seen, left, steps);
            match r {
                Ok(n) => {
                    &&& steps <= n < steps + left
                    &&& after(m, (n - steps) as nat) == (end, None::<StepError>)
                    &&& exists|i: int|
                        0 <= i && i + marker.len() <= end.bus.uart.output.len() && (
                        #[trigger] end.bus.uart.output.subrange(i, i + marker.len())) == marker
                },
                Err(None) => after(m, left) == (end, None::<StepError>),
                Err(Some(e)) => after(m, left) == (end, Some(e)),
            }
        }),
    decreases left,
{
    if left > 0 {
        if m.bus.uart.output.len() != seen && occurs(m.bus.uart.output, marker) {
            let out = m.bus.uart.output;
            let i = choose|i: int|
                0 <= i <= out.len() - marker.len() && #[trigger] out.subrange(i, i + marker.len())
                    == marker;
            assert(out.subrange(i, i + marker.len()) == marker);
        } else if let (next, Ok(())) = m.stepped() {
            law_a_run_ends_at_its_marker(
                next,
                marker,
                m.bus.uart.output.len() as int,
                (left - 1) as nat,
                (steps + 1) as u64,
            );
        }
    }
}

/// The timer interrupts of a machine are those of its harts together.
pub proof fn law_timer_interrupts_are_counted(harts: Seq<HartModel>, n: int)
    requires
        0 <= n < harts.len(),
    ensures
        total_fires(harts, 0) == 0,
        total_fires(harts, n + 1) as int == (total_fires(harts, n) + harts[n].timer_fires)
            % 0x1_0000_0000_0000_0000,
{
}

// Attribution.

/// What a turn retires is counted at the address at which the hart was before it, and at no
/// other.
pub proof fn law_a_turn_is_counted_where_it_began(m: MachineState, i: int, probing: bool, other: u64)
    requires
        0 <= i < m.harts.len(),
        m.profile is Some,
    ensures
        ({
            let pc = m.harts[i].pc;
            let r = step(HartModel { cycle: m.time, ..m.harts[i] }, m.bus).2;
            let k: int = match r {
                Ok(HartEffect::Block(n)) => n as int,
                Ok(HartEffect::Retired) => 1,
                Ok(HartEffect::Sbi(_)) => 1,
                _ => 0,
            };
            let before = m.profile->0;
            let after = m.turn(i, probing).0.profile->0;
            let had = if before.contains_key(pc) {
                before[pc] as int
            } else {
                0
            };
            &&& m.turn(i, probing).0.profile is Some
            &&& r is Err || r == Ok::<HartEffect, StepError>(HartEffect::Idle) ==> after == before
            &&& !(r is Err || r == Ok::<HartEffect, StepError>(HartEffect::Idle))
                ==> after.contains_key(pc) && after[pc] == (had + k) % 0x1_0000_0000_0000_0000
            &&& other != pc ==> after.contains_key(other) == before.contains_key(other)
            &&& other != pc && before.contains_key(other) ==> after[other] == before[other]
        }),
{
    reveal(MachineState::turn);
    reveal(MachineState::noted);
    m.lemma_entered_keeps(i, m.harts[i].pc);
}

/// The probe times a memory operation from where it starts to where it returns: it notes the
/// return address in register 1 and the length in register 12, counts each instruction, and at
/// the return adds one operation, the instructions it took, and what it would be charged.
pub proof fn law_memory_operations_are_timed(m: MachineState, i: int, pc: u64)
    requires
        m.probe is Some,
        0 <= i < (m.probe->0).inflight.len(),
    ensures
        ({
            let p = m.probe->0;
            let e = m.entered(i, pc).probe->0;
            let n = m.noted(i).probe->0;
            let starts = m.memset_pc == Some(pc) || m.memcpy_pc == Some(pc);
            &&& starts && p.inflight[i] is None ==> {
                &&& e.inflight[i] is Some
                &&& (e.inflight[i]->0).return_pc == m.harts[i].x[1]
                &&& (e.inflight[i]->0).len == m.harts[i].x[12]
                &&& (e.inflight[i]->0).count == 0
            }
            &&& !(starts && p.inflight[i] is None) ==> e == p
            &&& p.inflight[i] is None ==> n == p
            &&& p.inflight[i] matches Some(f) ==> {
                let took = ((f.count + 1) % 0x1_0000_0000_0000_0000) as u64;
                if m.harts[i].pc == f.return_pc {
                    &&& n.inflight[i] is None
                    &&& n.invocations == (p.invocations + 1) % 0x1_0000_0000_0000_0000
                    &&& n.real == (p.real + took) % 0x1_0000_0000_0000_0000
                    &&& n.charged == (p.charged + (24 + f.len as int / 8 * 3 + f.len as int % 8
                        * 4)) % 0x1_0000_0000_0000_0000
                } else {
                    &&& n.inflight[i] is Some
                    &&& (n.inflight[i]->0).count == took
                    &&& n.invocations == p.invocations && n.real == p.real && n.charged
                        == p.charged
                }
            }
        }),
{
    reveal(MachineState::entered);
    reveal(MachineState::noted);
}

/// The hart whose memory operation is carried out natively is the first that runs and is at the
/// start of one.
pub proof fn law_the_first_hart_at_an_operation(m: MachineState, i: int)
    requires
        0 <= i,
    ensures
        ({
            let at_start = |j: int|
                m.harts[j].run == HartState::Running && (m.memset_pc == Some(m.harts[j].pc)
                    || m.memcpy_pc == Some(m.harts[j].pc));
            match m.at_memop(i) {
                Some(k) => i <= k < m.harts.len() && at_start(k) && forall|j: int|
                    i <= j < k ==> !(#[trigger] at_start(j)),
                None => forall|j: int| i <= j < m.harts.len() ==> !(#[trigger] at_start(j)),
            }
        }),
    decreases m.harts.len() - i,
{
    if i < m.harts.len() {
        law_the_first_hart_at_an_operation(m, i + 1);
    }
}

} // verus!
