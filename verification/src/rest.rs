//! A machine in which every hart is parked and no timer will fire stays as it is.

use vstd::prelude::*;
use crate::bus::BusState;
use crate::cpu::{HartEffect, HartState, StepError};
use crate::csr::addr;
use crate::decode::expansion;
use crate::laws::law_a_parked_hart_stays_parked;
use crate::machine::MachineState;
use crate::mmu::Access;
use crate::model::{
    fetch_and_retire, interpret, native_memop, remembering, retire, run_next, step, try_block,
    HartModel, ILEN_COMPRESSED, ILEN_FULL,
};
use crate::profile::retires;

verus! {

proof fn lemma_a_retired_instruction_is_not_idle(h: HartModel, b: BusState, raw: u32)
    ensures
        retire(h, b, raw).2 != Ok::<HartEffect, StepError>(HartEffect::Idle),
{
    reveal(retire);
}

proof fn lemma_a_fetched_instruction_is_not_idle(h: HartModel, b: BusState)
    ensures
        fetch_and_retire(h, b).2 != Ok::<HartEffect, StepError>(HartEffect::Idle),
{
    reveal(fetch_and_retire);
    if let Some(pa) = h.translate(b, h.pc, Access::Fetch) {
        let (half, b1) = b.read(pa, 2);
        let (word, b2) = b1.read(pa, 4);
        if let Some(raw) = expansion(half->0 as u16) {
            let h1 = HartModel { ilen: ILEN_COMPRESSED, ..h };
            lemma_a_retired_instruction_is_not_idle(remembering(h1, raw), b1, raw);
        }
        let raw = word->0 as u32;
        let h1 = HartModel { ilen: ILEN_FULL, ..h };
        lemma_a_retired_instruction_is_not_idle(remembering(h1, raw), b2, raw);
    }
}

proof fn lemma_an_interpreted_instruction_is_not_idle(h: HartModel, b: BusState)
    ensures
        interpret(h, b).2 != Ok::<HartEffect, StepError>(HartEffect::Idle),
{
    reveal(interpret);
    match h.decode {
        None => lemma_a_fetched_instruction_is_not_idle(h, b),
        Some(cache) => {
            let satp = h.get(addr::SATP);
            let h1 = HartModel { decode: Some(cache.after_lookup(satp, h.pc)), ..h };
            lemma_a_fetched_instruction_is_not_idle(h1, b);
            if let Some(d) = cache.lookup(satp, h.pc) {
                lemma_a_retired_instruction_is_not_idle(
                    HartModel { ilen: d.ilen, ..h1 },
                    b,
                    d.raw,
                );
            }
        },
    }
}

/// A step of a hart that is not parked retires something, or fails.
proof fn lemma_only_a_parked_hart_idles(h: HartModel, b: BusState)
    requires
        step(h, b).2 == Ok::<HartEffect, StepError>(HartEffect::Idle),
    ensures
        h.run == HartState::Idle,
        h.pending() is None,
{
    reveal(step);
    reveal(run_next);
    lemma_an_interpreted_instruction_is_not_idle(h, b);
    let (h1, b1, _) = try_block(h, b);
    lemma_an_interpreted_instruction_is_not_idle(h1, b1);
}

/// What a round in which nothing retires leaves of the harts up to `k` and of the rest.
spec fn untouched(m: MachineState, n: MachineState, k: int) -> bool {
    &&& n == (MachineState { harts: n.harts, probe: n.probe, ..m })
    &&& n.harts.len() == m.harts.len()
    &&& forall|j: int| 0 <= j < k ==> #[trigger] n.harts[j] == m.harts[j]
    &&& match (m.probe, n.probe) {
        (None, None) => true,
        (Some(p), Some(q)) => forall|j: int| 0 <= j < k ==> #[trigger] q.inflight[j]
            == p.inflight[j],
        _ => false,
    }
}

/// Whether the harts from `i` on are stopped or parked, with the clock they last saw.
spec fn asleep(m: MachineState, i: int) -> bool {
    forall|j: int|
        i <= j < m.harts.len() ==> (#[trigger] m.harts[j]).run == HartState::Stopped || (
        m.harts[j].run == HartState::Idle && m.harts[j].pending() is None && m.harts[j].cycle
            == m.time)
}

/// The turn of a hart that retires nothing.
proof fn lemma_idle_turn(m: MachineState, i: int)
    requires
        0 <= i < m.harts.len(),
        m.turn(i, true).1 == Ok::<bool, StepError>(false),
    ensures
        ({
            let n = m.turn(i, true).0;
            &&& n == (MachineState {
                harts: m.harts.update(i, HartModel { cycle: m.time, ..m.harts[i] }),
                probe: m.entered(i, m.harts[i].pc).probe,
                ..m
            })
            &&& m.harts[i].run == HartState::Idle
            &&& (HartModel { cycle: m.time, ..m.harts[i] }).pending() is None
        }),
{
    reveal(MachineState::turn);
    m.lemma_entered_keeps(i, m.harts[i].pc);
    let h = HartModel { cycle: m.time, ..m.harts[i] };
    lemma_only_a_parked_hart_idles(h, m.bus);
    law_a_parked_hart_stays_parked(h, m.bus);
}

/// The turn of a hart that is asleep changes nothing but what the probe notes first.
proof fn lemma_asleep_turn(m: MachineState, i: int)
    requires
        0 <= i < m.harts.len(),
        m.harts[i].run == HartState::Idle,
        m.harts[i].pending() is None,
        m.harts[i].cycle == m.time,
        m.entered(i, m.harts[i].pc) == m,
    ensures
        m.turn(i, true) == (m, Ok::<bool, StepError>(false)),
{
    reveal(MachineState::turn);
    law_a_parked_hart_stays_parked(m.harts[i], m.bus);
    assert(HartModel { cycle: m.time, ..m.harts[i] } == m.harts[i]);
    assert(m.harts.update(i, m.harts[i]) =~= m.harts);
}

proof fn lemma_entered(m: MachineState, i: int, pc: u64)
    requires
        0 <= i,
        m.probe is Some ==> i < (m.probe->0).inflight.len(),
    ensures
        ({
            let q = m.entered(i, pc).probe;
            match (m.probe, q) {
                (None, None) => true,
                (Some(p), Some(q)) => {
                    &&& q.inflight.len() == p.inflight.len()
                    &&& forall|j: int|
                        0 <= j < q.inflight.len() && j != i ==> #[trigger] q.inflight[j]
                            == p.inflight[j]
                    &&& m.is_memop(pc) ==> q.inflight[i] is Some
                },
                _ => false,
            }
        }),
{
    reveal(MachineState::entered);
}

/// Whether the probe, if there is one, watches every hart.
pub open spec fn probe_fits(m: MachineState) -> bool {
    m.probe is Some ==> (m.probe->0).inflight.len() == m.harts.len()
}

/// A step keeps the probe watching every hart.
pub proof fn lemma_probe_fits(m: MachineState)
    requires
        probe_fits(m),
    ensures
        probe_fits(m.stepped().0),
{
    reveal(MachineState::stepped);
    reveal(MachineState::round);
    reveal(MachineState::collapsed);
    lemma_turns_probe(m, 0, false);
    if let Some(i) = m.at_memop(0) {
        crate::machine::lemma_at_memop_is_a_hart(m, 0);
        let (h, bus, done) = native_memop(m.harts[i], m.bus, m.memset_pc, m.memcpy_pc);
        let n = MachineState { harts: m.harts.update(i, h), bus, ..m };
        lemma_turns_probe(n, 0, false);
        if let Some(charged) = done {
            lemma_peer_rounds_probe(n.counted(m.harts[i].pc, charged), i, charged);
        }
    }
}

proof fn lemma_turn_probe(m: MachineState, i: int, probing: bool)
    requires
        probe_fits(m),
        0 <= i < m.harts.len(),
    ensures
        probe_fits(m.turn(i, probing).0),
        m.turn(i, probing).0.harts.len() == m.harts.len(),
{
    m.lemma_turn_keeps_harts(i, probing);
    m.lemma_entered_keeps(i, m.harts[i].pc);
    lemma_entered(m, i, m.harts[i].pc);
    reveal(MachineState::turn);
    reveal(MachineState::noted);
}

proof fn lemma_turns_probe(m: MachineState, i: int, retired: bool)
    requires
        probe_fits(m),
        0 <= i <= m.harts.len(),
    ensures
        probe_fits(m.turns(i, retired).0),
    decreases m.harts.len() - i,
{
    if i < m.harts.len() {
        if m.harts[i].run == HartState::Stopped {
            lemma_turns_probe(m, i + 1, retired);
        } else {
            lemma_turn_probe(m, i, true);
            let (n, turn) = m.turn(i, true);
            if let Ok(b) = turn {
                lemma_turns_probe(n, i + 1, retired || b);
            }
        }
    }
}

proof fn lemma_peers_probe(m: MachineState, i: int, j: int)
    requires
        probe_fits(m),
        0 <= j <= m.harts.len(),
    ensures
        probe_fits(m.peers(i, j).0),
    decreases m.harts.len() - j,
{
    if j < m.harts.len() {
        if j == i || m.harts[j].run == HartState::Stopped {
            lemma_peers_probe(m, i, j + 1);
        } else {
            lemma_turn_probe(m, j, false);
            lemma_peers_probe(m.turn(j, false).0, i, j + 1);
        }
    }
}

proof fn lemma_peer_rounds_probe(m: MachineState, i: int, n: u64)
    requires
        probe_fits(m),
    ensures
        probe_fits(m.peer_rounds(i, n).0),
    decreases n,
{
    if n > 0 {
        lemma_peers_probe(m.ticked(1), i, 0);
        lemma_peer_rounds_probe(m.ticked(1).peers(i, 0).0, i, (n - 1) as u64);
    }
}

proof fn lemma_idle_turns(m: MachineState, i: int)
    requires
        0 <= i <= m.harts.len(),
        probe_fits(m),
        m.turns(i, false).1 == Ok::<bool, StepError>(false),
    ensures
        untouched(m, m.turns(i, false).0, i),
        asleep(m.turns(i, false).0, i),
        probe_fits(m.turns(i, false).0),
        m.turns(i, false).0.turns(i, false) == m.turns(i, false),
    decreases m.harts.len() - i,
{
    let end = m.turns(i, false).0;
    if i < m.harts.len() {
        if m.harts[i].run == HartState::Stopped {
            lemma_idle_turns(m, i + 1);
            assert(end.harts[i] == m.harts[i]);
        } else {
            m.lemma_turn_keeps_harts(i, true);
            let (n, turn) = m.turn(i, true);
            lemma_retired_stays(n, i + 1);
            assert(turn == Ok::<bool, StepError>(false));
            lemma_idle_turn(m, i);
            lemma_entered(m, i, m.harts[i].pc);
            lemma_idle_turns(n, i + 1);
            assert(end.harts[i] == n.harts[i]);
            assert(end.entered(i, end.harts[i].pc) == end) by {
                reveal(MachineState::entered);
                if let Some(q) = end.probe {
                    assert(q.inflight[i] == (n.probe->0).inflight[i]);
                }
            }
            lemma_asleep_turn(end, i);
            assert forall|j: int| 0 <= j < i implies #[trigger] end.harts[j] == m.harts[j] by {
                assert(n.harts[j] == m.harts[j]);
            }
            if let Some(q) = end.probe {
                assert forall|j: int| 0 <= j < i implies #[trigger] q.inflight[j] == (
                m.probe->0).inflight[j] by {
                    assert((n.probe->0).inflight[j] == (m.probe->0).inflight[j]);
                }
            }
        }
    }
}

/// Once something has retired in a round, something has.
proof fn lemma_retired_stays(m: MachineState, i: int)
    requires
        0 <= i <= m.harts.len(),
    ensures
        m.turns(i, true).1 is Ok ==> m.turns(i, true).1 == Ok::<bool, StepError>(true),
    decreases m.harts.len() - i,
{
    if i < m.harts.len() {
        if m.harts[i].run == HartState::Stopped {
            lemma_retired_stays(m, i + 1);
        } else {
            m.lemma_turn_keeps_harts(i, true);
            let (n, turn) = m.turn(i, true);
            if turn is Ok {
                lemma_retired_stays(n, i + 1);
            }
        }
    }
}

proof fn lemma_no_memop(m: MachineState, i: int)
    requires
        0 <= i,
        asleep(m, i),
    ensures
        m.at_memop(i) is None,
    decreases m.harts.len() - i,
{
    if i < m.harts.len() {
        lemma_no_memop(m, i + 1);
    }
}

proof fn lemma_quiet_round(m: MachineState)
    requires
        probe_fits(m),
        m.turns(0, false).1 == Ok::<bool, StepError>(false),
        m.round().0.time == m.time,
    ensures
        m.round().0.stepped() == (m.round().0, Ok::<(), StepError>(())),
{
    reveal(MachineState::round);
    reveal(MachineState::stepped);
    lemma_idle_turns(m, 0);
    let n = m.turns(0, false).0;
    assert(m.round().0 == n);
    lemma_no_memop(n, 0);
}

/// A machine whose step retired nothing and left the clock where it was is at rest: one more
/// step succeeds and changes nothing at all.
pub proof fn law_a_machine_at_rest_stays_at_rest(m: MachineState)
    requires
        probe_fits(m),
        !retires(m),
        m.stepped().1 is Ok,
        m.stepped().0.time == m.time,
    ensures
        m.stepped().0.stepped() == (m.stepped().0, Ok::<(), StepError>(())),
{
    reveal(MachineState::stepped);
    reveal(MachineState::round);
    match m.at_memop(0) {
        Some(i) if m.native_ops => {
            let (h, bus, done) = native_memop(m.harts[i], m.bus, m.memset_pc, m.memcpy_pc);
            let n = MachineState { harts: m.harts.update(i, h), bus, ..m };
            crate::machine::lemma_at_memop_is_a_hart(m, 0);
            lemma_quiet_round(n);
        },
        _ => {
            lemma_quiet_round(m);
        },
    }
}

} // verus!
