//! What a profile adds up to: every instruction that the clock counted is attributed to the
//! address it ran at.

use vstd::prelude::*;
use crate::cpu::{HartEffect, HartState, StepError};
use crate::machine::MachineState;
use crate::model::{native_memop, step, HartModel};

verus! {

/// The counts of a profile, added up.
pub open spec fn total(p: Map<u64, u64>) -> int
    decreases p.dom().len(),
    when p.dom().finite()
{
    if p.dom().len() == 0 {
        0
    } else {
        let k = p.dom().choose();
        p[k] + total(p.remove(k))
    }
}

proof fn lemma_total_remove(p: Map<u64, u64>, k: u64)
    requires
        p.dom().finite(),
        p.contains_key(k),
    ensures
        total(p) == p[k] + total(p.remove(k)),
    decreases p.dom().len(),
{
    let c = p.dom().choose();
    if c != k {
        lemma_total_remove(p.remove(c), k);
        lemma_total_remove(p.remove(k), c);
        assert(p.remove(c).remove(k) =~= p.remove(k).remove(c));
    }
}

/// The clock's advance and the profile's growth agree, but for `extra` instructions that the
/// clock counted and the profile did not. Both wrap, so they agree modulo 2^64.
pub open spec fn tallies(m: MachineState, n: MachineState, extra: int) -> bool {
    match (m.profile, n.profile) {
        (Some(p), Some(q)) => {
            &&& q.dom().finite()
            &&& (total(q) - total(p) - (n.time - m.time) + extra) % 0x1_0000_0000_0000_0000 == 0
        },
        _ => false,
    }
}

/// Whether profiling is on.
pub open spec fn profiling(m: MachineState) -> bool {
    m.profile is Some && (m.profile->0).dom().finite()
}

proof fn lemma_in_turn(a: MachineState, b: MachineState, c: MachineState, x: int, y: int)
    requires
        tallies(a, b, x),
        tallies(b, c, y),
    ensures
        tallies(a, c, x + y),
{
    let u = total(b.profile->0) - total(a.profile->0) - (b.time - a.time) + x;
    let v = total(c.profile->0) - total(b.profile->0) - (c.time - b.time) + y;
    assert((u + v) % 0x1_0000_0000_0000_0000 == 0) by (nonlinear_arith)
        requires
            u % 0x1_0000_0000_0000_0000 == 0,
            v % 0x1_0000_0000_0000_0000 == 0,
    ;
}

/// Attributing instructions adds to the profile, and to nothing else.
proof fn lemma_counted(m: MachineState, pc: u64, n: u64)
    requires
        profiling(m),
    ensures
        tallies(m, m.counted(pc, n), -(n as int)),
{
    let p = m.profile->0;
    let before = if p.dom().contains(pc) {
        p[pc]
    } else {
        0
    };
    let now = before.wrapping_add(n);
    let q = p.insert(pc, now);
    lemma_total_remove(q, pc);
    assert(q.remove(pc) =~= p.remove(pc));
    if p.contains_key(pc) {
        lemma_total_remove(p, pc);
    } else {
        assert(p.remove(pc) =~= p);
    }
    assert(total(q) - total(p) == now - before);
}

proof fn lemma_ticked(m: MachineState, n: u64)
    requires
        profiling(m),
    ensures
        tallies(m, m.ticked(n), n as int),
{
}

/// `n` instructions that ran at `pc` are counted and attributed.
proof fn lemma_ticked_and_counted(m: MachineState, pc: u64, n: u64)
    requires
        profiling(m),
    ensures
        tallies(m, m.ticked(n).counted(pc, n), 0),
{
    lemma_ticked(m, n);
    lemma_counted(m.ticked(n), pc, n);
    lemma_in_turn(m, m.ticked(n), m.ticked(n).counted(pc, n), n as int, -(n as int));
}

/// What neither the clock nor the profile sees.
proof fn lemma_apart(m: MachineState, n: MachineState)
    requires
        profiling(m),
        n.time == m.time,
        n.profile == m.profile,
    ensures
        tallies(m, n, 0),
{
}

proof fn lemma_turn(m: MachineState, i: int, probing: bool)
    requires
        profiling(m),
    ensures
        tallies(m, m.turn(i, probing).0, 0),
{
    reveal(MachineState::turn);
    m.lemma_entered_keeps(i, m.harts[i].pc);
    let pc = m.harts[i].pc;
    let m0 = if probing {
        m.entered(i, pc)
    } else {
        m
    };
    let (h, bus, r) = step(HartModel { cycle: m.time, ..m.harts[i] }, m.bus);
    let m1 = MachineState { harts: m.harts.update(i, h), bus, ..m0 };
    lemma_apart(m, m1);
    match r {
        Err(_) => {},
        Ok(HartEffect::Idle) => {},
        Ok(HartEffect::Block(n)) => {
            lemma_ticked_and_counted(m1, pc, n);
            lemma_in_turn(m, m1, m1.ticked(n).counted(pc, n), 0, 0);
        },
        Ok(HartEffect::Retired) => {
            lemma_after_one(m1, i, pc, probing);
            lemma_in_turn(m, m1, m1.after_one(i, pc, probing), 0, 0);
        },
        Ok(HartEffect::Sbi(req)) => {
            let m2 = MachineState { harts: crate::cpu::serviced(m1.harts, i, req), ..m1 };
            lemma_apart(m, m2);
            lemma_after_one(m2, i, pc, probing);
            lemma_in_turn(m, m2, m2.after_one(i, pc, probing), 0, 0);
        },
    }
}

proof fn lemma_after_one(m: MachineState, i: int, pc: u64, probing: bool)
    requires
        profiling(m),
    ensures
        tallies(m, m.after_one(i, pc, probing), 0),
{
    if probing {
        reveal(MachineState::noted);
        let a = m.ticked(1);
        let b = a.noted(i);
        lemma_ticked(m, 1);
        lemma_apart(a, b);
        lemma_counted(b, pc, 1);
        lemma_in_turn(m, a, b, 1, 0);
        lemma_in_turn(m, b, b.counted(pc, 1), 1, -1);
    } else {
        lemma_ticked_and_counted(m, pc, 1);
    }
}

proof fn lemma_turns(m: MachineState, i: int, retired: bool)
    requires
        profiling(m),
        0 <= i <= m.harts.len(),
    ensures
        tallies(m, m.turns(i, retired).0, 0),
    decreases m.harts.len() - i,
{
    if i >= m.harts.len() {
        lemma_apart(m, m);
    } else if m.harts[i].run == HartState::Stopped {
        lemma_turns(m, i + 1, retired);
    } else {
        m.lemma_turn_keeps_harts(i, true);
        lemma_turn(m, i, true);
        let (n, turn) = m.turn(i, true);
        if let Ok(b) = turn {
            lemma_turns(n, i + 1, retired || b);
            lemma_in_turn(m, n, n.turns(i + 1, retired || b).0, 0, 0);
        }
    }
}

proof fn lemma_peers(m: MachineState, i: int, j: int)
    requires
        profiling(m),
        0 <= j <= m.harts.len(),
    ensures
        tallies(m, m.peers(i, j).0, 0),
    decreases m.harts.len() - j,
{
    if j >= m.harts.len() {
        lemma_apart(m, m);
    } else if j == i || m.harts[j].run == HartState::Stopped {
        lemma_peers(m, i, j + 1);
    } else {
        m.lemma_turn_keeps_harts(j, false);
        lemma_turn(m, j, false);
        let (n, turn) = m.turn(j, false);
        if turn is Ok {
            lemma_peers(n, i, j + 1);
            lemma_in_turn(m, n, n.peers(i, j + 1).0, 0, 0);
        }
    }
}

proof fn lemma_peer_rounds(m: MachineState, i: int, n: u64)
    requires
        profiling(m),
        m.peer_rounds(i, n).1 is Ok,
    ensures
        tallies(m, m.peer_rounds(i, n).0, n as int),
    decreases n,
{
    if n == 0 {
        lemma_apart(m, m);
    } else {
        let a = m.ticked(1);
        lemma_ticked(m, 1);
        lemma_peers(a, i, 0);
        let b = a.peers(i, 0).0;
        lemma_in_turn(m, a, b, 1, 0);
        lemma_peer_rounds(b, i, (n - 1) as u64);
        lemma_in_turn(m, b, b.peer_rounds(i, (n - 1) as u64).0, 1, n - 1);
    }
}

/// Whether some hart retires an instruction in the next step, so that the clock is not moved
/// on to a deadline.
pub open spec fn retires(m: MachineState) -> bool {
    match m.at_memop(0) {
        Some(i) if m.native_ops => {
            let (h, bus, done) = native_memop(m.harts[i], m.bus, m.memset_pc, m.memcpy_pc);
            done is Some || MachineState {
                harts: m.harts.update(i, h),
                bus,
                ..m
            }.turns(0, false).1 == Ok::<bool, StepError>(true)
        },
        _ => m.turns(0, false).1 == Ok::<bool, StepError>(true),
    }
}

/// A step in which a hart retires adds to the profile what the clock advances by.
pub proof fn law_a_step_is_attributed(m: MachineState)
    requires
        profiling(m),
        retires(m),
        m.stepped().1 is Ok,
    ensures
        tallies(m, m.stepped().0, 0),
{
    reveal(MachineState::stepped);
    reveal(MachineState::round);
    reveal(MachineState::collapsed);
    lemma_turns(m, 0, false);
    match m.at_memop(0) {
        Some(i) if m.native_ops => {
            let (h, bus, done) = native_memop(m.harts[i], m.bus, m.memset_pc, m.memcpy_pc);
            let n = MachineState { harts: m.harts.update(i, h), bus, ..m };
            lemma_apart(m, n);
            match done {
                Some(charged) => {
                    let pc = m.harts[i].pc;
                    let c = n.counted(pc, charged);
                    lemma_counted(n, pc, charged);
                    lemma_in_turn(m, n, c, 0, -(charged as int));
                    let end = m.stepped().0;
                    if c.ticked(charged) == end {
                        lemma_ticked(c, charged);
                    } else {
                        lemma_peer_rounds(c, i, charged);
                    }
                    lemma_in_turn(m, c, end, -(charged as int), charged as int);
                },
                None => {
                    lemma_turns(n, 0, false);
                    lemma_in_turn(m, n, n.turns(0, false).0, 0, 0);
                },
            }
        },
        _ => {},
    }
}

/// Whether each of the next `n` steps succeeds, with some hart retiring.
pub open spec fn all_retire(m: MachineState, n: nat) -> bool
    decreases n,
{
    n == 0 || {
        &&& retires(m)
        &&& m.stepped().1 is Ok
        &&& all_retire(m.stepped().0, (n - 1) as nat)
    }
}

proof fn lemma_steps(m: MachineState, n: nat)
    requires
        profiling(m),
        all_retire(m, n),
    ensures
        tallies(m, crate::probe::after(m, n).0, 0),
    decreases n,
{
    if n == 0 {
        lemma_apart(m, m);
    } else {
        law_a_step_is_attributed(m);
        let next = m.stepped().0;
        lemma_steps(next, (n - 1) as nat);
        lemma_in_turn(m, next, crate::probe::after(next, (n - 1) as nat).0, 0, 0);
    }
}

// How many instructions retire, counted without wrapping.

/// Instructions that hart `i` retires in its turn.
pub open spec fn retired_in_turn(m: MachineState, i: int) -> nat {
    match step(HartModel { cycle: m.time, ..m.harts[i] }, m.bus).2 {
        Ok(HartEffect::Block(n)) => n as nat,
        Ok(HartEffect::Retired) => 1,
        Ok(HartEffect::Sbi(_)) => 1,
        _ => 0,
    }
}

/// Instructions that retire in the turns of a round from hart `i` on.
pub open spec fn retired_in_turns(m: MachineState, i: int) -> nat
    decreases m.harts.len() - i,
    when 0 <= i <= m.harts.len()
    via retired_in_turns_decreases
{
    if i >= m.harts.len() {
        0
    } else if m.harts[i].run == HartState::Stopped {
        retired_in_turns(m, i + 1)
    } else {
        match m.turn(i, true) {
            (_, Err(_)) => retired_in_turn(m, i),
            (n, Ok(_)) => retired_in_turn(m, i) + retired_in_turns(n, i + 1),
        }
    }
}

#[via_fn]
proof fn retired_in_turns_decreases(m: MachineState, i: int) {
    if 0 <= i < m.harts.len() {
        m.lemma_turn_keeps_harts(i, true);
    }
}

/// Instructions that the harts other than `i` retire in their turns, from hart `j` on.
pub open spec fn retired_in_peers(m: MachineState, i: int, j: int) -> nat
    decreases m.harts.len() - j,
    when 0 <= j <= m.harts.len()
    via retired_in_peers_decreases
{
    if j >= m.harts.len() {
        0
    } else if j == i || m.harts[j].run == HartState::Stopped {
        retired_in_peers(m, i, j + 1)
    } else {
        match m.turn(j, false) {
            (_, Err(_)) => retired_in_turn(m, j),
            (n, Ok(_)) => retired_in_turn(m, j) + retired_in_peers(n, i, j + 1),
        }
    }
}

#[via_fn]
proof fn retired_in_peers_decreases(m: MachineState, i: int, j: int) {
    if 0 <= j < m.harts.len() {
        m.lemma_turn_keeps_harts(j, false);
    }
}

/// Instructions that the harts other than `i` retire in `n` rounds.
pub open spec fn retired_in_peer_rounds(m: MachineState, i: int, n: u64) -> nat
    decreases n,
{
    if n == 0 {
        0
    } else {
        let a = m.ticked(1);
        match a.peers(i, 0) {
            (_, Err(_)) => retired_in_peers(a, i, 0),
            (b, Ok(())) => retired_in_peers(a, i, 0) + retired_in_peer_rounds(
                b,
                i,
                (n - 1) as u64,
            ),
        }
    }
}

/// Instructions that retire in a step: those of a collapsed memory op and of the harts that
/// run meanwhile, or those of a round.
pub open spec fn retired_in_step(m: MachineState) -> nat {
    match m.at_memop(0) {
        Some(i) if m.native_ops => {
            let (h, bus, done) = native_memop(m.harts[i], m.bus, m.memset_pc, m.memcpy_pc);
            let n = MachineState { harts: m.harts.update(i, h), bus, ..m };
            match done {
                Some(charged) => {
                    let c = n.counted(m.harts[i].pc, charged);
                    let end = c.time.wrapping_add(charged);
                    if forall|j: int|
                        0 <= j < c.harts.len() && j != i ==> MachineState::quiet(
                            #[trigger] c.harts[j],
                            end,
                        ) {
                        charged as nat
                    } else {
                        charged as nat + retired_in_peer_rounds(c, i, charged)
                    }
                },
                None => retired_in_turns(n, 0),
            }
        },
        _ => retired_in_turns(m, 0),
    }
}

/// Instructions that retire in `n` steps.
pub open spec fn retired_in_steps(m: MachineState, n: nat) -> nat
    decreases n,
{
    if n == 0 {
        0
    } else {
        retired_in_step(m) + retired_in_steps(m.stepped().0, (n - 1) as nat)
    }
}

/// The clock has advanced by `t` and the profile has grown by `c`.
spec fn grown(m: MachineState, n: MachineState, t: int, c: int) -> bool {
    &&& n.time == m.time + t
    &&& profiling(n)
    &&& total(n.profile->0) == total(m.profile->0) + c
}

/// Whether there is room for the clock to advance by `t` and the profile to grow by `c`.
spec fn room(m: MachineState, t: int, c: int) -> bool {
    &&& profiling(m)
    &&& m.time + t <= u64::MAX
    &&& total(m.profile->0) + c <= u64::MAX
}

proof fn lemma_total_bounds(p: Map<u64, u64>)
    requires
        p.dom().finite(),
    ensures
        total(p) >= 0,
        forall|k: u64| #[trigger] p.contains_key(k) ==> p[k] <= total(p),
    decreases p.dom().len(),
{
    if p.dom().len() > 0 {
        let c = p.dom().choose();
        lemma_total_bounds(p.remove(c));
        assert forall|k: u64| #[trigger] p.contains_key(k) implies p[k] <= total(p) by {
            if k != c {
                assert(p.remove(c).contains_key(k));
            }
        }
    }
}

proof fn lemma_counted_exactly(m: MachineState, pc: u64, n: u64)
    requires
        room(m, 0, n as int),
    ensures
        grown(m, m.counted(pc, n), 0, n as int),
{
    let p = m.profile->0;
    lemma_total_bounds(p);
    let before = if p.dom().contains(pc) {
        p[pc]
    } else {
        0
    };
    if p.dom().contains(pc) {
        assert(p.contains_key(pc));
    }
    let q = p.insert(pc, before.wrapping_add(n));
    lemma_total_remove(q, pc);
    assert(q.remove(pc) =~= p.remove(pc));
    if p.contains_key(pc) {
        lemma_total_remove(p, pc);
    } else {
        assert(p.remove(pc) =~= p);
    }
}

proof fn lemma_turn_exactly(m: MachineState, i: int, probing: bool)
    requires
        room(m, retired_in_turn(m, i) as int, retired_in_turn(m, i) as int),
    ensures
        grown(
            m,
            m.turn(i, probing).0,
            retired_in_turn(m, i) as int,
            retired_in_turn(m, i) as int,
        ),
{
    reveal(MachineState::turn);
    m.lemma_entered_keeps(i, m.harts[i].pc);
    let pc = m.harts[i].pc;
    let m0 = if probing {
        m.entered(i, pc)
    } else {
        m
    };
    let (h, bus, r) = step(HartModel { cycle: m.time, ..m.harts[i] }, m.bus);
    let m1 = MachineState { harts: m.harts.update(i, h), bus, ..m0 };
    match r {
        Err(_) => {},
        Ok(HartEffect::Idle) => {},
        Ok(HartEffect::Block(n)) => lemma_counted_exactly(m1.ticked(n), pc, n),
        Ok(HartEffect::Retired) => lemma_after_one_exactly(m1, i, pc, probing),
        Ok(HartEffect::Sbi(req)) => lemma_after_one_exactly(
            MachineState { harts: crate::cpu::serviced(m1.harts, i, req), ..m1 },
            i,
            pc,
            probing,
        ),
    }
}

proof fn lemma_after_one_exactly(m: MachineState, i: int, pc: u64, probing: bool)
    requires
        room(m, 1, 1),
    ensures
        grown(m, m.after_one(i, pc, probing), 1, 1),
{
    reveal(MachineState::noted);
    if probing {
        lemma_counted_exactly(m.ticked(1).noted(i), pc, 1);
    } else {
        lemma_counted_exactly(m.ticked(1), pc, 1);
    }
}

proof fn lemma_turns_exactly(m: MachineState, i: int, retired: bool)
    requires
        0 <= i <= m.harts.len(),
        room(m, retired_in_turns(m, i) as int, retired_in_turns(m, i) as int),
    ensures
        grown(
            m,
            m.turns(i, retired).0,
            retired_in_turns(m, i) as int,
            retired_in_turns(m, i) as int,
        ),
    decreases m.harts.len() - i,
{
    if i < m.harts.len() {
        if m.harts[i].run == HartState::Stopped {
            lemma_turns_exactly(m, i + 1, retired);
        } else {
            m.lemma_turn_keeps_harts(i, true);
            lemma_turn_exactly(m, i, true);
            if let (n, Ok(b)) = m.turn(i, true) {
                lemma_turns_exactly(n, i + 1, retired || b);
            }
        }
    }
}

proof fn lemma_peers_exactly(m: MachineState, i: int, j: int)
    requires
        0 <= j <= m.harts.len(),
        room(m, retired_in_peers(m, i, j) as int, retired_in_peers(m, i, j) as int),
    ensures
        grown(
            m,
            m.peers(i, j).0,
            retired_in_peers(m, i, j) as int,
            retired_in_peers(m, i, j) as int,
        ),
    decreases m.harts.len() - j,
{
    if j < m.harts.len() {
        if j == i || m.harts[j].run == HartState::Stopped {
            lemma_peers_exactly(m, i, j + 1);
        } else {
            m.lemma_turn_keeps_harts(j, false);
            lemma_turn_exactly(m, j, false);
            if let (n, Ok(_)) = m.turn(j, false) {
                lemma_peers_exactly(n, i, j + 1);
            }
        }
    }
}

proof fn lemma_peer_rounds_exactly(m: MachineState, i: int, n: u64)
    requires
        m.peer_rounds(i, n).1 is Ok,
        room(
            m,
            n + retired_in_peer_rounds(m, i, n),
            retired_in_peer_rounds(m, i, n) as int,
        ),
    ensures
        grown(
            m,
            m.peer_rounds(i, n).0,
            n + retired_in_peer_rounds(m, i, n),
            retired_in_peer_rounds(m, i, n) as int,
        ),
    decreases n,
{
    if n > 0 {
        let a = m.ticked(1);
        lemma_peers_exactly(a, i, 0);
        lemma_peer_rounds_exactly(a.peers(i, 0).0, i, (n - 1) as u64);
    }
}

proof fn lemma_step_exactly(m: MachineState)
    requires
        retires(m),
        m.stepped().1 is Ok,
        room(m, retired_in_step(m) as int, retired_in_step(m) as int),
    ensures
        grown(m, m.stepped().0, retired_in_step(m) as int, retired_in_step(m) as int),
{
    reveal(MachineState::stepped);
    reveal(MachineState::round);
    reveal(MachineState::collapsed);
    match m.at_memop(0) {
        Some(i) if m.native_ops => {
            let (h, bus, done) = native_memop(m.harts[i], m.bus, m.memset_pc, m.memcpy_pc);
            let n = MachineState { harts: m.harts.update(i, h), bus, ..m };
            match done {
                Some(charged) => {
                    let pc = m.harts[i].pc;
                    let c = n.counted(pc, charged);
                    lemma_counted_exactly(n, pc, charged);
                    let end = c.time.wrapping_add(charged);
                    if !(forall|j: int|
                        0 <= j < c.harts.len() && j != i ==> MachineState::quiet(
                            #[trigger] c.harts[j],
                            end,
                        )) {
                        lemma_peer_rounds_exactly(c, i, charged);
                    }
                },
                None => lemma_turns_exactly(n, 0, false),
            }
        },
        _ => lemma_turns_exactly(m, 0, false),
    }
}

proof fn lemma_steps_exactly(m: MachineState, n: nat)
    requires
        all_retire(m, n),
        room(m, retired_in_steps(m, n) as int, retired_in_steps(m, n) as int),
    ensures
        grown(
            m,
            crate::probe::after(m, n).0,
            retired_in_steps(m, n) as int,
            retired_in_steps(m, n) as int,
        ),
    decreases n,
{
    if n > 0 {
        lemma_step_exactly(m);
        lemma_steps_exactly(m.stepped().0, (n - 1) as nat);
    }
}

/// The counts of a profile add up to the instructions that retired since profiling was
/// enabled, which is what the clock has advanced by. Once the clock or a count has wrapped,
/// they agree modulo 2^64.
pub proof fn law_a_profile_adds_up(m: MachineState, n: nat)
    requires
        m.profile == Some(Map::<u64, u64>::empty()),
        all_retire(m, n),
    ensures
        ({
            let end = crate::probe::after(m, n).0;
            &&& end.profile is Some
            &&& m.time + retired_in_steps(m, n) <= u64::MAX ==> {
                &&& total(end.profile->0) == retired_in_steps(m, n)
                &&& total(end.profile->0) == end.time - m.time
            }
            &&& (total(end.profile->0) - (end.time - m.time)) % 0x1_0000_0000_0000_0000 == 0
        }),
{
    lemma_steps(m, n);
    if m.time + retired_in_steps(m, n) <= u64::MAX {
        lemma_steps_exactly(m, n);
    }
}

} // verus!
