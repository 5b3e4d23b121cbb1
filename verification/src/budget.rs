//! Running the guest for a bounded slice of time, and saying how it stopped. The unit is
//! guest instructions, not host steps: one step can retire many, and one that retires
//! nothing means that the guest can make no further progress.

use vstd::prelude::*;
use vstd::string::*;
use crate::cpu::StepError;
use crate::machine::{Machine, MachineState};
use crate::probe::after;
use crate::profile::retires;
use crate::rest::{law_a_machine_at_rest_stays_at_rest, lemma_probe_fits, probe_fits};
use crate::text::{describe_step_error, step_error_text};

verus! {

/// How a bounded run stopped. Every variant carries the instructions retired by this slice.
#[derive(Debug, PartialEq, Eq)]
pub enum Status {
    /// The slice used its whole budget and the guest has more to do.
    Running { instret: u64 },
    /// The guest can make no further progress: a step retired nothing.
    Halted { instret: u64 },
    /// Stepping faulted; `reason` says how.
    Trapped { instret: u64, reason: String },
}

/// What a [`Status`] says.
pub enum StatusState {
    Running { instret: u64 },
    Halted { instret: u64 },
    Trapped { instret: u64, reason: Seq<char> },
}

impl View for Status {
    type V = StatusState;

    open spec fn view(&self) -> StatusState {
        match *self {
            Status::Running { instret } => StatusState::Running { instret },
            Status::Halted { instret } => StatusState::Halted { instret },
            Status::Trapped { instret, reason } => StatusState::Trapped {
                instret,
                reason: reason@,
            },
        }
    }
}

impl Clone for Status {
    fn clone(&self) -> (r: Self)
        ensures
            r@ == self@,
    {
        match self {
            Status::Running { instret } => Status::Running { instret: *instret },
            Status::Halted { instret } => Status::Halted { instret: *instret },
            Status::Trapped { instret, reason } => Status::Trapped {
                instret: *instret,
                reason: reason.clone(),
            },
        }
    }
}

impl Status {
    /// The instructions this slice retired, whatever the outcome.
    #[must_use]
    pub fn instret(&self) -> (r: u64)
        ensures
            r == match self@ {
                StatusState::Running { instret } => instret,
                StatusState::Halted { instret } => instret,
                StatusState::Trapped { instret, .. } => instret,
            },
    {
        match self {
            Status::Running { instret } => *instret,
            Status::Halted { instret } => *instret,
            Status::Trapped { instret, reason } => *instret,
        }
    }
}

/// A slice's allowance, anchored to where the machine's cumulative counter stood when the
/// slice began.
#[derive(Debug, Clone, Copy, PartialEq, Eq, Structural)]
pub struct Budget {
    pub limit: u64,
    pub start: u64,
}

impl Budget {
    /// Instructions retired since the slice began.
    pub open spec fn used(self, now: u64) -> u64 {
        if now >= self.start {
            (now - self.start) as u64
        } else {
            0
        }
    }

    /// A budget of `limit` instructions, starting from cumulative `start`.
    #[must_use]
    pub fn new(limit: u64, start: u64) -> (r: Self)
        ensures
            r == (Budget { limit, start }),
    {
        Self { limit, start }
    }

    /// Instructions retired since the slice began; 0 where the counter is below the anchor.
    #[must_use]
    pub fn spent(&self, now: u64) -> (r: u64)
        ensures
            r == self.used(now),
    {
        now.saturating_sub(self.start)
    }

    /// Whether the slice has used its allowance.
    #[must_use]
    pub fn is_exhausted(&self, now: u64) -> (r: bool)
        ensures
            r == (self.used(now) >= self.limit),
    {
        self.spent(now) >= self.limit
    }
}

/// The slice from here on, with `left` steps at most still to take.
pub open spec fn slice(m: MachineState, budget: Budget, left: nat) -> (MachineState, StatusState)
    decreases left,
{
    if left == 0 || budget.used(m.time) >= budget.limit {
        (m, StatusState::Running { instret: budget.used(m.time) })
    } else {
        match m.stepped() {
            (n, Err(e)) => (
                n,
                StatusState::Trapped {
                    instret: budget.used(n.time),
                    reason: step_error_text(e),
                },
            ),
            (n, Ok(())) => if n.time == m.time {
                (n, StatusState::Halted { instret: budget.used(n.time) })
            } else {
                slice(n, budget, (left - 1) as nat)
            },
        }
    }
}

/// Run `machine` for at most `limit` guest instructions and report how it stopped. The
/// budget is checked before each step, so a zero limit retires nothing; a step is atomic, so
/// a slice overshoots by up to what its last step retired. No more than `limit` steps are
/// taken: each either retires an instruction or ends the slice.
pub fn run(machine: &mut Machine, limit: u64) -> (r: Status)
    requires
        old(machine).wf(),
    ensures
        final(machine).wf(),
        (final(machine)@, r@) == slice(
            old(machine)@,
            (Budget { limit, start: old(machine)@.time }),
            limit as nat,
        ),
{
    let budget: Budget = Budget::new(limit, machine.instret());
    let mut left: u64 = limit;
    let ghost goal = slice(machine@, budget, limit as nat);
    while left > 0
        invariant
            machine.wf(),
            budget == (Budget { limit, start: old(machine)@.time }),
            goal == slice(old(machine)@, budget, limit as nat),
            goal == slice(machine@, budget, left as nat),
        decreases left,
    {
        let before: u64 = machine.instret();
        if budget.is_exhausted(before) {
            return Status::Running { instret: budget.spent(before) };
        }
        match machine.step() {
            Ok(()) => {},
            Err(e) => {
                return Status::Trapped {
                    instret: budget.spent(machine.instret()),
                    reason: describe_step_error(e),
                };
            },
        }
        let after: u64 = machine.instret();
        if after == before {
            return Status::Halted { instret: budget.spent(after) };
        }
        left = left - 1;
    }
    Status::Running { instret: budget.spent(machine.instret()) }
}

/// A zero budget leaves the machine as it is.
pub proof fn law_a_zero_budget_retires_nothing(m: MachineState)
    ensures
        slice(m, Budget { limit: 0, start: m.time }, 0) == (
            m,
            StatusState::Running { instret: 0 },
        ),
{
}

/// How many steps a slice takes.
pub open spec fn steps_taken(m: MachineState, budget: Budget, left: nat) -> nat
    decreases left,
{
    if left == 0 || budget.used(m.time) >= budget.limit {
        0
    } else {
        match m.stepped() {
            (n, Ok(())) if n.time != m.time => 1 + steps_taken(n, budget, (left - 1) as nat),
            _ => 1,
        }
    }
}

/// Whether the clock does not wrap in the next `n` steps: it never goes down, and a step in
/// which a hart retires moves it up.
pub open spec fn clock_rises(m: MachineState, n: nat) -> bool
    decreases n,
{
    n == 0 || match m.stepped() {
        (next, Ok(())) => {
            &&& m.time <= next.time
            &&& retires(m) ==> m.time < next.time
            &&& clock_rises(next, (n - 1) as nat)
        },
        _ => true,
    }
}

/// What a slice says of itself.
pub open spec fn slice_is_told(m: MachineState, budget: Budget, left: nat) -> bool {
    let (end, status) = slice(m, budget, left);
    match status {
        StatusState::Running { instret } => {
            &&& instret == budget.used(end.time)
            &&& instret >= budget.limit
        },
        StatusState::Halted { instret } => {
            &&& instret == budget.used(end.time)
            &&& instret < budget.limit
            &&& end.stepped() == (end, Ok::<(), StepError>(()))
        },
        StatusState::Trapped { instret, reason } => {
            &&& instret == budget.used(end.time)
            &&& match after(m, steps_taken(m, budget, left)) {
                (failed, Some(e)) => failed == end && reason == step_error_text(e),
                _ => false,
            }
        },
    }
}

proof fn lemma_slice_is_told(m: MachineState, budget: Budget, left: nat)
    requires
        probe_fits(m),
        budget.start <= m.time,
        budget.used(m.time) + left >= budget.limit,
        clock_rises(m, left),
    ensures
        slice_is_told(m, budget, left),
    decreases left,
{
    if left > 0 && budget.used(m.time) < budget.limit {
        let (n, r) = m.stepped();
        if r is Ok {
            if n.time != m.time {
                lemma_probe_fits(m);
                lemma_slice_is_told(n, budget, (left - 1) as nat);
            } else {
                law_a_machine_at_rest_stays_at_rest(m);
            }
        } else {
            assert(after(m, 1) == (n, Some(r->Err_0)));
        }
    }
}

/// A slice tells the truth: what it retired is what the clock advanced by; still running, it
/// has used its budget; halted, it has not, and one more step would change nothing; trapped,
/// a step failed with the error it names.
pub proof fn law_a_slice_tells_the_truth(m: MachineState, limit: u64)
    requires
        probe_fits(m),
        clock_rises(m, limit as nat),
    ensures
        slice_is_told(m, Budget { limit, start: m.time }, limit as nat),
{
    lemma_slice_is_told(m, Budget { limit, start: m.time }, limit as nat);
}

} // verus!
