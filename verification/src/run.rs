//! The decisions of a batch run: how many steps to take before the window is redrawn, what
//! the window shows, and what the run reports.

use vstd::prelude::*;
use crate::cpu::StepError;
use crate::machine::Machine;
use crate::probe::after;

verus! {

/// How many steps a run takes unless told otherwise.
pub const DEFAULT_MAX_STEPS: u64 = 50_000_000;

/// The size of the window before the guest has chosen one.
pub const DEFAULT_WINDOW_WIDTH: u32 = 1024;

pub const DEFAULT_WINDOW_HEIGHT: u32 = 768;

/// How many guest steps there are between redraws.
pub const WINDOW_UPDATE_INTERVAL: u64 = 200_000;

/// How many steps to take before the run is over or the window is due: `steps` of `max_steps`
/// have been taken.
#[must_use]
pub fn steps_to_take(steps: u64, max_steps: u64, window: bool) -> (r: u64)
    requires
        steps <= max_steps,
    ensures
        r <= max_steps - steps,
        r == 0 <==> steps == max_steps,
        !window ==> r == max_steps - steps,
        window ==> r <= 200_000 && (steps + r == max_steps || (steps + r) % 200_000 == 0),
        window ==> {
            let due = WINDOW_UPDATE_INTERVAL - steps % WINDOW_UPDATE_INTERVAL;
            r == if due < max_steps - steps {
                due
            } else {
                max_steps - steps
            }
        },
{
    let left: u64 = max_steps - steps;
    if !window {
        return left;
    }
    let due: u64 = WINDOW_UPDATE_INTERVAL - steps % WINDOW_UPDATE_INTERVAL;
    if due < left {
        due
    } else {
        left
    }
}

/// Whether the window is to be redrawn after `steps` steps.
#[must_use]
pub fn redraw_due(steps: u64) -> (r: bool)
    ensures
        r == (steps % WINDOW_UPDATE_INTERVAL == 0),
        r == (steps % 200_000 == 0),
{
    steps % WINDOW_UPDATE_INTERVAL == 0
}

/// How many steps succeed before the first that fails, `n` at most.
pub open spec fn steps_done(m: crate::machine::MachineState, n: nat) -> nat
    decreases n,
{
    if n == 0 {
        0
    } else {
        match m.stepped() {
            (next, Ok(())) => 1 + steps_done(next, (n - 1) as nat),
            _ => 0,
        }
    }
}

/// Take up to `n` steps: how many succeeded, and the error that ended them, if one did.
pub fn run_steps(machine: &mut Machine, n: u64) -> (r: (u64, Option<StepError>))
    requires
        old(machine).wf(),
    ensures
        final(machine).wf(),
        (final(machine)@, r.1) == after(old(machine)@, n as nat),
        r.0 == steps_done(old(machine)@, n as nat),
        r.0 <= n,
{
    let mut done: u64 = 0;
    while done < n
        invariant
            machine.wf(),
            done <= n,
            after(old(machine)@, n as nat) == after(machine@, (n - done) as nat),
            steps_done(old(machine)@, n as nat) == done + steps_done(
                machine@,
                (n - done) as nat,
            ),
        decreases n - done,
    {
        match machine.step() {
            Ok(()) => {
                done += 1;
            },
            Err(e) => {
                return (done, Some(e));
            },
        }
    }
    (done, None)
}

/// Instructions per timer interrupt; 0 where there was none.
#[must_use]
pub fn per_fire(instret: u64, fires: u64) -> (r: u64)
    ensures
        r == if fires == 0 {
            0
        } else {
            instret / fires
        },
{
    if fires == 0 {
        0
    } else {
        instret / fires
    }
}

/// What the window shows: the captured pixels with their size, or black where nothing was
/// captured yet or the size does not fit.
pub fn picture(captured: Option<(Vec<u32>, u32, u32)>) -> (r: (Vec<u32>, u32, u32))
    ensures
        match captured {
            Some((pixels, w, h)) if pixels@.len() == w * h => r.0@ == pixels@ && r.1 == w && r.2
                == h,
            _ => r.0@ == Seq::new(
                (DEFAULT_WINDOW_WIDTH * DEFAULT_WINDOW_HEIGHT) as nat,
                |i: int| 0u32,
            ) && r.1 == DEFAULT_WINDOW_WIDTH && r.2 == DEFAULT_WINDOW_HEIGHT,
        },
{
    match captured {
        Some((pixels, w, h)) => {
            proof {
                assert(0 <= w * h <= 0xffff_ffff * 0xffff_ffff) by (nonlinear_arith)
                    requires
                        0 <= w <= 0xffff_ffff,
                        0 <= h <= 0xffff_ffff,
                ;
            }
            if pixels.len() as u64 == w as u64 * h as u64 {
                return (pixels, w, h);
            }
        },
        None => {},
    }
    let black: Vec<u32> = vec![0; 786_432];
    proof {
        assert(black@ =~= Seq::new(
            (DEFAULT_WINDOW_WIDTH * DEFAULT_WINDOW_HEIGHT) as nat,
            |i: int| 0u32,
        ));
    }
    (black, DEFAULT_WINDOW_WIDTH, DEFAULT_WINDOW_HEIGHT)
}

} // verus!
