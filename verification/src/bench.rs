//! The measurement core: turn a set of timed runs of one deterministic workload into a speed
//! report. Every run must retire the same number of instructions; only the wall clock varies.
//! Times are in nanoseconds, speeds in instructions per second.

use vstd::prelude::*;
use vstd::string::*;
use crate::text::{append_decimal, ascii, decimal};

verus! {

/// When a run first produced telemetry: the instruction count, which is deterministic, and
/// the wall clock, which varies.
#[derive(Clone, Copy, Debug, PartialEq, Eq, Structural)]
pub struct StartupMark {
    pub instret: u64,
    pub wall: u64,
}

/// One timed run: how many guest instructions retired and how long it took, and when, if
/// ever, it first produced telemetry.
#[derive(Clone, Copy, Debug, PartialEq, Eq, Structural)]
pub struct Sample {
    pub instret: u64,
    pub wall: u64,
    pub startup: Option<StartupMark>,
}

/// Nanoseconds in a second.
pub const SECOND: u128 = 1_000_000_000;

impl Sample {
    /// Guest instructions per second: a million of them are one MIPS. 0 for a run that took
    /// no time the clock could see.
    pub open spec fn speed(self) -> nat {
        if self.wall == 0 {
            0
        } else {
            (self.instret as nat * SECOND as nat) / self.wall as nat
        }
    }

    /// Guest instructions per second.
    #[must_use]
    pub fn per_second(&self) -> (r: u128)
        ensures
            r == self.speed(),
            r <= u64::MAX * SECOND,
    {
        if self.wall == 0 {
            0
        } else {
            let n: u128 = self.instret as u128 * SECOND;
            proof {
                assert(0 <= n as int / self.wall as int <= n) by (nonlinear_arith)
                    requires
                        n >= 0,
                        self.wall >= 1,
                ;
            }
            n / self.wall as u128
        }
    }
}

/// A speed report over some runs of one deterministic workload.
#[derive(Clone, Copy, Debug, PartialEq, Eq, Structural)]
pub struct BenchReport {
    /// The guest instruction count, the same in every run.
    pub instret: u64,
    pub runs: usize,
    /// The runs' speeds, added up: over `runs` it is their mean.
    pub total_speed: u128,
    /// The speed of the fastest run.
    pub best_speed: u128,
    /// The speed of the slowest run.
    pub worst_speed: u128,
    pub mean_wall: u128,
    /// Instructions to first telemetry, the same in every run. `None` if the workload
    /// produced none.
    pub startup_instret: Option<u64>,
    /// Mean time to first telemetry.
    pub mean_startup_wall: Option<u128>,
}

/// The first sample from the `i`th on that retired another number of instructions.
pub open spec fn deviant(samples: Seq<Sample>, instret: u64, i: int) -> Option<Sample>
    decreases samples.len() - i,
{
    if i < 0 || i >= samples.len() {
        None
    } else if samples[i].instret != instret {
        Some(samples[i])
    } else {
        deviant(samples, instret, i + 1)
    }
}

/// The first startup mark from the `i`th sample on that is at another instruction.
pub open spec fn deviant_mark(samples: Seq<Sample>, instret: u64, i: int) -> Option<StartupMark>
    decreases samples.len() - i,
{
    if i < 0 || i >= samples.len() {
        None
    } else {
        match samples[i].startup {
            Some(m) if m.instret != instret => Some(m),
            _ => deviant_mark(samples, instret, i + 1),
        }
    }
}

/// How many of the first `n` runs produced telemetry.
pub open spec fn reached(samples: Seq<Sample>, n: int) -> nat
    decreases n,
{
    if n <= 0 {
        0
    } else {
        reached(samples, n - 1) + if samples[n - 1].startup is Some {
            1nat
        } else {
            0
        }
    }
}

/// The time the first `n` runs took.
pub open spec fn total_wall(samples: Seq<Sample>, n: int) -> nat
    decreases n,
{
    if n <= 0 {
        0
    } else {
        total_wall(samples, n - 1) + samples[n - 1].wall as nat
    }
}

/// The time the first `n` runs took to first telemetry.
pub open spec fn total_startup(samples: Seq<Sample>, n: int) -> nat
    decreases n,
{
    if n <= 0 {
        0
    } else {
        total_startup(samples, n - 1) + match samples[n - 1].startup {
            Some(m) => m.wall as nat,
            None => 0,
        }
    }
}

/// The speeds of the first `n` runs, added up.
pub open spec fn total_speed(samples: Seq<Sample>, n: int) -> nat
    decreases n,
{
    if n <= 0 {
        0
    } else {
        total_speed(samples, n - 1) + samples[n - 1].speed()
    }
}

/// Whether `v` is the highest speed of the first `n` runs.
pub open spec fn is_best(samples: Seq<Sample>, n: int, v: nat) -> bool {
    &&& exists|i: int| 0 <= i < n && (#[trigger] samples[i]).speed() == v
    &&& forall|i: int| 0 <= i < n ==> (#[trigger] samples[i]).speed() <= v
}

/// Whether `v` is the lowest speed of the first `n` runs.
pub open spec fn is_worst(samples: Seq<Sample>, n: int, v: nat) -> bool {
    &&& exists|i: int| 0 <= i < n && (#[trigger] samples[i]).speed() == v
    &&& forall|i: int| 0 <= i < n ==> v <= (#[trigger] samples[i]).speed()
}

/// Why a set of runs cannot be reported on, if it cannot.
pub open spec fn refusal(samples: Seq<Sample>) -> Option<Seq<char>> {
    if samples.len() == 0 {
        Some("no samples to report"@)
    } else {
        match deviant(samples, samples[0].instret, 1) {
            Some(bad) => Some(
                "determinism violation: instret varied across runs ("@ + ascii(
                    decimal(samples[0].instret as nat),
                ) + " vs "@ + ascii(decimal(bad.instret as nat))
                    + ") — the same workload+seed must retire the same instruction count"@,
            ),
            None => startup_refusal(samples),
        }
    }
}

/// Why the runs' startup marks do not fit together, if they do not.
pub open spec fn startup_refusal(samples: Seq<Sample>) -> Option<Seq<char>> {
    let n = reached(samples, samples.len() as int);
    if n == 0 {
        None
    } else if n != samples.len() {
        Some(
            "determinism violation: the workload (instret "@ + ascii(
                decimal(samples[0].instret as nat),
            ) + ") reached first-telemetry in "@ + ascii(decimal(n)) + " of "@ + ascii(
                decimal(samples.len()),
            ) + " runs — deterministic runs must all reach it or none"@,
        )
    } else {
        match deviant_mark(samples, (samples[0].startup->0).instret, 0) {
            Some(bad) => Some(
                "determinism violation: startup instret varied across runs ("@ + ascii(
                    decimal((samples[0].startup->0).instret as nat),
                ) + " vs "@ + ascii(decimal(bad.instret as nat))
                    + ") — first-telemetry must land at a fixed instret"@,
            ),
            None => None,
        }
    }
}

/// Whether the report is the one on these runs.
pub open spec fn reports(r: BenchReport, samples: Seq<Sample>) -> bool {
    let n = samples.len();
    let k = n as int;
    &&& r.instret == samples[0].instret
    &&& r.runs == n
    &&& r.total_speed == total_speed(samples, k)
    &&& is_best(samples, k, r.best_speed as nat)
    &&& is_worst(samples, k, r.worst_speed as nat)
    &&& r.mean_wall == total_wall(samples, k) / n
    &&& if reached(samples, k) == 0 {
        r.startup_instret is None && r.mean_startup_wall is None
    } else {
        r.startup_instret == Some((samples[0].startup->0).instret) && r.mean_startup_wall is Some
            && r.mean_startup_wall->0 == total_startup(samples, k) / n
    }
}

/// The first sample that retired another number of instructions than the first.
fn find_deviant(samples: &[Sample], instret: u64) -> (r: Option<Sample>)
    requires
        samples@.len() > 0,
    ensures
        r == deviant(samples@, instret, 1),
{
    let mut i: usize = 1;
    while i < samples.len()
        invariant
            1 <= i <= samples@.len(),
            deviant(samples@, instret, 1) == deviant(samples@, instret, i as int),
        decreases samples@.len() - i,
    {
        if samples[i].instret != instret {
            return Some(samples[i]);
        }
        i += 1;
    }
    None
}

/// The first startup mark that is at another instruction.
fn find_deviant_mark(samples: &[Sample], instret: u64) -> (r: Option<StartupMark>)
    ensures
        r == deviant_mark(samples@, instret, 0),
{
    let mut i: usize = 0;
    while i < samples.len()
        invariant
            i <= samples@.len(),
            deviant_mark(samples@, instret, 0) == deviant_mark(samples@, instret, i as int),
        decreases samples@.len() - i,
    {
        match samples[i].startup {
            Some(m) => {
                if m.instret != instret {
                    return Some(m);
                }
            },
            None => {},
        }
        i += 1;
    }
    None
}

/// What a set of runs adds up to.
struct Totals {
    wall: u128,
    startup: u128,
    reached: u64,
    speed: u128,
    best: u128,
    worst: u128,
}

/// Add the runs up.
fn add_up(samples: &[Sample]) -> (r: Totals)
    requires
        0 < samples@.len() <= u32::MAX,
    ensures
        r.wall == total_wall(samples@, samples@.len() as int),
        r.startup == total_startup(samples@, samples@.len() as int),
        r.reached == reached(samples@, samples@.len() as int),
        r.speed == total_speed(samples@, samples@.len() as int),
        is_best(samples@, samples@.len() as int, r.best as nat),
        is_worst(samples@, samples@.len() as int, r.worst as nat),
        r.reached <= samples@.len(),
{
    let first: u128 = samples[0].per_second();
    let mut t: Totals = Totals {
        wall: 0,
        startup: 0,
        reached: 0,
        speed: 0,
        best: first,
        worst: first,
    };
    let ghost most: int = u64::MAX * SECOND;
    let mut i: usize = 0;
    while i < samples.len()
        invariant
            i <= samples@.len() <= u32::MAX,
            most == u64::MAX * SECOND,
            t.wall == total_wall(samples@, i as int),
            t.wall <= i * u64::MAX,
            t.startup == total_startup(samples@, i as int),
            t.startup <= i * u64::MAX,
            t.reached == reached(samples@, i as int),
            t.reached <= i,
            t.speed == total_speed(samples@, i as int),
            t.speed <= i * most,
            i == 0 ==> samples@.len() > 0 && t.best == samples@[0].speed() && t.worst
                == samples@[0].speed(),
            i > 0 ==> is_best(samples@, i as int, t.best as nat),
            i > 0 ==> is_worst(samples@, i as int, t.worst as nat),
        decreases samples@.len() - i,
    {
        let ghost before = t;
        let s: Sample = samples[i];
        let speed: u128 = s.per_second();
        proof {
            assert(i * most + most == (i + 1) * most) by (nonlinear_arith);
            assert((i + 1) * most <= 0x1_0000_0000 * most) by (nonlinear_arith)
                requires
                    0 <= i < 0xffff_ffff,
                    most >= 0,
            ;
        }
        t.wall = t.wall + s.wall as u128;
        t.speed = t.speed + speed;
        match s.startup {
            Some(m) => {
                t.startup = t.startup + m.wall as u128;
                t.reached = t.reached + 1;
            },
            None => {},
        }
        if speed > t.best {
            t.best = speed;
        }
        if speed < t.worst {
            t.worst = speed;
        }
        proof {
            assert(samples@[i as int].speed() == speed);
            if i > 0 {
                let b = choose|j: int|
                    0 <= j < i && (#[trigger] samples@[j]).speed() == before.best;
                let w = choose|j: int|
                    0 <= j < i && (#[trigger] samples@[j]).speed() == before.worst;
                assert(samples@[b].speed() == before.best);
                assert(samples@[w].speed() == before.worst);
            }
        }
        i += 1;
    }
    t
}

impl BenchReport {
    /// Reduce runs to a report. Refused with the reason for it are an empty set and runs
    /// that disagree: about how many instructions retired, about whether telemetry came, or
    /// about the instruction at which it did.
    pub fn from_samples(samples: &[Sample]) -> (r: Result<Self, String>)
        requires
            samples@.len() <= u32::MAX,
        ensures
            match refusal(samples@) {
                Some(text) => r is Err && (r->Err_0)@ == text,
                None => r is Ok && reports(r->Ok_0, samples@),
            },
    {
        if samples.len() == 0 {
            return Err("no samples to report".to_owned());
        }
        let instret: u64 = samples[0].instret;
        match find_deviant(samples, instret) {
            Some(bad) => {
                let mut text: String =
                    "determinism violation: instret varied across runs (".to_owned();
                append_decimal(&mut text, instret);
                text.append(" vs ");
                append_decimal(&mut text, bad.instret);
                text.append(
                    ") — the same workload+seed must retire the same instruction count",
                );
                return Err(text);
            },
            None => {},
        }
        let t: Totals = add_up(samples);
        let runs: u128 = samples.len() as u128;
        let (startup_instret, mean_startup_wall): (Option<u64>, Option<u128>) =
            match Self::reduce_startup(samples, &t) {
            Err(text) => {
                return Err(text);
            },
            Ok(startup) => startup,
        };
        Ok(
            Self {
                instret,
                runs: samples.len(),
                total_speed: t.speed,
                best_speed: t.best,
                worst_speed: t.worst,
                mean_wall: t.wall / runs,
                startup_instret,
                mean_startup_wall,
            },
        )
    }

    /// Reduce the startup marks: every run must reach first telemetry at the same
    /// instruction, or none may.
    fn reduce_startup(samples: &[Sample], t: &Totals) -> (r: Result<
        (Option<u64>, Option<u128>),
        String,
    >)
        requires
            0 < samples@.len() <= u32::MAX,
            t.reached == reached(samples@, samples@.len() as int),
            t.startup == total_startup(samples@, samples@.len() as int),
        ensures
            match startup_refusal(samples@) {
                Some(text) => r is Err && (r->Err_0)@ == text,
                None => r is Ok && if t.reached == 0 {
                    (r->Ok_0).0 is None && (r->Ok_0).1 is None
                } else {
                    (r->Ok_0).0 == Some((samples@[0].startup->0).instret) && (r->Ok_0).1 is Some
                        && (r->Ok_0).1->0 == total_startup(samples@, samples@.len() as int)
                        / samples@.len()
                },
            },
    {
        if t.reached == 0 {
            return Ok((None, None));
        }
        if t.reached != samples.len() as u64 {
            let mut text: String = "determinism violation: the workload (instret ".to_owned();
            append_decimal(&mut text, samples[0].instret);
            text.append(") reached first-telemetry in ");
            append_decimal(&mut text, t.reached);
            text.append(" of ");
            append_decimal(&mut text, samples.len() as u64);
            text.append(" runs — deterministic runs must all reach it or none");
            return Err(text);
        }
        proof {
            lemma_all_reached(samples@, samples@.len() as int, 0);
        }
        let at: u64 = match samples[0].startup {
            Some(m) => m.instret,
            None => 0,
        };
        match find_deviant_mark(samples, at) {
            Some(bad) => {
                let mut text: String =
                    "determinism violation: startup instret varied across runs (".to_owned();
                append_decimal(&mut text, at);
                text.append(" vs ");
                append_decimal(&mut text, bad.instret);
                text.append(") — first-telemetry must land at a fixed instret");
                return Err(text);
            },
            None => {},
        }
        Ok((Some(at), Some(t.startup / samples.len() as u128)))
    }
}

proof fn lemma_reached_at_most(samples: Seq<Sample>, n: int)
    requires
        0 <= n,
    ensures
        reached(samples, n) <= n,
    decreases n,
{
    if n > 0 {
        lemma_reached_at_most(samples, n - 1);
    }
}

/// Where as many runs reached telemetry as there are, each did.
proof fn lemma_all_reached(samples: Seq<Sample>, n: int, i: int)
    requires
        0 <= i < n <= samples.len(),
        reached(samples, n) == n,
    ensures
        samples[i].startup is Some,
    decreases n,
{
    lemma_reached_at_most(samples, n - 1);
    if i < n - 1 {
        lemma_all_reached(samples, n - 1, i);
    }
}

/// Runs that retired different numbers of instructions are never reported on.
pub proof fn law_disagreeing_runs_are_refused(samples: Seq<Sample>, i: int, j: int)
    requires
        0 <= i < samples.len(),
        0 <= j < samples.len(),
        samples[i].instret != samples[j].instret,
    ensures
        refusal(samples) is Some,
{
    let first = samples[0].instret;
    let k = if samples[i].instret != first {
        i
    } else {
        j
    };
    lemma_deviant(samples, first, 1, k);
}

proof fn lemma_deviant(samples: Seq<Sample>, instret: u64, i: int, k: int)
    requires
        0 <= i <= k < samples.len(),
        samples[k].instret != instret,
    ensures
        deviant(samples, instret, i) is Some,
    decreases k - i,
{
    if samples[i].instret == instret {
        lemma_deviant(samples, instret, i + 1, k);
    }
}

/// A speed is instructions over nanoseconds, times a thousand million, rounded down, and 0 for a
/// run that took no time.
pub proof fn law_the_speed_of_a_run(s: Sample)
    ensures
        s.wall == 0 ==> s.speed() == 0,
        s.wall != 0 ==> s.speed() * s.wall <= s.instret * 1_000_000_000 < s.speed() * s.wall
            + s.wall,
{
    if s.wall != 0 {
        let n = s.instret as int * 1_000_000_000;
        vstd::arithmetic::div_mod::lemma_fundamental_div_mod(n, s.wall as int);
        vstd::arithmetic::div_mod::lemma_mod_bound(n, s.wall as int);
        let q = n / s.wall as int;
        assert(s.wall * q == q * s.wall) by (nonlinear_arith);
    }
}

/// The totals are over every run: each adds its time, its time to first telemetry, its speed, and
/// one where it came to that.
pub proof fn law_totals_are_over_every_run(samples: Seq<Sample>, n: int)
    requires
        0 <= n < samples.len(),
    ensures
        total_wall(samples, 0) == 0 && total_startup(samples, 0) == 0 && total_speed(samples, 0)
            == 0 && reached(samples, 0) == 0,
        total_wall(samples, n + 1) == total_wall(samples, n) + samples[n].wall,
        total_speed(samples, n + 1) == total_speed(samples, n) + samples[n].speed(),
        samples[n].startup is None ==> total_startup(samples, n + 1) == total_startup(samples, n)
            && reached(samples, n + 1) == reached(samples, n),
        samples[n].startup is Some ==> total_startup(samples, n + 1) == total_startup(samples, n)
            + (samples[n].startup->0).wall && reached(samples, n + 1) == reached(samples, n) + 1,
{
}

/// A report tells how many runs there were and what each retired, the mean time, and the highest
/// and the lowest speed: no run was faster or slower, and one was as fast, one as slow.
pub proof fn law_a_report_tells_of_its_runs(r: BenchReport, samples: Seq<Sample>, i: int)
    requires
        reports(r, samples),
        0 <= i < samples.len(),
    ensures
        r.runs == samples.len(),
        r.instret == samples[0].instret,
        r.worst_speed <= samples[i].speed() <= r.best_speed,
        exists|j: int| 0 <= j < samples.len() && (#[trigger] samples[j]).speed() == r.best_speed,
        exists|j: int| 0 <= j < samples.len() && (#[trigger] samples[j]).speed() == r.worst_speed,
        r.mean_wall * samples.len() <= total_wall(samples, samples.len() as int) < r.mean_wall
            * samples.len() + samples.len(),
        r.total_speed == total_speed(samples, samples.len() as int),
        r.startup_instret is Some <==> reached(samples, samples.len() as int) > 0,
        r.startup_instret is Some ==> r.mean_startup_wall is Some && r.mean_startup_wall->0
            * samples.len() <= total_startup(samples, samples.len() as int)
            < r.mean_startup_wall->0 * samples.len() + samples.len(),
{
    let n = samples.len() as int;
    lemma_mean(total_wall(samples, n) as int, n);
    lemma_mean(total_startup(samples, n) as int, n);
}

proof fn lemma_mean(total: int, n: int)
    requires
        n > 0,
    ensures
        (total / n) * n <= total < (total / n) * n + n,
{
    vstd::arithmetic::div_mod::lemma_fundamental_div_mod(total, n);
    vstd::arithmetic::div_mod::lemma_mod_bound(total, n);
    assert(n * (total / n) == (total / n) * n) by (nonlinear_arith);
}

/// Runs are reported on where there is one at least, all retired as many instructions, and all
/// came to first telemetry at the same instruction or none did; otherwise they are refused.
pub proof fn law_agreeing_runs_are_reported(samples: Seq<Sample>)
    requires
        samples.len() > 0,
        forall|i: int| 0 <= i < samples.len() ==> (#[trigger] samples[i]).instret
            == samples[0].instret,
        (forall|i: int| 0 <= i < samples.len() ==> (#[trigger] samples[i]).startup is None) || (
        forall|i: int|
            0 <= i < samples.len() ==> (#[trigger] samples[i]).startup is Some && (
            samples[i].startup->0).instret == (samples[0].startup->0).instret),
    ensures
        refusal(samples) is None,
        refusal(Seq::<Sample>::empty()) is Some,
{
    lemma_no_deviant(samples, samples[0].instret, 1);
    let n = samples.len() as int;
    if forall|i: int| 0 <= i < samples.len() ==> (#[trigger] samples[i]).startup is None {
        lemma_none_reached(samples, n);
    } else {
        lemma_every_one_reached(samples, n);
        lemma_no_deviant_mark(samples, (samples[0].startup->0).instret, 0);
    }
}

proof fn lemma_no_deviant(samples: Seq<Sample>, instret: u64, i: int)
    requires
        0 <= i,
        forall|k: int| 0 <= k < samples.len() ==> (#[trigger] samples[k]).instret == instret,
    ensures
        deviant(samples, instret, i) is None,
    decreases samples.len() - i,
{
    if i < samples.len() {
        lemma_no_deviant(samples, instret, i + 1);
    }
}

proof fn lemma_no_deviant_mark(samples: Seq<Sample>, instret: u64, i: int)
    requires
        0 <= i,
        forall|k: int|
            0 <= k < samples.len() ==> (#[trigger] samples[k]).startup is Some && (
            samples[k].startup->0).instret == instret,
    ensures
        deviant_mark(samples, instret, i) is None,
    decreases samples.len() - i,
{
    if i < samples.len() {
        lemma_no_deviant_mark(samples, instret, i + 1);
    }
}

proof fn lemma_none_reached(samples: Seq<Sample>, n: int)
    requires
        0 <= n <= samples.len(),
        forall|k: int| 0 <= k < samples.len() ==> (#[trigger] samples[k]).startup is None,
    ensures
        reached(samples, n) == 0,
    decreases n,
{
    if n > 0 {
        lemma_none_reached(samples, n - 1);
    }
}

proof fn lemma_every_one_reached(samples: Seq<Sample>, n: int)
    requires
        0 <= n <= samples.len(),
        forall|k: int| 0 <= k < samples.len() ==> (#[trigger] samples[k]).startup is Some,
    ensures
        reached(samples, n) == n,
    decreases n,
{
    if n > 0 {
        lemma_every_one_reached(samples, n - 1);
    }
}

} // verus!
