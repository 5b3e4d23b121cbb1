//! Speed reports over deterministic runs.

use std::time::Duration;

use snemu::bench::{BenchReport, Sample, StartupMark};

fn nanos(d: Duration) -> u64 {
    d.as_nanos() as u64
}

fn mips(per_second: u128) -> f64 {
    per_second as f64 / 1e6
}

fn sample(instret: u64, millis: u64) -> Sample {
    Sample { instret, wall: nanos(Duration::from_millis(millis)), startup: None }
}

fn sample_with_startup(instret: u64, millis: u64, startup_instret: u64, startup_millis: u64) -> Sample {
    Sample {
        instret,
        wall: nanos(Duration::from_millis(millis)),
        startup: Some(StartupMark {
            instret: startup_instret,
            wall: nanos(Duration::from_millis(startup_millis)),
        }),
    }
}

#[test]
fn a_report_surfaces_the_deterministic_startup_instret() {
    let samples = [
        sample_with_startup(30_000_000, 1500, 5_000_000, 300),
        sample_with_startup(30_000_000, 1500, 5_000_000, 200),
    ];
    let r = BenchReport::from_samples(&samples).expect("uniform");
    assert_eq!(r.startup_instret, Some(5_000_000));
    assert_eq!(r.mean_startup_wall, Some(Duration::from_millis(250).as_nanos()));
}

#[test]
fn a_workload_that_emits_nothing_reports_no_startup() {
    let samples = [sample(30_000_000, 1500), sample(30_000_000, 1400)];
    let r = BenchReport::from_samples(&samples).expect("uniform");
    assert_eq!(r.startup_instret, None);
    assert_eq!(r.mean_startup_wall, None);
}

#[test]
fn startup_reached_in_some_runs_but_not_others_is_a_determinism_violation() {
    let samples = [
        sample_with_startup(30_000_000, 1500, 5_000_000, 300),
        sample(30_000_000, 1500),
    ];
    assert!(BenchReport::from_samples(&samples).is_err());
}

#[test]
fn startup_instret_disagreement_is_a_determinism_violation() {
    let samples = [
        sample_with_startup(30_000_000, 1500, 5_000_000, 300),
        sample_with_startup(30_000_000, 1500, 5_000_042, 300),
    ];
    let err = BenchReport::from_samples(&samples).expect_err("must reject");
    assert!(err.contains("determinism violation"), "got: {err}");
}

#[test]
fn mips_is_instret_over_wall_clock() {
    let s = sample(10_000_000, 1000);
    assert!((mips(s.per_second()) - 10.0).abs() < 1e-9);
    let faster = sample(10_000_000, 500);
    assert!((mips(faster.per_second()) - 20.0).abs() < 1e-9);
}

#[test]
fn a_zero_duration_sample_reports_zero_not_infinity() {
    let s = sample(1_000_000, 0);
    assert_eq!(mips(s.per_second()), 0.0);
}

#[test]
fn a_report_takes_best_from_the_fastest_run() {
    let samples = [
        sample(10_000_000, 1000),
        sample(10_000_000, 500),
        sample(10_000_000, 2000),
    ];
    let r = BenchReport::from_samples(&samples).expect("uniform instret");
    assert_eq!(r.instret, 10_000_000);
    assert_eq!(r.runs, 3);
    assert!((mips(r.best_speed) - 20.0).abs() < 1e-9, "best from the 500ms run");
    assert!((mips(r.worst_speed) - 5.0).abs() < 1e-9, "worst from the 2000ms run");
    assert!((mips(r.total_speed) / r.runs as f64 - 35.0 / 3.0).abs() < 1e-9, "mean averages all runs");
    assert_eq!(r.mean_wall, (Duration::from_millis(3500) / 3).as_nanos());
}

#[test]
fn differing_instret_is_a_determinism_violation() {
    let samples = [sample(10_000_000, 1000), sample(10_000_042, 1000)];
    let err = BenchReport::from_samples(&samples).expect_err("must reject");
    assert!(err.contains("determinism violation"), "got: {err}");
}

#[test]
fn an_empty_sample_set_is_an_error() {
    assert!(BenchReport::from_samples(&[]).is_err());
}
