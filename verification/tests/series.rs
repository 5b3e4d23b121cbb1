//! Metric histories.

use snemu::names::Names;
use snemu::protocol::{MetricKind, StringId};
use snemu::series::{SeriesStore, MAX_POINTS_PER_SERIES};
use snemu::stream::OwnedFrame;

fn metric(name_id: u32, value: i64, t: u64) -> OwnedFrame {
    OwnedFrame::Metric { name_id: StringId(name_id), value, t, hart_id: 0 }
}

fn register(name_id: u32, kind: MetricKind) -> OwnedFrame {
    OwnedFrame::MetricRegister { name_id: StringId(name_id), kind, task_id: 0 }
}

fn names() -> Names {
    let mut names = Names::new();
    for id in 1..10 {
        names.register(StringId(id), &format!("metric.{id}"));
    }
    names
}

#[test]
fn samples_accumulate_per_metric() {
    let mut s = SeriesStore::new();
    s.observe(&metric(1, 10, 100), &names());
    s.observe(&metric(1, 11, 200), &names());

    let series = s.series();
    assert_eq!(series.len(), 1);
    assert_eq!(series[0].points, vec![(100, 10), (200, 11)]);
}

#[test]
fn different_metrics_are_separate_series() {
    let mut s = SeriesStore::new();
    s.observe(&metric(1, 1, 10), &names());
    s.observe(&metric(2, 2, 10), &names());

    assert_eq!(s.series().len(), 2);
}

#[test]
fn a_busy_metric_does_not_evict_a_quiet_one() {
    let mut s = SeriesStore::new();
    s.observe(&metric(1, 42, 1), &names());
    for i in 0..(MAX_POINTS_PER_SERIES as u64 * 3) {
        s.observe(&metric(2, i as i64, i), &names());
    }

    let quiet = s.series().into_iter().find(|x| x.name == "metric.1").expect("kept");
    assert_eq!(quiet.points, vec![(1, 42)], "the quiet metric kept its history");
}

#[test]
fn a_series_drops_its_oldest_points_when_full() {
    let mut s = SeriesStore::new();
    for i in 0..(MAX_POINTS_PER_SERIES as u64 + 5) {
        s.observe(&metric(1, i as i64, i), &names());
    }

    let series = s.series();
    assert_eq!(series[0].points.len(), MAX_POINTS_PER_SERIES);
    assert_eq!(series[0].points[0].0, 5, "the first five were dropped");
}

#[test]
fn a_registered_kind_is_carried_with_the_series() {
    let mut s = SeriesStore::new();
    s.observe(&register(1, MetricKind::Counter), &names());
    s.observe(&metric(1, 5, 10), &names());

    assert_eq!(s.series()[0].kind, Some(MetricKind::Counter));
}

#[test]
fn a_kind_registered_later_still_reaches_its_series() {
    let mut s = SeriesStore::new();
    s.observe(&metric(1, 5, 10), &names());
    s.observe(&register(1, MetricKind::Gauge), &names());

    assert_eq!(s.series()[0].kind, Some(MetricKind::Gauge));
}

#[test]
fn an_unregistered_metric_is_kept_with_an_unknown_kind() {
    let mut s = SeriesStore::new();
    s.observe(&metric(9, 1, 1), &names());

    assert_eq!(s.series()[0].kind, None);
    assert_eq!(s.series()[0].points.len(), 1);
}

#[test]
fn a_sample_with_no_resolvable_name_is_not_recorded() {
    let mut s = SeriesStore::new();
    s.observe(&metric(1, 1, 1), &Names::new());

    assert!(s.series().is_empty());
}

#[test]
fn series_come_back_in_first_seen_order() {
    let mut s = SeriesStore::new();
    s.observe(&metric(2, 1, 1), &names());
    s.observe(&metric(1, 1, 1), &names());
    s.observe(&metric(3, 1, 1), &names());

    let order: Vec<String> = s.series().into_iter().map(|x| x.name).collect();
    assert_eq!(order, ["metric.2", "metric.1", "metric.3"]);
}

#[test]
fn non_metric_frames_are_ignored() {
    let mut s = SeriesStore::new();
    s.observe(&OwnedFrame::Dropped { count: 3 }, &names());

    assert!(s.series().is_empty());
}
