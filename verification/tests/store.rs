//! Retaining frames.

use snemu::protocol::{CapEventKind, CapObject, HartRole, SpanId, StringId, CAP_NAME_LEN};
use snemu::store::{retention_of, FrameStore, Retention};
use snemu::stream::OwnedFrame;

fn cap_event(kind: CapEventKind, cap_id: u64, parent_cap_id: u64) -> OwnedFrame {
    OwnedFrame::CapEvent {
        kind,
        cap_id,
        parent_cap_id,
        holder: 1,
        object: CapObject::Endpoint,
        rights: 0,
        badge: 0,
        t: 0,
        hart_id: 0,
        name: [0; CAP_NAME_LEN],
    }
}

fn span(id: u64) -> OwnedFrame {
    OwnedFrame::SpanStart {
        id: SpanId(id),
        parent: SpanId(0),
        name_id: StringId(1),
        t: id,
        task_id: 0,
        hart_id: 0,
    }
}

fn thread(id: u32, name: &str) -> OwnedFrame {
    OwnedFrame::ThreadRegister { id, name: name.to_string(), priority: 0 }
}

#[test]
fn registrations_are_durable() {
    for frame in [
        OwnedFrame::StringRegister { id: StringId(1), value: "n".into() },
        thread(1, "init"),
        OwnedFrame::HartRegister { id: 0, mhartid: 0, role: HartRole::Boot },
        OwnedFrame::BuildInfo { kernel_profile: "r".into(), userspace_opt: "3".into() },
    ] {
        assert_eq!(retention_of(&frame), Retention::Durable, "{frame:?}");
    }
}

#[test]
fn every_capability_lifecycle_event_is_durable() {
    for kind in [
        CapEventKind::Granted,
        CapEventKind::Transferred,
        CapEventKind::Revoked,
        CapEventKind::Minted,
    ] {
        assert_eq!(retention_of(&cap_event(kind, 1, 0)), Retention::Durable, "{kind:?}");
    }
}

#[test]
fn the_event_stream_is_windowed() {
    for frame in [
        span(1),
        OwnedFrame::SpanEnd { id: SpanId(1), t: 1 },
        OwnedFrame::Log { msg: "x".into(), task_id: 0, t: 0, hart_id: 0 },
        OwnedFrame::Metric { name_id: StringId(1), value: 1, t: 0, hart_id: 0 },
    ] {
        assert_eq!(retention_of(&frame), Retention::Windowed, "{frame:?}");
    }
}

#[test]
fn frames_come_back_in_arrival_order() {
    let mut store = FrameStore::new(10);
    store.push(thread(0, "init"));
    store.push(span(1));
    store.push(span(2));

    let ids: Vec<u64> = store.frames().iter().map(discriminant_key).collect();
    assert_eq!(ids, vec![0, 1, 2]);
}

#[test]
fn a_durable_frame_arriving_late_stays_late() {
    let mut store = FrameStore::new(10);
    store.push(span(1));
    store.push(thread(9, "late"));
    store.push(span(2));

    let ids: Vec<u64> = store.frames().iter().map(discriminant_key).collect();
    assert_eq!(ids, vec![1, 9, 2], "the registration must not jump to the front");
}

#[test]
fn the_window_drops_the_oldest_first() {
    let mut store = FrameStore::new(2);
    store.push(span(1));
    store.push(span(2));
    store.push(span(3));

    let ids: Vec<u64> = store.frames().iter().map(discriminant_key).collect();
    assert_eq!(ids, vec![2, 3]);
}

#[test]
fn a_registration_survives_an_overflow_that_discards_the_stream() {
    let mut store = FrameStore::new(4);
    store.push(thread(7, "stitch_repl"));
    for i in 0..100 {
        store.push(span(i));
    }

    let named = store.frames().iter().any(|f| {
        matches!(f, OwnedFrame::ThreadRegister { name, .. } if name == "stitch_repl")
    });
    assert!(named, "the holder's name was dropped, so the tree would render `h7`");
}

#[test]
fn a_revocation_survives_an_overflow() {
    let mut store = FrameStore::new(4);
    store.push(cap_event(CapEventKind::Granted, 1, 0));
    store.push(cap_event(CapEventKind::Revoked, 1, 0));
    for i in 0..100 {
        store.push(span(i));
    }

    let revoked = store.frames().iter().any(
        |f| matches!(f, OwnedFrame::CapEvent { kind: CapEventKind::Revoked, .. }),
    );
    assert!(revoked, "a revoked capability would render as live");
}

#[test]
fn the_store_reports_how_much_it_is_keeping() {
    let mut store = FrameStore::new(4);
    store.push(thread(1, "a"));
    store.push(thread(2, "b"));
    store.push(thread(3, "c"));
    store.push(span(1));
    store.push(span(2));

    assert_eq!(store.durable_len(), 3);
    assert_eq!(store.windowed_len(), 2);

    store.push(thread(4, "d"));
    store.push(span(3));
    assert_eq!(store.durable_len(), 4);
    assert_eq!(store.windowed_len(), 3);
}

#[test]
fn an_empty_store_folds_to_nothing() {
    assert!(FrameStore::new(4).frames().is_empty());
}

#[test]
fn a_zero_window_keeps_only_the_durable_frames() {
    let mut store = FrameStore::new(0);
    store.push(thread(1, "a"));
    store.push(span(1));

    assert_eq!(store.frames().len(), 1);
    assert_eq!(store.durable_len(), 1);
}

fn discriminant_key(frame: &OwnedFrame) -> u64 {
    match frame {
        OwnedFrame::SpanStart { id, .. } => id.0,
        OwnedFrame::ThreadRegister { id, .. } => u64::from(*id),
        _ => u64::MAX,
    }
}
