//! The wire format: every kind of frame is read back as it was written.

use snemu::protocol::{
    encode_frame, CapEventKind, CapObject, Frame, HartRole, MetricKind, RefusalReason, SpanId,
    StringId, SwitchReason, CAP_NAME_LEN, NO_EMITTER, PROTOCOL_VERSION,
};
use snemu::stream::{decode_frame, OwnedFrame};

#[test]
fn hello_roundtrips() {
    let frame = Frame::Hello {
        timebase_hz: 10_000_000,
        protocol_version: PROTOCOL_VERSION,
    };

    let bytes = encode_frame(&frame);

    let decoded = decode_frame(&bytes).unwrap();

    assert_eq!(OwnedFrame::from_borrowed(&frame), decoded);
}

#[test]
fn span_end_roundtrips() {
    let frame = Frame::SpanEnd {
        id: SpanId(511),
        t: 1234,
    };

    let bytes = encode_frame(&frame);
    let decoded = decode_frame(&bytes).unwrap();

    assert_eq!(OwnedFrame::from_borrowed(&frame), decoded);
}

#[test]
fn cap_event_roundtrips() {
    let frame = Frame::CapEvent {
        kind: CapEventKind::Granted,
        cap_id: 1,
        parent_cap_id: 0,
        holder: 7,
        object: CapObject::TelemetrySink,
        rights: 0b0001,
        badge: 0,
        t: 1234,
        hart_id: 1,
        name: [0; CAP_NAME_LEN],
    };

    let bytes = encode_frame(&frame);
    let decoded = decode_frame(&bytes).unwrap();

    assert_eq!(OwnedFrame::from_borrowed(&frame), decoded);
}

#[test]
fn cap_event_spansink_roundtrips() {
    let frame = Frame::CapEvent {
        kind: CapEventKind::Granted,
        cap_id: 2,
        parent_cap_id: 0,
        holder: 7,
        object: CapObject::SpanSink,
        rights: 0b0001,
        badge: 0,
        t: 5678,
        hart_id: 1,
        name: [0; CAP_NAME_LEN],
    };

    let bytes = encode_frame(&frame);
    let decoded = decode_frame(&bytes).unwrap();

    assert_eq!(OwnedFrame::from_borrowed(&frame), decoded);
}

#[test]
fn cap_event_endpoint_roundtrips() {
    let frame = Frame::CapEvent {
        kind: CapEventKind::Granted,
        cap_id: 3,
        parent_cap_id: 0,
        holder: 7,
        object: CapObject::Endpoint,
        rights: 0b0010,
        badge: 0,
        t: 9012,
        hart_id: 1,
        name: [0; CAP_NAME_LEN],
    };

    let bytes = encode_frame(&frame);
    let decoded = decode_frame(&bytes).unwrap();

    assert_eq!(OwnedFrame::from_borrowed(&frame), decoded);
}

#[test]
fn message_roundtrips() {
    let frame = Frame::Message {
        endpoint: 2,
        from: 4,
        to: 5,
        parent_span: SpanId(42),
        t: 1234,
        hart_id: 1,
    };

    let bytes = encode_frame(&frame);
    let decoded = decode_frame(&bytes).unwrap();

    assert_eq!(OwnedFrame::from_borrowed(&frame), decoded);
}

#[test]
fn cap_event_transferred_reply_roundtrips() {
    let frame = Frame::CapEvent {
        kind: CapEventKind::Transferred,
        cap_id: 4,
        parent_cap_id: 1,
        holder: 8,
        object: CapObject::Reply,
        rights: 0,
        badge: 0,
        t: 3456,
        hart_id: 1,
        name: [0; CAP_NAME_LEN],
    };

    let bytes = encode_frame(&frame);
    let decoded = decode_frame(&bytes).unwrap();

    assert_eq!(OwnedFrame::from_borrowed(&frame), decoded);
}

#[test]
fn cap_event_granted_notification_roundtrips() {
    let frame = Frame::CapEvent {
        kind: CapEventKind::Granted,
        cap_id: 6,
        parent_cap_id: 0,
        holder: 2,
        object: CapObject::Notification,
        rights: 0b11_0000,
        badge: 0,
        t: 7890,
        hart_id: 0,
        name: [0; CAP_NAME_LEN],
    };

    let bytes = encode_frame(&frame);
    let decoded = decode_frame(&bytes).unwrap();

    assert_eq!(OwnedFrame::from_borrowed(&frame), decoded);
}

#[test]
fn cap_event_carries_a_badge_roundtrips() {
    let frame = Frame::CapEvent {
        kind: CapEventKind::Transferred,
        cap_id: 9,
        parent_cap_id: 2,
        holder: 5,
        object: CapObject::Endpoint,
        rights: 0b0010,
        badge: 0xCAFE,
        t: 7777,
        hart_id: 1,
        name: [0; CAP_NAME_LEN],
    };

    let bytes = encode_frame(&frame);
    let decoded = decode_frame(&bytes).unwrap();

    assert_eq!(OwnedFrame::from_borrowed(&frame), decoded);
}

#[test]
fn span_start_roundtrips() {
    let frame = Frame::SpanStart {
        id: SpanId(42),
        parent: SpanId(7),
        name_id: StringId(3),
        t: 1234,
        task_id: 0,
        hart_id: 0,
    };

    let bytes = encode_frame(&frame);
    let decoded = decode_frame(&bytes).unwrap();

    assert_eq!(OwnedFrame::from_borrowed(&frame), decoded);
}

#[test]
fn event_roundtrips() {
    let frame = Frame::Event {
        span_id: SpanId(42),
        name_id: StringId(9),
        t: 1234,
    };

    let bytes = encode_frame(&frame);
    let decoded = decode_frame(&bytes).unwrap();

    assert_eq!(OwnedFrame::from_borrowed(&frame), decoded);
}

#[test]
fn metric_roundtrips() {
    let frame = Frame::Metric {
        name_id: StringId(12),
        value: -42,
        t: 1234,
        hart_id: 0,
    };

    let bytes = encode_frame(&frame);
    let decoded = decode_frame(&bytes).unwrap();

    assert_eq!(OwnedFrame::from_borrowed(&frame), decoded);
}

#[test]
fn metric_carries_hart_id() {
    let frame = Frame::Metric {
        name_id: StringId(12),
        value: -42,
        t: 1234,
        hart_id: 1,
    };
    let bytes = encode_frame(&frame);
    let decoded = decode_frame(&bytes).unwrap();
    assert_eq!(OwnedFrame::from_borrowed(&frame), decoded);
}

#[test]
fn dropped_roundtrips() {
    let frame = Frame::Dropped { count: 17 };

    let bytes = encode_frame(&frame);
    let decoded = decode_frame(&bytes).unwrap();

    assert_eq!(OwnedFrame::from_borrowed(&frame), decoded);
}

#[test]
fn string_register_roundtrips() {
    let frame = Frame::StringRegister {
        id: StringId(99),
        value: "kernel.heartbeat",
    };

    let bytes = encode_frame(&frame);
    let decoded = decode_frame(&bytes).unwrap();

    assert_eq!(OwnedFrame::from_borrowed(&frame), decoded);
}

#[test]
fn thread_register_roundtrips() {
    let frame = Frame::ThreadRegister {
        id: 7,
        name: "task_heartbeat",
        priority: 2,
    };

    let bytes = encode_frame(&frame);
    let decoded = decode_frame(&bytes).unwrap();

    assert_eq!(OwnedFrame::from_borrowed(&frame), decoded);
}

#[test]
fn context_switch_roundtrips_each_reason() {
    for reason in [
        SwitchReason::Yield,
        SwitchReason::Preempt,
        SwitchReason::Blocked,
        SwitchReason::Exit,
    ] {
        let frame = Frame::ContextSwitch {
            from: 2,
            to: 3,
            t: 1234,
            reason,
            hart_id: 0,
        };

        let bytes = encode_frame(&frame);
        let decoded = decode_frame(&bytes).unwrap();

        assert_eq!(OwnedFrame::from_borrowed(&frame), decoded);
    }
}

#[test]
fn span_start_carries_task_id() {
    let frame = Frame::SpanStart {
        id: SpanId(42),
        parent: SpanId(7),
        name_id: StringId(3),
        t: 1234,
        task_id: 5,
        hart_id: 0,
    };

    let bytes = encode_frame(&frame);
    let decoded = decode_frame(&bytes).unwrap();

    assert_eq!(OwnedFrame::from_borrowed(&frame), decoded);
}

#[test]
fn context_switch_carries_hart_id() {
    let frame = Frame::ContextSwitch {
        from: 1,
        to: 2,
        t: 1234,
        reason: SwitchReason::Yield,
        hart_id: 1,
    };
    let bytes = encode_frame(&frame);
    let decoded = decode_frame(&bytes).unwrap();
    assert_eq!(OwnedFrame::from_borrowed(&frame), decoded);
}

#[test]
fn span_start_carries_hart_id() {
    let frame = Frame::SpanStart {
        id: SpanId(42),
        parent: SpanId(7),
        name_id: StringId(3),
        t: 1234,
        task_id: 0,
        hart_id: 1,
    };
    let bytes = encode_frame(&frame);
    let decoded = decode_frame(&bytes).unwrap();
    assert_eq!(OwnedFrame::from_borrowed(&frame), decoded);
}

#[test]
fn hart_register_roundtrips() {
    for role in [HartRole::Boot, HartRole::Worker] {
        let frame = Frame::HartRegister {
            id: 0,
            mhartid: 0,
            role,
        };
        let bytes = encode_frame(&frame);
        let decoded = decode_frame(&bytes).unwrap();
        assert_eq!(OwnedFrame::from_borrowed(&frame), decoded);
    }
}

#[test]
fn metric_register_roundtrips() {
    for kind in [MetricKind::Counter, MetricKind::Gauge, MetricKind::Histogram] {
        for task_id in [4u32, NO_EMITTER] {
            let frame = Frame::MetricRegister {
                name_id: StringId(7),
                kind,
                task_id,
            };

            let bytes = encode_frame(&frame);
            let decoded = decode_frame(&bytes).unwrap();

            assert_eq!(OwnedFrame::from_borrowed(&frame), decoded);
        }
    }
}

#[test]
fn log_roundtrips() {
    let frame = Frame::Log {
        msg: "hello from userspace",
        task_id: 5,
        t: 1234,
        hart_id: 1,
    };
    let bytes = encode_frame(&frame);
    let decoded = decode_frame(&bytes).unwrap();
    assert_eq!(OwnedFrame::from_borrowed(&frame), decoded);
}

#[test]
fn syscall_refused_roundtrips_each_reason() {
    for reason in [
        RefusalReason::UnknownSyscall,
        RefusalReason::NoProcess,
        RefusalReason::CapNotFound,
        RefusalReason::CapWrongRights,
        RefusalReason::CapWrongObject,
        RefusalReason::BadUserRange,
        RefusalReason::BadUtf8,
        RefusalReason::Quota,
        RefusalReason::BadSpanId,
        RefusalReason::OutOfMemory,
        RefusalReason::UnknownProgram,
        RefusalReason::BadMetricHandle,
        RefusalReason::BadMetricKind,
        RefusalReason::NotificationBusy,
    ] {
        let frame = Frame::SyscallRefused {
            syscall: 3,
            reason,
            task_id: 5,
            t: 1234,
            hart_id: 1,
        };
        let bytes = encode_frame(&frame);
        let decoded = decode_frame(&bytes).unwrap();
        assert_eq!(OwnedFrame::from_borrowed(&frame), decoded);
    }
}

#[test]
fn notify_signal_roundtrips() {
    let frame = Frame::NotifySignal {
        notification: 3,
        mask: 0b101,
        from_task: 7,
        t: 4242,
        hart_id: 1,
    };
    let bytes = encode_frame(&frame);
    let decoded = decode_frame(&bytes).unwrap();
    assert_eq!(OwnedFrame::from_borrowed(&frame), decoded);
}

#[test]
fn notify_wait_roundtrips() {
    let frame = Frame::NotifyWait {
        notification: 3,
        bits: 0b101,
        to_task: 9,
        t: 4243,
        hart_id: 1,
    };
    let bytes = encode_frame(&frame);
    let decoded = decode_frame(&bytes).unwrap();
    assert_eq!(OwnedFrame::from_borrowed(&frame), decoded);
}
