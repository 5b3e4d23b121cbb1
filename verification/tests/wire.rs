//! The wire format against the serializer it is defined by, and its framing.

use snemu::protocol::{
    encode_frame, pack_name, wire_encode, BufferFull, CapEventKind, CapObject, Frame, HartRole,
    MetricKind, RefusalReason, SpanId, StringId, SwitchReason, CAP_NAME_LEN,
};
use snemu::stream::{decode_frame, try_decode_frame, DecodeError, OwnedFrame};

#[test]
fn wire_encoding_is_stable() {
    let name = [0u8; CAP_NAME_LEN];
    let mut cap = vec![0x0b, 0x01, 0x01, 0x02, 0x03, 0x02, 0x04, 0x05, 0x06, 0x07];
    cap.extend_from_slice(&name);
    let frames: Vec<(Frame<'_>, Vec<u8>)> = vec![
        (Frame::Hello { timebase_hz: 1, protocol_version: 6 }, vec![0x00, 0x01, 0x06]),
        (
            Frame::SpanStart {
                id: SpanId(1),
                parent: SpanId(2),
                name_id: StringId(3),
                t: 4,
                task_id: 5,
                hart_id: 6,
            },
            vec![0x01, 0x01, 0x02, 0x03, 0x04, 0x05, 0x06],
        ),
        (Frame::SpanEnd { id: SpanId(1), t: 2 }, vec![0x02, 0x01, 0x02]),
        (
            Frame::Event { span_id: SpanId(1), name_id: StringId(2), t: 3 },
            vec![0x03, 0x01, 0x02, 0x03],
        ),
        (
            Frame::Metric { name_id: StringId(1), value: -2, t: 3, hart_id: 4 },
            vec![0x04, 0x01, 0x03, 0x03, 0x04],
        ),
        (Frame::Dropped { count: 7 }, vec![0x05, 0x07]),
        (Frame::StringRegister { id: StringId(1), value: "x" }, vec![0x06, 0x01, 0x01, 0x78]),
        (
            Frame::MetricRegister { name_id: StringId(1), kind: MetricKind::Gauge, task_id: 2 },
            vec![0x07, 0x01, 0x01, 0x02],
        ),
        (
            Frame::ThreadRegister { id: 1, name: "t", priority: 2 },
            vec![0x08, 0x01, 0x01, 0x74, 0x02],
        ),
        (
            Frame::ContextSwitch { from: 1, to: 2, t: 3, reason: SwitchReason::Preempt, hart_id: 4 },
            vec![0x09, 0x01, 0x02, 0x03, 0x01, 0x04],
        ),
        (
            Frame::HartRegister { id: 1, mhartid: 2, role: HartRole::Worker },
            vec![0x0a, 0x01, 0x02, 0x01],
        ),
        (
            Frame::CapEvent {
                kind: CapEventKind::Transferred,
                cap_id: 1,
                parent_cap_id: 2,
                holder: 3,
                object: CapObject::Endpoint,
                rights: 4,
                badge: 5,
                t: 6,
                hart_id: 7,
                name,
            },
            cap,
        ),
        (
            Frame::SyscallRefused {
                syscall: 1,
                reason: RefusalReason::Quota,
                task_id: 2,
                t: 3,
                hart_id: 4,
            },
            vec![0x0c, 0x01, 0x07, 0x02, 0x03, 0x04],
        ),
        (
            Frame::Log { msg: "l", task_id: 1, t: 2, hart_id: 3 },
            vec![0x0d, 0x01, 0x6c, 0x01, 0x02, 0x03],
        ),
        (
            Frame::Message {
                endpoint: 1,
                from: 2,
                to: 3,
                parent_span: SpanId(4),
                t: 5,
                hart_id: 6,
            },
            vec![0x0e, 0x01, 0x02, 0x03, 0x04, 0x05, 0x06],
        ),
        (
            Frame::NotifySignal { notification: 1, mask: 2, from_task: 3, t: 4, hart_id: 5 },
            vec![0x0f, 0x01, 0x02, 0x03, 0x04, 0x05],
        ),
        (
            Frame::NotifyWait { notification: 1, bits: 2, to_task: 3, t: 4, hart_id: 5 },
            vec![0x10, 0x01, 0x02, 0x03, 0x04, 0x05],
        ),
    ];
    for (frame, bytes) in &frames {
        assert_eq!(&encode_frame(frame), bytes, "{frame:?}");
    }
    for (code, reason) in [
        RefusalReason::UnknownSyscall,
        RefusalReason::NoProcess,
        RefusalReason::CapNotFound,
        RefusalReason::CapWrongRights,
        RefusalReason::CapWrongObject,
        RefusalReason::BadUserRange,
        RefusalReason::BadUtf8,
        RefusalReason::Quota,
        RefusalReason::BadSpanId,
        RefusalReason::OutOfMemory,
        RefusalReason::UnknownProgram,
        RefusalReason::BadMetricHandle,
        RefusalReason::BadMetricKind,
        RefusalReason::NotificationBusy,
        RefusalReason::CapNotDelegable,
    ]
    .into_iter()
    .enumerate()
    {
        let frame = Frame::SyscallRefused { syscall: 0, reason, task_id: 0, t: 0, hart_id: 0 };
        assert_eq!(encode_frame(&frame)[2], code as u8, "{reason:?}");
    }
}

#[test]
fn numbers_are_encoded_as_the_serializer_encodes_them() {
    for v in [0u64, 1, 127, 128, 300, 0xffff_ffff, 0x1_0000_0000, u64::MAX] {
        let frame = Frame::SpanEnd { id: SpanId(v), t: v };
        assert_eq!(encode_frame(&frame), postcard::to_allocvec(&(2u32, v, v)).unwrap());
    }
    for v in [0i64, 1, -1, 63, -64, 64, i64::MIN, i64::MAX] {
        let frame = Frame::Metric { name_id: StringId(u32::MAX), value: v, t: 5, hart_id: 200 };
        assert_eq!(
            encode_frame(&frame),
            postcard::to_allocvec(&(4u32, u32::MAX, v, 5u64, 200u8)).unwrap()
        );
    }
}

#[test]
fn text_and_names_are_encoded_as_the_serializer_encodes_them() {
    let long = "x".repeat(300);
    for text in ["", "kernel.boot", "größe", long.as_str()] {
        let frame = Frame::Log { msg: text, task_id: 1, t: 2, hart_id: 3 };
        assert_eq!(
            encode_frame(&frame),
            postcard::to_allocvec(&(13u32, text, 1u32, 2u64, 3u8)).unwrap()
        );
    }
    let frame = Frame::BuildInfo { kernel_profile: "release", userspace_opt: "3" };
    assert_eq!(encode_frame(&frame), postcard::to_allocvec(&(18u32, "release", "3")).unwrap());
    let frame = Frame::CapEvent {
        kind: CapEventKind::Minted,
        cap_id: 1 << 40,
        parent_cap_id: 2,
        holder: 3,
        object: CapObject::Notification,
        rights: 4,
        badge: 0xCAFE,
        t: 6,
        hart_id: 7,
        name: pack_name("fs"),
    };
    assert_eq!(
        encode_frame(&frame),
        postcard::to_allocvec(&(
            11u32,
            3u32,
            1u64 << 40,
            2u64,
            3u32,
            4u32,
            4u32,
            0xCAFEu64,
            6u64,
            7u8,
            pack_name("fs"),
        ))
        .unwrap()
    );
}

#[test]
fn what_the_serializer_wrote_is_decoded() {
    let bytes = postcard::to_allocvec(&(4u32, 9u32, i64::MIN, u64::MAX, 1u8)).unwrap();
    assert_eq!(
        decode_frame(&bytes),
        Some(OwnedFrame::Metric { name_id: StringId(9), value: i64::MIN, t: u64::MAX, hart_id: 1 })
    );
    let bytes = postcard::to_allocvec(&(6u32, 9u32, "größe")).unwrap();
    assert_eq!(
        decode_frame(&bytes),
        Some(OwnedFrame::StringRegister { id: StringId(9), value: "größe".to_string() })
    );
}

#[test]
fn malformed_bodies_are_refused() {
    assert_eq!(decode_frame(&[]), None, "no kind");
    assert_eq!(decode_frame(&[19]), None, "no such kind");
    assert_eq!(decode_frame(&[5]), None, "cut short");
    assert_eq!(decode_frame(&[5, 0x80, 0x80, 0x80, 0x80, 0x10]), None, "over 32 bits");
    assert_eq!(decode_frame(&[6, 1, 2, b'x']), None, "text cut short");
    assert_eq!(decode_frame(&[6, 1, 1, 0xff]), None, "text that is not UTF-8");
    assert_eq!(decode_frame(&[7, 1, 3, 0]), None, "no such metric kind");
    assert_eq!(decode_frame(&[10, 1, 2, 2]), None, "no such role");
    assert_eq!(
        decode_frame(&[2, 0x80, 0x80, 0x80, 0x80, 0x80, 0x80, 0x80, 0x80, 0x80, 2, 0]),
        None,
        "over 64 bits"
    );
}

#[test]
fn numbers_may_be_longer_than_they_have_to_be() {
    assert_eq!(decode_frame(&[5, 0x81, 0x00]), Some(OwnedFrame::Dropped { count: 1 }));
}

#[test]
fn a_frame_is_stuffed_between_zeros() {
    let mut buf = [0xaau8; 8];
    let frame = Frame::SpanEnd { id: SpanId(0), t: 7 };
    assert_eq!(wire_encode(&frame, &mut buf).unwrap(), &[2, 2, 2, 7, 0]);
    assert_eq!(buf, [2, 2, 2, 7, 0, 0xaa, 0xaa, 0xaa]);
}

#[test]
fn frames_are_stuffed_as_the_serializer_stuffs_them() {
    for v in [0u64, 7, 300, u64::MAX] {
        let mut buf = [0u8; 64];
        let frame = Frame::SpanEnd { id: SpanId(v), t: 0 };
        assert_eq!(
            wire_encode(&frame, &mut buf).unwrap(),
            postcard::to_allocvec_cobs(&(2u32, v, 0u64)).unwrap()
        );
    }
    for n in [0usize, 1, 250, 251, 252, 253, 254, 255, 256, 505, 506, 507, 508, 600] {
        let text = "z".repeat(n);
        let mut buf = [0u8; 700];
        let frame = Frame::Log { msg: &text, task_id: 1, t: 1, hart_id: 1 };
        let sent = postcard::to_allocvec_cobs(&(13u32, &text, 1u32, 1u64, 1u8)).unwrap();
        assert_eq!(wire_encode(&frame, &mut buf).unwrap(), sent);
        let (back, used) = try_decode_frame(&sent).unwrap().unwrap();
        assert_eq!(back, OwnedFrame::from_borrowed(&frame));
        assert_eq!(used, sent.len());
    }
}

#[test]
fn a_frame_that_does_not_fit_says_how_much_it_takes() {
    let mut buf = [0xaau8; 4];
    let frame = Frame::SpanEnd { id: SpanId(0), t: 7 };
    assert_eq!(wire_encode(&frame, &mut buf), Err(BufferFull { needed: 5 }));
    assert_eq!(buf, [0xaa; 4], "nothing was written");
}

#[test]
fn long_runs_without_a_zero_are_stuffed_in_blocks() {
    let text = "y".repeat(600);
    let frame = Frame::Log { msg: &text, task_id: 0, t: 0, hart_id: 0 };
    let mut buf = [0u8; 700];
    let sent = wire_encode(&frame, &mut buf).unwrap();
    assert!(sent[..sent.len() - 1].iter().all(|&b| b != 0));
    let (back, n) = try_decode_frame(sent).unwrap().unwrap();
    assert_eq!(back, OwnedFrame::from_borrowed(&frame));
    assert_eq!(n, sent.len());
}

#[test]
fn a_chunk_whose_stuffing_points_past_its_end_is_an_error() {
    assert_eq!(try_decode_frame(&[9, 2, 1, 0, 5]), Err(DecodeError { consumed: 4 }));
    assert_eq!(try_decode_frame(&[0, 5]), Err(DecodeError { consumed: 1 }), "an empty chunk");
}

#[test]
fn a_name_is_cut_to_its_field() {
    assert_eq!(&pack_name("fs")[..3], b"fs\0");
    assert_eq!(&pack_name("a name that is too long"), b"a name that is t");
}

#[test]
fn codes_name_their_alternatives() {
    let kinds = [
        (CapEventKind::Granted, CapObject::TelemetrySink),
        (CapEventKind::Transferred, CapObject::SpanSink),
        (CapEventKind::Revoked, CapObject::Endpoint),
        (CapEventKind::Minted, CapObject::Reply),
    ];
    for (code, (kind, object)) in kinds.into_iter().enumerate() {
        let frame = Frame::CapEvent {
            kind,
            cap_id: 0,
            parent_cap_id: 0,
            holder: 0,
            object,
            rights: 0,
            badge: 0,
            t: 0,
            hart_id: 0,
            name: [0; CAP_NAME_LEN],
        };
        let bytes = encode_frame(&frame);
        assert_eq!(bytes[1], code as u8);
        assert_eq!(bytes[5], code as u8);
    }
    for (code, reason) in
        [SwitchReason::Yield, SwitchReason::Preempt, SwitchReason::Blocked, SwitchReason::Exit]
            .into_iter()
            .enumerate()
    {
        let frame = Frame::ContextSwitch { from: 0, to: 0, t: 0, reason, hart_id: 0 };
        assert_eq!(encode_frame(&frame)[4], code as u8);
    }
    for (code, kind) in
        [MetricKind::Counter, MetricKind::Gauge, MetricKind::Histogram].into_iter().enumerate()
    {
        let frame = Frame::MetricRegister { name_id: StringId(0), kind, task_id: 0 };
        assert_eq!(encode_frame(&frame)[2], code as u8);
    }
}
