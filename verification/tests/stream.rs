//! Decoding a stream of frames.

use snemu::protocol::{
    pack_name, wire_encode, CapEventKind, CapObject, Frame, HartRole, MetricKind, SpanId,
    StringId, SwitchReason, CAP_NAME_LEN,
};
use snemu::stream::{
    decode_stream, try_decode_frame, DecodeError, DecodeSummary, OnDecodeError, OwnedFrame,
    StreamDecoder,
};

/// Decode a whole stream, handing each frame to `on_frame`.
fn decode(
    stream: &[u8],
    on_error: OnDecodeError,
    mut on_frame: impl FnMut(&OwnedFrame),
) -> Result<DecodeSummary, DecodeError> {
    let (frames, result) = decode_stream(stream, on_error);
    for frame in &frames {
        on_frame(frame);
    }
    result
}

#[test]
fn owned_frame_round_trips_hello() {
    let f = Frame::Hello { timebase_hz: 10_000_000, protocol_version: 1 };
    let owned = OwnedFrame::from_borrowed(&f);
    assert_eq!(owned, OwnedFrame::Hello { timebase_hz: 10_000_000, protocol_version: 1 });
}

#[test]
fn owned_frame_copies_string_register_value() {
    let f = Frame::StringRegister { id: StringId(3), value: "kernel.boot" };
    let owned = OwnedFrame::from_borrowed(&f);
    assert_eq!(
        owned,
        OwnedFrame::StringRegister { id: StringId(3), value: "kernel.boot".to_string() },
    );
}

#[test]
fn owned_frame_round_trips_message() {
    let f = Frame::Message { endpoint: 2, from: 4, to: 5, parent_span: SpanId(42), t: 1234, hart_id: 1 };
    let owned = OwnedFrame::from_borrowed(&f);
    assert_eq!(
        owned,
        OwnedFrame::Message { endpoint: 2, from: 4, to: 5, parent_span: SpanId(42), t: 1234, hart_id: 1 },
    );
}

#[test]
fn owned_frame_round_trips_cap_event_with_badge() {
    let f = Frame::CapEvent {
        kind: CapEventKind::Transferred,
        cap_id: 9,
        parent_cap_id: 2,
        holder: 5,
        object: CapObject::Endpoint,
        rights: 0b0010,
        badge: 0xCAFE,
        t: 7777,
        hart_id: 1,
        name: pack_name("fs"),
    };
    let owned = OwnedFrame::from_borrowed(&f);
    assert_eq!(
        owned,
        OwnedFrame::CapEvent {
            kind: CapEventKind::Transferred,
            cap_id: 9,
            parent_cap_id: 2,
            holder: 5,
            object: CapObject::Endpoint,
            rights: 0b0010,
            badge: 0xCAFE,
            t: 7777,
            hart_id: 1,
            name: pack_name("fs"),
        },
    );
    let OwnedFrame::CapEvent { name, .. } = owned else { panic!("a CapEvent") };
    assert_eq!(&name[..3], b"fs\0");
}

#[test]
fn owned_frame_handles_every_variant() {
    for f in [
        Frame::Hello { timebase_hz: 1, protocol_version: 0 },
        Frame::SpanStart { id: SpanId(1), parent: SpanId(0), name_id: StringId(0), t: 1, task_id: 0, hart_id: 0 },
        Frame::ThreadRegister { id: 1, name: "task_a", priority: 1 },
        Frame::ContextSwitch { from: 1, to: 2, t: 1, reason: SwitchReason::Yield, hart_id: 0 },
        Frame::SpanEnd { id: SpanId(1), t: 2 },
        Frame::Event { span_id: SpanId(1), name_id: StringId(0), t: 3 },
        Frame::Metric { name_id: StringId(0), value: 5, t: 4, hart_id: 0 },
        Frame::Dropped { count: 7 },
        Frame::StringRegister { id: StringId(0), value: "x" },
        Frame::MetricRegister { name_id: StringId(0), kind: MetricKind::Counter, task_id: 0 },
        Frame::HartRegister { id: 0, mhartid: 0, role: HartRole::Boot },
        Frame::Message { endpoint: 1, from: 2, to: 3, parent_span: SpanId(4), t: 5, hart_id: 0 },
        Frame::CapEvent { kind: CapEventKind::Granted, cap_id: 1, parent_cap_id: 0, holder: 1, object: CapObject::Endpoint, rights: 0b0010, badge: 0, t: 1, hart_id: 0, name: [0; CAP_NAME_LEN] },
    ] {
        let _ = OwnedFrame::from_borrowed(&f);
    }
}

#[test]
fn wire_encoded_frame_round_trips_through_the_stream_decoder() {
    let frame = Frame::Hello { timebase_hz: 10_000_000, protocol_version: 1 };
    let mut buf = [0u8; 64];
    let bytes = wire_encode(&frame, &mut buf).expect("encode fits").to_vec();
    let mut got = None;
    decode(&bytes, OnDecodeError::Fail, |f| got = Some(f.clone()))
        .expect("clean stream decodes");
    assert_eq!(got, Some(OwnedFrame::from_borrowed(&frame)));
}

#[test]
fn a_frame_whose_encoding_contains_a_zero_byte_survives_the_delimiter() {
    let frame = Frame::SpanEnd { id: SpanId(0), t: 0 };
    let mut buf = [0u8; 64];
    let bytes = wire_encode(&frame, &mut buf).expect("encode fits");
    assert!(
        bytes[..bytes.len() - 1].iter().all(|&b| b != 0),
        "COBS output before the trailing delimiter must contain no 0x00"
    );
    let mut got = None;
    decode(&bytes.to_vec(), OnDecodeError::Fail, |f| got = Some(f.clone()))
        .expect("clean stream decodes");
    assert_eq!(got, Some(OwnedFrame::from_borrowed(&frame)));
}

#[test]
fn two_wire_frames_back_to_back_both_decode() {
    let a = Frame::Hello { timebase_hz: 10_000_000, protocol_version: 1 };
    let b = Frame::SpanEnd { id: SpanId(42), t: 1234 };
    let mut wire = Vec::new();
    let mut buf = [0u8; 64];
    wire.extend_from_slice(wire_encode(&a, &mut buf).unwrap());
    wire.extend_from_slice(wire_encode(&b, &mut buf).unwrap());
    let mut got = Vec::new();
    decode(&wire, OnDecodeError::Fail, |f| got.push(f.clone()))
        .expect("clean stream decodes");
    assert_eq!(got, vec![OwnedFrame::from_borrowed(&a), OwnedFrame::from_borrowed(&b)]);
}

fn wire(frame: &Frame<'_>) -> Vec<u8> {
    let mut buf = [0u8; 128];
    wire_encode(frame, &mut buf).expect("encode fits").to_vec()
}

const BAD_CHUNK: [u8; 2] = [0x01, 0x00];

#[test]
fn resync_skips_a_corrupt_frame_and_delivers_its_neighbours() {
    let a = Frame::Hello { timebase_hz: 10_000_000, protocol_version: 1 };
    let c = Frame::SpanEnd { id: SpanId(9), t: 5 };
    let mut stream = wire(&a);
    stream.extend_from_slice(&BAD_CHUNK); // corruption between two good frames
    stream.extend_from_slice(&wire(&c));
    let mut got = Vec::new();
    let summary = decode(&stream, OnDecodeError::Resync, |f| {
        got.push(f.clone());
    })
    .expect("resync never fails");
    assert_eq!(got, vec![OwnedFrame::from_borrowed(&a), OwnedFrame::from_borrowed(&c)]);
    assert_eq!(summary.resyncs, 1, "the one bad frame was counted");
}

#[test]
fn fail_policy_returns_err_on_a_corrupt_frame() {
    let mut stream = wire(&Frame::Hello { timebase_hz: 1, protocol_version: 1 });
    stream.extend_from_slice(&BAD_CHUNK);
    let err = decode(&stream, OnDecodeError::Fail, |_| {})
        .expect_err("fail policy surfaces the bad frame");
    assert_eq!(err, DecodeError { consumed: 2 });
}

#[test]
fn resync_on_a_clean_stream_reports_zero_resyncs() {
    let a = Frame::Hello { timebase_hz: 1, protocol_version: 1 };
    let b = Frame::SpanEnd { id: SpanId(1), t: 2 };
    let mut stream = wire(&a);
    stream.extend_from_slice(&wire(&b));
    let mut count = 0;
    let summary = decode(&stream, OnDecodeError::Resync, |_| count += 1)
        .expect("clean stream decodes");
    assert_eq!(count, 2);
    assert_eq!(summary.resyncs, 0, "a clean stream never resyncs");
}

#[test]
fn resync_recovers_from_consecutive_corrupt_frames() {
    let good = Frame::SpanEnd { id: SpanId(7), t: 3 };
    let mut stream = Vec::new();
    stream.extend_from_slice(&BAD_CHUNK);
    stream.extend_from_slice(&BAD_CHUNK);
    stream.extend_from_slice(&wire(&good));
    let mut got = Vec::new();
    let summary = decode(&stream, OnDecodeError::Resync, |f| {
        got.push(f.clone());
    })
    .expect("resync never fails");
    assert_eq!(got, vec![OwnedFrame::from_borrowed(&good)]);
    assert_eq!(summary.resyncs, 2);
}

#[test]
fn decodes_hello() {
    let frame = Frame::Hello { timebase_hz: 10_000_000, protocol_version: 1 };
    let bytes = wire(&frame);
    let (decoded, consumed) =
        try_decode_frame(&bytes).expect("no decode error").expect("a complete frame");
    assert_eq!(decoded, OwnedFrame::from_borrowed(&frame));
    assert_eq!(consumed, bytes.len());
}

#[test]
fn round_trips_a_revoked_cap_event() {
    let frame = Frame::CapEvent {
        kind: CapEventKind::Revoked,
        cap_id: 77,
        parent_cap_id: 3,
        holder: 4,
        object: CapObject::Endpoint,
        rights: 0b0010,
        badge: 0,
        t: 123,
        hart_id: 0,
        name: [0; CAP_NAME_LEN],
    };
    let (decoded, _) =
        try_decode_frame(&wire(&frame)).expect("no decode error").expect("a frame");
    assert!(matches!(
        decoded,
        OwnedFrame::CapEvent { kind: CapEventKind::Revoked, cap_id: 77, holder: 4, .. },
    ));
}

#[test]
fn round_trips_a_minted_cap_event() {
    let frame = Frame::CapEvent {
        kind: CapEventKind::Minted,
        cap_id: 88,
        parent_cap_id: 0,
        holder: 5,
        object: CapObject::Endpoint,
        rights: 0b0110,
        badge: 0,
        t: 456,
        hart_id: 1,
        name: [0; CAP_NAME_LEN],
    };
    let (decoded, _) =
        try_decode_frame(&wire(&frame)).expect("no decode error").expect("a frame");
    assert!(matches!(
        decoded,
        OwnedFrame::CapEvent { kind: CapEventKind::Minted, cap_id: 88, holder: 5, .. },
    ));
}

#[test]
fn a_buffer_without_a_delimiter_yields_no_frame_yet() {
    let bytes = wire(&Frame::Hello { timebase_hz: 10_000_000, protocol_version: 1 });
    let truncated = &bytes[..bytes.len() - 1]; // drops the terminator
    assert_eq!(try_decode_frame(truncated), Ok(None));
}

#[test]
fn a_chunk_that_fails_to_decode_reports_an_error_not_a_panic() {
    assert_eq!(try_decode_frame(&[0x01, 0x00]), Err(DecodeError { consumed: 2 }));
}

#[test]
fn try_decode_frame_consumes_exactly_through_the_first_delimiter() {
    let a = Frame::SpanEnd { id: SpanId(7), t: 99 };
    let b = Frame::Hello { timebase_hz: 1, protocol_version: 1 };
    let a_bytes = wire(&a);
    let mut combined = a_bytes.clone();
    combined.extend_from_slice(&wire(&b));
    let (decoded, consumed) =
        try_decode_frame(&combined).expect("no decode error").expect("first frame");
    assert_eq!(decoded, OwnedFrame::from_borrowed(&a));
    assert_eq!(consumed, a_bytes.len(), "stops at the first delimiter");
}

#[test]
fn decode_stream_yields_single_hello() {
    let frame = Frame::Hello { timebase_hz: 10_000_000, protocol_version: 1 };
    let mut count = 0;
    decode(&wire(&frame), OnDecodeError::Fail, |f| {
        assert!(matches!(f, OwnedFrame::Hello { timebase_hz: 10_000_000, protocol_version: 1 }));
        count += 1;
    })
    .expect("decode_stream should succeed");
    assert_eq!(count, 1);
}

#[test]
fn decode_stream_yields_multiple_frames() {
    let frame_a = Frame::Hello { timebase_hz: 10_000_000, protocol_version: 1 };
    let frame_b = Frame::SpanEnd { id: SpanId(42), t: 1234 };
    let mut buf = wire(&frame_a);
    buf.extend_from_slice(&wire(&frame_b));
    let mut seen: Vec<&'static str> = Vec::new();
    decode(&buf, OnDecodeError::Fail, |f| match f {
        OwnedFrame::Hello { .. } => seen.push("hello"),
        OwnedFrame::SpanEnd { .. } => seen.push("span_end"),
        _ => panic!("unexpected frame {f:?}"),
    })
    .expect("decode_stream should succeed");
    assert_eq!(seen, vec!["hello", "span_end"]);
}


#[test]
fn decode_stream_handles_partial_reads() {
    let frame = Frame::MetricRegister { name_id: StringId(7), kind: MetricKind::Counter, task_id: 9 };
    let mut decoder = StreamDecoder::new(OnDecodeError::Fail);
    let mut count = 0;
    for byte in wire(&frame) {
        let (frames, result) = decoder.feed(&[byte]);
        result.expect("decoding should succeed");
        count += frames.len();
    }
    assert_eq!(count, 1);
}
