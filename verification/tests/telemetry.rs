//! The console stream as a page sees it.

use snemu::names::Names;
use snemu::protocol::{wire_encode, Frame, SpanId, StringId};
use snemu::stream::OwnedFrame;
use snemu::telemetry::{Decoder, FrameView};

fn wire(frames: &[Frame<'_>]) -> Vec<u8> {
    let mut out = Vec::new();
    for f in frames {
        let mut buf = [0u8; 512];
        out.extend_from_slice(wire_encode(f, &mut buf).expect("encodes"));
    }
    out
}

fn register(id: u32, value: &str) -> Frame<'_> {
    Frame::StringRegister { id: StringId(id), value }
}

fn span_start(id: u64, name_id: u32) -> Frame<'static> {
    Frame::SpanStart {
        id: SpanId(id),
        parent: SpanId(0),
        name_id: StringId(name_id),
        t: 42,
        task_id: 0,
        hart_id: 0,
    }
}

#[test]
fn a_whole_frame_decodes_in_one_push() {
    let mut d = Decoder::new();
    let views = d.push(&wire(&[register(1, "kernel.boot")]));
    assert_eq!(views.len(), 1);
    assert_eq!(views[0].kind, "StringRegister");
}

#[test]
fn a_frame_split_across_two_pushes_decodes_once_when_whole() {
    let bytes = wire(&[register(1, "kernel.boot")]);
    let cut = bytes.len() / 2;

    let mut d = Decoder::new();
    assert!(d.push(&bytes[..cut]).is_empty(), "half a frame yields nothing yet");
    let views = d.push(&bytes[cut..]);
    assert_eq!(views.len(), 1, "the completed frame arrives on the second push");
    assert_eq!(views[0].name.as_deref(), Some("kernel.boot"));
}

#[test]
fn feeding_one_byte_at_a_time_loses_no_frames() {
    let bytes = wire(&[register(1, "a.name"), span_start(7, 1), register(2, "b.name")]);

    let mut d = Decoder::new();
    let mut seen = Vec::new();
    for b in &bytes {
        seen.extend(d.push(&[*b]));
    }
    assert_eq!(seen.len(), 3, "all three frames survived a byte-wise feed");
}

#[test]
fn a_span_start_resolves_its_name_through_an_earlier_string_register() {
    let mut d = Decoder::new();
    let views = d.push(&wire(&[register(3, "kernel.heartbeat"), span_start(9, 3)]));

    let span = views.iter().find(|v| v.kind == "SpanStart").expect("a SpanStart");
    assert_eq!(span.name.as_deref(), Some("kernel.heartbeat"));
}

#[test]
fn the_intern_table_persists_across_pushes() {
    let mut d = Decoder::new();
    d.push(&wire(&[register(4, "task_a.tick")]));
    let views = d.push(&wire(&[span_start(1, 4)]));

    assert_eq!(views[0].name.as_deref(), Some("task_a.tick"));
}

#[test]
fn an_unregistered_name_id_resolves_to_nothing_rather_than_a_wrong_name() {
    let mut d = Decoder::new();
    let views = d.push(&wire(&[span_start(1, 99)]));

    assert_eq!(views[0].name, None);
}

#[test]
fn an_empty_push_yields_nothing_and_disturbs_nothing() {
    let mut d = Decoder::new();
    d.push(&wire(&[register(1, "kernel.boot")]));
    assert!(d.push(&[]).is_empty());
    let views = d.push(&wire(&[span_start(1, 1)]));
    assert_eq!(views[0].name.as_deref(), Some("kernel.boot"), "table intact");
}

#[test]
fn several_frames_in_one_push_come_back_in_wire_order() {
    let mut d = Decoder::new();
    let views = d.push(&wire(&[register(1, "first"), register(2, "second")]));

    let names: Vec<_> = views.iter().filter_map(|v| v.name.as_deref()).collect();
    assert_eq!(names, ["first", "second"]);
}

#[test]
fn a_corrupt_frame_is_skipped_and_the_stream_recovers() {
    let mut bytes = wire(&[register(1, "before")]);
    bytes.extend_from_slice(&[0xFF, 0xFE, 0xFD, 0x00]); // garbage + terminator
    bytes.extend_from_slice(&wire(&[register(2, "after")]));

    let mut d = Decoder::new();
    let names: Vec<_> =
        d.push(&bytes).iter().filter_map(|v| v.name.clone()).collect();
    assert_eq!(names, ["before", "after"], "the frame after the corruption survived");
}

#[test]
fn the_held_buffer_keeps_only_the_incomplete_tail() {
    let bytes = wire(&[register(1, "kernel.boot")]);
    let mut d = Decoder::new();
    d.push(&bytes);
    assert_eq!(d.held(), 0, "a clean boundary holds nothing");

    d.push(&bytes[..3]);
    assert_eq!(d.held(), 3, "and an incomplete frame holds exactly its bytes");
}

#[test]
fn decoded_frames_are_retained_for_folding() {
    let mut d = Decoder::new();
    d.push(&wire(&[register(1, "kernel.boot"), span_start(7, 1)]));

    assert_eq!(d.frames().len(), 2, "both frames kept");
}

#[test]
fn retention_spans_pushes() {
    let mut d = Decoder::new();
    d.push(&wire(&[register(1, "a")]));
    d.push(&wire(&[span_start(1, 1)]));

    assert_eq!(d.frames().len(), 2);
}

#[test]
fn decoded_metrics_reach_the_series_store() {
    let mut d = Decoder::new();
    assert!(d.series().is_empty());

    d.push(&wire(&[
        register(5, "snitchos.heap.bytes_used"),
        Frame::Metric { name_id: StringId(5), value: 4096, t: 100, hart_id: 0 },
        Frame::Metric { name_id: StringId(5), value: 8192, t: 200, hart_id: 0 },
    ]));

    let series = d.series();
    assert_eq!(series.len(), 1);
    assert_eq!(series[0].name, "snitchos.heap.bytes_used");
    assert_eq!(series[0].points, vec![(100, 4096), (200, 8192)]);
}

#[test]
fn the_decoder_reports_its_cumulative_frames() {
    let mut d = Decoder::new();
    assert_eq!(d.durable_len(), 0);

    d.push(&wire(&[register(1, "a"), register(2, "b"), register(3, "c")]));
    assert_eq!(d.durable_len(), 3);

    d.push(&wire(&[span_start(1, 1)]));
    assert_eq!(d.durable_len(), 3, "a span is not a cumulative fact");
}

#[test]
fn a_chunk_that_failed_to_decode_is_not_retained() {
    let mut bytes = wire(&[register(1, "before")]);
    bytes.extend_from_slice(&[0xFF, 0xFE, 0xFD, 0x00]);
    bytes.extend_from_slice(&wire(&[register(2, "after")]));

    let mut d = Decoder::new();
    d.push(&bytes);

    assert_eq!(d.frames().len(), 2, "the two real frames, not the garbage");
}

#[test]
fn a_metric_resolves_its_name_and_keeps_its_value() {
    let metric = Frame::Metric { name_id: StringId(5), value: 1234, t: 7, hart_id: 0 };
    let mut d = Decoder::new();
    let views = d.push(&wire(&[register(5, "snitchos.frames.allocated_total"), metric]));

    let m = views.iter().find(|v| v.kind == "Metric").expect("a Metric");
    assert_eq!(m.name.as_deref(), Some("snitchos.frames.allocated_total"));
    assert_eq!(m.value, Some(1234));
}

#[test]
fn every_view_carries_a_kind_label() {
    let view = FrameView::of(&OwnedFrame::Dropped { count: 3 }, &Names::new());
    assert_eq!(view.kind, "Dropped");
}

#[test]
fn a_string_register_projects_its_own_value_without_any_table() {
    let frame = OwnedFrame::StringRegister {
        id: StringId(1),
        value: "kernel.boot".into(),
    };
    let view = FrameView::of(&frame, &Names::new());
    assert_eq!(view.name.as_deref(), Some("kernel.boot"));
}

#[test]
fn a_push_ending_mid_frame_yields_the_whole_ones_and_holds_the_rest() {
    let whole = wire(&[register(1, "first"), register(2, "second")]);
    let tail = wire(&[register(3, "third")]);
    let cut = tail.len() / 2;

    let mut d = Decoder::new();
    let mut bytes = whole.clone();
    bytes.extend_from_slice(&tail[..cut]);

    let views = d.push(&bytes);
    assert_eq!(views.len(), 2, "both complete frames delivered");
    assert_eq!(d.held(), cut, "and only the severed tail retained");

    let views = d.push(&tail[cut..]);
    assert_eq!(views.len(), 1, "the third arrives once completed");
    assert_eq!(views[0].name.as_deref(), Some("third"));
}
