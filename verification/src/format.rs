//! The telemetry format as it stands on the wire: which bytes each kind of frame is made of.

use vstd::prelude::*;
use vstd::utf8::encode_utf8;
use crate::protocol::{
    cap_event_kind_code, cap_object_code, frame_bytes, hart_role_code, metric_kind_code,
    parse_frame, refusal_reason_code, sent, switch_reason_code, value_bytes, values_bytes,
    values_of, CapEventKind, CapObject, Frame, FrameState, HartRole, MetricKind, RefusalReason,
    SpanId, StringId, SwitchReason, ValueState,
};
use crate::stream::OwnedFrame;
use crate::wire::{law_a_number_is_read_back, lemma_varint_limits, stuffed, varint};

verus! {

// Numbers.

/// The number that groups of seven bits spell, the lowest first.
pub open spec fn grouped(s: Seq<u8>) -> int
    decreases s.len(),
{
    if s.len() == 0 {
        0
    } else {
        s[0] as int % 0x80 + 0x80 * grouped(s.drop_first())
    }
}

/// A number goes out in groups of seven bits, the lowest first. A byte is 128 or more where
/// another follows it, and no group that is not needed follows.
pub proof fn law_numbers_go_out_in_groups(n: nat)
    ensures
        grouped(varint(n)) == n,
        varint(n).len() > 0,
        forall|i: int|
            0 <= i < varint(n).len() ==> (#[trigger] varint(n)[i] >= 0x80) == (i < varint(n).len()
                - 1),
        varint(n).len() > 1 ==> varint(n).last() != 0,
    decreases n,
{
    if n < 128 {
        assert(varint(n).drop_first() =~= Seq::<u8>::empty());
        assert(grouped(varint(n).drop_first()) == 0);
    } else {
        law_numbers_go_out_in_groups(n / 128);
        let rest = varint(n / 128);
        assert(varint(n).drop_first() =~= rest);
        assert forall|i: int| 0 <= i < varint(n).len() implies (#[trigger] varint(n)[i] >= 0x80)
            == (i < varint(n).len() - 1) by {
            if i > 0 {
                assert(varint(n)[i] == rest[i - 1]);
            }
        }
        if rest.len() == 1 {
            assert(grouped(rest.drop_first()) == 0) by {
                assert(rest.drop_first() =~= Seq::<u8>::empty());
            }
        }
    }
}

/// A signed number as it goes out: twice its size, less one where it is negative.
pub open spec fn folded(i: int) -> nat {
    if i < 0 {
        (2 * -i - 1) as nat
    } else {
        (2 * i) as nat
    }
}

// Names for numbers.

/// The number that a `MetricKind` goes out as.
pub open spec fn metric_kind_number(v: MetricKind) -> int {
    match v {
        MetricKind::Counter => 0,
        MetricKind::Gauge => 1,
        MetricKind::Histogram => 2,
    }
}

/// The number that a `SwitchReason` goes out as.
pub open spec fn switch_reason_number(v: SwitchReason) -> int {
    match v {
        SwitchReason::Yield => 0,
        SwitchReason::Preempt => 1,
        SwitchReason::Blocked => 2,
        SwitchReason::Exit => 3,
    }
}

/// The number that a `HartRole` goes out as.
pub open spec fn hart_role_number(v: HartRole) -> int {
    match v {
        HartRole::Boot => 0,
        HartRole::Worker => 1,
    }
}

/// The number that a `CapEventKind` goes out as.
pub open spec fn cap_event_kind_number(v: CapEventKind) -> int {
    match v {
        CapEventKind::Granted => 0,
        CapEventKind::Transferred => 1,
        CapEventKind::Revoked => 2,
        CapEventKind::Minted => 3,
    }
}

/// The number that a `CapObject` goes out as.
pub open spec fn cap_object_number(v: CapObject) -> int {
    match v {
        CapObject::TelemetrySink => 0,
        CapObject::SpanSink => 1,
        CapObject::Endpoint => 2,
        CapObject::Reply => 3,
        CapObject::Notification => 4,
    }
}

/// The number that a `RefusalReason` goes out as.
pub open spec fn refusal_reason_number(v: RefusalReason) -> int {
    match v {
        RefusalReason::UnknownSyscall => 0,
        RefusalReason::NoProcess => 1,
        RefusalReason::CapNotFound => 2,
        RefusalReason::CapWrongRights => 3,
        RefusalReason::CapWrongObject => 4,
        RefusalReason::BadUserRange => 5,
        RefusalReason::BadUtf8 => 6,
        RefusalReason::Quota => 7,
        RefusalReason::BadSpanId => 8,
        RefusalReason::OutOfMemory => 9,
        RefusalReason::UnknownProgram => 10,
        RefusalReason::BadMetricHandle => 11,
        RefusalReason::BadMetricKind => 12,
        RefusalReason::NotificationBusy => 13,
        RefusalReason::CapNotDelegable => 14,
    }
}

// Frames.

proof fn lemma_one(v: ValueState)
    ensures
        values_bytes(seq![v]) == value_bytes(v),
{
    assert(seq![v].drop_first() =~= Seq::<ValueState>::empty());
    assert(values_bytes(Seq::<ValueState>::empty()) == Seq::<u8>::empty());
    assert(values_bytes(seq![v]) =~= value_bytes(v));
}

proof fn lemma_more(v: ValueState, rest: Seq<ValueState>, all: Seq<ValueState>)
    requires
        all =~= seq![v] + rest,
    ensures
        values_bytes(all) == value_bytes(v) + values_bytes(rest),
{
    assert(all.drop_first() =~= rest);
}

/// A `Hello` frame is the number 0 and its fields in this order.
pub proof fn law_a_hello_frame(
    timebase_hz: u64,
    protocol_version: u8,
)
    ensures
        frame_bytes(FrameState::Hello { timebase_hz, protocol_version }) == varint(0) + (varint(timebase_hz as nat) + (seq![protocol_version])),
{
    let f = FrameState::Hello { timebase_hz, protocol_version };
    let s0 = seq![ValueState::Wide(timebase_hz), ValueState::Byte(protocol_version)];
    let s1 = seq![ValueState::Byte(protocol_version)];
    assert(values_of(f) =~= s0);
    lemma_one(ValueState::Byte(protocol_version));
    lemma_more(ValueState::Wide(timebase_hz), s1, s0);
}

/// A `SpanStart` frame is the number 1 and its fields in this order.
pub proof fn law_a_span_start_frame(
    id: SpanId,
    parent: SpanId,
    name_id: StringId,
    t: u64,
    task_id: u32,
    hart_id: u8,
)
    ensures
        frame_bytes(FrameState::SpanStart { id, parent, name_id, t, task_id, hart_id }) == varint(1) + (varint(id.0 as nat) + (varint(parent.0 as nat) + (varint(name_id.0 as nat) + (varint(t as nat) + (varint(task_id as nat) + (seq![hart_id])))))),
{
    let f = FrameState::SpanStart { id, parent, name_id, t, task_id, hart_id };
    let s0 = seq![ValueState::Wide(id.0), ValueState::Wide(parent.0), ValueState::Small(name_id.0), ValueState::Wide(t), ValueState::Small(task_id), ValueState::Byte(hart_id)];
    let s1 = seq![ValueState::Wide(parent.0), ValueState::Small(name_id.0), ValueState::Wide(t), ValueState::Small(task_id), ValueState::Byte(hart_id)];
    let s2 = seq![ValueState::Small(name_id.0), ValueState::Wide(t), ValueState::Small(task_id), ValueState::Byte(hart_id)];
    let s3 = seq![ValueState::Wide(t), ValueState::Small(task_id), ValueState::Byte(hart_id)];
    let s4 = seq![ValueState::Small(task_id), ValueState::Byte(hart_id)];
    let s5 = seq![ValueState::Byte(hart_id)];
    assert(values_of(f) =~= s0);
    lemma_one(ValueState::Byte(hart_id));
    lemma_more(ValueState::Small(task_id), s5, s4);
    lemma_more(ValueState::Wide(t), s4, s3);
    lemma_more(ValueState::Small(name_id.0), s3, s2);
    lemma_more(ValueState::Wide(parent.0), s2, s1);
    lemma_more(ValueState::Wide(id.0), s1, s0);
}

/// A `SpanEnd` frame is the number 2 and its fields in this order.
pub proof fn law_a_span_end_frame(
    id: SpanId,
    t: u64,
)
    ensures
        frame_bytes(FrameState::SpanEnd { id, t }) == varint(2) + (varint(id.0 as nat) + (varint(t as nat))),
{
    let f = FrameState::SpanEnd { id, t };
    let s0 = seq![ValueState::Wide(id.0), ValueState::Wide(t)];
    let s1 = seq![ValueState::Wide(t)];
    assert(values_of(f) =~= s0);
    lemma_one(ValueState::Wide(t));
    lemma_more(ValueState::Wide(id.0), s1, s0);
}

/// A `Event` frame is the number 3 and its fields in this order.
pub proof fn law_a_event_frame(
    span_id: SpanId,
    name_id: StringId,
    t: u64,
)
    ensures
        frame_bytes(FrameState::Event { span_id, name_id, t }) == varint(3) + (varint(span_id.0 as nat) + (varint(name_id.0 as nat) + (varint(t as nat)))),
{
    let f = FrameState::Event { span_id, name_id, t };
    let s0 = seq![ValueState::Wide(span_id.0), ValueState::Small(name_id.0), ValueState::Wide(t)];
    let s1 = seq![ValueState::Small(name_id.0), ValueState::Wide(t)];
    let s2 = seq![ValueState::Wide(t)];
    assert(values_of(f) =~= s0);
    lemma_one(ValueState::Wide(t));
    lemma_more(ValueState::Small(name_id.0), s2, s1);
    lemma_more(ValueState::Wide(span_id.0), s1, s0);
}

/// A `Metric` frame is the number 4 and its fields in this order.
pub proof fn law_a_metric_frame(
    name_id: StringId,
    value: i64,
    t: u64,
    hart_id: u8,
)
    ensures
        frame_bytes(FrameState::Metric { name_id, value, t, hart_id }) == varint(4) + (varint(name_id.0 as nat) + (varint(folded(value as int)) + (varint(t as nat) + (seq![hart_id])))),
{
    let f = FrameState::Metric { name_id, value, t, hart_id };
    let s0 = seq![ValueState::Small(name_id.0), ValueState::Signed(value), ValueState::Wide(t), ValueState::Byte(hart_id)];
    let s1 = seq![ValueState::Signed(value), ValueState::Wide(t), ValueState::Byte(hart_id)];
    let s2 = seq![ValueState::Wide(t), ValueState::Byte(hart_id)];
    let s3 = seq![ValueState::Byte(hart_id)];
    assert(values_of(f) =~= s0);
    lemma_one(ValueState::Byte(hart_id));
    lemma_more(ValueState::Wide(t), s3, s2);
    lemma_more(ValueState::Signed(value), s2, s1);
    lemma_more(ValueState::Small(name_id.0), s1, s0);
}

/// A `Dropped` frame is the number 5 and its fields in this order.
pub proof fn law_a_dropped_frame(
    count: u32,
)
    ensures
        frame_bytes(FrameState::Dropped { count }) == varint(5) + (varint(count as nat)),
{
    let f = FrameState::Dropped { count };
    let s0 = seq![ValueState::Small(count)];
    assert(values_of(f) =~= s0);
    lemma_one(ValueState::Small(count));
}

/// A `StringRegister` frame is the number 6 and its fields in this order.
pub proof fn law_a_string_register_frame(
    id: StringId,
    value: Seq<char>,
)
    ensures
        frame_bytes(FrameState::StringRegister { id, value }) == varint(6) + (varint(id.0 as nat) + ((varint(encode_utf8(value).len()) + encode_utf8(value)))),
{
    let f = FrameState::StringRegister { id, value };
    let s0 = seq![ValueState::Small(id.0), ValueState::Text(value)];
    let s1 = seq![ValueState::Text(value)];
    assert(values_of(f) =~= s0);
    lemma_one(ValueState::Text(value));
    lemma_more(ValueState::Small(id.0), s1, s0);
}

/// A `MetricRegister` frame is the number 7 and its fields in this order.
pub proof fn law_a_metric_register_frame(
    name_id: StringId,
    kind: MetricKind,
    task_id: u32,
)
    ensures
        frame_bytes(FrameState::MetricRegister { name_id, kind, task_id }) == varint(7) + (varint(name_id.0 as nat) + (varint(metric_kind_number(kind) as nat) + (varint(task_id as nat)))),
{
    let f = FrameState::MetricRegister { name_id, kind, task_id };
    let s0 = seq![ValueState::Small(name_id.0), ValueState::Small(metric_kind_code(kind)), ValueState::Small(task_id)];
    let s1 = seq![ValueState::Small(metric_kind_code(kind)), ValueState::Small(task_id)];
    let s2 = seq![ValueState::Small(task_id)];
    assert(values_of(f) =~= s0);
    lemma_one(ValueState::Small(task_id));
    lemma_more(ValueState::Small(metric_kind_code(kind)), s2, s1);
    lemma_more(ValueState::Small(name_id.0), s1, s0);
}

/// A `ThreadRegister` frame is the number 8 and its fields in this order.
pub proof fn law_a_thread_register_frame(
    id: u32,
    name: Seq<char>,
    priority: u8,
)
    ensures
        frame_bytes(FrameState::ThreadRegister { id, name, priority }) == varint(8) + (varint(id as nat) + ((varint(encode_utf8(name).len()) + encode_utf8(name)) + (seq![priority]))),
{
    let f = FrameState::ThreadRegister { id, name, priority };
    let s0 = seq![ValueState::Small(id), ValueState::Text(name), ValueState::Byte(priority)];
    let s1 = seq![ValueState::Text(name), ValueState::Byte(priority)];
    let s2 = seq![ValueState::Byte(priority)];
    assert(values_of(f) =~= s0);
    lemma_one(ValueState::Byte(priority));
    lemma_more(ValueState::Text(name), s2, s1);
    lemma_more(ValueState::Small(id), s1, s0);
}

/// A `ContextSwitch` frame is the number 9 and its fields in this order.
pub proof fn law_a_context_switch_frame(
    from: u32,
    to: u32,
    t: u64,
    reason: SwitchReason,
    hart_id: u8,
)
    ensures
        frame_bytes(FrameState::ContextSwitch { from, to, t, reason, hart_id }) == varint(9) + (varint(from as nat) + (varint(to as nat) + (varint(t as nat) + (varint(switch_reason_number(reason) as nat) + (seq![hart_id]))))),
{
    let f = FrameState::ContextSwitch { from, to, t, reason, hart_id };
    let s0 = seq![ValueState::Small(from), ValueState::Small(to), ValueState::Wide(t), ValueState::Small(switch_reason_code(reason)), ValueState::Byte(hart_id)];
    let s1 = seq![ValueState::Small(to), ValueState::Wide(t), ValueState::Small(switch_reason_code(reason)), ValueState::Byte(hart_id)];
    let s2 = seq![ValueState::Wide(t), ValueState::Small(switch_reason_code(reason)), ValueState::Byte(hart_id)];
    let s3 = seq![ValueState::Small(switch_reason_code(reason)), ValueState::Byte(hart_id)];
    let s4 = seq![ValueState::Byte(hart_id)];
    assert(values_of(f) =~= s0);
    lemma_one(ValueState::Byte(hart_id));
    lemma_more(ValueState::Small(switch_reason_code(reason)), s4, s3);
    lemma_more(ValueState::Wide(t), s3, s2);
    lemma_more(ValueState::Small(to), s2, s1);
    lemma_more(ValueState::Small(from), s1, s0);
}

/// A `HartRegister` frame is the number 10 and its fields in this order.
pub proof fn law_a_hart_register_frame(
    id: u8,
    mhartid: u64,
    role: HartRole,
)
    ensures
        frame_bytes(FrameState::HartRegister { id, mhartid, role }) == varint(10) + (seq![id] + (varint(mhartid as nat) + (varint(hart_role_number(role) as nat)))),
{
    let f = FrameState::HartRegister { id, mhartid, role };
    let s0 = seq![ValueState::Byte(id), ValueState::Wide(mhartid), ValueState::Small(hart_role_code(role))];
    let s1 = seq![ValueState::Wide(mhartid), ValueState::Small(hart_role_code(role))];
    let s2 = seq![ValueState::Small(hart_role_code(role))];
    assert(values_of(f) =~= s0);
    lemma_one(ValueState::Small(hart_role_code(role)));
    lemma_more(ValueState::Wide(mhartid), s2, s1);
    lemma_more(ValueState::Byte(id), s1, s0);
}

/// A `CapEvent` frame is the number 11 and its fields in this order.
pub proof fn law_a_cap_event_frame(
    kind: CapEventKind,
    cap_id: u64,
    parent_cap_id: u64,
    holder: u32,
    object: CapObject,
    rights: u32,
    badge: u64,
    t: u64,
    hart_id: u8,
    name: Seq<u8>,
)
    ensures
        frame_bytes(FrameState::CapEvent { kind, cap_id, parent_cap_id, holder, object, rights, badge, t, hart_id, name }) == varint(11) + (varint(cap_event_kind_number(kind) as nat) + (varint(cap_id as nat) + (varint(parent_cap_id as nat) + (varint(holder as nat) + (varint(cap_object_number(object) as nat) + (varint(rights as nat) + (varint(badge as nat) + (varint(t as nat) + (seq![hart_id] + (name)))))))))),
{
    let f = FrameState::CapEvent { kind, cap_id, parent_cap_id, holder, object, rights, badge, t, hart_id, name };
    let s0 = seq![ValueState::Small(cap_event_kind_code(kind)), ValueState::Wide(cap_id), ValueState::Wide(parent_cap_id), ValueState::Small(holder), ValueState::Small(cap_object_code(object)), ValueState::Small(rights), ValueState::Wide(badge), ValueState::Wide(t), ValueState::Byte(hart_id), ValueState::Name(name)];
    let s1 = seq![ValueState::Wide(cap_id), ValueState::Wide(parent_cap_id), ValueState::Small(holder), ValueState::Small(cap_object_code(object)), ValueState::Small(rights), ValueState::Wide(badge), ValueState::Wide(t), ValueState::Byte(hart_id), ValueState::Name(name)];
    let s2 = seq![ValueState::Wide(parent_cap_id), ValueState::Small(holder), ValueState::Small(cap_object_code(object)), ValueState::Small(rights), ValueState::Wide(badge), ValueState::Wide(t), ValueState::Byte(hart_id), ValueState::Name(name)];
    let s3 = seq![ValueState::Small(holder), ValueState::Small(cap_object_code(object)), ValueState::Small(rights), ValueState::Wide(badge), ValueState::Wide(t), ValueState::Byte(hart_id), ValueState::Name(name)];
    let s4 = seq![ValueState::Small(cap_object_code(object)), ValueState::Small(rights), ValueState::Wide(badge), ValueState::Wide(t), ValueState::Byte(hart_id), ValueState::Name(name)];
    let s5 = seq![ValueState::Small(rights), ValueState::Wide(badge), ValueState::Wide(t), ValueState::Byte(hart_id), ValueState::Name(name)];
    let s6 = seq![ValueState::Wide(badge), ValueState::Wide(t), ValueState::Byte(hart_id), ValueState::Name(name)];
    let s7 = seq![ValueState::Wide(t), ValueState::Byte(hart_id), ValueState::Name(name)];
    let s8 = seq![ValueState::Byte(hart_id), ValueState::Name(name)];
    let s9 = seq![ValueState::Name(name)];
    assert(values_of(f) =~= s0);
    lemma_one(ValueState::Name(name));
    lemma_more(ValueState::Byte(hart_id), s9, s8);
    lemma_more(ValueState::Wide(t), s8, s7);
    lemma_more(ValueState::Wide(badge), s7, s6);
    lemma_more(ValueState::Small(rights), s6, s5);
    lemma_more(ValueState::Small(cap_object_code(object)), s5, s4);
    lemma_more(ValueState::Small(holder), s4, s3);
    lemma_more(ValueState::Wide(parent_cap_id), s3, s2);
    lemma_more(ValueState::Wide(cap_id), s2, s1);
    lemma_more(ValueState::Small(cap_event_kind_code(kind)), s1, s0);
}

/// A `SyscallRefused` frame is the number 12 and its fields in this order.
pub proof fn law_a_syscall_refused_frame(
    syscall: u8,
    reason: RefusalReason,
    task_id: u32,
    t: u64,
    hart_id: u8,
)
    ensures
        frame_bytes(FrameState::SyscallRefused { syscall, reason, task_id, t, hart_id }) == varint(12) + (seq![syscall] + (varint(refusal_reason_number(reason) as nat) + (varint(task_id as nat) + (varint(t as nat) + (seq![hart_id]))))),
{
    let f = FrameState::SyscallRefused { syscall, reason, task_id, t, hart_id };
    let s0 = seq![ValueState::Byte(syscall), ValueState::Small(refusal_reason_code(reason)), ValueState::Small(task_id), ValueState::Wide(t), ValueState::Byte(hart_id)];
    let s1 = seq![ValueState::Small(refusal_reason_code(reason)), ValueState::Small(task_id), ValueState::Wide(t), ValueState::Byte(hart_id)];
    let s2 = seq![ValueState::Small(task_id), ValueState::Wide(t), ValueState::Byte(hart_id)];
    let s3 = seq![ValueState::Wide(t), ValueState::Byte(hart_id)];
    let s4 = seq![ValueState::Byte(hart_id)];
    assert(values_of(f) =~= s0);
    lemma_one(ValueState::Byte(hart_id));
    lemma_more(ValueState::Wide(t), s4, s3);
    lemma_more(ValueState::Small(task_id), s3, s2);
    lemma_more(ValueState::Small(refusal_reason_code(reason)), s2, s1);
    lemma_more(ValueState::Byte(syscall), s1, s0);
}

/// A `Log` frame is the number 13 and its fields in this order.
pub proof fn law_a_log_frame(
    msg: Seq<char>,
    task_id: u32,
    t: u64,
    hart_id: u8,
)
    ensures
        frame_bytes(FrameState::Log { msg, task_id, t, hart_id }) == varint(13) + ((varint(encode_utf8(msg).len()) + encode_utf8(msg)) + (varint(task_id as nat) + (varint(t as nat) + (seq![hart_id])))),
{
    let f = FrameState::Log { msg, task_id, t, hart_id };
    let s0 = seq![ValueState::Text(msg), ValueState::Small(task_id), ValueState::Wide(t), ValueState::Byte(hart_id)];
    let s1 = seq![ValueState::Small(task_id), ValueState::Wide(t), ValueState::Byte(hart_id)];
    let s2 = seq![ValueState::Wide(t), ValueState::Byte(hart_id)];
    let s3 = seq![ValueState::Byte(hart_id)];
    assert(values_of(f) =~= s0);
    lemma_one(ValueState::Byte(hart_id));
    lemma_more(ValueState::Wide(t), s3, s2);
    lemma_more(ValueState::Small(task_id), s2, s1);
    lemma_more(ValueState::Text(msg), s1, s0);
}

/// A `Message` frame is the number 14 and its fields in this order.
pub proof fn law_a_message_frame(
    endpoint: u32,
    from: u32,
    to: u32,
    parent_span: SpanId,
    t: u64,
    hart_id: u8,
)
    ensures
        frame_bytes(FrameState::Message { endpoint, from, to, parent_span, t, hart_id }) == varint(14) + (varint(endpoint as nat) + (varint(from as nat) + (varint(to as nat) + (varint(parent_span.0 as nat) + (varint(t as nat) + (seq![hart_id])))))),
{
    let f = FrameState::Message { endpoint, from, to, parent_span, t, hart_id };
    let s0 = seq![ValueState::Small(endpoint), ValueState::Small(from), ValueState::Small(to), ValueState::Wide(parent_span.0), ValueState::Wide(t), ValueState::Byte(hart_id)];
    let s1 = seq![ValueState::Small(from), ValueState::Small(to), ValueState::Wide(parent_span.0), ValueState::Wide(t), ValueState::Byte(hart_id)];
    let s2 = seq![ValueState::Small(to), ValueState::Wide(parent_span.0), ValueState::Wide(t), ValueState::Byte(hart_id)];
    let s3 = seq![ValueState::Wide(parent_span.0), ValueState::Wide(t), ValueState::Byte(hart_id)];
    let s4 = seq![ValueState::Wide(t), ValueState::Byte(hart_id)];
    let s5 = seq![ValueState::Byte(hart_id)];
    assert(values_of(f) =~= s0);
    lemma_one(ValueState::Byte(hart_id));
    lemma_more(ValueState::Wide(t), s5, s4);
    lemma_more(ValueState::Wide(parent_span.0), s4, s3);
    lemma_more(ValueState::Small(to), s3, s2);
    lemma_more(ValueState::Small(from), s2, s1);
    lemma_more(ValueState::Small(endpoint), s1, s0);
}

/// A `NotifySignal` frame is the number 15 and its fields in this order.
pub proof fn law_a_notify_signal_frame(
    notification: u32,
    mask: u64,
    from_task: u32,
    t: u64,
    hart_id: u8,
)
    ensures
        frame_bytes(FrameState::NotifySignal { notification, mask, from_task, t, hart_id }) == varint(15) + (varint(notification as nat) + (varint(mask as nat) + (varint(from_task as nat) + (varint(t as nat) + (seq![hart_id]))))),
{
    let f = FrameState::NotifySignal { notification, mask, from_task, t, hart_id };
    let s0 = seq![ValueState::Small(notification), ValueState::Wide(mask), ValueState::Small(from_task), ValueState::Wide(t), ValueState::Byte(hart_id)];
    let s1 = seq![ValueState::Wide(mask), ValueState::Small(from_task), ValueState::Wide(t), ValueState::Byte(hart_id)];
    let s2 = seq![ValueState::Small(from_task), ValueState::Wide(t), ValueState::Byte(hart_id)];
    let s3 = seq![ValueState::Wide(t), ValueState::Byte(hart_id)];
    let s4 = seq![ValueState::Byte(hart_id)];
    assert(values_of(f) =~= s0);
    lemma_one(ValueState::Byte(hart_id));
    lemma_more(ValueState::Wide(t), s4, s3);
    lemma_more(ValueState::Small(from_task), s3, s2);
    lemma_more(ValueState::Wide(mask), s2, s1);
    lemma_more(ValueState::Small(notification), s1, s0);
}

/// A `NotifyWait` frame is the number 16 and its fields in this order.
pub proof fn law_a_notify_wait_frame(
    notification: u32,
    bits: u64,
    to_task: u32,
    t: u64,
    hart_id: u8,
)
    ensures
        frame_bytes(FrameState::NotifyWait { notification, bits, to_task, t, hart_id }) == varint(16) + (varint(notification as nat) + (varint(bits as nat) + (varint(to_task as nat) + (varint(t as nat) + (seq![hart_id]))))),
{
    let f = FrameState::NotifyWait { notification, bits, to_task, t, hart_id };
    let s0 = seq![ValueState::Small(notification), ValueState::Wide(bits), ValueState::Small(to_task), ValueState::Wide(t), ValueState::Byte(hart_id)];
    let s1 = seq![ValueState::Wide(bits), ValueState::Small(to_task), ValueState::Wide(t), ValueState::Byte(hart_id)];
    let s2 = seq![ValueState::Small(to_task), ValueState::Wide(t), ValueState::Byte(hart_id)];
    let s3 = seq![ValueState::Wide(t), ValueState::Byte(hart_id)];
    let s4 = seq![ValueState::Byte(hart_id)];
    assert(values_of(f) =~= s0);
    lemma_one(ValueState::Byte(hart_id));
    lemma_more(ValueState::Wide(t), s4, s3);
    lemma_more(ValueState::Small(to_task), s3, s2);
    lemma_more(ValueState::Wide(bits), s2, s1);
    lemma_more(ValueState::Small(notification), s1, s0);
}

/// A `AudioXRun` frame is the number 17 and its fields in this order.
pub proof fn law_a_audio_x_run_frame(
    t: u64,
    hart_id: u8,
)
    ensures
        frame_bytes(FrameState::AudioXRun { t, hart_id }) == varint(17) + (varint(t as nat) + (seq![hart_id])),
{
    let f = FrameState::AudioXRun { t, hart_id };
    let s0 = seq![ValueState::Wide(t), ValueState::Byte(hart_id)];
    let s1 = seq![ValueState::Byte(hart_id)];
    assert(values_of(f) =~= s0);
    lemma_one(ValueState::Byte(hart_id));
    lemma_more(ValueState::Wide(t), s1, s0);
}

/// A `BuildInfo` frame is the number 18 and its fields in this order.
pub proof fn law_a_build_info_frame(
    kernel_profile: Seq<char>,
    userspace_opt: Seq<char>,
)
    ensures
        frame_bytes(FrameState::BuildInfo { kernel_profile, userspace_opt }) == varint(18) + ((varint(encode_utf8(kernel_profile).len()) + encode_utf8(kernel_profile)) + ((varint(encode_utf8(userspace_opt).len()) + encode_utf8(userspace_opt)))),
{
    let f = FrameState::BuildInfo { kernel_profile, userspace_opt };
    let s0 = seq![ValueState::Text(kernel_profile), ValueState::Text(userspace_opt)];
    let s1 = seq![ValueState::Text(userspace_opt)];
    assert(values_of(f) =~= s0);
    lemma_one(ValueState::Text(userspace_opt));
    lemma_more(ValueState::Text(kernel_profile), s1, s0);
}

/// An owned copy of a frame is of the same kind and has each of its fields.
pub proof fn law_a_copy_has_every_field(f: Frame, g: OwnedFrame)
    requires
        g@ == f@,
    ensures
        match f {
            Frame::Hello { timebase_hz, protocol_version } => g is Hello && g->Hello_timebase_hz == timebase_hz && g->Hello_protocol_version == protocol_version,
            Frame::SpanStart { id, parent, name_id, t, task_id, hart_id } => g is SpanStart && g->SpanStart_id == id && g->SpanStart_parent == parent && g->SpanStart_name_id == name_id && g->SpanStart_t == t && g->SpanStart_task_id == task_id && g->SpanStart_hart_id == hart_id,
            Frame::SpanEnd { id, t } => g is SpanEnd && g->SpanEnd_id == id && g->SpanEnd_t == t,
            Frame::Event { span_id, name_id, t } => g is Event && g->Event_span_id == span_id && g->Event_name_id == name_id && g->Event_t == t,
            Frame::Metric { name_id, value, t, hart_id } => g is Metric && g->Metric_name_id == name_id && g->Metric_value == value && g->Metric_t == t && g->Metric_hart_id == hart_id,
            Frame::Dropped { count } => g is Dropped && g->Dropped_count == count,
            Frame::StringRegister { id, value } => g is StringRegister && g->StringRegister_id == id && g->StringRegister_value@ == value@,
            Frame::MetricRegister { name_id, kind, task_id } => g is MetricRegister && g->MetricRegister_name_id == name_id && g->MetricRegister_kind == kind && g->MetricRegister_task_id == task_id,
            Frame::ThreadRegister { id, name, priority } => g is ThreadRegister && g->ThreadRegister_id == id && g->ThreadRegister_name@ == name@ && g->ThreadRegister_priority == priority,
            Frame::ContextSwitch { from, to, t, reason, hart_id } => g is ContextSwitch && g->ContextSwitch_from == from && g->ContextSwitch_to == to && g->ContextSwitch_t == t && g->ContextSwitch_reason == reason && g->ContextSwitch_hart_id == hart_id,
            Frame::HartRegister { id, mhartid, role } => g is HartRegister && g->HartRegister_id == id && g->HartRegister_mhartid == mhartid && g->HartRegister_role == role,
            Frame::CapEvent { kind, cap_id, parent_cap_id, holder, object, rights, badge, t, hart_id, name } => g is CapEvent && g->CapEvent_kind == kind && g->CapEvent_cap_id == cap_id && g->CapEvent_parent_cap_id == parent_cap_id && g->CapEvent_holder == holder && g->CapEvent_object == object && g->CapEvent_rights == rights && g->CapEvent_badge == badge && g->CapEvent_t == t && g->CapEvent_hart_id == hart_id && g->CapEvent_name@ == name@,
            Frame::SyscallRefused { syscall, reason, task_id, t, hart_id } => g is SyscallRefused && g->SyscallRefused_syscall == syscall && g->SyscallRefused_reason == reason && g->SyscallRefused_task_id == task_id && g->SyscallRefused_t == t && g->SyscallRefused_hart_id == hart_id,
            Frame::Log { msg, task_id, t, hart_id } => g is Log && g->Log_msg@ == msg@ && g->Log_task_id == task_id && g->Log_t == t && g->Log_hart_id == hart_id,
            Frame::Message { endpoint, from, to, parent_span, t, hart_id } => g is Message && g->Message_endpoint == endpoint && g->Message_from == from && g->Message_to == to && g->Message_parent_span == parent_span && g->Message_t == t && g->Message_hart_id == hart_id,
            Frame::NotifySignal { notification, mask, from_task, t, hart_id } => g is NotifySignal && g->NotifySignal_notification == notification && g->NotifySignal_mask == mask && g->NotifySignal_from_task == from_task && g->NotifySignal_t == t && g->NotifySignal_hart_id == hart_id,
            Frame::NotifyWait { notification, bits, to_task, t, hart_id } => g is NotifyWait && g->NotifyWait_notification == notification && g->NotifyWait_bits == bits && g->NotifyWait_to_task == to_task && g->NotifyWait_t == t && g->NotifyWait_hart_id == hart_id,
            Frame::AudioXRun { t, hart_id } => g is AudioXRun && g->AudioXRun_t == t && g->AudioXRun_hart_id == hart_id,
            Frame::BuildInfo { kernel_profile, userspace_opt } => g is BuildInfo && g->BuildInfo_kernel_profile@ == kernel_profile@ && g->BuildInfo_userspace_opt@ == userspace_opt@,
        },
{
}

/// A frame goes out in blocks that hold no 0, and then a 0. A block is led by the distance to the
/// next: one more than its bytes. What a block of less than 254 bytes is followed by is a 0 of
/// the frame, unless it is the last.
pub proof fn law_a_frame_goes_out_in_blocks(s: Seq<u8>, k: int)
    requires
        0 <= k <= s.len(),
        k <= 254,
        forall|i: int| 0 <= i < k ==> s[i] != 0,
        k < 254 ==> k == s.len() || s[k] == 0,
    ensures
        stuffed(s) == if k == 254 {
            seq![0xffu8] + s.take(254) + stuffed(s.skip(254))
        } else if k == s.len() {
            seq![(k + 1) as u8] + s
        } else {
            seq![(k + 1) as u8] + s.take(k) + stuffed(s.skip(k + 1))
        },
{
    lemma_run(s, 0, k);
}

proof fn lemma_run(s: Seq<u8>, i: int, k: int)
    requires
        0 <= i <= k <= s.len(),
        k <= 254,
        forall|j: int| 0 <= j < k ==> s[j] != 0,
        k < 254 ==> k == s.len() || s[k] == 0,
    ensures
        crate::wire::run_len(s, i) == k,
    decreases k - i,
{
    if i < k {
        lemma_run(s, i + 1, k);
    }
}

/// What is sent of a frame: its blocks, and a 0.
pub proof fn law_a_frame_is_sent(f: FrameState)
    ensures
        sent(f) == stuffed(frame_bytes(f)) + seq![0u8],
{
    assert(sent(f) =~= stuffed(frame_bytes(f)) + seq![0u8]);
}

/// A kind of frame that there is not is refused.
pub proof fn law_unknown_kinds_are_refused(kind: nat, more: Seq<u8>)
    requires
        19 <= kind < 0x1_0000_0000,
    ensures
        parse_frame(varint(kind) + more) is None,
{
    lemma_varint_limits();
    law_a_number_is_read_back(kind, 5, 15, more);
}

} // verus!
