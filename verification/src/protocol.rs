//! The telemetry wire format. A frame is a tag and its fields, each in postcard's encoding,
//! so the order of the variants and of their fields is the format: new ones go at the end.

use vstd::prelude::*;
use vstd::string::*;
use crate::wire::{
    law_a_number_is_read_back, law_text_is_read_back, law_zigzag_is_undone, lemma_varint_limits,
    parse_text, parse_u32, parse_u64, put_i64, put_text, put_u32, put_u64, stuff, stuffed,
    text_bytes, unzigzag, varint, zigzag,
};

verus! {

/// Wire-format version, which the guest says in its first frame. Bumped on every breaking
/// change to the encoded layout.
pub const PROTOCOL_VERSION: u8 = 4;

/// The emitter of a metric that the kernel itself registered.
pub const NO_EMITTER: u32 = 0xffff_ffff;

/// Bytes of a capability object's name, NUL-padded.
pub const CAP_NAME_LEN: usize = 16;

/// How many kinds of frame there are.
pub const FRAME_KINDS: u32 = 19;

/// Identifier of a string in the intern table.
#[derive(Debug, Clone, Copy, PartialEq, Eq, Hash, Structural)]
pub struct StringId(pub u32);

/// Identifier of a span.
#[derive(Debug, Clone, Copy, PartialEq, Eq, Hash, Structural)]
pub struct SpanId(pub u64);

/// Semantic kind of a metric, declared once per metric name.
#[derive(Debug, Clone, Copy, PartialEq, Eq, Hash, Structural)]
pub enum MetricKind {
    Counter,
    Gauge,
    Histogram,
}

/// The code of a MetricKind on the wire.
#[verifier::allow_in_spec]
pub fn metric_kind_code(v: MetricKind) -> u32
    returns
        (match v {
            MetricKind::Counter => 0u32,
            MetricKind::Gauge => 1u32,
            MetricKind::Histogram => 2u32,
        }),
{
    match v {
        MetricKind::Counter => 0,
        MetricKind::Gauge => 1,
        MetricKind::Histogram => 2,
    }
}

/// The MetricKind with a code.
#[verifier::allow_in_spec]
pub fn metric_kind_of(c: u32) -> MetricKind
    returns
        (if c == 0 {
            MetricKind::Counter
        } else if c == 1 {
            MetricKind::Gauge
        } else {
            MetricKind::Histogram
        }),
{
    if c == 0 {
        MetricKind::Counter
    } else if c == 1 {
        MetricKind::Gauge
    } else {
        MetricKind::Histogram
    }
}

/// What role a hart plays in the system.
#[derive(Debug, Clone, Copy, PartialEq, Eq, Hash, Structural)]
pub enum HartRole {
    Boot,
    Worker,
}

/// The code of a HartRole on the wire.
#[verifier::allow_in_spec]
pub fn hart_role_code(v: HartRole) -> u32
    returns
        (match v {
            HartRole::Boot => 0u32,
            HartRole::Worker => 1u32,
        }),
{
    match v {
        HartRole::Boot => 0,
        HartRole::Worker => 1,
    }
}

/// The HartRole with a code.
#[verifier::allow_in_spec]
pub fn hart_role_of(c: u32) -> HartRole
    returns
        (if c == 0 {
            HartRole::Boot
        } else {
            HartRole::Worker
        }),
{
    if c == 0 {
        HartRole::Boot
    } else {
        HartRole::Worker
    }
}

/// Why the scheduler picked a different task.
#[derive(Debug, Clone, Copy, PartialEq, Eq, Hash, Structural)]
pub enum SwitchReason {
    /// The running task yielded.
    Yield,
    /// The running task was preempted by the timer.
    Preempt,
    /// The running task hit a blocking primitive.
    Blocked,
    /// The running task ran to completion.
    Exit,
}

/// The code of a SwitchReason on the wire.
#[verifier::allow_in_spec]
pub fn switch_reason_code(v: SwitchReason) -> u32
    returns
        (match v {
            SwitchReason::Yield => 0u32,
            SwitchReason::Preempt => 1u32,
            SwitchReason::Blocked => 2u32,
            SwitchReason::Exit => 3u32,
        }),
{
    match v {
        SwitchReason::Yield => 0,
        SwitchReason::Preempt => 1,
        SwitchReason::Blocked => 2,
        SwitchReason::Exit => 3,
    }
}

/// The SwitchReason with a code.
#[verifier::allow_in_spec]
pub fn switch_reason_of(c: u32) -> SwitchReason
    returns
        (if c == 0 {
            SwitchReason::Yield
        } else if c == 1 {
            SwitchReason::Preempt
        } else if c == 2 {
            SwitchReason::Blocked
        } else {
            SwitchReason::Exit
        }),
{
    if c == 0 {
        SwitchReason::Yield
    } else if c == 1 {
        SwitchReason::Preempt
    } else if c == 2 {
        SwitchReason::Blocked
    } else {
        SwitchReason::Exit
    }
}

/// The lifecycle phase of a capability event.
#[derive(Debug, Clone, Copy, PartialEq, Eq, Hash, Structural)]
pub enum CapEventKind {
    /// A new capability was created and handed to its holder.
    Granted,
    /// A capability was handed from one holder to another.
    Transferred,
    /// A capability was withdrawn.
    Revoked,
    /// A holder minted a capability itself, by a system call.
    Minted,
}

/// The code of a CapEventKind on the wire.
#[verifier::allow_in_spec]
pub fn cap_event_kind_code(v: CapEventKind) -> u32
    returns
        (match v {
            CapEventKind::Granted => 0u32,
            CapEventKind::Transferred => 1u32,
            CapEventKind::Revoked => 2u32,
            CapEventKind::Minted => 3u32,
        }),
{
    match v {
        CapEventKind::Granted => 0,
        CapEventKind::Transferred => 1,
        CapEventKind::Revoked => 2,
        CapEventKind::Minted => 3,
    }
}

/// The CapEventKind with a code.
#[verifier::allow_in_spec]
pub fn cap_event_kind_of(c: u32) -> CapEventKind
    returns
        (if c == 0 {
            CapEventKind::Granted
        } else if c == 1 {
            CapEventKind::Transferred
        } else if c == 2 {
            CapEventKind::Revoked
        } else {
            CapEventKind::Minted
        }),
{
    if c == 0 {
        CapEventKind::Granted
    } else if c == 1 {
        CapEventKind::Transferred
    } else if c == 2 {
        CapEventKind::Revoked
    } else {
        CapEventKind::Minted
    }
}

/// What a capability points at.
#[derive(Debug, Clone, Copy, PartialEq, Eq, Hash, Structural)]
pub enum CapObject {
    /// Permission to emit telemetry to a bound counter.
    TelemetrySink,
    /// Permission to open and close spans.
    SpanSink,
    /// A synchronous IPC endpoint.
    Endpoint,
    /// A one-shot reply authority.
    Reply,
    /// An asynchronous signal from the kernel.
    Notification,
}

/// The code of a CapObject on the wire.
#[verifier::allow_in_spec]
pub fn cap_object_code(v: CapObject) -> u32
    returns
        (match v {
            CapObject::TelemetrySink => 0u32,
            CapObject::SpanSink => 1u32,
            CapObject::Endpoint => 2u32,
            CapObject::Reply => 3u32,
            CapObject::Notification => 4u32,
        }),
{
    match v {
        CapObject::TelemetrySink => 0,
        CapObject::SpanSink => 1,
        CapObject::Endpoint => 2,
        CapObject::Reply => 3,
        CapObject::Notification => 4,
    }
}

/// The CapObject with a code.
#[verifier::allow_in_spec]
pub fn cap_object_of(c: u32) -> CapObject
    returns
        (if c == 0 {
            CapObject::TelemetrySink
        } else if c == 1 {
            CapObject::SpanSink
        } else if c == 2 {
            CapObject::Endpoint
        } else if c == 3 {
            CapObject::Reply
        } else {
            CapObject::Notification
        }),
{
    if c == 0 {
        CapObject::TelemetrySink
    } else if c == 1 {
        CapObject::SpanSink
    } else if c == 2 {
        CapObject::Endpoint
    } else if c == 3 {
        CapObject::Reply
    } else {
        CapObject::Notification
    }
}

/// Why the kernel refused a system call.
#[derive(Debug, Clone, Copy, PartialEq, Eq, Hash, Structural)]
pub enum RefusalReason {
    /// No system call has that number.
    UnknownSyscall,
    /// No user process is bound to the calling hart.
    NoProcess,
    /// The capability handle resolved to nothing.
    CapNotFound,
    /// The capability lacked the right the operation needs.
    CapWrongRights,
    /// The capability named a different kind of object.
    CapWrongObject,
    /// A user pointer and length were not a valid user buffer.
    BadUserRange,
    /// A copied-in name was not valid UTF-8.
    BadUtf8,
    /// The caller hit its span-name quota.
    Quota,
    /// A span was closed that is not the innermost open one.
    BadSpanId,
    /// A memory request could not be satisfied.
    OutOfMemory,
    /// No program has that id.
    UnknownProgram,
    /// The caller never registered that metric.
    BadMetricHandle,
    /// No metric kind has that selector.
    BadMetricKind,
    /// The notification has a waiter already.
    NotificationBusy,
    /// The capability may not be handed on.
    CapNotDelegable,
}

/// The code of a RefusalReason on the wire.
#[verifier::allow_in_spec]
pub fn refusal_reason_code(v: RefusalReason) -> u32
    returns
        (match v {
            RefusalReason::UnknownSyscall => 0u32,
            RefusalReason::NoProcess => 1u32,
            RefusalReason::CapNotFound => 2u32,
            RefusalReason::CapWrongRights => 3u32,
            RefusalReason::CapWrongObject => 4u32,
            RefusalReason::BadUserRange => 5u32,
            RefusalReason::BadUtf8 => 6u32,
            RefusalReason::Quota => 7u32,
            RefusalReason::BadSpanId => 8u32,
            RefusalReason::OutOfMemory => 9u32,
            RefusalReason::UnknownProgram => 10u32,
            RefusalReason::BadMetricHandle => 11u32,
            RefusalReason::BadMetricKind => 12u32,
            RefusalReason::NotificationBusy => 13u32,
            RefusalReason::CapNotDelegable => 14u32,
        }),
{
    match v {
        RefusalReason::UnknownSyscall => 0,
        RefusalReason::NoProcess => 1,
        RefusalReason::CapNotFound => 2,
        RefusalReason::CapWrongRights => 3,
        RefusalReason::CapWrongObject => 4,
        RefusalReason::BadUserRange => 5,
        RefusalReason::BadUtf8 => 6,
        RefusalReason::Quota => 7,
        RefusalReason::BadSpanId => 8,
        RefusalReason::OutOfMemory => 9,
        RefusalReason::UnknownProgram => 10,
        RefusalReason::BadMetricHandle => 11,
        RefusalReason::BadMetricKind => 12,
        RefusalReason::NotificationBusy => 13,
        RefusalReason::CapNotDelegable => 14,
    }
}

/// The RefusalReason with a code.
#[verifier::allow_in_spec]
pub fn refusal_reason_of(c: u32) -> RefusalReason
    returns
        (if c == 0 {
            RefusalReason::UnknownSyscall
        } else if c == 1 {
            RefusalReason::NoProcess
        } else if c == 2 {
            RefusalReason::CapNotFound
        } else if c == 3 {
            RefusalReason::CapWrongRights
        } else if c == 4 {
            RefusalReason::CapWrongObject
        } else if c == 5 {
            RefusalReason::BadUserRange
        } else if c == 6 {
            RefusalReason::BadUtf8
        } else if c == 7 {
            RefusalReason::Quota
        } else if c == 8 {
            RefusalReason::BadSpanId
        } else if c == 9 {
            RefusalReason::OutOfMemory
        } else if c == 10 {
            RefusalReason::UnknownProgram
        } else if c == 11 {
            RefusalReason::BadMetricHandle
        } else if c == 12 {
            RefusalReason::BadMetricKind
        } else if c == 13 {
            RefusalReason::NotificationBusy
        } else {
            RefusalReason::CapNotDelegable
        }),
{
    if c == 0 {
        RefusalReason::UnknownSyscall
    } else if c == 1 {
        RefusalReason::NoProcess
    } else if c == 2 {
        RefusalReason::CapNotFound
    } else if c == 3 {
        RefusalReason::CapWrongRights
    } else if c == 4 {
        RefusalReason::CapWrongObject
    } else if c == 5 {
        RefusalReason::BadUserRange
    } else if c == 6 {
        RefusalReason::BadUtf8
    } else if c == 7 {
        RefusalReason::Quota
    } else if c == 8 {
        RefusalReason::BadSpanId
    } else if c == 9 {
        RefusalReason::OutOfMemory
    } else if c == 10 {
        RefusalReason::UnknownProgram
    } else if c == 11 {
        RefusalReason::BadMetricHandle
    } else if c == 12 {
        RefusalReason::BadMetricKind
    } else if c == 13 {
        RefusalReason::NotificationBusy
    } else {
        RefusalReason::CapNotDelegable
    }
}

/// One telemetry frame, its text borrowed.
#[allow(inconsistent_fields)]
#[derive(Debug, PartialEq)]
pub enum Frame<'a> {
    /// The stream starts: the clock rate and the format version.
    Hello { timebase_hz: u64, protocol_version: u8 },
    /// A span was opened.
    SpanStart { id: SpanId, parent: SpanId, name_id: StringId, t: u64, task_id: u32, hart_id: u8 },
    /// A span was closed.
    SpanEnd { id: SpanId, t: u64 },
    /// A point-in-time annotation on a span.
    Event { span_id: SpanId, name_id: StringId, t: u64 },
    /// A metric sample.
    Metric { name_id: StringId, value: i64, t: u64, hart_id: u8 },
    /// Frames were lost.
    Dropped { count: u32 },
    /// A name for a string id.
    StringRegister { id: StringId, value: &'a str },
    /// A metric's kind and emitter, once per name.
    MetricRegister { name_id: StringId, kind: MetricKind, task_id: u32 },
    /// A task's name and priority.
    ThreadRegister { id: u32, name: &'a str, priority: u8 },
    /// The scheduler switched tasks.
    ContextSwitch { from: u32, to: u32, t: u64, reason: SwitchReason, hart_id: u8 },
    /// A hart came up.
    HartRegister { id: u8, mhartid: u64, role: HartRole },
    /// An authority decision: a capability's lifecycle event.
    CapEvent { kind: CapEventKind, cap_id: u64, parent_cap_id: u64, holder: u32, object: CapObject, rights: u32, badge: u64, t: u64, hart_id: u8, name: [u8; 16] },
    /// The kernel refused a system call, and why.
    SyscallRefused { syscall: u8, reason: RefusalReason, task_id: u32, t: u64, hart_id: u8 },
    /// A line a program printed.
    Log { msg: &'a str, task_id: u32, t: u64, hart_id: u8 },
    /// A message crossed from one task to another.
    Message { endpoint: u32, from: u32, to: u32, parent_span: SpanId, t: u64, hart_id: u8 },
    /// A notification was signalled.
    NotifySignal { notification: u32, mask: u64, from_task: u32, t: u64, hart_id: u8 },
    /// A notification's waiter woke.
    NotifyWait { notification: u32, bits: u64, to_task: u32, t: u64, hart_id: u8 },
    /// The audio output ran dry.
    AudioXRun { t: u64, hart_id: u8 },
    /// How the guest was built.
    BuildInfo { kernel_profile: &'a str, userspace_opt: &'a str },
}

/// What a frame says.
#[allow(inconsistent_fields)]
pub enum FrameState {
    /// The stream starts: the clock rate and the format version.
    Hello { timebase_hz: u64, protocol_version: u8 },
    /// A span was opened.
    SpanStart { id: SpanId, parent: SpanId, name_id: StringId, t: u64, task_id: u32, hart_id: u8 },
    /// A span was closed.
    SpanEnd { id: SpanId, t: u64 },
    /// A point-in-time annotation on a span.
    Event { span_id: SpanId, name_id: StringId, t: u64 },
    /// A metric sample.
    Metric { name_id: StringId, value: i64, t: u64, hart_id: u8 },
    /// Frames were lost.
    Dropped { count: u32 },
    /// A name for a string id.
    StringRegister { id: StringId, value: Seq<char> },
    /// A metric's kind and emitter, once per name.
    MetricRegister { name_id: StringId, kind: MetricKind, task_id: u32 },
    /// A task's name and priority.
    ThreadRegister { id: u32, name: Seq<char>, priority: u8 },
    /// The scheduler switched tasks.
    ContextSwitch { from: u32, to: u32, t: u64, reason: SwitchReason, hart_id: u8 },
    /// A hart came up.
    HartRegister { id: u8, mhartid: u64, role: HartRole },
    /// An authority decision: a capability's lifecycle event.
    CapEvent { kind: CapEventKind, cap_id: u64, parent_cap_id: u64, holder: u32, object: CapObject, rights: u32, badge: u64, t: u64, hart_id: u8, name: Seq<u8> },
    /// The kernel refused a system call, and why.
    SyscallRefused { syscall: u8, reason: RefusalReason, task_id: u32, t: u64, hart_id: u8 },
    /// A line a program printed.
    Log { msg: Seq<char>, task_id: u32, t: u64, hart_id: u8 },
    /// A message crossed from one task to another.
    Message { endpoint: u32, from: u32, to: u32, parent_span: SpanId, t: u64, hart_id: u8 },
    /// A notification was signalled.
    NotifySignal { notification: u32, mask: u64, from_task: u32, t: u64, hart_id: u8 },
    /// A notification's waiter woke.
    NotifyWait { notification: u32, bits: u64, to_task: u32, t: u64, hart_id: u8 },
    /// The audio output ran dry.
    AudioXRun { t: u64, hart_id: u8 },
    /// How the guest was built.
    BuildInfo { kernel_profile: Seq<char>, userspace_opt: Seq<char> },
}

impl<'a> View for Frame<'a> {
    type V = FrameState;

    open spec fn view(&self) -> FrameState {
        match *self {
            Frame::Hello { timebase_hz, protocol_version } => FrameState::Hello { timebase_hz, protocol_version },
            Frame::SpanStart { id, parent, name_id, t, task_id, hart_id } => FrameState::SpanStart { id, parent, name_id, t, task_id, hart_id },
            Frame::SpanEnd { id, t } => FrameState::SpanEnd { id, t },
            Frame::Event { span_id, name_id, t } => FrameState::Event { span_id, name_id, t },
            Frame::Metric { name_id, value, t, hart_id } => FrameState::Metric { name_id, value, t, hart_id },
            Frame::Dropped { count } => FrameState::Dropped { count },
            Frame::StringRegister { id, value } => FrameState::StringRegister { id, value: value@ },
            Frame::MetricRegister { name_id, kind, task_id } => FrameState::MetricRegister { name_id, kind, task_id },
            Frame::ThreadRegister { id, name, priority } => FrameState::ThreadRegister { id, name: name@, priority },
            Frame::ContextSwitch { from, to, t, reason, hart_id } => FrameState::ContextSwitch { from, to, t, reason, hart_id },
            Frame::HartRegister { id, mhartid, role } => FrameState::HartRegister { id, mhartid, role },
            Frame::CapEvent { kind, cap_id, parent_cap_id, holder, object, rights, badge, t, hart_id, name } => FrameState::CapEvent { kind, cap_id, parent_cap_id, holder, object, rights, badge, t, hart_id, name: name@ },
            Frame::SyscallRefused { syscall, reason, task_id, t, hart_id } => FrameState::SyscallRefused { syscall, reason, task_id, t, hart_id },
            Frame::Log { msg, task_id, t, hart_id } => FrameState::Log { msg: msg@, task_id, t, hart_id },
            Frame::Message { endpoint, from, to, parent_span, t, hart_id } => FrameState::Message { endpoint, from, to, parent_span, t, hart_id },
            Frame::NotifySignal { notification, mask, from_task, t, hart_id } => FrameState::NotifySignal { notification, mask, from_task, t, hart_id },
            Frame::NotifyWait { notification, bits, to_task, t, hart_id } => FrameState::NotifyWait { notification, bits, to_task, t, hart_id },
            Frame::AudioXRun { t, hart_id } => FrameState::AudioXRun { t, hart_id },
            Frame::BuildInfo { kernel_profile, userspace_opt } => FrameState::BuildInfo { kernel_profile: kernel_profile@, userspace_opt: userspace_opt@ },
        }
    }
}

// Fields.

/// What a field holds on the wire.
pub enum Field {
    /// One byte.
    Byte,
    /// A 32-bit number.
    Small,
    /// A 64-bit number.
    Wide,
    /// A signed 64-bit number.
    Signed,
    /// Text.
    Text,
    /// An object's name.
    Name,
    /// One of as many alternatives.
    Choice(u32),
}

/// The value of a field.
pub enum ValueState {
    Byte(u8),
    Small(u32),
    Wide(u64),
    Signed(i64),
    Text(Seq<char>),
    Name(Seq<u8>),
}

impl ValueState {
    pub open spec fn byte(self) -> u8 {
        self->Byte_0
    }

    pub open spec fn small(self) -> u32 {
        self->Small_0
    }

    pub open spec fn wide(self) -> u64 {
        self->Wide_0
    }

    pub open spec fn signed(self) -> i64 {
        self->Signed_0
    }

    pub open spec fn text(self) -> Seq<char> {
        self->Text_0
    }

    pub open spec fn name(self) -> Seq<u8> {
        self->Name_0
    }
}

/// A value's bytes.
pub open spec fn value_bytes(v: ValueState) -> Seq<u8> {
    match v {
        ValueState::Byte(b) => seq![b],
        ValueState::Small(n) => varint(n as nat),
        ValueState::Wide(n) => varint(n as nat),
        ValueState::Signed(i) => varint(zigzag(i as int)),
        ValueState::Text(t) => text_bytes(t),
        ValueState::Name(s) => s,
    }
}

/// The values' bytes, one after the other.
pub open spec fn values_bytes(vs: Seq<ValueState>) -> Seq<u8>
    decreases vs.len(),
{
    if vs.len() == 0 {
        Seq::empty()
    } else {
        value_bytes(vs[0]) + values_bytes(vs.drop_first())
    }
}

/// Whether a value is one of a field.
pub open spec fn fits(v: ValueState, f: Field) -> bool {
    match f {
        Field::Byte => v is Byte,
        Field::Small => v is Small,
        Field::Wide => v is Wide,
        Field::Signed => v is Signed,
        Field::Text => v is Text && vstd::utf8::encode_utf8(v->Text_0).len() <= usize::MAX,
        Field::Name => v is Name && v->Name_0.len() == CAP_NAME_LEN,
        Field::Choice(n) => v is Small && v->Small_0 < n,
    }
}

/// Whether values are those of fields.
pub open spec fn all_fit(vs: Seq<ValueState>, fs: Seq<Field>) -> bool {
    vs.len() == fs.len() && forall|i: int| 0 <= i < vs.len() ==> fits(#[trigger] vs[i], fs[i])
}

/// The value of a field at the front of `s`, and what follows it.
pub open spec fn parse_value(s: Seq<u8>, f: Field) -> Option<(ValueState, Seq<u8>)> {
    match f {
        Field::Byte => if s.len() == 0 {
            None
        } else {
            Some((ValueState::Byte(s[0]), s.skip(1)))
        },
        Field::Small => match parse_u32(s) {
            Some((n, rest)) => Some((ValueState::Small(n as u32), rest)),
            None => None,
        },
        Field::Wide => match parse_u64(s) {
            Some((n, rest)) => Some((ValueState::Wide(n as u64), rest)),
            None => None,
        },
        Field::Signed => match parse_u64(s) {
            Some((n, rest)) => Some((ValueState::Signed(unzigzag(n) as i64), rest)),
            None => None,
        },
        Field::Text => match parse_text(s) {
            Some((t, rest)) => Some((ValueState::Text(t), rest)),
            None => None,
        },
        Field::Name => if s.len() < CAP_NAME_LEN {
            None
        } else {
            Some((ValueState::Name(s.take(CAP_NAME_LEN as int)), s.skip(CAP_NAME_LEN as int)))
        },
        Field::Choice(k) => match parse_u32(s) {
            Some((n, rest)) if n < k => Some((ValueState::Small(n as u32), rest)),
            _ => None,
        },
    }
}

/// The values of fields at the front of `s`; what follows them is left alone.
pub open spec fn parse_values(s: Seq<u8>, fs: Seq<Field>) -> Option<Seq<ValueState>>
    decreases fs.len(),
{
    if fs.len() == 0 {
        Some(Seq::empty())
    } else {
        match parse_value(s, fs[0]) {
            None => None,
            Some((v, rest)) => match parse_values(rest, fs.drop_first()) {
                None => None,
                Some(vs) => Some(seq![v] + vs),
            },
        }
    }
}

/// The fields of the frames with a tag.
pub open spec fn schema(tag: u32) -> Seq<Field> {
    if tag == 0 {
        seq![Field::Wide, Field::Byte]
    } else if tag == 1 {
        seq![Field::Wide, Field::Wide, Field::Small, Field::Wide, Field::Small, Field::Byte]
    } else if tag == 2 {
        seq![Field::Wide, Field::Wide]
    } else if tag == 3 {
        seq![Field::Wide, Field::Small, Field::Wide]
    } else if tag == 4 {
        seq![Field::Small, Field::Signed, Field::Wide, Field::Byte]
    } else if tag == 5 {
        seq![Field::Small]
    } else if tag == 6 {
        seq![Field::Small, Field::Text]
    } else if tag == 7 {
        seq![Field::Small, Field::Choice(3), Field::Small]
    } else if tag == 8 {
        seq![Field::Small, Field::Text, Field::Byte]
    } else if tag == 9 {
        seq![Field::Small, Field::Small, Field::Wide, Field::Choice(4), Field::Byte]
    } else if tag == 10 {
        seq![Field::Byte, Field::Wide, Field::Choice(2)]
    } else if tag == 11 {
        seq![Field::Choice(4), Field::Wide, Field::Wide, Field::Small, Field::Choice(5), Field::Small, Field::Wide, Field::Wide, Field::Byte, Field::Name]
    } else if tag == 12 {
        seq![Field::Byte, Field::Choice(15), Field::Small, Field::Wide, Field::Byte]
    } else if tag == 13 {
        seq![Field::Text, Field::Small, Field::Wide, Field::Byte]
    } else if tag == 14 {
        seq![Field::Small, Field::Small, Field::Small, Field::Wide, Field::Wide, Field::Byte]
    } else if tag == 15 {
        seq![Field::Small, Field::Wide, Field::Small, Field::Wide, Field::Byte]
    } else if tag == 16 {
        seq![Field::Small, Field::Wide, Field::Small, Field::Wide, Field::Byte]
    } else if tag == 17 {
        seq![Field::Wide, Field::Byte]
    } else if tag == 18 {
        seq![Field::Text, Field::Text]
    } else {
        Seq::empty()
    }
}

/// A frame's tag.
pub open spec fn tag_of(f: FrameState) -> u32 {
    match f {
        FrameState::Hello { .. } => 0,
        FrameState::SpanStart { .. } => 1,
        FrameState::SpanEnd { .. } => 2,
        FrameState::Event { .. } => 3,
        FrameState::Metric { .. } => 4,
        FrameState::Dropped { .. } => 5,
        FrameState::StringRegister { .. } => 6,
        FrameState::MetricRegister { .. } => 7,
        FrameState::ThreadRegister { .. } => 8,
        FrameState::ContextSwitch { .. } => 9,
        FrameState::HartRegister { .. } => 10,
        FrameState::CapEvent { .. } => 11,
        FrameState::SyscallRefused { .. } => 12,
        FrameState::Log { .. } => 13,
        FrameState::Message { .. } => 14,
        FrameState::NotifySignal { .. } => 15,
        FrameState::NotifyWait { .. } => 16,
        FrameState::AudioXRun { .. } => 17,
        FrameState::BuildInfo { .. } => 18,
    }
}

/// A frame's field values.
pub open spec fn values_of(f: FrameState) -> Seq<ValueState> {
    match f {
        FrameState::Hello { timebase_hz, protocol_version } => seq![ValueState::Wide(timebase_hz), ValueState::Byte(protocol_version)],
        FrameState::SpanStart { id, parent, name_id, t, task_id, hart_id } => seq![ValueState::Wide(id.0), ValueState::Wide(parent.0), ValueState::Small(name_id.0), ValueState::Wide(t), ValueState::Small(task_id), ValueState::Byte(hart_id)],
        FrameState::SpanEnd { id, t } => seq![ValueState::Wide(id.0), ValueState::Wide(t)],
        FrameState::Event { span_id, name_id, t } => seq![ValueState::Wide(span_id.0), ValueState::Small(name_id.0), ValueState::Wide(t)],
        FrameState::Metric { name_id, value, t, hart_id } => seq![ValueState::Small(name_id.0), ValueState::Signed(value), ValueState::Wide(t), ValueState::Byte(hart_id)],
        FrameState::Dropped { count } => seq![ValueState::Small(count)],
        FrameState::StringRegister { id, value } => seq![ValueState::Small(id.0), ValueState::Text(value)],
        FrameState::MetricRegister { name_id, kind, task_id } => seq![ValueState::Small(name_id.0), ValueState::Small(metric_kind_code(kind)), ValueState::Small(task_id)],
        FrameState::ThreadRegister { id, name, priority } => seq![ValueState::Small(id), ValueState::Text(name), ValueState::Byte(priority)],
        FrameState::ContextSwitch { from, to, t, reason, hart_id } => seq![ValueState::Small(from), ValueState::Small(to), ValueState::Wide(t), ValueState::Small(switch_reason_code(reason)), ValueState::Byte(hart_id)],
        FrameState::HartRegister { id, mhartid, role } => seq![ValueState::Byte(id), ValueState::Wide(mhartid), ValueState::Small(hart_role_code(role))],
        FrameState::CapEvent { kind, cap_id, parent_cap_id, holder, object, rights, badge, t, hart_id, name } => seq![ValueState::Small(cap_event_kind_code(kind)), ValueState::Wide(cap_id), ValueState::Wide(parent_cap_id), ValueState::Small(holder), ValueState::Small(cap_object_code(object)), ValueState::Small(rights), ValueState::Wide(badge), ValueState::Wide(t), ValueState::Byte(hart_id), ValueState::Name(name)],
        FrameState::SyscallRefused { syscall, reason, task_id, t, hart_id } => seq![ValueState::Byte(syscall), ValueState::Small(refusal_reason_code(reason)), ValueState::Small(task_id), ValueState::Wide(t), ValueState::Byte(hart_id)],
        FrameState::Log { msg, task_id, t, hart_id } => seq![ValueState::Text(msg), ValueState::Small(task_id), ValueState::Wide(t), ValueState::Byte(hart_id)],
        FrameState::Message { endpoint, from, to, parent_span, t, hart_id } => seq![ValueState::Small(endpoint), ValueState::Small(from), ValueState::Small(to), ValueState::Wide(parent_span.0), ValueState::Wide(t), ValueState::Byte(hart_id)],
        FrameState::NotifySignal { notification, mask, from_task, t, hart_id } => seq![ValueState::Small(notification), ValueState::Wide(mask), ValueState::Small(from_task), ValueState::Wide(t), ValueState::Byte(hart_id)],
        FrameState::NotifyWait { notification, bits, to_task, t, hart_id } => seq![ValueState::Small(notification), ValueState::Wide(bits), ValueState::Small(to_task), ValueState::Wide(t), ValueState::Byte(hart_id)],
        FrameState::AudioXRun { t, hart_id } => seq![ValueState::Wide(t), ValueState::Byte(hart_id)],
        FrameState::BuildInfo { kernel_profile, userspace_opt } => seq![ValueState::Text(kernel_profile), ValueState::Text(userspace_opt)],
    }
}

/// The frame with a tag and field values.
pub open spec fn frame_of(tag: u32, vs: Seq<ValueState>) -> FrameState {
    if tag == 0 {
        FrameState::Hello { timebase_hz: vs[0].wide(), protocol_version: vs[1].byte() }
    } else if tag == 1 {
        FrameState::SpanStart { id: SpanId(vs[0].wide()), parent: SpanId(vs[1].wide()), name_id: StringId(vs[2].small()), t: vs[3].wide(), task_id: vs[4].small(), hart_id: vs[5].byte() }
    } else if tag == 2 {
        FrameState::SpanEnd { id: SpanId(vs[0].wide()), t: vs[1].wide() }
    } else if tag == 3 {
        FrameState::Event { span_id: SpanId(vs[0].wide()), name_id: StringId(vs[1].small()), t: vs[2].wide() }
    } else if tag == 4 {
        FrameState::Metric { name_id: StringId(vs[0].small()), value: vs[1].signed(), t: vs[2].wide(), hart_id: vs[3].byte() }
    } else if tag == 5 {
        FrameState::Dropped { count: vs[0].small() }
    } else if tag == 6 {
        FrameState::StringRegister { id: StringId(vs[0].small()), value: vs[1].text() }
    } else if tag == 7 {
        FrameState::MetricRegister { name_id: StringId(vs[0].small()), kind: metric_kind_of(vs[1].small()), task_id: vs[2].small() }
    } else if tag == 8 {
        FrameState::ThreadRegister { id: vs[0].small(), name: vs[1].text(), priority: vs[2].byte() }
    } else if tag == 9 {
        FrameState::ContextSwitch { from: vs[0].small(), to: vs[1].small(), t: vs[2].wide(), reason: switch_reason_of(vs[3].small()), hart_id: vs[4].byte() }
    } else if tag == 10 {
        FrameState::HartRegister { id: vs[0].byte(), mhartid: vs[1].wide(), role: hart_role_of(vs[2].small()) }
    } else if tag == 11 {
        FrameState::CapEvent { kind: cap_event_kind_of(vs[0].small()), cap_id: vs[1].wide(), parent_cap_id: vs[2].wide(), holder: vs[3].small(), object: cap_object_of(vs[4].small()), rights: vs[5].small(), badge: vs[6].wide(), t: vs[7].wide(), hart_id: vs[8].byte(), name: vs[9].name() }
    } else if tag == 12 {
        FrameState::SyscallRefused { syscall: vs[0].byte(), reason: refusal_reason_of(vs[1].small()), task_id: vs[2].small(), t: vs[3].wide(), hart_id: vs[4].byte() }
    } else if tag == 13 {
        FrameState::Log { msg: vs[0].text(), task_id: vs[1].small(), t: vs[2].wide(), hart_id: vs[3].byte() }
    } else if tag == 14 {
        FrameState::Message { endpoint: vs[0].small(), from: vs[1].small(), to: vs[2].small(), parent_span: SpanId(vs[3].wide()), t: vs[4].wide(), hart_id: vs[5].byte() }
    } else if tag == 15 {
        FrameState::NotifySignal { notification: vs[0].small(), mask: vs[1].wide(), from_task: vs[2].small(), t: vs[3].wide(), hart_id: vs[4].byte() }
    } else if tag == 16 {
        FrameState::NotifyWait { notification: vs[0].small(), bits: vs[1].wide(), to_task: vs[2].small(), t: vs[3].wide(), hart_id: vs[4].byte() }
    } else if tag == 17 {
        FrameState::AudioXRun { t: vs[0].wide(), hart_id: vs[1].byte() }
    } else {
        FrameState::BuildInfo { kernel_profile: vs[0].text(), userspace_opt: vs[1].text() }
    }
}

/// A frame's bytes: its tag, then its fields.
pub open spec fn frame_bytes(f: FrameState) -> Seq<u8> {
    varint(tag_of(f) as nat) + values_bytes(values_of(f))
}

/// The frame at the front of `s`; bytes after it are left alone.
pub open spec fn parse_frame(s: Seq<u8>) -> Option<FrameState> {
    match parse_u32(s) {
        None => None,
        Some((tag, rest)) => if tag >= FRAME_KINDS {
            None
        } else {
            match parse_values(rest, schema(tag as u32)) {
                None => None,
                Some(vs) => Some(frame_of(tag as u32, vs)),
            }
        },
    }
}

/// Whether a frame's text can be held in memory and its names are of their length, as those
/// of any frame that was built.
pub open spec fn encodable(f: FrameState) -> bool {
    all_fit(values_of(f), schema(tag_of(f)))
}

/// The bytes a frame is sent as: stuffed, and closed by a 0.
pub open spec fn sent(f: FrameState) -> Seq<u8> {
    stuffed(frame_bytes(f)).push(0)
}

proof fn lemma_value_read_back(v: ValueState, f: Field, more: Seq<u8>)
    requires
        fits(v, f),
    ensures
        parse_value(value_bytes(v) + more, f) == Some((v, more)),
{
    lemma_varint_limits();
    match v {
        ValueState::Byte(b) => {
            assert((seq![b] + more).skip(1) =~= more);
        },
        ValueState::Small(n) => {
            law_a_number_is_read_back(n as nat, 5, 15, more);
        },
        ValueState::Wide(n) => {
            law_a_number_is_read_back(n as nat, 10, 1, more);
        },
        ValueState::Signed(i) => {
            law_zigzag_is_undone(i as int);
            law_a_number_is_read_back(zigzag(i as int), 10, 1, more);
        },
        ValueState::Text(t) => {
            law_text_is_read_back(t, more);
        },
        ValueState::Name(s) => {
            assert((s + more).take(CAP_NAME_LEN as int) =~= s);
            assert((s + more).skip(CAP_NAME_LEN as int) =~= more);
        },
    }
}

proof fn lemma_values_read_back(vs: Seq<ValueState>, fs: Seq<Field>, more: Seq<u8>)
    requires
        all_fit(vs, fs),
    ensures
        parse_values(values_bytes(vs) + more, fs) == Some(vs),
    decreases vs.len(),
{
    if vs.len() == 0 {
        assert(vs =~= Seq::<ValueState>::empty());
    } else {
        let rest = values_bytes(vs.drop_first());
        assert(fits(vs[0], fs[0]));
        assert(values_bytes(vs) + more =~= value_bytes(vs[0]) + (rest + more));
        lemma_value_read_back(vs[0], fs[0], rest + more);
        assert forall|i: int| 0 <= i < vs.drop_first().len() implies fits(
            #[trigger] vs.drop_first()[i],
            fs.drop_first()[i],
        ) by {
            assert(fits(vs[i + 1], fs[i + 1]));
        }
        lemma_values_read_back(vs.drop_first(), fs.drop_first(), more);
        assert(seq![vs[0]] + vs.drop_first() =~= vs);
    }
}

/// A frame's bytes are read back as the frame, whatever follows them.
pub proof fn law_a_frame_is_read_back(f: FrameState, more: Seq<u8>)
    requires
        encodable(f),
    ensures
        parse_frame(frame_bytes(f) + more) == Some(f),
{
    lemma_varint_limits();
    let tag = tag_of(f);
    let body = values_bytes(values_of(f));
    assert(frame_bytes(f) + more =~= varint(tag as nat) + (body + more));
    law_a_number_is_read_back(tag as nat, 5, 15, body + more);
    lemma_values_read_back(values_of(f), schema(tag), more);
}

proof fn lemma_values_push(vs: Seq<ValueState>, v: ValueState)
    ensures
        values_bytes(vs.push(v)) == values_bytes(vs) + value_bytes(v),
    decreases vs.len(),
{
    if vs.len() == 0 {
        assert(vs.push(v).drop_first() =~= Seq::<ValueState>::empty());
        assert(values_bytes(Seq::<ValueState>::empty()) == Seq::<u8>::empty());
        assert(values_bytes(vs) == Seq::<u8>::empty());
        assert(vs.push(v)[0] == v);
        assert(values_bytes(vs.push(v)) =~= values_bytes(vs) + value_bytes(v));
    } else {
        lemma_values_push(vs.drop_first(), v);
        assert(vs.push(v).drop_first() =~= vs.drop_first().push(v));
        assert(values_bytes(vs.push(v)) =~= values_bytes(vs) + value_bytes(v));
    }
}

/// Bytes being written, field by field.
struct Writer {
    bytes: Vec<u8>,
    values: Ghost<Seq<ValueState>>,
    tag: Ghost<u32>,
}

impl Writer {
    spec fn wf(self) -> bool {
        self.bytes@ == varint(self.tag@ as nat) + values_bytes(self.values@)
    }

    fn new(tag: u32) -> (r: Self)
        ensures
            r.wf(),
            r.tag@ == tag,
            r.values@ == Seq::<ValueState>::empty(),
    {
        let bytes: Vec<u8> = put_u32(tag);
        proof {
            assert(bytes@ =~= varint(tag as nat) + values_bytes(Seq::empty()));
        }
        Writer { bytes, values: Ghost(Seq::empty()), tag: Ghost(tag) }
    }

    fn byte(&mut self, v: u8)
        requires
            old(self).wf(),
        ensures
            final(self).wf(),
            final(self).tag == old(self).tag,
            final(self).values@ == old(self).values@.push(ValueState::Byte(v)),
    {
        self.bytes.push(v);
        proof {
            lemma_values_push(self.values@, ValueState::Byte(v));
            self.values@ = self.values@.push(ValueState::Byte(v));
            assert(self.bytes@ =~= varint(self.tag@ as nat) + values_bytes(self.values@));
        }
    }

    fn small(&mut self, v: u32)
        requires
            old(self).wf(),
        ensures
            final(self).wf(),
            final(self).tag == old(self).tag,
            final(self).values@ == old(self).values@.push(ValueState::Small(v)),
    {
        let mut part: Vec<u8> = put_u32(v);
        self.bytes.append(&mut part);
        proof {
            lemma_values_push(self.values@, ValueState::Small(v));
            self.values@ = self.values@.push(ValueState::Small(v));
            assert(self.bytes@ =~= varint(self.tag@ as nat) + values_bytes(self.values@));
        }
    }

    fn wide(&mut self, v: u64)
        requires
            old(self).wf(),
        ensures
            final(self).wf(),
            final(self).tag == old(self).tag,
            final(self).values@ == old(self).values@.push(ValueState::Wide(v)),
    {
        let mut part: Vec<u8> = put_u64(v);
        self.bytes.append(&mut part);
        proof {
            lemma_values_push(self.values@, ValueState::Wide(v));
            self.values@ = self.values@.push(ValueState::Wide(v));
            assert(self.bytes@ =~= varint(self.tag@ as nat) + values_bytes(self.values@));
        }
    }

    fn signed(&mut self, v: i64)
        requires
            old(self).wf(),
        ensures
            final(self).wf(),
            final(self).tag == old(self).tag,
            final(self).values@ == old(self).values@.push(ValueState::Signed(v)),
    {
        let mut part: Vec<u8> = put_i64(v);
        self.bytes.append(&mut part);
        proof {
            lemma_values_push(self.values@, ValueState::Signed(v));
            self.values@ = self.values@.push(ValueState::Signed(v));
            assert(self.bytes@ =~= varint(self.tag@ as nat) + values_bytes(self.values@));
        }
    }

    fn text(&mut self, v: &str)
        requires
            old(self).wf(),
        ensures
            final(self).wf(),
            final(self).tag == old(self).tag,
            final(self).values@ == old(self).values@.push(ValueState::Text(v@)),
    {
        let mut part: Vec<u8> = put_text(v);
        self.bytes.append(&mut part);
        proof {
            lemma_values_push(self.values@, ValueState::Text(v@));
            self.values@ = self.values@.push(ValueState::Text(v@));
            assert(self.bytes@ =~= varint(self.tag@ as nat) + values_bytes(self.values@));
        }
    }

    fn name(&mut self, v: &[u8; 16])
        requires
            old(self).wf(),
        ensures
            final(self).wf(),
            final(self).tag == old(self).tag,
            final(self).values@ == old(self).values@.push(ValueState::Name(v@)),
    {
        self.bytes.extend_from_slice(v.as_slice());
        proof {
            lemma_values_push(self.values@, ValueState::Name(v@));
            self.values@ = self.values@.push(ValueState::Name(v@));
            assert(self.bytes@ =~= varint(self.tag@ as nat) + values_bytes(self.values@));
        }
    }
}

/// Write a frame's bytes.
pub fn encode_frame(frame: &Frame<'_>) -> (r: Vec<u8>)
    ensures
        r@ == frame_bytes(frame@),
{
    match *frame {
        Frame::Hello { timebase_hz, protocol_version } => {
            let mut out: Writer = Writer::new(0);
            out.wide(timebase_hz);
            out.byte(protocol_version);
            proof {
                assert(out.values@ =~= values_of(frame@));
            }
            out.bytes
        },
        Frame::SpanStart { id, parent, name_id, t, task_id, hart_id } => {
            let mut out: Writer = Writer::new(1);
            out.wide(id.0);
            out.wide(parent.0);
            out.small(name_id.0);
            out.wide(t);
            out.small(task_id);
            out.byte(hart_id);
            proof {
                assert(out.values@ =~= values_of(frame@));
            }
            out.bytes
        },
        Frame::SpanEnd { id, t } => {
            let mut out: Writer = Writer::new(2);
            out.wide(id.0);
            out.wide(t);
            proof {
                assert(out.values@ =~= values_of(frame@));
            }
            out.bytes
        },
        Frame::Event { span_id, name_id, t } => {
            let mut out: Writer = Writer::new(3);
            out.wide(span_id.0);
            out.small(name_id.0);
            out.wide(t);
            proof {
                assert(out.values@ =~= values_of(frame@));
            }
            out.bytes
        },
        Frame::Metric { name_id, value, t, hart_id } => {
            let mut out: Writer = Writer::new(4);
            out.small(name_id.0);
            out.signed(value);
            out.wide(t);
            out.byte(hart_id);
            proof {
                assert(out.values@ =~= values_of(frame@));
            }
            out.bytes
        },
        Frame::Dropped { count } => {
            let mut out: Writer = Writer::new(5);
            out.small(count);
            proof {
                assert(out.values@ =~= values_of(frame@));
            }
            out.bytes
        },
        Frame::StringRegister { id, value } => {
            let mut out: Writer = Writer::new(6);
            out.small(id.0);
            out.text(value);
            proof {
                assert(out.values@ =~= values_of(frame@));
            }
            out.bytes
        },
        Frame::MetricRegister { name_id, kind, task_id } => {
            let mut out: Writer = Writer::new(7);
            out.small(name_id.0);
            out.small(metric_kind_code(kind));
            out.small(task_id);
            proof {
                assert(out.values@ =~= values_of(frame@));
            }
            out.bytes
        },
        Frame::ThreadRegister { id, name, priority } => {
            let mut out: Writer = Writer::new(8);
            out.small(id);
            out.text(name);
            out.byte(priority);
            proof {
                assert(out.values@ =~= values_of(frame@));
            }
            out.bytes
        },
        Frame::ContextSwitch { from, to, t, reason, hart_id } => {
            let mut out: Writer = Writer::new(9);
            out.small(from);
            out.small(to);
            out.wide(t);
            out.small(switch_reason_code(reason));
            out.byte(hart_id);
            proof {
                assert(out.values@ =~= values_of(frame@));
            }
            out.bytes
        },
        Frame::HartRegister { id, mhartid, role } => {
            let mut out: Writer = Writer::new(10);
            out.byte(id);
            out.wide(mhartid);
            out.small(hart_role_code(role));
            proof {
                assert(out.values@ =~= values_of(frame@));
            }
            out.bytes
        },
        Frame::CapEvent { kind, cap_id, parent_cap_id, holder, object, rights, badge, t, hart_id, name } => {
            let mut out: Writer = Writer::new(11);
            out.small(cap_event_kind_code(kind));
            out.wide(cap_id);
            out.wide(parent_cap_id);
            out.small(holder);
            out.small(cap_object_code(object));
            out.small(rights);
            out.wide(badge);
            out.wide(t);
            out.byte(hart_id);
            out.name(&name);
            proof {
                assert(out.values@ =~= values_of(frame@));
            }
            out.bytes
        },
        Frame::SyscallRefused { syscall, reason, task_id, t, hart_id } => {
            let mut out: Writer = Writer::new(12);
            out.byte(syscall);
            out.small(refusal_reason_code(reason));
            out.small(task_id);
            out.wide(t);
            out.byte(hart_id);
            proof {
                assert(out.values@ =~= values_of(frame@));
            }
            out.bytes
        },
        Frame::Log { msg, task_id, t, hart_id } => {
            let mut out: Writer = Writer::new(13);
            out.text(msg);
            out.small(task_id);
            out.wide(t);
            out.byte(hart_id);
            proof {
                assert(out.values@ =~= values_of(frame@));
            }
            out.bytes
        },
        Frame::Message { endpoint, from, to, parent_span, t, hart_id } => {
            let mut out: Writer = Writer::new(14);
            out.small(endpoint);
            out.small(from);
            out.small(to);
            out.wide(parent_span.0);
            out.wide(t);
            out.byte(hart_id);
            proof {
                assert(out.values@ =~= values_of(frame@));
            }
            out.bytes
        },
        Frame::NotifySignal { notification, mask, from_task, t, hart_id } => {
            let mut out: Writer = Writer::new(15);
            out.small(notification);
            out.wide(mask);
            out.small(from_task);
            out.wide(t);
            out.byte(hart_id);
            proof {
                assert(out.values@ =~= values_of(frame@));
            }
            out.bytes
        },
        Frame::NotifyWait { notification, bits, to_task, t, hart_id } => {
            let mut out: Writer = Writer::new(16);
            out.small(notification);
            out.wide(bits);
            out.small(to_task);
            out.wide(t);
            out.byte(hart_id);
            proof {
                assert(out.values@ =~= values_of(frame@));
            }
            out.bytes
        },
        Frame::AudioXRun { t, hart_id } => {
            let mut out: Writer = Writer::new(17);
            out.wide(t);
            out.byte(hart_id);
            proof {
                assert(out.values@ =~= values_of(frame@));
            }
            out.bytes
        },
        Frame::BuildInfo { kernel_profile, userspace_opt } => {
            let mut out: Writer = Writer::new(18);
            out.text(kernel_profile);
            out.text(userspace_opt);
            proof {
                assert(out.values@ =~= values_of(frame@));
            }
            out.bytes
        },
    }
}

/// A frame did not fit the buffer it was to be written to.
#[derive(Debug, Clone, Copy, PartialEq, Eq, Structural)]
pub struct BufferFull {
    /// How many bytes the frame takes.
    pub needed: usize,
}

/// Write a frame as it is sent, into the front of `buf`: the bytes written, or how many it
/// would have taken.
pub fn wire_encode<'b>(frame: &Frame<'_>, buf: &'b mut [u8]) -> (r: Result<&'b [u8], BufferFull>)
    ensures
        match r {
            Ok(bytes) => bytes@ == sent(frame@) && final(buf)@.len() == old(buf)@.len()
                && final(buf)@ == crate::bytes::overwrite(old(buf)@, 0, sent(frame@))
                && sent(frame@).len() <= old(buf)@.len(),
            Err(e) => e.needed == sent(frame@).len() && sent(frame@).len() > old(buf)@.len()
                && final(buf)@ == old(buf)@,
        },
{
    let body: Vec<u8> = encode_frame(frame);
    let mut wire: Vec<u8> = stuff(body.as_slice());
    wire.push(0);
    let n: usize = wire.len();
    if n > buf.len() {
        return Err(BufferFull { needed: n });
    }
    let ghost start = buf@;
    let mut i: usize = 0;
    proof {
        assert(buf@ =~= crate::bytes::overwrite(start, 0, wire@.take(0)));
    }
    while i < n
        invariant
            i <= n,
            n == wire@.len(),
            n <= buf@.len(),
            buf@.len() == start.len(),
            buf@ == crate::bytes::overwrite(start, 0, wire@.take(i as int)),
        decreases n - i,
    {
        buf[i] = wire[i];
        i += 1;
        proof {
            assert(buf@ =~= crate::bytes::overwrite(start, 0, wire@.take(i as int)));
        }
    }
    proof {
        assert(wire@.take(n as int) =~= wire@);
        assert(buf@.subrange(0, n as int) =~= wire@);
    }
    Ok(vstd::slice::slice_subrange(buf, 0, n))
}

/// Pack a name into a fixed field: its bytes, cut to the field, NUL-padded.
pub fn pack_name(name: &str) -> (r: [u8; 16])
    ensures
        forall|i: int|
            0 <= i < 16 ==> r@[i] == if i < name.spec_bytes().len() {
                name.spec_bytes()[i]
            } else {
                0
            },
{
    let bytes: &[u8] = name.as_bytes();
    let mut r: [u8; 16] = [0;16];
    let mut i: usize = 0;
    while i < 16 && i < bytes.len()
        invariant
            i <= 16,
            i <= bytes@.len(),
            forall|k: int| 0 <= k < i ==> r@[k] == bytes@[k],
            forall|k: int| i <= k < 16 ==> r@[k] == 0,
        decreases 16 - i,
    {
        r[i] = bytes[i];
        i += 1;
    }
    r
}

} // verus!
