//! Decoding the telemetry stream: owned frames, one-frame decoding, and the incremental
//! decoder over a growing or chunked byte source.

use vstd::prelude::*;
use vstd::string::*;
use crate::protocol::{
    cap_event_kind_of, cap_object_of, frame_of, hart_role_of, metric_kind_of, parse_frame,
    parse_value, parse_values, refusal_reason_of, schema, switch_reason_of, CapEventKind,
    CapObject, Field, Frame, FrameState, HartRole, MetricKind, RefusalReason, SpanId, StringId,
    SwitchReason, ValueState, CAP_NAME_LEN, FRAME_KINDS,
};
use crate::wire::{
    find_zero, lemma_zero_at, take_i64, take_text, take_u32, take_u64, unstuff, unstuffed, zero_at,
};

verus! {

/// A frame that owns its text.
#[allow(inconsistent_fields)]
#[derive(Debug, PartialEq, Eq)]
pub enum OwnedFrame {
    /// The stream starts: the clock rate and the format version.
    Hello { timebase_hz: u64, protocol_version: u8 },
    /// A span was opened.
    SpanStart { id: SpanId, parent: SpanId, name_id: StringId, t: u64, task_id: u32, hart_id: u8 },
    /// A span was closed.
    SpanEnd { id: SpanId, t: u64 },
    /// A point-in-time annotation on a span.
    Event { span_id: SpanId, name_id: StringId, t: u64 },
    /// A metric sample.
    Metric { name_id: StringId, value: i64, t: u64, hart_id: u8 },
    /// Frames were lost.
    Dropped { count: u32 },
    /// A name for a string id.
    StringRegister { id: StringId, value: String },
    /// A metric's kind and emitter, once per name.
    MetricRegister { name_id: StringId, kind: MetricKind, task_id: u32 },
    /// A task's name and priority.
    ThreadRegister { id: u32, name: String, priority: u8 },
    /// The scheduler switched tasks.
    ContextSwitch { from: u32, to: u32, t: u64, reason: SwitchReason, hart_id: u8 },
    /// A hart came up.
    HartRegister { id: u8, mhartid: u64, role: HartRole },
    /// An authority decision: a capability's lifecycle event.
    CapEvent { kind: CapEventKind, cap_id: u64, parent_cap_id: u64, holder: u32, object: CapObject, rights: u32, badge: u64, t: u64, hart_id: u8, name: [u8; 16] },
    /// The kernel refused a system call, and why.
    SyscallRefused { syscall: u8, reason: RefusalReason, task_id: u32, t: u64, hart_id: u8 },
    /// A line a program printed.
    Log { msg: String, task_id: u32, t: u64, hart_id: u8 },
    /// A message crossed from one task to another.
    Message { endpoint: u32, from: u32, to: u32, parent_span: SpanId, t: u64, hart_id: u8 },
    /// A notification was signalled.
    NotifySignal { notification: u32, mask: u64, from_task: u32, t: u64, hart_id: u8 },
    /// A notification's waiter woke.
    NotifyWait { notification: u32, bits: u64, to_task: u32, t: u64, hart_id: u8 },
    /// The audio output ran dry.
    AudioXRun { t: u64, hart_id: u8 },
    /// How the guest was built.
    BuildInfo { kernel_profile: String, userspace_opt: String },
}

impl View for OwnedFrame {
    type V = FrameState;

    open spec fn view(&self) -> FrameState {
        match *self {
            OwnedFrame::Hello { timebase_hz, protocol_version } => FrameState::Hello { timebase_hz, protocol_version },
            OwnedFrame::SpanStart { id, parent, name_id, t, task_id, hart_id } => FrameState::SpanStart { id, parent, name_id, t, task_id, hart_id },
            OwnedFrame::SpanEnd { id, t } => FrameState::SpanEnd { id, t },
            OwnedFrame::Event { span_id, name_id, t } => FrameState::Event { span_id, name_id, t },
            OwnedFrame::Metric { name_id, value, t, hart_id } => FrameState::Metric { name_id, value, t, hart_id },
            OwnedFrame::Dropped { count } => FrameState::Dropped { count },
            OwnedFrame::StringRegister { id, value } => FrameState::StringRegister { id, value: value@ },
            OwnedFrame::MetricRegister { name_id, kind, task_id } => FrameState::MetricRegister { name_id, kind, task_id },
            OwnedFrame::ThreadRegister { id, name, priority } => FrameState::ThreadRegister { id, name: name@, priority },
            OwnedFrame::ContextSwitch { from, to, t, reason, hart_id } => FrameState::ContextSwitch { from, to, t, reason, hart_id },
            OwnedFrame::HartRegister { id, mhartid, role } => FrameState::HartRegister { id, mhartid, role },
            OwnedFrame::CapEvent { kind, cap_id, parent_cap_id, holder, object, rights, badge, t, hart_id, name } => FrameState::CapEvent { kind, cap_id, parent_cap_id, holder, object, rights, badge, t, hart_id, name: name@ },
            OwnedFrame::SyscallRefused { syscall, reason, task_id, t, hart_id } => FrameState::SyscallRefused { syscall, reason, task_id, t, hart_id },
            OwnedFrame::Log { msg, task_id, t, hart_id } => FrameState::Log { msg: msg@, task_id, t, hart_id },
            OwnedFrame::Message { endpoint, from, to, parent_span, t, hart_id } => FrameState::Message { endpoint, from, to, parent_span, t, hart_id },
            OwnedFrame::NotifySignal { notification, mask, from_task, t, hart_id } => FrameState::NotifySignal { notification, mask, from_task, t, hart_id },
            OwnedFrame::NotifyWait { notification, bits, to_task, t, hart_id } => FrameState::NotifyWait { notification, bits, to_task, t, hart_id },
            OwnedFrame::AudioXRun { t, hart_id } => FrameState::AudioXRun { t, hart_id },
            OwnedFrame::BuildInfo { kernel_profile, userspace_opt } => FrameState::BuildInfo { kernel_profile: kernel_profile@, userspace_opt: userspace_opt@ },
        }
    }
}

impl Clone for OwnedFrame {
    fn clone(&self) -> (r: Self)
        ensures
            r@ == self@,
    {
        match self {
            OwnedFrame::Hello { timebase_hz, protocol_version } => OwnedFrame::Hello { timebase_hz: *timebase_hz, protocol_version: *protocol_version },
            OwnedFrame::SpanStart { id, parent, name_id, t, task_id, hart_id } => OwnedFrame::SpanStart { id: *id, parent: *parent, name_id: *name_id, t: *t, task_id: *task_id, hart_id: *hart_id },
            OwnedFrame::SpanEnd { id, t } => OwnedFrame::SpanEnd { id: *id, t: *t },
            OwnedFrame::Event { span_id, name_id, t } => OwnedFrame::Event { span_id: *span_id, name_id: *name_id, t: *t },
            OwnedFrame::Metric { name_id, value, t, hart_id } => OwnedFrame::Metric { name_id: *name_id, value: *value, t: *t, hart_id: *hart_id },
            OwnedFrame::Dropped { count } => OwnedFrame::Dropped { count: *count },
            OwnedFrame::StringRegister { id, value } => OwnedFrame::StringRegister { id: *id, value: value.clone() },
            OwnedFrame::MetricRegister { name_id, kind, task_id } => OwnedFrame::MetricRegister { name_id: *name_id, kind: *kind, task_id: *task_id },
            OwnedFrame::ThreadRegister { id, name, priority } => OwnedFrame::ThreadRegister { id: *id, name: name.clone(), priority: *priority },
            OwnedFrame::ContextSwitch { from, to, t, reason, hart_id } => OwnedFrame::ContextSwitch { from: *from, to: *to, t: *t, reason: *reason, hart_id: *hart_id },
            OwnedFrame::HartRegister { id, mhartid, role } => OwnedFrame::HartRegister { id: *id, mhartid: *mhartid, role: *role },
            OwnedFrame::CapEvent { kind, cap_id, parent_cap_id, holder, object, rights, badge, t, hart_id, name } => OwnedFrame::CapEvent { kind: *kind, cap_id: *cap_id, parent_cap_id: *parent_cap_id, holder: *holder, object: *object, rights: *rights, badge: *badge, t: *t, hart_id: *hart_id, name: *name },
            OwnedFrame::SyscallRefused { syscall, reason, task_id, t, hart_id } => OwnedFrame::SyscallRefused { syscall: *syscall, reason: *reason, task_id: *task_id, t: *t, hart_id: *hart_id },
            OwnedFrame::Log { msg, task_id, t, hart_id } => OwnedFrame::Log { msg: msg.clone(), task_id: *task_id, t: *t, hart_id: *hart_id },
            OwnedFrame::Message { endpoint, from, to, parent_span, t, hart_id } => OwnedFrame::Message { endpoint: *endpoint, from: *from, to: *to, parent_span: *parent_span, t: *t, hart_id: *hart_id },
            OwnedFrame::NotifySignal { notification, mask, from_task, t, hart_id } => OwnedFrame::NotifySignal { notification: *notification, mask: *mask, from_task: *from_task, t: *t, hart_id: *hart_id },
            OwnedFrame::NotifyWait { notification, bits, to_task, t, hart_id } => OwnedFrame::NotifyWait { notification: *notification, bits: *bits, to_task: *to_task, t: *t, hart_id: *hart_id },
            OwnedFrame::AudioXRun { t, hart_id } => OwnedFrame::AudioXRun { t: *t, hart_id: *hart_id },
            OwnedFrame::BuildInfo { kernel_profile, userspace_opt } => OwnedFrame::BuildInfo { kernel_profile: kernel_profile.clone(), userspace_opt: userspace_opt.clone() },
        }
    }
}

impl OwnedFrame {
    /// Copy a borrowed frame.
    pub fn from_borrowed(frame: &Frame<'_>) -> (r: Self)
        ensures
            r@ == frame@,
    {
        match *frame {
            Frame::Hello { timebase_hz, protocol_version } => OwnedFrame::Hello { timebase_hz, protocol_version },
            Frame::SpanStart { id, parent, name_id, t, task_id, hart_id } => OwnedFrame::SpanStart { id, parent, name_id, t, task_id, hart_id },
            Frame::SpanEnd { id, t } => OwnedFrame::SpanEnd { id, t },
            Frame::Event { span_id, name_id, t } => OwnedFrame::Event { span_id, name_id, t },
            Frame::Metric { name_id, value, t, hart_id } => OwnedFrame::Metric { name_id, value, t, hart_id },
            Frame::Dropped { count } => OwnedFrame::Dropped { count },
            Frame::StringRegister { id, value } => OwnedFrame::StringRegister { id, value: value.to_owned() },
            Frame::MetricRegister { name_id, kind, task_id } => OwnedFrame::MetricRegister { name_id, kind, task_id },
            Frame::ThreadRegister { id, name, priority } => OwnedFrame::ThreadRegister { id, name: name.to_owned(), priority },
            Frame::ContextSwitch { from, to, t, reason, hart_id } => OwnedFrame::ContextSwitch { from, to, t, reason, hart_id },
            Frame::HartRegister { id, mhartid, role } => OwnedFrame::HartRegister { id, mhartid, role },
            Frame::CapEvent { kind, cap_id, parent_cap_id, holder, object, rights, badge, t, hart_id, name } => OwnedFrame::CapEvent { kind, cap_id, parent_cap_id, holder, object, rights, badge, t, hart_id, name },
            Frame::SyscallRefused { syscall, reason, task_id, t, hart_id } => OwnedFrame::SyscallRefused { syscall, reason, task_id, t, hart_id },
            Frame::Log { msg, task_id, t, hart_id } => OwnedFrame::Log { msg: msg.to_owned(), task_id, t, hart_id },
            Frame::Message { endpoint, from, to, parent_span, t, hart_id } => OwnedFrame::Message { endpoint, from, to, parent_span, t, hart_id },
            Frame::NotifySignal { notification, mask, from_task, t, hart_id } => OwnedFrame::NotifySignal { notification, mask, from_task, t, hart_id },
            Frame::NotifyWait { notification, bits, to_task, t, hart_id } => OwnedFrame::NotifyWait { notification, bits, to_task, t, hart_id },
            Frame::AudioXRun { t, hart_id } => OwnedFrame::AudioXRun { t, hart_id },
            Frame::BuildInfo { kernel_profile, userspace_opt } => OwnedFrame::BuildInfo { kernel_profile: kernel_profile.to_owned(), userspace_opt: userspace_opt.to_owned() },
        }
    }
}

/// The value of a field.
enum Value {
    Byte(u8),
    Small(u32),
    Wide(u64),
    Signed(i64),
    Text(String),
    Name([u8; 16]),
}

impl View for Value {
    type V = ValueState;

    closed spec fn view(&self) -> ValueState {
        match *self {
            Value::Byte(b) => ValueState::Byte(b),
            Value::Small(n) => ValueState::Small(n),
            Value::Wide(n) => ValueState::Wide(n),
            Value::Signed(i) => ValueState::Signed(i),
            Value::Text(t) => ValueState::Text(t@),
            Value::Name(s) => ValueState::Name(s@),
        }
    }
}

/// The values of a list.
spec fn views(vs: Seq<Value>) -> Seq<ValueState> {
    Seq::new(vs.len(), |i: int| vs[i]@)
}

/// Take the value of a field off the front.
fn take_value<'a>(s: &'a [u8], f: &Field) -> (r: Option<(Value, &'a [u8])>)
    ensures
        match parse_value(s@, *f) {
            Some((v, rest)) => r is Some && (r->0).0@ == v && (r->0).1@ == rest,
            None => r is None,
        },
{
    match *f {
        Field::Byte => if s.len() == 0 {
            None
        } else {
            let rest: &[u8] = vstd::slice::slice_subrange(s, 1, s.len());
            proof {
                assert(rest@ =~= s@.skip(1));
            }
            Some((Value::Byte(s[0]), rest))
        },
        Field::Small => match take_u32(s) {
            Some((n, rest)) => Some((Value::Small(n), rest)),
            None => None,
        },
        Field::Wide => match take_u64(s) {
            Some((n, rest)) => Some((Value::Wide(n), rest)),
            None => None,
        },
        Field::Signed => match take_i64(s) {
            Some((i, rest)) => Some((Value::Signed(i), rest)),
            None => None,
        },
        Field::Text => match take_text(s) {
            Some((t, rest)) => Some((Value::Text(t.to_owned()), rest)),
            None => None,
        },
        Field::Name => if s.len() < CAP_NAME_LEN {
            None
        } else {
            let mut name: [u8; 16] = [0;16];
            let mut i: usize = 0;
            while i < 16
                invariant
                    i <= 16,
                    s@.len() >= 16,
                    forall|k: int| 0 <= k < i ==> name@[k] == s@[k],
                decreases 16 - i,
            {
                name[i] = s[i];
                i += 1;
            }
            let rest: &[u8] = vstd::slice::slice_subrange(s, 16, s.len());
            proof {
                assert(name@ =~= s@.take(16));
                assert(rest@ =~= s@.skip(16));
            }
            Some((Value::Name(name), rest))
        },
        Field::Choice(k) => match take_u32(s) {
            Some((n, rest)) => if n < k {
                Some((Value::Small(n), rest))
            } else {
                None
            },
            None => None,
        },
    }
}

/// Take the values of fields off the front.
fn take_values(s: &[u8], fs: &Vec<Field>) -> (r: Option<Vec<Value>>)
    ensures
        match parse_values(s@, fs@) {
            Some(vs) => r is Some && views((r->0)@) == vs,
            None => r is None,
        },
{
    let mut out: Vec<Value> = Vec::new();
    let mut rest: &[u8] = s;
    let mut i: usize = 0;
    let ghost goal = parse_values(s@, fs@);
    proof {
        assert(fs@.skip(0) =~= fs@);
        if goal is Some {
            assert(views(out@) + goal->0 =~= goal->0);
        }
    }
    while i < fs.len()
        invariant
            i <= fs@.len(),
            goal == parse_values(s@, fs@),
            goal is Some <==> parse_values(rest@, fs@.skip(i as int)) is Some,
            goal is Some ==> goal->0 == views(out@) + parse_values(
                rest@,
                fs@.skip(i as int),
            )->0,
        decreases fs@.len() - i,
    {
        proof {
            assert(fs@.skip(i as int)[0] == fs@[i as int]);
            assert(fs@.skip(i as int).drop_first() =~= fs@.skip(i + 1));
        }
        match take_value(rest, &fs[i]) {
            None => {
                return None;
            },
            Some((v, more)) => {
                let ghost before = out@;
                let ghost vv = v@;
                out.push(v);
                proof {
                    assert(views(out@) =~= views(before).push(vv));
                    let tail = parse_values(more@, fs@.skip(i + 1));
                    if tail is Some {
                        assert(views(before) + (seq![vv] + tail->0) =~= views(out@) + tail->0);
                    }
                }
                rest = more;
            },
        }
        i += 1;
    }
    proof {
        assert(goal->0 =~= views(out@));
    }
    Some(out)
}

/// The fields of the frames with a tag.
fn fields(tag: u32) -> (r: Vec<Field>)
    ensures
        r@ == schema(tag),
{
    let r: Vec<Field> = if tag == 0 {
        vec![Field::Wide, Field::Byte]
    } else if tag == 1 {
        vec![Field::Wide, Field::Wide, Field::Small, Field::Wide, Field::Small, Field::Byte]
    } else if tag == 2 {
        vec![Field::Wide, Field::Wide]
    } else if tag == 3 {
        vec![Field::Wide, Field::Small, Field::Wide]
    } else if tag == 4 {
        vec![Field::Small, Field::Signed, Field::Wide, Field::Byte]
    } else if tag == 5 {
        vec![Field::Small]
    } else if tag == 6 {
        vec![Field::Small, Field::Text]
    } else if tag == 7 {
        vec![Field::Small, Field::Choice(3), Field::Small]
    } else if tag == 8 {
        vec![Field::Small, Field::Text, Field::Byte]
    } else if tag == 9 {
        vec![Field::Small, Field::Small, Field::Wide, Field::Choice(4), Field::Byte]
    } else if tag == 10 {
        vec![Field::Byte, Field::Wide, Field::Choice(2)]
    } else if tag == 11 {
        vec![Field::Choice(4), Field::Wide, Field::Wide, Field::Small, Field::Choice(5), Field::Small, Field::Wide, Field::Wide, Field::Byte, Field::Name]
    } else if tag == 12 {
        vec![Field::Byte, Field::Choice(15), Field::Small, Field::Wide, Field::Byte]
    } else if tag == 13 {
        vec![Field::Text, Field::Small, Field::Wide, Field::Byte]
    } else if tag == 14 {
        vec![Field::Small, Field::Small, Field::Small, Field::Wide, Field::Wide, Field::Byte]
    } else if tag == 15 {
        vec![Field::Small, Field::Wide, Field::Small, Field::Wide, Field::Byte]
    } else if tag == 16 {
        vec![Field::Small, Field::Wide, Field::Small, Field::Wide, Field::Byte]
    } else if tag == 17 {
        vec![Field::Wide, Field::Byte]
    } else if tag == 18 {
        vec![Field::Text, Field::Text]
    } else {
        Vec::new()
    };
    proof {
        assert(r@ =~= schema(tag));
    }
    r
}

fn byte_at(vs: &Vec<Value>, i: usize) -> (r: u8)
    requires
        i < vs@.len(),
        views(vs@)[i as int] is Byte,
    ensures
        r == views(vs@)[i as int].byte(),
{
    match &vs[i] {
        Value::Byte(b) => *b,
        _ => 0,
    }
}

fn small_at(vs: &Vec<Value>, i: usize) -> (r: u32)
    requires
        i < vs@.len(),
        views(vs@)[i as int] is Small,
    ensures
        r == views(vs@)[i as int].small(),
{
    match &vs[i] {
        Value::Small(b) => *b,
        _ => 0,
    }
}

fn wide_at(vs: &Vec<Value>, i: usize) -> (r: u64)
    requires
        i < vs@.len(),
        views(vs@)[i as int] is Wide,
    ensures
        r == views(vs@)[i as int].wide(),
{
    match &vs[i] {
        Value::Wide(b) => *b,
        _ => 0,
    }
}

fn signed_at(vs: &Vec<Value>, i: usize) -> (r: i64)
    requires
        i < vs@.len(),
        views(vs@)[i as int] is Signed,
    ensures
        r == views(vs@)[i as int].signed(),
{
    match &vs[i] {
        Value::Signed(b) => *b,
        _ => 0,
    }
}

fn name_at(vs: &Vec<Value>, i: usize) -> (r: [u8; 16])
    requires
        i < vs@.len(),
        views(vs@)[i as int] is Name,
    ensures
        r@ == views(vs@)[i as int].name(),
{
    match &vs[i] {
        Value::Name(b) => *b,
        _ => [0;16],
    }
}

fn text_at(vs: &Vec<Value>, i: usize) -> (r: String)
    requires
        i < vs@.len(),
        views(vs@)[i as int] is Text,
    ensures
        r@ == views(vs@)[i as int].text(),
{
    match &vs[i] {
        Value::Text(t) => t.clone(),
        _ => String::new(),
    }
}

/// Parsed values are those of their fields.
proof fn lemma_parsed_kinds(s: Seq<u8>, fs: Seq<Field>)
    requires
        parse_values(s, fs) is Some,
    ensures
        parse_values(s, fs)->0.len() == fs.len(),
        forall|i: int|
            0 <= i < fs.len() ==> kind_matches(#[trigger] parse_values(s, fs)->0[i], fs[i]),
    decreases fs.len(),
{
    if fs.len() > 0 {
        let (v, rest) = parse_value(s, fs[0])->0;
        lemma_parsed_kinds(rest, fs.drop_first());
        let vs = parse_values(s, fs)->0;
        let more = parse_values(rest, fs.drop_first())->0;
        assert(vs =~= seq![v] + more);
        assert forall|i: int| 0 <= i < fs.len() implies kind_matches(#[trigger] vs[i], fs[i]) by {
            if i > 0 {
                assert(kind_matches(more[i - 1], fs.drop_first()[i - 1]));
            }
        }
    }
}

/// Whether a value is of a field's kind.
pub open spec fn kind_matches(v: ValueState, f: Field) -> bool {
    match f {
        Field::Byte => v is Byte,
        Field::Small => v is Small,
        Field::Wide => v is Wide,
        Field::Signed => v is Signed,
        Field::Text => v is Text,
        Field::Name => v is Name,
        Field::Choice(_) => v is Small,
    }
}

/// Whether values are of the kinds of a tag's fields.
spec fn kinds_match(vs: Seq<ValueState>, tag: u32) -> bool {
    vs.len() == schema(tag).len() && forall|i: int|
        0 <= i < vs.len() ==> kind_matches(#[trigger] vs[i], schema(tag)[i])
}

fn build_hello(vs: &Vec<Value>) -> (r: OwnedFrame)
    requires
        kinds_match(views(vs@), 0),
    ensures
        r@ == frame_of(0, views(vs@)),
{
    proof {
        assert(kind_matches(views(vs@)[0], schema(0)[0]));
        assert(kind_matches(views(vs@)[1], schema(0)[1]));
    }
    OwnedFrame::Hello { timebase_hz: wide_at(vs, 0), protocol_version: byte_at(vs, 1) }
}

fn build_span_start(vs: &Vec<Value>) -> (r: OwnedFrame)
    requires
        kinds_match(views(vs@), 1),
    ensures
        r@ == frame_of(1, views(vs@)),
{
    proof {
        assert(kind_matches(views(vs@)[0], schema(1)[0]));
        assert(kind_matches(views(vs@)[1], schema(1)[1]));
        assert(kind_matches(views(vs@)[2], schema(1)[2]));
        assert(kind_matches(views(vs@)[3], schema(1)[3]));
        assert(kind_matches(views(vs@)[4], schema(1)[4]));
        assert(kind_matches(views(vs@)[5], schema(1)[5]));
    }
    OwnedFrame::SpanStart { id: SpanId(wide_at(vs, 0)), parent: SpanId(wide_at(vs, 1)), name_id: StringId(small_at(vs, 2)), t: wide_at(vs, 3), task_id: small_at(vs, 4), hart_id: byte_at(vs, 5) }
}

fn build_span_end(vs: &Vec<Value>) -> (r: OwnedFrame)
    requires
        kinds_match(views(vs@), 2),
    ensures
        r@ == frame_of(2, views(vs@)),
{
    proof {
        assert(kind_matches(views(vs@)[0], schema(2)[0]));
        assert(kind_matches(views(vs@)[1], schema(2)[1]));
    }
    OwnedFrame::SpanEnd { id: SpanId(wide_at(vs, 0)), t: wide_at(vs, 1) }
}

fn build_event(vs: &Vec<Value>) -> (r: OwnedFrame)
    requires
        kinds_match(views(vs@), 3),
    ensures
        r@ == frame_of(3, views(vs@)),
{
    proof {
        assert(kind_matches(views(vs@)[0], schema(3)[0]));
        assert(kind_matches(views(vs@)[1], schema(3)[1]));
        assert(kind_matches(views(vs@)[2], schema(3)[2]));
    }
    OwnedFrame::Event { span_id: SpanId(wide_at(vs, 0)), name_id: StringId(small_at(vs, 1)), t: wide_at(vs, 2) }
}

fn build_metric(vs: &Vec<Value>) -> (r: OwnedFrame)
    requires
        kinds_match(views(vs@), 4),
    ensures
        r@ == frame_of(4, views(vs@)),
{
    proof {
        assert(kind_matches(views(vs@)[0], schema(4)[0]));
        assert(kind_matches(views(vs@)[1], schema(4)[1]));
        assert(kind_matches(views(vs@)[2], schema(4)[2]));
        assert(kind_matches(views(vs@)[3], schema(4)[3]));
    }
    OwnedFrame::Metric { name_id: StringId(small_at(vs, 0)), value: signed_at(vs, 1), t: wide_at(vs, 2), hart_id: byte_at(vs, 3) }
}

fn build_dropped(vs: &Vec<Value>) -> (r: OwnedFrame)
    requires
        kinds_match(views(vs@), 5),
    ensures
        r@ == frame_of(5, views(vs@)),
{
    proof {
        assert(kind_matches(views(vs@)[0], schema(5)[0]));
    }
    OwnedFrame::Dropped { count: small_at(vs, 0) }
}

fn build_string_register(vs: &Vec<Value>) -> (r: OwnedFrame)
    requires
        kinds_match(views(vs@), 6),
    ensures
        r@ == frame_of(6, views(vs@)),
{
    proof {
        assert(kind_matches(views(vs@)[0], schema(6)[0]));
        assert(kind_matches(views(vs@)[1], schema(6)[1]));
    }
    OwnedFrame::StringRegister { id: StringId(small_at(vs, 0)), value: text_at(vs, 1) }
}

fn build_metric_register(vs: &Vec<Value>) -> (r: OwnedFrame)
    requires
        kinds_match(views(vs@), 7),
    ensures
        r@ == frame_of(7, views(vs@)),
{
    proof {
        assert(kind_matches(views(vs@)[0], schema(7)[0]));
        assert(kind_matches(views(vs@)[1], schema(7)[1]));
        assert(kind_matches(views(vs@)[2], schema(7)[2]));
    }
    OwnedFrame::MetricRegister { name_id: StringId(small_at(vs, 0)), kind: metric_kind_of(small_at(vs, 1)), task_id: small_at(vs, 2) }
}

fn build_thread_register(vs: &Vec<Value>) -> (r: OwnedFrame)
    requires
        kinds_match(views(vs@), 8),
    ensures
        r@ == frame_of(8, views(vs@)),
{
    proof {
        assert(kind_matches(views(vs@)[0], schema(8)[0]));
        assert(kind_matches(views(vs@)[1], schema(8)[1]));
        assert(kind_matches(views(vs@)[2], schema(8)[2]));
    }
    OwnedFrame::ThreadRegister { id: small_at(vs, 0), name: text_at(vs, 1), priority: byte_at(vs, 2) }
}

fn build_context_switch(vs: &Vec<Value>) -> (r: OwnedFrame)
    requires
        kinds_match(views(vs@), 9),
    ensures
        r@ == frame_of(9, views(vs@)),
{
    proof {
        assert(kind_matches(views(vs@)[0], schema(9)[0]));
        assert(kind_matches(views(vs@)[1], schema(9)[1]));
        assert(kind_matches(views(vs@)[2], schema(9)[2]));
        assert(kind_matches(views(vs@)[3], schema(9)[3]));
        assert(kind_matches(views(vs@)[4], schema(9)[4]));
    }
    OwnedFrame::ContextSwitch { from: small_at(vs, 0), to: small_at(vs, 1), t: wide_at(vs, 2), reason: switch_reason_of(small_at(vs, 3)), hart_id: byte_at(vs, 4) }
}

fn build_hart_register(vs: &Vec<Value>) -> (r: OwnedFrame)
    requires
        kinds_match(views(vs@), 10),
    ensures
        r@ == frame_of(10, views(vs@)),
{
    proof {
        assert(kind_matches(views(vs@)[0], schema(10)[0]));
        assert(kind_matches(views(vs@)[1], schema(10)[1]));
        assert(kind_matches(views(vs@)[2], schema(10)[2]));
    }
    OwnedFrame::HartRegister { id: byte_at(vs, 0), mhartid: wide_at(vs, 1), role: hart_role_of(small_at(vs, 2)) }
}

fn build_cap_event(vs: &Vec<Value>) -> (r: OwnedFrame)
    requires
        kinds_match(views(vs@), 11),
    ensures
        r@ == frame_of(11, views(vs@)),
{
    proof {
        assert(kind_matches(views(vs@)[0], schema(11)[0]));
        assert(kind_matches(views(vs@)[1], schema(11)[1]));
        assert(kind_matches(views(vs@)[2], schema(11)[2]));
        assert(kind_matches(views(vs@)[3], schema(11)[3]));
        assert(kind_matches(views(vs@)[4], schema(11)[4]));
        assert(kind_matches(views(vs@)[5], schema(11)[5]));
        assert(kind_matches(views(vs@)[6], schema(11)[6]));
        assert(kind_matches(views(vs@)[7], schema(11)[7]));
        assert(kind_matches(views(vs@)[8], schema(11)[8]));
        assert(kind_matches(views(vs@)[9], schema(11)[9]));
    }
    OwnedFrame::CapEvent { kind: cap_event_kind_of(small_at(vs, 0)), cap_id: wide_at(vs, 1), parent_cap_id: wide_at(vs, 2), holder: small_at(vs, 3), object: cap_object_of(small_at(vs, 4)), rights: small_at(vs, 5), badge: wide_at(vs, 6), t: wide_at(vs, 7), hart_id: byte_at(vs, 8), name: name_at(vs, 9) }
}

fn build_syscall_refused(vs: &Vec<Value>) -> (r: OwnedFrame)
    requires
        kinds_match(views(vs@), 12),
    ensures
        r@ == frame_of(12, views(vs@)),
{
    proof {
        assert(kind_matches(views(vs@)[0], schema(12)[0]));
        assert(kind_matches(views(vs@)[1], schema(12)[1]));
        assert(kind_matches(views(vs@)[2], schema(12)[2]));
        assert(kind_matches(views(vs@)[3], schema(12)[3]));
        assert(kind_matches(views(vs@)[4], schema(12)[4]));
    }
    OwnedFrame::SyscallRefused { syscall: byte_at(vs, 0), reason: refusal_reason_of(small_at(vs, 1)), task_id: small_at(vs, 2), t: wide_at(vs, 3), hart_id: byte_at(vs, 4) }
}

fn build_log(vs: &Vec<Value>) -> (r: OwnedFrame)
    requires
        kinds_match(views(vs@), 13),
    ensures
        r@ == frame_of(13, views(vs@)),
{
    proof {
        assert(kind_matches(views(vs@)[0], schema(13)[0]));
        assert(kind_matches(views(vs@)[1], schema(13)[1]));
        assert(kind_matches(views(vs@)[2], schema(13)[2]));
        assert(kind_matches(views(vs@)[3], schema(13)[3]));
    }
    OwnedFrame::Log { msg: text_at(vs, 0), task_id: small_at(vs, 1), t: wide_at(vs, 2), hart_id: byte_at(vs, 3) }
}

fn build_message(vs: &Vec<Value>) -> (r: OwnedFrame)
    requires
        kinds_match(views(vs@), 14),
    ensures
        r@ == frame_of(14, views(vs@)),
{
    proof {
        assert(kind_matches(views(vs@)[0], schema(14)[0]));
        assert(kind_matches(views(vs@)[1], schema(14)[1]));
        assert(kind_matches(views(vs@)[2], schema(14)[2]));
        assert(kind_matches(views(vs@)[3], schema(14)[3]));
        assert(kind_matches(views(vs@)[4], schema(14)[4]));
        assert(kind_matches(views(vs@)[5], schema(14)[5]));
    }
    OwnedFrame::Message { endpoint: small_at(vs, 0), from: small_at(vs, 1), to: small_at(vs, 2), parent_span: SpanId(wide_at(vs, 3)), t: wide_at(vs, 4), hart_id: byte_at(vs, 5) }
}

fn build_notify_signal(vs: &Vec<Value>) -> (r: OwnedFrame)
    requires
        kinds_match(views(vs@), 15),
    ensures
        r@ == frame_of(15, views(vs@)),
{
    proof {
        assert(kind_matches(views(vs@)[0], schema(15)[0]));
        assert(kind_matches(views(vs@)[1], schema(15)[1]));
        assert(kind_matches(views(vs@)[2], schema(15)[2]));
        assert(kind_matches(views(vs@)[3], schema(15)[3]));
        assert(kind_matches(views(vs@)[4], schema(15)[4]));
    }
    OwnedFrame::NotifySignal { notification: small_at(vs, 0), mask: wide_at(vs, 1), from_task: small_at(vs, 2), t: wide_at(vs, 3), hart_id: byte_at(vs, 4) }
}

fn build_notify_wait(vs: &Vec<Value>) -> (r: OwnedFrame)
    requires
        kinds_match(views(vs@), 16),
    ensures
        r@ == frame_of(16, views(vs@)),
{
    proof {
        assert(kind_matches(views(vs@)[0], schema(16)[0]));
        assert(kind_matches(views(vs@)[1], schema(16)[1]));
        assert(kind_matches(views(vs@)[2], schema(16)[2]));
        assert(kind_matches(views(vs@)[3], schema(16)[3]));
        assert(kind_matches(views(vs@)[4], schema(16)[4]));
    }
    OwnedFrame::NotifyWait { notification: small_at(vs, 0), bits: wide_at(vs, 1), to_task: small_at(vs, 2), t: wide_at(vs, 3), hart_id: byte_at(vs, 4) }
}

fn build_audio_x_run(vs: &Vec<Value>) -> (r: OwnedFrame)
    requires
        kinds_match(views(vs@), 17),
    ensures
        r@ == frame_of(17, views(vs@)),
{
    proof {
        assert(kind_matches(views(vs@)[0], schema(17)[0]));
        assert(kind_matches(views(vs@)[1], schema(17)[1]));
    }
    OwnedFrame::AudioXRun { t: wide_at(vs, 0), hart_id: byte_at(vs, 1) }
}

fn build_build_info(vs: &Vec<Value>) -> (r: OwnedFrame)
    requires
        kinds_match(views(vs@), 18),
    ensures
        r@ == frame_of(18, views(vs@)),
{
    proof {
        assert(kind_matches(views(vs@)[0], schema(18)[0]));
        assert(kind_matches(views(vs@)[1], schema(18)[1]));
    }
    OwnedFrame::BuildInfo { kernel_profile: text_at(vs, 0), userspace_opt: text_at(vs, 1) }
}

/// Put a frame together from its tag and field values.
fn build(tag: u32, vs: &Vec<Value>) -> (r: OwnedFrame)
    requires
        tag < FRAME_KINDS,
        kinds_match(views(vs@), tag),
    ensures
        r@ == frame_of(tag, views(vs@)),
{
    if tag == 0 {
        build_hello(vs)
    } else if tag == 1 {
        build_span_start(vs)
    } else if tag == 2 {
        build_span_end(vs)
    } else if tag == 3 {
        build_event(vs)
    } else if tag == 4 {
        build_metric(vs)
    } else if tag == 5 {
        build_dropped(vs)
    } else if tag == 6 {
        build_string_register(vs)
    } else if tag == 7 {
        build_metric_register(vs)
    } else if tag == 8 {
        build_thread_register(vs)
    } else if tag == 9 {
        build_context_switch(vs)
    } else if tag == 10 {
        build_hart_register(vs)
    } else if tag == 11 {
        build_cap_event(vs)
    } else if tag == 12 {
        build_syscall_refused(vs)
    } else if tag == 13 {
        build_log(vs)
    } else if tag == 14 {
        build_message(vs)
    } else if tag == 15 {
        build_notify_signal(vs)
    } else if tag == 16 {
        build_notify_wait(vs)
    } else if tag == 17 {
        build_audio_x_run(vs)
    } else {
        build_build_info(vs)
    }
}

/// Decode the frame at the front of `s`; bytes after it are left alone.
pub fn decode_frame(s: &[u8]) -> (r: Option<OwnedFrame>)
    ensures
        match parse_frame(s@) {
            Some(f) => r is Some && (r->0)@ == f,
            None => r is None,
        },
{
    match take_u32(s) {
        None => None,
        Some((tag, rest)) => {
            if tag >= FRAME_KINDS {
                return None;
            }
            let fs: Vec<Field> = fields(tag);
            match take_values(rest, &fs) {
                None => None,
                Some(vs) => {
                    proof {
                        lemma_parsed_kinds(rest@, schema(tag));
                    }
                    Some(build(tag, &vs))
                },
            }
        },
    }
}

/// A `0x00`-delimited chunk failed to decode. Carries how many bytes to skip (through the
/// terminator) so that the caller can resync at the next frame boundary.
#[derive(Debug, Clone, Copy, PartialEq, Eq, Structural)]
pub struct DecodeError {
    /// Bytes to advance past the bad frame, its terminator included.
    pub consumed: usize,
}

/// The frame that a chunk between two zeros holds, if it decodes.
pub open spec fn chunk_frame(chunk: Seq<u8>) -> Option<FrameState> {
    match unstuffed(chunk) {
        Some(body) => parse_frame(body),
        None => None,
    }
}

/// Try to decode one framed frame from the front of `buf`, returning it in owned form plus
/// the number of bytes it took, its `0x00` terminator included.
///
/// `Ok(None)` means that the buffer holds no terminator yet. `Err` means that a chunk was
/// there but did not decode: the caller drops it and goes on from the byte after its
/// terminator.
pub fn try_decode_frame(buf: &[u8]) -> (r: Result<Option<(OwnedFrame, usize)>, DecodeError>)
    ensures
        match zero_at(buf@, 0) {
            None => r matches Ok(None),
            Some(z) => match chunk_frame(buf@.take(z)) {
                Some(f) => r matches Ok(Some((g, n))) && g@ == f && n == z + 1,
                None => r == Err::<Option<(OwnedFrame, usize)>, DecodeError>(
                    DecodeError { consumed: (z + 1) as usize },
                ),
            },
        },
        match r {
            Ok(Some((_, n))) => 0 < n <= buf@.len(),
            Ok(None) => true,
            Err(e) => 0 < e.consumed <= buf@.len(),
        },
{
    let zero: usize = match find_zero(buf, 0) {
        Some(z) => z,
        None => {
            return Ok(None);
        },
    };
    let consumed: usize = zero + 1;
    let chunk: &[u8] = vstd::slice::slice_subrange(buf, 0, zero);
    proof {
        assert(chunk@ =~= buf@.take(zero as int));
    }
    match unstuff(chunk) {
        None => Err(DecodeError { consumed }),
        Some(body) => match decode_frame(body.as_slice()) {
            None => Err(DecodeError { consumed }),
            Some(frame) => Ok(Some((frame, consumed))),
        },
    }
}

// Streams.

/// The chunks of a stream in order, each as the frame it holds, or `None` where it does not
/// decode.
pub open spec fn chunks(s: Seq<u8>) -> Seq<Option<FrameState>>
    decreases s.len(),
    via chunks_decreases
{
    match zero_at(s, 0) {
        None => Seq::empty(),
        Some(z) => seq![chunk_frame(s.take(z))] + chunks(s.skip(z + 1)),
    }
}

#[via_fn]
proof fn chunks_decreases(s: Seq<u8>) {
    lemma_zero_at(s, 0);
}

/// What is left of a stream after its last whole chunk.
pub open spec fn unfinished(s: Seq<u8>) -> Seq<u8>
    decreases s.len(),
    via unfinished_decreases
{
    match zero_at(s, 0) {
        None => s,
        Some(z) => unfinished(s.skip(z + 1)),
    }
}

#[via_fn]
proof fn unfinished_decreases(s: Seq<u8>) {
    lemma_zero_at(s, 0);
}

proof fn lemma_zero_at_append(s: Seq<u8>, t: Seq<u8>, at: int)
    requires
        0 <= at <= s.len(),
        zero_at(s, at) is Some,
    ensures
        zero_at(s + t, at) == zero_at(s, at),
    decreases s.len() - at,
{
    if at < s.len() {
        assert((s + t)[at] == s[at]);
        if s[at] != 0 {
            lemma_zero_at_append(s, t, at + 1);
        }
    }
}

/// Where a stream is cut does not matter: decoding a first part, keeping what is unfinished,
/// and decoding that with the second part gives every chunk of the whole, in order.
pub proof fn law_a_stream_may_be_cut_anywhere(a: Seq<u8>, b: Seq<u8>)
    ensures
        chunks(a + b) == chunks(a) + chunks(unfinished(a) + b),
        unfinished(a + b) == unfinished(unfinished(a) + b),
    decreases a.len(),
{
    lemma_zero_at(a, 0);
    match zero_at(a, 0) {
        None => {
            assert(chunks(a) + chunks(a + b) =~= chunks(a + b));
        },
        Some(z) => {
            lemma_zero_at_append(a, b, 0);
            let rest = a.skip(z + 1);
            assert((a + b).take(z) =~= a.take(z));
            assert((a + b).skip(z + 1) =~= rest + b);
            law_a_stream_may_be_cut_anywhere(rest, b);
            let c = seq![chunk_frame(a.take(z))];
            assert(c + (chunks(rest) + chunks(unfinished(rest) + b)) =~= (c + chunks(rest))
                + chunks(unfinished(rest) + b));
        },
    }
}

/// What is held back is the tail of the stream after its last zero, and no more.
pub proof fn law_only_the_tail_is_held(s: Seq<u8>)
    ensures
        zero_at(unfinished(s), 0) is None,
        unfinished(s).len() <= s.len(),
        unfinished(s) == s.skip(s.len() - unfinished(s).len()),
    decreases s.len(),
{
    lemma_zero_at(s, 0);
    match zero_at(s, 0) {
        None => {
            assert(s.skip(0) =~= s);
        },
        Some(z) => {
            let rest = s.skip(z + 1);
            law_only_the_tail_is_held(rest);
            assert(rest.skip(rest.len() - unfinished(rest).len()) =~= s.skip(
                s.len() - unfinished(rest).len(),
            ));
        },
    }
}

/// A sent frame is one chunk that decodes to it, whatever comes after.
pub proof fn law_a_sent_frame_is_received(f: FrameState, more: Seq<u8>)
    requires
        crate::protocol::encodable(f),
    ensures
        chunks(crate::protocol::sent(f) + more) == seq![Some(f)] + chunks(more),
        unfinished(crate::protocol::sent(f) + more) == unfinished(more),
{
    let body = crate::protocol::frame_bytes(f);
    let w = crate::wire::stuffed(body);
    crate::wire::law_stuffing_is_undone(body);
    let s = crate::protocol::sent(f) + more;
    assert(s =~= w + (seq![0u8] + more));
    lemma_first_zero(w, seq![0u8] + more, 0);
    assert(s.take(w.len() as int) =~= w);
    assert(s.skip((w.len() + 1) as int) =~= more);
    crate::protocol::law_a_frame_is_read_back(f, Seq::empty());
    assert(body + Seq::<u8>::empty() =~= body);
}

proof fn lemma_first_zero(w: Seq<u8>, t: Seq<u8>, at: int)
    requires
        0 <= at <= w.len(),
        forall|i: int| 0 <= i < w.len() ==> #[trigger] w[i] != 0,
        t.len() > 0,
        t[0] == 0,
    ensures
        zero_at(w + t, at) == Some(w.len() as int),
    decreases w.len() - at,
{
    if at < w.len() {
        assert((w + t)[at] == w[at]);
        lemma_first_zero(w, t, at + 1);
    } else {
        assert((w + t)[at] == t[0]);
    }
}

/// The frames among chunks.
pub open spec fn good(cs: Seq<Option<FrameState>>) -> Seq<FrameState>
    decreases cs.len(),
{
    if cs.len() == 0 {
        Seq::empty()
    } else {
        match cs[0] {
            Some(f) => seq![f] + good(cs.drop_first()),
            None => good(cs.drop_first()),
        }
    }
}

/// How many chunks did not decode.
pub open spec fn bad(cs: Seq<Option<FrameState>>) -> nat
    decreases cs.len(),
{
    if cs.len() == 0 {
        0
    } else {
        bad(cs.drop_first()) + if cs[0] is None {
            1nat
        } else {
            0
        }
    }
}

/// The chunks before the first that does not decode.
pub open spec fn until_bad(cs: Seq<Option<FrameState>>) -> Seq<FrameState>
    decreases cs.len(),
{
    if cs.len() == 0 || cs[0] is None {
        Seq::empty()
    } else {
        seq![cs[0]->0] + until_bad(cs.drop_first())
    }
}

/// How many bytes the first chunk that does not decode takes, its terminator included, or
/// `None` where every chunk decodes.
pub open spec fn first_bad(s: Seq<u8>) -> Option<nat>
    decreases s.len(),
    via first_bad_decreases
{
    match zero_at(s, 0) {
        None => None,
        Some(z) => if chunk_frame(s.take(z)) is None {
            Some((z + 1) as nat)
        } else {
            first_bad(s.skip(z + 1))
        },
    }
}

#[via_fn]
proof fn first_bad_decreases(s: Seq<u8>) {
    lemma_zero_at(s, 0);
}

/// How the stream decoder reacts to a chunk that fails to decode: a property of the
/// transport.
#[derive(Debug, Clone, Copy, PartialEq, Eq, Structural)]
pub enum OnDecodeError {
    /// Stop. A lossless transport never drops bytes, so an undecodable frame is a bug.
    Fail,
    /// Skip the chunk, resync at the next `0x00`, and keep going, counting it. A lossy
    /// transport drops bytes; one corrupt frame must not end the stream.
    Resync,
}

/// What a run of the stream decoder observed.
#[derive(Debug, Clone, Copy, PartialEq, Eq, Structural)]
pub struct DecodeSummary {
    /// Frames skipped because they failed to decode.
    pub resyncs: u64,
}

impl Default for DecodeSummary {
    fn default() -> (r: Self)
        ensures
            r.resyncs == 0,
    {
        DecodeSummary { resyncs: 0 }
    }
}

/// What a list of frames says.
pub open spec fn frame_views(fs: Seq<OwnedFrame>) -> Seq<FrameState> {
    Seq::new(fs.len(), |i: int| fs[i]@)
}

/// An incremental decoder over a byte source that hands out arbitrary pieces.
pub struct StreamDecoder {
    pending: Vec<u8>,
    on_error: OnDecodeError,
    summary: DecodeSummary,
}

/// What a [`StreamDecoder`] holds.
pub struct StreamState {
    pub pending: Seq<u8>,
    pub on_error: OnDecodeError,
    pub resyncs: u64,
}

impl View for StreamDecoder {
    type V = StreamState;

    closed spec fn view(&self) -> StreamState {
        StreamState {
            pending: self.pending@,
            on_error: self.on_error,
            resyncs: self.summary.resyncs,
        }
    }
}

impl StreamDecoder {
    pub fn new(on_error: OnDecodeError) -> (r: Self)
        ensures
            r@ == (StreamState { pending: Seq::empty(), on_error, resyncs: 0 }),
    {
        StreamDecoder { pending: Vec::new(), on_error, summary: DecodeSummary { resyncs: 0 } }
    }

    /// What was observed so far.
    pub fn summary(&self) -> (r: DecodeSummary)
        ensures
            r.resyncs == self@.resyncs,
    {
        self.summary
    }

    /// Take the next piece of the stream: the frames that are now complete, in order, and
    /// whether decoding goes on. It stops at the first chunk that does not decode, under
    /// [`OnDecodeError::Fail`], and holds nothing of what came with it.
    pub fn feed(&mut self, bytes: &[u8]) -> (r: (Vec<OwnedFrame>, Result<(), DecodeError>))
        ensures
            final(self)@.on_error == old(self)@.on_error,
            ({
                let all = old(self)@.pending + bytes@;
                let cs = chunks(all);
                match old(self)@.on_error {
                    OnDecodeError::Resync => {
                        &&& r.1 is Ok
                        &&& frame_views(r.0@) == good(cs)
                        &&& final(self)@.resyncs == (old(self)@.resyncs + bad(cs))
                            % 0x1_0000_0000_0000_0000
                        &&& final(self)@.pending == unfinished(all)
                    },
                    OnDecodeError::Fail => {
                        &&& r.1 is Ok <==> bad(cs) == 0
                        &&& frame_views(r.0@) == until_bad(cs)
                        &&& final(self)@.resyncs == old(self)@.resyncs
                        &&& match first_bad(all) {
                            None => r.1 is Ok && final(self)@.pending == unfinished(all),
                            Some(n) => {
                                &&& r.1 == Err::<(), DecodeError>(
                                    DecodeError { consumed: n as usize },
                                )
                                &&& final(self)@.pending == Seq::<u8>::empty()
                            },
                        }
                    },
                }
            }),
    {
        let mut all: Vec<u8> = Vec::new();
        core::mem::swap(&mut all, &mut self.pending);
        all.extend_from_slice(bytes);
        let ghost whole = all@;
        proof {
            assert(whole =~= old(self)@.pending + bytes@);
        }
        let mut frames: Vec<OwnedFrame> = Vec::new();
        let mut at: usize = 0;
        let ghost mut skipped: nat = 0;
        proof {
            assert(whole.skip(0) =~= whole);
            assert(frame_views(frames@) + good(chunks(whole)) =~= good(chunks(whole)));
            assert(frame_views(frames@) + until_bad(chunks(whole)) =~= until_bad(chunks(whole)));
        }
        loop
            invariant_except_break
                whole == old(self)@.pending + bytes@,
                all@ == whole,
                at <= whole.len(),
                self.on_error == old(self)@.on_error,
                self.on_error == OnDecodeError::Fail ==> skipped == 0,
                self.pending@.len() == 0,
                skipped == 0 ==> first_bad(whole) == first_bad(whole.skip(at as int)),
                self.summary.resyncs == (old(self)@.resyncs + skipped) % 0x1_0000_0000_0000_0000,
                good(chunks(whole)) == frame_views(frames@) + good(chunks(whole.skip(at as int))),
                skipped == 0 ==> until_bad(chunks(whole)) == frame_views(frames@) + until_bad(
                    chunks(whole.skip(at as int)),
                ),
                bad(chunks(whole)) == skipped + bad(chunks(whole.skip(at as int))),
                unfinished(whole) == unfinished(whole.skip(at as int)),
            ensures
                whole == old(self)@.pending + bytes@,
                all@ == whole,
                at <= whole.len(),
                self.on_error == old(self)@.on_error,
                self.on_error == OnDecodeError::Fail ==> bad(chunks(whole)) == 0,
                self.on_error == OnDecodeError::Fail ==> first_bad(whole) is None,
                self.on_error == OnDecodeError::Fail ==> until_bad(chunks(whole)) == frame_views(
                    frames@,
                ),
                self.summary.resyncs == (old(self)@.resyncs + bad(chunks(whole)))
                    % 0x1_0000_0000_0000_0000,
                good(chunks(whole)) == frame_views(frames@),
                unfinished(whole) == whole.skip(at as int),
            decreases whole.len() - at,
        {
            let rest: &[u8] = vstd::slice::slice_subrange(all.as_slice(), at, all.len());
            let ghost here = whole.skip(at as int);
            let ghost cs = chunks(here);
            proof {
                assert(rest@ =~= here);
                lemma_zero_at(here, 0);
            }
            match try_decode_frame(rest) {
                Ok(None) => {
                    proof {
                        assert(frame_views(frames@) + Seq::<FrameState>::empty() =~= frame_views(
                            frames@,
                        ));
                    }
                    break;
                },
                Ok(Some((frame, consumed))) => {
                    let ghost before = frames@;
                    let ghost f = frame@;
                    frames.push(frame);
                    proof {
                        let next = here.skip(consumed as int);
                        assert(next =~= whole.skip(at + consumed));
                        assert(cs =~= seq![Some(f)] + chunks(next));
                        assert(cs.drop_first() =~= chunks(next));
                        assert(frame_views(frames@) =~= frame_views(before).push(f));
                        assert(frame_views(before) + (seq![f] + good(chunks(next)))
                            =~= frame_views(frames@) + good(chunks(next)));
                        assert(frame_views(before) + (seq![f] + until_bad(chunks(next)))
                            =~= frame_views(frames@) + until_bad(chunks(next)));
                    }
                    at += consumed;
                },
                Err(e) => {
                    proof {
                        let next = here.skip(e.consumed as int);
                        assert(next =~= whole.skip(at + e.consumed));
                        assert(cs =~= seq![None::<FrameState>] + chunks(next));
                        assert(cs.drop_first() =~= chunks(next));
                    }
                    match self.on_error {
                        OnDecodeError::Fail => {
                            proof {
                                assert(frame_views(frames@) + Seq::<FrameState>::empty()
                                    =~= frame_views(frames@));
                                assert(self.pending@ =~= Seq::<u8>::empty());
                            }
                            return (frames, Err(e));
                        },
                        OnDecodeError::Resync => {
                            self.summary.resyncs = self.summary.resyncs.wrapping_add(1);
                            proof {
                                skipped = skipped + 1;
                            }
                        },
                    }
                    at += e.consumed;
                },
            }
        }
        let tail: &[u8] = vstd::slice::slice_subrange(all.as_slice(), at, all.len());
        self.pending = vstd::slice::slice_to_vec(tail);
        proof {
            assert(self.pending@ =~= whole.skip(at as int));
        }
        (frames, Ok(()))
    }
}

/// Decode a whole stream: the frames before it ended, or before the first that did not
/// decode under [`OnDecodeError::Fail`], and what was observed.
pub fn decode_stream(stream: &[u8], on_error: OnDecodeError) -> (r: (
    Vec<OwnedFrame>,
    Result<DecodeSummary, DecodeError>,
))
    ensures
        match on_error {
            OnDecodeError::Resync => {
                &&& frame_views(r.0@) == good(chunks(stream@))
                &&& r.1 matches Ok(s) && s.resyncs == bad(chunks(stream@))
                    % 0x1_0000_0000_0000_0000
            },
            OnDecodeError::Fail => {
                &&& frame_views(r.0@) == until_bad(chunks(stream@))
                &&& r.1 is Ok <==> bad(chunks(stream@)) == 0
                &&& match first_bad(stream@) {
                    None => r.1 matches Ok(s) && s.resyncs == 0,
                    Some(n) => r.1 == Err::<DecodeSummary, DecodeError>(
                        DecodeError { consumed: n as usize },
                    ),
                }
            },
        },
{
    let mut decoder: StreamDecoder = StreamDecoder::new(on_error);
    proof {
        assert(Seq::<u8>::empty() + stream@ =~= stream@);
    }
    let (frames, done) = decoder.feed(stream);
    match done {
        Ok(()) => (frames, Ok(decoder.summary())),
        Err(e) => (frames, Err(e)),
    }
}

/// The frames among chunks are those that decode, in order; the rest are counted. Decoding that
/// stops at the first that does not gives those before it.
pub proof fn law_chunks_are_told_apart(c: Option<FrameState>, cs: Seq<Option<FrameState>>)
    ensures
        ({
            let all = seq![c] + cs;
            &&& good(Seq::empty()) == Seq::<FrameState>::empty()
            &&& bad(Seq::empty()) == 0
            &&& until_bad(Seq::empty()) == Seq::<FrameState>::empty()
            &&& c matches Some(f) ==> good(all) == seq![f] + good(cs) && bad(all) == bad(cs)
                && until_bad(all) == seq![f] + until_bad(cs)
            &&& c is None ==> good(all) == good(cs) && bad(all) == bad(cs) + 1 && until_bad(all)
                == Seq::<FrameState>::empty()
        }),
{
    assert((seq![c] + cs).drop_first() =~= cs);
}

/// Frames as they are sent, one after the other.
pub open spec fn sent_all(fs: Seq<FrameState>) -> Seq<u8>
    decreases fs.len(),
{
    if fs.len() == 0 {
        Seq::empty()
    } else {
        crate::protocol::sent(fs[0]) + sent_all(fs.drop_first())
    }
}

/// A stream of frames is decoded to them, whatever is done about chunks that do not decode, and
/// nothing is left of it.
pub proof fn law_a_stream_of_frames_is_decoded(fs: Seq<FrameState>)
    requires
        forall|i: int| 0 <= i < fs.len() ==> crate::protocol::encodable(#[trigger] fs[i]),
    ensures
        good(chunks(sent_all(fs))) == fs,
        until_bad(chunks(sent_all(fs))) == fs,
        bad(chunks(sent_all(fs))) == 0,
        first_bad(sent_all(fs)) is None,
        unfinished(sent_all(fs)) == Seq::<u8>::empty(),
    decreases fs.len(),
{
    if fs.len() == 0 {
        assert(chunks(Seq::<u8>::empty()) == Seq::<Option<FrameState>>::empty());
        assert(good(chunks(sent_all(fs))) =~= fs);
        assert(until_bad(chunks(sent_all(fs))) =~= fs);
    } else {
        let rest = fs.drop_first();
        assert forall|i: int| 0 <= i < rest.len() implies crate::protocol::encodable(
            #[trigger] rest[i],
        ) by {
            assert(rest[i] == fs[i + 1]);
        }
        law_a_stream_of_frames_is_decoded(rest);
        let more = sent_all(rest);
        law_a_sent_frame_is_received(fs[0], more);
        law_chunks_are_told_apart(Some(fs[0]), chunks(more));
        assert(seq![fs[0]] + rest =~= fs);
        lemma_no_bad(sent_all(fs));
    }
}

/// Where no chunk fails to decode there is no first one.
proof fn lemma_no_bad(s: Seq<u8>)
    requires
        bad(chunks(s)) == 0,
    ensures
        first_bad(s) is None,
    decreases s.len(),
{
    lemma_zero_at(s, 0);
    if let Some(z) = zero_at(s, 0) {
        let rest = s.skip(z + 1);
        law_chunks_are_told_apart(chunk_frame(s.take(z)), chunks(rest));
        lemma_no_bad(rest);
    }
}

} // verus!
