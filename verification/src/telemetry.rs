//! Turning the guest's console byte stream into something a page can show: frames straddle
//! drain boundaries, so the tail of a drain is kept; names arrive separately from their uses,
//! so they are collected and resolved on the way out.

use vstd::prelude::*;
use vstd::string::*;
use crate::names::{name_in, Names};
use crate::protocol::{FrameState, StringId};
use crate::series::{Series, SeriesState, SeriesStore};
use crate::store::{FrameStore, StoreState};
use crate::stream::{chunks, law_a_stream_may_be_cut_anywhere, try_decode_frame, unfinished, OwnedFrame};
use crate::wire::lemma_zero_at;

verus! {

/// How many stream frames a live tab keeps.
pub const FRAME_WINDOW: usize = 4_000;

/// One decoded frame, flattened into the handful of fields a page renders. Deliberately
/// lossy: what kind of thing happened, what it was called, and when.
#[derive(Debug, Clone, PartialEq, Eq)]
pub struct FrameView {
    /// The variant's name, such as `"SpanStart"`. A contract with the page.
    pub kind: &'static str,
    /// The interned name. `None` when the frame has no name, or when its id has not been
    /// registered yet, so that the page can tell "unnamed" from a name it should render.
    pub name: Option<String>,
    /// Guest timestamp, for frames that carry one.
    pub t: Option<u64>,
    /// A metric's value, or how many frames were lost.
    pub value: Option<i64>,
}

/// What a [`FrameView`] says.
pub struct ViewState {
    pub kind: Seq<char>,
    pub name: Option<Seq<char>>,
    pub t: Option<u64>,
    pub value: Option<i64>,
}

impl View for FrameView {
    type V = ViewState;

    open spec fn view(&self) -> ViewState {
        ViewState {
            kind: self.kind@,
            name: match self.name {
                Some(s) => Some(s@),
                None => None,
            },
            t: self.t,
            value: self.value,
        }
    }
}

/// A frame's kind, the id of its name, its time and its value.
pub open spec fn parts(f: FrameState) -> (
    Seq<char>,
    Option<StringId>,
    Option<u64>,
    Option<i64>,
) {
    match f {
        FrameState::Hello { .. } => ("Hello"@, None, None, None),
        FrameState::SpanStart { name_id, t, .. } => ("SpanStart"@, Some(name_id), Some(t), None),
        FrameState::SpanEnd { t, .. } => ("SpanEnd"@, None, Some(t), None),
        FrameState::Event { name_id, t, .. } => ("Event"@, Some(name_id), Some(t), None),
        FrameState::Metric { name_id, t, value, .. } => ("Metric"@, Some(name_id), Some(t), Some(value)),
        FrameState::Dropped { count, .. } => ("Dropped"@, None, None, Some(count as i64)),
        FrameState::StringRegister { id, .. } => ("StringRegister"@, Some(id), None, None),
        FrameState::MetricRegister { name_id, .. } => ("MetricRegister"@, Some(name_id), None, None),
        FrameState::ThreadRegister { .. } => ("ThreadRegister"@, None, None, None),
        FrameState::ContextSwitch { t, .. } => ("ContextSwitch"@, None, Some(t), None),
        FrameState::HartRegister { .. } => ("HartRegister"@, None, None, None),
        FrameState::CapEvent { t, .. } => ("CapEvent"@, None, Some(t), None),
        FrameState::SyscallRefused { t, .. } => ("SyscallRefused"@, None, Some(t), None),
        FrameState::Log { t, .. } => ("Log"@, None, Some(t), None),
        FrameState::Message { t, .. } => ("Message"@, None, Some(t), None),
        FrameState::NotifySignal { t, .. } => ("NotifySignal"@, None, Some(t), None),
        FrameState::NotifyWait { t, .. } => ("NotifyWait"@, None, Some(t), None),
        FrameState::AudioXRun { t, .. } => ("AudioXRun"@, None, Some(t), None),
        FrameState::BuildInfo { .. } => ("BuildInfo"@, None, None, None),
    }
}

/// The name of a frame: what a registration registers, or what the table has for its id.
pub open spec fn frame_name(f: FrameState, names: Map<u32, Seq<char>>) -> Option<Seq<char>> {
    match f {
        FrameState::StringRegister { value, .. } => Some(value),
        _ => match parts(f).1 {
            Some(id) => name_in(names, id),
            None => None,
        },
    }
}

/// A frame as a page renders it.
pub open spec fn view_of(f: FrameState, names: Map<u32, Seq<char>>) -> ViewState {
    let (kind, _, t, value) = parts(f);
    ViewState { kind, name: frame_name(f, names), t, value }
}

impl FrameView {
    /// Project `frame`, resolving any interned name through `names`.
    #[must_use]
    pub fn of(frame: &OwnedFrame, names: &Names) -> (r: Self)
        ensures
            r@ == view_of(frame@, names@),
    {
        let (kind, name_id, t, value): (
            &'static str,
            Option<StringId>,
            Option<u64>,
            Option<i64>,
        ) = match *frame {
            OwnedFrame::Hello { .. } => ("Hello", None, None, None),
            OwnedFrame::SpanStart { name_id, t, .. } => ("SpanStart", Some(name_id), Some(t), None),
            OwnedFrame::SpanEnd { t, .. } => ("SpanEnd", None, Some(t), None),
            OwnedFrame::Event { name_id, t, .. } => ("Event", Some(name_id), Some(t), None),
            OwnedFrame::Metric { name_id, t, value, .. } => ("Metric", Some(name_id), Some(t), Some(value)),
            OwnedFrame::Dropped { count, .. } => ("Dropped", None, None, Some(count as i64)),
            OwnedFrame::StringRegister { id, .. } => ("StringRegister", Some(id), None, None),
            OwnedFrame::MetricRegister { name_id, .. } => ("MetricRegister", Some(name_id), None, None),
            OwnedFrame::ThreadRegister { .. } => ("ThreadRegister", None, None, None),
            OwnedFrame::ContextSwitch { t, .. } => ("ContextSwitch", None, Some(t), None),
            OwnedFrame::HartRegister { .. } => ("HartRegister", None, None, None),
            OwnedFrame::CapEvent { t, .. } => ("CapEvent", None, Some(t), None),
            OwnedFrame::SyscallRefused { t, .. } => ("SyscallRefused", None, Some(t), None),
            OwnedFrame::Log { t, .. } => ("Log", None, Some(t), None),
            OwnedFrame::Message { t, .. } => ("Message", None, Some(t), None),
            OwnedFrame::NotifySignal { t, .. } => ("NotifySignal", None, Some(t), None),
            OwnedFrame::NotifyWait { t, .. } => ("NotifyWait", None, Some(t), None),
            OwnedFrame::AudioXRun { t, .. } => ("AudioXRun", None, Some(t), None),
            OwnedFrame::BuildInfo { .. } => ("BuildInfo", None, None, None),
        };
        // A thread, a log line or a build carries its own text rather than an interned id;
        // those stay unnamed here.
        let name: Option<String> = match frame {
            OwnedFrame::StringRegister { value, .. } => Some(value.clone()),
            _ => match name_id {
                Some(id) => names.resolve(id),
                None => None,
            },
        };
        Self { kind, name, t, value }
    }
}

/// What a [`Decoder`] holds.
pub struct DecoderState {
    pub pending: Seq<u8>,
    pub names: Map<u32, Seq<char>>,
    pub store: StoreState,
    pub series: SeriesState,
}

impl DecoderState {
    /// Nothing received.
    pub open spec fn empty() -> Self {
        DecoderState {
            pending: Seq::empty(),
            names: Map::empty(),
            store: StoreState::empty(FRAME_WINDOW as nat),
            series: SeriesState::empty(),
        }
    }

    /// The state after one frame: a registration is entered first, so that it is known to
    /// the frame's own view.
    pub open spec fn take(self, f: FrameState) -> Self {
        let names = match f {
            FrameState::StringRegister { id, value } => self.names.insert(id.0, value),
            _ => self.names,
        };
        DecoderState {
            names,
            store: self.store.push(f),
            series: self.series.observe(f, names),
            ..self
        }
    }

    /// The state after these chunks: those that did not decode are skipped.
    pub open spec fn take_all(self, cs: Seq<Option<FrameState>>) -> Self
        decreases cs.len(),
    {
        if cs.len() == 0 {
            self
        } else {
            match cs[0] {
                Some(f) => self.take(f).take_all(cs.skip(1)),
                None => self.take_all(cs.skip(1)),
            }
        }
    }

    /// The views of these chunks, in order.
    pub open spec fn views(self, cs: Seq<Option<FrameState>>) -> Seq<ViewState>
        decreases cs.len(),
    {
        if cs.len() == 0 {
            Seq::empty()
        } else {
            match cs[0] {
                Some(f) => seq![view_of(f, self.take(f).names)] + self.take(f).views(cs.skip(1)),
                None => self.views(cs.skip(1)),
            }
        }
    }

    /// The state after these bytes.
    pub open spec fn push(self, bytes: Seq<u8>) -> Self {
        DecoderState {
            pending: unfinished(self.pending + bytes),
            ..self.take_all(chunks(self.pending + bytes))
        }
    }

    /// The views of the frames that these bytes complete.
    pub open spec fn completed(self, bytes: Seq<u8>) -> Seq<ViewState> {
        self.views(chunks(self.pending + bytes))
    }
}

/// Accumulates console bytes and hands back whole frames.
#[derive(Debug)]
pub struct Decoder {
    /// Bytes received but not yet forming a whole frame.
    pending: Vec<u8>,
    names: Names,
    /// Decoded frames, kept for the views that read them as a whole.
    store: FrameStore,
    /// Metric samples, kept per metric.
    series: SeriesStore,
}

impl View for Decoder {
    type V = DecoderState;

    closed spec fn view(&self) -> DecoderState {
        DecoderState {
            pending: self.pending@,
            names: self.names@,
            store: self.store@,
            series: self.series@,
        }
    }
}

impl Default for Decoder {
    fn default() -> (r: Self)
        ensures
            r@ == DecoderState::empty(),
    {
        Self::new()
    }
}

/// The views of frame views.
pub open spec fn shown(vs: Seq<FrameView>) -> Seq<ViewState> {
    vs.map_values(|v: FrameView| v@)
}

impl Decoder {
    #[must_use]
    pub fn new() -> (r: Self)
        ensures
            r@ == DecoderState::empty(),
    {
        Self {
            pending: Vec::new(),
            names: Names::new(),
            store: FrameStore::new(FRAME_WINDOW),
            series: SeriesStore::new(),
        }
    }

    /// Every metric's history, in first-seen order.
    #[must_use]
    pub fn series(&self) -> (r: Vec<Series>)
        ensures
            r@.map_values(|s: Series| s@) == self@.series.series(),
    {
        self.series.series()
    }

    /// The frames retained so far, in arrival order.
    #[must_use]
    pub fn frames(&self) -> (r: Vec<OwnedFrame>)
        ensures
            crate::stream::frame_views(r@) == self@.store.frames(),
    {
        self.store.frames()
    }

    /// How many cumulative facts are being held.
    #[must_use]
    pub fn durable_len(&self) -> (r: usize)
        ensures
            r == self@.store.durable.len(),
    {
        self.store.durable_len()
    }

    /// How many bytes are held awaiting completion.
    #[must_use]
    pub fn held(&self) -> (r: usize)
        ensures
            r == self@.pending.len(),
    {
        self.pending.len()
    }

    /// Take one frame, and give its view.
    fn take(&mut self, frame: OwnedFrame) -> (r: FrameView)
        ensures
            final(self)@ == old(self)@.take(frame@),
            r@ == view_of(frame@, old(self)@.take(frame@).names),
    {
        // Registered before projecting, so that a registration and a frame citing it in the
        // same push resolve.
        match &frame {
            OwnedFrame::StringRegister { id, value } => {
                self.names.register(*id, value.as_str());
            },
            _ => {},
        }
        let view: FrameView = FrameView::of(&frame, &self.names);
        self.series.observe(&frame, &self.names);
        self.store.push(frame);
        view
    }

    /// Feed freshly drained bytes; get back every frame that is now complete, in wire order.
    /// An incomplete tail is retained for the next call. A chunk that fails to decode is
    /// skipped, and the stream resumes after its `0x00`.
    pub fn push(&mut self, bytes: &[u8]) -> (r: Vec<FrameView>)
        ensures
            final(self)@ == old(self)@.push(bytes@),
            shown(r@) == old(self)@.completed(bytes@),
    {
        let mut all: Vec<u8> = Vec::new();
        core::mem::swap(&mut all, &mut self.pending);
        all.extend_from_slice(bytes);
        let ghost whole = all@;
        let ghost start = DecoderState { pending: Seq::empty(), ..old(self)@ };
        let mut views: Vec<FrameView> = Vec::new();
        let mut at: usize = 0;
        proof {
            assert(whole =~= old(self)@.pending + bytes@);
            assert(whole.skip(0) =~= whole);
            assert(shown(views@) + start.views(chunks(whole)) =~= start.views(chunks(whole)));
            assert(self@.pending =~= Seq::empty());
        }
        loop
            invariant_except_break
                unfinished(whole) == unfinished(whole.skip(at as int)),
                start.take_all(chunks(whole)) == self@.take_all(chunks(whole.skip(at as int))),
                start.views(chunks(whole)) == shown(views@) + self@.views(
                    chunks(whole.skip(at as int)),
                ),
            invariant
                all@ == whole,
                at <= whole.len(),
            ensures
                unfinished(whole) == whole.skip(at as int),
                start.take_all(chunks(whole)) == self@,
                start.views(chunks(whole)) == shown(views@),
            decreases whole.len() - at,
        {
            let rest: &[u8] = vstd::slice::slice_subrange(all.as_slice(), at, all.len());
            let ghost here = whole.skip(at as int);
            let ghost cs = chunks(here);
            proof {
                assert(rest@ =~= here);
                lemma_zero_at(here, 0);
            }
            match try_decode_frame(rest) {
                // No terminator yet: the rest is an incomplete frame.
                Ok(None) => {
                    proof {
                        assert(shown(views@) + Seq::<ViewState>::empty() =~= shown(views@));
                    }
                    break;
                },
                Ok(Some((frame, consumed))) => {
                    let ghost f = frame@;
                    let ghost before = views@;
                    let ghost d = self@;
                    views.push(self.take(frame));
                    proof {
                        let next = here.skip(consumed as int);
                        assert(next =~= whole.skip(at + consumed));
                        assert(cs =~= seq![Some(f)] + chunks(next));
                        assert(cs.skip(1) =~= chunks(next));
                        let v = view_of(f, d.take(f).names);
                        assert(shown(views@) =~= shown(before).push(v));
                        assert(shown(before) + (seq![v] + self@.views(chunks(next))) =~= shown(
                            views@,
                        ) + self@.views(chunks(next)));
                    }
                    at += consumed;
                },
                // Undecodable chunk: skip past its terminator and carry on.
                Err(e) => {
                    proof {
                        let next = here.skip(e.consumed as int);
                        assert(next =~= whole.skip(at + e.consumed));
                        assert(cs =~= seq![None::<FrameState>] + chunks(next));
                        assert(cs.skip(1) =~= chunks(next));
                    }
                    at += e.consumed;
                },
            }
        }
        let tail: &[u8] = vstd::slice::slice_subrange(all.as_slice(), at, all.len());
        self.pending = vstd::slice::slice_to_vec(tail);
        proof {
            assert(self.pending@ =~= whole.skip(at as int));
            lemma_pending_apart(old(self)@, Seq::empty(), chunks(whole));
        }
        views
    }
}

/// Taking frames neither reads nor changes the bytes held.
proof fn lemma_pending_apart(d: DecoderState, pending: Seq<u8>, cs: Seq<Option<FrameState>>)
    ensures
        (DecoderState { pending, ..d }).take_all(cs) == (DecoderState {
            pending,
            ..d.take_all(cs)
        }),
        (DecoderState { pending, ..d }).views(cs) == d.views(cs),
    decreases cs.len(),
{
    if cs.len() > 0 {
        match cs[0] {
            Some(f) => lemma_pending_apart(d.take(f), pending, cs.skip(1)),
            None => lemma_pending_apart(d, pending, cs.skip(1)),
        }
    }
}

proof fn lemma_in_turn(d: DecoderState, a: Seq<Option<FrameState>>, b: Seq<Option<FrameState>>)
    ensures
        d.take_all(a + b) == d.take_all(a).take_all(b),
        d.views(a + b) == d.views(a) + d.take_all(a).views(b),
    decreases a.len(),
{
    if a.len() == 0 {
        assert(a + b =~= b);
        assert(d.views(a) + d.views(b) =~= d.views(b));
    } else {
        assert((a + b).skip(1) =~= a.skip(1) + b);
        match a[0] {
            Some(f) => {
                lemma_in_turn(d.take(f), a.skip(1), b);
                let v = seq![view_of(f, d.take(f).names)];
                assert(v + (d.take(f).views(a.skip(1)) + d.take(f).take_all(a.skip(1)).views(b))
                    =~= (v + d.take(f).views(a.skip(1))) + d.take(f).take_all(a.skip(1)).views(b));
            },
            None => {
                lemma_in_turn(d, a.skip(1), b);
            },
        }
    }
}

/// Where the stream is cut into pushes does not matter: two pushes leave the decoder as one
/// push of both would, and give the same views in the same order, each once.
pub proof fn law_pushes_may_be_cut_anywhere(d: DecoderState, a: Seq<u8>, b: Seq<u8>)
    ensures
        d.push(a).push(b) == d.push(a + b),
        d.completed(a) + d.push(a).completed(b) == d.completed(a + b),
{
    let x = d.pending + a;
    assert(x + b =~= d.pending + (a + b));
    law_a_stream_may_be_cut_anywhere(x, b);
    let next = chunks(unfinished(x) + b);
    lemma_in_turn(d, chunks(x), next);
    lemma_pending_apart(d.take_all(chunks(x)), unfinished(x), next);
}

/// A view names the frame's kind, and shows its time, the value of a sample or the number of
/// frames lost, and the name that was registered for it; a registration shows what it registers.
pub proof fn law_a_view_tells_of_its_frame(f: FrameState, names: Map<u32, Seq<char>>)
    ensures
        ({
            let v = view_of(f, names);
            match f {
                FrameState::Hello { .. } => v.kind == "Hello"@ && v.name is None && v.t is None && v.value is None,
                FrameState::SpanStart { name_id, t, .. } => v.kind == "SpanStart"@ && v.name == name_in(names, name_id) && v.t == Some(t) && v.value is None,
                FrameState::SpanEnd { t, .. } => v.kind == "SpanEnd"@ && v.name is None && v.t == Some(t) && v.value is None,
                FrameState::Event { name_id, t, .. } => v.kind == "Event"@ && v.name == name_in(names, name_id) && v.t == Some(t) && v.value is None,
                FrameState::Metric { name_id, t, value, .. } => v.kind == "Metric"@ && v.name == name_in(names, name_id) && v.t == Some(t) && v.value == Some(value as i64),
                FrameState::Dropped { count, .. } => v.kind == "Dropped"@ && v.name is None && v.t is None && v.value == Some(count as i64),
                FrameState::StringRegister { value, .. } => v.kind == "StringRegister"@ && v.name == Some(value) && v.t is None && v.value is None,
                FrameState::MetricRegister { name_id, .. } => v.kind == "MetricRegister"@ && v.name == name_in(names, name_id) && v.t is None && v.value is None,
                FrameState::ThreadRegister { .. } => v.kind == "ThreadRegister"@ && v.name is None && v.t is None && v.value is None,
                FrameState::ContextSwitch { t, .. } => v.kind == "ContextSwitch"@ && v.name is None && v.t == Some(t) && v.value is None,
                FrameState::HartRegister { .. } => v.kind == "HartRegister"@ && v.name is None && v.t is None && v.value is None,
                FrameState::CapEvent { t, .. } => v.kind == "CapEvent"@ && v.name is None && v.t == Some(t) && v.value is None,
                FrameState::SyscallRefused { t, .. } => v.kind == "SyscallRefused"@ && v.name is None && v.t == Some(t) && v.value is None,
                FrameState::Log { t, .. } => v.kind == "Log"@ && v.name is None && v.t == Some(t) && v.value is None,
                FrameState::Message { t, .. } => v.kind == "Message"@ && v.name is None && v.t == Some(t) && v.value is None,
                FrameState::NotifySignal { t, .. } => v.kind == "NotifySignal"@ && v.name is None && v.t == Some(t) && v.value is None,
                FrameState::NotifyWait { t, .. } => v.kind == "NotifyWait"@ && v.name is None && v.t == Some(t) && v.value is None,
                FrameState::AudioXRun { t, .. } => v.kind == "AudioXRun"@ && v.name is None && v.t == Some(t) && v.value is None,
                FrameState::BuildInfo { .. } => v.kind == "BuildInfo"@ && v.name is None && v.t is None && v.value is None,
            }
        }),
{
}

/// A registration is known to its own view and to those that follow, and leaves the other names.
pub proof fn law_a_registration_is_known(
    d: DecoderState,
    id: StringId,
    value: Seq<char>,
    other: StringId,
)
    ensures
        ({
            let names = d.take(FrameState::StringRegister { id, value }).names;
            &&& name_in(names, id) == Some(value)
            &&& other != id ==> name_in(names, other) == name_in(d.names, other)
        }),
{
}

/// A frame that arrives is shown, kept, and counted into its series.
pub proof fn law_a_received_frame_is_taken(d: DecoderState, f: FrameState)
    requires
        crate::protocol::encodable(f),
        d.pending.len() == 0,
    ensures
        ({
            let bytes = crate::protocol::sent(f);
            let after = d.push(bytes);
            &&& d.completed(bytes) == seq![view_of(f, after.names)]
            &&& after.pending.len() == 0
            &&& after.store == d.store.push(f)
            &&& after.series == d.series.observe(f, after.names)
        }),
{
    let bytes = crate::protocol::sent(f);
    let none = Seq::<u8>::empty();
    crate::stream::law_a_sent_frame_is_received(f, none);
    assert(d.pending + bytes =~= bytes + none);
    assert(chunks(none) =~= Seq::<Option<FrameState>>::empty());
    let cs = seq![Some(f)] + chunks(none);
    assert(cs =~= seq![Some(f)]);
    assert(cs.skip(1) =~= Seq::<Option<FrameState>>::empty());
    assert(d.take(f).take_all(cs.skip(1)) == d.take(f));
    assert(d.take(f).views(cs.skip(1)) == Seq::<ViewState>::empty());
    assert(d.completed(bytes) =~= seq![view_of(f, d.take(f).names)]);
}

} // verus!
