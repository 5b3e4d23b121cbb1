//! Keeping the frames the views need, and only those. Registrations and lifecycle events are
//! cumulative facts and are kept; the rest is a stream, of which a recent window is kept.

use std::collections::VecDeque;
use vstd::prelude::*;
use crate::protocol::{CapEventKind, FrameState};
use crate::stream::OwnedFrame;

verus! {

/// How long a frame is worth keeping.
#[derive(Debug, Clone, Copy, PartialEq, Eq, Structural)]
pub enum Retention {
    /// A cumulative fact. Dropping it changes what the remaining frames mean.
    Durable,
    /// Part of a stream. The views built from it are about the recent past.
    Windowed,
}

/// How long a frame is worth keeping.
pub open spec fn retention(f: FrameState) -> Retention {
    match f {
        FrameState::Hello { .. }
        | FrameState::StringRegister { .. }
        | FrameState::MetricRegister { .. }
        | FrameState::ThreadRegister { .. }
        | FrameState::HartRegister { .. }
        | FrameState::BuildInfo { .. }
        | FrameState::CapEvent { .. } => Retention::Durable,
        _ => Retention::Windowed,
    }
}

/// Classify a frame for retention. Both matches are exhaustive on purpose: a new kind of
/// frame or of capability event has to be classified here.
#[must_use]
pub fn retention_of(frame: &OwnedFrame) -> (r: Retention)
    ensures
        r == retention(frame@),
{
    match frame {
        // Registrations: emitted once each, and every later view reads them.
        OwnedFrame::Hello { .. }
        | OwnedFrame::StringRegister { .. }
        | OwnedFrame::MetricRegister { .. }
        | OwnedFrame::ThreadRegister { .. }
        | OwnedFrame::HartRegister { .. }
        | OwnedFrame::BuildInfo { .. } => Retention::Durable,
        // Capability lifecycle: the derivation tree is cumulative state.
        OwnedFrame::CapEvent { kind, .. } => match kind {
            CapEventKind::Granted
            | CapEventKind::Transferred
            | CapEventKind::Revoked
            | CapEventKind::Minted => Retention::Durable,
        },
        // The stream.
        OwnedFrame::SpanStart { .. }
        | OwnedFrame::SpanEnd { .. }
        | OwnedFrame::Event { .. }
        | OwnedFrame::Metric { .. }
        | OwnedFrame::Dropped { .. }
        | OwnedFrame::ContextSwitch { .. }
        | OwnedFrame::SyscallRefused { .. }
        | OwnedFrame::Log { .. }
        | OwnedFrame::Message { .. }
        | OwnedFrame::NotifySignal { .. }
        | OwnedFrame::NotifyWait { .. }
        | OwnedFrame::AudioXRun { .. } => Retention::Windowed,
    }
}

/// A frame with its arrival number.
pub type Numbered = (u64, FrameState);

/// The frames a [`FrameStore`] retains, each with its arrival number.
pub struct StoreState {
    pub durable: Seq<Numbered>,
    pub window: Seq<Numbered>,
    pub window_cap: nat,
    pub next_seq: u64,
}

/// The last `n` of `s`, or all of them.
pub open spec fn last_of(s: Seq<Numbered>, n: nat) -> Seq<Numbered> {
    if s.len() > n {
        s.skip(s.len() - n)
    } else {
        s
    }
}

/// Two sequences merged by arrival number, the first one's going first where they are equal.
pub open spec fn merged(a: Seq<Numbered>, b: Seq<Numbered>) -> Seq<Numbered>
    decreases a.len() + b.len(),
{
    if a.len() == 0 {
        b
    } else if b.len() == 0 {
        a
    } else if a[0].0 <= b[0].0 {
        seq![a[0]] + merged(a.skip(1), b)
    } else {
        seq![b[0]] + merged(a, b.skip(1))
    }
}

/// The frames of a numbered sequence.
pub open spec fn frames_of(s: Seq<Numbered>) -> Seq<FrameState> {
    s.map_values(|n: Numbered| n.1)
}

impl StoreState {
    /// The store that holds nothing.
    pub open spec fn empty(window_cap: nat) -> Self {
        StoreState { durable: Seq::empty(), window: Seq::empty(), window_cap, next_seq: 0 }
    }

    /// The store after one more frame: a fact is added; a stream frame is added, and the
    /// oldest leaves where the window is full.
    pub open spec fn push(self, f: FrameState) -> Self {
        let entry = (self.next_seq, f);
        let next_seq = ((self.next_seq + 1) % 0x1_0000_0000_0000_0000) as u64;
        match retention(f) {
            Retention::Durable => StoreState { durable: self.durable.push(entry), next_seq, ..self },
            Retention::Windowed => {
                let window = self.window.push(entry);
                StoreState {
                    window: if window.len() > self.window_cap {
                        window.skip(1)
                    } else {
                        window
                    },
                    next_seq,
                    ..self
                }
            },
        }
    }

    /// Everything retained, in arrival order.
    pub open spec fn frames(self) -> Seq<FrameState> {
        frames_of(merged(self.durable, self.window))
    }
}

/// What numbered frames say.
pub open spec fn numbered(s: Seq<(u64, OwnedFrame)>) -> Seq<Numbered> {
    s.map_values(|e: (u64, OwnedFrame)| (e.0, e.1@))
}

/// Frames retained under the policy of [`retention_of`]. Both buckets record an arrival
/// number and [`frames`](Self::frames) merges on it: the views read sequences, and a
/// registration emitted late must not appear to have come first.
#[derive(Debug)]
pub struct FrameStore {
    durable: Vec<(u64, OwnedFrame)>,
    window: VecDeque<(u64, OwnedFrame)>,
    window_cap: usize,
    next_seq: u64,
}

impl View for FrameStore {
    type V = StoreState;

    closed spec fn view(&self) -> StoreState {
        StoreState {
            durable: numbered(self.durable@),
            window: numbered(self.window@),
            window_cap: self.window_cap as nat,
            next_seq: self.next_seq,
        }
    }
}

impl Default for FrameStore {
    fn default() -> (r: Self)
        ensures
            r@ == StoreState::empty(0),
    {
        FrameStore::new(0)
    }
}

impl FrameStore {
    /// A store keeping at most `window_cap` stream frames, and every durable one.
    #[must_use]
    pub fn new(window_cap: usize) -> (r: Self)
        ensures
            r@ == StoreState::empty(window_cap as nat),
    {
        let r = Self { durable: Vec::new(), window: VecDeque::new(), window_cap, next_seq: 0 };
        proof {
            assert(numbered(r.durable@) =~= Seq::empty());
            assert(numbered(r.window@) =~= Seq::empty());
        }
        r
    }

    /// Retain `frame` under the policy.
    pub fn push(&mut self, frame: OwnedFrame)
        ensures
            final(self)@ == old(self)@.push(frame@),
    {
        let seq: u64 = self.next_seq;
        self.next_seq = self.next_seq.wrapping_add(1);
        let ghost entry = (seq, frame@);
        match retention_of(&frame) {
            Retention::Durable => {
                self.durable.push((seq, frame));
                proof {
                    assert(numbered(self.durable@) =~= old(self)@.durable.push(entry));
                }
            },
            Retention::Windowed => {
                self.window.push_back((seq, frame));
                proof {
                    assert(numbered(self.window@) =~= old(self)@.window.push(entry));
                }
                // One frame was added, so at most one has to leave.
                if self.window.len() > self.window_cap {
                    let _ = self.window.pop_front();
                    proof {
                        assert(numbered(self.window@) =~= old(self)@.window.push(entry).skip(1));
                    }
                }
            },
        }
    }

    /// Everything retained, in arrival order.
    #[must_use]
    pub fn frames(&self) -> (r: Vec<OwnedFrame>)
        ensures
            crate::stream::frame_views(r@) == self@.frames(),
    {
        let ghost a = self@.durable;
        let ghost b = self@.window;
        let mut out: Vec<OwnedFrame> = Vec::new();
        let mut i: usize = 0;
        let mut j: usize = 0;
        proof {
            assert(a.skip(0) =~= a);
            assert(b.skip(0) =~= b);
            assert(crate::stream::frame_views(out@) + frames_of(merged(a, b)) =~= frames_of(
                merged(a, b),
            ));
        }
        while i < self.durable.len() || j < self.window.len()
            invariant
                a == self@.durable,
                b == self@.window,
                i <= self.durable@.len(),
                j <= self.window@.len(),
                frames_of(merged(a, b)) == crate::stream::frame_views(out@) + frames_of(
                    merged(a.skip(i as int), b.skip(j as int)),
                ),
            decreases self.durable@.len() - i + self.window@.len() - j,
        {
            let ghost before = out@;
            let ghost x = a.skip(i as int);
            let ghost y = b.skip(j as int);
            let first: bool = if i >= self.durable.len() {
                false
            } else if j >= self.window.len() {
                true
            } else {
                self.durable[i].0 <= self.window[j].0
            };
            if first {
                out.push(self.durable[i].1.clone());
                proof {
                    assert(x.skip(1) =~= a.skip(i + 1));
                    assert(merged(x, y) =~= seq![x[0]] + merged(x.skip(1), y));
                }
                i += 1;
            } else {
                out.push(self.window[j].1.clone());
                proof {
                    assert(y.skip(1) =~= b.skip(j + 1));
                    assert(merged(x, y) =~= seq![y[0]] + merged(x, y.skip(1)));
                }
                j += 1;
            }
            proof {
                let rest = merged(a.skip(i as int), b.skip(j as int));
                assert(crate::stream::frame_views(before) + frames_of(merged(x, y))
                    =~= crate::stream::frame_views(out@) + frames_of(rest));
            }
        }
        proof {
            assert(a.skip(i as int) =~= Seq::empty());
            assert(b.skip(j as int) =~= Seq::empty());
            assert(crate::stream::frame_views(out@) + frames_of(
                merged(a.skip(i as int), b.skip(j as int)),
            ) =~= crate::stream::frame_views(out@));
        }
        out
    }

    /// How many cumulative facts are held. Unbounded by design, so worth being able to watch.
    #[must_use]
    pub fn durable_len(&self) -> (r: usize)
        ensures
            r == self@.durable.len(),
    {
        self.durable.len()
    }

    /// How many stream frames are held.
    #[must_use]
    pub fn windowed_len(&self) -> (r: usize)
        ensures
            r == self@.window.len(),
    {
        self.window.len()
    }
}

// What was sent, against what is kept.

/// The frames of `log` that are to be kept so long, with their positions.
pub open spec fn of_kind(log: Seq<FrameState>, kind: Retention) -> Seq<Numbered>
    decreases log.len(),
{
    if log.len() == 0 {
        Seq::empty()
    } else {
        let rest = of_kind(log.drop_last(), kind);
        if retention(log.last()) == kind {
            rest.push(((log.len() - 1) as u64, log.last()))
        } else {
            rest
        }
    }
}

/// The store holds of the frames sent exactly those it should: every cumulative fact, and the
/// last of the stream, as many as its window takes.
pub open spec fn records(s: StoreState, log: Seq<FrameState>) -> bool {
    &&& s.next_seq == log.len()
    &&& s.durable == of_kind(log, Retention::Durable)
    &&& s.window == last_of(of_kind(log, Retention::Windowed), s.window_cap)
}

/// A new store is right about nothing having been sent.
pub proof fn law_a_new_store_records_nothing(window_cap: nat)
    ensures
        records(StoreState::empty(window_cap), Seq::empty()),
{
}

/// After each frame the store still holds every cumulative fact sent, and the last of the
/// stream.
pub proof fn law_a_store_keeps_what_it_should(s: StoreState, log: Seq<FrameState>, f: FrameState)
    requires
        records(s, log),
        log.len() < u64::MAX,
    ensures
        records(s.push(f), log.push(f)),
{
    let more = log.push(f);
    assert(more.drop_last() =~= log);
    let w = of_kind(log, Retention::Windowed);
    let entry = (log.len() as u64, f);
    if retention(f) == Retention::Windowed {
        if w.len() > s.window_cap {
            assert(s.window.push(entry).skip(1) =~= last_of(w.push(entry), s.window_cap));
        } else if w.len() == s.window_cap {
            assert(s.window.push(entry).skip(1) =~= last_of(w.push(entry), s.window_cap));
        }
    }
}

/// A stream frame never pushes out a cumulative fact.
pub proof fn law_stream_traffic_keeps_the_facts(s: StoreState, f: FrameState)
    ensures
        s.durable.is_prefix_of(s.push(f).durable),
        retention(f) == Retention::Windowed ==> s.push(f).durable == s.durable,
{
}

/// The window never grows over its bound.
pub proof fn law_the_window_is_bounded(s: StoreState, f: FrameState)
    requires
        s.window.len() <= s.window_cap,
    ensures
        s.push(f).window.len() <= s.push(f).window_cap,
{
}

/// Whether the arrival numbers rise.
pub open spec fn rising(s: Seq<Numbered>) -> bool {
    forall|i: int, j: int| 0 <= i < j < s.len() ==> (#[trigger] s[i]).0 < (#[trigger] s[j]).0
}

proof fn lemma_of_kind(log: Seq<FrameState>, kind: Retention)
    requires
        log.len() <= u64::MAX,
    ensures
        rising(of_kind(log, kind)),
        forall|i: int|
            0 <= i < of_kind(log, kind).len() ==> {
                let e = #[trigger] of_kind(log, kind)[i];
                e.0 < log.len() && log[e.0 as int] == e.1 && retention(e.1) == kind
            },
    decreases log.len(),
{
    if log.len() > 0 {
        lemma_of_kind(log.drop_last(), kind);
    }
}

/// That every entry is from the log.
pub open spec fn drawn_from(s: Seq<Numbered>, log: Seq<FrameState>) -> bool {
    forall|i: int|
        0 <= i < s.len() ==> (#[trigger] s[i]).0 < log.len() && log[s[i].0 as int] == s[i].1
}

proof fn lemma_merged(a: Seq<Numbered>, b: Seq<Numbered>, log: Seq<FrameState>, low: int)
    requires
        rising(a),
        rising(b),
        drawn_from(a, log),
        drawn_from(b, log),
        forall|i: int, j: int|
            0 <= i < a.len() && 0 <= j < b.len() ==> (#[trigger] a[i]).0 != (#[trigger] b[j]).0,
        forall|i: int| 0 <= i < a.len() ==> low <= (#[trigger] a[i]).0,
        forall|i: int| 0 <= i < b.len() ==> low <= (#[trigger] b[i]).0,
    ensures
        rising(merged(a, b)),
        drawn_from(merged(a, b), log),
        merged(a, b).len() == a.len() + b.len(),
        forall|i: int| 0 <= i < merged(a, b).len() ==> low <= (#[trigger] merged(a, b)[i]).0,
    decreases a.len() + b.len(),
{
    if a.len() > 0 && b.len() > 0 {
        if a[0].0 <= b[0].0 {
            lemma_merged(a.skip(1), b, log, a[0].0 + 1);
        } else {
            lemma_merged(a, b.skip(1), log, b[0].0 + 1);
        }
    }
}

/// Merging loses nothing.
proof fn lemma_merged_keeps(a: Seq<Numbered>, b: Seq<Numbered>, e: Numbered)
    requires
        a.contains(e) || b.contains(e),
    ensures
        merged(a, b).contains(e),
    decreases a.len() + b.len(),
{
    if a.len() > 0 && b.len() > 0 {
        let first = a[0].0 <= b[0].0;
        let head = if first {
            a[0]
        } else {
            b[0]
        };
        let (x, y) = if first {
            (a.skip(1), b)
        } else {
            (a, b.skip(1))
        };
        let m = merged(a, b);
        assert(m =~= seq![head] + merged(x, y));
        if e == head {
            assert(m[0] == e);
        } else {
            if a.contains(e) {
                let i = choose|i: int| 0 <= i < a.len() && a[i] == e;
                if first {
                    assert(x[i - 1] == e);
                }
            } else {
                let i = choose|i: int| 0 <= i < b.len() && b[i] == e;
                if !first {
                    assert(y[i - 1] == e);
                }
            }
            lemma_merged_keeps(x, y, e);
            let k = choose|k: int| 0 <= k < merged(x, y).len() && merged(x, y)[k] == e;
            assert(m[k + 1] == e);
        }
    }
}

/// What is retained comes back in the order in which it was sent, each frame once, and none
/// of it is missing.
pub proof fn law_frames_come_back_in_arrival_order(s: StoreState, log: Seq<FrameState>)
    requires
        records(s, log),
    ensures
        rising(merged(s.durable, s.window)),
        drawn_from(merged(s.durable, s.window), log),
        s.frames().len() == s.durable.len() + s.window.len(),
        forall|i: int|
            0 <= i < s.durable.len() ==> merged(s.durable, s.window).contains(
                #[trigger] s.durable[i],
            ),
        forall|i: int|
            0 <= i < s.window.len() ==> merged(s.durable, s.window).contains(
                #[trigger] s.window[i],
            ),
{
    lemma_of_kind(log, Retention::Durable);
    lemma_of_kind(log, Retention::Windowed);
    let a = s.durable;
    let b = s.window;
    let w = of_kind(log, Retention::Windowed);
    let from = w.len() - b.len();
    assert forall|j: int| 0 <= j < b.len() implies #[trigger] b[j] == w[j + from] by {}
    assert forall|j: int| 0 <= j < b.len() implies {
        let e = #[trigger] b[j];
        e.0 < log.len() && log[e.0 as int] == e.1 && retention(e.1) == Retention::Windowed
    } by {
        assert(b[j] == w[j + from]);
    }
    assert forall|i: int, j: int| 0 <= i < j < b.len() implies (#[trigger] b[i]).0 < (
    #[trigger] b[j]).0 by {
        assert(w[i + from].0 < w[j + from].0);
    }
    lemma_merged(a, b, log, 0);
    assert forall|i: int| 0 <= i < a.len() implies merged(a, b).contains(#[trigger] a[i]) by {
        lemma_merged_keeps(a, b, a[i]);
    }
    assert forall|i: int| 0 <= i < b.len() implies merged(a, b).contains(#[trigger] b[i]) by {
        lemma_merged_keeps(a, b, b[i]);
    }
}

/// What a stream tells once is kept for good: its start, the names, metrics, tasks and harts, how
/// the guest was built, and the authority that was given. What it goes on telling is not.
pub proof fn law_facts_are_kept_for_good(f: FrameState)
    ensures
        retention(f) is Durable <==> f is Hello || f is StringRegister || f is MetricRegister || f
            is ThreadRegister || f is HartRegister || f is BuildInfo || f is CapEvent,
{
}

/// A frame that is kept for good is there after any number of others, and a frame of the stream
/// until as many of the stream came after it as the window takes.
pub proof fn law_a_frame_stays(s: StoreState, f: FrameState, later: Seq<FrameState>)
    requires
        s.window.len() <= s.window_cap,
        s.window_cap > 0,
    ensures
        ({
            let end = pushed(s.push(f), later);
            let entry = (s.next_seq, f);
            &&& retention(f) is Durable ==> end.durable.contains(entry)
            &&& retention(f) is Windowed && streamed(later) < s.window_cap ==> end.window.contains(
                entry,
            )
        }),
{
    let t = s.push(f);
    let entry = (s.next_seq, f);
    if retention(f) is Durable {
        assert(t.durable.last() == entry);
        lemma_durable_stays(t, later, t.durable.len() - 1);
    } else if streamed(later) < s.window_cap {
        assert(t.window.last() == entry);
        lemma_window_stays(t, later, t.window.len() - 1);
    }
}

/// A store after more frames.
pub open spec fn pushed(s: StoreState, later: Seq<FrameState>) -> StoreState
    decreases later.len(),
{
    if later.len() == 0 {
        s
    } else {
        pushed(s, later.drop_last()).push(later.last())
    }
}

/// How many of these frames are of the stream.
pub open spec fn streamed(later: Seq<FrameState>) -> nat
    decreases later.len(),
{
    if later.len() == 0 {
        0
    } else {
        streamed(later.drop_last()) + if retention(later.last()) is Windowed {
            1nat
        } else {
            0
        }
    }
}

proof fn lemma_durable_stays(s: StoreState, later: Seq<FrameState>, i: int)
    requires
        0 <= i < s.durable.len(),
    ensures
        i < pushed(s, later).durable.len(),
        pushed(s, later).durable[i] == s.durable[i],
        pushed(s, later).durable.contains(s.durable[i]),
    decreases later.len(),
{
    if later.len() > 0 {
        lemma_durable_stays(s, later.drop_last(), i);
    }
}

proof fn lemma_window_stays(s: StoreState, later: Seq<FrameState>, i: int)
    requires
        0 <= i < s.window.len() <= s.window_cap,
        streamed(later) <= i + (s.window_cap - s.window.len()),
    ensures
        ({
            let end = pushed(s, later);
            let total = s.window.len() + streamed(later);
            let gone = if total > s.window_cap {
                total - s.window_cap
            } else {
                0
            };
            &&& end.window_cap == s.window_cap
            &&& end.window.len() == total - gone
            &&& gone <= i
            &&& end.window[i - gone] == s.window[i]
            &&& end.window.contains(s.window[i])
        }),
    decreases later.len(),
{
    if later.len() > 0 {
        lemma_window_stays(s, later.drop_last(), i);
    }
}

} // verus!
