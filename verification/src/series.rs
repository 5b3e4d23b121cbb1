//! Metric samples, kept per metric so that one cannot crowd out another.

use std::collections::{HashMap, VecDeque};
use vstd::prelude::*;
use vstd::string::*;
use crate::names::{name_in, Names};
use crate::protocol::{FrameState, MetricKind};
use crate::stream::OwnedFrame;
use crate::text::same_text;

verus! {

broadcast use vstd::std_specs::hash::group_hash_axioms;

/// Samples kept per metric: a history depth, not a budget that metrics compete for.
pub const MAX_POINTS_PER_SERIES: usize = 600;

/// One metric's history: `(guest time, value)` in arrival order.
#[derive(Debug, Clone, PartialEq, Eq)]
pub struct Series {
    pub name: String,
    /// How the metric was registered, or `None` if the guest has not described it yet.
    pub kind: Option<MetricKind>,
    pub points: Vec<(u64, i64)>,
}

/// What a [`Series`] says.
pub struct SeriesView {
    pub name: Seq<char>,
    pub kind: Option<MetricKind>,
    pub points: Seq<(u64, i64)>,
}

impl View for Series {
    type V = SeriesView;

    open spec fn view(&self) -> SeriesView {
        SeriesView { name: self.name@, kind: self.kind, points: self.points@ }
    }
}

/// A metric's name and samples.
#[derive(Debug)]
struct Track {
    name: String,
    points: VecDeque<(u64, i64)>,
}

/// A metric's name and samples.
pub struct TrackState {
    pub name: Seq<char>,
    pub points: Seq<(u64, i64)>,
}

impl View for Track {
    type V = TrackState;

    closed spec fn view(&self) -> TrackState {
        TrackState { name: self.name@, points: self.points@ }
    }
}

/// What a [`SeriesStore`] holds: metrics in first-seen order, kinds by string id, and the
/// name each id was last seen with.
pub struct SeriesState {
    pub tracks: Seq<TrackState>,
    pub kinds: Map<u32, MetricKind>,
    pub named: Seq<(u32, Seq<char>)>,
}

/// The samples with one more, the oldest leaving where there are too many.
pub open spec fn sampled(points: Seq<(u64, i64)>, p: (u64, i64)) -> Seq<(u64, i64)> {
    let more = points.push(p);
    if more.len() > MAX_POINTS_PER_SERIES {
        more.skip(1)
    } else {
        more
    }
}

/// Where the metric called `name` is, from `i` on.
pub open spec fn track_of(tracks: Seq<TrackState>, name: Seq<char>, i: int) -> Option<int>
    decreases tracks.len() - i,
{
    if i < 0 || i >= tracks.len() {
        None
    } else if tracks[i].name == name {
        Some(i)
    } else {
        track_of(tracks, name, i + 1)
    }
}

/// Where the entry for `id` is, from `i` on.
pub open spec fn entry_of(named: Seq<(u32, Seq<char>)>, id: u32, i: int) -> Option<int>
    decreases named.len() - i,
{
    if i < 0 || i >= named.len() {
        None
    } else if named[i].0 == id {
        Some(i)
    } else {
        entry_of(named, id, i + 1)
    }
}

/// The metrics with one more sample of the one called `name`, which is added where it is new.
pub open spec fn with_sample(tracks: Seq<TrackState>, name: Seq<char>, p: (u64, i64)) -> Seq<
    TrackState,
> {
    match track_of(tracks, name, 0) {
        Some(i) => tracks.update(i, TrackState { name, points: sampled(tracks[i].points, p) }),
        None => tracks.push(TrackState { name, points: sampled(Seq::empty(), p) }),
    }
}

/// The names with `id` standing for `name`.
pub open spec fn with_name(named: Seq<(u32, Seq<char>)>, id: u32, name: Seq<char>) -> Seq<
    (u32, Seq<char>),
> {
    match entry_of(named, id, 0) {
        Some(i) => named.update(i, (id, name)),
        None => named.push((id, name)),
    }
}

/// The kind registered for `name`: that of the first id called so which has one, among the
/// entries from `i` on.
pub open spec fn kind_of(
    named: Seq<(u32, Seq<char>)>,
    kinds: Map<u32, MetricKind>,
    name: Seq<char>,
    i: int,
) -> Option<MetricKind>
    decreases named.len() - i,
{
    if i < 0 || i >= named.len() {
        None
    } else if named[i].1 == name && kinds.contains_key(named[i].0) {
        Some(kinds[named[i].0])
    } else {
        kind_of(named, kinds, name, i + 1)
    }
}

impl SeriesState {
    /// Nothing recorded.
    pub open spec fn empty() -> Self {
        SeriesState { tracks: Seq::empty(), kinds: Map::empty(), named: Seq::empty() }
    }

    /// The state after one more frame, under the names registered so far.
    pub open spec fn observe(self, f: FrameState, names: Map<u32, Seq<char>>) -> Self {
        match f {
            FrameState::MetricRegister { name_id, kind, .. } => SeriesState {
                kinds: self.kinds.insert(name_id.0, kind),
                ..self
            },
            FrameState::Metric { name_id, value, t, .. } => match name_in(names, name_id) {
                Some(name) => SeriesState {
                    tracks: with_sample(self.tracks, name, (t, value)),
                    named: with_name(self.named, name_id.0, name),
                    ..self
                },
                None => self,
            },
            _ => self,
        }
    }

    /// Every series, in first-seen order.
    pub open spec fn series(self) -> Seq<SeriesView> {
        Seq::new(
            self.tracks.len(),
            |i: int|
                SeriesView {
                    name: self.tracks[i].name,
                    kind: kind_of(self.named, self.kinds, self.tracks[i].name, 0),
                    points: self.tracks[i].points,
                },
        )
    }
}

proof fn lemma_track_of(tracks: Seq<TrackState>, name: Seq<char>, i: int)
    requires
        0 <= i,
    ensures
        match track_of(tracks, name, i) {
            Some(j) => i <= j < tracks.len() && tracks[j].name == name && forall|k: int|
                i <= k < j ==> (#[trigger] tracks[k]).name != name,
            None => forall|k: int| i <= k < tracks.len() ==> (#[trigger] tracks[k]).name != name,
        },
    decreases tracks.len() - i,
{
    if i < tracks.len() && tracks[i].name != name {
        lemma_track_of(tracks, name, i + 1);
    }
}

/// Per-metric sample retention.
#[derive(Debug)]
pub struct SeriesStore {
    /// First-seen order, so that a chart's colours are stable as metrics appear.
    tracks: Vec<Track>,
    /// Kinds by string id: a registration can arrive before the name is interned, and often
    /// before any sample.
    kinds: HashMap<u32, MetricKind>,
    /// The name an id resolved to, so that a kind registered under an id finds its series.
    named: Vec<(u32, String)>,
}

impl View for SeriesStore {
    type V = SeriesState;

    closed spec fn view(&self) -> SeriesState {
        SeriesState {
            tracks: self.tracks@.map_values(|t: Track| t@),
            kinds: self.kinds@,
            named: self.named@.map_values(|e: (u32, String)| (e.0, e.1@)),
        }
    }
}

impl Default for SeriesStore {
    fn default() -> (r: Self)
        ensures
            r@ == SeriesState::empty(),
    {
        SeriesStore::new()
    }
}

impl SeriesStore {
    #[must_use]
    pub fn new() -> (r: Self)
        ensures
            r@ == SeriesState::empty(),
    {
        let r = Self { tracks: Vec::new(), kinds: HashMap::new(), named: Vec::new() };
        proof {
            assert(r@.tracks =~= Seq::empty());
            assert(r@.named =~= Seq::empty());
        }
        r
    }

    /// Where the metric called `name` is.
    fn find_track(&self, name: &str) -> (r: Option<usize>)
        ensures
            match track_of(self@.tracks, name@, 0) {
                Some(i) => r is Some && r->0 == i && i < self.tracks@.len(),
                None => r is None,
            },
    {
        let mut i: usize = 0;
        while i < self.tracks.len()
            invariant
                i <= self.tracks@.len(),
                track_of(self@.tracks, name@, 0) == track_of(self@.tracks, name@, i as int),
            decreases self.tracks@.len() - i,
        {
            if same_text(self.tracks[i].name.as_str(), name) {
                return Some(i);
            }
            i += 1;
        }
        None
    }

    /// Where the entry for `id` is.
    fn find_entry(&self, id: u32) -> (r: Option<usize>)
        ensures
            match entry_of(self@.named, id, 0) {
                Some(i) => r is Some && r->0 == i && i < self.named@.len(),
                None => r is None,
            },
    {
        let mut i: usize = 0;
        while i < self.named.len()
            invariant
                i <= self.named@.len(),
                entry_of(self@.named, id, 0) == entry_of(self@.named, id, i as int),
            decreases self.named@.len() - i,
        {
            if self.named[i].0 == id {
                return Some(i);
            }
            i += 1;
        }
        None
    }

    /// Remember that `id` stands for `name`.
    fn remember(&mut self, id: u32, name: String)
        ensures
            final(self)@ == (SeriesState {
                named: with_name(old(self)@.named, id, name@),
                ..old(self)@
            }),
    {
        let ghost called = name@;
        match self.find_entry(id) {
            Some(i) => {
                self.named[i] = (id, name);
                proof {
                    assert(self@.named =~= old(self)@.named.update(i as int, (id, called)));
                }
            },
            None => {
                self.named.push((id, name));
                proof {
                    assert(self@.named =~= old(self)@.named.push((id, called)));
                }
            },
        }
    }

    /// Add a sample to the metric called `name`.
    fn record(&mut self, name: String, p: (u64, i64))
        ensures
            final(self)@ == (SeriesState {
                tracks: with_sample(old(self)@.tracks, name@, p),
                ..old(self)@
            }),
    {
        let ghost called = name@;
        proof {
            lemma_track_of(self@.tracks, called, 0);
        }
        match self.find_track(name.as_str()) {
            Some(i) => {
                self.tracks[i].points.push_back(p);
                // One sample was added, so at most one has to leave.
                if self.tracks[i].points.len() > MAX_POINTS_PER_SERIES {
                    let _ = self.tracks[i].points.pop_front();
                }
                proof {
                    let points = old(self)@.tracks[i as int].points;
                    assert(self.tracks@[i as int].points@ =~= sampled(points, p));
                    assert(self.tracks@[i as int].name@ == called);
                    assert(self@.tracks =~= old(self)@.tracks.update(
                        i as int,
                        TrackState { name: called, points: sampled(points, p) },
                    ));
                    assert(self@.tracks =~= with_sample(old(self)@.tracks, called, p));
                }
            },
            None => {
                let mut points: VecDeque<(u64, i64)> = VecDeque::new();
                points.push_back(p);
                self.tracks.push(Track { name, points });
                proof {
                    assert(points@ =~= sampled(Seq::empty(), p));
                    assert(self@.tracks =~= with_sample(old(self)@.tracks, called, p));
                }
            },
        }
    }

    /// Record `frame` if it is a metric or a metric registration. A sample whose name will
    /// not resolve is not recorded: an unlabelled series cannot be charted.
    pub fn observe(&mut self, frame: &OwnedFrame, names: &Names)
        ensures
            final(self)@ == old(self)@.observe(frame@, names@),
    {
        match frame {
            OwnedFrame::MetricRegister { name_id, kind, .. } => {
                let _ = self.kinds.insert(name_id.0, *kind);
            },
            OwnedFrame::Metric { name_id, value, t, .. } => match names.resolve(*name_id) {
                Some(name) => {
                    self.remember(name_id.0, name.clone());
                    self.record(name, (*t, *value));
                },
                None => {},
            },
            _ => {},
        }
    }

    /// The kind registered for `name`.
    fn kind(&self, name: &str) -> (r: Option<MetricKind>)
        ensures
            r == kind_of(self@.named, self@.kinds, name@, 0),
    {
        let mut i: usize = 0;
        while i < self.named.len()
            invariant
                i <= self.named@.len(),
                kind_of(self@.named, self@.kinds, name@, 0) == kind_of(
                    self@.named,
                    self@.kinds,
                    name@,
                    i as int,
                ),
            decreases self.named@.len() - i,
        {
            if same_text(self.named[i].1.as_str(), name) {
                match self.kinds.get(&self.named[i].0) {
                    Some(kind) => {
                        return Some(*kind);
                    },
                    None => {},
                }
            }
            i += 1;
        }
        None
    }

    /// Every series, in first-seen order.
    #[must_use]
    pub fn series(&self) -> (r: Vec<Series>)
        ensures
            r@.map_values(|s: Series| s@) == self@.series(),
    {
        let mut out: Vec<Series> = Vec::new();
        let mut i: usize = 0;
        while i < self.tracks.len()
            invariant
                i <= self.tracks@.len(),
                out@.len() == i,
                forall|k: int| 0 <= k < i ==> (#[trigger] out@[k])@ == self@.series()[k],
            decreases self.tracks@.len() - i,
        {
            let mut points: Vec<(u64, i64)> = Vec::new();
            let mut j: usize = 0;
            while j < self.tracks[i].points.len()
                invariant
                    i < self.tracks@.len(),
                    j <= self.tracks@[i as int].points@.len(),
                    points@ == self.tracks@[i as int].points@.take(j as int),
                decreases self.tracks@[i as int].points@.len() - j,
            {
                points.push(self.tracks[i].points[j]);
                j += 1;
                proof {
                    assert(points@ =~= self.tracks@[i as int].points@.take(j as int));
                }
            }
            proof {
                assert(points@ =~= self.tracks@[i as int].points@);
            }
            let name: String = self.tracks[i].name.clone();
            let kind: Option<MetricKind> = self.kind(name.as_str());
            out.push(Series { name, kind, points });
            i += 1;
        }
        proof {
            assert(out@.map_values(|s: Series| s@) =~= self@.series());
        }
        out
    }
}

/// Whether no history is over its bound.
pub open spec fn bounded(s: SeriesState) -> bool {
    forall|i: int|
        0 <= i < s.tracks.len() ==> (#[trigger] s.tracks[i]).points.len() <= 600
}

/// Every metric's history stays within its bound.
pub proof fn law_every_history_is_bounded(
    s: SeriesState,
    f: FrameState,
    names: Map<u32, Seq<char>>,
)
    requires
        bounded(s),
    ensures
        bounded(s.observe(f, names)),
{
    if let FrameState::Metric { name_id, .. } = f {
        if let Some(name) = name_in(names, name_id) {
            lemma_track_of(s.tracks, name, 0);
        }
    }
}

/// A sample of one metric leaves every other metric's history, and its place, as it was.
pub proof fn law_a_metric_cannot_crowd_out_another(
    s: SeriesState,
    f: FrameState,
    names: Map<u32, Seq<char>>,
    i: int,
)
    requires
        0 <= i < s.tracks.len(),
        match f {
            FrameState::Metric { name_id, .. } => name_in(names, name_id) != Some(s.tracks[i].name),
            _ => true,
        },
    ensures
        i < s.observe(f, names).tracks.len(),
        s.observe(f, names).tracks[i] == s.tracks[i],
{
    if let FrameState::Metric { name_id, .. } = f {
        if let Some(name) = name_in(names, name_id) {
            lemma_track_of(s.tracks, name, 0);
        }
    }
}

/// A metric keeps its place and its name whatever comes.
pub proof fn law_first_seen_order_is_kept(
    s: SeriesState,
    f: FrameState,
    names: Map<u32, Seq<char>>,
    i: int,
)
    requires
        0 <= i < s.tracks.len(),
    ensures
        i < s.observe(f, names).tracks.len(),
        s.observe(f, names).tracks[i].name == s.tracks[i].name,
{
    if let FrameState::Metric { name_id, .. } = f {
        if let Some(name) = name_in(names, name_id) {
            lemma_track_of(s.tracks, name, 0);
        }
    }
}

// A whole stream.

/// The state after these frames, from nothing, under one table of names.
pub open spec fn observed(frames: Seq<FrameState>, names: Map<u32, Seq<char>>) -> SeriesState
    decreases frames.len(),
{
    if frames.len() == 0 {
        SeriesState::empty()
    } else {
        observed(frames.drop_last(), names).observe(frames.last(), names)
    }
}

/// The metric a frame is a sample of, and the sample.
pub open spec fn sample_of(f: FrameState, names: Map<u32, Seq<char>>) -> Option<
    (Seq<char>, (u64, i64)),
> {
    match f {
        FrameState::Metric { name_id, value, t, .. } => match name_in(names, name_id) {
            Some(name) => Some((name, (t, value))),
            None => None,
        },
        _ => None,
    }
}

/// The samples of the metric called `name`, in arrival order.
pub open spec fn samples(
    frames: Seq<FrameState>,
    names: Map<u32, Seq<char>>,
    name: Seq<char>,
) -> Seq<(u64, i64)>
    decreases frames.len(),
{
    if frames.len() == 0 {
        Seq::empty()
    } else {
        let rest = samples(frames.drop_last(), names, name);
        match sample_of(frames.last(), names) {
            Some((called, p)) if called == name => rest.push(p),
            _ => rest,
        }
    }
}

/// The names of the metrics that have samples, in the order of their first.
pub open spec fn seen(frames: Seq<FrameState>, names: Map<u32, Seq<char>>) -> Seq<Seq<char>>
    decreases frames.len(),
{
    if frames.len() == 0 {
        Seq::empty()
    } else {
        let rest = seen(frames.drop_last(), names);
        match sample_of(frames.last(), names) {
            Some((name, _)) if !rest.contains(name) => rest.push(name),
            _ => rest,
        }
    }
}

/// The kind that was last registered for `id`.
pub open spec fn registered(frames: Seq<FrameState>, id: u32) -> Option<MetricKind>
    decreases frames.len(),
{
    if frames.len() == 0 {
        None
    } else {
        match frames.last() {
            FrameState::MetricRegister { name_id, kind, .. } if name_id.0 == id => Some(kind),
            _ => registered(frames.drop_last(), id),
        }
    }
}

/// The last samples, as many as are kept.
pub open spec fn kept(points: Seq<(u64, i64)>) -> Seq<(u64, i64)> {
    if points.len() > 600 {
        points.skip(points.len() - 600)
    } else {
        points
    }
}

/// Whether two ids never stand for one name.
pub open spec fn distinct(names: Map<u32, Seq<char>>) -> bool {
    forall|a: u32, b: u32|
        names.contains_key(a) && names.contains_key(b) && #[trigger] names[a] == #[trigger] names[b]
            ==> a == b
}

/// Whether the state is the one that these frames lead to.
spec fn tells_of(s: SeriesState, frames: Seq<FrameState>, names: Map<u32, Seq<char>>) -> bool {
    let called = seen(frames, names);
    &&& s.tracks.len() == called.len()
    &&& called.no_duplicates()
    &&& forall|i: int|
        0 <= i < called.len() ==> (#[trigger] s.tracks[i]).name == called[i] && s.tracks[i].points
            == kept(samples(frames, names, called[i]))
    &&& forall|id: u32|
        s.kinds.contains_key(id) <==> #[trigger] registered(frames, id) is Some
    &&& forall|id: u32|
        s.kinds.contains_key(id) ==> Some(s.kinds[id]) == #[trigger] registered(frames, id)
    &&& forall|i: int|
        0 <= i < s.named.len() ==> names.contains_key((#[trigger] s.named[i]).0) && s.named[i].1
            == names[s.named[i].0]
    &&& forall|i: int|
        0 <= i < called.len() ==> named_so(s.named, #[trigger] called[i])
}

/// Whether an entry has the name.
spec fn named_so(named: Seq<(u32, Seq<char>)>, name: Seq<char>) -> bool {
    exists|k: int| 0 <= k < named.len() && (#[trigger] named[k]).1 == name
}

proof fn lemma_entry_of(named: Seq<(u32, Seq<char>)>, id: u32, i: int)
    requires
        0 <= i,
    ensures
        match entry_of(named, id, i) {
            Some(j) => i <= j < named.len() && named[j].0 == id,
            None => true,
        },
    decreases named.len() - i,
{
    if i < named.len() && named[i].0 != id {
        lemma_entry_of(named, id, i + 1);
    }
}

/// A metric that was not seen has no samples.
proof fn lemma_unseen(frames: Seq<FrameState>, names: Map<u32, Seq<char>>, name: Seq<char>)
    requires
        !seen(frames, names).contains(name),
    ensures
        samples(frames, names, name).len() == 0,
    decreases frames.len(),
{
    if frames.len() > 0 {
        let rest = seen(frames.drop_last(), names);
        let all = seen(frames, names);
        if rest.contains(name) {
            let i = choose|i: int| 0 <= i < rest.len() && rest[i] == name;
            assert(all[i] == name);
        }
        lemma_unseen(frames.drop_last(), names, name);
        if let Some((called, _)) = sample_of(frames.last(), names) {
            if called == name {
                assert(all.last() == name);
            }
        }
    }
}

proof fn lemma_tells_of(frames: Seq<FrameState>, names: Map<u32, Seq<char>>)
    ensures
        tells_of(observed(frames, names), frames, names),
    decreases frames.len(), 1int,
{
    if frames.len() > 0 {
        lemma_tells_of_one_more(frames, names);
    }
}

proof fn lemma_tells_of_one_more(frames: Seq<FrameState>, names: Map<u32, Seq<char>>)
    requires
        frames.len() > 0,
    ensures
        tells_of(observed(frames, names), frames, names),
    decreases frames.len(), 0int,
{
    let before = frames.drop_last();
    let f = frames.last();
    lemma_tells_of(before, names);
    let s = observed(before, names);
    let t = observed(frames, names);
    let old_names = seen(before, names);
    let new_names = seen(frames, names);
    match sample_of(f, names) {
        Some((name, p)) => {
            lemma_track_of(s.tracks, name, 0);
            let id = f->Metric_name_id.0;
            lemma_entry_of(s.named, id, 0);
            // The entry for the name.
            let k = match entry_of(s.named, id, 0) {
                Some(k) => k,
                None => s.named.len() as int,
            };
            assert(t.named[k] == (id, name));
            match track_of(s.tracks, name, 0) {
                Some(i) => {
                    assert(old_names[i] == name);
                    assert(new_names == old_names);
                    assert(t.tracks[i].points =~= kept(samples(frames, names, name)));
                },
                None => {
                    if old_names.contains(name) {
                        let i = choose|i: int| 0 <= i < old_names.len() && old_names[i] == name;
                        assert(s.tracks[i].name == name);
                    }
                    lemma_unseen(before, names, name);
                    assert(t.tracks.last().points =~= kept(samples(frames, names, name)));
                },
            }
            assert forall|i: int| 0 <= i < new_names.len() implies (#[trigger] t.tracks[i]).name
                == new_names[i] && t.tracks[i].points == kept(
                samples(frames, names, new_names[i]),
            ) by {
                if i < old_names.len() {
                    assert(s.tracks[i].name == old_names[i]);
                }
            }
            assert forall|i: int| 0 <= i < new_names.len() implies named_so(
                t.named,
                #[trigger] new_names[i],
            ) by {
                if new_names[i] == name {
                    assert(t.named[k].1 == name);
                } else {
                    assert(named_so(s.named, old_names[i]));
                    let e = choose|e: int|
                        0 <= e < s.named.len() && (#[trigger] s.named[e]).1 == old_names[i];
                    assert(t.named[e].1 == old_names[i]);
                }
            }
            assert forall|j: u32| t.kinds.contains_key(j) <==> #[trigger] registered(
                frames,
                j,
            ) is Some by {
                assert(registered(frames, j) == registered(before, j));
            }
            assert forall|j: u32| t.kinds.contains_key(j) implies Some(t.kinds[j])
                == #[trigger] registered(frames, j) by {
                assert(registered(frames, j) == registered(before, j));
            }
        },
        None => {
            assert(new_names == old_names);
            assert forall|i: int| 0 <= i < new_names.len() implies (#[trigger] t.tracks[i]).name
                == new_names[i] && t.tracks[i].points == kept(
                samples(frames, names, new_names[i]),
            ) by {
                assert(s.tracks[i].name == old_names[i]);
            }
            assert forall|j: u32| t.kinds.contains_key(j) <==> #[trigger] registered(
                frames,
                j,
            ) is Some by {
                assert(s.kinds.contains_key(j) <==> registered(before, j) is Some);
            }
            assert forall|j: u32| t.kinds.contains_key(j) implies Some(t.kinds[j])
                == #[trigger] registered(frames, j) by {
                assert(s.kinds.contains_key(j) ==> Some(s.kinds[j]) == registered(before, j));
            }
        },
    }
}

/// Where every entry with the name has one id, the kind is that id's.
proof fn lemma_kind_of(
    named: Seq<(u32, Seq<char>)>,
    kinds: Map<u32, MetricKind>,
    name: Seq<char>,
    id: u32,
    i: int,
)
    requires
        0 <= i,
        forall|k: int|
            0 <= k < named.len() && (#[trigger] named[k]).1 == name ==> named[k].0 == id,
    ensures
        match kind_of(named, kinds, name, i) {
            Some(kind) => kinds.contains_key(id) && kind == kinds[id],
            None => kinds.contains_key(id) ==> forall|k: int|
                i <= k < named.len() ==> (#[trigger] named[k]).1 != name,
        },
    decreases named.len() - i,
{
    if i < named.len() && !(named[i].1 == name && kinds.contains_key(named[i].0)) {
        lemma_kind_of(named, kinds, name, id, i + 1);
    }
}

/// Over a whole stream there is one series for each metric that has samples, in the order of
/// the first ones, with the last of its samples in arrival order and the kind that was last
/// registered for it, before or after.
pub proof fn law_series_tell_of_the_whole_stream(
    frames: Seq<FrameState>,
    names: Map<u32, Seq<char>>,
)
    requires
        distinct(names),
    ensures
        ({
            let all = observed(frames, names).series();
            let called = seen(frames, names);
            &&& all.len() == called.len()
            &&& called.no_duplicates()
            &&& forall|i: int|
                0 <= i < all.len() ==> (#[trigger] all[i]).name == called[i] && all[i].points
                    == kept(samples(frames, names, called[i]))
            &&& forall|i: int, id: u32|
                0 <= i < all.len() && names.contains_key(id) && #[trigger] names[id] == (
                #[trigger] all[i]).name ==> all[i].kind == registered(frames, id)
        }),
{
    lemma_tells_of(frames, names);
    let s = observed(frames, names);
    let all = s.series();
    let called = seen(frames, names);
    assert forall|i: int| 0 <= i < all.len() implies (#[trigger] all[i]).name == called[i]
        && all[i].points == kept(samples(frames, names, called[i])) by {
        assert(s.tracks[i].name == called[i]);
    }
    assert forall|i: int, id: u32|
        0 <= i < all.len() && names.contains_key(id) && #[trigger] names[id] == (
        #[trigger] all[i]).name implies all[i].kind == registered(frames, id) by {
        let name = called[i];
        assert(s.tracks[i].name == name);
        assert(named_so(s.named, called[i]));
        assert forall|k: int|
            0 <= k < s.named.len() && (#[trigger] s.named[k]).1 == name implies s.named[k].0
            == id by {
            assert(names[s.named[k].0] == names[id]);
        }
        lemma_kind_of(s.named, s.kinds, name, id, 0);
        assert(s.kinds.contains_key(id) <==> registered(frames, id) is Some);
        assert(s.kinds.contains_key(id) ==> Some(s.kinds[id]) == registered(frames, id));
    }
}

} // verus!
