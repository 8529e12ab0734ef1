//! The feature-track maintenance core.
//!
//! [`Tracker`] ingests one frame of correspondence records at a time and keeps
//! a bounded, newest-first buffer. [`Tracker::get_tracked`] walks the buffer
//! newest to oldest and rebuilds, for every feature slot of the newest frame,
//! the chain of positions that its back-links reach, as an independent
//! [`TrackedSnapshot`].
//!
//! The spec functions of this module are the mathematical model: a buffer is
//! a sequence of [`FrameView`]s, a snapshot is the sequence of
//! [`TrackedFrameView`]s that [`spec_tracked`] computes from it.

use vstd::prelude::*;

use crate::feature::MatchedFeature;
use crate::feature::NO_MATCH;
use crate::feature::VpPosition;

verus! {

/// One correspondence record as stored in a buffered frame; identical in
/// content to the [`MatchedFeature`] it was built from.
#[derive(Clone, Copy, Debug, PartialEq, Eq, Structural)]
pub struct FramePoint {
    pub prev_index: u32,
    pub vp_position: VpPosition,
    pub match_degree: u32,
}

/// The mathematical content of one buffered frame.
#[verifier::ext_equal]
pub ghost struct FrameView {
    pub timestamp: u64,
    pub points: Seq<FramePoint>,
}

/// One observation of a tracked feature: its viewport position at one frame.
#[derive(Clone, Copy, Debug, PartialEq, Eq, Structural)]
pub struct TrackedPoint {
    pub vp_position: VpPosition,
}

/// The mathematical content of one frame of a snapshot. Slot `i` speaks of
/// the `i`-th feature of the newest frame; `None` marks a slot whose chain
/// had already ended at this frame.
#[verifier::ext_equal]
pub ghost struct TrackedFrameView {
    pub timestamp: u64,
    pub points: Seq<Option<TrackedPoint>>,
}

struct Frame {
    timestamp: u64,
    points: Vec<FramePoint>,
}

impl View for Frame {
    type V = FrameView;

    closed spec fn view(&self) -> FrameView {
        FrameView { timestamp: self.timestamp, points: self.points@ }
    }
}

struct TrackedFrame {
    timestamp: u64,
    points: Vec<Option<TrackedPoint>>,
}

impl View for TrackedFrame {
    type V = TrackedFrameView;

    closed spec fn view(&self) -> TrackedFrameView {
        TrackedFrameView { timestamp: self.timestamp, points: self.points@ }
    }
}

/// The bounded, newest-first buffer of correspondence frames.
pub struct Tracker {
    max_frames_buffered: u32,
    frames: Vec<Frame>,
}

impl View for Tracker {
    type V = Seq<FrameView>;

    closed spec fn view(&self) -> Seq<FrameView> {
        self.frames@.map_values(|f: Frame| f@)
    }
}

/// A snapshot of aligned per-slot trajectories, newest frame first. It owns
/// its data outright: later `Tracker` updates do not reach it.
pub struct TrackedSnapshot {
    frames: Vec<TrackedFrame>,
}

impl View for TrackedSnapshot {
    type V = Seq<TrackedFrameView>;

    closed spec fn view(&self) -> Seq<TrackedFrameView> {
        self.frames@.map_values(|f: TrackedFrame| f@)
    }
}

/// The point a stored record was built from, field for field.
pub open spec fn point_of_feature(mf: MatchedFeature) -> FramePoint {
    FramePoint {
        prev_index: mf.prev_index,
        vp_position: mf.position,
        match_degree: mf.match_degree,
    }
}

/// The index a point hands its chain for the next older frame: the back-link
/// if the match is trusted, the sentinel otherwise.
pub open spec fn gate_index(p: FramePoint) -> u32 {
    if p.match_degree > 0 {
        p.prev_index
    } else {
        NO_MATCH
    }
}

/// The buffer after ingesting frame `f` at capacity `max`: `f` first, then
/// the previous frames, truncated to the `max` newest.
pub open spec fn spec_ingest(frames: Seq<FrameView>, f: FrameView, max: nat) -> Seq<FrameView> {
    let grown = seq![f] + frames;
    if grown.len() <= max {
        grown
    } else {
        grown.take(max as int)
    }
}

/// The entries one frame contributes to a snapshot, given the chain state on
/// entering it: the position each live chain reaches, `None` where the chain
/// is broken or points outside the frame.
pub open spec fn step_points(points: Seq<FramePoint>, state: Seq<u32>) -> Seq<Option<TrackedPoint>> {
    state.map_values(
        |idx: u32|
            if idx != NO_MATCH && (idx as int) < points.len() {
                Some(TrackedPoint { vp_position: points[idx as int].vp_position })
            } else {
                None
            },
    )
}

/// The chain state after a frame: a chain that reached a point follows that
/// point's gated back-link; a broken or dangling chain stays at the sentinel
/// for good.
pub open spec fn step_state(points: Seq<FramePoint>, state: Seq<u32>) -> Seq<u32> {
    state.map_values(
        |idx: u32|
            if idx != NO_MATCH && (idx as int) < points.len() {
                gate_index(points[idx as int])
            } else {
                NO_MATCH
            },
    )
}

/// Whether no chain is live any more.
pub open spec fn all_dead(state: Seq<u32>) -> bool {
    forall|i: int| 0 <= i < state.len() ==> state[i] == NO_MATCH
}

/// The frames a snapshot emits when walking `frames` newest to oldest with
/// chain state `state`: every frame contributes its entries, and the walk
/// stops early once all chains are dead.
pub open spec fn walk(frames: Seq<FrameView>, state: Seq<u32>) -> Seq<TrackedFrameView>
    decreases frames.len(),
{
    if frames.len() == 0 {
        Seq::empty()
    } else {
        let emitted = TrackedFrameView {
            timestamp: frames[0].timestamp,
            points: step_points(frames[0].points, state),
        };
        let next = step_state(frames[0].points, state);
        if all_dead(next) {
            seq![emitted]
        } else {
            seq![emitted] + walk(frames.drop_first(), next)
        }
    }
}

/// The chain state that starts a walk: slot `i` of the newest frame tracks
/// itself.
pub open spec fn identity_state(n: nat) -> Seq<u32> {
    Seq::new(n, |i: int| i as u32)
}

/// What `get_tracked` returns, as a function of the buffer.
pub open spec fn spec_tracked(frames: Seq<FrameView>) -> Seq<TrackedFrameView> {
    if frames.len() == 0 {
        Seq::empty()
    } else {
        walk(frames, identity_state(frames[0].points.len()))
    }
}

/// The number of feature slots a snapshot aligns: those of its newest frame.
pub open spec fn spec_points_count(t: Seq<TrackedFrameView>) -> nat {
    if t.len() == 0 {
        0
    } else {
        t[0].points.len()
    }
}

/// What a point query answers: the entry at frame offset `k`, slot `i`, and
/// `None` whenever either index is out of range.
pub open spec fn spec_get_point(t: Seq<TrackedFrameView>, k: int, i: int) -> Option<TrackedPoint> {
    if 0 <= k < t.len() && 0 <= i < t[k].points.len() {
        t[k].points[i]
    } else {
        None
    }
}

/// The slot-ordered pairs of observations at frame offsets 0 and `k`, taken
/// over the slots from `i` on: one pair per slot that has an entry at both
/// offsets.
pub open spec fn spec_paired_from(t: Seq<TrackedFrameView>, k: int, i: int) -> Seq<
    (VpPosition, VpPosition),
>
    decreases spec_points_count(t) - i,
{
    if i < 0 || i >= spec_points_count(t) {
        Seq::empty()
    } else {
        let rest = spec_paired_from(t, k, i + 1);
        if spec_get_point(t, 0, i) is Some && spec_get_point(t, k, i) is Some {
            seq![
                (spec_get_point(t, 0, i)->0.vp_position, spec_get_point(t, k, i)->0.vp_position),
            ] + rest
        } else {
            rest
        }
    }
}

/// The two position sequences side by side, as pairs.
pub open spec fn zip_positions(a: Seq<VpPosition>, b: Seq<VpPosition>) -> Seq<
    (VpPosition, VpPosition),
>
    recommends
        a.len() == b.len(),
{
    Seq::new(a.len(), |j: int| (a[j], b[j]))
}

/// Whether any chain is still live in `state`.
fn any_live(state: &Vec<u32>) -> (r: bool)
    ensures
        r <==> !all_dead(state@),
{
    let mut r = false;
    let mut i: usize = 0;
    while i < state.len()
        invariant
            i <= state@.len(),
            r <==> exists|q: int| 0 <= q < i && (#[trigger] state@[q]) != NO_MATCH,
        decreases state@.len() - i,
    {
        if state[i] != NO_MATCH {
            proof {
                assert(state@[i as int] != NO_MATCH);
            }
            r = true;
        }
        i += 1;
    }
    r
}

impl Tracker {
    /// The capacity the tracker was built with.
    pub closed spec fn spec_capacity(self) -> u32 {
        self.max_frames_buffered
    }

    /// The buffer never outgrows its capacity, and every buffered frame has
    /// few enough points for slot counts to be reported as `u32`.
    pub open spec fn wf(self) -> bool {
        &&& self@.len() <= self.spec_capacity()
        &&& forall|k: int| 0 <= k < self@.len() ==> (#[trigger] self@[k].points.len()) <= u32::MAX
    }

    /// An empty buffer with the given capacity. A capacity of zero is legal
    /// but degenerate: every snapshot comes out empty.
    pub fn new(max_frames_buffered: u32) -> (r: Tracker)
        ensures
            r.wf(),
            r@ == Seq::<FrameView>::empty(),
            r.spec_capacity() == max_frames_buffered,
    {
        let r = Tracker { max_frames_buffered, frames: Vec::new() };
        proof {
            assert(r@ =~= Seq::<FrameView>::empty());
        }
        r
    }

    /// Ingests one frame of correspondence records: the records become the
    /// newest buffered frame, and the oldest frame is evicted once the buffer
    /// would outgrow its capacity. Back-links are not validated here; a
    /// dangling `prev_index` only surfaces, as an ended chain, when a
    /// snapshot is built.
    pub fn update_matched(&mut self, timestamp: u64, matched_features: &[MatchedFeature])
        requires
            old(self).wf(),
            matched_features@.len() <= u32::MAX,
        ensures
            final(self).wf(),
            final(self).spec_capacity() == old(self).spec_capacity(),
            final(self)@ == spec_ingest(
                old(self)@,
                FrameView {
                    timestamp,
                    points: matched_features@.map_values(|mf: MatchedFeature| point_of_feature(mf)),
                },
                old(self).spec_capacity() as nat,
            ),
    {
        let ghost target_points = matched_features@.map_values(
            |mf: MatchedFeature| point_of_feature(mf),
        );
        let mut points: Vec<FramePoint> = Vec::new();
        let mut i: usize = 0;
        while i < matched_features.len()
            invariant
                i <= matched_features@.len(),
                points@.len() == i,
                forall|j: int| 0 <= j < i ==> points@[j] == point_of_feature(matched_features@[j]),
            decreases matched_features@.len() - i,
        {
            let mf = &matched_features[i];
            points.push(
                FramePoint {
                    prev_index: mf.prev_index,
                    vp_position: mf.position,
                    match_degree: mf.match_degree,
                },
            );
            i += 1;
        }
        proof {
            assert(points@ =~= target_points);
        }
        let frame = Frame { timestamp, points };
        self.frames.insert(0, frame);
        if self.frames.len() > self.max_frames_buffered as usize {
            self.frames.pop();
        }
        proof {
            let fv = FrameView { timestamp, points: target_points };
            assert(self@ =~~= spec_ingest(old(self)@, fv, old(self).spec_capacity() as nat));
        }
    }

    /// Builds the snapshot of aligned trajectories over the current buffer:
    /// one emitted frame per buffered frame, newest first, stopping early
    /// once every slot's chain is dead. The snapshot owns its data outright.
    pub fn get_tracked(&self) -> (r: TrackedSnapshot)
        requires
            self.wf(),
        ensures
            r.wf(),
            r@ == spec_tracked(self@),
    {
        let mut snap = TrackedSnapshot { frames: Vec::new() };
        if self.frames.len() == 0 {
            proof {
                assert(snap@ =~= spec_tracked(self@));
            }
            return snap;
        }
        let n_slots = self.frames[0].points.len();
        proof {
            assert(self@[0].points.len() <= u32::MAX);
            assert(self@[0] == self.frames@[0]@);
        }
        let mut state: Vec<u32> = Vec::new();
        while state.len() < n_slots
            invariant
                n_slots <= u32::MAX,
                state@.len() <= n_slots,
                forall|q: int| 0 <= q < state@.len() ==> state@[q] == q as u32,
            decreases n_slots - state.len(),
        {
            state.push(state.len() as u32);
        }
        proof {
            assert(state@ =~= identity_state(n_slots as nat));
            assert(n_slots == self@[0].points.len());
            assert(self@.skip(0int) =~= self@);
            assert(snap@ =~= Seq::<TrackedFrameView>::empty());
            assert(snap@ + walk(self@.skip(0int), state@) =~~= spec_tracked(self@));
        }
        let mut j: usize = 0;
        loop
            invariant_except_break
                self.wf(),
                0 < self.frames@.len(),
                j < self.frames@.len(),
                n_slots <= u32::MAX,
                state@.len() == n_slots,
                snap@.len() == j,
                forall|k: int|
                    0 <= k < snap@.len() ==> (#[trigger] snap@[k].points.len()) == n_slots,
                spec_tracked(self@) =~~= snap@ + walk(self@.skip(j as int), state@),
            ensures
                snap@ == spec_tracked(self@),
                snap@.len() <= self@.len(),
                forall|k: int|
                    0 <= k < snap@.len() ==> (#[trigger] snap@[k].points.len()) == n_slots,
            decreases self.frames@.len() - j,
        {
            let frame = &self.frames[j];
            let ghost s0 = state@;
            proof {
                assert(self@[j as int] == self.frames@[j as int]@);
            }
            let mut entries: Vec<Option<TrackedPoint>> = Vec::new();
            let mut i: usize = 0;
            while i < state.len()
                invariant
                    state@.len() == s0.len(),
                    i <= s0.len(),
                    entries@.len() == i,
                    frame@ == self@[j as int],
                    forall|q: int|
                        0 <= q < i ==> (#[trigger] state@[q]) == step_state(frame@.points, s0)[q],
                    forall|q: int| i <= q < s0.len() ==> (#[trigger] state@[q]) == s0[q],
                    forall|q: int|
                        0 <= q < i ==> (#[trigger] entries@[q]) == step_points(frame@.points, s0)[q],
                decreases s0.len() - i,
            {
                let idx = state[i];
                if idx != NO_MATCH && (idx as usize) < frame.points.len() {
                    let p = &frame.points[idx as usize];
                    entries.push(Some(TrackedPoint { vp_position: p.vp_position }));
                    let nx = if p.match_degree > 0 {
                        p.prev_index
                    } else {
                        NO_MATCH
                    };
                    state.set(i, nx);
                } else {
                    entries.push(None);
                    state.set(i, NO_MATCH);
                }
                i += 1;
            }
            let alive = any_live(&state);
            let ghost emitted = TrackedFrameView { timestamp: frame@.timestamp, points: entries@ };
            let ghost old_tracked = snap@;
            proof {
                assert(state@ =~= step_state(self@[j as int].points, s0));
                assert(entries@ =~= step_points(self@[j as int].points, s0));
                assert(alive <==> !all_dead(state@));
                assert(self@.skip(j as int)[0] == self@[j as int]);
                assert(self@.skip(j as int).drop_first() =~= self@.skip(j as int + 1));
            }
            snap.frames.push(TrackedFrame { timestamp: frame.timestamp, points: entries });
            proof {
                assert(snap@ =~~= old_tracked + seq![emitted]);
                assert(walk(self@.skip(j as int), s0) == seq![emitted] + if all_dead(state@) {
                    Seq::<TrackedFrameView>::empty()
                } else {
                    walk(self@.skip(j as int + 1), state@)
                });
            }
            if !alive {
                proof {
                    assert(snap@ =~~= spec_tracked(self@));
                }
                break;
            }
            j = j + 1;
            if j == self.frames.len() {
                proof {
                    assert(self@.skip(j as int) =~= Seq::<FrameView>::empty());
                    assert(walk(self@.skip(j as int), state@) =~= Seq::<TrackedFrameView>::empty());
                    assert(snap@ =~~= spec_tracked(self@));
                }
                break;
            }
        }
        snap
    }
}

impl TrackedSnapshot {
    /// Frame and slot counts of the snapshot fit in `u32`.
    pub open spec fn wf(self) -> bool {
        &&& self@.len() <= u32::MAX
        &&& forall|k: int| 0 <= k < self@.len() ==> (#[trigger] self@[k].points.len()) <= u32::MAX
    }

    /// How many frames the snapshot actually emitted. Early termination can
    /// make this smaller than the number of buffered frames.
    pub fn frames_count(&self) -> (r: u32)
        requires
            self.wf(),
        ensures
            r as nat == self@.len(),
    {
        self.frames.len() as u32
    }

    /// How many feature slots the snapshot aligns: the number of features of
    /// the newest frame, or zero for an empty snapshot.
    pub fn points_count(&self) -> (r: u32)
        requires
            self.wf(),
        ensures
            r as nat == spec_points_count(self@),
    {
        if self.frames.len() > 0 {
            self.frames[0].points.len() as u32
        } else {
            0
        }
    }

    /// The timestamp of the frame at offset `frame_index` (0 is newest), or
    /// `None` past the emitted frames.
    pub fn get_timestamp(&self, frame_index: u32) -> (r: Option<u64>)
        ensures
            r == if (frame_index as int) < self@.len() {
                Some(self@[frame_index as int].timestamp)
            } else {
                None::<u64>
            },
    {
        if (frame_index as usize) < self.frames.len() {
            Some(self.frames[frame_index as usize].timestamp)
        } else {
            None
        }
    }

    /// The position of slot `point_index` at frame offset `frame_index`, or
    /// `None` when either index is out of range or the slot's chain had
    /// already ended at that frame.
    pub fn get_point(&self, frame_index: u32, point_index: u32) -> (r: Option<TrackedPoint>)
        ensures
            r == spec_get_point(self@, frame_index as int, point_index as int),
    {
        if (frame_index as usize) < self.frames.len() {
            let frame = &self.frames[frame_index as usize];
            if (point_index as usize) < frame.points.len() {
                return frame.points[point_index as usize];
            }
        }
        None
    }

    /// The positions that slot `point_index` runs through, newest first, up
    /// to but not including the first frame at which the slot has no entry:
    /// exactly the observations a consumer walks when drawing one track.
    pub fn trajectory(&self, point_index: u32) -> (r: Vec<VpPosition>)
        requires
            self.wf(),
        ensures
            r@.len() <= self@.len(),
            forall|k: int|
                0 <= k < r@.len() ==> spec_get_point(self@, k, point_index as int) == Some(
                    TrackedPoint { vp_position: r@[k] },
                ),
            r@.len() < self@.len() ==> spec_get_point(
                self@,
                r@.len() as int,
                point_index as int,
            ) is None,
    {
        let mut r: Vec<VpPosition> = Vec::new();
        let n = self.frames.len();
        let mut k: usize = 0;
        while k < n
            invariant_except_break
                self.wf(),
                n == self@.len(),
                k <= n,
                r@.len() == k,
                forall|q: int|
                    0 <= q < r@.len() ==> spec_get_point(self@, q, point_index as int) == Some(
                        TrackedPoint { vp_position: r@[q] },
                    ),
            ensures
                r@.len() <= self@.len(),
                forall|q: int|
                    0 <= q < r@.len() ==> spec_get_point(self@, q, point_index as int) == Some(
                        TrackedPoint { vp_position: r@[q] },
                    ),
                r@.len() < self@.len() ==> spec_get_point(
                    self@,
                    r@.len() as int,
                    point_index as int,
                ) is None,
            decreases n - k,
        {
            match self.get_point(k as u32, point_index) {
                Some(p) => {
                    r.push(p.vp_position);
                },
                None => {
                    break ;
                },
            }
            k += 1;
        }
        r
    }

    /// Gathers, slot by slot, the paired observations at frame offsets 0 and
    /// `frame_index` for every slot that has an entry at both: the input a
    /// consumer solving for the camera motion between the two frames needs.
    /// The two vectors align pairwise.
    pub fn paired_points(&self, frame_index: u32) -> (r: (Vec<VpPosition>, Vec<VpPosition>))
        requires
            self.wf(),
        ensures
            r.0@.len() == r.1@.len(),
            zip_positions(r.0@, r.1@) == spec_paired_from(self@, frame_index as int, 0),
    {
        let mut points_0: Vec<VpPosition> = Vec::new();
        let mut points_1: Vec<VpPosition> = Vec::new();
        let count = self.points_count();
        let ghost t = self@;
        let ghost k = frame_index as int;
        let mut i: u32 = 0;
        while i < count
            invariant
                self.wf(),
                t == self@,
                k == frame_index as int,
                count as nat == spec_points_count(t),
                i <= count,
                points_0@.len() == points_1@.len(),
                zip_positions(points_0@, points_1@) + spec_paired_from(t, k, i as int)
                    =~= spec_paired_from(t, k, 0),
            decreases count - i,
        {
            let p0 = self.get_point(0, i);
            let p1 = self.get_point(frame_index, i);
            let ghost zipped = zip_positions(points_0@, points_1@);
            if p0.is_some() && p1.is_some() {
                let pos0 = p0.unwrap().vp_position;
                let pos1 = p1.unwrap().vp_position;
                points_0.push(pos0);
                points_1.push(pos1);
                proof {
                    assert(spec_paired_from(t, k, i as int) == seq![(pos0, pos1)]
                        + spec_paired_from(t, k, i as int + 1));
                    assert(zip_positions(points_0@, points_1@) =~= zipped + seq![(pos0, pos1)]);
                    assert((zipped + seq![(pos0, pos1)]) + spec_paired_from(t, k, i as int + 1)
                        =~= zipped + (seq![(pos0, pos1)] + spec_paired_from(t, k, i as int + 1)));
                }
            } else {
                proof {
                    assert(spec_paired_from(t, k, i as int) == spec_paired_from(t, k, i as int + 1));
                }
            }
            i += 1;
        }
        proof {
            assert(spec_paired_from(t, k, i as int) =~= Seq::<(VpPosition, VpPosition)>::empty());
            assert(zip_positions(points_0@, points_1@) + Seq::<(VpPosition, VpPosition)>::empty()
                =~= zip_positions(points_0@, points_1@));
        }
        (points_0, points_1)
    }
}

/// Capacity bound and exact retention: the buffer after an ingest holds the
/// new frame first, then the previously buffered frames in order, truncated
/// to the `max` newest; it never outgrows `max`.
pub proof fn lemma_ingest_retention(frames: Seq<FrameView>, f: FrameView, max: nat)
    ensures
        spec_ingest(frames, f, max).len() == if frames.len() + 1 <= max {
            frames.len() + 1
        } else {
            max
        },
        forall|k: int|
            0 <= k < spec_ingest(frames, f, max).len() ==> #[trigger] spec_ingest(frames, f, max)[k]
                == if k == 0 {
                f
            } else {
                frames[k - 1]
            },
{
}

proof fn lemma_walk_len(frames: Seq<FrameView>, state: Seq<u32>)
    ensures
        walk(frames, state).len() <= frames.len(),
    decreases frames.len(),
{
    if frames.len() > 0 {
        let next = step_state(frames[0].points, state);
        if !all_dead(next) {
            lemma_walk_len(frames.drop_first(), next);
        }
    }
}

proof fn lemma_walk_width(frames: Seq<FrameView>, state: Seq<u32>, k: int)
    requires
        0 <= k < walk(frames, state).len(),
    ensures
        walk(frames, state)[k].points.len() == state.len(),
    decreases frames.len(),
{
    let next = step_state(frames[0].points, state);
    if k > 0 {
        lemma_walk_width(frames.drop_first(), next, k - 1);
    }
}

/// Uniform width: every frame of a snapshot aligns exactly one entry per
/// feature slot of the newest buffered frame.
pub proof fn lemma_tracked_width(frames: Seq<FrameView>, k: int)
    requires
        0 <= k < spec_tracked(frames).len(),
    ensures
        frames.len() > 0,
        spec_tracked(frames)[k].points.len() == frames[0].points.len(),
{
    lemma_walk_width(frames, identity_state(frames[0].points.len()), k);
}

/// Anchor completeness: a snapshot of a non-empty buffer always emits a first
/// frame, and at offset 0 every slot answers with exactly the corresponding
/// point of the newest buffered frame.
pub proof fn lemma_anchor_completeness(frames: Seq<FrameView>, i: int)
    requires
        frames.len() > 0,
        frames[0].points.len() <= u32::MAX,
        0 <= i < frames[0].points.len(),
    ensures
        spec_tracked(frames).len() > 0,
        spec_tracked(frames)[0].timestamp == frames[0].timestamp,
        spec_get_point(spec_tracked(frames), 0, i) == Some(
            TrackedPoint { vp_position: frames[0].points[i].vp_position },
        ),
{
    let id = identity_state(frames[0].points.len());
    assert(id[i] == i as u32);
    assert(i as u32 != NO_MATCH);
    assert(step_points(frames[0].points, id)[i] == Some(
        TrackedPoint { vp_position: frames[0].points[i].vp_position },
    ));
    lemma_walk_width(frames, id, 0);
}

/// The chain state on entering frame offset `k` of a walk that starts with
/// state `state`.
pub open spec fn chain_state(frames: Seq<FrameView>, state: Seq<u32>, k: int) -> Seq<u32>
    decreases k,
{
    if k <= 0 {
        state
    } else {
        step_state(frames[k - 1].points, chain_state(frames, state, k - 1))
    }
}

/// The chain state on entering frame offset `k` of a snapshot walk.
pub open spec fn state_at(frames: Seq<FrameView>, k: int) -> Seq<u32> {
    chain_state(frames, identity_state(frames[0].points.len()), k)
}

proof fn lemma_chain_state_len(frames: Seq<FrameView>, state: Seq<u32>, k: int)
    ensures
        chain_state(frames, state, k).len() == state.len(),
    decreases k,
{
    if k > 0 {
        lemma_chain_state_len(frames, state, k - 1);
    }
}

proof fn lemma_chain_state_shift(frames: Seq<FrameView>, state: Seq<u32>, k: int)
    requires
        1 <= k <= frames.len(),
    ensures
        chain_state(frames, state, k) == chain_state(
            frames.drop_first(),
            step_state(frames[0].points, state),
            k - 1,
        ),
    decreases k,
{
    let next = step_state(frames[0].points, state);
    if k == 1 {
        assert(chain_state(frames, state, 0) == state);
        assert(chain_state(frames, state, 1) == next);
        assert(chain_state(frames.drop_first(), next, 0) == next);
    } else {
        lemma_chain_state_shift(frames, state, k - 1);
        assert(frames.drop_first()[k - 2] == frames[k - 1]);
        assert(chain_state(frames, state, k) == step_state(
            frames[k - 1].points,
            chain_state(frames, state, k - 1),
        ));
        assert(chain_state(frames.drop_first(), next, k - 1) == step_state(
            frames.drop_first()[k - 2].points,
            chain_state(frames.drop_first(), next, k - 2),
        ));
    }
}

proof fn lemma_walk_frame(frames: Seq<FrameView>, state: Seq<u32>, k: int)
    requires
        0 <= k < walk(frames, state).len(),
    ensures
        k < frames.len(),
        walk(frames, state)[k].timestamp == frames[k].timestamp,
        walk(frames, state)[k].points == step_points(frames[k].points, chain_state(frames, state, k)),
    decreases frames.len(),
{
    lemma_walk_len(frames, state);
    if k > 0 {
        let next = step_state(frames[0].points, state);
        lemma_walk_frame(frames.drop_first(), next, k - 1);
        lemma_chain_state_shift(frames, state, k);
        assert(frames.drop_first()[k - 1] == frames[k]);
    }
}

/// The chain characterization of a snapshot: the frame emitted at offset `k`
/// carries the buffered frame's timestamp and, per slot, the point that the
/// slot's chain state reaches in that frame.
pub proof fn lemma_tracked_frame(frames: Seq<FrameView>, k: int)
    requires
        0 <= k < spec_tracked(frames).len(),
    ensures
        frames.len() > 0,
        k < frames.len(),
        spec_tracked(frames)[k].timestamp == frames[k].timestamp,
        spec_tracked(frames)[k].points == step_points(frames[k].points, state_at(frames, k)),
{
    lemma_walk_frame(frames, identity_state(frames[0].points.len()), k);
}

proof fn lemma_death_step(frames: Seq<FrameView>, i: int, k: int)
    requires
        frames.len() > 0,
        0 <= i < frames[0].points.len(),
        0 <= k,
        k + 1 < spec_tracked(frames).len(),
        spec_tracked(frames)[k].points[i] is None,
    ensures
        spec_tracked(frames)[k + 1].points[i] is None,
{
    lemma_tracked_frame(frames, k);
    lemma_tracked_frame(frames, k + 1);
    let id = identity_state(frames[0].points.len());
    lemma_chain_state_len(frames, id, k);
    lemma_chain_state_len(frames, id, k + 1);
    assert(state_at(frames, k + 1)[i] == NO_MATCH);
}

/// Monotonic death: once a slot answers `None` at some frame offset, it
/// answers `None` at every larger offset too — a chain never resurrects.
pub proof fn lemma_monotonic_death(frames: Seq<FrameView>, i: int, k: int, k2: int)
    requires
        0 <= i,
        0 <= k <= k2,
        spec_get_point(spec_tracked(frames), k, i) is None,
    ensures
        spec_get_point(spec_tracked(frames), k2, i) is None,
    decreases k2 - k,
{
    let t = spec_tracked(frames);
    if k < t.len() && k2 < t.len() {
        lemma_tracked_width(frames, k);
        lemma_tracked_width(frames, k2);
        if i < frames[0].points.len() && k2 > k {
            lemma_death_step(frames, i, k);
            lemma_monotonic_death(frames, i, k + 1, k2);
        }
    }
}

/// Confidence gating: when the point a slot's chain reaches in frame `k` has
/// match degree zero, the chain ends there — the slot answers `None` at
/// offset `k + 1`, whatever `prev_index` the point carried.
pub proof fn lemma_confidence_gating(frames: Seq<FrameView>, i: int, k: int)
    requires
        frames.len() > 0,
        0 <= i < frames[0].points.len(),
        0 <= k,
        k + 1 < spec_tracked(frames).len(),
        ({
            let idx = state_at(frames, k)[i];
            &&& idx != NO_MATCH
            &&& (idx as int) < frames[k].points.len()
            &&& frames[k].points[idx as int].match_degree == 0
        }),
    ensures
        spec_get_point(spec_tracked(frames), k + 1, i) is None,
{
    lemma_tracked_frame(frames, k + 1);
    lemma_tracked_width(frames, k + 1);
    let id = identity_state(frames[0].points.len());
    lemma_chain_state_len(frames, id, k);
    let idx = state_at(frames, k)[i];
    assert(state_at(frames, k + 1)[i] == gate_index(frames[k].points[idx as int]));
    assert(state_at(frames, k + 1)[i] == NO_MATCH);
}

proof fn lemma_walk_live(frames: Seq<FrameView>, state: Seq<u32>, k: int)
    requires
        1 <= k < walk(frames, state).len(),
    ensures
        !all_dead(chain_state(frames, state, k)),
    decreases k,
{
    lemma_walk_len(frames, state);
    let next = step_state(frames[0].points, state);
    assert(!all_dead(next));
    if k == 1 {
        assert(chain_state(frames, state, 0) == state);
        assert(chain_state(frames, state, 1) == next);
    } else {
        lemma_walk_live(frames.drop_first(), next, k - 1);
        lemma_chain_state_shift(frames, state, k);
    }
}

/// No dead frames: every frame a snapshot emits past the first one was
/// entered with at least one still-live chain, so a snapshot never extends
/// past the depth needed to exhaust all chains.
pub proof fn lemma_no_dead_frames(frames: Seq<FrameView>, k: int)
    requires
        1 <= k < spec_tracked(frames).len(),
    ensures
        !all_dead(state_at(frames, k)),
{
    lemma_walk_live(frames, identity_state(frames[0].points.len()), k);
}

proof fn lemma_walk_append(frames: Seq<FrameView>, more: Seq<FrameView>, state: Seq<u32>)
    requires
        frames.len() > 0,
        walk(frames, state).len() < frames.len() || all_dead(
            chain_state(frames, state, frames.len() as int),
        ),
    ensures
        walk(frames + more, state) == walk(frames, state),
    decreases frames.len(),
{
    assert((frames + more)[0] == frames[0]);
    let next = step_state(frames[0].points, state);
    if !all_dead(next) {
        assert(chain_state(frames, state, 0) == state);
        assert(chain_state(frames, state, 1) == next);
        lemma_walk_len(frames, state);
        assert(walk(frames, state).len() == 1 + walk(frames.drop_first(), next).len());
        if walk(frames, state).len() == frames.len() {
            lemma_chain_state_shift(frames, state, frames.len() as int);
        }
        lemma_walk_append(frames.drop_first(), more, next);
        assert((frames + more).drop_first() =~= frames.drop_first() + more);
    }
}

/// Early-termination correctness: when a snapshot already stops before the
/// end of the buffer, or every chain is dead by its end, frames appended
/// behind the buffer (all-dead trailing frames, for instance) change nothing
/// about the snapshot.
pub proof fn lemma_early_termination(frames: Seq<FrameView>, more: Seq<FrameView>)
    requires
        frames.len() > 0,
        spec_tracked(frames).len() < frames.len() || all_dead(
            state_at(frames, frames.len() as int),
        ),
    ensures
        spec_tracked(frames + more) == spec_tracked(frames),
{
    assert((frames + more)[0] == frames[0]);
    lemma_walk_append(frames, more, identity_state(frames[0].points.len()));
}

} // verus!

