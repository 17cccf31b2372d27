//! Drag placement: where a clip lands while it is dragged or trimmed.
//!
//! The same resolution serves the live ghost and the commit on release, so the
//! preview never disagrees with the drop.
//! - Magnet snapping pulls the dragged edges to clip edges on every lane, the
//!   playhead and tick 0.
//! - A lane only accepts its own kind: a foreign lane, empty space or an
//!   overlapping span resolves to a new lane inserted at the hovered row.

use vstd::prelude::*;

use crate::find::{first_where, lemma_first_found, lemma_first_where};
use crate::model::{Clip, Sequence, Track, TrackKind};
use crate::num::{clamp, clamped32, distance, max32, max_int, min32, min_int, sat_add, sat_sub};
use crate::text::str_eq;

verus! {

/// Where a dragged edge was pulled to, if anywhere.
#[derive(Clone, Copy, Debug, PartialEq, Eq, Structural)]
pub struct SnapResult {
    pub has_snap: bool,
    pub snapped_start_value: i32,
    pub snap_line_tick: i32,
}

/// Where a dragged clip lands.
#[derive(Debug)]
pub struct ClipDragResolution {
    pub valid: bool,
    pub is_new_lane: bool,
    pub target_track_id: String,
    pub target_row: i32,
    pub resolved_start: i32,
    pub duration_ticks: i32,
    pub has_snap: bool,
    pub snap_line_tick: i32,
    pub is_noop: bool,
}

/// The extent that an edge trim leaves a clip with.
#[derive(Clone, Copy, Debug, PartialEq, Eq, Structural)]
pub struct ClipTrimResolution {
    pub valid: bool,
    pub new_start: i32,
    pub new_duration: i32,
    pub has_snap: bool,
    pub snap_line_tick: i32,
    pub is_noop: bool,
}

/// The contents of a [`ClipDragResolution`].
pub struct DragView {
    pub valid: bool,
    pub is_new_lane: bool,
    pub target_track_id: Seq<char>,
    pub target_row: int,
    pub resolved_start: int,
    pub duration_ticks: int,
    pub has_snap: bool,
    pub snap_line_tick: int,
    pub is_noop: bool,
}

impl View for ClipDragResolution {
    type V = DragView;

    open spec fn view(&self) -> DragView {
        DragView {
            valid: self.valid,
            is_new_lane: self.is_new_lane,
            target_track_id: self.target_track_id@,
            target_row: self.target_row as int,
            resolved_start: self.resolved_start as int,
            duration_ticks: self.duration_ticks as int,
            has_snap: self.has_snap,
            snap_line_tick: self.snap_line_tick as int,
            is_noop: self.is_noop,
        }
    }
}

// --- snapping -------------------------------------------------------------

/// One way to snap: bring an edge of the span onto a point.
pub struct Probe {
    /// How far the edge would travel.
    pub travel: int,
    /// Where the span would start.
    pub start: int,
    /// The point it snapped to.
    pub line: int,
}

/// The clip edges on a lane, leaving out the clip named `skip`.
pub open spec fn lane_points(clips: Seq<Clip>, skip: Option<Seq<char>>) -> Seq<int>
    decreases clips.len(),
{
    if clips.len() == 0 {
        Seq::empty()
    } else {
        let before = lane_points(clips.drop_last(), skip);
        if skip == Some(clips.last().id@) {
            before
        } else {
            before.push(clips.last().start()).push(clips.last().end())
        }
    }
}

/// The clip that is left out on `track` while `clip` of lane `lane` moves.
pub open spec fn skipped_on(track: Track, lane: Seq<char>, clip: Seq<char>) -> Option<Seq<char>> {
    if track.id@ == lane {
        Some(clip)
    } else {
        None
    }
}

/// The clip edges on every lane, leaving out `clip` of lane `lane`.
pub open spec fn edge_points(tracks: Seq<Track>, lane: Seq<char>, clip: Seq<char>) -> Seq<int>
    decreases tracks.len(),
{
    if tracks.len() == 0 {
        Seq::empty()
    } else {
        edge_points(tracks.drop_last(), lane, clip) + lane_points(
            tracks.last().clips@,
            skipped_on(tracks.last(), lane, clip),
        )
    }
}

/// Every point that attracts an edge: tick 0, the playhead and the clip edges.
pub open spec fn snap_points(
    tracks: Seq<Track>,
    lane: Seq<char>,
    clip: Seq<char>,
    playhead: int,
) -> Seq<int> {
    seq![0, playhead] + edge_points(tracks, lane, clip)
}

/// Snapping the leading edge of a span that starts at `start`.
pub open spec fn leading(point: int, start: int) -> Probe {
    Probe { travel: distance(point, start), start: point, line: point }
}

/// Snapping the trailing edge of a span of `duration` that starts at `start`.
pub open spec fn trailing(point: int, start: int, duration: int) -> Probe {
    Probe {
        travel: distance(point, clamped32(start + duration)),
        start: clamped32(point - duration),
        line: point,
    }
}

/// Both probes of each point, in order.
pub open spec fn probes(points: Seq<int>, start: int, duration: int) -> Seq<Probe>
    decreases points.len(),
{
    if points.len() == 0 {
        Seq::empty()
    } else {
        probes(points.drop_last(), start, duration).push(leading(points.last(), start)).push(
            trailing(points.last(), start, duration),
        )
    }
}

/// `p` when it is within reach and travels less than `best`, else `best`.
pub open spec fn better(best: Option<Probe>, p: Probe, threshold: int) -> Option<Probe> {
    if p.travel <= threshold && (best is None || p.travel < best->0.travel) {
        Some(p)
    } else {
        best
    }
}

/// The probe with the least travel within `threshold`; of equals, the first.
pub open spec fn nearest(ps: Seq<Probe>, threshold: int) -> Option<Probe>
    decreases ps.len(),
{
    if ps.len() == 0 {
        None
    } else {
        better(nearest(ps.drop_last(), threshold), ps.last(), threshold)
    }
}

/// What snapping makes of a span at `start`.
pub open spec fn drag_snap(
    tracks: Seq<Track>,
    lane: Seq<char>,
    clip: Seq<char>,
    start: int,
    duration: int,
    threshold: int,
    playhead: int,
) -> Option<Probe> {
    if threshold <= 0 {
        None
    } else {
        nearest(probes(snap_points(tracks, lane, clip, playhead), start, duration), threshold)
    }
}

/// How a snap decision is reported: unsnapped, the span and the line stay at
/// the cursor.
pub open spec fn snap_report(snap: Option<Probe>, cursor: int) -> (bool, int, int) {
    match snap {
        None => (false, cursor, cursor),
        Some(p) => (true, p.start, p.line),
    }
}

/// The snap is within the threshold, no probe travels less, and none before it
/// travels as little; there is no snap only when every probe is out of reach.
pub proof fn law_nearest_probe(ps: Seq<Probe>, threshold: int)
    ensures
        match nearest(ps, threshold) {
            None => forall|j: int| 0 <= j < ps.len() ==> (#[trigger] ps[j]).travel > threshold,
            Some(p) => p.travel <= threshold && exists|i: int|
                0 <= i < ps.len() && #[trigger] ps[i] == p && (forall|j: int|
                    0 <= j < ps.len() ==> p.travel <= (#[trigger] ps[j]).travel) && (forall|j: int|
                    0 <= j < i ==> p.travel < (#[trigger] ps[j]).travel),
        },
    decreases ps.len(),
{
    if ps.len() > 0 {
        let front = ps.drop_last();
        law_nearest_probe(front, threshold);
        assert forall|j: int| 0 <= j < front.len() implies front[j] == #[trigger] ps[j] by {}
        match nearest(ps, threshold) {
            None => {},
            Some(p) => {
                if nearest(front, threshold) == Some(p) && !(ps.last().travel <= threshold
                    && ps.last().travel < p.travel) {
                    let i = choose|i: int|
                        0 <= i < front.len() && #[trigger] front[i] == p && (forall|j: int|
                            0 <= j < front.len() ==> p.travel <= (#[trigger] front[j]).travel) && (
                        forall|j: int| 0 <= j < i ==> p.travel < (#[trigger] front[j]).travel);
                    assert(ps[i] == p);
                } else {
                    assert(ps[ps.len() - 1] == p);
                }
            },
        }
    }
}

/// The running best of a snap search, as machine values.
#[derive(Clone, Copy)]
struct Best {
    travel: i64,
    start: i32,
    line: i32,
}

spec fn best_view(b: Option<Best>) -> Option<Probe> {
    match b {
        None => None,
        Some(b) => Some(Probe { travel: b.travel as int, start: b.start as int, line: b.line as int }),
    }
}

fn gap(a: i32, b: i32) -> (r: i64)
    ensures
        r == distance(a as int, b as int),
{
    if a >= b {
        a as i64 - b as i64
    } else {
        b as i64 - a as i64
    }
}

/// Weigh both probes of `point` against the best so far.
fn consider(best: Option<Best>, point: i32, start: i32, duration: i32, threshold: i32) -> (r: Option<
    Best,
>)
    ensures
        best_view(r) == better(
            better(best_view(best), leading(point as int, start as int), threshold as int),
            trailing(point as int, start as int, duration as int),
            threshold as int,
        ),
{
    let mut found = best;
    let d_leading: i64 = gap(point, start);
    let closer: bool = match found {
        None => true,
        Some(b) => d_leading < b.travel,
    };
    if d_leading <= threshold as i64 && closer {
        found = Some(Best { travel: d_leading, start: point, line: point });
    }
    let d_trailing: i64 = gap(point, sat_add(start, duration));
    let closer: bool = match found {
        None => true,
        Some(b) => d_trailing < b.travel,
    };
    if d_trailing <= threshold as i64 && closer {
        found = Some(Best { travel: d_trailing, start: sat_sub(point, duration), line: point });
    }
    found
}

proof fn lemma_nearest_push(points: Seq<int>, point: int, start: int, duration: int, threshold: int)
    ensures
        nearest(probes(points.push(point), start, duration), threshold) == better(
            better(
                nearest(probes(points, start, duration), threshold),
                leading(point, start),
                threshold,
            ),
            trailing(point, start, duration),
            threshold,
        ),
{
    reveal_with_fuel(nearest, 3);
    let ps = probes(points, start, duration);
    let a = ps.push(leading(point, start));
    let b = a.push(trailing(point, start, duration));
    assert(points.push(point).drop_last() =~= points);
    assert(b.drop_last() =~= a);
    assert(a.drop_last() =~= ps);
}

impl SnapResult {
    /// No snap: the span and the guide line stay at the cursor.
    pub fn none(cursor: i32) -> (r: Self)
        ensures
            !r.has_snap,
            r.snapped_start_value == cursor,
            r.snap_line_tick == cursor,
    {
        SnapResult { has_snap: false, snapped_start_value: cursor, snap_line_tick: cursor }
    }
}

/// Snap the span `[cursor_start_value, +clip_duration_ticks)` to the nearest
/// point within `snap_threshold_ticks`: either edge may snap to tick 0, the
/// playhead or any clip edge but the dragged clip's own.
pub fn compute_drag_snap(
    sequence: &Sequence,
    dragging_source_track_id: &str,
    dragging_clip_id: &str,
    cursor_start_value: i32,
    clip_duration_ticks: i32,
    snap_threshold_ticks: i32,
    playhead_tick: i32,
) -> (r: SnapResult)
    ensures
        (r.has_snap, r.snapped_start_value as int, r.snap_line_tick as int) == snap_report(
            drag_snap(
                sequence.tracks@,
                dragging_source_track_id@,
                dragging_clip_id@,
                cursor_start_value as int,
                clip_duration_ticks as int,
                snap_threshold_ticks as int,
                playhead_tick as int,
            ),
            cursor_start_value as int,
        ),
{
    if snap_threshold_ticks <= 0 {
        return SnapResult::none(cursor_start_value);
    }
    let ghost lane = dragging_source_track_id@;
    let ghost dragged = dragging_clip_id@;
    let ghost start = cursor_start_value as int;
    let ghost duration = clip_duration_ticks as int;
    let ghost threshold = snap_threshold_ticks as int;
    let ghost mut points: Seq<int> = Seq::empty();

    let best = consider(
        None,
        0,
        cursor_start_value,
        clip_duration_ticks,
        snap_threshold_ticks,
    );
    proof {
        lemma_nearest_push(points, 0, start, duration, threshold);
        points = points.push(0);
    }
    let mut best = consider(
        best,
        playhead_tick,
        cursor_start_value,
        clip_duration_ticks,
        snap_threshold_ticks,
    );
    proof {
        lemma_nearest_push(points, playhead_tick as int, start, duration, threshold);
        points = points.push(playhead_tick as int);
        assert(points =~= seq![0, playhead_tick as int] + edge_points(
            sequence.tracks@.take(0),
            lane,
            dragged,
        ));
    }
    let mut t: usize = 0;
    while t < sequence.tracks.len()
        invariant
            t <= sequence.tracks.len(),
            lane == dragging_source_track_id@,
            dragged == dragging_clip_id@,
            start == cursor_start_value,
            duration == clip_duration_ticks,
            threshold == snap_threshold_ticks,
            points == seq![0, playhead_tick as int] + edge_points(
                sequence.tracks@.take(t as int),
                lane,
                dragged,
            ),
            best_view(best) == nearest(probes(points, start, duration), threshold),
        decreases sequence.tracks.len() - t,
    {
        let track = &sequence.tracks[t];
        let own_lane: bool = str_eq(track.id.as_str(), dragging_source_track_id);
        let ghost before = points;
        let ghost skip = skipped_on(*track, lane, dragged);
        let mut c: usize = 0;
        assert(points =~= before + lane_points(track.clips@.take(0), skip));
        while c < track.clips.len()
            invariant
                c <= track.clips.len(),
                own_lane == (track.id@ == lane),
                dragged == dragging_clip_id@,
                skip == skipped_on(*track, lane, dragged),
                start == cursor_start_value,
                duration == clip_duration_ticks,
                threshold == snap_threshold_ticks,
                points == before + lane_points(track.clips@.take(c as int), skip),
                best_view(best) == nearest(probes(points, start, duration), threshold),
            decreases track.clips.len() - c,
        {
            let clip = &track.clips[c];
            let ghost upto = track.clips@.take(c as int + 1);
            assert(upto.drop_last() =~= track.clips@.take(c as int));
            assert(upto.last() == *clip);
            if !(own_lane && str_eq(clip.id.as_str(), dragging_clip_id)) {
                let s: i32 = clip.timeline_start.value;
                let e: i32 = sat_add(s, clip.source_range.duration.value);
                best =
                consider(best, s, cursor_start_value, clip_duration_ticks, snap_threshold_ticks);
                proof {
                    lemma_nearest_push(points, s as int, start, duration, threshold);
                    points = points.push(s as int);
                }
                best =
                consider(best, e, cursor_start_value, clip_duration_ticks, snap_threshold_ticks);
                proof {
                    lemma_nearest_push(points, e as int, start, duration, threshold);
                    points = points.push(e as int);
                    assert(points =~= before + lane_points(upto, skip));
                }
            }
            c += 1;
        }
        proof {
            let upto = sequence.tracks@.take(t as int + 1);
            assert(upto.drop_last() =~= sequence.tracks@.take(t as int));
            assert(track.clips@.take(c as int) =~= track.clips@);
            assert(points =~= seq![0, playhead_tick as int] + edge_points(upto, lane, dragged));
        }
        t += 1;
    }
    assert(sequence.tracks@.take(t as int) =~= sequence.tracks@);
    match best {
        None => SnapResult::none(cursor_start_value),
        Some(b) => SnapResult { has_snap: true, snapped_start_value: b.start, snap_line_tick: b.line },
    }
}

// --- lookups --------------------------------------------------------------

/// Having this id.
pub open spec fn clip_named(id: Seq<char>) -> spec_fn(Clip) -> bool {
    |c: Clip| c.id@ == id
}

/// Having this id.
pub open spec fn track_named(id: Seq<char>) -> spec_fn(Track) -> bool {
    |t: Track| t.id@ == id
}

/// Having this id and holding the clip.
pub open spec fn track_with(id: Seq<char>, clip: Seq<char>) -> spec_fn(Track) -> bool {
    |t: Track| t.id@ == id && clip_index(t.clips@, clip) is Some
}

/// Index of the first clip with this id.
pub open spec fn clip_index(clips: Seq<Clip>, id: Seq<char>) -> Option<int> {
    first_where(clips, clip_named(id))
}

/// Index of the first lane with this id.
pub open spec fn track_index(tracks: Seq<Track>, id: Seq<char>) -> Option<int> {
    first_where(tracks, track_named(id))
}

/// Index of the first lane with this id that holds the clip.
pub open spec fn holding_index(tracks: Seq<Track>, id: Seq<char>, clip: Seq<char>) -> Option<int> {
    first_where(tracks, track_with(id, clip))
}

/// The clip of a lane that a drag or a selection names.
pub open spec fn named_clip(tracks: Seq<Track>, id: Seq<char>, clip: Seq<char>) -> Option<
    (TrackKind, Clip),
> {
    match holding_index(tracks, id, clip) {
        Some(t) => Some(
            (tracks[t].kind, tracks[t].clips@[clip_index(tracks[t].clips@, clip)->0]),
        ),
        None => None,
    }
}

/// First clip on a lane with this id.
pub fn find_clip(clips: &Vec<Clip>, id: &str) -> (r: Option<usize>)
    ensures
        match r {
            Some(i) => clip_index(clips@, id@) == Some(i as int) && i < clips.len() && clips@[i as int].id@
                == id@,
            None => clip_index(clips@, id@) is None,
        },
{
    let ghost p = clip_named(id@);
    let mut i: usize = 0;
    while i < clips.len()
        invariant
            i <= clips.len(),
            p == clip_named(id@),
            forall|j: int| 0 <= j < i ==> !p(#[trigger] clips@[j]),
        decreases clips.len() - i,
    {
        if str_eq(clips[i].id.as_str(), id) {
            proof {
                lemma_first_found(clips@, p, i as int);
            }
            return Some(i);
        }
        i += 1;
    }
    proof {
        lemma_first_where(clips@, p);
    }
    None
}

/// First lane with this id.
pub fn find_track(tracks: &Vec<Track>, id: &str) -> (r: Option<usize>)
    ensures
        match r {
            Some(i) => track_index(tracks@, id@) == Some(i as int) && i < tracks.len()
                && tracks@[i as int].id@ == id@,
            None => track_index(tracks@, id@) is None,
        },
{
    let ghost p = track_named(id@);
    let mut i: usize = 0;
    while i < tracks.len()
        invariant
            i <= tracks.len(),
            p == track_named(id@),
            forall|j: int| 0 <= j < i ==> !p(#[trigger] tracks@[j]),
        decreases tracks.len() - i,
    {
        if str_eq(tracks[i].id.as_str(), id) {
            proof {
                lemma_first_found(tracks@, p, i as int);
            }
            return Some(i);
        }
        i += 1;
    }
    proof {
        lemma_first_where(tracks@, p);
    }
    None
}

/// Row of the lane and index on it of the clip that a drag or selection names.
pub fn find_named(sequence: &Sequence, track_id: &str, clip_id: &str) -> (r: Option<(usize, usize)>)
    ensures
        match r {
            Some((t, c)) => {
                &&& t < sequence.tracks.len()
                &&& c < sequence.tracks@[t as int].clips.len()
                &&& holding_index(sequence.tracks@, track_id@, clip_id@) == Some(t as int)
                &&& clip_index(sequence.tracks@[t as int].clips@, clip_id@) == Some(c as int)
            },
            None => named_clip(sequence.tracks@, track_id@, clip_id@) is None,
        },
{
    let ghost p = track_with(track_id@, clip_id@);
    let mut i: usize = 0;
    while i < sequence.tracks.len()
        invariant
            i <= sequence.tracks.len(),
            p == track_with(track_id@, clip_id@),
            forall|j: int| 0 <= j < i ==> !p(#[trigger] sequence.tracks@[j]),
        decreases sequence.tracks.len() - i,
    {
        let track = &sequence.tracks[i];
        if str_eq(track.id.as_str(), track_id) {
            match find_clip(&track.clips, clip_id) {
                Some(c) => {
                    proof {
                        lemma_first_found(sequence.tracks@, p, i as int);
                    }
                    return Some((i, c));
                },
                None => {},
            }
        }
        i += 1;
    }
    proof {
        lemma_first_where(sequence.tracks@, p);
    }
    None
}

/// Lane kind, start and length of the dragged clip.
pub fn find_dragged_clip(sequence: &Sequence, source_track_id: &str, clip_id: &str) -> (r: Option<
    (TrackKind, i32, i32),
>)
    ensures
        match named_clip(sequence.tracks@, source_track_id@, clip_id@) {
            Some((kind, clip)) => r == Some(
                (kind, clip.timeline_start.value, clip.source_range.duration.value),
            ),
            None => r is None,
        },
{
    match find_named(sequence, source_track_id, clip_id) {
        Some((t, c)) => {
            let track = &sequence.tracks[t];
            Some(
                (
                    track.kind,
                    track.clips[c].timeline_start.value,
                    track.clips[c].source_range.duration.value,
                ),
            )
        },
        None => None,
    }
}

/// Whether `[start, start + duration)` meets no clip but the one named `skip`.
pub open spec fn lane_free(
    clips: Seq<Clip>,
    start: int,
    duration: int,
    skip: Option<Seq<char>>,
) -> bool {
    forall|i: int|
        0 <= i < clips.len() && skip != Some(clips[i].id@) ==> !(start < (#[trigger] clips[i]).end()
            && clips[i].start() < clamped32(start + duration))
}

/// Whether `[start, start + duration)` overlaps no clip on `track`, leaving out
/// the dragged clip itself when it moves within its own lane.
pub fn span_is_free(track: &Track, start: i32, duration: i32, exclude: Option<&str>) -> (r: bool)
    ensures
        r == lane_free(
            track.clips@,
            start as int,
            duration as int,
            match exclude {
                Some(id) => Some(id@),
                None => None,
            },
        ),
{
    let ghost skip = match exclude {
        Some(id) => Some(id@),
        None => None,
    };
    let end: i32 = sat_add(start, duration);
    let mut i: usize = 0;
    while i < track.clips.len()
        invariant
            i <= track.clips.len(),
            end == clamped32(start + duration),
            skip == match exclude {
                Some(id) => Some(id@),
                None => None,
            },
            forall|j: int|
                0 <= j < i && skip != Some(track.clips@[j].id@) ==> !(start < (
                #[trigger] track.clips@[j]).end() && track.clips@[j].start() < end),
        decreases track.clips.len() - i,
    {
        let clip = &track.clips[i];
        let skipped: bool = match exclude {
            Some(id) => str_eq(clip.id.as_str(), id),
            None => false,
        };
        if !skipped {
            let s: i32 = clip.timeline_start.value;
            let e: i32 = sat_add(s, clip.source_range.duration.value);
            if start < e && s < end {
                assert(start < track.clips@[i as int].end());
                return false;
            }
        }
        i += 1;
    }
    true
}

// --- moving ---------------------------------------------------------------

/// Nothing to place.
pub open spec fn no_drag() -> DragView {
    DragView {
        valid: false,
        is_new_lane: false,
        target_track_id: Seq::empty(),
        target_row: 0,
        resolved_start: 0,
        duration_ticks: 0,
        has_snap: false,
        snap_line_tick: 0,
        is_noop: true,
    }
}

/// Whether the hovered row is a lane of the clip's kind.
pub open spec fn row_accepts(tracks: Seq<Track>, row: int, kind: TrackKind) -> bool {
    0 <= row < tracks.len() && tracks[row].kind == kind
}

/// Where a clip of `kind`, `orig` and `duration` lands when it is dragged by
/// `dx` over row `hover`: on the hovered lane at the snapped start when that is
/// free, else there at the raw start when that is free, else on a new lane.
pub open spec fn drag_placement(
    tracks: Seq<Track>,
    lane: Seq<char>,
    clip: Seq<char>,
    kind: TrackKind,
    orig: int,
    duration: int,
    dx: int,
    hover: int,
    playhead: int,
    threshold: int,
) -> DragView {
    let desired = max_int(clamped32(orig + dx), 0);
    let snap = drag_snap(tracks, lane, clip, desired, duration, threshold, playhead);
    let (has_snap, snapped_to, line) = snap_report(snap, desired);
    let snapped = max_int(snapped_to, 0);
    let skip = skipped_on(tracks[hover], lane, clip);
    if row_accepts(tracks, hover, kind) && lane_free(tracks[hover].clips@, snapped, duration, skip) {
        DragView {
            valid: true,
            is_new_lane: false,
            target_track_id: tracks[hover].id@,
            target_row: hover,
            resolved_start: snapped,
            duration_ticks: duration,
            has_snap,
            snap_line_tick: line,
            is_noop: tracks[hover].id@ == lane && snapped == orig,
        }
    } else if row_accepts(tracks, hover, kind) && has_snap && snapped != desired && lane_free(
        tracks[hover].clips@,
        desired,
        duration,
        skip,
    ) {
        DragView {
            valid: true,
            is_new_lane: false,
            target_track_id: tracks[hover].id@,
            target_row: hover,
            resolved_start: desired,
            duration_ticks: duration,
            has_snap: false,
            snap_line_tick: 0,
            is_noop: tracks[hover].id@ == lane && desired == orig,
        }
    } else {
        DragView {
            valid: true,
            is_new_lane: true,
            target_track_id: Seq::empty(),
            target_row: clamp(hover, 0, tracks.len() as int),
            resolved_start: snapped,
            duration_ticks: duration,
            has_snap,
            snap_line_tick: line,
            is_noop: false,
        }
    }
}

/// What a drag of the named clip resolves to.
pub open spec fn drag_resolution(
    tracks: Seq<Track>,
    lane: Seq<char>,
    clip: Seq<char>,
    dx: int,
    hover: int,
    playhead: int,
    threshold: int,
) -> DragView {
    match named_clip(tracks, lane, clip) {
        None => no_drag(),
        Some((kind, c)) => drag_placement(
            tracks,
            lane,
            clip,
            kind,
            c.start(),
            c.duration(),
            dx,
            hover,
            playhead,
            threshold,
        ),
    }
}

impl ClipDragResolution {
    /// The drag names no clip.
    pub fn invalid() -> (r: Self)
        ensures
            r@ == no_drag(),
    {
        ClipDragResolution {
            valid: false,
            is_new_lane: false,
            target_track_id: String::new(),
            target_row: 0,
            resolved_start: 0,
            duration_ticks: 0,
            has_snap: false,
            snap_line_tick: 0,
            is_noop: true,
        }
    }
}

/// `row` pulled into `0..=count`.
fn clamp_row(row: i32, count: usize) -> (r: i32)
    ensures
        r == clamp(row as int, 0, count as int),
{
    if row < 0 {
        0
    } else if row as usize > count {
        count as i32
    } else {
        row
    }
}

/// Resolve where a clip dragged by (`dx_ticks`, `hover_row`) would land.
///
/// `hover_row` is the lane row under the dragged clip's vertical centre, top
/// first; out of range means above or below the existing lanes.
pub fn resolve_clip_drag(
    sequence: &Sequence,
    source_track_id: &str,
    dragging_clip_id: &str,
    dx_ticks: i32,
    hover_row: i32,
    playhead_tick: i32,
    snap_threshold_ticks: i32,
) -> (r: ClipDragResolution)
    ensures
        r@ == drag_resolution(
            sequence.tracks@,
            source_track_id@,
            dragging_clip_id@,
            dx_ticks as int,
            hover_row as int,
            playhead_tick as int,
            snap_threshold_ticks as int,
        ),
{
    let count: usize = sequence.tracks.len();
    let (kind, orig_start, duration) = match find_dragged_clip(
        sequence,
        source_track_id,
        dragging_clip_id,
    ) {
        Some(found) => found,
        None => {
            return ClipDragResolution::invalid();
        },
    };
    let desired: i32 = max32(sat_add(orig_start, dx_ticks), 0);
    let snap = compute_drag_snap(
        sequence,
        source_track_id,
        dragging_clip_id,
        desired,
        duration,
        snap_threshold_ticks,
        playhead_tick,
    );
    let snapped: i32 = max32(snap.snapped_start_value, 0);

    if hover_row >= 0 && (hover_row as usize) < count && sequence.tracks[hover_row as usize].kind
        == kind {
        let track = &sequence.tracks[hover_row as usize];
        let own_lane: bool = str_eq(track.id.as_str(), source_track_id);
        let exclude: Option<&str> = if own_lane {
            Some(dragging_clip_id)
        } else {
            None
        };
        if span_is_free(track, snapped, duration, exclude) {
            return ClipDragResolution {
                valid: true,
                is_new_lane: false,
                target_track_id: track.id.clone(),
                target_row: hover_row,
                resolved_start: snapped,
                duration_ticks: duration,
                has_snap: snap.has_snap,
                snap_line_tick: snap.snap_line_tick,
                is_noop: own_lane && snapped == orig_start,
            };
        }
        // The snap pulled into a conflict that the raw position does not have.
        if snap.has_snap && snapped != desired && span_is_free(track, desired, duration, exclude) {
            return ClipDragResolution {
                valid: true,
                is_new_lane: false,
                target_track_id: track.id.clone(),
                target_row: hover_row,
                resolved_start: desired,
                duration_ticks: duration,
                has_snap: false,
                snap_line_tick: 0,
                is_noop: own_lane && desired == orig_start,
            };
        }
    }
    ClipDragResolution {
        valid: true,
        is_new_lane: true,
        target_track_id: String::new(),
        target_row: clamp_row(hover_row, count),
        resolved_start: snapped,
        duration_ticks: duration,
        has_snap: snap.has_snap,
        snap_line_tick: snap.snap_line_tick,
        is_noop: false,
    }
}

/// A drag never lands before tick 0 and keeps the clip's length. On an existing
/// lane it lands on the hovered one, which has the clip's kind, in a span that
/// is free of every other clip; a new lane is inserted inside the stack.
pub proof fn law_drag_lands_free(
    tracks: Seq<Track>,
    lane: Seq<char>,
    clip: Seq<char>,
    dx: int,
    hover: int,
    playhead: int,
    threshold: int,
)
    ensures
        ({
            let r = drag_resolution(tracks, lane, clip, dx, hover, playhead, threshold);
            match named_clip(tracks, lane, clip) {
                None => !r.valid,
                Some((kind, c)) => {
                    &&& r.valid
                    &&& r.resolved_start >= 0
                    &&& r.duration_ticks == c.duration()
                    &&& r.is_new_lane ==> 0 <= r.target_row <= tracks.len()
                    &&& !r.is_new_lane ==> r.target_row == hover && row_accepts(tracks, hover, kind)
                        && r.target_track_id == tracks[hover].id@ && lane_free(
                        tracks[hover].clips@,
                        r.resolved_start,
                        r.duration_ticks,
                        skipped_on(tracks[hover], lane, clip),
                    )
                },
            }
        }),
{
}

// --- trimming -------------------------------------------------------------

/// The trimmed clip's placement, source headroom and lane neighbours.
#[derive(Clone, Copy, Debug, PartialEq, Eq, Structural)]
pub struct TrimContext {
    pub start: i32,
    pub duration: i32,
    pub head_room: i32,
    pub tail_room: i32,
    /// End of the nearest clip before this one on the lane (0 if none).
    pub prev_end: i32,
    /// Start of the nearest clip after this one (a huge value if none).
    pub next_start: i32,
}

/// Where a clip may end when nothing follows it.
pub const FAR_AHEAD: i32 = 0x3fff_ffff;

/// Latest end, at least 0, of the clips other than `id` that end by `start`.
pub open spec fn end_before(clips: Seq<Clip>, id: Seq<char>, start: int) -> int
    decreases clips.len(),
{
    if clips.len() == 0 {
        0
    } else {
        let before = end_before(clips.drop_last(), id, start);
        if clips.last().id@ != id && clips.last().end() <= start {
            max_int(before, clips.last().end())
        } else {
            before
        }
    }
}

/// Earliest start, at most [`FAR_AHEAD`], of the clips other than `id` that
/// start from `end` on.
pub open spec fn start_after(clips: Seq<Clip>, id: Seq<char>, end: int) -> int
    decreases clips.len(),
{
    if clips.len() == 0 {
        FAR_AHEAD as int
    } else {
        let before = start_after(clips.drop_last(), id, end);
        if clips.last().id@ != id && clips.last().start() >= end {
            min_int(before, clips.last().start())
        } else {
            before
        }
    }
}

/// The clip that a trim names: the first with its id on the first lane with
/// the lane's id.
pub open spec fn trimmed_clip(tracks: Seq<Track>, lane: Seq<char>, id: Seq<char>) -> Option<
    (Seq<Clip>, Clip),
> {
    match track_index(tracks, lane) {
        None => None,
        Some(t) => match clip_index(tracks[t].clips@, id) {
            None => None,
            Some(c) => Some((tracks[t].clips@, tracks[t].clips@[c])),
        },
    }
}

/// What bounds a trim of `clip` among the clips of its lane.
pub open spec fn context_of(clips: Seq<Clip>, clip: Clip) -> TrimContext {
    TrimContext {
        start: clip.timeline_start.value,
        duration: clip.source_range.duration.value,
        head_room: max_int(clip.head_room_ticks as int, 0) as i32,
        tail_room: max_int(clip.tail_room_ticks as int, 0) as i32,
        prev_end: end_before(clips, clip.id@, clip.start()) as i32,
        next_start: start_after(clips, clip.id@, clip.end()) as i32,
    }
}

/// Gather what bounds a trim of the named clip.
pub fn trim_context(sequence: &Sequence, track_id: &str, clip_id: &str) -> (r: Option<TrimContext>)
    ensures
        match trimmed_clip(sequence.tracks@, track_id@, clip_id@) {
            None => r is None,
            Some((clips, clip)) => r == Some(context_of(clips, clip)),
        },
{
    let t: usize = match find_track(&sequence.tracks, track_id) {
        Some(t) => t,
        None => {
            return None;
        },
    };
    let clips = &sequence.tracks[t].clips;
    let c: usize = match find_clip(clips, clip_id) {
        Some(c) => c,
        None => {
            return None;
        },
    };
    let clip = &clips[c];
    let start: i32 = clip.timeline_start.value;
    let duration: i32 = clip.source_range.duration.value;
    let end: i32 = sat_add(start, duration);
    let mut prev_end: i32 = 0;
    let mut next_start: i32 = FAR_AHEAD;
    let mut i: usize = 0;
    while i < clips.len()
        invariant
            i <= clips.len(),
            prev_end == end_before(clips@.take(i as int), clip_id@, start as int),
            next_start == start_after(clips@.take(i as int), clip_id@, end as int),
        decreases clips.len() - i,
    {
        let other = &clips[i];
        proof {
            assert(clips@.take(i as int + 1).drop_last() =~= clips@.take(i as int));
            assert(clips@.take(i as int + 1).last() == *other);
        }
        if !str_eq(other.id.as_str(), clip_id) {
            let s: i32 = other.timeline_start.value;
            let e: i32 = sat_add(s, other.source_range.duration.value);
            if e <= start {
                prev_end = max32(prev_end, e);
            }
            if s >= end {
                next_start = min32(next_start, s);
            }
        }
        i += 1;
    }
    assert(clips@.take(i as int) =~= clips@);
    Some(
        TrimContext {
            start,
            duration,
            head_room: max32(clip.head_room_ticks, 0),
            tail_room: max32(clip.tail_room_ticks, 0),
            prev_end,
            next_start,
        },
    )
}

/// One past the last tick of the clip before the trim.
pub open spec fn old_end(ctx: TrimContext) -> int {
    clamped32(ctx.start + ctx.duration)
}

/// The ticks that the dragged edge may take: between the lane neighbours,
/// within the source headroom, not before tick 0, and leaving at least one tick.
pub open spec fn trim_window(ctx: TrimContext, trim_head: bool) -> (int, int) {
    if trim_head {
        (
            max_int(
                max_int(ctx.prev_end as int, clamped32(ctx.start - ctx.head_room)),
                0,
            ),
            old_end(ctx) - 1,
        )
    } else {
        (
            ctx.start + 1,
            min_int(ctx.next_start as int, clamped32(old_end(ctx) + ctx.tail_room)),
        )
    }
}

/// The dragged edge has somewhere to go, and the new length fits `i32`.
pub open spec fn trimmable(ctx: TrimContext, trim_head: bool) -> bool {
    let (lo, hi) = trim_window(ctx, trim_head);
    lo <= hi && (!trim_head ==> hi - ctx.start <= i32::MAX)
}

/// A clip that sits where lanes keep their clips: from tick 0 on, at least one
/// tick long, ending by [`FAR_AHEAD`].
pub open spec fn well_placed(clip: Clip) -> bool {
    &&& 0 <= clip.start()
    &&& 1 <= clip.duration()
    &&& clip.start() + clip.duration() <= FAR_AHEAD
}

proof fn lemma_neighbours(clips: Seq<Clip>, id: Seq<char>, start: int, end: int)
    ensures
        0 <= end_before(clips, id, start) <= i32::MAX,
        i32::MIN <= start_after(clips, id, end),
        0 <= start ==> end_before(clips, id, start) <= start,
        start_after(clips, id, end) <= FAR_AHEAD,
        end <= FAR_AHEAD ==> end <= start_after(clips, id, end),
        forall|i: int|
            0 <= i < clips.len() && clips[i].id@ != id && (#[trigger] clips[i]).end() <= start
                ==> clips[i].end() <= end_before(clips, id, start),
        forall|i: int|
            0 <= i < clips.len() && clips[i].id@ != id && (#[trigger] clips[i]).start() >= end
                ==> start_after(clips, id, end) <= clips[i].start(),
    decreases clips.len(),
{
    if clips.len() > 0 {
        lemma_neighbours(clips.drop_last(), id, start, end);
        assert forall|i: int| 0 <= i < clips.len() - 1 implies clips.drop_last()[i] == clips[i] by {}
    }
}

/// On a lane where clips are placed from tick 0 on, the current edges lie in
/// the window, so a trim always has an answer.
pub proof fn law_trim_window_holds_current_edge(
    tracks: Seq<Track>,
    lane: Seq<char>,
    id: Seq<char>,
    trim_head: bool,
)
    requires
        trimmed_clip(tracks, lane, id) matches Some((clips, clip)) && well_placed(clip),
    ensures
        ({
            let (clips, clip) = trimmed_clip(tracks, lane, id)->0;
            let ctx = context_of(clips, clip);
            &&& trimmable(ctx, trim_head)
            &&& {
            let (lo, hi) = trim_window(ctx, trim_head);
            lo <= (if trim_head {
                ctx.start as int
            } else {
                old_end(ctx)
            }) <= hi
            }
        }),
{
    let (clips, clip) = trimmed_clip(tracks, lane, id)->0;
    lemma_neighbours(clips, clip.id@, clip.start(), clip.end());
}

/// What a trim resolves to.
pub open spec fn trim_placement(
    tracks: Seq<Track>,
    lane: Seq<char>,
    id: Seq<char>,
    ctx: TrimContext,
    trim_head: bool,
    dx: int,
    playhead: int,
    threshold: int,
) -> (int, int, bool, int) {
    let desired = clamped32(
        (if trim_head {
            ctx.start as int
        } else {
            old_end(ctx)
        }) + dx,
    );
    let (pulled, at, line) = snap_report(
        drag_snap(tracks, lane, id, desired, 0, threshold, playhead),
        desired,
    );
    let (lo, hi) = trim_window(ctx, trim_head);
    let edge = clamp(at, lo, hi);
    let has_snap = pulled && edge == at;
    let shown = if has_snap {
        line
    } else {
        0
    };
    if trim_head {
        (edge, old_end(ctx) - edge, has_snap, shown)
    } else {
        (ctx.start as int, edge - ctx.start, has_snap, shown)
    }
}

impl ClipTrimResolution {
    /// The trim names no clip.
    pub fn invalid() -> (r: Self)
        ensures
            r == (ClipTrimResolution {
                valid: false,
                new_start: 0,
                new_duration: 0,
                has_snap: false,
                snap_line_tick: 0,
                is_noop: true,
            }),
    {
        ClipTrimResolution {
            valid: false,
            new_start: 0,
            new_duration: 0,
            has_snap: false,
            snap_line_tick: 0,
            is_noop: true,
        }
    }
}

/// Resolve an edge-trim drag of `dx_ticks`; `trim_head` means the left edge.
///
/// The dragged edge snaps, then clamps to the lane neighbours, the source
/// headroom, tick 0 and a one-tick minimum. A snap that the clamp rejects is
/// dropped, with its guide line.
pub fn resolve_clip_trim(
    sequence: &Sequence,
    track_id: &str,
    clip_id: &str,
    trim_head: bool,
    dx_ticks: i32,
    playhead_tick: i32,
    snap_threshold_ticks: i32,
) -> (r: ClipTrimResolution)
    requires
        trimmed_clip(sequence.tracks@, track_id@, clip_id@) matches Some((clips, clip))
            ==> trimmable(context_of(clips, clip), trim_head),
    ensures
        match trimmed_clip(sequence.tracks@, track_id@, clip_id@) {
            None => r == (ClipTrimResolution {
                valid: false,
                new_start: 0,
                new_duration: 0,
                has_snap: false,
                snap_line_tick: 0,
                is_noop: true,
            }),
            Some((clips, clip)) => r.valid && (
                    r.new_start as int,
                    r.new_duration as int,
                    r.has_snap,
                    r.snap_line_tick as int,
                ) == trim_placement(
                    sequence.tracks@,
                    track_id@,
                    clip_id@,
                    context_of(clips, clip),
                    trim_head,
                    dx_ticks as int,
                    playhead_tick as int,
                    snap_threshold_ticks as int,
                ) && r.is_noop == (r.new_start == clip.start() && r.new_duration == clip.duration()),
        },
{
    let ctx = match trim_context(sequence, track_id, clip_id) {
        Some(ctx) => ctx,
        None => {
            return ClipTrimResolution::invalid();
        },
    };
    let end: i32 = sat_add(ctx.start, ctx.duration);
    // A span of length 0 snaps as the single dragged edge.
    let desired: i32 = sat_add(
        if trim_head {
            ctx.start
        } else {
            end
        },
        dx_ticks,
    );
    let snap = compute_drag_snap(
        sequence,
        track_id,
        clip_id,
        desired,
        0,
        snap_threshold_ticks,
        playhead_tick,
    );
    let (lo, hi): (i32, i32) = if trim_head {
        (max32(max32(ctx.prev_end, sat_sub(ctx.start, ctx.head_room)), 0), end - 1)
    } else {
        (ctx.start + 1, min32(ctx.next_start, sat_add(end, ctx.tail_room)))
    };
    let at: i32 = snap.snapped_start_value;
    let edge: i32 = if at < lo {
        lo
    } else if at > hi {
        hi
    } else {
        at
    };
    let has_snap: bool = snap.has_snap && edge == at;
    let (new_start, new_duration): (i32, i32) = if trim_head {
        (edge, end - edge)
    } else {
        (ctx.start, edge - ctx.start)
    };
    ClipTrimResolution {
        valid: true,
        new_start,
        new_duration,
        has_snap,
        snap_line_tick: if has_snap {
            snap.snap_line_tick
        } else {
            0
        },
        is_noop: new_start == ctx.start && new_duration == ctx.duration,
    }
}

/// A trim moves one edge only, keeps at least one tick, starts at tick 0 or
/// later when the head moves, and never reaches past a clip beside it or past
/// the source media.
pub proof fn law_trim_stays_in_bounds(
    tracks: Seq<Track>,
    lane: Seq<char>,
    id: Seq<char>,
    trim_head: bool,
    dx: int,
    playhead: int,
    threshold: int,
)
    requires
        trimmed_clip(tracks, lane, id) matches Some((clips, clip)) && trimmable(
            context_of(clips, clip),
            trim_head,
        ),
    ensures
        ({
            let (clips, clip) = trimmed_clip(tracks, lane, id)->0;
            let ctx = context_of(clips, clip);
            let (start, duration, has_snap, line) = trim_placement(
                tracks,
                lane,
                id,
                ctx,
                trim_head,
                dx,
                playhead,
                threshold,
            );
            &&& duration >= 1
            &&& trim_head ==> start >= 0 && start + duration == clip.end() && start >= clamped32(
                clip.start() - ctx.head_room,
            )
            &&& !trim_head ==> start == clip.start() && start + duration <= clamped32(
                clip.end() + ctx.tail_room,
            )
            &&& trim_head ==> forall|i: int|
                0 <= i < clips.len() && clips[i].id@ != clip.id@ && (#[trigger] clips[i]).end()
                    <= clip.start() ==> clips[i].end() <= start
            &&& !trim_head ==> forall|i: int|
                0 <= i < clips.len() && clips[i].id@ != clip.id@ && (#[trigger] clips[i]).start()
                    >= clip.end() ==> start + duration <= clips[i].start()
        }),
{
    let (clips, clip) = trimmed_clip(tracks, lane, id)->0;
    lemma_neighbours(clips, clip.id@, clip.start(), clip.end());
}

} // verus!
