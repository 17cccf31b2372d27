//! What drags and trims with the pointer are for: laws over the clips of the shown
//! timeline, told by their places in it.

use vstd::prelude::*;

use crate::find::{first_where, lemma_first_found, lemma_first_where};
use crate::model::{Clip, Track};
use crate::num::clamped32;
use crate::snap::{clip_index, clip_named, context_of, drag_resolution, drag_snap, edge_points,
    end_before, lane_free, lane_points, law_nearest_probe, leading, named_clip, nearest, probes,
    skipped_on, snap_points, start_after, track_index, track_named, track_with, trailing,
    trim_placement, trimmable, trimmed_clip, Probe, FAR_AHEAD};

verus! {

// --- places ---------------------------------------------------------------

/// There is a clip at place `c` of the lane at row `t`.
pub open spec fn is_shown(tracks: Seq<Track>, t: int, c: int) -> bool {
    0 <= t < tracks.len() && 0 <= c < tracks[t].clips@.len()
}

/// The clip at place `c` of the lane at row `t`.
pub open spec fn shown_at(tracks: Seq<Track>, t: int, c: int) -> Clip {
    tracks[t].clips@[c]
}

/// First tick of the clip at a place.
pub open spec fn starts_at(tracks: Seq<Track>, t: int, c: int) -> int {
    tracks[t].clips@[c].timeline_start.value as int
}

/// One past the last tick of the clip at a place.
pub open spec fn ends_at(tracks: Seq<Track>, t: int, c: int) -> int {
    tracks[t].clips@[c].timeline_start.value + tracks[t].clips@[c].source_range.duration.value
}

/// No two lanes have the same id, and no two clips of a lane; every clip ends within
/// `i32`.
pub open spec fn shown_wf(tracks: Seq<Track>) -> bool {
    &&& forall|t: int, u: int|
        #![trigger tracks[t], tracks[u]]
        0 <= t < u < tracks.len() ==> tracks[t].id@ != tracks[u].id@
    &&& forall|t: int, c: int, d: int|
        #![trigger shown_at(tracks, t, c), shown_at(tracks, t, d)]
        is_shown(tracks, t, c) && is_shown(tracks, t, d) && c < d ==> shown_at(tracks, t, c).id@
            != shown_at(tracks, t, d).id@
    &&& forall|t: int, c: int|
        #![trigger shown_at(tracks, t, c)]
        is_shown(tracks, t, c) ==> i32::MIN <= ends_at(tracks, t, c) <= i32::MAX
}

/// A clip is found by its id and the id of its lane.
pub proof fn law_shown_clip_is_found(tracks: Seq<Track>, t: int, c: int)
    requires
        shown_wf(tracks),
        is_shown(tracks, t, c),
    ensures
        ({
            let lane = tracks[t].id@;
            let clip = tracks[t].clips@[c].id@;
            &&& named_clip(tracks, lane, clip) == Some((tracks[t].kind, tracks[t].clips@[c]))
            &&& trimmed_clip(tracks, lane, clip) == Some((tracks[t].clips@, tracks[t].clips@[c]))
        }),
{
    let lane = tracks[t].id@;
    let id = tracks[t].clips@[c].id@;
    let f = clip_named(id);
    let clips = tracks[t].clips@;
    assert forall|d: int| 0 <= d < c implies !f(#[trigger] clips[d]) by {
        assert(shown_at(tracks, t, d).id@ != shown_at(tracks, t, c).id@);
    }
    lemma_first_found(clips, f, c);
    let g = track_with(lane, id);
    let h = track_named(lane);
    assert forall|u: int| 0 <= u < t implies !g(#[trigger] tracks[u]) && !h(tracks[u]) by {}
    lemma_first_found(tracks, g, t);
    lemma_first_found(tracks, h, t);
}

/// Ids that no clip has name none.
pub proof fn law_unknown_clip_is_not_dragged(
    tracks: Seq<Track>,
    lane: Seq<char>,
    clip: Seq<char>,
    dx: int,
    hover: int,
    playhead: int,
    threshold: int,
)
    requires
        forall|t: int, c: int|
            is_shown(tracks, t, c) && (#[trigger] shown_at(tracks, t, c)).id@ == clip
                ==> tracks[t].id@ != lane,
    ensures
        !drag_resolution(tracks, lane, clip, dx, hover, playhead, threshold).valid,
        trimmed_clip(tracks, lane, clip) is None,
{
    let g = track_with(lane, clip);
    lemma_first_where(tracks, g);
    match first_where(tracks, g) {
        Some(t) => {
            lemma_first_where(tracks[t].clips@, clip_named(clip));
            let c = clip_index(tracks[t].clips@, clip)->0;
            assert(clip_named(clip)(tracks[t].clips@[c]));
            assert(shown_at(tracks, t, c).id@ == clip);
        },
        None => {},
    }
    lemma_first_where(tracks, track_named(lane));
    match track_index(tracks, lane) {
        Some(t) => {
            lemma_first_where(tracks[t].clips@, clip_named(clip));
            match clip_index(tracks[t].clips@, clip) {
                Some(c) => {
                    assert(clip_named(clip)(tracks[t].clips@[c]));
                    assert(track_named(lane)(tracks[t]));
                    assert(shown_at(tracks, t, c).id@ == clip);
                },
                None => {},
            }
        },
        None => {},
    }
}

// --- snapping -------------------------------------------------------------

/// The tick is an edge of the clip at a place, which is not the dragged one.
pub open spec fn is_edge(
    x: int,
    tracks: Seq<Track>,
    t: int,
    c: int,
    lane: Seq<char>,
    clip: Seq<char>,
) -> bool {
    is_shown(tracks, t, c) && !(tracks[t].id@ == lane && tracks[t].clips@[c].id@ == clip) && (x
        == starts_at(tracks, t, c) || x == ends_at(tracks, t, c))
}

/// The tick attracts an edge: it is tick 0, the playhead or an edge of another clip.
pub open spec fn attracts(
    x: int,
    tracks: Seq<Track>,
    lane: Seq<char>,
    clip: Seq<char>,
    playhead: int,
) -> bool {
    x == 0 || x == playhead || exists|t: int, c: int| #[trigger]
        is_edge(x, tracks, t, c, lane, clip)
}

proof fn lemma_lane_points(clips: Seq<Clip>, skip: Option<Seq<char>>)
    requires
        forall|c: int|
            0 <= c < clips.len() ==> i32::MIN <= (#[trigger] clips[c]).timeline_start.value
                + clips[c].source_range.duration.value <= i32::MAX,
    ensures
        forall|x: int| #[trigger]
            lane_points(clips, skip).contains(x) == exists|c: int|
                0 <= c < clips.len() && skip != Some((#[trigger] clips[c]).id@) && (x
                    == clips[c].timeline_start.value || x == clips[c].timeline_start.value
                    + clips[c].source_range.duration.value),
    decreases clips.len(),
{
    if clips.len() > 0 {
        let init = clips.drop_last();
        let n = clips.len() - 1;
        assert forall|c: int| 0 <= c < init.len() implies i32::MIN <= (
        #[trigger] init[c]).timeline_start.value + init[c].source_range.duration.value
            <= i32::MAX by {
            assert(init[c] == clips[c]);
        }
        lemma_lane_points(init, skip);
        let before = lane_points(init, skip);
        let now = lane_points(clips, skip);
        let last = clips[n];
        assert(i32::MIN <= last.timeline_start.value + last.source_range.duration.value
            <= i32::MAX);
        assert forall|x: int| #[trigger] now.contains(x) == exists|c: int|
            0 <= c < clips.len() && skip != Some((#[trigger] clips[c]).id@) && (x
                == clips[c].timeline_start.value || x == clips[c].timeline_start.value
                + clips[c].source_range.duration.value) by {
            if now.contains(x) {
                let k = choose|k: int| 0 <= k < now.len() && now[k] == x;
                if k < before.len() {
                    assert(before[k] == x);
                    assert(before.contains(x));
                    let c = choose|c: int|
                        0 <= c < init.len() && skip != Some((#[trigger] init[c]).id@) && (x
                            == init[c].timeline_start.value || x == init[c].timeline_start.value
                            + init[c].source_range.duration.value);
                    assert(clips[c] == init[c]);
                } else {
                    assert(skip != Some(clips[n].id@));
                }
            }
            if exists|c: int|
                0 <= c < clips.len() && skip != Some((#[trigger] clips[c]).id@) && (x
                    == clips[c].timeline_start.value || x == clips[c].timeline_start.value
                    + clips[c].source_range.duration.value) {
                let c = choose|c: int|
                    0 <= c < clips.len() && skip != Some((#[trigger] clips[c]).id@) && (x
                        == clips[c].timeline_start.value || x == clips[c].timeline_start.value
                        + clips[c].source_range.duration.value);
                if c < n {
                    assert(init[c] == clips[c]);
                    assert(before.contains(x));
                    let k = choose|k: int| 0 <= k < before.len() && before[k] == x;
                    assert(now[k] == x);
                } else {
                    assert(now[before.len() as int] == last.timeline_start.value);
                    assert(now[before.len() as int + 1] == last.timeline_start.value
                        + last.source_range.duration.value);
                }
            }
        }
    }
}

proof fn lemma_edge_points(tracks: Seq<Track>, n: int, lane: Seq<char>, clip: Seq<char>)
    requires
        shown_wf(tracks),
        0 <= n <= tracks.len(),
    ensures
        forall|x: int| #[trigger]
            edge_points(tracks.take(n), lane, clip).contains(x) == exists|t: int, c: int|
                t < n && #[trigger] is_edge(x, tracks, t, c, lane, clip),
    decreases n,
{
    let here = tracks.take(n);
    if n > 0 {
        lemma_edge_points(tracks, n - 1, lane, clip);
        assert(here.drop_last() =~= tracks.take(n - 1));
        let t0 = n - 1;
        assert(here.last() == tracks[t0]);
        let clips = tracks[t0].clips@;
        let skip = skipped_on(tracks[t0], lane, clip);
        assert forall|c: int| 0 <= c < clips.len() implies i32::MIN <= (
        #[trigger] clips[c]).timeline_start.value + clips[c].source_range.duration.value
            <= i32::MAX by {
            assert(shown_at(tracks, t0, c) == clips[c]);
        }
        lemma_lane_points(clips, skip);
        let before = edge_points(tracks.take(n - 1), lane, clip);
        let more = lane_points(clips, skip);
        let now = edge_points(here, lane, clip);
        assert(now == before + more);
        assert forall|x: int| #[trigger] now.contains(x) == exists|t: int, c: int|
            t < n && #[trigger] is_edge(x, tracks, t, c, lane, clip) by {
            if now.contains(x) {
                let k = choose|k: int| 0 <= k < now.len() && now[k] == x;
                if k < before.len() {
                    assert(before[k] == x);
                    assert(before.contains(x));
                    let (t, c) = choose|t: int, c: int|
                        t < n - 1 && #[trigger] is_edge(x, tracks, t, c, lane, clip);
                    assert(is_edge(x, tracks, t, c, lane, clip));
                } else {
                    assert(more[k - before.len()] == x);
                    assert(more.contains(x));
                    let c = choose|c: int|
                        0 <= c < clips.len() && skip != Some((#[trigger] clips[c]).id@) && (x
                            == clips[c].timeline_start.value || x == clips[c].timeline_start.value
                            + clips[c].source_range.duration.value);
                    assert(is_edge(x, tracks, t0, c, lane, clip));
                }
            }
            if exists|t: int, c: int| t < n && #[trigger] is_edge(x, tracks, t, c, lane, clip) {
                let (t, c) = choose|t: int, c: int|
                    t < n && #[trigger] is_edge(x, tracks, t, c, lane, clip);
                if t < n - 1 {
                    assert(before.contains(x));
                    let k = choose|k: int| 0 <= k < before.len() && before[k] == x;
                    assert(now[k] == x);
                } else {
                    assert(skip != Some(clips[c].id@));
                    assert(more.contains(x));
                    let k = choose|k: int| 0 <= k < more.len() && more[k] == x;
                    assert(now[before.len() + k] == x);
                }
            }
        }
    } else {
        assert forall|x: int| #[trigger]
            edge_points(here, lane, clip).contains(x) == exists|t: int, c: int|
            t < n && #[trigger] is_edge(x, tracks, t, c, lane, clip) by {}
    }
}

proof fn lemma_snap_points(tracks: Seq<Track>, lane: Seq<char>, clip: Seq<char>, playhead: int)
    requires
        shown_wf(tracks),
    ensures
        forall|x: int| #[trigger]
            snap_points(tracks, lane, clip, playhead).contains(x) == attracts(
                x,
                tracks,
                lane,
                clip,
                playhead,
            ),
{
    lemma_edge_points(tracks, tracks.len() as int, lane, clip);
    assert(tracks.take(tracks.len() as int) =~= tracks);
    let edges = edge_points(tracks, lane, clip);
    let all = snap_points(tracks, lane, clip, playhead);
    assert forall|x: int| #[trigger] all.contains(x) == attracts(x, tracks, lane, clip, playhead) by {
        if all.contains(x) {
            let k = choose|k: int| 0 <= k < all.len() && all[k] == x;
            if k >= 2 {
                assert(edges[k - 2] == x);
                assert(edges.contains(x));
            }
        }
        if attracts(x, tracks, lane, clip, playhead) {
            if x == 0 {
                assert(all[0] == x);
            } else if x == playhead {
                assert(all[1] == x);
            } else {
                assert(edges.contains(x));
                let k = choose|k: int| 0 <= k < edges.len() && edges[k] == x;
                assert(all[k + 2] == x);
            }
        }
    }
}

proof fn lemma_probes(points: Seq<int>, start: int, duration: int)
    ensures
        forall|x: int| #[trigger]
            points.contains(x) ==> probes(points, start, duration).contains(leading(x, start))
                && probes(points, start, duration).contains(trailing(x, start, duration)),
        forall|p: Probe| #[trigger]
            probes(points, start, duration).contains(p) ==> points.contains(p.line) && (p
                == leading(p.line, start) || p == trailing(p.line, start, duration)),
    decreases points.len(),
{
    if points.len() > 0 {
        let init = points.drop_last();
        lemma_probes(init, start, duration);
        let before = probes(init, start, duration);
        let now = probes(points, start, duration);
        let last = points.last();
        assert forall|x: int| #[trigger] points.contains(x) implies now.contains(leading(x, start))
            && now.contains(trailing(x, start, duration)) by {
            let k = choose|k: int| 0 <= k < points.len() && points[k] == x;
            if k < init.len() {
                assert(init[k] == x);
                assert(init.contains(x));
                let i = choose|i: int| 0 <= i < before.len() && before[i] == leading(x, start);
                let j = choose|j: int|
                    0 <= j < before.len() && before[j] == trailing(x, start, duration);
                assert(now[i] == leading(x, start));
                assert(now[j] == trailing(x, start, duration));
            } else {
                assert(now[before.len() as int] == leading(x, start));
                assert(now[before.len() as int + 1] == trailing(x, start, duration));
            }
        }
        assert forall|p: Probe| #[trigger] now.contains(p) implies points.contains(p.line) && (p
            == leading(p.line, start) || p == trailing(p.line, start, duration)) by {
            let k = choose|k: int| 0 <= k < now.len() && now[k] == p;
            if k < before.len() {
                assert(before[k] == p);
                assert(before.contains(p));
                let i = choose|i: int| 0 <= i < init.len() && init[i] == p.line;
                assert(points[i] == p.line);
            } else {
                assert(points[points.len() - 1] == last);
            }
        }
    }
}

/// How far apart two ticks are.
pub open spec fn apart_by(a: int, b: int) -> int {
    if a < b {
        b - a
    } else {
        a - b
    }
}

/// Snapping brings the nearer edge of a span onto a tick that attracts edges: one within
/// the threshold, with no tick that attracts nearer to either edge. The span keeps its
/// length. There is no snap exactly when the threshold is not positive or every such tick
/// is out of reach of both edges.
pub proof fn law_snap_goes_to_the_nearest(
    tracks: Seq<Track>,
    lane: Seq<char>,
    clip: Seq<char>,
    start: int,
    duration: int,
    threshold: int,
    playhead: int,
)
    requires
        shown_wf(tracks),
        i32::MIN <= start + duration <= i32::MAX,
    ensures
        ({
            let r = drag_snap(tracks, lane, clip, start, duration, threshold, playhead);
            &&& threshold <= 0 ==> r is None
            &&& threshold > 0 && r is None ==> forall|x: int| #[trigger]
                attracts(x, tracks, lane, clip, playhead) ==> apart_by(x, start) > threshold
                    && apart_by(x, start + duration) > threshold
            &&& r matches Some(p) ==> {
                &&& attracts(p.line, tracks, lane, clip, playhead)
                &&& p.travel <= threshold
                &&& (p.start == p.line && p.travel == apart_by(p.line, start)) || (p.start
                    == clamped32(p.line - duration) && p.travel == apart_by(
                    p.line,
                    start + duration,
                ))
                &&& forall|x: int| #[trigger]
                    attracts(x, tracks, lane, clip, playhead) ==> p.travel <= apart_by(x, start)
                        && p.travel <= apart_by(x, start + duration)
            }
        }),
{
    if threshold > 0 {
        let points = snap_points(tracks, lane, clip, playhead);
        lemma_snap_points(tracks, lane, clip, playhead);
        let ps = probes(points, start, duration);
        lemma_probes(points, start, duration);
        law_nearest_probe(ps, threshold);
        let r = nearest(ps, threshold);
        match r {
            Some(p) => {
                assert(ps.contains(p));
                assert(points.contains(p.line));
                assert forall|x: int| #[trigger]
                    attracts(x, tracks, lane, clip, playhead) implies p.travel <= apart_by(x, start)
                    && p.travel <= apart_by(x, start + duration) by {
                    assert(points.contains(x));
                    assert(ps.contains(leading(x, start)));
                    assert(ps.contains(trailing(x, start, duration)));
                }
            },
            None => {
                assert forall|x: int| #[trigger]
                    attracts(x, tracks, lane, clip, playhead) implies apart_by(x, start) > threshold
                    && apart_by(x, start + duration) > threshold by {
                    assert(points.contains(x));
                    assert(ps.contains(leading(x, start)));
                    assert(ps.contains(trailing(x, start, duration)));
                }
            },
        }
    }
}

// --- moving ---------------------------------------------------------------

/// The span meets no clip of the lane at row `u` but the one at place `c` of row `t`.
pub open spec fn is_room(
    tracks: Seq<Track>,
    u: int,
    start: int,
    duration: int,
    t: int,
    c: int,
) -> bool {
    forall|d: int|
        #![trigger starts_at(tracks, u, d)]
        is_shown(tracks, u, d) && (u != t || d != c) ==> start + duration <= starts_at(tracks, u, d)
            || ends_at(tracks, u, d) <= start
}

proof fn lemma_room(tracks: Seq<Track>, u: int, start: int, duration: int, t: int, c: int)
    requires
        shown_wf(tracks),
        is_shown(tracks, t, c),
        0 <= u < tracks.len(),
        i32::MIN <= start + duration <= i32::MAX,
    ensures
        lane_free(
            tracks[u].clips@,
            start,
            duration,
            skipped_on(tracks[u], tracks[t].id@, tracks[t].clips@[c].id@),
        ) == is_room(tracks, u, start, duration, t, c),
{
    let clips = tracks[u].clips@;
    let skip = skipped_on(tracks[u], tracks[t].id@, tracks[t].clips@[c].id@);
    assert((tracks[u].id@ == tracks[t].id@) == (u == t));
    assert forall|d: int| 0 <= d < clips.len() implies (skip == Some((#[trigger] clips[d]).id@)) == (
    u == t && d == c) by {
        assert(shown_at(tracks, u, d) == clips[d]);
        if u == t {
            assert(shown_at(tracks, u, c) == clips[c]);
        }
    }
    if is_room(tracks, u, start, duration, t, c) {
        assert forall|d: int| 0 <= d < clips.len() && skip != Some(clips[d].id@) implies !(start < (
        #[trigger] clips[d]).end() && clips[d].start() < clamped32(start + duration)) by {
            assert(shown_at(tracks, u, d) == clips[d]);
            assert(clips[d].end() == ends_at(tracks, u, d));
            assert(clips[d].start() == starts_at(tracks, u, d));
        }
        assert(lane_free(clips, start, duration, skip));
    }
    if lane_free(clips, start, duration, skip) {
        assert forall|d: int|
            #![trigger starts_at(tracks, u, d)]
            is_shown(tracks, u, d) && (u != t || d != c) implies start + duration <= starts_at(
            tracks,
            u,
            d,
        ) || ends_at(tracks, u, d) <= start by {
            assert(shown_at(tracks, u, d) == clips[d]);
            assert(clips[d].end() == ends_at(tracks, u, d));
        }
    }
}

/// Where a drag by `dx` wants the clip at a place to start, before any snap.
pub open spec fn pulled_to(tracks: Seq<Track>, t: int, c: int, dx: int) -> int {
    if starts_at(tracks, t, c) + dx < 0 {
        0
    } else {
        starts_at(tracks, t, c) + dx
    }
}

/// A drag takes a clip where the pointer pulls it, snapped where a tick attracts it, onto
/// the lane under the pointer when that is of the clip's kind and has room there. Where
/// only the snapped place is taken, it stays where the pointer is. Otherwise it goes onto
/// a new lane in the row of the pointer. The length stays, and the drag changes nothing
/// exactly when the clip comes back to its own start on its own lane.
pub proof fn law_drag_follows_the_pointer(
    tracks: Seq<Track>,
    t: int,
    c: int,
    dx: int,
    hover: int,
    playhead: int,
    threshold: int,
)
    requires
        shown_wf(tracks),
        is_shown(tracks, t, c),
        i32::MIN <= starts_at(tracks, t, c) + dx,
        tracks[t].clips@[c].source_range.duration.value >= 0,
        pulled_to(tracks, t, c, dx) + tracks[t].clips@[c].source_range.duration.value <= i32::MAX,
        threshold >= 0,
        pulled_to(tracks, t, c, dx) + tracks[t].clips@[c].source_range.duration.value + threshold
            <= i32::MAX,
    ensures
        ({
            let x = tracks[t].clips@[c];
            let long = x.source_range.duration.value as int;
            let want = pulled_to(tracks, t, c, dx);
            let r = drag_resolution(tracks, tracks[t].id@, x.id@, dx, hover, playhead, threshold);
            let snap = drag_snap(
                tracks,
                tracks[t].id@,
                x.id@,
                want,
                long,
                threshold,
                playhead,
            );
            let to = match snap {
                Some(p) => if p.start < 0 {
                    0
                } else {
                    p.start
                },
                None => want,
            };
            let kind_fits = 0 <= hover < tracks.len() && tracks[hover].kind == tracks[t].kind;
            &&& r.valid
            &&& r.duration_ticks == long
            &&& r.is_new_lane == !(kind_fits && (is_room(tracks, hover, to, long, t, c) || is_room(
                tracks,
                hover,
                want,
                long,
                t,
                c,
            )))
            &&& r.is_new_lane ==> r.resolved_start == to && !r.is_noop && r.target_row == (if hover
                < 0 {
                0
            } else if hover > tracks.len() {
                tracks.len() as int
            } else {
                hover
            })
            &&& !r.is_new_lane ==> {
                &&& r.target_row == hover
                &&& r.target_track_id == tracks[hover].id@
                &&& r.resolved_start == (if is_room(tracks, hover, to, long, t, c) {
                    to
                } else {
                    want
                })
                &&& r.is_noop == (hover == t && r.resolved_start == starts_at(tracks, t, c))
            }
            &&& r.has_snap ==> snap is Some && r.snap_line_tick == snap->0.line && r.resolved_start
                == to
        }),
{
    let x = tracks[t].clips@[c];
    let long = x.source_range.duration.value as int;
    let want = pulled_to(tracks, t, c, dx);
    law_shown_clip_is_found(tracks, t, c);
    law_snap_goes_to_the_nearest(tracks, tracks[t].id@, x.id@, want, long, threshold, playhead);
    let snap = drag_snap(tracks, tracks[t].id@, x.id@, want, long, threshold, playhead);
    let to = match snap {
        Some(p) => if p.start < 0 {
            0
        } else {
            p.start
        },
        None => want,
    };
    if 0 <= hover < tracks.len() {
        lemma_room(tracks, hover, to, long, t, c);
        lemma_room(tracks, hover, want, long, t, c);
        assert((tracks[hover].id@ == tracks[t].id@) == (hover == t));
    }
}

// --- trimming -------------------------------------------------------------

proof fn lemma_end_before(clips: Seq<Clip>, id: Seq<char>, start: int)
    ensures
        forall|i: int|
            0 <= i < clips.len() && (#[trigger] clips[i]).id@ != id && clips[i].end() <= start
                ==> clips[i].end() <= end_before(clips, id, start),
        0 <= end_before(clips, id, start),
        end_before(clips, id, start) == 0 || exists|i: int|
            0 <= i < clips.len() && (#[trigger] clips[i]).id@ != id && clips[i].end() <= start
                && clips[i].end() == end_before(clips, id, start),
    decreases clips.len(),
{
    if clips.len() > 0 {
        let init = clips.drop_last();
        lemma_end_before(init, id, start);
        let n = clips.len() - 1;
        assert(clips[n] == clips.last());
        assert forall|i: int|
            0 <= i < clips.len() && (#[trigger] clips[i]).id@ != id && clips[i].end()
                <= start implies clips[i].end() <= end_before(clips, id, start) by {
            if i < n {
                assert(init[i] == clips[i]);
            }
        }
        let m = end_before(clips, id, start);
        if m != 0 {
            if m == end_before(init, id, start) {
                let i = choose|i: int|
                    0 <= i < init.len() && (#[trigger] init[i]).id@ != id && init[i].end() <= start
                        && init[i].end() == end_before(init, id, start);
                assert(clips[i] == init[i]);
            } else {
                assert(clips[n].end() == m);
            }
        }
    }
}

proof fn lemma_start_after(clips: Seq<Clip>, id: Seq<char>, end: int)
    ensures
        forall|i: int|
            0 <= i < clips.len() && (#[trigger] clips[i]).id@ != id && clips[i].start() >= end
                ==> start_after(clips, id, end) <= clips[i].start(),
        start_after(clips, id, end) <= FAR_AHEAD,
        start_after(clips, id, end) == FAR_AHEAD || exists|i: int|
            0 <= i < clips.len() && (#[trigger] clips[i]).id@ != id && clips[i].start() >= end
                && clips[i].start() == start_after(clips, id, end),
    decreases clips.len(),
{
    if clips.len() > 0 {
        let init = clips.drop_last();
        lemma_start_after(init, id, end);
        let n = clips.len() - 1;
        assert(clips[n] == clips.last());
        assert forall|i: int|
            0 <= i < clips.len() && (#[trigger] clips[i]).id@ != id && clips[i].start()
                >= end implies start_after(clips, id, end) <= clips[i].start() by {
            if i < n {
                assert(init[i] == clips[i]);
            }
        }
        let m = start_after(clips, id, end);
        if m != FAR_AHEAD {
            if m == start_after(init, id, end) {
                let i = choose|i: int|
                    0 <= i < init.len() && (#[trigger] init[i]).id@ != id && init[i].start() >= end
                        && init[i].start() == start_after(init, id, end);
                assert(clips[i] == init[i]);
            } else {
                assert(clips[n].start() == m);
            }
        }
    }
}

/// The tick is where a trim of the clip's head has to stop: tick 0, the first tick that
/// the source still has, or the end of another clip of the lane that ends before it.
pub open spec fn stops_head(x: int, tracks: Seq<Track>, t: int, c: int) -> bool {
    let room = tracks[t].clips@[c].head_room_ticks;
    x == 0 || x == starts_at(tracks, t, c) - (if room < 0 {
        0
    } else {
        room as int
    }) || exists|d: int|
        is_shown(tracks, t, d) && d != c && x == ends_at(tracks, t, d) && x <= starts_at(
            tracks,
            t,
            c,
        ) && (#[trigger] shown_at(tracks, t, d)) == tracks[t].clips@[d]
}

/// The tick is where a trim of the clip's tail has to stop: the last tick that the source
/// still has, the start of another clip of the lane that starts behind it, or the far end
/// of the timeline.
pub open spec fn stops_tail(x: int, tracks: Seq<Track>, t: int, c: int) -> bool {
    let room = tracks[t].clips@[c].tail_room_ticks;
    x == FAR_AHEAD || x == ends_at(tracks, t, c) + (if room < 0 {
        0
    } else {
        room as int
    }) || exists|d: int|
        is_shown(tracks, t, d) && d != c && x == starts_at(tracks, t, d) && x >= ends_at(
            tracks,
            t,
            c,
        ) && (#[trigger] shown_at(tracks, t, d)) == tracks[t].clips@[d]
}

/// A trim of the head takes the clip's start where the pointer pulls it, snapped where a
/// tick attracts it, and leaves its end alone. Short of the pointer it stops only where it
/// has to: before the pointer when a tick has to be left, behind it at tick 0, at the
/// source's first tick or at the end of the clip before.
pub proof fn law_head_trim_follows_the_pointer(
    tracks: Seq<Track>,
    t: int,
    c: int,
    dx: int,
    playhead: int,
    threshold: int,
)
    requires
        shown_wf(tracks),
        is_shown(tracks, t, c),
        trimmable(context_of(tracks[t].clips@, tracks[t].clips@[c]), true),
        0 <= starts_at(tracks, t, c),
        i32::MIN <= starts_at(tracks, t, c) + dx <= i32::MAX,
    ensures
        ({
            let x = tracks[t].clips@[c];
            let want = starts_at(tracks, t, c) + dx;
            let (start, duration, has_snap, line) = trim_placement(
                tracks,
                tracks[t].id@,
                x.id@,
                context_of(tracks[t].clips@, x),
                true,
                dx,
                playhead,
                threshold,
            );
            let snap = drag_snap(tracks, tracks[t].id@, x.id@, want, 0, threshold, playhead);
            let to = match snap {
                Some(p) => p.start,
                None => want,
            };
            &&& start + duration == ends_at(tracks, t, c)
            &&& start < to ==> duration == 1
            &&& start > to ==> stops_head(start, tracks, t, c)
            &&& has_snap == (snap is Some && start == to)
            &&& has_snap ==> line == snap->0.line
        }),
{
    let x = tracks[t].clips@[c];
    let clips = tracks[t].clips@;
    assert(shown_at(tracks, t, c) == x);
    lemma_end_before(clips, x.id@, x.start());
    let ctx = context_of(clips, x);
    let m = end_before(clips, x.id@, x.start());
    if m != 0 {
        let i = choose|i: int|
            0 <= i < clips.len() && (#[trigger] clips[i]).id@ != x.id@ && clips[i].end()
                <= x.start() && clips[i].end() == m;
        assert(shown_at(tracks, t, i) == clips[i]);
        assert(ends_at(tracks, t, i) == m);
        assert(stops_head(m, tracks, t, c));
    }
}

/// A trim of the tail takes the clip's end where the pointer pulls it, snapped where a
/// tick attracts it, and leaves its start alone. Short of the pointer it stops only where
/// it has to: behind the pointer when a tick has to be left, before it at the source's
/// last tick, at the start of the clip behind or at the far end of the timeline.
pub proof fn law_tail_trim_follows_the_pointer(
    tracks: Seq<Track>,
    t: int,
    c: int,
    dx: int,
    playhead: int,
    threshold: int,
)
    requires
        shown_wf(tracks),
        is_shown(tracks, t, c),
        trimmable(context_of(tracks[t].clips@, tracks[t].clips@[c]), false),
        i32::MIN <= ends_at(tracks, t, c) + dx <= i32::MAX,
        ends_at(tracks, t, c) + tracks[t].clips@[c].tail_room_ticks <= i32::MAX,
    ensures
        ({
            let x = tracks[t].clips@[c];
            let want = ends_at(tracks, t, c) + dx;
            let (start, duration, has_snap, line) = trim_placement(
                tracks,
                tracks[t].id@,
                x.id@,
                context_of(tracks[t].clips@, x),
                false,
                dx,
                playhead,
                threshold,
            );
            let snap = drag_snap(tracks, tracks[t].id@, x.id@, want, 0, threshold, playhead);
            let to = match snap {
                Some(p) => p.start,
                None => want,
            };
            &&& start == starts_at(tracks, t, c)
            &&& start + duration > to ==> duration == 1
            &&& start + duration < to ==> stops_tail(start + duration, tracks, t, c)
            &&& has_snap == (snap is Some && start + duration == to)
            &&& has_snap ==> line == snap->0.line
        }),
{
    let x = tracks[t].clips@[c];
    let clips = tracks[t].clips@;
    assert(shown_at(tracks, t, c) == x);
    lemma_start_after(clips, x.id@, x.end());
    let m = start_after(clips, x.id@, x.end());
    lemma_start_after_range(clips, x.id@, x.end());
    if m != FAR_AHEAD {
        let i = choose|i: int|
            0 <= i < clips.len() && (#[trigger] clips[i]).id@ != x.id@ && clips[i].start()
                >= x.end() && clips[i].start() == m;
        assert(shown_at(tracks, t, i) == clips[i]);
        assert(starts_at(tracks, t, i) == m);
        assert(stops_tail(m, tracks, t, c));
    }
}

proof fn lemma_start_after_range(clips: Seq<Clip>, id: Seq<char>, end: int)
    ensures
        i32::MIN <= start_after(clips, id, end) <= i32::MAX,
    decreases clips.len(),
{
    if clips.len() > 0 {
        lemma_start_after_range(clips.drop_last(), id, end);
    }
}

} // verus!
