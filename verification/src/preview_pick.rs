//! Picking clips in the preview: which clips can be hit at a tick and in which
//! order, which one the selection outline shows, and which one a gesture moves.
//!
//! Where a clip's picture lies is the caller's geometry; everything else is
//! decided here.

use vstd::prelude::*;

use crate::find::{first_where, lemma_first_found, lemma_first_where};
use crate::model::{Clip, Sequence, Track, TrackKind};
use crate::num::sat_add;
use crate::snap::{clip_index, clip_named, find_clip};
use crate::text::str_eq;

verus! {

/// The clip has a picture: media, or content that is drawn.
pub open spec fn composited(c: Clip) -> bool {
    c.media_id@.len() > 0 || c.generator_kind@ == "text"@ || c.generator_kind@ == "solid"@
        || c.generator_kind@ == "rect"@ || c.generator_kind@ == "ellipse"@
}

/// Whether the composite draws this clip at all.
pub fn is_composited(clip: &Clip) -> (r: bool)
    ensures
        r == composited(*clip),
{
    let kind = clip.generator_kind.as_str();
    !clip.media_id.as_str().is_empty() || str_eq(kind, "text") || str_eq(kind, "solid") || str_eq(
        kind,
        "rect",
    ) || str_eq(kind, "ellipse")
}

/// The playhead is in the clip.
pub open spec fn under_playhead(c: Clip, tick: int) -> bool {
    c.start() <= tick < c.end()
}

/// Whether the clip covers the tick.
pub fn covers_tick(clip: &Clip, tick: i32) -> (r: bool)
    ensures
        r == under_playhead(*clip, tick as int),
{
    let start: i32 = clip.timeline_start.value;
    let end: i32 = sat_add(start, clip.source_range.duration.value);
    start <= tick && tick < end
}

/// A lane whose clips can be picked: it has pictures, is shown and not locked.
pub open spec fn pickable(t: Track) -> bool {
    t.kind != TrackKind::Audio && t.enabled && !t.locked
}

/// A lane whose clips have an outline: it has pictures and is shown.
pub open spec fn outlinable(t: Track) -> bool {
    t.kind != TrackKind::Audio && t.enabled
}

// --- hits -----------------------------------------------------------------

/// A clip by its row and its place on the lane.
#[derive(Clone, Copy, Debug, PartialEq, Eq, Structural)]
pub struct ClipAt {
    pub row: usize,
    pub index: usize,
}

/// The clips of the first `n` on row `row` that can be hit at `tick`.
pub open spec fn lane_hits(track: Track, row: int, n: int, tick: int) -> Seq<ClipAt>
    decreases n,
{
    if n <= 0 {
        Seq::empty()
    } else {
        let before = lane_hits(track, row, n - 1, tick);
        let c = track.clips@[n - 1];
        if under_playhead(c, tick) && composited(c) {
            before.push(ClipAt { row: row as usize, index: (n - 1) as usize })
        } else {
            before
        }
    }
}

/// The clips of the first `n` rows that can be hit at `tick`, the topmost first.
pub open spec fn hits(tracks: Seq<Track>, n: int, tick: int) -> Seq<ClipAt>
    decreases n,
{
    if n <= 0 {
        Seq::empty()
    } else {
        let before = hits(tracks, n - 1, tick);
        if pickable(tracks[n - 1]) {
            before + lane_hits(tracks[n - 1], n - 1, tracks[n - 1].clips@.len() as int, tick)
        } else {
            before
        }
    }
}

/// Every clip that can be hit at `tick`, the topmost first: on a shown, unlocked
/// lane with pictures, under the playhead, and drawn.
pub fn hit_candidates(sequence: &Sequence, tick: i32) -> (r: Vec<ClipAt>)
    ensures
        r@ == hits(sequence.tracks@, sequence.tracks@.len() as int, tick as int),
        forall|i: int|
            0 <= i < r.len() ==> (#[trigger] r@[i]).row < sequence.tracks.len() && r@[i].index
                < sequence.tracks@[r@[i].row as int].clips.len(),
{
    let mut out: Vec<ClipAt> = Vec::new();
    let mut t: usize = 0;
    while t < sequence.tracks.len()
        invariant
            t <= sequence.tracks.len(),
            out@ == hits(sequence.tracks@, t as int, tick as int),
            forall|i: int|
                0 <= i < out.len() ==> (#[trigger] out@[i]).row < sequence.tracks.len()
                    && out@[i].index < sequence.tracks@[out@[i].row as int].clips.len(),
        decreases sequence.tracks.len() - t,
    {
        let track = &sequence.tracks[t];
        if track.kind != TrackKind::Audio && track.enabled && !track.locked {
            let ghost before = out@;
            let mut c: usize = 0;
            assert(out@ =~= before + lane_hits(*track, t as int, 0, tick as int));
            while c < track.clips.len()
                invariant
                    t < sequence.tracks.len(),
                    *track == sequence.tracks@[t as int],
                    c <= track.clips.len(),
                    out@ == before + lane_hits(*track, t as int, c as int, tick as int),
                    forall|i: int|
                        0 <= i < out.len() ==> (#[trigger] out@[i]).row < sequence.tracks.len()
                            && out@[i].index < sequence.tracks@[out@[i].row as int].clips.len(),
                decreases track.clips.len() - c,
            {
                if covers_tick(&track.clips[c], tick) && is_composited(&track.clips[c]) {
                    out.push(ClipAt { row: t, index: c });
                    assert(out@ =~= before + lane_hits(*track, t as int, c as int + 1, tick as int));
                }
                c += 1;
            }
        }
        t += 1;
    }
    out
}

/// A hit: the lane and the clip; both empty for a miss.
#[derive(Debug)]
pub struct PreviewHit {
    pub track_id: String,
    pub clip_id: String,
}

/// The topmost clip under the cursor, `inside[i]` saying whether candidate `i` of
/// [`hit_candidates`] contains it.
pub fn hit_test(sequence: &Sequence, tick: i32, inside: &Vec<bool>) -> (r: PreviewHit)
    requires
        inside.len() == hits(
            sequence.tracks@,
            sequence.tracks@.len() as int,
            tick as int,
        ).len(),
    ensures
        ({
            let all = hits(sequence.tracks@, sequence.tracks@.len() as int, tick as int);
            match first_where(inside@, |b: bool| b) {
                Some(i) => {
                    let track = sequence.tracks@[all[i].row as int];
                    r.track_id@ == track.id@ && r.clip_id@ == track.clips@[all[i].index as int].id@
                },
                None => r.track_id@.len() == 0 && r.clip_id@.len() == 0,
            }
        }),
{
    let candidates = hit_candidates(sequence, tick);
    let ghost p = |b: bool| b;
    let mut i: usize = 0;
    while i < inside.len()
        invariant
            i <= inside.len(),
            inside.len() == candidates.len(),
            candidates@ == hits(sequence.tracks@, sequence.tracks@.len() as int, tick as int),
            forall|k: int|
                0 <= k < candidates.len() ==> (#[trigger] candidates@[k]).row
                    < sequence.tracks.len() && candidates@[k].index
                    < sequence.tracks@[candidates@[k].row as int].clips.len(),
            p == |b: bool| b,
            forall|j: int| 0 <= j < i ==> !p(#[trigger] inside@[j]),
        decreases inside.len() - i,
    {
        if inside[i] {
            proof {
                lemma_first_found(inside@, p, i as int);
            }
            let at = candidates[i];
            assert(candidates@[i as int] == at);
            let track = &sequence.tracks[at.row];
            return PreviewHit {
                track_id: track.id.clone(),
                clip_id: track.clips[at.index].id.clone(),
            };
        }
        i += 1;
    }
    proof {
        lemma_first_where(inside@, p);
    }
    PreviewHit { track_id: String::new(), clip_id: String::new() }
}

// --- one clip -------------------------------------------------------------

/// A lane that can be picked from and holds the clip.
pub open spec fn pickable_with(id: Seq<char>) -> spec_fn(Track) -> bool {
    |t: Track| pickable(t) && clip_index(t.clips@, id) is Some
}

/// A lane that is outlined and holds the clip.
pub open spec fn outlinable_with(id: Seq<char>) -> spec_fn(Track) -> bool {
    |t: Track| outlinable(t) && clip_index(t.clips@, id) is Some
}

/// The clip on the first such lane.
pub open spec fn first_on(tracks: Seq<Track>, p: spec_fn(Track) -> bool, id: Seq<char>) -> Option<
    ClipAt,
> {
    match first_where(tracks, p) {
        Some(t) => Some(
            ClipAt { row: t as usize, index: clip_index(tracks[t].clips@, id)->0 as usize },
        ),
        None => None,
    }
}

/// The clip that a gesture on `id` moves: on a shown, unlocked lane with pictures,
/// and drawn.
pub open spec fn draggable(tracks: Seq<Track>, id: Seq<char>) -> Option<ClipAt> {
    match first_on(tracks, pickable_with(id), id) {
        Some(at) => if id.len() > 0 && composited(tracks[at.row as int].clips@[at.index as int]) {
            Some(at)
        } else {
            None
        },
        None => None,
    }
}

/// The clip that the outline of `id` shows at `tick`: on a shown lane with
/// pictures, under the playhead, and drawn.
pub open spec fn outlined(tracks: Seq<Track>, id: Seq<char>, tick: int) -> Option<ClipAt> {
    match first_on(tracks, outlinable_with(id), id) {
        Some(at) => {
            let c = tracks[at.row as int].clips@[at.index as int];
            if id.len() > 0 && under_playhead(c, tick) && composited(c) {
                Some(at)
            } else {
                None
            }
        },
        None => None,
    }
}

fn find_on(sequence: &Sequence, id: &str, unlocked_only: bool) -> (r: Option<ClipAt>)
    ensures
        r == first_on(
            sequence.tracks@,
            if unlocked_only {
                pickable_with(id@)
            } else {
                outlinable_with(id@)
            },
            id@,
        ),
        r matches Some(at) ==> at.row < sequence.tracks.len() && at.index
            < sequence.tracks@[at.row as int].clips.len(),
{
    let ghost p = if unlocked_only {
        pickable_with(id@)
    } else {
        outlinable_with(id@)
    };
    let mut t: usize = 0;
    while t < sequence.tracks.len()
        invariant
            t <= sequence.tracks.len(),
            p == (if unlocked_only {
                pickable_with(id@)
            } else {
                outlinable_with(id@)
            }),
            forall|j: int| 0 <= j < t ==> !p(#[trigger] sequence.tracks@[j]),
        decreases sequence.tracks.len() - t,
    {
        let track = &sequence.tracks[t];
        if track.kind != TrackKind::Audio && track.enabled && !(unlocked_only && track.locked) {
            match find_clip(&track.clips, id) {
                Some(c) => {
                    proof {
                        lemma_first_found(sequence.tracks@, p, t as int);
                    }
                    return Some(ClipAt { row: t, index: c });
                },
                None => {},
            }
        }
        t += 1;
    }
    proof {
        lemma_first_where(sequence.tracks@, p);
    }
    None
}

/// Find the clip that a gesture on `clip_id` moves.
pub fn draggable_clip(sequence: &Sequence, clip_id: &str) -> (r: Option<ClipAt>)
    ensures
        r == draggable(sequence.tracks@, clip_id@),
{
    if clip_id.is_empty() {
        return None;
    }
    match find_on(sequence, clip_id, true) {
        Some(at) => {
            if is_composited(&sequence.tracks[at.row].clips[at.index]) {
                Some(at)
            } else {
                None
            }
        },
        None => None,
    }
}

/// Find the clip that the selection outline of `clip_id` shows.
pub fn outlined_clip(sequence: &Sequence, clip_id: &str, tick: i32) -> (r: Option<ClipAt>)
    ensures
        r == outlined(sequence.tracks@, clip_id@, tick as int),
{
    if clip_id.is_empty() {
        return None;
    }
    match find_on(sequence, clip_id, false) {
        Some(at) => {
            let clip = &sequence.tracks[at.row].clips[at.index];
            if covers_tick(clip, tick) && is_composited(clip) {
                Some(at)
            } else {
                None
            }
        },
        None => None,
    }
}

/// What can be dragged is drawn and lies on a shown, unlocked lane with pictures,
/// as everything that can be hit does.
pub proof fn law_draggable_is_pickable(tracks: Seq<Track>, id: Seq<char>)
    requires
        tracks.len() <= usize::MAX,
        draggable(tracks, id) is Some,
        forall|t: int| 0 <= t < tracks.len() ==> (#[trigger] tracks[t]).clips@.len() <= usize::MAX,
    ensures
        ({
            let at = draggable(tracks, id)->0;
            &&& at.row < tracks.len()
            &&& pickable(tracks[at.row as int])
            &&& at.index < tracks[at.row as int].clips@.len()
            &&& tracks[at.row as int].clips@[at.index as int].id@ == id
            &&& composited(tracks[at.row as int].clips@[at.index as int])
        }),
{
    lemma_first_where(tracks, pickable_with(id));
    let t = first_where(tracks, pickable_with(id))->0;
    lemma_first_where(tracks[t].clips@, clip_named(id));
}

/// What can be hit lies on a pickable lane, under the playhead, and is drawn.
pub proof fn law_hits_are_visible(tracks: Seq<Track>, n: int, tick: int, i: int)
    requires
        0 <= n <= tracks.len(),
        tracks.len() <= usize::MAX,
        forall|t: int| 0 <= t < tracks.len() ==> (#[trigger] tracks[t]).clips@.len() <= usize::MAX,
        0 <= i < hits(tracks, n, tick).len(),
    ensures
        ({
            let at = hits(tracks, n, tick)[i];
            &&& at.row < n
            &&& pickable(tracks[at.row as int])
            &&& at.index < tracks[at.row as int].clips@.len()
            &&& under_playhead(tracks[at.row as int].clips@[at.index as int], tick)
            &&& composited(tracks[at.row as int].clips@[at.index as int])
        }),
    decreases n,
{
    let before = hits(tracks, n - 1, tick);
    if i < before.len() {
        law_hits_are_visible(tracks, n - 1, tick, i);
    } else {
        lemma_lane_hits(
            tracks[n - 1],
            n - 1,
            tracks[n - 1].clips@.len() as int,
            tick,
            i - before.len(),
        );
    }
}

proof fn lemma_lane_hits(track: Track, row: int, n: int, tick: int, i: int)
    requires
        0 <= n <= track.clips@.len(),
        track.clips@.len() <= usize::MAX,
        0 <= row <= usize::MAX,
        0 <= i < lane_hits(track, row, n, tick).len(),
    ensures
        ({
            let at = lane_hits(track, row, n, tick)[i];
            &&& at.row == row
            &&& at.index < n
            &&& under_playhead(track.clips@[at.index as int], tick)
            &&& composited(track.clips@[at.index as int])
        }),
    decreases n,
{
    let before = lane_hits(track, row, n - 1, tick);
    if i < before.len() {
        lemma_lane_hits(track, row, n - 1, tick, i);
    }
}

} // verus!
