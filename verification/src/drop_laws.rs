//! What drops are for: laws that relate a planned drop to the media, the lane under the
//! pointer and the clips that are there.

use vstd::prelude::*;

use crate::copy_laws::{lemma_gap_free, span_meets};
use crate::edit_laws::{ids_unique, law_lane_is_found, law_media_is_found};
use crate::edits::{kind_count, new_lane, prefix_of, ClipRef, EditView, Ignored, LaneRef};
use crate::find::{lemma_filter_take, lemma_last_found, lemma_last_none};
use crate::fit::{first_fit, gap_free, law_first_fit_exists};
use crate::model::{Rational, TrackKind};
use crate::moves::{companion_lane, companion_steps, dropped, generated_drop, DropView};
use crate::project::{lane_wf, lanes_wf, resampled, valid_rate, Generator, Lane, Project,
    SourceRange};
use crate::text::{decimal, raw_id};

verus! {

/// Where in the stack a lane goes to show at `row` of the list, which shows the stack top
/// first: above the top for a row at or above the first, at the bottom for one below the
/// last.
pub open spec fn index_for_row(lanes: int, row: int) -> int {
    if row <= 0 {
        lanes
    } else if row >= lanes {
        0
    } else {
        lanes - row
    }
}

/// The text names the lane at place `u`, and it is of the kind.
pub open spec fn names_lane(p: Project, track: Seq<char>, u: int, kind: TrackKind) -> bool {
    0 <= u < p.lanes@.len() && raw_id(track) == Some(p.lanes@[u].id) && p.lanes@[u].kind == kind
}

/// The text names no lane of the kind.
pub open spec fn names_no_lane(p: Project, track: Seq<char>, kind: TrackKind) -> bool {
    forall|u: int| 0 <= u < p.lanes@.len() ==> !names_lane(p, track, u, kind)
}

/// The place is the first from `desired` on where a span of `long` meets no clip of the
/// lane at place `u`.
pub open spec fn is_first_place(p: Project, u: int, desired: int, long: int, start: int) -> bool {
    &&& start >= desired
    &&& !span_meets(p, u, start, long)
    &&& forall|s: int| desired <= s < start ==> #[trigger] span_meets(p, u, s, long)
}

proof fn lemma_first_place(p: Project, u: int, desired: int, long: int)
    requires
        0 <= u < p.lanes@.len(),
        lanes_wf(p.lanes@),
    ensures
        is_first_place(p, u, desired, long, first_fit(p.lanes@[u].clips@, desired, long)),
{
    let clips = p.lanes@[u].clips@;
    assert(lane_wf(clips));
    law_first_fit_exists(clips, desired, long);
    let start = first_fit(clips, desired, long);
    lemma_gap_free(p, u, start, long);
    assert forall|s: int| desired <= s < start implies #[trigger] span_meets(p, u, s, long) by {
        lemma_gap_free(p, u, s, long);
        assert(!gap_free(clips, s, long));
    }
}

/// Dropped media lands on a lane of its own kind, audio-only media on an audio lane and
/// everything else on a video lane. When the lane under the pointer is of that kind, no
/// lane is made: the clip goes onto it, at the first place from the drop on where it meets
/// no clip, or, for a video that the magnet inserts, at the drop itself. Otherwise it goes
/// onto a new lane of that kind at the drop row, at the drop. It shows the whole media,
/// and an audio companion is wanted for a video with sound while linkage is on.
pub proof fn law_drop_lands_on_its_kind(
    p: Project,
    media: Seq<char>,
    m: int,
    track: Seq<char>,
    start_tick: int,
    drop_row: int,
    insert: bool,
    linkage: bool,
)
    requires
        ids_unique(p),
        lanes_wf(p.lanes@),
        0 <= m < p.media@.len(),
        raw_id(media) == Some(p.media@[m].id),
    ensures
        ({
            let x = p.media@[m];
            let r = dropped(p, media, track, start_tick, drop_row, insert, linkage);
            let kind = if x.audio_only { TrackKind::Audio } else { TrackKind::Video };
            let desired = if start_tick < 0 { 0 } else { start_tick };
            let whole = SourceRange { start: 0, duration: x.duration.value, rate: x.duration.rate };
            &&& r is Ok
            &&& ({
                let d = r->Ok_0;
                &&& d.media == x.id
                &&& d.source == whole
                &&& d.companion == (linkage && x.has_audio && !x.audio_only)
                &&& d.duration >= 1
                &&& forall|u: int|
                    #![trigger p.lanes@[u]]
                    names_lane(p, track, u, kind) ==> d.quiet == 0 && d.steps.len() == 1 && (
                    if insert && !x.audio_only {
                        d.start == desired && d.steps[0] == (EditView::RippleInsert {
                            lane: p.lanes@[u].id,
                            media: x.id,
                            source: whole,
                            at: desired,
                        })
                    } else {
                        is_first_place(p, u, desired, d.duration, d.start) && d.steps[0]
                            == (EditView::AddClip {
                            to: LaneRef::Id(p.lanes@[u].id),
                            media: x.id,
                            source: whole,
                            start: d.start,
                        })
                    })
                &&& names_no_lane(p, track, kind) ==> d.quiet == 1 && d.start == desired
                    && d.steps.len() == 2 && d.steps[0] is AddTrack && d.steps[0]->kind == kind
                    && d.steps[0]->index == index_for_row(p.lanes@.len() as int, drop_row)
                    && d.steps[1] == (EditView::AddClip {
                    to: LaneRef::Step(0),
                    media: x.id,
                    source: whole,
                    start: desired,
                })
            })
        }),
{
    law_media_is_found(p, p.media@[m].id);
    let x = p.media@[m];
    let kind = if x.audio_only {
        TrackKind::Audio
    } else {
        TrackKind::Video
    };
    let desired = if start_tick < 0 {
        0
    } else {
        start_tick
    };
    let d = dropped(p, media, track, start_tick, drop_row, insert, linkage)->Ok_0;
    assert forall|u: int|
        #![trigger p.lanes@[u]]
        names_lane(p, track, u, kind) implies d.quiet == 0 && d.steps.len() == 1 && (if insert
        && !x.audio_only {
        d.start == desired && d.steps[0] == (EditView::RippleInsert {
            lane: p.lanes@[u].id,
            media: x.id,
            source: d.source,
            at: desired,
        })
    } else {
        is_first_place(p, u, desired, d.duration, d.start) && d.steps[0] == (EditView::AddClip {
            to: LaneRef::Id(p.lanes@[u].id),
            media: x.id,
            source: d.source,
            start: d.start,
        })
    }) by {
        law_lane_is_found(p, p.lanes@[u].id);
        assert(p.lane_at(p.lanes@[u].id) == Some(u));
        lemma_first_place(p, u, desired, d.duration);
    }
    if names_no_lane(p, track, kind) {
        match raw_id(track) {
            Some(id) => {
                law_lane_is_found(p, id);
                match p.lane_at(id) {
                    Some(t) => {
                        assert(!names_lane(p, track, t, kind));
                    },
                    None => {},
                }
            },
            None => {},
        }
    }
}

/// A drop of a text that is no id, or of an id that no media has, is ignored.
pub proof fn law_drop_of_nothing(
    p: Project,
    media: Seq<char>,
    track: Seq<char>,
    start_tick: int,
    drop_row: int,
    insert: bool,
    linkage: bool,
)
    requires
        ids_unique(p),
    ensures
        raw_id(media) is None ==> dropped(p, media, track, start_tick, drop_row, insert, linkage)
            == Err::<DropView, Ignored>(Ignored::BadMediaId),
        raw_id(media) matches Some(id) ==> (forall|m: int|
            0 <= m < p.media@.len() ==> (#[trigger] p.media@[m]).id != id) ==> dropped(
            p,
            media,
            track,
            start_tick,
            drop_row,
            insert,
            linkage,
        ) == Err::<DropView, Ignored>(Ignored::MediaNotInPool),
{
    if raw_id(media) is Some {
        law_media_is_found(p, raw_id(media)->0);
    }
}

/// Time is kept to the nearest tick: `n` ticks of the new rate are as long as the old
/// ticks up to half a new tick.
pub proof fn law_resample_keeps_time(value: int, from: Rational, to: Rational)
    requires
        valid_rate(from),
        valid_rate(to),
    ensures
        ({
            let old_time = value * from.den * to.num;
            let new_time = resampled(value, from, to) * (from.num * to.den);
            let tick = from.num * to.den;
            2 * (new_time - old_time) <= tick && 2 * (old_time - new_time) <= tick
        }),
{
    let n = value * from.den * to.num;
    let d = (from.num * to.den) as int;
    assert(d > 0) by (nonlinear_arith)
        requires
            from.num > 0,
            to.den > 0,
            d == from.num * to.den,
    ;
    let m = if n >= 0 {
        2 * n + d
    } else {
        -2 * n + d
    };
    crate::arith::lemma_floor(m, 2 * d);
    let q = m / (2 * d);
    assert(2 * (q * d) <= m && m < 2 * (q * d) + 2 * d) by (nonlinear_arith)
        requires
            q * (2 * d) <= m,
            (q + 1) * (2 * d) > m,
    ;
    assert((-q) * d == -(q * d)) by (nonlinear_arith);
}

/// A drop is as long as its media to the nearest tick, and at least a tick.
pub proof fn law_drop_is_as_long_as_its_media(
    p: Project,
    media: Seq<char>,
    m: int,
    track: Seq<char>,
    start_tick: int,
    drop_row: int,
    insert: bool,
    linkage: bool,
)
    requires
        ids_unique(p),
        0 <= m < p.media@.len(),
        raw_id(media) == Some(p.media@[m].id),
        p.media@[m].duration.value >= 0,
        resampled(
            p.media@[m].duration.value as int,
            p.media@[m].duration.rate,
            p.frame_rate,
        ) <= i64::MAX,
    ensures
        ({
            let d = dropped(p, media, track, start_tick, drop_row, insert, linkage)->Ok_0;
            let n = resampled(
                p.media@[m].duration.value as int,
                p.media@[m].duration.rate,
                p.frame_rate,
            );
            d.duration == (if n < 1 { 1 } else { n })
        }),
{
    law_media_is_found(p, p.media@[m].id);
}

/// The companion could go onto the lane at place `u`: it is an unlocked audio lane, and
/// the span meets no clip there.
pub open spec fn can_host(p: Project, u: int, start: int, duration: int) -> bool {
    0 <= u < p.lanes@.len() && p.lanes@[u].kind == TrackKind::Audio && !p.lanes@[u].locked
        && !span_meets(p, u, start, duration)
}

/// The audio companion of a dropped video shows the same source at the same tick and is
/// linked to the video: on the topmost unlocked audio lane that has room there, else on a
/// new audio lane at the bottom of the stack.
pub proof fn law_companion_joins_its_video(
    p: Project,
    video: u64,
    media: u64,
    source: SourceRange,
    start: int,
    duration: int,
)
    ensures
        ({
            let steps = companion_steps(p, video, media, source, start, duration);
            &&& forall|u: int|
                #![trigger p.lanes@[u]]
                can_host(p, u, start, duration) && (forall|v: int|
                    #![trigger p.lanes@[v]]
                    u < v ==> !can_host(p, v, start, duration)) ==> steps == seq![
                    EditView::AddClip { to: LaneRef::Id(p.lanes@[u].id), media, source, start },
                    EditView::LinkClips { clips: seq![ClipRef::Id(video), ClipRef::Step(0)] },
                ]
            &&& (forall|u: int| #![trigger p.lanes@[u]] !can_host(p, u, start, duration)) ==> {
                &&& steps.len() == 3
                &&& steps[0] is AddTrack
                &&& steps[0]->kind == TrackKind::Audio
                &&& steps[0]->index == 0
                &&& steps[1] == (EditView::AddClip { to: LaneRef::Step(0), media, source, start })
                &&& steps[2] == (EditView::LinkClips {
                    clips: seq![ClipRef::Id(video), ClipRef::Step(1)],
                })
            }
        }),
{
    let f = companion_lane(start, duration);
    assert forall|u: int| 0 <= u < p.lanes@.len() implies f(#[trigger] p.lanes@[u]) == can_host(
        p,
        u,
        start,
        duration,
    ) by {
        lemma_gap_free(p, u, start, duration);
    }
    let steps = companion_steps(p, video, media, source, start, duration);
    assert forall|u: int|
        #![trigger p.lanes@[u]]
        can_host(p, u, start, duration) && (forall|v: int|
            #![trigger p.lanes@[v]]
            u < v ==> !can_host(p, v, start, duration)) implies steps == seq![
        EditView::AddClip { to: LaneRef::Id(p.lanes@[u].id), media, source, start },
        EditView::LinkClips { clips: seq![ClipRef::Id(video), ClipRef::Step(0)] },
    ] by {
        assert forall|v: int| u < v < p.lanes@.len() implies !f(#[trigger] p.lanes@[v]) by {
            assert(!can_host(p, v, start, duration));
        }
        lemma_last_found(p.lanes@, f, u);
    }
    if forall|u: int| #![trigger p.lanes@[u]] !can_host(p, u, start, duration) {
        assert forall|u: int| 0 <= u < p.lanes@.len() implies !f(#[trigger] p.lanes@[u]) by {
            assert(!can_host(p, u, start, duration));
        }
        lemma_last_none(p.lanes@, f);
    }
}

/// Dropped generated content lands on a lane of the kind it is for: on the lane under the
/// pointer when that is of the kind, at the first place from the drop on where it meets no
/// clip, else on a new one at the drop row. The content is taken whole, and lasts at least
/// a tick.
pub proof fn law_generated_drop_lands(
    p: Project,
    generator: Generator,
    kind: TrackKind,
    track: Seq<char>,
    start_tick: int,
    duration_ticks: int,
    drop_row: int,
)
    requires
        ids_unique(p),
        lanes_wf(p.lanes@),
    ensures
        ({
            let r = generated_drop(
                p,
                generator,
                kind,
                track,
                start_tick,
                duration_ticks,
                drop_row,
            );
            let desired = if start_tick < 0 { 0 } else { start_tick };
            let long = if duration_ticks < 1 { 1 } else { duration_ticks };
            &&& r is Run
            &&& r->steps.last() is AddGenerated
            &&& r->steps.last()->AddGenerated_generator == generator
            &&& r->steps.last()->AddGenerated_duration == long
            &&& forall|u: int|
                #![trigger p.lanes@[u]]
                names_lane(p, track, u, kind) ==> r->quiet == 0 && r->steps.len() == 1
                    && r->steps[0]->AddGenerated_to == LaneRef::Id(p.lanes@[u].id) && is_first_place(
                    p,
                    u,
                    desired,
                    long,
                    r->steps[0]->AddGenerated_start,
                )
            &&& names_no_lane(p, track, kind) ==> r->quiet == 1 && r->steps.len() == 2
                && r->steps[0] is AddTrack && r->steps[0]->kind == kind && r->steps[0]->index
                == index_for_row(p.lanes@.len() as int, drop_row) && r->steps[1]->AddGenerated_to
                == LaneRef::Step(0) && r->steps[1]->AddGenerated_start == desired
        }),
{
    let desired = if start_tick < 0 {
        0
    } else {
        start_tick
    };
    let long = if duration_ticks < 1 {
        1
    } else {
        duration_ticks
    };
    let r = generated_drop(p, generator, kind, track, start_tick, duration_ticks, drop_row);
    assert forall|u: int|
        #![trigger p.lanes@[u]]
        names_lane(p, track, u, kind) implies r->quiet == 0 && r->steps.len() == 1
        && r->steps[0]->AddGenerated_to == LaneRef::Id(p.lanes@[u].id) && is_first_place(
        p,
        u,
        desired,
        long,
        r->steps[0]->AddGenerated_start,
    ) by {
        law_lane_is_found(p, p.lanes@[u].id);
        assert(p.lane_at(p.lanes@[u].id) == Some(u));
        lemma_first_place(p, u, desired, long);
    }
    if names_no_lane(p, track, kind) {
        match raw_id(track) {
            Some(id) => {
                law_lane_is_found(p, id);
                match p.lane_at(id) {
                    Some(t) => {
                        assert(!names_lane(p, track, t, kind));
                    },
                    None => {},
                }
            },
            None => {},
        }
    }
}

/// New lanes are counted by kind: as many as the stack holds of it.
pub proof fn law_kind_count(lanes: Seq<Lane>, kind: TrackKind)
    ensures
        kind_count(lanes, kind) == lanes.filter(|l: Lane| l.kind == kind).len(),
    decreases lanes.len(),
{
    let f = |l: Lane| l.kind == kind;
    if lanes.len() > 0 {
        law_kind_count(lanes.drop_last(), kind);
        lemma_filter_take(lanes, lanes.len() - 1, f);
        assert(lanes.take(lanes.len() as int) =~= lanes);
        assert(lanes.take(lanes.len() - 1) =~= lanes.drop_last());
        assert(lanes[lanes.len() - 1] == lanes.last());
    } else {
        reveal(Seq::filter);
    }
}

/// A new lane is of the asked kind and is numbered behind all lanes of its kind.
pub proof fn law_new_lane_is_numbered(
    lanes: Seq<Lane>,
    made: nat,
    alike: nat,
    kind: TrackKind,
    row: int,
)
    ensures
        ({
            let e = new_lane(lanes, made, alike, kind, row);
            let of_kind = lanes.filter(|l: Lane| l.kind == kind).len();
            &&& e is AddTrack
            &&& e->kind == kind
            &&& e->index == index_for_row((lanes.len() + made) as int, row)
            &&& e->AddTrack_name == prefix_of(kind) + decimal(of_kind + alike + 1)
        }),
{
    law_kind_count(lanes, kind);
}

} // verus!
