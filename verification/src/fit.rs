//! Finding room on a lane: free spans, the first gap that fits, the smallest
//! shift that fits a block, and the boundary nearest to a tick.

use vstd::prelude::*;

use crate::num::distance;
use crate::project::{content_end, lane_end, lane_wf, lanes_wf, lemma_lane_end_covers,
    lemma_timeline_end_covers, timeline_end, Project, ProjectClip};

verus! {

/// `[start, start + duration)` meets no clip.
pub open spec fn gap_free(clips: Seq<ProjectClip>, start: int, duration: int) -> bool {
    forall|i: int|
        0 <= i < clips.len() ==> (#[trigger] clips[i]).end() <= start || clips[i].start >= start
            + duration
}

/// Whether `[start, start + duration)` overlaps no clip on the lane.
pub fn span_free(clips: &Vec<ProjectClip>, start: i64, duration: i64) -> (r: bool)
    requires
        lane_wf(clips@),
        i64::MIN <= start + duration <= i64::MAX,
    ensures
        r == gap_free(clips@, start as int, duration as int),
{
    let end: i64 = start + duration;
    let mut i: usize = 0;
    while i < clips.len()
        invariant
            i <= clips.len(),
            lane_wf(clips@),
            end == start + duration,
            forall|j: int|
                0 <= j < i ==> (#[trigger] clips@[j]).end() <= start || clips@[j].start >= end,
        decreases clips.len() - i,
    {
        let c = &clips[i];
        assert(clips@[i as int].end() <= i64::MAX);
        if c.start + c.duration > start && c.start < end {
            assert(!(clips@[i as int].end() <= start || clips@[i as int].start >= start + duration));
            return false;
        }
        i += 1;
    }
    true
}

/// `start` is the first place from `desired` on where `duration` ticks fit.
pub open spec fn is_first_fit(
    clips: Seq<ProjectClip>,
    desired: int,
    duration: int,
    start: int,
) -> bool {
    &&& start >= desired
    &&& gap_free(clips, start, duration)
    &&& forall|s: int| desired <= s < start ==> !(#[trigger] gap_free(clips, s, duration))
}

/// First start from `desired` on where `[start, start + duration)` fits in a gap
/// of the lane.
pub fn first_fit_start(clips: &Vec<ProjectClip>, desired: i64, duration: i64) -> (r: i64)
    requires
        lane_wf(clips@),
        duration >= 1,
        desired + duration <= i64::MAX,
        lane_end(clips@) + duration <= i64::MAX,
    ensures
        is_first_fit(clips@, desired as int, duration as int, r as int),
        r == desired || r <= lane_end(clips@),
{
    let mut start: i64 = desired;
    let mut i: usize = 0;
    proof {
        lemma_lane_end_covers(clips@);
    }
    while i < clips.len()
        invariant
            i <= clips.len(),
            lane_wf(clips@),
            duration >= 1,
            lane_end(clips@) + duration <= i64::MAX,
            desired <= start,
            start == desired || start <= lane_end(clips@),
            desired + duration <= i64::MAX,
            forall|j: int| 0 <= j < clips.len() ==> (#[trigger] clips@[j]).end() <= lane_end(clips@),
            forall|j: int| 0 <= j < i ==> (#[trigger] clips@[j]).end() <= start,
            forall|s: int| desired <= s < start ==> !(#[trigger] gap_free(clips@, s, duration as int)),
        decreases clips.len() - i,
    {
        let c = &clips[i];
        assert(clips@[i as int].end() <= i64::MAX);
        if start + duration <= c.start {
            assert forall|j: int| 0 <= j < clips.len() implies (#[trigger] clips@[j]).end() <= start
                || clips@[j].start >= start + duration by {
                if j > i {
                    assert(clips@[i as int].end() <= clips@[j].start);
                }
            }
            return start;
        }
        let end: i64 = c.start + c.duration;
        if end > start {
            assert forall|s: int| desired <= s < end implies !(#[trigger] gap_free(
                clips@,
                s,
                duration as int,
            )) by {
                if s >= start {
                    assert(!(clips@[i as int].end() <= s || clips@[i as int].start >= s + duration));
                }
            }
            start = end;
        }
        i += 1;
    }
    start
}

/// The first place from `desired` on where `duration` ticks fit.
pub open spec fn first_fit(clips: Seq<ProjectClip>, desired: int, duration: int) -> int {
    choose|start: int| is_first_fit(clips, desired, duration, start)
}

/// There is only one first fit.
pub proof fn lemma_first_fit(clips: Seq<ProjectClip>, desired: int, duration: int, start: int)
    requires
        is_first_fit(clips, desired, duration, start),
    ensures
        first_fit(clips, desired, duration) == start,
{
    let other = first_fit(clips, desired, duration);
    assert(is_first_fit(clips, desired, duration, other));
    if other < start {
        assert(!gap_free(clips, other, duration));
    } else if start < other {
        assert(!gap_free(clips, start, duration));
    }
}

proof fn lemma_least_free(clips: Seq<ProjectClip>, desired: int, duration: int, free: int) -> (start: int)
    requires
        desired <= free,
        gap_free(clips, free, duration),
    ensures
        is_first_fit(clips, desired, duration, start),
    decreases free - desired,
{
    if exists|s: int| desired <= s < free && #[trigger] gap_free(clips, s, duration) {
        let s = choose|s: int| desired <= s < free && #[trigger] gap_free(clips, s, duration);
        lemma_least_free(clips, desired, duration, s)
    } else {
        free
    }
}

/// A lane always has a place: the first fit from any tick on is there, lies at or
/// behind the tick, meets no clip, and is the earliest such place.
pub proof fn law_first_fit_exists(clips: Seq<ProjectClip>, desired: int, duration: int)
    requires
        lane_wf(clips),
    ensures
        is_first_fit(clips, desired, duration, first_fit(clips, desired, duration)),
{
    lemma_lane_end_covers(clips);
    let free = if desired >= lane_end(clips) {
        desired
    } else {
        lane_end(clips)
    };
    assert(gap_free(clips, free, duration));
    let start = lemma_least_free(clips, desired, duration, free);
    lemma_first_fit(clips, desired, duration, start);
}

// --- blocks ---------------------------------------------------------------

/// A span that wants a place on a lane.
#[derive(Clone, Copy, Debug, PartialEq, Eq, Structural)]
pub struct WantedSpan {
    pub lane: u64,
    pub start: i64,
    pub duration: i64,
}

/// The span, shifted, lands free on its lane.
pub open spec fn span_fits(p: Project, span: WantedSpan, dx: int) -> bool {
    p.lane_at(span.lane) matches Some(t) && gap_free(
        p.lanes@[t].clips@,
        span.start + dx,
        span.duration as int,
    )
}

/// Every span, shifted, lands free on its lane.
pub open spec fn block_fits(p: Project, spans: Seq<WantedSpan>, dx: int) -> bool {
    forall|i: int| 0 <= i < spans.len() ==> span_fits(p, #[trigger] spans[i], dx)
}

/// Every span's lane exists.
pub open spec fn lanes_exist(p: Project, spans: Seq<WantedSpan>) -> bool {
    forall|i: int| 0 <= i < spans.len() ==> p.lane_at((#[trigger] spans[i]).lane) is Some
}

/// `dx` puts a span left-flush against the end of a clip on its lane.
pub open spec fn is_flush(p: Project, span: WantedSpan, dx: int) -> bool {
    p.lane_at(span.lane) matches Some(t) && exists|c: int|
        0 <= c < p.lanes@[t].clips@.len() && (#[trigger] p.lanes@[t].clips@[c]).end() - span.start
            == dx
}

/// `dx` is 0 or puts one of the spans left-flush.
pub open spec fn is_candidate(p: Project, spans: Seq<WantedSpan>, dx: int) -> bool {
    dx == 0 || (dx > 0 && exists|i: int| 0 <= i < spans.len() && is_flush(p, #[trigger] spans[i], dx))
}

/// The spans stay in range under every shift that can be needed: none needs to
/// go farther than the end of the timeline.
pub open spec fn block_in_range(p: Project, spans: Seq<WantedSpan>) -> bool {
    &&& lanes_wf(p.lanes@)
    &&& forall|i: int|
        0 <= i < spans.len() ==> (#[trigger] spans[i]).duration >= 1 && 0 <= spans[i].start
            && spans[i].start + timeline_end(p.lanes@) + spans[i].duration <= i64::MAX
}

/// There is a best shift so far, and it is no larger than `dx`.
spec fn at_most(best: Option<i64>, dx: int) -> bool {
    best matches Some(b) && b <= dx
}

fn block_fits_at(project: &Project, spans: &Vec<WantedSpan>, dx: i64) -> (r:
    bool)
    requires
        block_in_range(*project, spans@),
        0 <= dx <= timeline_end(project.lanes@),
    ensures
        r == block_fits(*project, spans@, dx as int),
{
    let mut i: usize = 0;
    while i < spans.len()
        invariant
            i <= spans.len(),
            block_in_range(*project, spans@),
            0 <= dx <= timeline_end(project.lanes@),
            forall|j: int| 0 <= j < i ==> span_fits(*project, #[trigger] spans@[j], dx as int),
        decreases spans.len() - i,
    {
        let span = spans[i];
        assert(span == spans@[i as int]);
        match project.find_lane(span.lane) {
            None => {
                assert(!span_fits(*project, spans@[i as int], dx as int));
                return false;
            },
            Some(t) => {
                assert(lane_wf(project.lanes@[t as int].clips@));
                if !span_free(&project.lanes[t].clips, span.start + dx, span.duration) {
                    assert(!span_fits(*project, spans@[i as int], dx as int));
                    return false;
                }
            },
        }
        i += 1;
    }
    true
}

/// A shift that fits has a candidate at or below it that fits too.
proof fn lemma_candidate_below(p: Project, spans: Seq<WantedSpan>, dx: int)
    requires
        dx >= 0,
        block_fits(p, spans, dx),
    ensures
        exists|m: int| 0 <= m <= dx && #[trigger] is_candidate(p, spans, m) && block_fits(p, spans, m),
    decreases dx,
{
    if dx == 0 {
        assert(is_candidate(p, spans, 0));
    } else if block_fits(p, spans, dx - 1) {
        lemma_candidate_below(p, spans, dx - 1);
        let m = choose|m: int|
            0 <= m <= dx - 1 && #[trigger] is_candidate(p, spans, m) && block_fits(p, spans, m);
        assert(is_candidate(p, spans, m));
    } else {
        let i = choose|i: int|
            0 <= i < spans.len() && !span_fits(p, #[trigger] spans[i], dx - 1);
        let span = spans[i];
        assert(span_fits(p, span, dx));
        let t = p.lane_at(span.lane)->0;
        let clips = p.lanes@[t].clips@;
        let c = choose|c: int|
            0 <= c < clips.len() && !((#[trigger] clips[c]).end() <= span.start + dx - 1
                || clips[c].start >= span.start + dx - 1 + span.duration);
        assert(clips[c].end() <= span.start + dx || clips[c].start >= span.start + dx
            + span.duration);
        assert(p.lanes@[t].clips@[c].end() - span.start == dx);
        assert(is_flush(p, span, dx));
        assert(is_candidate(p, spans, dx));
    }
}

/// Smallest right shift, at least 0, that lets every span land free on its lane;
/// 0 when a lane does not exist.
pub fn block_fit_dx(project: &Project, spans: &Vec<WantedSpan>) -> (r: i64)
    requires
        block_in_range(*project, spans@),
    ensures
        0 <= r <= timeline_end(project.lanes@),
        !lanes_exist(*project, spans@) ==> r == 0,
        lanes_exist(*project, spans@) ==> block_fits(*project, spans@, r as int) && forall|dx: int|
            0 <= dx < r ==> !(#[trigger] block_fits(*project, spans@, dx)),
{
    proof {
        lemma_timeline_end_covers(project.lanes@);
    }
    if block_fits_at(project, spans, 0) {
        return 0;
    }
    let mut best: Option<i64> = None;
    // The largest candidate parks every span behind its lane's content.
    let ghost mut largest: int = 0;
    let mut i: usize = 0;
    while i < spans.len()
        invariant
            i <= spans.len(),
            block_in_range(*project, spans@),
            !block_fits(*project, spans@, 0),
            0 <= largest <= timeline_end(project.lanes@),
            is_candidate(*project, spans@, largest),
            best matches Some(b) ==> 0 < b <= timeline_end(project.lanes@) && block_fits(*project, spans@, b as int),
            block_fits(*project, spans@, largest) && largest > 0 ==> at_most(best, largest),
            forall|j: int, dx: int|
                0 <= j < i && dx > 0 && #[trigger] is_flush(*project, spans@[j], dx) ==> dx <= largest
                    && (block_fits(*project, spans@, dx) ==> at_most(best, dx)),
        decreases spans.len() - i,
    {
        let span = spans[i];
        assert(span == spans@[i as int]);
        match project.find_lane(span.lane) {
            None => {
                assert forall|dx: int| !(#[trigger] is_flush(*project, spans@[i as int], dx)) by {}
            },
            Some(t) => {
                let clips = &project.lanes[t].clips;
                assert(lane_wf(project.lanes@[t as int].clips@));
                proof {
                    lemma_lane_end_covers(clips@);
                    lemma_timeline_end_covers(project.lanes@);
                }
                let mut c: usize = 0;
                while c < clips.len()
                    invariant
                        c <= clips.len(),
                        i < spans.len(),
                        t < project.lanes.len(),
                        span == spans@[i as int],
                        project.lane_at(span.lane) == Some(t as int),
                        *clips == project.lanes@[t as int].clips,
                        block_in_range(*project, spans@),
                        lane_wf(clips@),
                        !block_fits(*project, spans@, 0),
                        forall|k: int|
                            0 <= k < clips.len() ==> (#[trigger] clips@[k]).end() <= timeline_end(project.lanes@),
                        0 <= largest <= timeline_end(project.lanes@),
                        is_candidate(*project, spans@, largest),
                        best matches Some(b) ==> 0 < b <= timeline_end(project.lanes@) && block_fits(
                            *project,
                            spans@,
                            b as int,
                        ),
                        block_fits(*project, spans@, largest) && largest > 0 ==> at_most(best, largest),
                        forall|j: int, dx: int|
                            0 <= j < i && dx > 0 && #[trigger] is_flush(*project, spans@[j], dx)
                                ==> dx <= largest && (block_fits(*project, spans@, dx)
                                ==> at_most(best, dx)),
                        forall|k: int|
                            0 <= k < c ==> {
                                let dx = (#[trigger] clips@[k]).end() - span.start;
                                dx > 0 ==> dx <= largest && (block_fits(*project, spans@, dx)
                                    ==> at_most(best, dx))
                            },
                    decreases clips.len() - c,
                {
                    let end: i64 = {
                        assert(clips@[c as int].end() <= i64::MAX);
                        clips[c].start + clips[c].duration
                    };
                    if end > span.start {
                        let dx: i64 = end - span.start;
                        proof {
                            assert(project.lanes@[t as int].clips@[c as int].end() - span.start == dx);
                            assert(is_flush(*project, spans@[i as int], dx as int));
                            assert(is_candidate(*project, spans@, dx as int));
                            if dx > largest {
                                largest = dx as int;
                            }
                        }
                        if block_fits_at(project, spans, dx) {
                            best =
                            match best {
                                None => Some(dx),
                                Some(b) => Some(
                                    if dx < b {
                                        dx
                                    } else {
                                        b
                                    },
                                ),
                            };
                        }
                    }
                    c += 1;
                }
                assert forall|dx: int| dx > 0 && #[trigger] is_flush(*project, spans@[i as int], dx) implies dx
                    <= largest && (block_fits(*project, spans@, dx) ==> at_most(best, dx)) by {
                    let k = choose|k: int|
                        0 <= k < project.lanes@[t as int].clips@.len() && (
                        #[trigger] project.lanes@[t as int].clips@[k]).end() - span.start == dx;
                    assert(clips@[k].end() - span.start == dx);
                }
            },
        }
        i += 1;
    }
    proof {
        if lanes_exist(*project, spans@) {
            assert(block_fits(*project, spans@, largest)) by {
                assert forall|k: int| 0 <= k < spans.len() implies span_fits(
                    *project,
                    #[trigger] spans@[k],
                    largest,
                ) by {
                    let span = spans@[k];
                    let t = project.lane_at(span.lane)->0;
                    crate::find::lemma_first_where(project.lanes@, crate::project::lane_is(span.lane));
                    let clips = project.lanes@[t].clips@;
                    assert forall|c: int| 0 <= c < clips.len() implies (#[trigger] clips[c]).end()
                        <= span.start + largest by {
                        let dx = clips[c].end() - span.start;
                        if dx > 0 {
                            assert(project.lanes@[t].clips@[c].end() - span.start == dx);
                            assert(is_flush(*project, spans@[k], dx));
                        }
                    }
                }
            }
            assert(largest > 0);
            let b = best->0;
            assert forall|dx: int| 0 <= dx < b implies !(#[trigger] block_fits(
                *project,
                spans@,
                dx,
            )) by {
                if block_fits(*project, spans@, dx) {
                    lemma_candidate_below(*project, spans@, dx);
                    let m = choose|m: int|
                        0 <= m <= dx && #[trigger] is_candidate(*project, spans@, m) && block_fits(
                            *project,
                            spans@,
                            m,
                        );
                    assert(m > 0);
                    let j = choose|j: int|
                        0 <= j < spans@.len() && is_flush(*project, #[trigger] spans@[j], m);
                    assert(is_flush(*project, spans@[j], m));
                }
            }
        } else {
            let k = choose|k: int|
                0 <= k < spans@.len() && project.lane_at((#[trigger] spans@[k]).lane) is None;
            if best is Some {
                assert(span_fits(*project, spans@[k], best->0 as int));
            }
        }
    }
    match best {
        Some(dx) => dx,
        None => 0,
    }
}

// --- boundaries -----------------------------------------------------------

/// The boundaries of a lane: every clip start, and the content end.
pub open spec fn boundaries(clips: Seq<ProjectClip>) -> Seq<int> {
    clips.map_values(|c: ProjectClip| c.start as int).push(lane_end(clips))
}

/// Clip boundary nearest to `tick`: every clip start plus the content end (0 on
/// an empty lane). Of two equally near, the earlier.
pub fn nearest_boundary(clips: &Vec<ProjectClip>, tick: i64) -> (r: i64)
    requires
        lane_wf(clips@),
        tick >= 0,
    ensures
        boundaries(clips@).contains(r as int),
        forall|k: int|
            0 <= k < boundaries(clips@).len() ==> distance(tick as int, r as int) <= distance(
                tick as int,
                #[trigger] boundaries(clips@)[k],
            ) && (distance(tick as int, r as int) == distance(
                tick as int,
                boundaries(clips@)[k],
            ) ==> r <= boundaries(clips@)[k]),
{
    let ghost all = boundaries(clips@);
    let last: i64 = content_end(clips);
    proof {
        lemma_lane_end_covers(clips@);
        assert(all[all.len() - 1] == last);
        assert forall|a: int, b: int| 0 <= a < b < all.len() implies all[a] <= all[b] by {
            if b < clips.len() {
                assert(clips@[a].end() <= clips@[b].start);
            } else {
                assert(clips@[a].end() <= lane_end(clips@));
            }
        }
    }
    let mut best: i64 = if clips.len() == 0 {
        last
    } else {
        clips[0].start
    };
    let ghost mut at: int = 0;
    let mut i: usize = 0;
    proof {
        assert(all[0] == best);
    }
    while i < clips.len()
        invariant
            i <= clips.len(),
            lane_wf(clips@),
            tick >= 0,
            all == boundaries(clips@),
            all.len() == clips.len() + 1,
            forall|a: int, b: int| 0 <= a < b < all.len() ==> all[a] <= all[b],
            0 <= at < all.len(),
            at <= i,
            all[at] == best,
            best >= 0,
            forall|k: int|
                0 <= k < i ==> distance(tick as int, best as int) <= distance(
                    tick as int,
                    #[trigger] all[k],
                ) && (distance(tick as int, best as int) == distance(tick as int, all[k]) ==> best
                    <= all[k]),
        decreases clips.len() - i,
    {
        let b: i64 = clips[i].start;
        assert(all[i as int] == b);
        if nearer(tick, b, best) {
            best = b;
            proof {
                at = i as int;
            }
        }
        i += 1;
    }
    if nearer(tick, last, best) {
        best = last;
        proof {
            at = all.len() - 1;
        }
    }
    assert(all.contains(all[at]));
    best
}

fn nearer(tick: i64, a: i64, b: i64) -> (r: bool)
    requires
        tick >= 0,
        a >= 0,
        b >= 0,
    ensures
        r == (distance(tick as int, a as int) < distance(tick as int, b as int)),
{
    let da: i64 = if tick >= a {
        tick - a
    } else {
        a - tick
    };
    let db: i64 = if tick >= b {
        tick - b
    } else {
        b - tick
    };
    da < db
}

} // verus!
