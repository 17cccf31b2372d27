//! What edits are for: laws that relate the planned steps to the clips, lanes and media
//! of the project, told by their places in it.

use vstd::prelude::*;

use crate::batch::{cuts, split_of, split_steps};
use crate::edits::{all_applied, apart, distinct_ids, lane_after_all, slots_of, ClipRef, EditView,
    Ignored, LaneRef, PlannedView};
use crate::find::{first_where, lemma_filter_members, lemma_filter_push, lemma_first_found,
    lemma_first_where};
use crate::model::TrackKind;
use crate::moves::{board_after, lane_shifted, lane_with, moved_clip, only_on, takes_all, Board};
use crate::num::max_int;
use crate::project::{all_clips, clip_is, is_video, lane_end, lane_holds, lane_is, lane_wf, lanes_wf,
    lemma_lane_end_covers, lemma_timeline_end_covers, link_group_of, link_members, linked_to,
    media_is, timeline_end, Lane, Project, ProjectClip};
use crate::ripple::{law_reorder_effect, law_ripple_trim_effect, member_steps, motion_fits,
    partner_trim, partner_trims, trim_of, trim_site, trims_ripple, MemberTrim};
use crate::text::raw_id;

verus! {

// --- places ---------------------------------------------------------------

/// There is a clip at place `c` of the lane at place `t`.
pub open spec fn has_clip(p: Project, t: int, c: int) -> bool {
    0 <= t < p.lanes@.len() && 0 <= c < p.lanes@[t].clips@.len()
}

/// The clip at place `c` of the lane at place `t`.
pub open spec fn clip_at(p: Project, t: int, c: int) -> ProjectClip {
    p.lanes@[t].clips@[c]
}

/// No two clips, no two lanes and no two media have the same id.
pub open spec fn ids_unique(p: Project) -> bool {
    &&& forall|t: int, c: int, u: int, d: int|
        #![trigger clip_at(p, t, c), clip_at(p, u, d)]
        has_clip(p, t, c) && has_clip(p, u, d) && clip_at(p, t, c).id == clip_at(p, u, d).id ==> t
            == u && c == d
    &&& forall|t: int, u: int|
        #![trigger p.lanes@[t], p.lanes@[u]]
        0 <= t < u < p.lanes@.len() ==> p.lanes@[t].id != p.lanes@[u].id
    &&& forall|m: int, n: int|
        #![trigger p.media@[m], p.media@[n]]
        0 <= m < n < p.media@.len() ==> p.media@[m].id != p.media@[n].id
}

/// A clip is found by its id, on the lane where it is.
pub proof fn law_clip_is_found(p: Project, t: int, c: int)
    requires
        ids_unique(p),
        has_clip(p, t, c),
    ensures
        p.lane_of_clip(p.lanes@[t].clips@[c].id) == Some(t),
        p.clip_with(p.lanes@[t].clips@[c].id) == Some(p.lanes@[t].clips@[c]),
{
    let id = clip_at(p, t, c).id;
    let clips = p.lanes@[t].clips@;
    assert forall|d: int| 0 <= d < c implies !clip_is(id)(#[trigger] clips[d]) by {
        assert(has_clip(p, t, d));
        assert(clip_at(p, t, d).id != id);
    }
    lemma_first_found(clips, clip_is(id), c);
    assert forall|u: int| 0 <= u < t implies !lane_holds(id)(#[trigger] p.lanes@[u]) by {
        let others = p.lanes@[u].clips@;
        lemma_first_where(others, clip_is(id));
        if first_where(others, clip_is(id)) is Some {
            let d = first_where(others, clip_is(id))->0;
            assert(has_clip(p, u, d));
            assert(clip_at(p, u, d).id == id);
        }
    }
    lemma_first_found(p.lanes@, lane_holds(id), t);
}

/// An id that no clip has finds nothing.
pub proof fn law_unknown_clip_is_not_found(p: Project, id: u64)
    requires
        forall|t: int, c: int| has_clip(p, t, c) ==> (#[trigger] clip_at(p, t, c)).id != id,
    ensures
        p.lane_of_clip(id) is None,
        p.clip_with(id) is None,
{
    lemma_first_where(p.lanes@, lane_holds(id));
    if p.lane_of_clip(id) is Some {
        let t = p.lane_of_clip(id)->0;
        assert(lane_holds(id)(p.lanes@[t]));
        let clips = p.lanes@[t].clips@;
        lemma_first_where(clips, clip_is(id));
        let c = first_where(clips, clip_is(id))->0;
        assert(clip_is(id)(clips[c]));
        assert(has_clip(p, t, c));
        assert(clip_at(p, t, c).id == id);
    }
}

/// What is found has the id that was asked for, and is in the project.
pub proof fn law_found_clip_is_there(p: Project, id: u64) -> (at: (int, int))
    requires
        p.clip_with(id) is Some || p.lane_of_clip(id) is Some,
    ensures
        has_clip(p, at.0, at.1),
        p.lanes@[at.0].clips@[at.1].id == id,
        p.lane_of_clip(id) == Some(at.0),
        p.clip_with(id) == Some(p.lanes@[at.0].clips@[at.1]),
{
    lemma_first_where(p.lanes@, lane_holds(id));
    let t = p.lane_of_clip(id)->0;
    assert(lane_holds(id)(p.lanes@[t]));
    let clips = p.lanes@[t].clips@;
    lemma_first_where(clips, clip_is(id));
    let c = first_where(clips, clip_is(id))->0;
    assert(clip_is(id)(clips[c]));
    (t, c)
}

/// A lane is found by its id, and an id that no lane has finds none.
pub proof fn law_lane_is_found(p: Project, id: u64)
    requires
        ids_unique(p),
    ensures
        forall|t: int|
            0 <= t < p.lanes@.len() && (#[trigger] p.lanes@[t]).id == id ==> p.lane_at(id) == Some(t),
        (forall|t: int| 0 <= t < p.lanes@.len() ==> (#[trigger] p.lanes@[t]).id != id)
            ==> p.lane_at(id) is None,
        p.lane_at(id) matches Some(t) ==> 0 <= t < p.lanes@.len() && p.lanes@[t].id == id,
{
    lemma_first_where(p.lanes@, lane_is(id));
    assert forall|t: int|
        0 <= t < p.lanes@.len() && (#[trigger] p.lanes@[t]).id == id implies p.lane_at(id) == Some(
        t,
    ) by {
        assert(lane_is(id)(p.lanes@[t]));
        let u = p.lane_at(id)->0;
        assert(lane_is(id)(p.lanes@[u]));
        assert(p.lanes@[u].id == p.lanes@[t].id);
    }
    if p.lane_at(id) is Some {
        assert(lane_is(id)(p.lanes@[p.lane_at(id)->0]));
    }
}

/// A media is found by its id, and an id that no media has finds none.
pub proof fn law_media_is_found(p: Project, id: u64)
    requires
        ids_unique(p),
    ensures
        forall|m: int|
            0 <= m < p.media@.len() && (#[trigger] p.media@[m]).id == id ==> p.media_with(id) == Some(
                p.media@[m],
            ),
        (forall|m: int| 0 <= m < p.media@.len() ==> (#[trigger] p.media@[m]).id != id)
            ==> p.media_with(id) is None,
{
    lemma_first_where(p.media@, media_is(id));
    assert forall|m: int|
        0 <= m < p.media@.len() && (#[trigger] p.media@[m]).id == id implies p.media_with(id)
        == Some(p.media@[m]) by {
        assert(media_is(id)(p.media@[m]));
        let n = first_where(p.media@, media_is(id))->0;
        assert(media_is(id)(p.media@[n]));
        assert(p.media@[n].id == p.media@[m].id);
    }
    if first_where(p.media@, media_is(id)) is Some {
        let n = first_where(p.media@, media_is(id))->0;
        assert(media_is(id)(p.media@[n]));
    }
}

/// The main lane is the bottom video lane: it is video and nothing below it is.
pub proof fn law_main_lane_is_bottom_video(p: Project)
    ensures
        match p.main_lane() {
            Some(m) => 0 <= m < p.lanes@.len() && p.lanes@[m].kind == TrackKind::Video && forall|
                t: int,
            |
                0 <= t < m ==> (#[trigger] p.lanes@[t]).kind != TrackKind::Video,
            None => forall|t: int|
                0 <= t < p.lanes@.len() ==> (#[trigger] p.lanes@[t]).kind != TrackKind::Video,
        },
{
    lemma_first_where(p.lanes@, is_video());
    match p.main_lane() {
        Some(m) => {
            assert(is_video()(p.lanes@[m]));
            assert forall|t: int| 0 <= t < m implies (#[trigger] p.lanes@[t]).kind
                != TrackKind::Video by {
                assert(!is_video()(p.lanes@[t]));
            }
        },
        None => {
            assert forall|t: int| 0 <= t < p.lanes@.len() implies (#[trigger] p.lanes@[t]).kind
                != TrackKind::Video by {
                assert(!is_video()(p.lanes@[t]));
            }
        },
    }
}

/// Where the content ends: no clip reaches behind the end, and one reaches up to it,
/// unless there is none and the end is 0.
pub proof fn law_timeline_ends_with_its_last_clip(p: Project)
    requires
        lanes_wf(p.lanes@),
    ensures
        forall|t: int, c: int|
            #![trigger clip_at(p, t, c)]
            has_clip(p, t, c) ==> clip_at(p, t, c).start + clip_at(p, t, c).duration <= timeline_end(
                p.lanes@,
            ),
        timeline_end(p.lanes@) == 0 || exists|t: int, c: int|
            has_clip(p, t, c) && (#[trigger] clip_at(p, t, c)).start + clip_at(p, t, c).duration
                == timeline_end(p.lanes@),
{
    lemma_timeline_end_covers(p.lanes@);
    assert forall|t: int, c: int|
        #![trigger clip_at(p, t, c)]
        has_clip(p, t, c) implies clip_at(p, t, c).start + clip_at(p, t, c).duration
        <= timeline_end(p.lanes@) by {
        let clips = p.lanes@[t].clips@;
        assert(lane_wf(clips));
        lemma_lane_end_covers(clips);
        assert(clips[c].end() <= lane_end(clips));
    }
    if timeline_end(p.lanes@) != 0 {
        let t = lemma_timeline_end_met(p.lanes@);
        let c = p.lanes@[t].clips@.len() - 1;
        assert(clip_at(p, t, c) == p.lanes@[t].clips@.last());
    }
}

proof fn lemma_timeline_end_met(lanes: Seq<Lane>) -> (t: int)
    requires
        timeline_end(lanes) != 0,
    ensures
        0 <= t < lanes.len(),
        lanes[t].clips@.len() > 0,
        lane_end(lanes[t].clips@) == timeline_end(lanes),
    decreases lanes.len(),
{
    let last = lanes.len() - 1;
    if timeline_end(lanes.drop_last()) == timeline_end(lanes) {
        let t = lemma_timeline_end_met(lanes.drop_last());
        assert(lanes.drop_last()[t] == lanes[t]);
        t
    } else {
        assert(lanes[last] == lanes.last());
        last
    }
}

// --- link groups ----------------------------------------------------------

/// Where a clip of the list of all clips stands.
pub proof fn lemma_place_in_lanes(lanes: Seq<Lane>, i: int) -> (at: (int, int))
    requires
        0 <= i < all_clips(lanes).len(),
    ensures
        0 <= at.0 < lanes.len(),
        0 <= at.1 < lanes[at.0].clips@.len(),
        lanes[at.0].clips@[at.1] == all_clips(lanes)[i],
    decreases lanes.len(),
{
    let front = lanes.drop_last();
    let before = all_clips(front);
    if i < before.len() {
        let at = lemma_place_in_lanes(front, i);
        assert(front[at.0] == lanes[at.0]);
        at
    } else {
        (lanes.len() - 1, i - before.len())
    }
}

/// Where a clip stands in the list of all clips.
pub proof fn lemma_place_in_all(lanes: Seq<Lane>, t: int, c: int) -> (i: int)
    requires
        0 <= t < lanes.len(),
        0 <= c < lanes[t].clips@.len(),
    ensures
        0 <= i < all_clips(lanes).len(),
        all_clips(lanes)[i] == lanes[t].clips@[c],
    decreases lanes.len(),
{
    let front = lanes.drop_last();
    let before = all_clips(front);
    if t < front.len() {
        assert(front[t] == lanes[t]);
        let i = lemma_place_in_all(front, t, c);
        assert(all_clips(lanes)[i] == before[i]);
        i
    } else {
        before.len() + c
    }
}

proof fn lemma_all_clips_distinct(p: Project, n: int)
    requires
        ids_unique(p),
        0 <= n <= p.lanes@.len(),
    ensures
        forall|i: int, j: int|
            #![trigger all_clips(p.lanes@.take(n))[i], all_clips(p.lanes@.take(n))[j]]
            0 <= i < j < all_clips(p.lanes@.take(n)).len() ==> all_clips(p.lanes@.take(n))[i].id
                != all_clips(p.lanes@.take(n))[j].id,
    decreases n,
{
    let lanes = p.lanes@.take(n);
    if n > 0 {
        let front = p.lanes@.take(n - 1);
        lemma_all_clips_distinct(p, n - 1);
        assert(lanes.drop_last() =~= front);
        assert(lanes.last() == p.lanes@[n - 1]);
        let before = all_clips(front);
        let all = all_clips(lanes);
        assert forall|i: int, j: int|
            #![trigger all[i], all[j]]
            0 <= i < j < all.len() implies all[i].id != all[j].id by {
            if j < before.len() {
                assert(all[i] == before[i] && all[j] == before[j]);
            } else {
                let d = j - before.len();
                assert(all[j] == clip_at(p, n - 1, d));
                assert(has_clip(p, n - 1, d));
                if i < before.len() {
                    assert(all[i] == before[i]);
                    let at = lemma_place_in_lanes(front, i);
                    assert(front[at.0] == p.lanes@[at.0]);
                    assert(has_clip(p, at.0, at.1));
                    assert(clip_at(p, at.0, at.1) == all[i]);
                } else {
                    let e = i - before.len();
                    assert(all[i] == clip_at(p, n - 1, e));
                    assert(has_clip(p, n - 1, e));
                }
            }
        }
    }
}

proof fn lemma_filter_keeps_distinct(s: Seq<ProjectClip>, f: spec_fn(ProjectClip) -> bool)
    requires
        forall|i: int, j: int|
            #![trigger s[i], s[j]]
            0 <= i < j < s.len() ==> s[i].id != s[j].id,
    ensures
        forall|i: int, j: int|
            #![trigger s.filter(f)[i], s.filter(f)[j]]
            0 <= i < j < s.filter(f).len() ==> s.filter(f)[i].id != s.filter(f)[j].id,
    decreases s.len(),
{
    reveal(Seq::filter);
    if s.len() > 0 {
        let front = s.drop_last();
        assert forall|i: int, j: int|
            #![trigger front[i], front[j]]
            0 <= i < j < front.len() implies front[i].id != front[j].id by {
            assert(front[i] == s[i] && front[j] == s[j]);
        }
        lemma_filter_keeps_distinct(front, f);
        lemma_filter_members(front, f);
        lemma_filter_push(front, s.last(), f);
        assert(s =~= front.push(s.last()));
        let kept = front.filter(f);
        let all = s.filter(f);
        assert forall|i: int, j: int|
            #![trigger all[i], all[j]]
            0 <= i < j < all.len() implies all[i].id != all[j].id by {
            assert(all[i] == kept[i]);
            if j < kept.len() {
                assert(all[j] == kept[j]);
            } else {
                assert(all[j] == s.last());
                assert(kept.contains(kept[i]));
                assert(front.contains(kept[i]));
                let k = choose|k: int| 0 <= k < front.len() && front[k] == kept[i];
                assert(s[k] == kept[i]);
                assert(s[s.len() - 1] == s.last());
            }
        }
    }
}

/// The members of link groups are exactly the clips that carry one of the links, each
/// once.
pub proof fn law_link_members(p: Project, links: Seq<u64>)
    requires
        ids_unique(p),
    ensures
        forall|t: int, c: int|
            #![trigger clip_at(p, t, c)]
            has_clip(p, t, c) ==> link_members(p.lanes@, links).contains(clip_at(p, t, c).id) == (
            clip_at(p, t, c).link matches Some(l) && links.contains(l)),
        forall|x: u64| #[trigger]
            link_members(p.lanes@, links).contains(x) ==> exists|t: int, c: int|
                has_clip(p, t, c) && (#[trigger] clip_at(p, t, c)).id == x,
        link_members(p.lanes@, links).no_duplicates(),
{
    let lanes = p.lanes@;
    let f = linked_to(links);
    let all = all_clips(lanes);
    let kept = all.filter(f);
    let ids = link_members(lanes, links);
    assert(lanes.take(lanes.len() as int) =~= lanes);
    lemma_all_clips_distinct(p, lanes.len() as int);
    lemma_filter_keeps_distinct(all, f);
    lemma_filter_members(all, f);
    assert forall|i: int, j: int| 0 <= i < ids.len() && 0 <= j < ids.len() && i != j implies ids[i]
        != ids[j] by {
        if i < j {
            assert(kept[i].id != kept[j].id);
        } else {
            assert(kept[j].id != kept[i].id);
        }
    }
    assert forall|x: u64| #[trigger] ids.contains(x) implies exists|t: int, c: int|
        has_clip(p, t, c) && (#[trigger] clip_at(p, t, c)).id == x by {
        let k = choose|k: int| 0 <= k < ids.len() && ids[k] == x;
        assert(kept.contains(kept[k]));
        let i = choose|i: int| 0 <= i < all.len() && all[i] == kept[k];
        let at = lemma_place_in_lanes(lanes, i);
        assert(has_clip(p, at.0, at.1) && clip_at(p, at.0, at.1).id == x);
    }
    assert forall|t: int, c: int|
        #![trigger clip_at(p, t, c)]
        has_clip(p, t, c) implies ids.contains(clip_at(p, t, c).id) == (clip_at(p, t, c).link matches Some(
        l,
    ) && links.contains(l)) by {
        let x = clip_at(p, t, c);
        let i = lemma_place_in_all(lanes, t, c);
        assert(all.contains(x));
        if f(x) {
            assert(kept.contains(x));
            let k = choose|k: int| 0 <= k < kept.len() && kept[k] == x;
            assert(ids[k] == x.id);
        }
        if ids.contains(x.id) {
            let k = choose|k: int| 0 <= k < ids.len() && ids[k] == x.id;
            assert(kept.contains(kept[k]));
            let j = choose|j: int| 0 <= j < all.len() && all[j] == kept[k];
            let at = lemma_place_in_lanes(lanes, j);
            assert(has_clip(p, at.0, at.1));
            assert(clip_at(p, at.0, at.1).id == x.id);
            assert(kept[k] == x);
            assert(f(x));
        }
    }
}

/// The link group of a clip is every clip that carries its link, each once; a clip
/// without a link is alone.
pub proof fn law_link_group(p: Project, t: int, c: int)
    requires
        ids_unique(p),
        has_clip(p, t, c),
    ensures
        ({
            let x = p.lanes@[t].clips@[c];
            let group = link_group_of(p, x.id);
            &&& group.no_duplicates()
            &&& group.contains(x.id)
            &&& x.link is None ==> group == seq![x.id]
            &&& forall|u: int, d: int|
                #![trigger clip_at(p, u, d)]
                has_clip(p, u, d) && clip_at(p, u, d).id != x.id ==> group.contains(
                    clip_at(p, u, d).id,
                ) == (x.link is Some && clip_at(p, u, d).link == x.link)
            &&& forall|y: u64| #[trigger]
                group.contains(y) ==> exists|u: int, d: int|
                    has_clip(p, u, d) && (#[trigger] clip_at(p, u, d)).id == y
        }),
{
    law_clip_is_found(p, t, c);
    let x = clip_at(p, t, c);
    let group = link_group_of(p, x.id);
    match x.link {
        Some(l) => {
            law_link_members(p, seq![l]);
            assert(seq![l].contains(l)) by {
                assert(seq![l][0] == l);
            }
            assert(group.contains(clip_at(p, t, c).id));
        },
        None => {
            assert(group =~= seq![x.id]);
            assert(group[0] == x.id);
        },
    }
}

// --- trims ----------------------------------------------------------------

/// The trims of the partners, told by their places in the group.
proof fn lemma_partner_trims(
    p: Project,
    group: Seq<u64>,
    clip: u64,
    by_start: int,
    by_duration: int,
)
    requires
        group.no_duplicates(),
    ensures
        ({
            let trims = partner_trims(p, group, clip, by_start, by_duration);
            &&& forall|i: int|
                #![trigger trims[i]]
                0 <= i < trims.len() ==> group.contains(trims[i].clip) && trims[i].clip != clip
                    && p.clip_with(trims[i].clip) is Some && trims[i] == partner_trim(
                    p,
                    trims[i].clip,
                    by_start,
                    by_duration,
                )
            &&& forall|x: u64|
                #![trigger group.contains(x)]
                group.contains(x) && x != clip && p.clip_with(x) is Some ==> exists|i: int|
                    0 <= i < trims.len() && (#[trigger] trims[i]).clip == x
            &&& forall|i: int, j: int|
                #![trigger trims[i], trims[j]]
                0 <= i < j < trims.len() ==> trims[i].clip != trims[j].clip
        }),
    decreases group.len(),
{
    if group.len() > 0 {
        let front = group.drop_last();
        let last = group.last();
        assert(front.no_duplicates());
        lemma_partner_trims(p, front, clip, by_start, by_duration);
        let before = partner_trims(p, front, clip, by_start, by_duration);
        let trims = partner_trims(p, group, clip, by_start, by_duration);
        assert(group[group.len() - 1] == last);
        assert(!front.contains(last)) by {
            if front.contains(last) {
                let k = choose|k: int| 0 <= k < front.len() && front[k] == last;
                assert(group[k] == group[group.len() - 1]);
            }
        }
        assert forall|i: int|
            #![trigger trims[i]]
            0 <= i < trims.len() implies group.contains(trims[i].clip) && trims[i].clip != clip
            && p.clip_with(trims[i].clip) is Some && trims[i] == partner_trim(
            p,
            trims[i].clip,
            by_start,
            by_duration,
        ) by {
            if i < before.len() {
                assert(trims[i] == before[i]);
                let k = choose|k: int| 0 <= k < front.len() && front[k] == before[i].clip;
                assert(group[k] == front[k]);
            }
        }
        assert forall|x: u64|
            #![trigger group.contains(x)]
            group.contains(x) && x != clip && p.clip_with(x) is Some implies exists|i: int|
            0 <= i < trims.len() && (#[trigger] trims[i]).clip == x by {
            if x == last {
                assert(trims[trims.len() - 1].clip == x);
            } else {
                let k = choose|k: int| 0 <= k < group.len() && group[k] == x;
                assert(front[k] == x);
                assert(front.contains(x));
                let i = choose|i: int| 0 <= i < before.len() && (#[trigger] before[i]).clip == x;
                assert(trims[i] == before[i]);
            }
        }
        assert forall|i: int, j: int|
            #![trigger trims[i], trims[j]]
            0 <= i < j < trims.len() implies trims[i].clip != trims[j].clip by {
            assert(trims[i] == before[i]);
            if j < before.len() {
                assert(trims[j] == before[j]);
            } else {
                assert(front.contains(before[i].clip));
            }
        }
    }
}

/// A trim takes the clip to the asked extent, from tick 0 on and at least one tick long,
/// and with linkage on moves the edges of every clip of its link group by as much: a
/// partner's start moves as the clip's start does, and its end as the clip's end does, as
/// long as a tick of it is left. No other clip is trimmed, and none twice.
pub proof fn law_trim_moves_edges_alike(
    p: Project,
    text: Seq<char>,
    t: int,
    c: int,
    start_tick: int,
    duration_ticks: int,
    linkage: bool,
)
    requires
        ids_unique(p),
        has_clip(p, t, c),
        raw_id(text) == Some(p.lanes@[t].clips@[c].id),
        start_tick <= i64::MAX,
        duration_ticks <= i64::MAX,
        motion_fits(
            p,
            (if start_tick < 0 { 0 } else { start_tick }) - p.lanes@[t].clips@[c].start,
            (if duration_ticks < 1 { 1 } else { duration_ticks }) - p.lanes@[t].clips@[c].duration,
        ),
    ensures
        ({
            let x = p.lanes@[t].clips@[c];
            let r = trim_of(p, text, start_tick, duration_ticks, linkage);
            &&& r is Ok
            &&& ({
                let trims = r->Ok_0;
                &&& trims.len() >= 1
                &&& trims[0].clip == x.id
                &&& trims[0].start == (if start_tick < 0 { 0 } else { start_tick })
                &&& trims[0].duration == (if duration_ticks < 1 { 1 } else { duration_ticks })
                &&& !linkage ==> trims.len() == 1
                &&& forall|i: int, j: int|
                    #![trigger trims[i], trims[j]]
                    0 <= i < j < trims.len() ==> trims[i].clip != trims[j].clip
                &&& forall|u: int, d: int|
                    #![trigger clip_at(p, u, d)]
                    has_clip(p, u, d) && clip_at(p, u, d).id != x.id ==> (linkage && x.link is Some
                        && clip_at(p, u, d).link == x.link) == (exists|i: int|
                        0 <= i < trims.len() && (#[trigger] trims[i]).clip == clip_at(p, u, d).id)
                &&& forall|i: int, u: int, d: int|
                    #![trigger trims[i], clip_at(p, u, d)]
                    0 < i < trims.len() && has_clip(p, u, d) && trims[i].clip == clip_at(
                        p,
                        u,
                        d,
                    ).id ==> {
                        let q = clip_at(p, u, d);
                        let by_end = (trims[0].start + trims[0].duration) - (x.start + x.duration);
                        let by_start = trims[0].start - x.start;
                        &&& trims[i].start - q.start == by_start
                        &&& if (q.start + q.duration) + by_end > q.start + by_start {
                            (trims[i].start + trims[i].duration) - (q.start + q.duration) == by_end
                        } else {
                            trims[i].duration == 1
                        }
                    }
                &&& forall|i: int|
                    0 <= i < trims.len() ==> exists|u: int, d: int|
                        has_clip(p, u, d) && (#[trigger] clip_at(p, u, d)).id == (
                        #[trigger] trims[i]).clip
            })
        }),
{
    law_clip_is_found(p, t, c);
    let x = clip_at(p, t, c);
    let start = max_int(start_tick, 0);
    let duration = max_int(duration_ticks, 1);
    let (by_start, by_duration) = (start - x.start, duration - x.duration);
    let group = link_group_of(p, x.id);
    let trims = trim_of(p, text, start_tick, duration_ticks, linkage)->Ok_0;
    let partners = partner_trims(p, group, x.id, by_start, by_duration);
    law_link_group(p, t, c);
    lemma_partner_trims(p, group, x.id, by_start, by_duration);
    assert(p.clip_with(x.id)->0 == x);
    assert(trims[0].clip == x.id);
    if linkage {
        assert(trims.len() == partners.len() + 1);
        assert forall|i: int| 0 < i < trims.len() implies #[trigger] trims[i] == partners[i - 1] by {}
        assert forall|i: int, j: int|
            #![trigger trims[i], trims[j]]
            0 <= i < j < trims.len() implies trims[i].clip != trims[j].clip by {
            assert(trims[j] == partners[j - 1]);
            if i > 0 {
                assert(trims[i] == partners[i - 1]);
            }
        }
        assert forall|u: int, d: int|
            #![trigger clip_at(p, u, d)]
            has_clip(p, u, d) && clip_at(p, u, d).id != x.id implies (x.link is Some && clip_at(
            p,
            u,
            d,
        ).link == x.link) == (exists|i: int|
            0 <= i < trims.len() && (#[trigger] trims[i]).clip == clip_at(p, u, d).id) by {
            let q = clip_at(p, u, d);
            law_clip_is_found(p, u, d);
            if group.contains(q.id) {
                let i = choose|i: int| 0 <= i < partners.len() && (#[trigger] partners[i]).clip == q.id;
                assert(trims[i + 1].clip == q.id);
            }
            if exists|i: int| 0 <= i < trims.len() && (#[trigger] trims[i]).clip == q.id {
                let i = choose|i: int| 0 <= i < trims.len() && (#[trigger] trims[i]).clip == q.id;
                assert(trims[i] == partners[i - 1]);
                assert(group.contains(q.id));
            }
        }
        assert forall|i: int, u: int, d: int|
            #![trigger trims[i], clip_at(p, u, d)]
            0 < i < trims.len() && has_clip(p, u, d) && trims[i].clip == clip_at(p, u, d).id implies ({
            let q = clip_at(p, u, d);
            let by_end = (trims[0].start + trims[0].duration) - (x.start + x.duration);
            let by = trims[0].start - x.start;
            &&& trims[i].start - q.start == by
            &&& if (q.start + q.duration) + by_end > q.start + by {
                (trims[i].start + trims[i].duration) - (q.start + q.duration) == by_end
            } else {
                trims[i].duration == 1
            }
        }) by {
            law_clip_is_found(p, u, d);
            assert(trims[i] == partners[i - 1]);
            assert(p.clip_with(clip_at(p, u, d).id)->0.start == clip_at(p, u, d).start);
        }
        assert forall|i: int| 0 <= i < trims.len() implies exists|u: int, d: int|
            has_clip(p, u, d) && (#[trigger] clip_at(p, u, d)).id == (#[trigger] trims[i]).clip by {
            if i == 0 {
                assert(clip_at(p, t, c).id == trims[i].clip);
            } else {
                assert(trims[i] == partners[i - 1]);
                assert(group.contains(trims[i].clip));
            }
        }
    } else {
        assert forall|i: int| 0 <= i < trims.len() implies exists|u: int, d: int|
            has_clip(p, u, d) && (#[trigger] clip_at(p, u, d)).id == (#[trigger] trims[i]).clip by {
            assert(clip_at(p, t, c).id == trims[i].clip);
        }
    }
}

/// A trim of a text that is no id, or of an id that no clip has, is ignored.
pub proof fn law_trim_of_nothing(
    p: Project,
    text: Seq<char>,
    start_tick: int,
    duration_ticks: int,
    linkage: bool,
)
    ensures
        raw_id(text) is None ==> trim_of(p, text, start_tick, duration_ticks, linkage) == Err::<
            Seq<MemberTrim>,
            Ignored,
        >(Ignored::BadClipId),
        raw_id(text) matches Some(id) ==> (forall|t: int, c: int|
            has_clip(p, t, c) ==> (#[trigger] clip_at(p, t, c)).id != id) ==> trim_of(
            p,
            text,
            start_tick,
            duration_ticks,
            linkage,
        ) == Err::<Seq<MemberTrim>, Ignored>(Ignored::ClipNotOnTimeline),
{
    if raw_id(text) is Some && forall|t: int, c: int|
        has_clip(p, t, c) ==> (#[trigger] clip_at(p, t, c)).id != raw_id(text)->0 {
        law_unknown_clip_is_not_found(p, raw_id(text)->0);
    }
}

/// Trims ripple exactly when the magnet is on and one of the clips sits on the bottom
/// video lane.
pub proof fn law_trims_ripple_on_the_main_lane(
    p: Project,
    trims: Seq<MemberTrim>,
    magnet: bool,
    m: int,
)
    requires
        ids_unique(p),
        0 <= m < p.lanes@.len(),
        p.lanes@[m].kind == TrackKind::Video,
        forall|t: int| 0 <= t < m ==> (#[trigger] p.lanes@[t]).kind != TrackKind::Video,
    ensures
        trims_ripple(p, trims, magnet) == (magnet && exists|i: int, c: int|
            #![trigger trims[i], clip_at(p, m, c)]
            0 <= i < trims.len() && has_clip(p, m, c) && clip_at(p, m, c).id == trims[i].clip),
        !magnet ==> !trims_ripple(p, trims, magnet),
{
    law_main_lane_is_bottom_video(p);
    assert(p.main_lane() == Some(m)) by {
        match p.main_lane() {
            Some(k) => {
                if k < m {
                    assert(p.lanes@[k].kind != TrackKind::Video);
                } else if m < k {
                    assert(p.lanes@[m].kind != TrackKind::Video);
                }
            },
            None => {
                assert(p.lanes@[m].kind != TrackKind::Video);
            },
        }
    }
    if trims_ripple(p, trims, magnet) {
        let i = choose|i: int|
            0 <= i < trims.len() && p.lane_of_clip((#[trigger] trims[i]).clip) == p.main_lane();
        let at = law_found_clip_is_there(p, trims[i].clip);
        assert(has_clip(p, m, at.1) && clip_at(p, m, at.1).id == trims[i].clip);
    }
    if exists|i: int, c: int|
        #![trigger trims[i], clip_at(p, m, c)]
        0 <= i < trims.len() && has_clip(p, m, c) && clip_at(p, m, c).id == trims[i].clip {
        let (i, c) = choose|i: int, c: int|
            #![trigger trims[i], clip_at(p, m, c)]
            0 <= i < trims.len() && has_clip(p, m, c) && clip_at(p, m, c).id == trims[i].clip;
        law_clip_is_found(p, m, c);
        assert(p.lane_of_clip(trims[i].clip) == p.main_lane());
    }
}

/// A trim without a ripple is one step, and touches nothing but its clip.
pub proof fn law_plain_member_trim(p: Project, trim: MemberTrim)
    ensures
        member_steps(p, trim, false).len() == 1,
        member_steps(p, trim, false)[0] == (EditView::TrimClip {
            clip: trim.clip,
            start: trim.start as int,
            duration: trim.duration as int,
        }),
{
}

/// A ripple trim of the clip at a place, by either edge, leaves it at its start with the
/// new length, moves what stands behind its old end by the change in length, and leaves
/// what stands before it; its steps are edits of that lane and that clip alone.
pub proof fn law_ripple_member_trim(p: Project, t: int, c: int, trim: MemberTrim)
    requires
        ids_unique(p),
        lane_wf(p.lanes@[t].clips@),
        has_clip(p, t, c),
        trim.clip == p.lanes@[t].clips@[c].id,
        trim.duration >= 1,
        trim.start == p.lanes@[t].clips@[c].start || trim.start + trim.duration
            == p.lanes@[t].clips@[c].start + p.lanes@[t].clips@[c].duration,
    ensures
        ({
            let x = p.lanes@[t].clips@[c];
            let steps = member_steps(p, trim, true);
            let after = lane_after_all(slots_of(p.lanes@[t].clips@), p.lanes@[t].id, steps);
            &&& after.len() == p.lanes@[t].clips@.len()
            &&& after[c].start == x.start
            &&& after[c].duration == trim.duration
            &&& forall|i: int|
                #![trigger after[i]]
                0 <= i < after.len() && i != c ==> after[i].duration == p.lanes@[t].clips@[i].duration
                    && after[i].start == p.lanes@[t].clips@[i].start + (if i > c {
                    trim.duration - x.duration
                } else {
                    0
                })
            &&& forall|k: int|
                0 <= k < steps.len() ==> match #[trigger] steps[k] {
                    EditView::TrimClip { clip, .. } => clip == x.id,
                    EditView::ShiftClips { lane, .. } => lane == p.lanes@[t].id,
                    _ => false,
                }
        }),
{
    law_clip_is_found(p, t, c);
    let clips = p.lanes@[t].clips@;
    let x = clips[c];
    let lane = slots_of(clips);
    assert(apart(lane)) by {
        assert forall|i: int, j: int|
            #![trigger lane[i], lane[j]]
            0 <= i < lane.len() && 0 <= j < lane.len() && i != j implies lane[i].start
            + lane[i].duration <= lane[j].start || lane[j].start + lane[j].duration
            <= lane[i].start by {
            if i < j {
                assert(clips[i].end() <= clips[j].start);
            } else {
                assert(clips[j].end() <= clips[i].start);
            }
        }
    }
    assert(distinct_ids(lane)) by {
        assert forall|i: int, j: int|
            #![trigger lane[i], lane[j]]
            0 <= i < j < lane.len() implies lane[i].id != lane[j].id by {
            assert(has_clip(p, t, i) && has_clip(p, t, j));
            assert(clip_at(p, t, i).id != clip_at(p, t, j).id);
        }
    }
    assert forall|i: int| 0 <= i < lane.len() implies (#[trigger] lane[i]).duration >= 1 by {
        assert(clips[i].duration >= 1);
    }
    law_ripple_trim_effect(
        lane,
        p.lanes@[t].id,
        c,
        x.start as int,
        x.duration as int,
        trim.start as int,
        trim.duration as int,
    );
    let after = lane_after_all(lane, p.lanes@[t].id, member_steps(p, trim, true));
    assert forall|i: int|
        #![trigger after[i]]
        0 <= i < after.len() && i != c implies after[i].duration == clips[i].duration
        && after[i].start == clips[i].start + (if i > c {
        trim.duration - x.duration
    } else {
        0
    }) by {
        assert(lane[i].id != lane[c].id) by {
            assert(has_clip(p, t, i));
            assert(clip_at(p, t, i).id != clip_at(p, t, c).id);
        }
        if i > c {
            assert(clips[c].end() <= clips[i].start);
        } else {
            assert(clips[i].end() <= clips[c].start);
            assert(clips[i].duration >= 1);
        }
    }
}

// --- moves ----------------------------------------------------------------

/// `b` shows the clips of the project: every lane, and on each its clips with their
/// starts and lengths.
pub open spec fn is_board(b: Board, p: Project) -> bool {
    &&& forall|t: int| 0 <= t < p.lanes@.len() ==> b.contains_key((#[trigger] p.lanes@[t]).id)
    &&& forall|l: u64| #[trigger]
        b.contains_key(l) ==> exists|t: int|
            0 <= t < p.lanes@.len() && (#[trigger] p.lanes@[t]).id == l
    &&& forall|t: int, c: int|
        #![trigger clip_at(p, t, c)]
        has_clip(p, t, c) ==> b[p.lanes@[t].id].contains_key(clip_at(p, t, c).id)
            && b[p.lanes@[t].id][clip_at(p, t, c).id] == (
            clip_at(p, t, c).start as int,
            clip_at(p, t, c).duration as int,
        )
    &&& forall|t: int, id: u64|
        #![trigger b[p.lanes@[t].id].contains_key(id)]
        0 <= t < p.lanes@.len() && b[p.lanes@[t].id].contains_key(id) ==> exists|c: int|
            has_clip(p, t, c) && (#[trigger] clip_at(p, t, c)).id == id
}

proof fn lemma_only_on(b: Board, p: Project, t: int, c: int)
    requires
        ids_unique(p),
        is_board(b, p),
        has_clip(p, t, c),
    ensures
        only_on(b, clip_at(p, t, c).id, p.lanes@[t].id),
        lane_with(b, clip_at(p, t, c).id) == p.lanes@[t].id,
{
    let x = clip_at(p, t, c);
    let from = p.lanes@[t].id;
    assert(b.contains_key(from) && b[from].contains_key(x.id));
    assert forall|l: u64| #[trigger] b.contains_key(l) && b[l].contains_key(x.id) implies l == from by {
        let u = choose|u: int| 0 <= u < p.lanes@.len() && (#[trigger] p.lanes@[u]).id == l;
        assert(b[p.lanes@[u].id].contains_key(x.id));
        let d = choose|d: int| has_clip(p, u, d) && (#[trigger] clip_at(p, u, d)).id == x.id;
        assert(clip_at(p, u, d).id == clip_at(p, t, c).id);
    }
    let l = lane_with(b, x.id);
    assert(b.contains_key(l) && b[l].contains_key(x.id));
}

/// The steps of a freeform move to the lane `to`.
proof fn lemma_freeform_steps(
    p: Project,
    text: Seq<char>,
    track: Seq<char>,
    t: int,
    c: int,
    insert_row: int,
    start_tick: int,
    magnet: bool,
)
    requires
        ids_unique(p),
        has_clip(p, t, c),
        raw_id(text) == Some(p.lanes@[t].clips@[c].id),
        raw_id(track) is Some,
    ensures
        ({
            let x = p.lanes@[t].clips@[c];
            let from = p.lanes@[t].id;
            let to = raw_id(track)->0;
            let at = max_int(start_tick, 0);
            let go = EditView::MoveClip { clip: x.id, to: LaneRef::Id(to), start: at };
            let close = EditView::ShiftClips {
                lane: from,
                from: x.start as int,
                delta: -(x.duration as int),
            };
            let gone = EditView::DropLaneIfEmpty { lane: from };
            moved_clip(p, text, track, insert_row, start_tick, false, magnet) == (PlannedView::Run {
                steps: if to == from {
                    seq![go]
                } else if magnet && p.main_lane() == Some(t) {
                    seq![go, close, gone]
                } else {
                    seq![go, gone]
                },
                quiet: 0,
            })
        }),
{
    law_clip_is_found(p, t, c);
    let x = p.lanes@[t].clips@[c];
    let from = p.lanes@[t].id;
    let to = raw_id(track)->0;
    let at = max_int(start_tick, 0);
    let go = EditView::MoveClip { clip: x.id, to: LaneRef::Id(to), start: at };
    let close = EditView::ShiftClips {
        lane: from,
        from: x.start as int,
        delta: -(x.duration as int),
    };
    let gone = EditView::DropLaneIfEmpty { lane: from };
    let steps = moved_clip(p, text, track, insert_row, start_tick, false, magnet)->steps;
    if to == from {
        assert(steps =~= seq![go]);
    } else if magnet && p.main_lane() == Some(t) {
        assert(steps =~= seq![go, close, gone]);
    } else {
        assert(steps =~= seq![go, gone]);
    }
}

/// A clip that is dragged to a place lands there: after the planned steps it stands on
/// the named lane, at the asked tick or at 0, with its length. Along its own lane nothing
/// else changes. On another lane everything there stays; the lane it left goes when
/// nothing else was on it, and else keeps its clips, which close up behind the clip when
/// the magnet is on and the lane is the bottom video lane, and stay where they are
/// otherwise. All other lanes stay.
pub proof fn law_dragged_clip_lands(
    p: Project,
    b: Board,
    text: Seq<char>,
    track: Seq<char>,
    t: int,
    c: int,
    u: int,
    insert_row: int,
    start_tick: int,
    magnet: bool,
)
    requires
        ids_unique(p),
        is_board(b, p),
        has_clip(p, t, c),
        0 <= u < p.lanes@.len(),
        raw_id(text) == Some(p.lanes@[t].clips@[c].id),
        raw_id(track) == Some(p.lanes@[u].id),
    ensures
        ({
            let x = p.lanes@[t].clips@[c];
            let from = p.lanes@[t].id;
            let to = p.lanes@[u].id;
            let r = moved_clip(p, text, track, insert_row, start_tick, false, magnet);
            let end = all_applied(b, r->steps, 0, takes_all());
            let closes = magnet && p.lanes@[t].kind == TrackKind::Video && forall|v: int|
                0 <= v < t ==> (#[trigger] p.lanes@[v]).kind != TrackKind::Video;
            &&& r is Run
            &&& r->quiet == 0
            &&& end.contains_key(to)
            &&& end[to].contains_key(x.id)
            &&& end[to][x.id].0 == (if start_tick < 0 { 0 } else { start_tick })
            &&& end[to][x.id].1 == x.duration
            &&& forall|d: int|
                #![trigger clip_at(p, u, d)]
                has_clip(p, u, d) && clip_at(p, u, d).id != x.id ==> end[to].contains_key(
                    clip_at(p, u, d).id,
                ) && end[to][clip_at(p, u, d).id] == (
                    clip_at(p, u, d).start as int,
                    clip_at(p, u, d).duration as int,
                )
            &&& u != t ==> end.contains_key(from) == (p.lanes@[t].clips@.len() > 1)
            &&& u != t && end.contains_key(from) ==> !end[from].contains_key(x.id) && forall|d: int|
                #![trigger clip_at(p, t, d)]
                has_clip(p, t, d) && d != c ==> end[from].contains_key(clip_at(p, t, d).id)
                    && end[from][clip_at(p, t, d).id] == (
                    clip_at(p, t, d).start - (if closes && clip_at(p, t, d).start >= x.start {
                        x.duration as int
                    } else {
                        0
                    }),
                    clip_at(p, t, d).duration as int,
                )
            &&& forall|l: u64|
                #![trigger end.contains_key(l)]
                l != from && l != to ==> end.contains_key(l) == b.contains_key(l) && end[l] == b[l]
        }),
{
    lemma_only_on(b, p, t, c);
    lemma_freeform_steps(p, text, track, t, c, insert_row, start_tick, magnet);
    law_main_lane_is_bottom_video(p);
    let x = clip_at(p, t, c);
    let from = p.lanes@[t].id;
    let to = p.lanes@[u].id;
    let at = max_int(start_tick, 0);
    let steps = moved_clip(p, text, track, insert_row, start_tick, false, magnet)->steps;
    let closes = magnet && p.lanes@[t].kind == TrackKind::Video && forall|v: int|
        0 <= v < t ==> (#[trigger] p.lanes@[v]).kind != TrackKind::Video;
    assert(closes == (magnet && p.main_lane() == Some(t)));
    assert(b[from][x.id] == (x.start as int, x.duration as int));
    reveal_with_fuel(all_applied, 4);
    let b1 = board_after(b, steps[0]);
    assert forall|d: int| has_clip(p, u, d) && (#[trigger] clip_at(p, u, d)).id != x.id implies b1[to].contains_key(
        clip_at(p, u, d).id,
    ) && b1[to][clip_at(p, u, d).id] == (
        clip_at(p, u, d).start as int,
        clip_at(p, u, d).duration as int,
    ) by {}
    if t == u {
        assert(from == to);
        assert(all_applied(b, steps, 0, takes_all()) == b1);
    } else {
        if t < u {
            assert(p.lanes@[t].id != p.lanes@[u].id);
        } else {
            assert(p.lanes@[u].id != p.lanes@[t].id);
        }
        let rest = b[from].remove(x.id);
        assert(b1[from] == rest);
        let n = p.lanes@[t].clips@.len();
        assert((rest.dom() =~= Set::<u64>::empty()) == (n == 1)) by {
            if n == 1 {
                assert forall|id: u64| !rest.dom().contains(id) by {
                    if rest.dom().contains(id) {
                        assert(b[p.lanes@[t].id].contains_key(id));
                        let d = choose|d: int|
                            has_clip(p, t, d) && (#[trigger] clip_at(p, t, d)).id == id;
                        assert(clip_at(p, t, d) == clip_at(p, t, c));
                    }
                }
            } else {
                let d: int = if c == 0 {
                    1
                } else {
                    0
                };
                assert(has_clip(p, t, d));
                assert(clip_at(p, t, d).id != clip_at(p, t, c).id);
                assert(rest.dom().contains(clip_at(p, t, d).id));
            }
        }
        if closes {
            let b2 = board_after(b1, steps[1]);
            let b3 = board_after(b2, steps[2]);
            assert(b2[from] == lane_shifted(rest, x.start as int, -(x.duration as int)));
            assert(b2[from].dom() =~= rest.dom());
            assert(all_applied(b, steps, 0, takes_all()) == b3);
            assert forall|d: int|
                #![trigger clip_at(p, t, d)]
                has_clip(p, t, d) && d != c implies rest.contains_key(clip_at(p, t, d).id) by {
                assert(clip_at(p, t, d).id != clip_at(p, t, c).id);
            }
        } else {
            let b2 = board_after(b1, steps[1]);
            assert(all_applied(b, steps, 0, takes_all()) == b2);
            assert forall|d: int|
                #![trigger clip_at(p, t, d)]
                has_clip(p, t, d) && d != c implies rest.contains_key(clip_at(p, t, d).id) by {
                assert(clip_at(p, t, d).id != clip_at(p, t, c).id);
            }
        }
    }
}

/// A drag that names no lane makes one, of the kind of the clip's lane and at the asked
/// row of the list, which shows the stack top first; the clip goes onto it at the asked
/// tick or at 0. Only the failure to make the lane leaves the view alone.
pub proof fn law_drag_to_new_lane(
    p: Project,
    text: Seq<char>,
    track: Seq<char>,
    t: int,
    c: int,
    insert_row: int,
    start_tick: int,
    magnet: bool,
)
    requires
        ids_unique(p),
        has_clip(p, t, c),
        raw_id(text) == Some(p.lanes@[t].clips@[c].id),
        raw_id(track) is None,
    ensures
        ({
            let x = p.lanes@[t].clips@[c];
            let n = p.lanes@.len() as int;
            let r = moved_clip(p, text, track, insert_row, start_tick, false, magnet);
            let closes = magnet && p.lanes@[t].kind == TrackKind::Video && forall|v: int|
                0 <= v < t ==> (#[trigger] p.lanes@[v]).kind != TrackKind::Video;
            &&& r is Run
            &&& r->quiet == 1
            &&& r->steps.len() == (if closes { 4int } else { 3 })
            &&& r->steps[0] is AddTrack
            &&& r->steps[0]->kind == p.lanes@[t].kind
            &&& r->steps[0]->index == (if insert_row <= 0 {
                n
            } else if insert_row >= n {
                0
            } else {
                n - insert_row
            })
            &&& r->steps[1] == (EditView::MoveClip {
                clip: x.id,
                to: LaneRef::Step(0),
                start: if start_tick < 0 { 0 } else { start_tick },
            })
            &&& closes ==> r->steps[2] == (EditView::ShiftClips {
                lane: p.lanes@[t].id,
                from: x.start as int,
                delta: -(x.duration as int),
            })
            &&& r->steps.last() == (EditView::DropLaneIfEmpty { lane: p.lanes@[t].id })
        }),
{
    law_clip_is_found(p, t, c);
    law_main_lane_is_bottom_video(p);
    let closes = magnet && p.lanes@[t].kind == TrackKind::Video && forall|v: int|
        0 <= v < t ==> (#[trigger] p.lanes@[v]).kind != TrackKind::Video;
    assert(closes == (magnet && p.main_lane() == Some(t)));
}

/// An inserting move that names no lane is ignored.
pub proof fn law_insert_needs_a_lane(
    p: Project,
    text: Seq<char>,
    track: Seq<char>,
    t: int,
    c: int,
    insert_row: int,
    start_tick: int,
    magnet: bool,
)
    requires
        ids_unique(p),
        has_clip(p, t, c),
        raw_id(text) == Some(p.lanes@[t].clips@[c].id),
        raw_id(track) is None,
    ensures
        moved_clip(p, text, track, insert_row, start_tick, true, magnet) == PlannedView::Ignored(
            Ignored::BadLaneId,
        ),
{
    law_clip_is_found(p, t, c);
}

/// An inserting move along the clip's own lane takes the clip to the asked tick or to 0:
/// the others close the gap it leaves, and those at or behind the tick then make room of
/// its length.
pub proof fn law_insert_reorders_own_lane(
    p: Project,
    text: Seq<char>,
    track: Seq<char>,
    t: int,
    c: int,
    insert_row: int,
    start_tick: int,
    magnet: bool,
)
    requires
        ids_unique(p),
        has_clip(p, t, c),
        lane_wf(p.lanes@[t].clips@),
        raw_id(text) == Some(p.lanes@[t].clips@[c].id),
        raw_id(track) == Some(p.lanes@[t].id),
    ensures
        ({
            let clips = p.lanes@[t].clips@;
            let x = clips[c];
            let r = moved_clip(p, text, track, insert_row, start_tick, true, magnet);
            let after = lane_after_all(slots_of(clips), p.lanes@[t].id, r->steps);
            let at = if start_tick < 0 { 0 } else { start_tick };
            &&& r is Run
            &&& r->quiet == 0
            &&& after.len() == clips.len()
            &&& after[c].start == at
            &&& after[c].duration == x.duration
            &&& forall|i: int|
                #![trigger after[i]]
                0 <= i < after.len() && i != c ==> {
                    let closed = clips[i].start - (if i > c { x.duration as int } else { 0 });
                    after[i].duration == clips[i].duration && after[i].start == closed + (if closed
                        >= at {
                        x.duration as int
                    } else {
                        0
                    })
                }
        }),
{
    law_clip_is_found(p, t, c);
    let clips = p.lanes@[t].clips@;
    let x = clips[c];
    let lane = slots_of(clips);
    let at = max_int(start_tick, 0);
    lemma_lane_site(p, t, c);
    law_reorder_effect(
        lane,
        p.lanes@[t].id,
        c,
        x.start as int,
        x.duration as int,
        lane_end(clips),
        at,
    );
    let r = moved_clip(p, text, track, insert_row, start_tick, true, magnet);
    let after = lane_after_all(lane, p.lanes@[t].id, r->steps);
    assert forall|i: int|
        #![trigger after[i]]
        0 <= i < after.len() && i != c implies ({
        let closed = clips[i].start - (if i > c { x.duration as int } else { 0 });
        after[i].duration == clips[i].duration && after[i].start == closed + (if closed >= at {
            x.duration as int
        } else {
            0
        })
    }) by {
        assert(lane[i].id != lane[c].id) by {
            assert(has_clip(p, t, i));
            assert(clip_at(p, t, i).id != clip_at(p, t, c).id);
        }
        if i > c {
            assert(clips[c].end() <= clips[i].start);
        } else {
            assert(clips[i].end() <= clips[c].start);
            assert(clips[i].duration >= 1);
        }
    }
}

/// The lane of a clip is a fit place to trim or reorder it.
proof fn lemma_lane_site(p: Project, t: int, c: int)
    requires
        ids_unique(p),
        has_clip(p, t, c),
        lane_wf(p.lanes@[t].clips@),
    ensures
        trim_site(
            slots_of(p.lanes@[t].clips@),
            c,
            p.lanes@[t].clips@[c].start as int,
            p.lanes@[t].clips@[c].duration as int,
        ),
{
    let clips = p.lanes@[t].clips@;
    let lane = slots_of(clips);
    assert forall|i: int, j: int|
        #![trigger lane[i], lane[j]]
        0 <= i < lane.len() && 0 <= j < lane.len() && i != j implies lane[i].start
        + lane[i].duration <= lane[j].start || lane[j].start + lane[j].duration
        <= lane[i].start by {
        if i < j {
            assert(clips[i].end() <= clips[j].start);
        } else {
            assert(clips[j].end() <= clips[i].start);
        }
    }
    assert forall|i: int, j: int|
        #![trigger lane[i], lane[j]]
        0 <= i < j < lane.len() implies lane[i].id != lane[j].id by {
        assert(has_clip(p, t, i) && has_clip(p, t, j));
        assert(clip_at(p, t, i).id != clip_at(p, t, j).id);
    }
    assert forall|i: int| 0 <= i < lane.len() implies (#[trigger] lane[i]).duration >= 1 by {
        assert(clips[i].duration >= 1);
    }
}

/// An inserting move onto another lane makes room of the clip's length there, from the
/// asked tick or 0 on, and puts the clip into it; the lane it left keeps its other clips
/// where they are, or goes when there are none.
pub proof fn law_insert_into_other_lane(
    p: Project,
    b: Board,
    text: Seq<char>,
    track: Seq<char>,
    t: int,
    c: int,
    u: int,
    insert_row: int,
    start_tick: int,
    magnet: bool,
)
    requires
        ids_unique(p),
        is_board(b, p),
        has_clip(p, t, c),
        0 <= u < p.lanes@.len(),
        u != t,
        raw_id(text) == Some(p.lanes@[t].clips@[c].id),
        raw_id(track) == Some(p.lanes@[u].id),
    ensures
        ({
            let x = p.lanes@[t].clips@[c];
            let from = p.lanes@[t].id;
            let to = p.lanes@[u].id;
            let r = moved_clip(p, text, track, insert_row, start_tick, true, magnet);
            let end = all_applied(b, r->steps, 0, takes_all());
            let at = if start_tick < 0 { 0 } else { start_tick };
            &&& r is Run
            &&& r->quiet == 0
            &&& end.contains_key(to)
            &&& end[to].contains_key(x.id)
            &&& end[to][x.id] == (at, x.duration as int)
            &&& forall|d: int|
                #![trigger clip_at(p, u, d)]
                has_clip(p, u, d) ==> end[to].contains_key(clip_at(p, u, d).id)
                    && end[to][clip_at(p, u, d).id] == (
                    clip_at(p, u, d).start + (if clip_at(p, u, d).start >= at {
                        x.duration as int
                    } else {
                        0
                    }),
                    clip_at(p, u, d).duration as int,
                )
            &&& end.contains_key(from) == (p.lanes@[t].clips@.len() > 1)
            &&& end.contains_key(from) ==> end[from] == b[from].remove(x.id)
            &&& forall|l: u64|
                #![trigger end.contains_key(l)]
                l != from && l != to ==> end.contains_key(l) == b.contains_key(l) && end[l] == b[l]
        }),
{
    law_clip_is_found(p, t, c);
    lemma_only_on(b, p, t, c);
    let x = clip_at(p, t, c);
    let from = p.lanes@[t].id;
    let to = p.lanes@[u].id;
    let at = max_int(start_tick, 0);
    if t < u {
        assert(p.lanes@[t].id != p.lanes@[u].id);
    } else {
        assert(p.lanes@[u].id != p.lanes@[t].id);
    }
    let steps = moved_clip(p, text, track, insert_row, start_tick, true, magnet)->steps;
    reveal_with_fuel(all_applied, 4);
    let b1 = board_after(b, steps[0]);
    assert(b1[to] == lane_shifted(b[to], at, x.duration as int));
    assert(b1[from] == b[from]);
    assert(lane_with(b1, x.id) == from) by {
        assert(b1.contains_key(from) && b1[from].contains_key(x.id));
        let l = lane_with(b1, x.id);
        assert(b1.contains_key(l) && b1[l].contains_key(x.id));
        assert(b.contains_key(l));
        if l == to {
            assert(b[to].contains_key(x.id));
        }
    }
    let b2 = board_after(b1, steps[1]);
    let b3 = board_after(b2, steps[2]);
    assert(all_applied(b, steps, 0, takes_all()) == b3);
    let rest = b[from].remove(x.id);
    assert(b2[from] == rest);
    let n = p.lanes@[t].clips@.len();
    assert((rest.dom() =~= Set::<u64>::empty()) == (n == 1)) by {
        if n == 1 {
            assert forall|id: u64| !rest.dom().contains(id) by {
                if rest.dom().contains(id) {
                    assert(b[p.lanes@[t].id].contains_key(id));
                    let d = choose|d: int|
                        has_clip(p, t, d) && (#[trigger] clip_at(p, t, d)).id == id;
                    assert(clip_at(p, t, d) == clip_at(p, t, c));
                }
            }
        } else {
            let d: int = if c == 0 {
                1
            } else {
                0
            };
            assert(has_clip(p, t, d));
            assert(clip_at(p, t, d).id != clip_at(p, t, c).id);
            assert(rest.dom().contains(clip_at(p, t, d).id));
        }
    }
    assert forall|d: int|
        #![trigger clip_at(p, u, d)]
        has_clip(p, u, d) implies b2[to].contains_key(clip_at(p, u, d).id) && b2[to][clip_at(
        p,
        u,
        d,
    ).id] == (
        clip_at(p, u, d).start + (if clip_at(p, u, d).start >= at {
            x.duration as int
        } else {
            0
        }),
        clip_at(p, u, d).duration as int,
    ) by {
        assert(clip_at(p, u, d).id != clip_at(p, t, c).id);
    }
}

/// A move of a text that is no id, or of an id that no clip has, is ignored.
pub proof fn law_move_of_nothing(
    p: Project,
    text: Seq<char>,
    track: Seq<char>,
    insert_row: int,
    start_tick: int,
    insert: bool,
    magnet: bool,
)
    ensures
        raw_id(text) is None ==> moved_clip(
            p,
            text,
            track,
            insert_row,
            start_tick,
            insert,
            magnet,
        ) == PlannedView::Ignored(Ignored::BadClipId),
        raw_id(text) matches Some(id) ==> (forall|t: int, c: int|
            has_clip(p, t, c) ==> (#[trigger] clip_at(p, t, c)).id != id) ==> moved_clip(
            p,
            text,
            track,
            insert_row,
            start_tick,
            insert,
            magnet,
        ) == PlannedView::Ignored(Ignored::ClipNotOnTimeline),
{
    if raw_id(text) is Some && forall|t: int, c: int|
        has_clip(p, t, c) ==> (#[trigger] clip_at(p, t, c)).id != raw_id(text)->0 {
        law_unknown_clip_is_not_found(p, raw_id(text)->0);
    }
}

// --- splits ---------------------------------------------------------------

/// Filtering a list without repetitions leaves none.
pub proof fn lemma_filter_unique<T>(s: Seq<T>, f: spec_fn(T) -> bool)
    requires
        s.no_duplicates(),
    ensures
        s.filter(f).no_duplicates(),
    decreases s.len(),
{
    reveal(Seq::filter);
    if s.len() > 0 {
        let front = s.drop_last();
        assert(front.no_duplicates());
        lemma_filter_unique(front, f);
        lemma_filter_members(front, f);
        lemma_filter_push(front, s.last(), f);
        assert(s =~= front.push(s.last()));
        let kept = front.filter(f);
        let all = s.filter(f);
        assert forall|i: int, j: int|
            0 <= i < all.len() && 0 <= j < all.len() && i != j implies all[i] != all[j] by {
            assert(!front.contains(s.last())) by {
                if front.contains(s.last()) {
                    let k = choose|k: int| 0 <= k < front.len() && front[k] == s.last();
                    assert(s[k] == s[s.len() - 1]);
                }
            }
            if i < kept.len() {
                assert(kept.contains(kept[i]));
            }
            if j < kept.len() {
                assert(kept.contains(kept[j]));
            }
        }
    }
}

/// A split with linkage cuts exactly the clips of the link group that the tick lies
/// strictly inside of, each once and at that tick, and the new tails form one group when
/// there are several; when it lies inside of none it is ignored. In particular the clip
/// that is named is cut when the tick lies inside of it.
pub proof fn law_split_cuts_the_group(p: Project, text: Seq<char>, t: int, c: int, tick: int)
    requires
        ids_unique(p),
        has_clip(p, t, c),
        raw_id(text) == Some(p.lanes@[t].clips@[c].id),
    ensures
        ({
            let x = p.lanes@[t].clips@[c];
            let r = split_of(p, text, tick, true);
            &&& x.start < tick < x.start + x.duration ==> r is Run && r->steps.contains(
                EditView::SplitClip { clip: x.id, at: tick },
            )
            &&& r is Ignored ==> r == PlannedView::Ignored(Ignored::OutsideClip)
            &&& forall|u: int, d: int|
                #![trigger clip_at(p, u, d)]
                has_clip(p, u, d) ==> {
                    let q = clip_at(p, u, d);
                    let linked = q.id == x.id || (x.link is Some && q.link == x.link);
                    (r is Run && r->steps.contains(EditView::SplitClip { clip: q.id, at: tick }))
                        == (linked && q.start < tick < q.start + q.duration)
                }
            &&& r is Run ==> {
                let n = r->steps.len() - (if r->steps.last() is LinkClips { 1int } else { 0 });
                &&& r->quiet == r->steps.len()
                &&& n >= 1
                &&& (n > 1) == (r->steps.last() is LinkClips)
                &&& forall|k: int|
                    #![trigger r->steps[k]]
                    0 <= k < n ==> r->steps[k] is SplitClip && r->steps[k]->SplitClip_at == tick
                        && exists|u: int, d: int|
                        has_clip(p, u, d) && (#[trigger] clip_at(p, u, d)).id
                            == r->steps[k]->SplitClip_clip
                &&& forall|k: int, j: int|
                    #![trigger r->steps[k], r->steps[j]]
                    0 <= k < j < n ==> r->steps[k] != r->steps[j]
                &&& n > 1 ==> r->steps.last()->LinkClips_clips.len() == n && forall|k: int|
                    0 <= k < n ==> #[trigger] r->steps.last()->LinkClips_clips[k] == ClipRef::Step(
                        k as usize,
                    )
            }
        }),
{
    law_clip_is_found(p, t, c);
    law_link_group(p, t, c);
    let x = clip_at(p, t, c);
    let group = link_group_of(p, x.id);
    let f = cuts(p, tick);
    let members = group.filter(f);
    lemma_filter_unique(group, f);
    lemma_filter_members(group, f);
    let r = split_of(p, text, tick, true);
    let n = members.len() as int;
    if n > 0 {
        let steps = split_steps(members, tick);
        assert forall|k: int| 0 <= k < n implies #[trigger] steps[k] == (EditView::SplitClip {
            clip: members[k],
            at: tick,
        }) by {}
        assert forall|k: int| 0 <= k < n implies exists|u: int, d: int|
            has_clip(p, u, d) && (#[trigger] clip_at(p, u, d)).id
                == (#[trigger] steps[k])->SplitClip_clip by {
            assert(members.contains(members[k]));
            assert(group.contains(members[k]));
        }
        assert forall|k: int, j: int|
            #![trigger steps[k], steps[j]]
            0 <= k < j < n implies steps[k] != steps[j] by {
            assert(members[k] != members[j]);
        }
    }
    assert forall|u: int, d: int|
        #![trigger clip_at(p, u, d)]
        has_clip(p, u, d) implies ({
        let q = clip_at(p, u, d);
        let linked = q.id == x.id || (x.link is Some && q.link == x.link);
        (r is Run && r->steps.contains(EditView::SplitClip { clip: q.id, at: tick })) == (linked
            && q.start < tick < q.start + q.duration)
    }) by {
        let q = clip_at(p, u, d);
        law_clip_is_found(p, u, d);
        let linked = q.id == x.id || (x.link is Some && q.link == x.link);
        assert(group.contains(q.id) == linked) by {
            if q.id == x.id {
                assert(clip_at(p, t, c).id == clip_at(p, u, d).id);
            }
        }
        assert(f(q.id) == (q.start < tick && tick < q.start + q.duration));
        let a = EditView::SplitClip { clip: q.id, at: tick };
        if linked && f(q.id) {
            assert(members.contains(q.id));
            let k = choose|k: int| 0 <= k < members.len() && members[k] == q.id;
            assert(split_steps(members, tick)[k] == a);
        }
        if r is Run && r->steps.contains(a) {
            let k = choose|k: int| 0 <= k < r->steps.len() && r->steps[k] == a;
            assert(k < n);
            assert(members[k] == q.id);
            assert(members.contains(q.id));
        }
    }
    assert(has_clip(p, t, c) && clip_at(p, t, c).id == x.id);
}

/// A split without linkage is one cut, of the clip that is named and at the tick.
pub proof fn law_split_alone(p: Project, text: Seq<char>, id: u64, tick: int)
    requires
        raw_id(text) == Some(id),
    ensures
        split_of(p, text, tick, false) is Run,
        split_of(p, text, tick, false)->steps == seq![EditView::SplitClip { clip: id, at: tick }],
        split_of(p, text, tick, false)->quiet == 1,
{
    assert(split_of(p, text, tick, false)->steps =~= seq![
        EditView::SplitClip { clip: id, at: tick },
    ]);
}

} // verus!
