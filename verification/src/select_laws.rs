//! What selecting is for: laws over the clips of the shown timeline, told by their places
//! in it.

use vstd::prelude::*;

use crate::find::{lemma_filter_members, lemma_first_where};
use crate::gesture_laws::{ends_at, is_shown, shown_at, starts_at};
use crate::model::Track;
use crate::order::{lemma_sort_members, lemma_stable_sort, total_preorder};
use crate::selection::{all_placed, by_place, chosen, clip_ids, first_in_place, group_ids, has_id,
    in_link, in_place_order, law_first_in_place, link_of, linked, marquee_clips, marquee_hits,
    placed, pruned, still_primary, surviving, toggled, without, PlacedClip};

verus! {

// --- every clip -----------------------------------------------------------

/// `x` is the clip at place `c` of the lane at row `t`, with what its lane says.
pub open spec fn is_placed(x: PlacedClip, tracks: Seq<Track>, t: int, c: int) -> bool {
    &&& is_shown(tracks, t, c)
    &&& x.row == t
    &&& x.track_id == tracks[t].id
    &&& x.kind == tracks[t].kind
    &&& x.locked == tracks[t].locked
    &&& x.color == tracks[t].color
    &&& x.clip_id == tracks[t].clips@[c].id
    &&& x.link_id == tracks[t].clips@[c].link_id
    &&& x.start == tracks[t].clips@[c].timeline_start.value
    &&& x.duration == tracks[t].clips@[c].source_range.duration.value
}

/// The list holds the clip at a place.
pub open spec fn holds_place(list: Seq<PlacedClip>, tracks: Seq<Track>, t: int, c: int) -> bool {
    exists|k: int| 0 <= k < list.len() && is_placed(#[trigger] list[k], tracks, t, c)
}

/// `x` is the clip at some place.
pub open spec fn has_place(x: PlacedClip, tracks: Seq<Track>) -> bool {
    exists|t: int, c: int| #[trigger] is_placed(x, tracks, t, c)
}

/// The gathered clips are the clips of every lane, with their rows counted from the top.
pub proof fn law_every_clip_is_placed(tracks: Seq<Track>)
    requires
        tracks.len() <= usize::MAX,
    ensures
        forall|t: int, c: int| #[trigger]
            is_shown(tracks, t, c) ==> holds_place(all_placed(tracks), tracks, t, c),
        forall|k: int|
            0 <= k < all_placed(tracks).len() ==> has_place(
                #[trigger] all_placed(tracks)[k],
                tracks,
            ),
    decreases tracks.len(),
{
    if tracks.len() > 0 {
        let init = tracks.drop_last();
        law_every_clip_is_placed(init);
        let n = tracks.len() - 1;
        let before = all_placed(init);
        let now = all_placed(tracks);
        let lane = tracks[n];
        assert forall|t: int, c: int| #[trigger] is_shown(tracks, t, c) implies holds_place(
            now,
            tracks,
            t,
            c,
        ) by {
            if t < n {
                assert(init[t] == tracks[t]);
                assert(is_shown(init, t, c));
                let k = choose|k: int|
                    0 <= k < before.len() && is_placed(#[trigger] before[k], init, t, c);
                assert(now[k] == before[k]);
                assert(is_placed(now[k], tracks, t, c));
            } else {
                let k = before.len() + c;
                assert(now[k] == placed(lane, n, lane.clips@[c]));
                assert(is_placed(now[k], tracks, t, c));
            }
        }
        assert forall|k: int| 0 <= k < now.len() implies has_place(#[trigger] now[k], tracks) by {
            if k < before.len() {
                assert(now[k] == before[k]);
                assert(has_place(before[k], init));
                let (t, c) = choose|t: int, c: int| #[trigger] is_placed(before[k], init, t, c);
                assert(init[t] == tracks[t]);
                assert(is_placed(now[k], tracks, t, c));
            } else {
                let c = k - before.len();
                assert(now[k] == placed(lane, n, lane.clips@[c]));
                assert(is_placed(now[k], tracks, n, c));
            }
        }
    }
}

// --- link groups ----------------------------------------------------------

/// No two clips of the timeline have the same id.
pub open spec fn shown_unique(tracks: Seq<Track>) -> bool {
    forall|t: int, c: int, u: int, d: int|
        #![trigger shown_at(tracks, t, c), shown_at(tracks, u, d)]
        is_shown(tracks, t, c) && is_shown(tracks, u, d) && shown_at(tracks, t, c).id@ == shown_at(
            tracks,
            u,
            d,
        ).id@ ==> t == u && c == d
}

proof fn lemma_link_of(tracks: Seq<Track>, t: int, c: int)
    requires
        tracks.len() <= usize::MAX,
        shown_unique(tracks),
        is_shown(tracks, t, c),
    ensures
        link_of(all_placed(tracks), tracks[t].clips@[c].id@) == tracks[t].clips@[c].link_id@,
{
    let clips = all_placed(tracks);
    let id = tracks[t].clips@[c].id@;
    law_every_clip_is_placed(tracks);
    assert(holds_place(clips, tracks, t, c));
    let k = choose|k: int| 0 <= k < clips.len() && is_placed(#[trigger] clips[k], tracks, t, c);
    let f = has_id(id);
    lemma_first_where(clips, f);
    assert(f(clips[k]));
    let i = crate::find::first_where(clips, f)->0;
    assert(f(clips[i]));
    assert(has_place(clips[i], tracks));
    let (u, d) = choose|u: int, d: int| #[trigger] is_placed(clips[i], tracks, u, d);
    assert(shown_at(tracks, u, d).id@ == shown_at(tracks, t, c).id@);
}

/// While linkage is on a clip stands for every clip that carries its link, itself among
/// them, and for no other; without a link, or while linkage is off, for itself alone.
pub proof fn law_group_is_the_whole_link(tracks: Seq<Track>, t: int, c: int, link_enabled: bool)
    requires
        tracks.len() <= usize::MAX,
        shown_unique(tracks),
        is_shown(tracks, t, c),
    ensures
        ({
            let x = tracks[t].clips@[c];
            let group = group_ids(all_placed(tracks), x.id@, link_enabled);
            &&& !link_enabled || x.link_id@.len() == 0 ==> group == seq![x.id@]
            &&& link_enabled && x.link_id@.len() > 0 ==> {
                &&& forall|u: int, d: int|
                    #![trigger shown_at(tracks, u, d)]
                    is_shown(tracks, u, d) ==> group.contains(shown_at(tracks, u, d).id@) == (
                    shown_at(tracks, u, d).link_id@ == x.link_id@)
                &&& forall|id: Seq<char>| #[trigger]
                    group.contains(id) ==> exists|u: int, d: int|
                        is_shown(tracks, u, d) && (#[trigger] shown_at(tracks, u, d)).id@ == id
            }
        }),
{
    let x = tracks[t].clips@[c];
    let clips = all_placed(tracks);
    lemma_link_of(tracks, t, c);
    law_every_clip_is_placed(tracks);
    if link_enabled && x.link_id@.len() > 0 {
        let link = x.link_id@;
        let f = in_link(link);
        let some = linked(clips, link);
        lemma_filter_members(clips, f);
        lemma_sort_members(some, by_place());
        let order = in_place_order(some);
        let group = group_ids(clips, x.id@, link_enabled);
        assert(group == clip_ids(order));
        assert forall|id: Seq<char>| #[trigger] group.contains(id) implies exists|u: int, d: int|
            is_shown(tracks, u, d) && (#[trigger] shown_at(tracks, u, d)).id@ == id && shown_at(
                tracks,
                u,
                d,
            ).link_id@ == link by {
            let k = choose|k: int| 0 <= k < group.len() && group[k] == id;
            assert(order.contains(order[k]));
            assert(some.contains(order[k]));
            assert(clips.contains(order[k]));
            assert(f(order[k]));
            let i = choose|i: int| 0 <= i < clips.len() && clips[i] == order[k];
            assert(has_place(clips[i], tracks));
            let (u, d) = choose|u: int, d: int| #[trigger] is_placed(clips[i], tracks, u, d);
            assert(shown_at(tracks, u, d).id@ == id);
        }
        assert forall|u: int, d: int|
            #![trigger shown_at(tracks, u, d)]
            is_shown(tracks, u, d) implies group.contains(shown_at(tracks, u, d).id@) == (shown_at(
            tracks,
            u,
            d,
        ).link_id@ == link) by {
            if shown_at(tracks, u, d).link_id@ == link {
                assert(holds_place(clips, tracks, u, d));
                let k = choose|k: int|
                    0 <= k < clips.len() && is_placed(#[trigger] clips[k], tracks, u, d);
                assert(f(clips[k]));
                assert(clips.contains(clips[k]));
                assert(some.contains(clips[k]));
                assert(order.contains(clips[k]));
                let j = choose|j: int| 0 <= j < order.len() && order[j] == clips[k];
                assert(group[j] == shown_at(tracks, u, d).id@);
            }
            if group.contains(shown_at(tracks, u, d).id@) {
                let (v, e) = choose|v: int, e: int|
                    is_shown(tracks, v, e) && (#[trigger] shown_at(tracks, v, e)).id@ == shown_at(
                        tracks,
                        u,
                        d,
                    ).id@ && shown_at(tracks, v, e).link_id@ == link;
                assert(u == v && d == e);
            }
        }
    }
}

// --- gestures -------------------------------------------------------------

/// A shift-click on a selected clip takes its group out of the selection, and one on a
/// clip that is not selected puts its group in; the other ids stay as they are. The
/// clicked clip becomes the anchor when it comes in, and when it leaves the anchor is the
/// first of the clips that stay.
pub proof fn law_toggle_flips_the_group(
    clips: Seq<PlacedClip>,
    current: Seq<Seq<char>>,
    track: Seq<char>,
    clip: Seq<char>,
    link_enabled: bool,
)
    ensures
        ({
            let r = toggled(clips, current, track, clip, link_enabled);
            let group = group_ids(clips, clip, link_enabled);
            &&& forall|id: Seq<char>| #[trigger]
                r.ids.contains(id) == (if group.contains(id) {
                    !current.contains(clip)
                } else {
                    current.contains(id)
                })
            &&& !current.contains(clip) ==> r.track == track && r.clip == clip
            &&& current.contains(clip) ==> is_anchor(clips, r.ids, r.track, r.clip)
        }),
{
    let r = toggled(clips, current, track, clip, link_enabled);
    let group = group_ids(clips, clip, link_enabled);
    let f = |id: Seq<char>| !group.contains(id);
    let kept = without(current, group);
    lemma_filter_members(current, f);
    assert(kept == current.filter(f));
    assert forall|id: Seq<char>| #[trigger] r.ids.contains(id) == (if group.contains(id) {
        !current.contains(clip)
    } else {
        current.contains(id)
    }) by {
        if !current.contains(clip) {
            let all = kept + group;
            assert(r.ids == all);
            if group.contains(id) {
                let k = choose|k: int| 0 <= k < group.len() && group[k] == id;
                assert(all[kept.len() + k] == id);
            } else if current.contains(id) {
                assert(kept.contains(id));
                let k = choose|k: int| 0 <= k < kept.len() && kept[k] == id;
                assert(all[k] == id);
            } else if all.contains(id) {
                let k = choose|k: int| 0 <= k < all.len() && all[k] == id;
                if k < kept.len() {
                    assert(kept[k] == id);
                    assert(kept.contains(id));
                } else {
                    assert(group[k - kept.len()] == id);
                }
            }
        }
    }
    if current.contains(clip) {
        lemma_anchor(clips, r.ids);
    }
}

/// One clip comes before another: it is higher up, or in the same row and no later.
pub open spec fn no_later(a: PlacedClip, b: PlacedClip) -> bool {
    a.row < b.row || (a.row == b.row && a.start <= b.start)
}

/// The clip is one of those that the ids name, and comes before all the others.
pub open spec fn leads(x: PlacedClip, clips: Seq<PlacedClip>, ids: Seq<Seq<char>>) -> bool {
    &&& clips.contains(x)
    &&& ids.contains(x.clip_id@)
    &&& forall|k: int|
        0 <= k < clips.len() && ids.contains(clips[k].clip_id@) ==> no_later(x, #[trigger] clips[k])
}

/// The anchor of a selection is its first clip from the top and from the left; there is
/// none when the ids name no clip.
pub open spec fn is_anchor(
    clips: Seq<PlacedClip>,
    ids: Seq<Seq<char>>,
    track: Seq<char>,
    clip: Seq<char>,
) -> bool {
    if exists|k: int| 0 <= k < clips.len() && ids.contains((#[trigger] clips[k]).clip_id@) {
        exists|x: PlacedClip| #[trigger]
            leads(x, clips, ids) && track == x.track_id@ && clip == x.clip_id@
    } else {
        track.len() == 0 && clip.len() == 0
    }
}

proof fn lemma_anchor(clips: Seq<PlacedClip>, ids: Seq<Seq<char>>)
    ensures
        ({
            let (track, clip) = crate::selection::anchored(first_in_place(chosen(clips, ids)));
            is_anchor(clips, ids, track, clip)
        }),
{
    let f = |c: PlacedClip| ids.contains(c.clip_id@);
    let some = chosen(clips, ids);
    assert(some == clips.filter(f));
    lemma_filter_members(clips, f);
    if some.len() > 0 {
        law_first_in_place(some);
        let x = first_in_place(some)->0;
        assert(clips.contains(x) && f(x));
        assert forall|k: int| 0 <= k < clips.len() && ids.contains(clips[k].clip_id@) implies
            no_later(x, #[trigger] clips[k]) by {
            assert(clips.contains(clips[k]));
            assert(f(clips[k]));
            assert(some.contains(clips[k]));
        }
        assert(leads(x, clips, ids));
        let j = choose|j: int| 0 <= j < clips.len() && clips[j] == x;
        assert(ids.contains(clips[j].clip_id@));
    } else {
        assert forall|k: int| 0 <= k < clips.len() implies !ids.contains(
            (#[trigger] clips[k]).clip_id@,
        ) by {
            assert(clips.contains(clips[k]));
            if f(clips[k]) {
                assert(some.contains(clips[k]));
            }
        }
    }
}

/// A marquee touches exactly the clips on unlocked lanes of its rows that share a tick
/// with it, higher rows first and earlier starts first.
pub proof fn law_marquee_touches_what_it_meets(
    tracks: Seq<Track>,
    tick0: int,
    tick1: int,
    row_lo: int,
    row_hi: int,
)
    requires
        tracks.len() <= usize::MAX,
        forall|t: int, c: int|
            is_shown(tracks, t, c) ==> i32::MIN <= #[trigger] ends_at(tracks, t, c) <= i32::MAX,
    ensures
        ({
            let hit = marquee_clips(all_placed(tracks), tick0, tick1, row_lo, row_hi);
            &&& forall|t: int, c: int| #[trigger]
                is_shown(tracks, t, c) && !tracks[t].locked && row_lo <= t < row_hi && starts_at(
                    tracks,
                    t,
                    c,
                ) < tick1 && tick0 < ends_at(tracks, t, c) ==> holds_place(hit, tracks, t, c)
            &&& forall|k: int, t: int, c: int|
                0 <= k < hit.len() && #[trigger] is_placed(hit[k], tracks, t, c)
                    ==> !tracks[t].locked && row_lo <= t < row_hi && starts_at(tracks, t, c) < tick1
                    && tick0 < ends_at(tracks, t, c)
            &&& forall|k: int| 0 <= k < hit.len() ==> has_place(#[trigger] hit[k], tracks)
            &&& forall|j: int, k: int|
                #![trigger hit[j], hit[k]]
                0 <= j < k < hit.len() ==> no_later(hit[j], hit[k])
        }),
{
    let clips = all_placed(tracks);
    let f = |c: PlacedClip| marquee_hits(c, tick0, tick1, row_lo, row_hi);
    let some = clips.filter(f);
    let hit = marquee_clips(clips, tick0, tick1, row_lo, row_hi);
    law_every_clip_is_placed(tracks);
    lemma_filter_members(clips, f);
    lemma_sort_members(some, by_place());
    lemma_stable_sort(some, by_place());
    assert(hit == in_place_order(some));
    assert(total_preorder(by_place()));
    assert forall|t: int, c: int| #[trigger]
        is_shown(tracks, t, c) && !tracks[t].locked && row_lo <= t < row_hi && starts_at(
            tracks,
            t,
            c,
        ) < tick1 && tick0 < ends_at(tracks, t, c) implies holds_place(hit, tracks, t, c) by {
        assert(holds_place(clips, tracks, t, c));
        let k = choose|k: int| 0 <= k < clips.len() && is_placed(#[trigger] clips[k], tracks, t, c);
        assert(i32::MIN <= ends_at(tracks, t, c) <= i32::MAX);
        assert(f(clips[k]));
        assert(clips.contains(clips[k]));
        assert(some.contains(clips[k]));
        assert(hit.contains(clips[k]));
        let j = choose|j: int| 0 <= j < hit.len() && hit[j] == clips[k];
        assert(is_placed(hit[j], tracks, t, c));
    }
    assert forall|k: int| 0 <= k < hit.len() implies has_place(#[trigger] hit[k], tracks) && f(
        hit[k],
    ) by {
        assert(hit.contains(hit[k]));
        assert(some.contains(hit[k]));
        assert(clips.contains(hit[k]));
        let i = choose|i: int| 0 <= i < clips.len() && clips[i] == hit[k];
        assert(has_place(clips[i], tracks));
    }
    assert forall|k: int, t: int, c: int|
        0 <= k < hit.len() && #[trigger] is_placed(hit[k], tracks, t, c) implies !tracks[t].locked
        && row_lo <= t < row_hi && starts_at(tracks, t, c) < tick1 && tick0 < ends_at(
        tracks,
        t,
        c,
    ) by {
        assert(has_place(hit[k], tracks) && f(hit[k]));
        assert(i32::MIN <= ends_at(tracks, t, c) <= i32::MAX);
    }
    assert forall|j: int, k: int|
        #![trigger hit[j], hit[k]]
        0 <= j < k < hit.len() implies no_later(hit[j], hit[k]) by {
        assert(by_place()(hit[j], hit[k]));
    }
}

// --- upkeep ---------------------------------------------------------------

/// Some clip has the id.
pub open spec fn is_there(clips: Seq<PlacedClip>, id: Seq<char>) -> bool {
    exists|k: int| 0 <= k < clips.len() && (#[trigger] clips[k]).clip_id@ == id
}

/// A pruned selection keeps exactly the ids that still name a clip. Its anchor stays on
/// its clip when that clip is still selected, and else goes to the first clip of what is
/// left.
pub proof fn law_prune_keeps_what_is_there(
    clips: Seq<PlacedClip>,
    ids: Seq<Seq<char>>,
    primary: Seq<char>,
)
    ensures
        ({
            let r = pruned(clips, ids, primary);
            &&& forall|id: Seq<char>| #[trigger]
                r.ids.contains(id) == (ids.contains(id) && is_there(clips, id))
            &&& r.ids.contains(primary) ==> r.clip == primary
            &&& !r.ids.contains(primary) ==> is_anchor(clips, r.ids, r.track, r.clip)
        }),
{
    let r = pruned(clips, ids, primary);
    let f = |id: Seq<char>| clip_ids(clips).contains(id);
    let kept = surviving(clips, ids);
    assert(kept == ids.filter(f));
    lemma_filter_members(ids, f);
    assert forall|id: Seq<char>| #[trigger] r.ids.contains(id) == (ids.contains(id) && is_there(
        clips,
        id,
    )) by {
        if clip_ids(clips).contains(id) {
            let k = choose|k: int|
                0 <= k < clip_ids(clips).len() && clip_ids(clips)[k] == id;
            assert(clips[k].clip_id@ == id);
        }
        if is_there(clips, id) {
            let k = choose|k: int| 0 <= k < clips.len() && (#[trigger] clips[k]).clip_id@ == id;
            assert(clip_ids(clips)[k] == id);
        }
    }
    let g = still_primary(primary, kept);
    lemma_first_where(clips, g);
    if r.ids.contains(primary) {
        let k = choose|k: int| 0 <= k < clips.len() && (#[trigger] clips[k]).clip_id@ == primary;
        assert(g(clips[k]));
        let i = crate::find::first_where(clips, g)->0;
        assert(g(clips[i]));
    } else {
        match crate::find::first_where(clips, g) {
            Some(i) => {
                assert(g(clips[i]));
            },
            None => {},
        }
        lemma_anchor(clips, kept);
    }
}

} // verus!
