//! What edits of several clips are for: laws that relate the planned steps to the clips
//! that were named.

use vstd::prelude::*;

use crate::batch::{by_start_desc, group_move, id_set, landing, lane_drops, law_id_set,
    law_parked_members_are_clear, law_removals_run_right_to_left, left_lanes, lemma_links_named,
    lemma_resolved_len, lemma_resolved_moves, link_named, links_named, parking, removal_of,
    removal_plan, removal_step, removals, resolved_move, resolved_moves, right_to_left, singletons,
    unlinked, GroupMove, Removal, ResolvedMove};
use crate::copy_laws::{all_name, is_bottom_video, is_named, lemma_bottom_video, names_some};
use crate::edit_laws::{clip_at, has_clip, ids_unique, law_clip_is_found, law_found_clip_is_there,
    law_link_members, law_main_lane_is_bottom_video, law_unknown_clip_is_not_found};
use crate::edits::{ClipRef, EditView, Ignored, LaneRef, PlannedView};
use crate::order::lemma_sort_members;
use crate::project::{lane_end, lane_wf, lanes_wf, lemma_lane_end_covers, lemma_timeline_end_covers,
    link_members, Project};
use crate::text::raw_id;

verus! {

// --- group moves ----------------------------------------------------------

/// The entry names the clip at a place, and some lane to go to.
pub open spec fn moves_clip(p: Project, m: GroupMove, t: int, c: int) -> bool {
    has_clip(p, t, c) && raw_id(m.clip@) == Some(p.lanes@[t].clips@[c].id) && raw_id(
        m.track@,
    ) is Some
}

/// The entry names a clip and a lane to go to.
pub open spec fn moves_some(p: Project, m: GroupMove) -> bool {
    exists|t: int, c: int| #[trigger] moves_clip(p, m, t, c)
}

/// Every entry names a clip and a lane to go to.
pub open spec fn all_move(p: Project, moves: Seq<GroupMove>) -> bool {
    forall|k: int| 0 <= k < moves.len() ==> moves_some(p, #[trigger] moves[k])
}

proof fn lemma_move_resolves(p: Project, m: GroupMove, t: int, c: int)
    requires
        ids_unique(p),
        moves_clip(p, m, t, c),
    ensures
        resolved_move(p, m) == Ok::<ResolvedMove, Ignored>(
            ResolvedMove {
                clip: p.lanes@[t].clips@[c].id,
                to: raw_id(m.track@)->0,
                from: p.lanes@[t].id,
                start: if m.start_tick < 0 { 0 } else { m.start_tick },
                duration: p.lanes@[t].clips@[c].duration,
            },
        ),
{
    law_clip_is_found(p, t, c);
}

proof fn lemma_moves_resolve(p: Project, moves: Seq<GroupMove>)
    requires
        ids_unique(p),
        all_move(p, moves),
    ensures
        resolved_moves(p, moves) is Ok,
    decreases moves.len(),
{
    if moves.len() > 0 {
        assert forall|k: int| 0 <= k < moves.drop_last().len() implies moves_some(
            p,
            #[trigger] moves.drop_last()[k],
        ) by {
            assert(moves.drop_last()[k] == moves[k]);
        }
        lemma_moves_resolve(p, moves.drop_last());
        assert(moves_some(p, moves[moves.len() - 1]));
        let (t, c) = choose|t: int, c: int| #[trigger] moves_clip(p, moves.last(), t, c);
        lemma_move_resolves(p, moves.last(), t, c);
    }
}

/// A group move takes every member to the lane and start that its entry asks for, from
/// tick 0 on, after it has taken all of them out of each other's way: on the lane it goes
/// to, behind the end of every clip of the project, and each behind the ones before it.
pub proof fn law_group_lands_where_asked(p: Project, moves: Seq<GroupMove>, i: int, t: int, c: int)
    requires
        ids_unique(p),
        lanes_wf(p.lanes@),
        all_move(p, moves),
        0 <= i < moves.len(),
        moves_clip(p, moves[i], t, c),
    ensures
        ({
            let r = group_move(p, moves);
            let x = p.lanes@[t].clips@[c];
            let n = moves.len() as int;
            let to = LaneRef::Id(raw_id(moves[i].track@)->0);
            &&& r is Run
            &&& r->quiet == 0
            &&& r->steps.len() > 2 * n
            &&& r->steps[n + i] == (EditView::MoveClip {
                clip: x.id,
                to,
                start: if moves[i].start_tick < 0 { 0 } else { moves[i].start_tick as int },
            })
            &&& r->steps[i] is MoveClip
            &&& r->steps[i]->MoveClip_clip == x.id
            &&& r->steps[i]->MoveClip_to == to
            &&& forall|u: int, d: int|
                #![trigger clip_at(p, u, d)]
                has_clip(p, u, d) ==> clip_at(p, u, d).start + clip_at(p, u, d).duration
                    <= r->steps[i]->MoveClip_start
            &&& forall|j: int|
                #![trigger r->steps[j]]
                i < j < n ==> r->steps[i]->MoveClip_start + x.duration
                    <= r->steps[j]->MoveClip_start
        }),
{
    lemma_moves_resolve(p, moves);
    lemma_resolved_len(p, moves);
    let done = resolved_moves(p, moves)->Ok_0;
    lemma_resolved_moves(p, moves, i);
    lemma_move_resolves(p, moves[i], t, c);
    let r = group_move(p, moves);
    let n = moves.len() as int;
    let parks = parking(p, done);
    let lands = landing(done);
    let drops = lane_drops(id_set(left_lanes(done)));
    assert(r->steps == parks + lands + drops);
    law_id_set(left_lanes(done));
    assert(left_lanes(done)[i] == done[i].from);
    assert(left_lanes(done).contains(done[i].from));
    assert(id_set(left_lanes(done)).contains(done[i].from));
    assert(r->steps[n + i] == lands[i]);
    assert(r->steps[i] == parks[i]);
    assert forall|k: int| 0 <= k < done.len() implies (#[trigger] done[k]).duration >= 0 by {
        lemma_resolved_moves(p, moves, k);
        let m = moves[k];
        assert(moves_some(p, m));
        let (u, d) = choose|u: int, d: int| #[trigger] moves_clip(p, m, u, d);
        lemma_move_resolves(p, m, u, d);
        assert(lane_wf(p.lanes@[u].clips@));
    }
    law_parked_members_are_clear(p, done, i, n);
    assert forall|u: int, d: int|
        #![trigger clip_at(p, u, d)]
        has_clip(p, u, d) implies clip_at(p, u, d).start + clip_at(p, u, d).duration
        <= r->steps[i]->MoveClip_start by {
        lemma_timeline_end_covers(p.lanes@);
        lemma_lane_end_covers(p.lanes@[u].clips@);
        assert(p.lanes@[u].clips@[d].end() <= lane_end(p.lanes@[u].clips@));
    }
    assert forall|j: int|
        #![trigger r->steps[j]]
        i < j < n implies r->steps[i]->MoveClip_start + p.lanes@[t].clips@[c].duration
        <= r->steps[j]->MoveClip_start by {
        assert(r->steps[j] == parks[j]);
        law_parked_members_are_clear(p, done, i, j);
    }
}

/// A step drops the lane at place `t` when it is empty.
pub open spec fn drops_lane(p: Project, e: EditView, t: int) -> bool {
    0 <= t < p.lanes@.len() && e == (EditView::DropLaneIfEmpty { lane: p.lanes@[t].id })
}

/// One of the entries names a clip of the lane at place `t`.
pub open spec fn leaves_lane(p: Project, moves: Seq<GroupMove>, t: int) -> bool {
    exists|k: int, c: int|
        0 <= k < moves.len() && #[trigger] moves_clip(p, #[trigger] moves[k], t, c)
}

/// One of the steps from `n` on drops the lane at place `t` when it is empty.
pub open spec fn drops_lane_from(p: Project, steps: Seq<EditView>, n: int, t: int) -> bool {
    exists|k: int| n <= k < steps.len() && drops_lane(p, #[trigger] steps[k], t)
}

/// After the landings a group move drops exactly the lanes that members came from, when
/// they are empty, and does nothing else.
pub proof fn law_group_drops_lanes_left(p: Project, moves: Seq<GroupMove>)
    requires
        ids_unique(p),
        all_move(p, moves),
        moves.len() > 0,
    ensures
        ({
            let steps = group_move(p, moves)->steps;
            &&& forall|t: int| #[trigger]
                drops_lane_from(p, steps, 2 * moves.len() as int, t) == leaves_lane(p, moves, t)
            &&& forall|k: int|
                2 * moves.len() <= k < steps.len() ==> (#[trigger] steps[k]) is DropLaneIfEmpty
        }),
{
    lemma_moves_resolve(p, moves);
    lemma_resolved_len(p, moves);
    let done = resolved_moves(p, moves)->Ok_0;
    let steps = group_move(p, moves)->steps;
    let n = moves.len() as int;
    let ids = id_set(left_lanes(done));
    let head = parking(p, done) + landing(done);
    assert(steps == head + lane_drops(ids));
    assert(head.len() == 2 * n);
    law_id_set(left_lanes(done));
    assert forall|t: int| #[trigger] drops_lane_from(p, steps, 2 * n, t) == leaves_lane(p, moves, t) by {
        if drops_lane_from(p, steps, 2 * n, t) {
            let k = choose|k: int|
                2 * n <= k < steps.len() && drops_lane(p, #[trigger] steps[k], t);
            assert(steps[k] == lane_drops(ids)[k - 2 * n]);
            assert(ids[k - 2 * n] == p.lanes@[t].id);
            assert(ids.contains(p.lanes@[t].id));
            let j = choose|j: int|
                0 <= j < left_lanes(done).len() && left_lanes(done)[j] == p.lanes@[t].id;
            lemma_resolved_moves(p, moves, j);
            assert(moves_some(p, moves[j]));
            let (u, d) = choose|u: int, d: int| #[trigger] moves_clip(p, moves[j], u, d);
            lemma_move_resolves(p, moves[j], u, d);
            assert(p.lanes@[u].id == p.lanes@[t].id);
            assert(u == t);
            assert(moves_clip(p, moves[j], t, d));
        }
        if leaves_lane(p, moves, t) {
            let (k, c) = choose|k: int, c: int|
                0 <= k < moves.len() && #[trigger] moves_clip(p, #[trigger] moves[k], t, c);
            lemma_resolved_moves(p, moves, k);
            lemma_move_resolves(p, moves[k], t, c);
            assert(left_lanes(done)[k] == p.lanes@[t].id);
            assert(ids.contains(p.lanes@[t].id));
            let j = choose|j: int| 0 <= j < ids.len() && ids[j] == p.lanes@[t].id;
            assert(steps[2 * n + j] == lane_drops(ids)[j]);
            assert(drops_lane(p, steps[2 * n + j], t));
        }
    }
    assert forall|k: int| 2 * n <= k < steps.len() implies (
    #[trigger] steps[k]) is DropLaneIfEmpty by {
        assert(steps[k] == lane_drops(ids)[k - 2 * n]);
    }
}

proof fn lemma_group_fails(p: Project, moves: Seq<GroupMove>, k: int)
    requires
        ids_unique(p),
        0 <= k < moves.len(),
        all_move(p, moves.take(k)),
        resolved_move(p, moves[k]) is Err,
    ensures
        resolved_moves(p, moves) is Err,
        resolved_moves(p, moves)->Err_0 == resolved_move(p, moves[k])->Err_0,
    decreases moves.len(),
{
    if k == moves.len() - 1 {
        assert(moves.take(k) =~= moves.drop_last());
        lemma_moves_resolve(p, moves.take(k));
    } else {
        assert(moves.drop_last().take(k) =~= moves.take(k));
        assert(moves.drop_last()[k] == moves[k]);
        lemma_group_fails(p, moves.drop_last(), k);
    }
}

/// One entry that is no good voids a group move: a text that is no id, or a clip that is
/// not on the timeline. Without entries there is nothing to do.
pub proof fn law_group_move_of_nothing(p: Project, moves: Seq<GroupMove>, k: int)
    requires
        ids_unique(p),
    ensures
        moves.len() == 0 ==> group_move(p, moves) == PlannedView::Ignored(Ignored::NothingToDo),
        0 <= k < moves.len() && all_move(p, moves.take(k)) ==> {
            &&& raw_id(moves[k].clip@) is None ==> group_move(p, moves) == PlannedView::Ignored(
                Ignored::BadClipId,
            )
            &&& raw_id(moves[k].clip@) is Some && raw_id(moves[k].track@) is None ==> group_move(
                p,
                moves,
            ) == PlannedView::Ignored(Ignored::BadLaneId)
            &&& raw_id(moves[k].clip@) is Some && raw_id(moves[k].track@) is Some && !names_some(
                moves[k].clip@,
                p,
            ) ==> group_move(p, moves) == PlannedView::Ignored(Ignored::ClipNotOnTimeline)
        },
{
    if 0 <= k < moves.len() && all_move(p, moves.take(k)) {
        if raw_id(moves[k].clip@) is Some && !names_some(moves[k].clip@, p) {
            let id = raw_id(moves[k].clip@)->0;
            assert forall|t: int, c: int| has_clip(p, t, c) implies (#[trigger] clip_at(p, t, c)).id
                != id by {}
            law_unknown_clip_is_not_found(p, id);
        }
        if resolved_move(p, moves[k]) is Err {
            lemma_group_fails(p, moves, k);
        }
    }
}

// --- removals -------------------------------------------------------------

/// The step that removes the clip at a place: one that closes the gap on the bottom video
/// lane while the magnet is on, else one that leaves it open.
pub open spec fn removes_clip(p: Project, e: EditView, t: int, c: int, main_magnet: bool) -> bool {
    has_clip(p, t, c) && e == if main_magnet && is_bottom_video(p, t) {
        EditView::RippleDelete { clip: p.lanes@[t].clips@[c].id }
    } else {
        EditView::RemoveClip { clip: p.lanes@[t].clips@[c].id }
    }
}

proof fn lemma_removal(p: Project, text: Seq<char>, t: int, c: int)
    requires
        ids_unique(p),
        has_clip(p, t, c),
        raw_id(text) == Some(p.lanes@[t].clips@[c].id),
    ensures
        removal_of(p, text) == Ok::<Removal, Ignored>(
            Removal {
                clip: p.lanes@[t].clips@[c].id,
                lane: p.lanes@[t].id,
                start: p.lanes@[t].clips@[c].start,
                on_main: is_bottom_video(p, t),
            },
        ),
{
    law_clip_is_found(p, t, c);
    law_main_lane_is_bottom_video(p);
    if is_bottom_video(p, t) {
        lemma_bottom_video(p, t);
    }
}

proof fn lemma_removals(p: Project, ids: Seq<Seq<char>>)
    requires
        ids_unique(p),
        all_name(ids, p),
    ensures
        removals(p, ids) is Ok,
        removals(p, ids)->Ok_0.len() == ids.len(),
        forall|k: int|
            #![trigger ids[k]]
            0 <= k < ids.len() ==> removal_of(p, ids[k]) == Ok::<Removal, Ignored>(
                removals(p, ids)->Ok_0[k],
            ),
    decreases ids.len(),
{
    if ids.len() > 0 {
        let init = ids.drop_last();
        assert forall|k: int| 0 <= k < init.len() implies names_some(#[trigger] init[k], p) by {
            assert(init[k] == ids[k]);
        }
        lemma_removals(p, init);
        let n = ids.len() - 1;
        assert(names_some(ids[n], p));
        let (t, c) = choose|t: int, c: int|
            has_clip(p, t, c) && raw_id(ids[n]) == Some((#[trigger] clip_at(p, t, c)).id);
        lemma_removal(p, ids[n], t, c);
        assert forall|k: int|
            #![trigger ids[k]]
            0 <= k < ids.len() implies removal_of(p, ids[k]) == Ok::<Removal, Ignored>(
            removals(p, ids)->Ok_0[k],
        ) by {
            if k < n {
                assert(init[k] == ids[k]);
            }
        }
    }
}

/// One of the first `n` steps removes the clip at a place.
pub open spec fn removes_among(
    p: Project,
    steps: Seq<EditView>,
    n: int,
    t: int,
    c: int,
    main_magnet: bool,
) -> bool {
    exists|k: int| 0 <= k < n && removes_clip(p, #[trigger] steps[k], t, c, main_magnet)
}

/// The step removes a named clip.
pub open spec fn removes_named(
    ids: Seq<Seq<char>>,
    p: Project,
    e: EditView,
    main_magnet: bool,
) -> bool {
    exists|t: int, c: int| #[trigger]
        is_named(ids, p, t, c) && removes_clip(p, e, t, c, main_magnet)
}

/// One of the ids names a clip of the lane at place `t`.
pub open spec fn names_on(ids: Seq<Seq<char>>, p: Project, t: int) -> bool {
    exists|c: int| #[trigger] is_named(ids, p, t, c)
}

/// What removal number `k` stands for.
proof fn lemma_ordered_removal(p: Project, ids: Seq<Seq<char>>, k: int) -> (at: (int, int))
    requires
        ids_unique(p),
        all_name(ids, p),
        0 <= k < ids.len(),
    ensures
        removals(p, ids) is Ok,
        right_to_left(removals(p, ids)->Ok_0).len() == ids.len(),
        is_named(ids, p, at.0, at.1),
        right_to_left(removals(p, ids)->Ok_0)[k] == (Removal {
            clip: p.lanes@[at.0].clips@[at.1].id,
            lane: p.lanes@[at.0].id,
            start: p.lanes@[at.0].clips@[at.1].start,
            on_main: is_bottom_video(p, at.0),
        }),
{
    lemma_removals(p, ids);
    let done = removals(p, ids)->Ok_0;
    let order = right_to_left(done);
    crate::order::lemma_stable_sort(done, by_start_desc());
    lemma_sort_members(done, by_start_desc());
    assert(order.contains(order[k]));
    assert(done.contains(order[k]));
    let j = choose|j: int| 0 <= j < done.len() && done[j] == order[k];
    assert(names_some(ids[j], p));
    let (t, c) = choose|t: int, c: int|
        has_clip(p, t, c) && raw_id(ids[j]) == Some((#[trigger] clip_at(p, t, c)).id);
    lemma_removal(p, ids[j], t, c);
    assert(raw_id(ids[j]) == Some(p.lanes@[t].clips@[c].id));
    (t, c)
}

/// Where a named clip's removal stands in the order.
proof fn lemma_removal_place(p: Project, ids: Seq<Seq<char>>, t: int, c: int) -> (k: int)
    requires
        ids_unique(p),
        all_name(ids, p),
        is_named(ids, p, t, c),
    ensures
        removals(p, ids) is Ok,
        0 <= k < ids.len(),
        right_to_left(removals(p, ids)->Ok_0).len() == ids.len(),
        right_to_left(removals(p, ids)->Ok_0)[k] == (Removal {
            clip: p.lanes@[t].clips@[c].id,
            lane: p.lanes@[t].id,
            start: p.lanes@[t].clips@[c].start,
            on_main: is_bottom_video(p, t),
        }),
{
    lemma_removals(p, ids);
    let done = removals(p, ids)->Ok_0;
    let order = right_to_left(done);
    crate::order::lemma_stable_sort(done, by_start_desc());
    lemma_sort_members(done, by_start_desc());
    let j = choose|j: int|
        0 <= j < ids.len() && raw_id(#[trigger] ids[j]) == Some(p.lanes@[t].clips@[c].id);
    lemma_removal(p, ids[j], t, c);
    assert(done.contains(done[j]));
    assert(order.contains(done[j]));
    choose|k: int| 0 <= k < order.len() && order[k] == done[j]
}

/// A removal removes exactly the named clips, later starts first, each with the step that
/// its lane calls for, and nothing else.
pub proof fn law_removal_removes_the_named(p: Project, ids: Seq<Seq<char>>, main_magnet: bool)
    requires
        ids_unique(p),
        all_name(ids, p),
        ids.len() > 0,
    ensures
        ({
            let r = removal_plan(p, ids, main_magnet);
            let n = ids.len() as int;
            &&& r is Run
            &&& r->quiet == 0
            &&& r->steps.len() >= n
            &&& forall|t: int, c: int| #[trigger]
                is_named(ids, p, t, c) ==> removes_among(p, r->steps, n, t, c, main_magnet)
            &&& forall|k: int|
                #![trigger r->steps[k]]
                0 <= k < n ==> removes_named(ids, p, r->steps[k], main_magnet)
            &&& forall|j: int, k: int, t: int, c: int, u: int, d: int|
                0 <= j < k < n && #[trigger] removes_clip(p, r->steps[j], t, c, main_magnet)
                    && #[trigger] removes_clip(p, r->steps[k], u, d, main_magnet)
                    ==> p.lanes@[t].clips@[c].start >= p.lanes@[u].clips@[d].start
        }),
{
    lemma_removals(p, ids);
    let r = removal_plan(p, ids, main_magnet);
    let n = ids.len() as int;
    let done = removals(p, ids)->Ok_0;
    let order = right_to_left(done);
    law_removals_run_right_to_left(done);
    crate::order::lemma_stable_sort(done, by_start_desc());
    let gone = order.map_values(|x: Removal| removal_step(x, main_magnet));
    let drops = lane_drops(id_set(order.map_values(|x: Removal| x.lane)));
    assert(r->steps == gone + drops);
    assert forall|t: int, c: int| #[trigger] is_named(ids, p, t, c) implies removes_among(
        p,
        r->steps,
        n,
        t,
        c,
        main_magnet,
    ) by {
        let k = lemma_removal_place(p, ids, t, c);
        assert(r->steps[k] == gone[k]);
        assert(removes_clip(p, r->steps[k], t, c, main_magnet));
    }
    assert forall|k: int|
        #![trigger r->steps[k]]
        0 <= k < n implies removes_named(ids, p, r->steps[k], main_magnet) by {
        let at = lemma_ordered_removal(p, ids, k);
        assert(r->steps[k] == gone[k]);
        assert(is_named(ids, p, at.0, at.1));
        assert(removes_clip(p, r->steps[k], at.0, at.1, main_magnet));
    }
    assert forall|j: int, k: int, t: int, c: int, u: int, d: int|
        0 <= j < k < n && #[trigger] removes_clip(p, r->steps[j], t, c, main_magnet)
            && #[trigger] removes_clip(
            p,
            r->steps[k],
            u,
            d,
            main_magnet,
        ) implies p.lanes@[t].clips@[c].start >= p.lanes@[u].clips@[d].start by {
        let a = lemma_ordered_removal(p, ids, j);
        let b = lemma_ordered_removal(p, ids, k);
        assert(r->steps[j] == gone[j]);
        assert(r->steps[k] == gone[k]);
        assert(clip_at(p, a.0, a.1).id == clip_at(p, t, c).id);
        assert(clip_at(p, b.0, b.1).id == clip_at(p, u, d).id);
        assert(order[j].start >= order[k].start);
    }
}

/// After the removals exactly the lanes of the named clips are dropped, when they are
/// empty.
pub proof fn law_removal_drops_emptied_lanes(p: Project, ids: Seq<Seq<char>>, main_magnet: bool)
    requires
        ids_unique(p),
        all_name(ids, p),
        ids.len() > 0,
    ensures
        ({
            let steps = removal_plan(p, ids, main_magnet)->steps;
            &&& forall|t: int| #[trigger]
                drops_lane_from(p, steps, ids.len() as int, t) == names_on(ids, p, t)
            &&& forall|k: int|
                ids.len() <= k < steps.len() ==> (#[trigger] steps[k]) is DropLaneIfEmpty
        }),
{
    lemma_removals(p, ids);
    let steps = removal_plan(p, ids, main_magnet)->steps;
    let n = ids.len() as int;
    let done = removals(p, ids)->Ok_0;
    let order = right_to_left(done);
    crate::order::lemma_stable_sort(done, by_start_desc());
    let gone = order.map_values(|x: Removal| removal_step(x, main_magnet));
    let of = order.map_values(|x: Removal| x.lane);
    let set = id_set(of);
    assert(steps == gone + lane_drops(set));
    law_id_set(of);
    assert forall|t: int| #[trigger] drops_lane_from(p, steps, n, t) == names_on(ids, p, t) by {
        if drops_lane_from(p, steps, n, t) {
            let k = choose|k: int| n <= k < steps.len() && drops_lane(p, #[trigger] steps[k], t);
            assert(steps[k] == lane_drops(set)[k - n]);
            assert(set[k - n] == p.lanes@[t].id);
            assert(set.contains(p.lanes@[t].id));
            let j = choose|j: int| 0 <= j < of.len() && of[j] == p.lanes@[t].id;
            let at = lemma_ordered_removal(p, ids, j);
            assert(p.lanes@[at.0].id == p.lanes@[t].id);
            assert(at.0 == t);
            assert(is_named(ids, p, t, at.1));
        }
        if names_on(ids, p, t) {
            let c = choose|c: int| #[trigger] is_named(ids, p, t, c);
            let k = lemma_removal_place(p, ids, t, c);
            assert(of[k] == p.lanes@[t].id);
            assert(set.contains(p.lanes@[t].id));
            let j = choose|j: int| 0 <= j < set.len() && set[j] == p.lanes@[t].id;
            assert(steps[n + j] == lane_drops(set)[j]);
            assert(drops_lane(p, steps[n + j], t));
        }
    }
    assert forall|k: int| n <= k < steps.len() implies (#[trigger] steps[k]) is DropLaneIfEmpty by {
        assert(steps[k] == lane_drops(set)[k - n]);
    }
}

proof fn lemma_removals_fail(p: Project, ids: Seq<Seq<char>>, k: int)
    requires
        ids_unique(p),
        0 <= k < ids.len(),
        all_name(ids.take(k), p),
        removal_of(p, ids[k]) is Err,
    ensures
        removals(p, ids) is Err,
        removals(p, ids)->Err_0 == removal_of(p, ids[k])->Err_0,
    decreases ids.len(),
{
    if k == ids.len() - 1 {
        assert(ids.take(k) =~= ids.drop_last());
        lemma_removals(p, ids.take(k));
    } else {
        assert(ids.drop_last().take(k) =~= ids.take(k));
        assert(ids.drop_last()[k] == ids[k]);
        lemma_removals_fail(p, ids.drop_last(), k);
    }
}

/// One id that names no clip voids a removal. Without ids there is nothing to do.
pub proof fn law_removal_of_nothing(p: Project, ids: Seq<Seq<char>>, k: int, main_magnet: bool)
    requires
        ids_unique(p),
    ensures
        ids.len() == 0 ==> removal_plan(p, ids, main_magnet) == PlannedView::Ignored(
            Ignored::NothingToDo,
        ),
        0 <= k < ids.len() && all_name(ids.take(k), p) ==> {
            &&& raw_id(ids[k]) is None ==> removal_plan(p, ids, main_magnet)
                == PlannedView::Ignored(Ignored::BadClipId)
            &&& raw_id(ids[k]) is Some && !names_some(ids[k], p) ==> removal_plan(
                p,
                ids,
                main_magnet,
            ) == PlannedView::Ignored(Ignored::ClipNotOnTimeline)
        },
{
    if 0 <= k < ids.len() && all_name(ids.take(k), p) {
        if raw_id(ids[k]) is Some && !names_some(ids[k], p) {
            let id = raw_id(ids[k])->0;
            assert forall|t: int, c: int| has_clip(p, t, c) implies (#[trigger] clip_at(p, t, c)).id
                != id by {}
            law_unknown_clip_is_not_found(p, id);
        }
        if removal_of(p, ids[k]) is Err {
            lemma_removals_fail(p, ids, k);
        }
    }
}

// --- unlinking ------------------------------------------------------------

/// A named clip carries the link.
pub open spec fn named_link(ids: Seq<Seq<char>>, p: Project, link: u64) -> bool {
    exists|t: int, c: int| #[trigger]
        is_named(ids, p, t, c) && p.lanes@[t].clips@[c].link == Some(link)
}

proof fn lemma_named_links(p: Project, ids: Seq<Seq<char>>)
    requires
        ids_unique(p),
    ensures
        forall|l: u64| #[trigger] links_named(p, ids).contains(l) ==> named_link(ids, p, l),
    decreases ids.len(),
{
    if ids.len() > 0 {
        let init = ids.drop_last();
        lemma_named_links(p, init);
        let before = links_named(p, init);
        assert forall|l: u64| #[trigger] links_named(p, ids).contains(l) implies named_link(
            ids,
            p,
            l,
        ) by {
            if before.contains(l) {
                let (t, c) = choose|t: int, c: int| #[trigger]
                    is_named(init, p, t, c) && p.lanes@[t].clips@[c].link == Some(l);
                let k = choose|k: int|
                    0 <= k < init.len() && raw_id(#[trigger] init[k]) == Some(
                        p.lanes@[t].clips@[c].id,
                    );
                assert(ids[k] == init[k]);
                assert(is_named(ids, p, t, c));
            } else {
                assert(link_named(p, ids.last()) == Some(l)) by {
                    let i = choose|i: int|
                        0 <= i < links_named(p, ids).len() && links_named(p, ids)[i] == l;
                    if i < before.len() {
                        assert(before[i] == l);
                    }
                }
                let id = raw_id(ids.last())->0;
                let at = law_found_clip_is_there(p, id);
                assert(ids[ids.len() - 1] == ids.last());
                assert(is_named(ids, p, at.0, at.1));
            }
        }
    }
}

/// Unlinking puts every clip that carries the link of a named clip into a group of its
/// own, named or not, each once, and touches no other clip. It is ignored exactly when no
/// named clip carries a link.
pub proof fn law_unlink_takes_whole_groups(p: Project, ids: Seq<Seq<char>>)
    requires
        ids_unique(p),
    ensures
        ({
            let r = unlinked(p, ids);
            &&& (forall|l: u64| !#[trigger] named_link(ids, p, l)) ==> r == PlannedView::Ignored(
                Ignored::NothingToDo,
            )
            &&& (exists|l: u64| #[trigger] named_link(ids, p, l)) ==> {
                &&& r is Run
                &&& r->quiet == 0
                &&& r->steps.no_duplicates()
                &&& forall|t: int, c: int|
                    #![trigger clip_at(p, t, c)]
                    has_clip(p, t, c) ==> r->steps.contains(
                        EditView::LinkClips { clips: seq![ClipRef::Id(clip_at(p, t, c).id)] },
                    ) == (clip_at(p, t, c).link matches Some(l) && named_link(ids, p, l))
                &&& forall|k: int|
                    #![trigger r->steps[k]]
                    0 <= k < r->steps.len() ==> exists|t: int, c: int|
                        has_clip(p, t, c) && r->steps[k] == (EditView::LinkClips {
                            clips: seq![ClipRef::Id((#[trigger] clip_at(p, t, c)).id)],
                        })
            }
        }),
{
    let r = unlinked(p, ids);
    let links = links_named(p, ids);
    lemma_named_links(p, ids);
    law_link_members(p, links);
    let members = link_members(p.lanes@, links);
    let steps = singletons(members);
    assert forall|l: u64| #[trigger] named_link(ids, p, l) implies links.contains(l) by {
        let (t, c) = choose|t: int, c: int| #[trigger]
            is_named(ids, p, t, c) && p.lanes@[t].clips@[c].link == Some(l);
        let k = choose|k: int|
            0 <= k < ids.len() && raw_id(#[trigger] ids[k]) == Some(p.lanes@[t].clips@[c].id);
        law_clip_is_found(p, t, c);
        lemma_links_named(p, ids, k);
    }
    if links.len() > 0 {
        assert(links.contains(links[0]));
    }
    if exists|l: u64| #[trigger] named_link(ids, p, l) {
        assert(r->steps == steps);
        assert forall|i: int, j: int| 0 <= i < j < steps.len() implies steps[i] != steps[j] by {
            assert(steps[i]->LinkClips_clips[0] == ClipRef::Id(members[i]));
            assert(steps[j]->LinkClips_clips[0] == ClipRef::Id(members[j]));
        }
        assert forall|t: int, c: int|
            #![trigger clip_at(p, t, c)]
            has_clip(p, t, c) implies r->steps.contains(
            EditView::LinkClips { clips: seq![ClipRef::Id(clip_at(p, t, c).id)] },
        ) == (clip_at(p, t, c).link matches Some(l) && named_link(ids, p, l)) by {
            let id = clip_at(p, t, c).id;
            let e = EditView::LinkClips { clips: seq![ClipRef::Id(id)] };
            if members.contains(id) {
                let i = choose|i: int| 0 <= i < members.len() && members[i] == id;
                assert(steps[i] == e);
            }
            if steps.contains(e) {
                let i = choose|i: int| 0 <= i < steps.len() && steps[i] == e;
                assert(steps[i]->LinkClips_clips[0] == ClipRef::Id(members[i]));
                assert(e->LinkClips_clips[0] == ClipRef::Id(id));
                assert(members.contains(id));
            }
        }
        assert forall|k: int|
            #![trigger r->steps[k]]
            0 <= k < r->steps.len() implies exists|t: int, c: int|
            has_clip(p, t, c) && r->steps[k] == (EditView::LinkClips {
                clips: seq![ClipRef::Id((#[trigger] clip_at(p, t, c)).id)],
            }) by {
            assert(members.contains(members[k]));
            let (t, c) = choose|t: int, c: int|
                has_clip(p, t, c) && (#[trigger] clip_at(p, t, c)).id == members[k];
            assert(r->steps[k] == EditView::LinkClips {
                clips: seq![ClipRef::Id(clip_at(p, t, c).id)],
            });
        }
    }
}

} // verus!
