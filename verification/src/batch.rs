//! Edits of several clips at once: group moves, removals, splits and unlinking,
//! each one history group. A stale id voids the whole batch.

use vstd::prelude::*;

use crate::edit_laws::{law_found_clip_is_there, lemma_place_in_all};
use crate::edits::{apart, edit_views, no_steps, push_step, shift_slot, ClipRef, Edit, EditView,
    Ignored, LaneRef, Plan, Planned, PlannedView, Slot};
use crate::find::{first_where, lemma_filter_members, lemma_filter_take, lemma_first_where};
use crate::num::max_int;
use crate::order::{key_leq, lemma_sort_map, lemma_stable_sort, positions, sort_positions,
    stable_sort, total_preorder, upto};
use crate::project::{all_clips, clip_is, content_end_of_all, has_link, ids_of, lane_end, lane_holds,
    lane_wf, lanes_wf, lemma_lane_end_covers, lemma_timeline_end_covers, link_group_ids,
    link_group_of, link_members, linked_to, members_of_links, timeline_end, Project, ProjectClip};
use crate::text::{parse_raw_id, raw_id, texts};

verus! {

// --- sets of ids ----------------------------------------------------------

/// `x` put into an ascending list of ids, once.
pub open spec fn insert_id(s: Seq<u64>, x: u64) -> Seq<u64>
    decreases s.len(),
{
    if s.len() == 0 || s.last() < x {
        s.push(x)
    } else if s.last() == x {
        s
    } else {
        insert_id(s.drop_last(), x).push(s.last())
    }
}

/// The ids in ascending order, each once.
pub open spec fn id_set(ids: Seq<u64>) -> Seq<u64>
    decreases ids.len(),
{
    if ids.len() == 0 {
        Seq::empty()
    } else {
        insert_id(id_set(ids.drop_last()), ids.last())
    }
}

/// Strictly ascending.
pub open spec fn strictly_ascending(s: Seq<u64>) -> bool {
    forall|i: int, j: int| 0 <= i < j < s.len() ==> s[i] < s[j]
}

proof fn lemma_insert_id(s: Seq<u64>, x: u64)
    requires
        strictly_ascending(s),
    ensures
        strictly_ascending(insert_id(s, x)),
        forall|y: u64| #[trigger] insert_id(s, x).contains(y) == (s.contains(y) || y == x),
    decreases s.len(),
{
    let r = insert_id(s, x);
    if s.len() == 0 || s.last() < x {
        assert(r[s.len() as int] == x);
        assert forall|y: u64| #[trigger] r.contains(y) == (s.contains(y) || y == x) by {
            if s.contains(y) {
                let i = choose|i: int| 0 <= i < s.len() && s[i] == y;
                assert(r[i] == y);
            }
        }
    } else if s.last() == x {
        assert(s[s.len() - 1] == x);
    } else {
        let front = s.drop_last();
        lemma_insert_id(front, x);
        let f = insert_id(front, x);
        assert forall|y: u64| #[trigger] r.contains(y) == (s.contains(y) || y == x) by {
            assert(f.contains(y) == (front.contains(y) || y == x));
            assert(r[f.len() as int] == s.last());
            if f.contains(y) {
                let i = choose|i: int| 0 <= i < f.len() && f[i] == y;
                assert(r[i] == y);
            }
            if r.contains(y) {
                let i = choose|i: int| 0 <= i < r.len() && r[i] == y;
                if i < f.len() {
                    assert(f[i] == y);
                }
            }
            if s.contains(y) {
                let i = choose|i: int| 0 <= i < s.len() && s[i] == y;
                if i < front.len() {
                    assert(front[i] == y);
                }
            }
            if front.contains(y) {
                let i = choose|i: int| 0 <= i < front.len() && front[i] == y;
                assert(s[i] == y);
            }
            assert(s[s.len() - 1] == s.last());
        }
        assert forall|i: int, j: int| 0 <= i < j < r.len() implies r[i] < r[j] by {
            if j == f.len() {
                assert(f.contains(f[i]));
                if f[i] != x {
                    assert(front.contains(f[i]));
                    let k = choose|k: int| 0 <= k < front.len() && front[k] == f[i];
                    assert(s[k] < s[s.len() - 1]);
                }
            }
        }
    }
}

/// The set holds each of the ids, nothing else, each once, in ascending order.
pub proof fn law_id_set(ids: Seq<u64>)
    ensures
        strictly_ascending(id_set(ids)),
        forall|y: u64| #[trigger] id_set(ids).contains(y) == ids.contains(y),
    decreases ids.len(),
{
    if ids.len() > 0 {
        let front = ids.drop_last();
        law_id_set(front);
        lemma_insert_id(id_set(front), ids.last());
        assert forall|y: u64| #[trigger] id_set(ids).contains(y) == ids.contains(y) by {
            assert(id_set(front).contains(y) == front.contains(y));
            if ids.contains(y) {
                let i = choose|i: int| 0 <= i < ids.len() && ids[i] == y;
                if i < front.len() {
                    assert(front[i] == y);
                }
            }
            if front.contains(y) {
                let i = choose|i: int| 0 <= i < front.len() && front[i] == y;
                assert(ids[i] == y);
            }
            assert(ids[ids.len() - 1] == ids.last());
        }
    }
}

fn add_id(set: &mut Vec<u64>, x: u64)
    ensures
        final(set)@ == insert_id(old(set)@, x),
{
    let ghost whole = set@;
    let mut at: usize = set.len();
    proof {
        assert(whole.take(at as int) =~= whole);
        assert(whole.skip(at as int) =~= Seq::<u64>::empty());
        assert(insert_id(whole, x) =~= insert_id(whole.take(at as int), x) + whole.skip(at as int));
    }
    while at > 0 && set[at - 1] > x
        invariant
            at <= set.len(),
            set@ == whole,
            insert_id(whole, x) == insert_id(whole.take(at as int), x) + whole.skip(at as int),
        decreases at,
    {
        proof {
            let a = at as int;
            let head = whole.take(a);
            assert(head.drop_last() =~= whole.take(a - 1));
            assert(head.last() == whole[a - 1]);
            assert(whole.skip(a - 1) =~= seq![whole[a - 1]] + whole.skip(a));
            let ins = insert_id(whole.take(a - 1), x);
            assert(ins.push(whole[a - 1]) + whole.skip(a) =~= ins + whole.skip(a - 1));
        }
        at -= 1;
    }
    proof {
        let head = whole.take(at as int);
        if at > 0 {
            assert(head.last() == whole[at - 1]);
        }
    }
    if at > 0 && set[at - 1] == x {
        assert(insert_id(whole, x) =~= whole);
        return;
    }
    set.insert(at, x);
    assert(set@ =~= whole.take(at as int).push(x) + whole.skip(at as int));
}

/// Append a step that drops each lane of the set when it is empty.
fn push_lane_drops(steps: &mut Vec<Edit>, lanes: &Vec<u64>)
    ensures
        edit_views(final(steps)@) == edit_views(old(steps)@) + lane_drops(lanes@),
{
    let ghost was = edit_views(steps@);
    let mut i: usize = 0;
    assert(was =~= was + lane_drops(lanes@).take(0));
    while i < lanes.len()
        invariant
            i <= lanes.len(),
            edit_views(steps@) == was + lane_drops(lanes@).take(i as int),
        decreases lanes.len() - i,
    {
        push_step(steps, Edit::DropLaneIfEmpty { lane: lanes[i] });
        assert(edit_views(steps@) =~= was + lane_drops(lanes@).take(i as int + 1));
        i += 1;
    }
    assert(lane_drops(lanes@).take(i as int) =~= lane_drops(lanes@));
}

/// A step for each lane that drops it when it is empty.
pub open spec fn lane_drops(lanes: Seq<u64>) -> Seq<EditView> {
    lanes.map_values(|lane: u64| EditView::DropLaneIfEmpty { lane })
}

// --- group moves ----------------------------------------------------------

/// One entry of a group-drag batch.
#[derive(Debug)]
pub struct GroupMove {
    pub clip: String,
    pub track: String,
    pub start_tick: i64,
}

/// A resolved entry: the clip, where it goes, where it comes from and how long
/// it is.
#[derive(Clone, Copy, Debug, PartialEq, Eq, Structural)]
pub struct ResolvedMove {
    pub clip: u64,
    pub to: u64,
    pub from: u64,
    pub start: i64,
    pub duration: i64,
}

/// Resolve one entry.
pub open spec fn resolved_move(p: Project, m: GroupMove) -> Result<ResolvedMove, Ignored> {
    match raw_id(m.clip@) {
        None => Err(Ignored::BadClipId),
        Some(clip) => match raw_id(m.track@) {
            None => Err(Ignored::BadLaneId),
            Some(to) => match p.lane_of_clip(clip) {
                None => Err(Ignored::ClipNotOnTimeline),
                Some(t) => Ok(
                    ResolvedMove {
                        clip,
                        to,
                        from: p.lanes@[t].id,
                        start: max_int(m.start_tick as int, 0) as i64,
                        duration: p.clip_with(clip)->0.duration,
                    },
                ),
            },
        },
    }
}

/// Resolve every entry; the first that fails voids the batch.
pub open spec fn resolved_moves(p: Project, moves: Seq<GroupMove>) -> Result<
    Seq<ResolvedMove>,
    Ignored,
>
    decreases moves.len(),
{
    if moves.len() == 0 {
        Ok(Seq::empty())
    } else {
        match resolved_moves(p, moves.drop_last()) {
            Err(why) => Err(why),
            Ok(done) => match resolved_move(p, moves.last()) {
                Err(why) => Err(why),
                Ok(m) => Ok(done.push(m)),
            },
        }
    }
}

/// Where member `n` parks: past all content, and past the members before it.
pub open spec fn park_at(p: Project, moves: Seq<ResolvedMove>, n: int) -> int
    decreases n,
{
    if n <= 0 {
        timeline_end(p.lanes@)
    } else {
        park_at(p, moves, n - 1) + moves[n - 1].duration
    }
}

/// The parking steps.
pub open spec fn parking(p: Project, moves: Seq<ResolvedMove>) -> Seq<EditView> {
    Seq::new(
        moves.len(),
        |i: int|
            EditView::MoveClip {
                clip: moves[i].clip,
                to: LaneRef::Id(moves[i].to),
                start: park_at(p, moves, i),
            },
    )
}

/// The landing steps.
pub open spec fn landing(moves: Seq<ResolvedMove>) -> Seq<EditView> {
    moves.map_values(
        |m: ResolvedMove|
            EditView::MoveClip { clip: m.clip, to: LaneRef::Id(m.to), start: m.start as int },
    )
}

/// The lanes that members leave.
pub open spec fn left_lanes(moves: Seq<ResolvedMove>) -> Seq<u64> {
    moves.map_values(|m: ResolvedMove| m.from)
}

/// What a group move comes to: every member parks, then every member lands, then
/// the emptied source lanes go.
pub open spec fn group_move(p: Project, moves: Seq<GroupMove>) -> PlannedView {
    match resolved_moves(p, moves) {
        Err(why) => PlannedView::Ignored(why),
        Ok(done) => if done.len() == 0 {
            PlannedView::Ignored(Ignored::NothingToDo)
        } else {
            PlannedView::Run {
                steps: parking(p, done) + landing(done) + lane_drops(id_set(left_lanes(done))),
                quiet: 0,
            }
        },
    }
}

fn resolve_move(project: &Project, m: &GroupMove) -> (r: Result<ResolvedMove, Ignored>)
    requires
        lanes_wf(project.lanes@),
    ensures
        r == resolved_move(*project, *m),
        r matches Ok(done) ==> done.duration >= 1,
{
    let clip: u64 = match parse_raw_id(m.clip.as_str()) {
        Some(id) => id,
        None => {
            return Err(Ignored::BadClipId);
        },
    };
    let to: u64 = match parse_raw_id(m.track.as_str()) {
        Some(id) => id,
        None => {
            return Err(Ignored::BadLaneId);
        },
    };
    match project.find_clip(clip) {
        None => Err(Ignored::ClipNotOnTimeline),
        Some((t, c)) => {
            assert(lane_wf(project.lanes@[t as int].clips@));
            assert(project.lanes@[t as int].clips@[c as int].duration >= 1);
            Ok(
                ResolvedMove {
                    clip,
                    to,
                    from: project.lanes[t].id,
                    start: if m.start_tick < 0 {
                        0
                    } else {
                        m.start_tick
                    },
                    duration: project.lanes[t].clips[c].duration,
                },
            )
        },
    }
}

proof fn lemma_resolved_prefix(p: Project, moves: Seq<GroupMove>, n: int)
    requires
        0 <= n <= moves.len(),
        resolved_moves(p, moves.take(n)) is Err,
    ensures
        resolved_moves(p, moves) == resolved_moves(p, moves.take(n)),
    decreases moves.len() - n,
{
    if n == moves.len() {
        assert(moves.take(n) =~= moves);
    } else {
        assert(moves.take(n + 1).drop_last() =~= moves.take(n));
        lemma_resolved_prefix(p, moves, n + 1);
    }
}

/// Plan landing a group-drag batch. Members can collide with each other's old
/// places, so every member first parks past all content on its target lane, then
/// lands.
pub fn move_group(project: &Project, moves: &Vec<GroupMove>) -> (r: Planned)
    requires
        lanes_wf(project.lanes@),
        resolved_moves(*project, moves@) matches Ok(done) ==> forall|i: int|
            0 <= i <= done.len() ==> #[trigger] park_at(*project, done, i) <= i64::MAX,
    ensures
        r@ == group_move(*project, moves@),
{
    let mut done: Vec<ResolvedMove> = Vec::new();
    let mut i: usize = 0;
    while i < moves.len()
        invariant
            i <= moves.len(),
            done.len() == i,
            lanes_wf(project.lanes@),
            forall|j: int| 0 <= j < done.len() ==> (#[trigger] done@[j]).duration >= 1,
            resolved_moves(*project, moves@.take(i as int)) == Ok::<Seq<ResolvedMove>, Ignored>(
                done@,
            ),
        decreases moves.len() - i,
    {
        assert(moves@.take(i as int + 1).drop_last() =~= moves@.take(i as int));
        match resolve_move(project, &moves[i]) {
            Ok(m) => {
                done.push(m);
            },
            Err(why) => {
                proof {
                    lemma_resolved_prefix(*project, moves@, i as int + 1);
                }
                return Planned::Ignored(why);
            },
        }
        i += 1;
    }
    assert(moves@.take(i as int) =~= moves@);
    if done.len() == 0 {
        return Planned::Ignored(Ignored::NothingToDo);
    }
    let ghost parks = parking(*project, done@);
    let ghost lands = landing(done@);
    let mut steps = no_steps();
    let mut park: i64 = content_end_of_all(&project.lanes);
    proof {
        lemma_timeline_end_covers(project.lanes@);
    }
    let mut lanes: Vec<u64> = Vec::new();
    let mut k: usize = 0;
    assert(edit_views(steps@) =~= parks.take(0));
    while k < done.len()
        invariant
            k <= done.len(),
            parks == parking(*project, done@),
            park == park_at(*project, done@, k as int),
            forall|j: int|
                0 <= j <= done.len() ==> #[trigger] park_at(*project, done@, j) <= i64::MAX,
            forall|j: int| 0 <= j < done.len() ==> (#[trigger] done@[j]).duration >= 1,
            park >= 0,
            edit_views(steps@) == parks.take(k as int),
            lanes@ == id_set(left_lanes(done@).take(k as int)),
        decreases done.len() - k,
    {
        let m = done[k];
        proof {
            assert(park_at(*project, done@, k as int + 1) <= i64::MAX);
            assert(done@[k as int].duration >= 1);
            let upper = left_lanes(done@).take(k as int + 1);
            assert(upper.drop_last() =~= left_lanes(done@).take(k as int));
            assert(upper.last() == m.from);
        }
        push_step(&mut steps, Edit::MoveClip { clip: m.clip, to: LaneRef::Id(m.to), start: park });
        assert(edit_views(steps@) =~= parks.take(k as int + 1));
        add_id(&mut lanes, m.from);
        park = park + m.duration;
        k += 1;
    }
    assert(parks.take(k as int) =~= parks);
    assert(left_lanes(done@).take(k as int) =~= left_lanes(done@));
    let mut l: usize = 0;
    assert(edit_views(steps@) =~= parks + lands.take(0));
    while l < done.len()
        invariant
            l <= done.len(),
            lands == landing(done@),
            edit_views(steps@) == parks + lands.take(l as int),
        decreases done.len() - l,
    {
        let m = done[l];
        push_step(
            &mut steps,
            Edit::MoveClip { clip: m.clip, to: LaneRef::Id(m.to), start: m.start },
        );
        assert(edit_views(steps@) =~= parks + lands.take(l as int + 1));
        l += 1;
    }
    assert(lands.take(l as int) =~= lands);
    push_lane_drops(&mut steps, &lanes);
    Planned::Run(Plan { steps, quiet: 0 })
}

/// Parked members stand behind all content and clear of each other.
pub proof fn law_parked_members_are_clear(p: Project, moves: Seq<ResolvedMove>, i: int, j: int)
    requires
        lanes_wf(p.lanes@),
        0 <= i < j <= moves.len(),
        forall|k: int| 0 <= k < moves.len() ==> (#[trigger] moves[k]).duration >= 0,
    ensures
        timeline_end(p.lanes@) <= park_at(p, moves, i),
        park_at(p, moves, i) + moves[i].duration <= park_at(p, moves, j),
    decreases j,
{
    if i > 0 {
        law_parked_members_are_clear(p, moves, i - 1, i);
        assert(moves[i - 1].duration >= 0);
    }
    if j > i + 1 {
        law_parked_members_are_clear(p, moves, i, j - 1);
        assert(moves[j - 1].duration >= 0);
    }
}

/// A clip's place: its lane and extent.
pub struct Place {
    pub lane: u64,
    pub start: int,
    pub duration: int,
}

/// Two places share a tick of a lane.
pub open spec fn collide(a: Place, b: Place) -> bool {
    a.lane == b.lane && a.start < b.start + b.duration && b.start < a.start + a.duration
}

/// Where a clip of the project stands.
pub open spec fn place_of(p: Project, t: int, c: int) -> Place {
    Place {
        lane: p.lanes@[t].id,
        start: p.lanes@[t].clips@[c].start as int,
        duration: p.lanes@[t].clips@[c].duration as int,
    }
}

/// Where a member lands.
pub open spec fn target_of(m: ResolvedMove) -> Place {
    Place { lane: m.to, start: m.start as int, duration: m.duration as int }
}

/// Where a member parks.
pub open spec fn parking_of(p: Project, moves: Seq<ResolvedMove>, i: int) -> Place {
    Place { lane: moves[i].to, start: park_at(p, moves, i), duration: moves[i].duration as int }
}

/// Where a member stands after the first `parked` members parked and the first
/// `landed` of them landed.
pub open spec fn member_place(
    p: Project,
    moves: Seq<ResolvedMove>,
    i: int,
    parked: int,
    landed: int,
) -> Place {
    if i < landed {
        target_of(moves[i])
    } else if i < parked {
        parking_of(p, moves, i)
    } else {
        Place {
            lane: moves[i].from,
            start: p.clip_with(moves[i].clip)->0.start as int,
            duration: moves[i].duration as int,
        }
    }
}

/// A state between two steps of a group move: parking goes first.
pub open spec fn on_the_way(n: int, parked: int, landed: int) -> bool {
    0 <= landed <= parked <= n && (landed > 0 ==> parked == n)
}

/// No lane id occurs twice.
pub open spec fn lane_ids_distinct(p: Project) -> bool {
    forall|t: int, u: int|
        0 <= t < u < p.lanes.len() ==> (#[trigger] p.lanes@[t]).id != (#[trigger] p.lanes@[u]).id
}

/// The members are different clips.
pub open spec fn members_distinct(moves: Seq<ResolvedMove>) -> bool {
    forall|i: int, j: int|
        0 <= i < j < moves.len() ==> (#[trigger] moves[i]).clip != (#[trigger] moves[j]).clip
}

/// The landings keep clear of each other, and of the members that still park.
pub open spec fn landings_clear(p: Project, moves: Seq<ResolvedMove>) -> bool {
    forall|i: int, j: int|
        #![trigger moves[i], moves[j]]
        0 <= i < j < moves.len() ==> !collide(target_of(moves[i]), target_of(moves[j])) && !collide(
            target_of(moves[i]),
            parking_of(p, moves, j),
        )
}

/// Resolved entries say where their clips are.
pub proof fn lemma_resolved_moves(p: Project, moves: Seq<GroupMove>, i: int)
    requires
        resolved_moves(p, moves) is Ok,
        0 <= i < resolved_moves(p, moves)->Ok_0.len(),
    ensures
        resolved_moves(p, moves)->Ok_0.len() == moves.len(),
        resolved_move(p, moves[i]) == Ok::<ResolvedMove, Ignored>(resolved_moves(p, moves)->Ok_0[i]),
    decreases moves.len(),
{
    if moves.len() > 0 {
        let front = moves.drop_last();
        let done = resolved_moves(p, front)->Ok_0;
        if done.len() > 0 {
            let k = if i < done.len() {
                i
            } else {
                0
            };
            lemma_resolved_moves(p, front, k);
            assert(front[k] == moves[k]);
        } else if front.len() > 0 {
            lemma_resolved_len(p, front);
        }
    }
}

pub proof fn lemma_resolved_len(p: Project, moves: Seq<GroupMove>)
    requires
        resolved_moves(p, moves) is Ok,
    ensures
        resolved_moves(p, moves)->Ok_0.len() == moves.len(),
    decreases moves.len(),
{
    if moves.len() > 0 {
        lemma_resolved_len(p, moves.drop_last());
    }
}

/// A clip that is found stands on its lane, at the place that its id leads to.
proof fn lemma_clip_stands(p: Project, clip: u64) -> (at: (int, int))
    requires
        p.lane_of_clip(clip) is Some,
    ensures
        0 <= at.0 < p.lanes.len(),
        0 <= at.1 < p.lanes@[at.0].clips.len(),
        p.lane_of_clip(clip) == Some(at.0),
        p.clip_with(clip) == Some(p.lanes@[at.0].clips@[at.1]),
        p.lanes@[at.0].clips@[at.1].id == clip,
{
    let t = p.lane_of_clip(clip)->0;
    lemma_first_where(p.lanes@, lane_holds(clip));
    assert(lane_holds(clip)(p.lanes@[t]));
    let c = first_where(p.lanes@[t].clips@, clip_is(clip))->0;
    lemma_first_where(p.lanes@[t].clips@, clip_is(clip));
    assert(clip_is(clip)(p.lanes@[t].clips@[c]));
    (t, c)
}

/// Clips of one lane keep clear of each other, and none reaches behind the
/// timeline's end.
proof fn lemma_places(p: Project, t: int, c: int, u: int, d: int)
    requires
        lanes_wf(p.lanes@),
        lane_ids_distinct(p),
        0 <= t < p.lanes.len(),
        0 <= c < p.lanes@[t].clips.len(),
        0 <= u < p.lanes.len(),
        0 <= d < p.lanes@[u].clips.len(),
        t != u || c != d,
    ensures
        !collide(place_of(p, t, c), place_of(p, u, d)),
{
    assert(lane_wf(p.lanes@[t].clips@));
    if t == u {
        if c < d {
            assert(p.lanes@[t].clips@[c].end() <= p.lanes@[t].clips@[d].start);
        } else {
            assert(p.lanes@[t].clips@[d].end() <= p.lanes@[t].clips@[c].start);
        }
    } else if t < u {
        assert(p.lanes@[t].id != p.lanes@[u].id);
    } else {
        assert(p.lanes@[u].id != p.lanes@[t].id);
    }
}

proof fn lemma_place_before_end(p: Project, t: int, c: int)
    requires
        lanes_wf(p.lanes@),
        0 <= t < p.lanes.len(),
        0 <= c < p.lanes@[t].clips.len(),
    ensures
        place_of(p, t, c).start + place_of(p, t, c).duration <= timeline_end(p.lanes@),
        place_of(p, t, c).duration >= 1,
{
    lemma_timeline_end_covers(p.lanes@);
    assert(lane_wf(p.lanes@[t].clips@));
    lemma_lane_end_covers(p.lanes@[t].clips@);
    assert(lane_end(p.lanes@[t].clips@) <= timeline_end(p.lanes@));
    assert(p.lanes@[t].clips@[c].end() <= lane_end(p.lanes@[t].clips@));
}

proof fn lemma_member_starts(p: Project, moves: Seq<GroupMove>, i: int) -> (at: (int, int))
    requires
        lanes_wf(p.lanes@),
        resolved_moves(p, moves) is Ok,
        0 <= i < moves.len(),
    ensures
        0 <= at.0 < p.lanes.len(),
        0 <= at.1 < p.lanes@[at.0].clips.len(),
        p.lanes@[at.0].clips@[at.1].id == resolved_moves(p, moves)->Ok_0[i].clip,
        member_place(p, resolved_moves(p, moves)->Ok_0, i, i, 0) == place_of(p, at.0, at.1),
        resolved_moves(p, moves)->Ok_0[i].duration >= 1,
        resolved_moves(p, moves)->Ok_0.len() == moves.len(),
{
    lemma_resolved_len(p, moves);
    lemma_resolved_moves(p, moves, i);
    let m = resolved_moves(p, moves)->Ok_0[i];
    let at = lemma_clip_stands(p, m.clip);
    lemma_place_before_end(p, at.0, at.1);
    at
}

/// On the way no two members of a group move collide, whatever their old places
/// were, provided that their landings keep clear of each other and of the members
/// that still park.
pub proof fn law_group_members_never_collide(
    p: Project,
    moves: Seq<GroupMove>,
    i: int,
    j: int,
    parked: int,
    landed: int,
)
    requires
        lanes_wf(p.lanes@),
        lane_ids_distinct(p),
        resolved_moves(p, moves) is Ok,
        members_distinct(resolved_moves(p, moves)->Ok_0),
        landings_clear(p, resolved_moves(p, moves)->Ok_0),
        0 <= i < j < moves.len(),
        on_the_way(moves.len() as int, parked, landed),
    ensures
        !collide(
            member_place(p, resolved_moves(p, moves)->Ok_0, i, parked, landed),
            member_place(p, resolved_moves(p, moves)->Ok_0, j, parked, landed),
        ),
{
    let done = resolved_moves(p, moves)->Ok_0;
    let a = lemma_member_starts(p, moves, i);
    let b = lemma_member_starts(p, moves, j);
    assert(done[i].clip != done[j].clip);
    assert forall|k: int| 0 <= k < done.len() implies (#[trigger] done[k]).duration >= 0 by {
        let _ = lemma_member_starts(p, moves, k);
    }
    lemma_places(p, a.0, a.1, b.0, b.1);
    lemma_place_before_end(p, b.0, b.1);
    law_parked_members_are_clear(p, done, i, j);
    assert(!collide(target_of(done[i]), target_of(done[j])));
}

/// On the way no member of a group move collides with a clip that stays, provided
/// that no landing does.
pub proof fn law_group_move_spares_bystanders(
    p: Project,
    moves: Seq<GroupMove>,
    i: int,
    t: int,
    c: int,
    parked: int,
    landed: int,
)
    requires
        lanes_wf(p.lanes@),
        lane_ids_distinct(p),
        resolved_moves(p, moves) is Ok,
        0 <= i < moves.len(),
        0 <= t < p.lanes.len(),
        0 <= c < p.lanes@[t].clips.len(),
        p.lanes@[t].clips@[c].id != resolved_moves(p, moves)->Ok_0[i].clip,
        !collide(target_of(resolved_moves(p, moves)->Ok_0[i]), place_of(p, t, c)),
        on_the_way(moves.len() as int, parked, landed),
    ensures
        !collide(
            member_place(p, resolved_moves(p, moves)->Ok_0, i, parked, landed),
            place_of(p, t, c),
        ),
{
    let done = resolved_moves(p, moves)->Ok_0;
    let a = lemma_member_starts(p, moves, i);
    assert forall|k: int| 0 <= k < done.len() implies (#[trigger] done[k]).duration >= 0 by {
        let _ = lemma_member_starts(p, moves, k);
    }
    lemma_places(p, a.0, a.1, t, c);
    lemma_place_before_end(p, t, c);
    law_parked_members_are_clear(p, done, i, i + 1);
}

// --- removals -------------------------------------------------------------

/// A clip to remove.
#[derive(Clone, Copy, Debug, PartialEq, Eq, Structural)]
pub struct Removal {
    pub clip: u64,
    pub lane: u64,
    pub start: i64,
    pub on_main: bool,
}

/// Resolve one id.
pub open spec fn removal_of(p: Project, raw: Seq<char>) -> Result<Removal, Ignored> {
    match raw_id(raw) {
        None => Err(Ignored::BadClipId),
        Some(clip) => match p.lane_of_clip(clip) {
            None => Err(Ignored::ClipNotOnTimeline),
            Some(t) => Ok(
                Removal {
                    clip,
                    lane: p.lanes@[t].id,
                    start: p.clip_with(clip)->0.start,
                    on_main: p.main_lane() == Some(t),
                },
            ),
        },
    }
}

/// Resolve every id; the first that fails voids the batch.
pub open spec fn removals(p: Project, ids: Seq<Seq<char>>) -> Result<Seq<Removal>, Ignored>
    decreases ids.len(),
{
    if ids.len() == 0 {
        Ok(Seq::empty())
    } else {
        match removals(p, ids.drop_last()) {
            Err(why) => Err(why),
            Ok(done) => match removal_of(p, ids.last()) {
                Err(why) => Err(why),
                Ok(x) => Ok(done.push(x)),
            },
        }
    }
}

/// Later starts first.
pub open spec fn by_start_desc() -> spec_fn(Removal, Removal) -> bool {
    |a: Removal, b: Removal| a.start >= b.start
}

/// From right to left: a removal that closes its gap only moves clips that start
/// later, so the places of the ones still to come stay valid.
pub open spec fn right_to_left(targets: Seq<Removal>) -> Seq<Removal> {
    stable_sort(targets, by_start_desc())
}

/// The step that removes one clip: on the main lane the magnet closes its gap.
pub open spec fn removal_step(x: Removal, main_magnet: bool) -> EditView {
    if main_magnet && x.on_main {
        EditView::RippleDelete { clip: x.clip }
    } else {
        EditView::RemoveClip { clip: x.clip }
    }
}

/// What a removal comes to.
pub open spec fn removal_plan(p: Project, ids: Seq<Seq<char>>, main_magnet: bool) -> PlannedView {
    match removals(p, ids) {
        Err(why) => PlannedView::Ignored(why),
        Ok(targets) => if targets.len() == 0 {
            PlannedView::Ignored(Ignored::NothingToDo)
        } else {
            let order = right_to_left(targets);
            PlannedView::Run {
                steps: order.map_values(|x: Removal| removal_step(x, main_magnet)) + lane_drops(
                    id_set(order.map_values(|x: Removal| x.lane)),
                ),
                quiet: 0,
            }
        },
    }
}

proof fn lemma_removals_prefix(p: Project, ids: Seq<Seq<char>>, n: int)
    requires
        0 <= n <= ids.len(),
        removals(p, ids.take(n)) is Err,
    ensures
        removals(p, ids) == removals(p, ids.take(n)),
    decreases ids.len() - n,
{
    if n == ids.len() {
        assert(ids.take(n) =~= ids);
    } else {
        assert(ids.take(n + 1).drop_last() =~= ids.take(n));
        lemma_removals_prefix(p, ids, n + 1);
    }
}

fn sort_right_to_left(targets: &Vec<Removal>) -> (r: Vec<Removal>)
    requires
        forall|i: int| 0 <= i < targets.len() ==> 0 <= (#[trigger] targets@[i]).start,
    ensures
        r@ == right_to_left(targets@),
{
    let mut keys: Vec<(i64, i64)> = Vec::new();
    let mut i: usize = 0;
    while i < targets.len()
        invariant
            i <= targets.len(),
            forall|j: int| 0 <= j < targets.len() ==> 0 <= (#[trigger] targets@[j]).start,
            keys.len() == i,
            forall|j: int|
                0 <= j < i ==> (#[trigger] keys@[j]).0 == -targets@[j].start && keys@[j].1 == 0,
        decreases targets.len() - i,
    {
        assert(0 <= targets@[i as int].start);
        keys.push((-targets[i].start, 0));
        i += 1;
    }
    let order = sort_positions(&keys);
    let ghost f = |p: int| targets@[p];
    proof {
        let all = upto(targets@.len());
        assert forall|x: int, y: int| all.contains(x) && all.contains(y) implies #[trigger] key_leq(
            keys@,
        )(x, y) == by_start_desc()(f(x), f(y)) by {}
        lemma_sort_map(all, f, key_leq(keys@), by_start_desc());
        assert(all.map_values(f) =~= targets@);
    }
    let mut out: Vec<Removal> = Vec::new();
    let mut k: usize = 0;
    while k < order.len()
        invariant
            k <= order.len(),
            f == |p: int| targets@[p],
            forall|j: int| 0 <= j < order.len() ==> (#[trigger] order@[j]) < targets.len(),
            out@ == positions(order@).map_values(f).take(k as int),
        decreases order.len() - k,
    {
        out.push(targets[order[k]]);
        assert(out@ =~= positions(order@).map_values(f).take(k as int + 1));
        k += 1;
    }
    assert(positions(order@).map_values(f).take(k as int) =~= positions(order@).map_values(f));
    out
}

/// Plan removing every clip of `clips`, from right to left; lanes that empty go
/// too. With the magnet on, removals on the main lane close their gaps.
pub fn remove_clips(project: &Project, clips: &Vec<String>, main_magnet: bool) -> (r: Planned)
    requires
        lanes_wf(project.lanes@),
    ensures
        r@ == removal_plan(*project, texts(clips@), main_magnet),
{
    let ghost ids = texts(clips@);
    let main = project.main_video_track();
    let mut targets: Vec<Removal> = Vec::new();
    let mut i: usize = 0;
    while i < clips.len()
        invariant
            i <= clips.len(),
            ids == texts(clips@),
            lanes_wf(project.lanes@),
            main matches Some(m) ==> project.main_lane() == Some(m as int),
            main is None ==> project.main_lane() is None,
            targets.len() == i,
            forall|j: int| 0 <= j < targets.len() ==> 0 <= (#[trigger] targets@[j]).start,
            removals(*project, ids.take(i as int)) == Ok::<Seq<Removal>, Ignored>(targets@),
        decreases clips.len() - i,
    {
        proof {
            assert(ids.take(i as int + 1).drop_last() =~= ids.take(i as int));
            assert(ids.take(i as int + 1).last() == clips@[i as int]@);
        }
        let found: Result<Removal, Ignored> = match parse_raw_id(clips[i].as_str()) {
            None => Err(Ignored::BadClipId),
            Some(clip) => match project.find_clip(clip) {
                None => Err(Ignored::ClipNotOnTimeline),
                Some((t, c)) => {
                    assert(lane_wf(project.lanes@[t as int].clips@));
                    assert(0 <= project.lanes@[t as int].clips@[c as int].start);
                    Ok(
                        Removal {
                            clip,
                            lane: project.lanes[t].id,
                            start: project.lanes[t].clips[c].start,
                            on_main: match main {
                                Some(m) => m == t,
                                None => false,
                            },
                        },
                    )
                },
            },
        };
        match found {
            Ok(x) => {
                targets.push(x);
            },
            Err(why) => {
                proof {
                    lemma_removals_prefix(*project, ids, i as int + 1);
                }
                return Planned::Ignored(why);
            },
        }
        i += 1;
    }
    assert(ids.take(i as int) =~= ids);
    if targets.len() == 0 {
        return Planned::Ignored(Ignored::NothingToDo);
    }
    let order = sort_right_to_left(&targets);
    let ghost goal = order@.map_values(|x: Removal| removal_step(x, main_magnet));
    let ghost lanes_left = order@.map_values(|x: Removal| x.lane);
    let mut steps = no_steps();
    let mut lanes: Vec<u64> = Vec::new();
    let mut k: usize = 0;
    assert(edit_views(steps@) =~= goal.take(0));
    while k < order.len()
        invariant
            k <= order.len(),
            goal == order@.map_values(|x: Removal| removal_step(x, main_magnet)),
            lanes_left == order@.map_values(|x: Removal| x.lane),
            edit_views(steps@) == goal.take(k as int),
            lanes@ == id_set(lanes_left.take(k as int)),
        decreases order.len() - k,
    {
        let x = order[k];
        if main_magnet && x.on_main {
            push_step(&mut steps, Edit::RippleDelete { clip: x.clip });
        } else {
            push_step(&mut steps, Edit::RemoveClip { clip: x.clip });
        }
        proof {
            assert(edit_views(steps@) =~= goal.take(k as int + 1));
            let upper = lanes_left.take(k as int + 1);
            assert(upper.drop_last() =~= lanes_left.take(k as int));
            assert(upper.last() == x.lane);
        }
        add_id(&mut lanes, x.lane);
        k += 1;
    }
    proof {
        assert(goal.take(k as int) =~= goal);
        assert(lanes_left.take(k as int) =~= lanes_left);
    }
    push_lane_drops(&mut steps, &lanes);
    Planned::Run(Plan { steps, quiet: 0 })
}

/// Removals run from right to left and remove exactly the clips asked for.
pub proof fn law_removals_run_right_to_left(targets: Seq<Removal>)
    ensures
        forall|i: int, j: int|
            0 <= i < j < right_to_left(targets).len() ==> (#[trigger] right_to_left(
                targets,
            )[i]).start >= (#[trigger] right_to_left(targets)[j]).start,
        right_to_left(targets).to_multiset() == targets.to_multiset(),
{
    lemma_stable_sort(targets, by_start_desc());
    assert(total_preorder(by_start_desc()));
    let order = right_to_left(targets);
    assert forall|i: int, j: int| 0 <= i < j < order.len() implies (#[trigger] order[i]).start >= (
    #[trigger] order[j]).start by {
        assert(by_start_desc()(order[i], order[j]));
    }
}

/// Removing from right to left is safe: closing the gap of one clip leaves every clip
/// of the lane that does not start later where it is, so the removals that are still
/// to come find their clips where they were.
pub proof fn law_pending_removals_stay_put(lane: Seq<Slot>, a: int, b: int)
    requires
        apart(lane),
        0 <= a < lane.len(),
        0 <= b < lane.len(),
        a != b,
        lane[a].duration >= 1,
        lane[b].duration >= 1,
        lane[b].start <= lane[a].start,
    ensures
        shift_slot(lane[b], lane[a].start, -lane[a].duration) == lane[b],
{
}

// --- splits ---------------------------------------------------------------

/// `tick` lies strictly inside the clip with this id.
pub open spec fn cuts(p: Project, tick: int) -> spec_fn(u64) -> bool {
    |id: u64| p.clip_with(id) matches Some(c) && c.start < tick && tick < c.end()
}

/// The clips that a split cuts: the clip, or with linkage on those of its link
/// group that the tick lies strictly inside of.
pub open spec fn split_members(p: Project, clip: u64, tick: int, linkage: bool) -> Seq<u64> {
    if linkage {
        link_group_of(p, clip).filter(cuts(p, tick))
    } else {
        seq![clip]
    }
}

/// References to what the first `n` steps create.
pub open spec fn step_refs(n: nat) -> Seq<ClipRef> {
    Seq::new(n, |i: int| ClipRef::Step(i as usize))
}

/// The steps of a split: cut every member, then link the new tails when there are
/// several.
pub open spec fn split_steps(members: Seq<u64>, tick: int) -> Seq<EditView> {
    let cuts = members.map_values(|clip: u64| EditView::SplitClip { clip, at: tick });
    if members.len() > 1 {
        cuts.push(EditView::LinkClips { clips: step_refs(members.len()) })
    } else {
        cuts
    }
}

/// What splitting the clip that `text` names comes to.
pub open spec fn split_of(p: Project, text: Seq<char>, tick: int, linkage: bool) -> PlannedView {
    match raw_id(text) {
        None => PlannedView::Ignored(Ignored::BadClipId),
        Some(id) => {
            let members = split_members(p, id, tick, linkage);
            if members.len() == 0 {
                PlannedView::Ignored(Ignored::OutsideClip)
            } else {
                let steps = split_steps(members, tick);
                PlannedView::Run { steps, quiet: steps.len() as int }
            }
        },
    }
}

/// Which members of the link group a split cuts, by their starts and lengths.
proof fn lemma_split_by_extent(p: Project, text: Seq<char>, id: u64, tick: int)
    requires
        raw_id(text) == Some(id),
    ensures
        forall|m: u64| #[trigger]
            link_group_of(p, id).contains(m) ==> (split_of(p, text, tick, true) is Run && split_of(
                p,
                text,
                tick,
                true,
            )->steps.contains(EditView::SplitClip { clip: m, at: tick })) == (p.clip_with(m) matches Some(
                c,
            ) && c.start < tick < c.start + c.duration),
        p.clip_with(id) is Some ==> link_group_of(p, id).contains(id),
{
    let group = link_group_of(p, id);
    let f = cuts(p, tick);
    let members = group.filter(f);
    lemma_filter_members(group, f);
    let r = split_of(p, text, tick, true);
    let n = members.len() as int;
    assert forall|m: u64| #[trigger] group.contains(m) implies (r is Run && r->steps.contains(
        EditView::SplitClip { clip: m, at: tick },
    )) == (p.clip_with(m) matches Some(c) && c.start < tick < c.start + c.duration) by {
        let a = EditView::SplitClip { clip: m, at: tick };
        assert(f(m) == (p.clip_with(m) matches Some(c) && c.start < tick < c.start + c.duration));
        if f(m) {
            assert(members.contains(m));
            let k = choose|k: int| 0 <= k < members.len() && members[k] == m;
            assert(split_steps(members, tick)[k] == a);
        }
        if r is Run && r->steps.contains(a) {
            let k = choose|k: int| 0 <= k < r->steps.len() && r->steps[k] == a;
            assert(k < n);
            assert(members[k] == m);
            assert(members.contains(m));
        }
    }
    if p.clip_with(id) is Some {
        let at = law_found_clip_is_there(p, id);
        let x = p.lanes@[at.0].clips@[at.1];
        match x.link {
            Some(l) => {
                let i = lemma_place_in_all(p.lanes@, at.0, at.1);
                assert(all_clips(p.lanes@).contains(x));
                assert(seq![l][0] == l);
                lemma_filter_members(all_clips(p.lanes@), linked_to(seq![l]));
                let kept = all_clips(p.lanes@).filter(linked_to(seq![l]));
                assert(kept.contains(x));
                let k = choose|k: int| 0 <= k < kept.len() && kept[k] == x;
                assert(group[k] == id);
            },
            None => {
                assert(group[0] == id);
            },
        }
    }
}

/// Plan splitting a clip in two at `at_tick`. With linkage on every linked clip
/// that spans the tick is split there too, and the tails form a group of their
/// own. No failure changes the view.
pub fn split_clip(project: &Project, clip: &str, at_tick: i64, linkage: bool) -> (r: Planned)
    requires
        lanes_wf(project.lanes@),
    ensures
        r@ == split_of(*project, clip@, at_tick as int, linkage),
        raw_id(clip@) matches Some(id) ==> (linkage ==> (project.clip_with(id) matches Some(c)
            ==> c.start < at_tick < c.start + c.duration ==> (r@ is Run && r@->steps.contains(
            EditView::SplitClip { clip: id, at: at_tick as int },
        )))),
        raw_id(clip@) matches Some(id) ==> (linkage ==> forall|m: u64| #[trigger]
            link_group_of(*project, id).contains(m) ==> (r@ is Run && r@->steps.contains(
                EditView::SplitClip { clip: m, at: at_tick as int },
            )) == (project.clip_with(m) matches Some(c) && c.start < at_tick < c.start
                + c.duration)),
{
    let id: u64 = match parse_raw_id(clip) {
        Some(id) => id,
        None => {
            return Planned::Ignored(Ignored::BadClipId);
        },
    };
    proof {
        lemma_split_by_extent(*project, clip@, id, at_tick as int);
    }
    let mut members: Vec<u64> = Vec::new();
    if linkage {
        let group = link_group_ids(project, id);
        let ghost p = cuts(*project, at_tick as int);
        let mut i: usize = 0;
        proof {
            reveal(Seq::filter);
        }
        while i < group.len()
            invariant
                i <= group.len(),
                lanes_wf(project.lanes@),
                p == cuts(*project, at_tick as int),
                members@ == group@.take(i as int).filter(p),
            decreases group.len() - i,
        {
            proof {
                lemma_filter_take(group@, i as int, p);
            }
            let member: u64 = group[i];
            match project.find_clip(member) {
                Some((t, c)) => {
                    let x = &project.lanes[t].clips[c];
                    proof {
                        assert(lane_wf(project.lanes@[t as int].clips@));
                        assert(project.lanes@[t as int].clips@[c as int].end() <= i64::MAX);
                        assert(project.clip_with(member) == Some(*x));
                    }
                    if at_tick > x.start && at_tick < x.start + x.duration {
                        members.push(member);
                    }
                },
                None => {},
            }
            i += 1;
        }
        assert(group@.take(i as int) =~= group@);
    } else {
        members.push(id);
        assert(members@ =~= seq![id]);
    }
    if members.len() == 0 {
        return Planned::Ignored(Ignored::OutsideClip);
    }
    let ghost cut_all = members@.map_values(
        |clip: u64| EditView::SplitClip { clip, at: at_tick as int },
    );
    let mut steps = no_steps();
    let mut tails: Vec<ClipRef> = Vec::new();
    let mut k: usize = 0;
    assert(edit_views(steps@) =~= cut_all.take(0));
    while k < members.len()
        invariant
            k <= members.len(),
            cut_all == members@.map_values(
                |clip: u64| EditView::SplitClip { clip, at: at_tick as int },
            ),
            steps.len() == k,
            edit_views(steps@) == cut_all.take(k as int),
            tails@ == step_refs(k as nat),
        decreases members.len() - k,
    {
        push_step(&mut steps, Edit::SplitClip { clip: members[k], at: at_tick });
        tails.push(ClipRef::Step(k));
        assert(edit_views(steps@) =~= cut_all.take(k as int + 1));
        assert(tails@ =~= step_refs((k + 1) as nat));
        k += 1;
    }
    assert(cut_all.take(k as int) =~= cut_all);
    if members.len() > 1 {
        push_step(&mut steps, Edit::LinkClips { clips: tails });
    }
    let quiet: usize = steps.len();
    Planned::Run(Plan { steps, quiet })
}

// --- unlinking ------------------------------------------------------------

/// The link groups of the clips that `ids` name, each once.
pub open spec fn links_named(p: Project, ids: Seq<Seq<char>>) -> Seq<u64>
    decreases ids.len(),
{
    if ids.len() == 0 {
        Seq::empty()
    } else {
        let before = links_named(p, ids.drop_last());
        match link_named(p, ids.last()) {
            Some(link) => if before.contains(link) {
                before
            } else {
                before.push(link)
            },
            None => before,
        }
    }
}

/// The link group of the clip that `raw` names, if there is one.
pub open spec fn link_named(p: Project, raw: Seq<char>) -> Option<u64> {
    match raw_id(raw) {
        None => None,
        Some(clip) => match p.clip_with(clip) {
            Some(c) => c.link,
            None => None,
        },
    }
}

/// A group of one for each member, which reads like no link.
pub open spec fn singletons(members: Seq<u64>) -> Seq<EditView> {
    members.map_values(|clip: u64| EditView::LinkClips { clips: seq![ClipRef::Id(clip)] })
}

/// What unlinking the clips that `ids` name comes to.
pub open spec fn unlinked(p: Project, ids: Seq<Seq<char>>) -> PlannedView {
    let links = links_named(p, ids);
    if links.len() == 0 {
        PlannedView::Ignored(Ignored::NothingToDo)
    } else {
        PlannedView::Run { steps: singletons(link_members(p.lanes@, links)), quiet: 0 }
    }
}

/// Plan dissolving the link groups of `clips`: every member of every touched
/// group ends up in a group of its own, selected or not.
pub fn unlink_clips(project: &Project, clips: &Vec<String>) -> (r: Planned)
    ensures
        r@ == unlinked(*project, texts(clips@)),
{
    let ghost ids = texts(clips@);
    let mut links: Vec<u64> = Vec::new();
    let mut i: usize = 0;
    while i < clips.len()
        invariant
            i <= clips.len(),
            ids == texts(clips@),
            links@ == links_named(*project, ids.take(i as int)),
        decreases clips.len() - i,
    {
        proof {
            assert(ids.take(i as int + 1).drop_last() =~= ids.take(i as int));
            assert(ids.take(i as int + 1).last() == clips@[i as int]@);
        }
        let named: Option<u64> = match parse_raw_id(clips[i].as_str()) {
            None => None,
            Some(clip) => match project.find_clip(clip) {
                Some((t, c)) => project.lanes[t].clips[c].link,
                None => None,
            },
        };
        match named {
            Some(link) => {
                if !has_link(&links, link) {
                    links.push(link);
                }
            },
            None => {},
        }
        i += 1;
    }
    assert(ids.take(i as int) =~= ids);
    if links.len() == 0 {
        return Planned::Ignored(Ignored::NothingToDo);
    }
    let members = members_of_links(project, &links);
    let ghost goal = singletons(members@);
    let mut steps = no_steps();
    let mut k: usize = 0;
    assert(edit_views(steps@) =~= goal.take(0));
    while k < members.len()
        invariant
            k <= members.len(),
            goal == singletons(members@),
            edit_views(steps@) == goal.take(k as int),
        decreases members.len() - k,
    {
        let mut one: Vec<ClipRef> = Vec::new();
        one.push(ClipRef::Id(members[k]));
        assert(one@ =~= seq![ClipRef::Id(members@[k as int])]);
        push_step(&mut steps, Edit::LinkClips { clips: one });
        assert(edit_views(steps@) =~= goal.take(k as int + 1));
        k += 1;
    }
    assert(goal.take(k as int) =~= goal);
    Planned::Run(Plan { steps, quiet: 0 })
}

/// Unlinking takes in whole groups: every clip that shares a link with a named
/// clip is among the members.
pub proof fn law_unlink_dissolves_whole_groups(
    p: Project,
    ids: Seq<Seq<char>>,
    i: int,
    clip: ProjectClip,
)
    requires
        0 <= i < ids.len(),
        link_named(p, ids[i]) is Some,
        all_clips(p.lanes@).contains(clip),
        clip.link == link_named(p, ids[i]),
    ensures
        link_members(p.lanes@, links_named(p, ids)).contains(clip.id),
{
    let links = links_named(p, ids);
    let link = link_named(p, ids[i])->0;
    lemma_links_named(p, ids, i);
    let all = all_clips(p.lanes@);
    let q = linked_to(links);
    lemma_filter_members(all, q);
    assert(q(clip));
    let picked = all.filter(q);
    assert(picked.contains(clip));
    let k = choose|k: int| 0 <= k < picked.len() && picked[k] == clip;
    assert(ids_of(picked)[k] == clip.id);
}

pub proof fn lemma_links_named(p: Project, ids: Seq<Seq<char>>, i: int)
    requires
        0 <= i < ids.len(),
        link_named(p, ids[i]) is Some,
    ensures
        links_named(p, ids).contains(link_named(p, ids[i])->0),
    decreases ids.len(),
{
    let link = link_named(p, ids[i])->0;
    let before = links_named(p, ids.drop_last());
    let now = links_named(p, ids);
    if i == ids.len() - 1 {
        if !before.contains(link) {
            assert(now[before.len() as int] == link);
        }
    } else {
        assert(ids.drop_last()[i] == ids[i]);
        lemma_links_named(p, ids.drop_last(), i);
        let k = choose|k: int| 0 <= k < before.len() && before[k] == link;
        assert(now[k] == link);
    }
}

} // verus!
