//! Edits that ripple: trims that carry the clips behind them along, reordering
//! on the main lane, and closing every gap on it.

use vstd::prelude::*;

use crate::edits::{apart, distinct_ids, edit_views, lane_after, lane_after_all, lemma_two_steps,
    no_steps, push_step, shifted, slots_of, Edit, EditView, Ignored, LaneRef, PhaseNext, PhaseView,
    Plan, Slot};
use crate::num::max_int;
use crate::project::{lane_wf, lanes_wf, link_group_ids, link_group_of, Project, ProjectClip};
use crate::text::{parse_raw_id, raw_id};

verus! {

// --- one ripple trim ------------------------------------------------------

/// The steps of a ripple trim of a clip at `start` with `duration` to the extent
/// `to_start`, `to_duration`: room is opened before the clip grows into it, and
/// a gap is closed after the clip shrank.
pub open spec fn ripple_trim_steps(
    lane: u64,
    clip: u64,
    start: int,
    duration: int,
    to_start: int,
    to_duration: int,
) -> Seq<EditView> {
    let grow = to_duration - duration;
    let trim = EditView::TrimClip { clip, start: to_start, duration: to_duration };
    if to_start != start {
        if grow > 0 {
            seq![
                EditView::ShiftClips { lane, from: start, delta: grow },
                EditView::TrimClip { clip, start, duration: to_duration },
            ]
        } else {
            seq![trim, EditView::ShiftClips { lane, from: to_start, delta: start - to_start }]
        }
    } else if grow > 0 {
        seq![EditView::ShiftClips { lane, from: start + duration, delta: grow }, trim]
    } else if grow < 0 {
        seq![trim, EditView::ShiftClips { lane, from: start + duration, delta: grow }]
    } else {
        seq![trim]
    }
}

/// The differences that a ripple trim computes fit `i64`.
pub open spec fn ripple_fits(start: int, duration: int, to_start: int, to_duration: int) -> bool {
    &&& i64::MIN <= to_duration - duration <= i64::MAX
    &&& i64::MIN <= start - to_start <= i64::MAX
    &&& i64::MIN <= start + duration <= i64::MAX
}

/// Append the steps of one ripple trim.
fn push_ripple_trim(
    steps: &mut Vec<Edit>,
    lane: u64,
    clip: u64,
    start: i64,
    duration: i64,
    to_start: i64,
    to_duration: i64,
)
    requires
        ripple_fits(start as int, duration as int, to_start as int, to_duration as int),
    ensures
        edit_views(final(steps)@) == edit_views(old(steps)@) + ripple_trim_steps(
            lane,
            clip,
            start as int,
            duration as int,
            to_start as int,
            to_duration as int,
        ),
{
    let ghost was = edit_views(steps@);
    let ghost goal = ripple_trim_steps(
        lane,
        clip,
        start as int,
        duration as int,
        to_start as int,
        to_duration as int,
    );
    let grow: i64 = to_duration - duration;
    if to_start != start {
        if grow > 0 {
            push_step(steps, Edit::ShiftClips { lane, from: start, delta: grow });
            push_step(steps, Edit::TrimClip { clip, start, duration: to_duration });
        } else {
            push_step(steps, Edit::TrimClip { clip, start: to_start, duration: to_duration });
            push_step(
                steps,
                Edit::ShiftClips { lane, from: to_start, delta: start - to_start },
            );
        }
    } else if grow > 0 {
        push_step(steps, Edit::ShiftClips { lane, from: start + duration, delta: grow });
        push_step(steps, Edit::TrimClip { clip, start: to_start, duration: to_duration });
    } else if grow < 0 {
        push_step(steps, Edit::TrimClip { clip, start: to_start, duration: to_duration });
        push_step(steps, Edit::ShiftClips { lane, from: start + duration, delta: grow });
    } else {
        push_step(steps, Edit::TrimClip { clip, start: to_start, duration: to_duration });
    }
    assert(edit_views(steps@) =~= was + goal);
}

/// Where a slot ends up after a ripple trim of `clip`: the clip keeps its start
/// and takes the new length, and every clip behind its old end moves by the
/// change in length.
pub open spec fn rippled_slot(s: Slot, clip: u64, start: int, duration: int, to_duration: int) -> Slot {
    if s.id == clip {
        Slot { id: clip, start, duration: to_duration }
    } else if s.start >= start + duration {
        Slot { start: s.start + (to_duration - duration), ..s }
    } else {
        s
    }
}

/// A lane after a ripple trim.
pub open spec fn rippled(
    lane: Seq<Slot>,
    clip: u64,
    start: int,
    duration: int,
    to_duration: int,
) -> Seq<Slot> {
    lane.map_values(|s: Slot| rippled_slot(s, clip, start, duration, to_duration))
}

/// A trim moved one edge: the end stayed, or the start did.
pub open spec fn one_edge(start: int, duration: int, to_start: int, to_duration: int) -> bool {
    to_start == start || to_start + to_duration == start + duration
}

/// The slot of `clip` is where the trim says it is, on a lane where no two slots
/// overlap.
pub open spec fn trim_site(lane: Seq<Slot>, k: int, start: int, duration: int) -> bool {
    &&& apart(lane)
    &&& distinct_ids(lane)
    &&& forall|i: int| 0 <= i < lane.len() ==> (#[trigger] lane[i]).duration >= 1
    &&& 0 <= k < lane.len()
    &&& lane[k].start == start
    &&& lane[k].duration == duration
}

/// A ripple trim keeps the clip at its old start with the new length and moves
/// every clip behind it by the change in length, whichever edge was dragged.
pub proof fn law_ripple_trim_effect(
    lane: Seq<Slot>,
    lane_id: u64,
    k: int,
    start: int,
    duration: int,
    to_start: int,
    to_duration: int,
)
    requires
        trim_site(lane, k, start, duration),
        to_duration >= 1,
        one_edge(start, duration, to_start, to_duration),
    ensures
        lane_after_all(
            lane,
            lane_id,
            ripple_trim_steps(lane_id, lane[k].id, start, duration, to_start, to_duration),
        ) == rippled(lane, lane[k].id, start, duration, to_duration),
{
    let clip = lane[k].id;
    let steps = ripple_trim_steps(lane_id, clip, start, duration, to_start, to_duration);
    let grow = to_duration - duration;
    let trim = EditView::TrimClip { clip, start: to_start, duration: to_duration };
    let goal = rippled(lane, clip, start, duration, to_duration);
    assert forall|i: int| 0 <= i < lane.len() && i != k implies (#[trigger] lane[i]).id != clip && (
    lane[i].start >= start + duration || lane[i].start + lane[i].duration <= start) by {
        assert(lane[i].start + lane[i].duration <= lane[k].start || lane[k].start
            + lane[k].duration <= lane[i].start);
        if i < k {
            assert(lane[i].id != lane[k].id);
        } else {
            assert(lane[k].id != lane[i].id);
        }
    }
    if to_start == start && grow == 0 {
        lemma_two_steps(lane, lane_id, trim, trim);
        assert(lane_after_all(lane, lane_id, steps) =~= goal);
    } else {
        assert(steps =~= seq![steps[0], steps[1]]);
        lemma_two_steps(lane, lane_id, steps[0], steps[1]);
        let mid = lane_after(lane, lane_id, steps[0]);
        let end = lane_after(mid, lane_id, steps[1]);
        assert forall|i: int| 0 <= i < lane.len() implies #[trigger] end[i] == goal[i] by {
            assert(lane[i].duration >= 1);
        }
        assert(end =~= goal);
    }
}

/// Between the two steps of a ripple trim no two clips overlap, and after them
/// neither, so each step is a valid edit by itself.
pub proof fn law_ripple_trim_never_overlaps(
    lane: Seq<Slot>,
    lane_id: u64,
    k: int,
    start: int,
    duration: int,
    to_start: int,
    to_duration: int,
)
    requires
        trim_site(lane, k, start, duration),
        to_duration >= 1,
        one_edge(start, duration, to_start, to_duration),
    ensures
        ({
            let steps = ripple_trim_steps(
                lane_id,
                lane[k].id,
                start,
                duration,
                to_start,
                to_duration,
            );
            &&& apart(lane_after(lane, lane_id, steps[0]))
            &&& apart(lane_after_all(lane, lane_id, steps))
        }),
{
    let clip = lane[k].id;
    let steps = ripple_trim_steps(lane_id, clip, start, duration, to_start, to_duration);
    law_ripple_trim_effect(lane, lane_id, k, start, duration, to_start, to_duration);
    let mid = lane_after(lane, lane_id, steps[0]);
    let goal = rippled(lane, clip, start, duration, to_duration);
    assert forall|i: int, j: int|
        #![trigger mid[i], mid[j]]
        0 <= i < mid.len() && 0 <= j < mid.len() && i != j implies mid[i].start + mid[i].duration
        <= mid[j].start || mid[j].start + mid[j].duration <= mid[i].start by {
        lemma_apart_facts(lane, i, j, k);
    }
    assert forall|i: int, j: int|
        #![trigger goal[i], goal[j]]
        0 <= i < goal.len() && 0 <= j < goal.len() && i != j implies goal[i].start
        + goal[i].duration <= goal[j].start || goal[j].start + goal[j].duration <= goal[i].start by {
        lemma_apart_facts(lane, i, j, k);
    }
}

proof fn lemma_apart_facts(lane: Seq<Slot>, i: int, j: int, k: int)
    requires
        apart(lane),
        distinct_ids(lane),
        forall|x: int| 0 <= x < lane.len() ==> (#[trigger] lane[x]).duration >= 1,
        0 <= i < lane.len(),
        0 <= j < lane.len(),
        0 <= k < lane.len(),
        i != j,
    ensures
        lane[i].start + lane[i].duration <= lane[j].start || lane[j].start + lane[j].duration
            <= lane[i].start,
        i != k ==> lane[i].id != lane[k].id && (lane[i].start + lane[i].duration <= lane[k].start
            || lane[k].start + lane[k].duration <= lane[i].start),
        j != k ==> lane[j].id != lane[k].id && (lane[j].start + lane[j].duration <= lane[k].start
            || lane[k].start + lane[k].duration <= lane[j].start),
        lane[i].duration >= 1,
        lane[j].duration >= 1,
        lane[k].duration >= 1,
{
    assert(lane[i].start + lane[i].duration <= lane[j].start || lane[j].start + lane[j].duration
        <= lane[i].start);
    if i != k {
        assert(lane[i].start + lane[i].duration <= lane[k].start || lane[k].start
            + lane[k].duration <= lane[i].start);
    }
    if j != k {
        assert(lane[j].start + lane[j].duration <= lane[k].start || lane[k].start
            + lane[k].duration <= lane[j].start);
    }
}

/// A ripple trim neither leaves nor eats a gap: the space between the clip and
/// each clip behind it stays what it was.
pub proof fn law_ripple_trim_keeps_gaps(
    lane: Seq<Slot>,
    k: int,
    j: int,
    start: int,
    duration: int,
    to_duration: int,
)
    requires
        trim_site(lane, k, start, duration),
        0 <= j < lane.len(),
        j != k,
        lane[j].start >= start + duration,
    ensures
        ({
            let after = rippled(lane, lane[k].id, start, duration, to_duration);
            after[j].start - (after[k].start + after[k].duration) == lane[j].start - (lane[k].start
                + lane[k].duration)
        }),
{
    if j < k {
        assert(lane[j].id != lane[k].id);
    } else {
        assert(lane[k].id != lane[j].id);
    }
}

// --- trims of a link group ------------------------------------------------

/// A clip and the extent it is trimmed to.
#[derive(Clone, Copy, Debug, PartialEq, Eq, Structural)]
pub struct MemberTrim {
    pub clip: u64,
    pub start: i64,
    pub duration: i64,
}

/// Whether the trims ripple: the magnet is on and one of the clips sits on the
/// main lane.
pub open spec fn trims_ripple(p: Project, trims: Seq<MemberTrim>, main_magnet: bool) -> bool {
    main_magnet && p.main_lane() is Some && exists|i: int|
        0 <= i < trims.len() && p.lane_of_clip((#[trigger] trims[i]).clip) == p.main_lane()
}

/// The steps of one member on the project as it stands: a plain trim, or a ripple
/// trim on the clip's own lane.
pub open spec fn member_steps(p: Project, trim: MemberTrim, ripple: bool) -> Seq<EditView> {
    if ripple {
        let t = p.lane_of_clip(trim.clip)->0;
        let c = p.clip_with(trim.clip)->0;
        ripple_trim_steps(
            p.lanes@[t].id,
            trim.clip,
            c.start as int,
            c.duration as int,
            trim.start as int,
            trim.duration as int,
        )
    } else {
        seq![
            EditView::TrimClip {
                clip: trim.clip,
                start: trim.start as int,
                duration: trim.duration as int,
            },
        ]
    }
}

/// A set of trims that is applied member by member, in one history group.
#[derive(Debug)]
pub struct TrimGroup {
    pub trims: Vec<MemberTrim>,
    /// The first member that was not planned yet.
    pub next: usize,
    pub ripple: bool,
}

/// Open a set of member trims. With the magnet on and any member on the main
/// lane every member ripples, so that linked clips stay aligned.
pub fn commit_trims(project: &Project, trims: Vec<MemberTrim>, main_magnet: bool) -> (r: TrimGroup)
    ensures
        r.trims@ == trims@,
        r.next == 0,
        r.ripple == trims_ripple(*project, trims@, main_magnet),
{
    let mut ripple: bool = false;
    if main_magnet {
        match project.main_video_track() {
            Some(m) => {
                let mut i: usize = 0;
                while i < trims.len() && !ripple
                    invariant
                        i <= trims.len(),
                        project.main_lane() == Some(m as int),
                        ripple ==> exists|j: int|
                            0 <= j < trims.len() && project.lane_of_clip(
                                (#[trigger] trims@[j]).clip,
                            ) == project.main_lane(),
                        !ripple ==> forall|j: int|
                            0 <= j < i ==> project.lane_of_clip((#[trigger] trims@[j]).clip)
                                != project.main_lane(),
                    decreases trims.len() - i,
                {
                    let clip: u64 = trims[i].clip;
                    assert(trims@[i as int].clip == clip);
                    match project.find_clip(clip) {
                        Some((t, _)) => {
                            if t == m {
                                ripple = true;
                            }
                        },
                        None => {},
                    }
                    i += 1;
                }
            },
            None => {},
        }
    }
    TrimGroup { trims, next: 0, ripple }
}

impl TrimGroup {
    /// The steps of the next member, planned on the project as the members
    /// before left it; `None` when all are planned. A ripple trim fails when its
    /// clip is not on the timeline.
    pub fn next_steps(&mut self, project: &Project) -> (r: Option<Result<Vec<Edit>, Ignored>>)
        requires
            old(self).next < old(self).trims.len() && old(self).ripple ==> (project.clip_with(
                old(self).trims@[old(self).next as int].clip,
            ) matches Some(c) ==> ripple_fits(
                c.start as int,
                c.duration as int,
                old(self).trims@[old(self).next as int].start as int,
                old(self).trims@[old(self).next as int].duration as int,
            )),
        ensures
            final(self).trims@ == old(self).trims@,
            final(self).ripple == old(self).ripple,
            if old(self).next >= old(self).trims.len() {
                r is None && final(self).next == old(self).next
            } else {
                let trim = old(self).trims@[old(self).next as int];
                &&& final(self).next == old(self).next + 1
                &&& r matches Some(out) && match out {
                    Ok(steps) => (old(self).ripple ==> project.clip_with(trim.clip) is Some)
                        && edit_views(steps@) == member_steps(*project, trim, old(self).ripple),
                    Err(why) => old(self).ripple && project.clip_with(trim.clip) is None && why
                        == Ignored::ClipNotOnTimeline,
                }
            },
    {
        if self.next >= self.trims.len() {
            return None;
        }
        let trim = self.trims[self.next];
        self.next = self.next + 1;
        let mut steps = no_steps();
        if self.ripple {
            match project.find_clip(trim.clip) {
                Some((t, c)) => {
                    let lane = &project.lanes[t];
                    push_ripple_trim(
                        &mut steps,
                        lane.id,
                        trim.clip,
                        lane.clips[c].start,
                        lane.clips[c].duration,
                        trim.start,
                        trim.duration,
                    );
                    assert(edit_views(steps@) =~= member_steps(*project, trim, true));
                },
                None => {
                    return Some(Err(Ignored::ClipNotOnTimeline));
                },
            }
        } else {
            push_step(
                &mut steps,
                Edit::TrimClip { clip: trim.clip, start: trim.start, duration: trim.duration },
            );
            assert(edit_views(steps@) =~= member_steps(*project, trim, false));
        }
        Some(Ok(steps))
    }

    /// The next part of the group: the steps of the next member, the end when there
    /// is none, and the end of it all when a ripple trim has no clip.
    pub fn next_phase(&mut self, project: &Project) -> (r: PhaseNext)
        requires
            old(self).next < old(self).trims.len() && old(self).ripple ==> (project.clip_with(
                old(self).trims@[old(self).next as int].clip,
            ) matches Some(c) ==> ripple_fits(
                c.start as int,
                c.duration as int,
                old(self).trims@[old(self).next as int].start as int,
                old(self).trims@[old(self).next as int].duration as int,
            )),
        ensures
            final(self).trims@ == old(self).trims@,
            final(self).ripple == old(self).ripple,
            if old(self).next >= old(self).trims.len() {
                r@ == PhaseView::Commit && final(self).next == old(self).next
            } else {
                let trim = old(self).trims@[old(self).next as int];
                &&& final(self).next == old(self).next + 1
                &&& r@ == (if old(self).ripple && project.clip_with(trim.clip) is None {
                    PhaseView::RollBack { publish: true }
                } else {
                    PhaseView::Run {
                        steps: member_steps(*project, trim, old(self).ripple),
                        quiet: 0,
                    }
                })
            },
    {
        match self.next_steps(project) {
            None => PhaseNext::Commit,
            Some(Ok(steps)) => PhaseNext::Run(Plan { steps, quiet: 0 }),
            Some(Err(_)) => PhaseNext::RollBack { publish: true },
        }
    }
}

/// A clip of the link group, other than the trimmed one, trimmed by the same
/// edge motion.
pub open spec fn partner_trim(p: Project, id: u64, by_start: int, by_duration: int) -> MemberTrim {
    let c = p.clip_with(id)->0;
    MemberTrim {
        clip: id,
        start: (c.start + by_start) as i64,
        duration: max_int(c.duration + by_duration, 1) as i64,
    }
}

/// The trims of the partners in `group`, in order; partners that are not on the
/// timeline are left out.
pub open spec fn partner_trims(
    p: Project,
    group: Seq<u64>,
    clip: u64,
    by_start: int,
    by_duration: int,
) -> Seq<MemberTrim>
    decreases group.len(),
{
    if group.len() == 0 {
        Seq::empty()
    } else {
        let before = partner_trims(p, group.drop_last(), clip, by_start, by_duration);
        if group.last() == clip || p.clip_with(group.last()) is None {
            before
        } else {
            before.push(partner_trim(p, group.last(), by_start, by_duration))
        }
    }
}

/// The members of a trim to `start` and `duration`: the clip, and with linkage on
/// its partners by the same motion.
pub open spec fn trim_members(
    p: Project,
    clip: u64,
    start: int,
    duration: int,
    linkage: bool,
) -> Seq<MemberTrim> {
    let c = p.clip_with(clip)->0;
    let own = MemberTrim { clip, start: start as i64, duration: duration as i64 };
    if linkage {
        seq![own] + partner_trims(
            p,
            link_group_of(p, clip),
            clip,
            start - c.start,
            duration - c.duration,
        )
    } else {
        seq![own]
    }
}

/// The same motion keeps every clip in range.
pub open spec fn motion_fits(p: Project, by_start: int, by_duration: int) -> bool {
    &&& i64::MIN <= by_start <= i64::MAX
    &&& i64::MIN <= by_duration <= i64::MAX
    &&& forall|id: u64|
        p.clip_with(id) matches Some(c) ==> i64::MIN <= #[trigger] p.clip_with(id)->0.start
            + by_start <= i64::MAX && i64::MIN <= c.duration + by_duration <= i64::MAX
}

/// What a trim comes to: the extents that its members are trimmed to.
pub open spec fn trim_of(
    p: Project,
    clip: Seq<char>,
    start_tick: int,
    duration_ticks: int,
    linkage: bool,
) -> Result<Seq<MemberTrim>, Ignored> {
    match raw_id(clip) {
        None => Err(Ignored::BadClipId),
        Some(id) => if p.clip_with(id) is None {
            Err(Ignored::ClipNotOnTimeline)
        } else {
            Ok(
                trim_members(
                    p,
                    id,
                    max_int(start_tick, 0),
                    max_int(duration_ticks, 1),
                    linkage,
                ),
            )
        },
    }
}

/// Plan a trim to a resolved extent: the clip, and with linkage on every clip of
/// its link group by the same edge motion.
pub fn trim_clip(
    project: &Project,
    clip: &str,
    start_tick: i64,
    duration_ticks: i64,
    linkage: bool,
    main_magnet: bool,
) -> (r: Result<TrimGroup, Ignored>)
    requires
        raw_id(clip@) matches Some(id) ==> (project.clip_with(id) matches Some(c) ==> motion_fits(
            *project,
            max_int(start_tick as int, 0) - c.start,
            max_int(duration_ticks as int, 1) - c.duration,
        )),
    ensures
        match trim_of(*project, clip@, start_tick as int, duration_ticks as int, linkage) {
            Err(why) => r == Err::<TrimGroup, Ignored>(why),
            Ok(members) => r matches Ok(group) && group.trims@ == members && group.next == 0
                && group.ripple == trims_ripple(*project, members, main_magnet),
        },
{
    let id: u64 = match parse_raw_id(clip) {
        Some(id) => id,
        None => {
            return Err(Ignored::BadClipId);
        },
    };
    let (t, c) = match project.find_clip(id) {
        Some(found) => found,
        None => {
            return Err(Ignored::ClipNotOnTimeline);
        },
    };
    let placed = &project.lanes[t].clips[c];
    assert(project.clip_with(id) == Some(*placed));
    let start: i64 = if start_tick < 0 {
        0
    } else {
        start_tick
    };
    let duration: i64 = if duration_ticks < 1 {
        1
    } else {
        duration_ticks
    };
    let by_start: i64 = start - placed.start;
    let by_duration: i64 = duration - placed.duration;
    let ghost own = MemberTrim { clip: id, start, duration };
    let mut trims: Vec<MemberTrim> = Vec::new();
    trims.push(MemberTrim { clip: id, start, duration });
    if linkage {
        let group = link_group_ids(project, id);
        let mut i: usize = 0;
        assert(trims@ =~= seq![own] + partner_trims(
            *project,
            group@.take(0),
            id,
            by_start as int,
            by_duration as int,
        ));
        while i < group.len()
            invariant
                i <= group.len(),
                motion_fits(*project, by_start as int, by_duration as int),
                trims@ == seq![own] + partner_trims(
                    *project,
                    group@.take(i as int),
                    id,
                    by_start as int,
                    by_duration as int,
                ),
            decreases group.len() - i,
        {
            let partner: u64 = group[i];
            let ghost was = trims@;
            proof {
                assert(group@.take(i as int + 1).drop_last() =~= group@.take(i as int));
                assert(group@.take(i as int + 1).last() == partner);
            }
            if partner != id {
                match project.find_clip(partner) {
                    Some((pt, pc)) => {
                        let extent = &project.lanes[pt].clips[pc];
                        assert(project.clip_with(partner) == Some(*extent));
                        assert(i64::MIN <= project.clip_with(partner)->0.start + by_start
                            <= i64::MAX);
                        let long: i64 = extent.duration + by_duration;
                        trims.push(
                            MemberTrim {
                                clip: partner,
                                start: extent.start + by_start,
                                duration: if long < 1 {
                                    1
                                } else {
                                    long
                                },
                            },
                        );
                        assert(trims@ =~= seq![own] + partner_trims(
                            *project,
                            group@.take(i as int + 1),
                            id,
                            by_start as int,
                            by_duration as int,
                        ));
                    },
                    None => {},
                }
            }
            i += 1;
        }
        assert(group@.take(i as int) =~= group@);
    } else {
        assert(trims@ =~= seq![own]);
    }
    Ok(commit_trims(project, trims, main_magnet))
}

// --- reordering on a lane -------------------------------------------------

/// The steps that take a clip from `start` to `at` on its own lane: park it past
/// the content, close its gap, open room at `at`, and land there.
pub open spec fn reorder_steps(
    lane: u64,
    clip: u64,
    start: int,
    duration: int,
    park: int,
    at: int,
) -> Seq<EditView> {
    seq![
        EditView::MoveClip { clip, to: LaneRef::Id(lane), start: park },
        EditView::ShiftClips { lane, from: start, delta: -duration },
        EditView::ShiftClips { lane, from: at, delta: duration },
        EditView::MoveClip { clip, to: LaneRef::Id(lane), start: at },
    ]
}

/// Where another clip stands once the gap at `start` is closed.
pub open spec fn closed_start(s: Slot, start: int, duration: int) -> int {
    if s.start >= start {
        s.start - duration
    } else {
        s.start
    }
}

/// A slot after the reorder: the clip stands at `at`, and the others close up
/// behind it and make room for it.
pub open spec fn reordered_slot(s: Slot, clip: u64, start: int, duration: int, at: int) -> Slot {
    if s.id == clip {
        Slot { start: at, ..s }
    } else {
        let c = closed_start(s, start, duration);
        Slot {
            start: if c >= at {
                c + duration
            } else {
                c
            },
            ..s
        }
    }
}

/// A reorder moves the clip to `at` and shifts the others by its length where it
/// left and where it came in.
pub proof fn law_reorder_effect(
    lane: Seq<Slot>,
    lane_id: u64,
    k: int,
    start: int,
    duration: int,
    park: int,
    at: int,
)
    requires
        trim_site(lane, k, start, duration),
    ensures
        lane_after_all(
            lane,
            lane_id,
            reorder_steps(lane_id, lane[k].id, start, duration, park, at),
        ) == lane.map_values(|s: Slot| reordered_slot(s, lane[k].id, start, duration, at)),
{
    let clip = lane[k].id;
    let steps = reorder_steps(lane_id, clip, start, duration, park, at);
    let goal = lane.map_values(|s: Slot| reordered_slot(s, clip, start, duration, at));
    reveal_with_fuel(lane_after_all, 5);
    let s3 = steps.drop_last();
    let s2 = s3.drop_last();
    let s1 = s2.drop_last();
    assert(s1.drop_last() =~= Seq::<EditView>::empty());
    let l1 = lane_after(lane, lane_id, steps[0]);
    let l2 = lane_after(l1, lane_id, steps[1]);
    let l3 = lane_after(l2, lane_id, steps[2]);
    let l4 = lane_after(l3, lane_id, steps[3]);
    assert(lane_after_all(lane, lane_id, steps) == l4);
    assert(l4 =~= goal);
}

/// When `at` does not cut through another clip of the closed lane, the reordered
/// lane has no overlaps.
pub proof fn law_reorder_never_overlaps(
    lane: Seq<Slot>,
    k: int,
    start: int,
    duration: int,
    at: int,
)
    requires
        trim_site(lane, k, start, duration),
        forall|i: int|
            0 <= i < lane.len() && i != k ==> closed_start(#[trigger] lane[i], start, duration) >= at
                || closed_start(lane[i], start, duration) + lane[i].duration <= at,
    ensures
        apart(lane.map_values(|s: Slot| reordered_slot(s, lane[k].id, start, duration, at))),
{
    let goal = lane.map_values(|s: Slot| reordered_slot(s, lane[k].id, start, duration, at));
    assert forall|i: int, j: int|
        #![trigger goal[i], goal[j]]
        0 <= i < goal.len() && 0 <= j < goal.len() && i != j implies goal[i].start
        + goal[i].duration <= goal[j].start || goal[j].start + goal[j].duration <= goal[i].start by {
        lemma_apart_facts(lane, i, j, k);
        if i != k {
            assert(closed_start(lane[i], start, duration) >= at || closed_start(
                lane[i],
                start,
                duration,
            ) + lane[i].duration <= at);
        }
        if j != k {
            assert(closed_start(lane[j], start, duration) >= at || closed_start(
                lane[j],
                start,
                duration,
            ) + lane[j].duration <= at);
        }
    }
}

/// Append the steps of a reorder within a lane.
pub(crate) fn push_reorder(
    steps: &mut Vec<Edit>,
    lane: u64,
    clip: u64,
    start: i64,
    duration: i64,
    park: i64,
    at: i64,
)
    requires
        duration > i64::MIN,
    ensures
        edit_views(final(steps)@) == edit_views(old(steps)@) + reorder_steps(
            lane,
            clip,
            start as int,
            duration as int,
            park as int,
            at as int,
        ),
        final(steps).len() == old(steps).len() + 4,
{
    let ghost was = edit_views(steps@);
    push_step(steps, Edit::MoveClip { clip, to: LaneRef::Id(lane), start: park });
    push_step(steps, Edit::ShiftClips { lane, from: start, delta: -duration });
    push_step(steps, Edit::ShiftClips { lane, from: at, delta: duration });
    push_step(steps, Edit::MoveClip { clip, to: LaneRef::Id(lane), start: at });
    assert(edit_views(steps@) =~= was + reorder_steps(
        lane,
        clip,
        start as int,
        duration as int,
        park as int,
        at as int,
    ));
}

// --- closing every gap ----------------------------------------------------

/// Sum of the durations of the first `n` clips.
pub open spec fn packed_start(clips: Seq<ProjectClip>, n: int) -> int
    decreases n,
{
    if n <= 0 {
        0
    } else {
        packed_start(clips, n - 1) + clips[n - 1].duration
    }
}

/// The lane with every gap closed, the leading one too.
pub open spec fn packed(clips: Seq<ProjectClip>) -> Seq<Slot> {
    Seq::new(
        clips.len(),
        |i: int|
            Slot {
                id: clips[i].id,
                start: packed_start(clips, i),
                duration: clips[i].duration as int,
            },
    )
}

/// Length of the gap in front of clip `i`; in front of the first one it is the
/// leading space.
pub open spec fn gap_before(clips: Seq<ProjectClip>, i: int) -> int {
    clips[i].start - if i == 0 {
        0
    } else {
        clips[i - 1].end()
    }
}

/// The steps that close the gaps in front of the first `n` clips, from the left:
/// one shift per gap.
pub open spec fn pack_steps(lane: u64, clips: Seq<ProjectClip>, n: int) -> Seq<EditView>
    decreases n,
{
    if n <= 0 {
        Seq::empty()
    } else {
        let before = pack_steps(lane, clips, n - 1);
        let gap = gap_before(clips, n - 1);
        if gap > 0 {
            before.push(
                EditView::ShiftClips {
                    lane,
                    from: packed_start(clips, n - 1) + gap,
                    delta: -gap,
                },
            )
        } else {
            before
        }
    }
}

/// Plan closing every gap of the main lane, leading space included: one shift per
/// gap. A lane without gaps needs nothing.
pub fn pack_main_track(project: &Project) -> (r: Option<Vec<Edit>>)
    requires
        lanes_wf(project.lanes@),
    ensures
        match project.main_lane() {
            None => r is None,
            Some(m) => r matches Some(steps) && edit_views(steps@) == pack_steps(
                project.lanes@[m].id,
                project.lanes@[m].clips@,
                project.lanes@[m].clips@.len() as int,
            ) && lane_after_all(
                slots_of(project.lanes@[m].clips@),
                project.lanes@[m].id,
                edit_views(steps@),
            ) == packed(project.lanes@[m].clips@),
        },
{
    let m: usize = match project.main_video_track() {
        Some(m) => m,
        None => {
            return None;
        },
    };
    let lane: u64 = project.lanes[m].id;
    let clips = &project.lanes[m].clips;
    assert(lane_wf(project.lanes@[m as int].clips@));
    let ghost slots = slots_of(clips@);
    let mut steps = no_steps();
    let mut shifted_so_far: i64 = 0;
    let mut expected: i64 = 0;
    let mut i: usize = 0;
    proof {
        assert(lane_after_all(slots, lane, edit_views(steps@)) =~= part_packed(clips@, 0, 0));
    }
    while i < clips.len()
        invariant
            i <= clips.len(),
            lane_wf(clips@),
            slots == slots_of(clips@),
            edit_views(steps@) == pack_steps(lane, clips@, i as int),
            0 <= shifted_so_far,
            expected == packed_start(clips@, i as int),
            0 <= expected,
            i > 0 ==> expected == clips@[i - 1].end() - shifted_so_far,
            i == 0 ==> shifted_so_far == 0 && expected == 0,
            lane_after_all(slots, lane, edit_views(steps@)) == part_packed(
                clips@,
                i as int,
                shifted_so_far as int,
            ),
        decreases clips.len() - i,
    {
        let start: i64 = clips[i].start;
        let duration: i64 = clips[i].duration;
        proof {
            assert(clips@[i as int].end() <= i64::MAX);
            if i > 0 {
                assert(clips@[i - 1].end() <= clips@[i as int].start);
            }
        }
        let current: i64 = start - shifted_so_far;
        assert(current - expected == gap_before(clips@, i as int));
        assert(current >= expected);
        if current > expected {
            let ghost before = edit_views(steps@);
            let ghost lane0 = part_packed(clips@, i as int, shifted_so_far as int);
            push_step(
                &mut steps,
                Edit::ShiftClips { lane, from: current, delta: expected - current },
            );
            proof {
                assert(edit_views(steps@).drop_last() =~= before);
                let after = shifted(lane0, current as int, expected - current);
                let goal = part_packed(
                    clips@,
                    i as int,
                    shifted_so_far + (current - expected),
                );
                assert forall|j: int| 0 <= j < clips.len() implies #[trigger] after[j] == goal[j] by {
                    if j < i {
                        lemma_packed_grows(clips@, j, i as int);
                    } else if j > i {
                        assert(clips@[i as int].end() <= clips@[j].start);
                    }
                }
                assert(after =~= goal);
            }
            shifted_so_far = shifted_so_far + (current - expected);
        }
        proof {
            assert(part_packed(clips@, i as int, shifted_so_far as int) =~= part_packed(
                clips@,
                i as int + 1,
                shifted_so_far as int,
            ));
        }
        expected = expected + duration;
        i += 1;
    }
    assert(part_packed(clips@, clips@.len() as int, shifted_so_far as int) =~= packed(clips@));
    Some(steps)
}

/// The first `n` clips packed, the rest moved left by `by`.
pub open spec fn part_packed(clips: Seq<ProjectClip>, n: int, by: int) -> Seq<Slot> {
    Seq::new(
        clips.len(),
        |i: int|
            Slot {
                id: clips[i].id,
                start: if i < n {
                    packed_start(clips, i)
                } else {
                    clips[i].start - by
                },
                duration: clips[i].duration as int,
            },
    )
}

proof fn lemma_packed_grows(clips: Seq<ProjectClip>, a: int, b: int)
    requires
        lane_wf(clips),
        0 <= a < b <= clips.len(),
    ensures
        packed_start(clips, a) + clips[a].duration <= packed_start(clips, b),
    decreases b - a,
{
    if b > a + 1 {
        lemma_packed_grows(clips, a, b - 1);
        assert(clips[b - 1].duration >= 1);
    }
}

/// A packed lane has no gap: the first clip starts at 0, and each starts where
/// the one before ends.
pub proof fn law_packed_has_no_gap(clips: Seq<ProjectClip>, i: int)
    requires
        0 <= i < clips.len(),
    ensures
        i == 0 ==> packed(clips)[i].start == 0,
        i > 0 ==> packed(clips)[i].start == packed(clips)[i - 1].start + packed(clips)[i
            - 1].duration,
{
}

/// Packing keeps every clip, in its order and with its length.
pub proof fn law_packed_keeps_clips(clips: Seq<ProjectClip>)
    ensures
        packed(clips).len() == clips.len(),
        forall|i: int|
            #![trigger packed(clips)[i]]
            0 <= i < clips.len() ==> packed(clips)[i].id == clips[i].id && packed(clips)[i].duration
                == clips[i].duration,
{
}

/// Packing a packed lane takes no step.
pub proof fn law_packed_stays(lane: u64, clips: Seq<ProjectClip>, n: int)
    requires
        0 <= n <= clips.len(),
        slots_of(clips) == packed(clips),
    ensures
        pack_steps(lane, clips, n) == Seq::<EditView>::empty(),
    decreases n,
{
    if n > 0 {
        law_packed_stays(lane, clips, n - 1);
        assert(slots_of(clips)[n - 1].start == clips[n - 1].start);
        assert(packed(clips)[n - 1].start == packed_start(clips, n - 1));
        if n > 1 {
            assert(slots_of(clips)[n - 2].start == clips[n - 2].start);
            assert(packed(clips)[n - 2].start == packed_start(clips, n - 2));
            assert(packed_start(clips, n - 1) == packed_start(clips, n - 2) + clips[n - 2].duration);
            assert(clips[n - 1].start == clips[n - 2].end());
        } else {
            assert(packed_start(clips, 0) == 0);
            assert(clips[0].start == 0);
        }
        assert(gap_before(clips, n - 1) == 0);
    }
}

} // verus!
