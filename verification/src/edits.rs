//! Edits as data: an operation plans a list of them, the engine applies them
//! inside one history group, and a failure rolls the group back.
//!
//! A step may name what an earlier step of the same plan creates, since the
//! engine hands out the id only when it applies that step.

use vstd::prelude::*;
use vstd::string::StringExecFns;

use crate::model::TrackKind;
use crate::num::clamp;
use crate::project::{ClipSource, Generator, Lane, Project, ProjectClip, SourceRange};
use crate::text::{decimal, push_decimal};

verus! {

/// A lane: an existing one, or the one that a step of the plan creates.
#[derive(Clone, Copy, Debug, PartialEq, Eq, Structural)]
pub enum LaneRef {
    Id(u64),
    Step(usize),
}

/// A clip: an existing one, or the one that a step of the plan creates.
#[derive(Clone, Copy, Debug, PartialEq, Eq, Structural)]
pub enum ClipRef {
    Id(u64),
    Step(usize),
}

/// One edit.
#[derive(Debug)]
pub enum Edit {
    AddTrack { kind: TrackKind, name: String, index: usize },
    AddClip { to: LaneRef, media: u64, source: SourceRange, start: i64 },
    AddGenerated { to: LaneRef, generator: Generator, start: i64, duration: i64 },
    /// Open room at `at` and add a clip there.
    RippleInsert { lane: u64, media: u64, source: SourceRange, at: i64 },
    MoveClip { clip: u64, to: LaneRef, start: i64 },
    /// Move every clip of the lane that starts at or after `from` by `delta`.
    ShiftClips { lane: u64, from: i64, delta: i64 },
    TrimClip { clip: u64, start: i64, duration: i64 },
    SplitClip { clip: u64, at: i64 },
    RemoveClip { clip: u64 },
    /// Remove a clip and close its gap.
    RippleDelete { clip: u64 },
    /// Make one link group of the clips.
    LinkClips { clips: Vec<ClipRef> },
    /// Remove the lane when the steps before left it without clips; it is no
    /// failure when the engine keeps it.
    DropLaneIfEmpty { lane: u64 },
}

/// The contents of an [`Edit`].
pub enum EditView {
    AddTrack { kind: TrackKind, name: Seq<char>, index: int },
    AddClip { to: LaneRef, media: u64, source: SourceRange, start: int },
    AddGenerated { to: LaneRef, generator: Generator, start: int, duration: int },
    RippleInsert { lane: u64, media: u64, source: SourceRange, at: int },
    MoveClip { clip: u64, to: LaneRef, start: int },
    ShiftClips { lane: u64, from: int, delta: int },
    TrimClip { clip: u64, start: int, duration: int },
    SplitClip { clip: u64, at: int },
    RemoveClip { clip: u64 },
    RippleDelete { clip: u64 },
    LinkClips { clips: Seq<ClipRef> },
    DropLaneIfEmpty { lane: u64 },
}

impl View for Edit {
    type V = EditView;

    open spec fn view(&self) -> EditView {
        match *self {
            Edit::AddTrack { kind, name, index } => EditView::AddTrack {
                kind,
                name: name@,
                index: index as int,
            },
            Edit::AddClip { to, media, source, start } => EditView::AddClip {
                to,
                media,
                source,
                start: start as int,
            },
            Edit::AddGenerated { to, generator, start, duration } => EditView::AddGenerated {
                to,
                generator,
                start: start as int,
                duration: duration as int,
            },
            Edit::RippleInsert { lane, media, source, at } => EditView::RippleInsert {
                lane,
                media,
                source,
                at: at as int,
            },
            Edit::MoveClip { clip, to, start } => EditView::MoveClip {
                clip,
                to,
                start: start as int,
            },
            Edit::ShiftClips { lane, from, delta } => EditView::ShiftClips {
                lane,
                from: from as int,
                delta: delta as int,
            },
            Edit::TrimClip { clip, start, duration } => EditView::TrimClip {
                clip,
                start: start as int,
                duration: duration as int,
            },
            Edit::SplitClip { clip, at } => EditView::SplitClip { clip, at: at as int },
            Edit::RemoveClip { clip } => EditView::RemoveClip { clip },
            Edit::RippleDelete { clip } => EditView::RippleDelete { clip },
            Edit::LinkClips { clips } => EditView::LinkClips { clips: clips@ },
            Edit::DropLaneIfEmpty { lane } => EditView::DropLaneIfEmpty { lane },
        }
    }
}

/// The contents of a list of edits.
pub open spec fn edit_views(steps: Seq<Edit>) -> Seq<EditView> {
    steps.map_values(|e: Edit| e@)
}

/// Why an operation does nothing at all.
#[derive(Clone, Copy, Debug, PartialEq, Eq, Structural)]
pub enum Ignored {
    BadMediaId,
    BadClipId,
    BadLaneId,
    MediaNotInPool,
    ClipNotOnTimeline,
    LaneMissing,
    NoLaneKind,
    OutsideClip,
    NothingToDo,
}

/// Edits to apply as one history group. The first `quiet` steps leave the view
/// alone when they fail; a later failure publishes the rolled-back project.
#[derive(Debug)]
pub struct Plan {
    pub steps: Vec<Edit>,
    pub quiet: usize,
}

/// What an operation comes to.
#[derive(Debug)]
pub enum Planned {
    Ignored(Ignored),
    Run(Plan),
}

/// The contents of a [`Planned`].
pub enum PlannedView {
    Ignored(Ignored),
    Run { steps: Seq<EditView>, quiet: int },
}

impl View for Planned {
    type V = PlannedView;

    open spec fn view(&self) -> PlannedView {
        match *self {
            Planned::Ignored(why) => PlannedView::Ignored(why),
            Planned::Run(plan) => PlannedView::Run {
                steps: edit_views(plan.steps@),
                quiet: plan.quiet as int,
            },
        }
    }
}

/// Append one edit to a plan.
pub(crate) fn push_step(steps: &mut Vec<Edit>, edit: Edit)
    ensures
        edit_views(final(steps)@) == edit_views(old(steps)@).push(edit@),
        final(steps).len() == old(steps).len() + 1,
{
    let ghost was = edit_views(steps@);
    steps.push(edit);
    assert(edit_views(steps@) =~= was.push(edit@));
}

/// An empty list of edits.
pub(crate) fn no_steps() -> (r: Vec<Edit>)
    ensures
        edit_views(r@) == Seq::<EditView>::empty(),
        r.len() == 0,
{
    let r: Vec<Edit> = Vec::new();
    assert(edit_views(r@) =~= Seq::<EditView>::empty());
    r
}

// --- running a plan -------------------------------------------------------

/// What the runner of a history group does next.
#[derive(Clone, Copy, Debug, PartialEq, Eq, Structural)]
pub enum RunNext {
    /// Apply the next step.
    Step,
    /// Every step is applied: this part of the group is done, and the group is
    /// committed when it was the last part.
    Commit,
    /// Undo the whole group; `publish` says whether the view is shown again.
    RollBack { publish: bool },
}

/// What follows a step, `applied` saying whether the engine took it: a lane that
/// cannot be dropped stays, and any other refusal undoes the group.
pub open spec fn next_after(steps: Seq<EditView>, quiet: int, at: int, applied: bool) -> RunNext {
    if applied || steps[at] is DropLaneIfEmpty {
        if at + 1 == steps.len() {
            RunNext::Commit
        } else {
            RunNext::Step
        }
    } else {
        RunNext::RollBack { publish: at >= quiet }
    }
}

/// What follows step `at` of a plan.
pub fn after_step(plan: &Plan, at: usize, applied: bool) -> (r: RunNext)
    requires
        at < plan.steps.len(),
    ensures
        r == next_after(edit_views(plan.steps@), plan.quiet as int, at as int, applied),
        r == (if applied || plan.steps@[at as int] is DropLaneIfEmpty {
            if at + 1 == plan.steps.len() {
                RunNext::Commit
            } else {
                RunNext::Step
            }
        } else {
            RunNext::RollBack { publish: at >= plan.quiet }
        }),
{
    let tolerated: bool = match &plan.steps[at] {
        Edit::DropLaneIfEmpty { .. } => true,
        _ => false,
    };
    if applied || tolerated {
        if at == plan.steps.len() - 1 {
            RunNext::Commit
        } else {
            RunNext::Step
        }
    } else {
        RunNext::RollBack { publish: at >= plan.quiet }
    }
}

/// What follows edit `at` of `count` edits that are applied as one history group: a
/// refused one undoes them all and shows the view again.
pub fn after_command(count: usize, at: usize, applied: bool) -> (r: RunNext)
    requires
        at < count,
    ensures
        r == (if !applied {
            RunNext::RollBack { publish: true }
        } else if at + 1 == count {
            RunNext::Commit
        } else {
            RunNext::Step
        }),
{
    if !applied {
        RunNext::RollBack { publish: true }
    } else if at == count - 1 {
        RunNext::Commit
    } else {
        RunNext::Step
    }
}

/// What follows a part of a group that is planned in parts.
#[derive(Debug)]
pub enum PhaseNext {
    /// That was all: commit the group.
    Commit,
    /// Run this plan inside the group.
    Run(Plan),
    /// Undo the whole group; `publish` says whether the view is shown again.
    RollBack { publish: bool },
}

/// The contents of a [`PhaseNext`].
pub enum PhaseView {
    Commit,
    Run { steps: Seq<EditView>, quiet: int },
    RollBack { publish: bool },
}

impl View for PhaseNext {
    type V = PhaseView;

    open spec fn view(&self) -> PhaseView {
        match *self {
            PhaseNext::Commit => PhaseView::Commit,
            PhaseNext::Run(plan) => PhaseView::Run {
                steps: edit_views(plan.steps@),
                quiet: plan.quiet as int,
            },
            PhaseNext::RollBack { publish } => PhaseView::RollBack { publish },
        }
    }
}

/// How a group ended.
pub enum Ended {
    Committed,
    RolledBack { publish: bool },
}

/// Running a plan from step `at` on, inside a group that was opened at `start`: the
/// state it leaves and how it ends. `apply` is what the engine makes of a step, `None`
/// when it refuses it; undoing the group gives `start` back.
pub open spec fn run_from<S>(
    start: S,
    now: S,
    steps: Seq<EditView>,
    quiet: int,
    at: int,
    apply: spec_fn(S, EditView) -> Option<S>,
) -> (S, Ended)
    decreases steps.len() - at,
{
    if at < 0 || at >= steps.len() {
        (now, Ended::Committed)
    } else {
        let took = apply(now, steps[at]);
        let then_state = match took {
            Some(s) => s,
            None => now,
        };
        match next_after(steps, quiet, at, took is Some) {
            RunNext::Step => run_from(start, then_state, steps, quiet, at + 1, apply),
            RunNext::Commit => (then_state, Ended::Committed),
            RunNext::RollBack { publish } => (start, Ended::RolledBack { publish }),
        }
    }
}

/// The state after every step from `at` on, a lane that cannot be dropped staying.
pub open spec fn all_applied<S>(
    now: S,
    steps: Seq<EditView>,
    at: int,
    apply: spec_fn(S, EditView) -> Option<S>,
) -> S
    decreases steps.len() - at,
{
    if at < 0 || at >= steps.len() {
        now
    } else {
        let after = match apply(now, steps[at]) {
            Some(s) => s,
            None => now,
        };
        all_applied(after, steps, at + 1, apply)
    }
}

/// The engine refuses some step from `at` on, other than to drop a lane.
pub open spec fn refused<S>(
    now: S,
    steps: Seq<EditView>,
    at: int,
    apply: spec_fn(S, EditView) -> Option<S>,
) -> bool
    decreases steps.len() - at,
{
    if at < 0 || at >= steps.len() {
        false
    } else {
        match apply(now, steps[at]) {
            Some(s) => refused(s, steps, at + 1, apply),
            None => !(steps[at] is DropLaneIfEmpty) || refused(now, steps, at + 1, apply),
        }
    }
}

proof fn lemma_run_from<S>(
    start: S,
    now: S,
    steps: Seq<EditView>,
    quiet: int,
    at: int,
    apply: spec_fn(S, EditView) -> Option<S>,
)
    requires
        0 <= at,
    ensures
        run_from(start, now, steps, quiet, at, apply).1 is RolledBack == refused(
            now,
            steps,
            at,
            apply,
        ),
        refused(now, steps, at, apply) ==> run_from(start, now, steps, quiet, at, apply).0 == start,
        !refused(now, steps, at, apply) ==> run_from(start, now, steps, quiet, at, apply).0
            == all_applied(now, steps, at, apply),
    decreases steps.len() - at,
{
    if at < steps.len() {
        let took = apply(now, steps[at]);
        let after = match took {
            Some(s) => s,
            None => now,
        };
        lemma_run_from(start, after, steps, quiet, at + 1, apply);
        if at + 1 == steps.len() {
            reveal_with_fuel(all_applied, 2);
            reveal_with_fuel(refused, 2);
        }
    }
}

/// A plan is applied whole or not at all, whatever the engine makes of its steps: when
/// it refuses one, the project is as it was before the group, and otherwise every step
/// is applied.
pub proof fn law_plan_is_all_or_nothing<S>(
    start: S,
    steps: Seq<EditView>,
    quiet: int,
    apply: spec_fn(S, EditView) -> Option<S>,
)
    ensures
        refused(start, steps, 0, apply) ==> run_from(start, start, steps, quiet, 0, apply).0 == start
            && run_from(start, start, steps, quiet, 0, apply).1 is RolledBack,
        !refused(start, steps, 0, apply) ==> run_from(start, start, steps, quiet, 0, apply) == (
            all_applied(start, steps, 0, apply),
            Ended::Committed,
        ),
{
    lemma_run_from(start, start, steps, quiet, 0, apply);
}

// --- new lanes ------------------------------------------------------------

/// Prefix of a lane's name.
pub open spec fn prefix_of(kind: TrackKind) -> Seq<char> {
    match kind {
        TrackKind::Video => "V"@,
        TrackKind::Audio => "A"@,
        TrackKind::Text => "T"@,
        TrackKind::Sticker => "ST"@,
        TrackKind::Effect => "FX"@,
        TrackKind::Filter => "F"@,
        TrackKind::Adjustment => "ADJ"@,
    }
}

/// Prefix of a lane's name.
pub fn kind_prefix(kind: TrackKind) -> (r: &'static str)
    ensures
        r@ == prefix_of(kind),
{
    match kind {
        TrackKind::Video => "V",
        TrackKind::Audio => "A",
        TrackKind::Text => "T",
        TrackKind::Sticker => "ST",
        TrackKind::Effect => "FX",
        TrackKind::Filter => "F",
        TrackKind::Adjustment => "ADJ",
    }
}

/// Number of lanes of a kind.
pub open spec fn kind_count(lanes: Seq<Lane>, kind: TrackKind) -> nat
    decreases lanes.len(),
{
    if lanes.len() == 0 {
        0
    } else {
        kind_count(lanes.drop_last(), kind) + if lanes.last().kind == kind {
            1nat
        } else {
            0nat
        }
    }
}

/// Where in the stack a lane goes so that it shows at `row`: the list shows the
/// stack top first.
pub open spec fn stack_index(len: int, row: int) -> int {
    clamp(len - row, 0, len)
}

/// The edit that creates a lane of `kind` at `row`, named by kind and count,
/// after the plan already created `made` lanes, `alike` of them of that kind.
pub open spec fn new_lane(
    lanes: Seq<Lane>,
    made: nat,
    alike: nat,
    kind: TrackKind,
    row: int,
) -> EditView {
    EditView::AddTrack {
        kind,
        name: prefix_of(kind) + decimal(kind_count(lanes, kind) + alike + 1),
        index: stack_index((lanes.len() + made) as int, row),
    }
}

fn count_kind(lanes: &Vec<Lane>, kind: TrackKind) -> (r: usize)
    ensures
        r == kind_count(lanes@, kind),
        r <= lanes.len(),
{
    let mut n: usize = 0;
    let mut t: usize = 0;
    while t < lanes.len()
        invariant
            t <= lanes.len(),
            n <= t,
            n == kind_count(lanes@.take(t as int), kind),
        decreases lanes.len() - t,
    {
        assert(lanes@.take(t as int + 1).drop_last() =~= lanes@.take(t as int));
        if lanes[t].kind == kind {
            n += 1;
        }
        t += 1;
    }
    assert(lanes@.take(t as int) =~= lanes@);
    n
}

/// Plan a new lane of `kind` that shows at `drop_row`, after the same plan
/// created `made` lanes, `alike` of them of that kind.
pub fn create_track(project: &Project, made: u32, alike: u32, kind: TrackKind, drop_row: i64) -> (r:
    Edit)
    requires
        project.lanes.len() <= i32::MAX,
        project.lanes.len() + made <= usize::MAX,
    ensures
        r@ == new_lane(project.lanes@, made as nat, alike as nat, kind, drop_row as int),
{
    let len: i64 = project.lanes.len() as i64 + made as i64;
    let index: i64 = if drop_row < 0 {
        len
    } else if drop_row > len {
        0
    } else {
        len - drop_row
    };
    let count: u64 = count_kind(&project.lanes, kind) as u64 + alike as u64 + 1;
    let mut name: String = kind_prefix(kind).to_owned();
    push_decimal(&mut name, count);
    Edit::AddTrack { kind, name, index: index as usize }
}

/// A lane that shows at `row` is found there: after it is inserted, it is row
/// `row` from the top of a stack of one more lane, for every row of the list
/// and the one below it.
pub proof fn law_new_lane_shows_at_row(len: int, row: int)
    requires
        0 <= row <= len,
    ensures
        (len + 1) - 1 - stack_index(len, row) == row,
{
}

// --- content --------------------------------------------------------------

/// The edit that adds content to a lane at `start`.
pub open spec fn add_content(
    to: LaneRef,
    content: ClipSource,
    duration: int,
    start: int,
) -> EditView {
    match content {
        ClipSource::Media { media, source } => EditView::AddClip { to, media, source, start },
        ClipSource::Generated(generator) => EditView::AddGenerated {
            to,
            generator,
            start,
            duration: crate::num::max_int(duration, 1),
        },
    }
}

/// Re-issue content: media is added as it is, generated content at its length.
pub fn add_clip_content(to: LaneRef, content: &ClipSource, duration: i64, start: i64) -> (r: Edit)
    ensures
        r@ == add_content(to, *content, duration as int, start as int),
{
    match content {
        ClipSource::Media { media, source } => Edit::AddClip {
            to,
            media: *media,
            source: *source,
            start,
        },
        ClipSource::Generated(generator) => Edit::AddGenerated {
            to,
            generator: generator.clone(),
            start,
            duration: if duration < 1 {
                1
            } else {
                duration
            },
        },
    }
}

/// Re-issued content is the whole content: a title keeps its text and style, a shape
/// its fill and size, and a media clip its source window.
pub proof fn law_content_is_reissued_whole(to: LaneRef, content: ClipSource, duration: int, start: int)
    ensures
        match content {
            ClipSource::Media { media, source } => add_content(to, content, duration, start)
                == (EditView::AddClip { to, media, source, start }),
            ClipSource::Generated(g) => add_content(to, content, duration, start) matches EditView::AddGenerated {
                generator,
                ..
            } && generator == g,
        },
{
}

// --- what edits do to a lane ----------------------------------------------

/// A clip's place on a lane.
pub struct Slot {
    pub id: u64,
    pub start: int,
    pub duration: int,
}

/// The places of the clips of a lane.
pub open spec fn slots_of(clips: Seq<ProjectClip>) -> Seq<Slot> {
    clips.map_values(
        |c: ProjectClip| Slot { id: c.id, start: c.start as int, duration: c.duration as int },
    )
}

/// A slot after every clip from `from` on moved by `delta`.
pub open spec fn shift_slot(s: Slot, from: int, delta: int) -> Slot {
    if s.start >= from {
        Slot { start: s.start + delta, ..s }
    } else {
        s
    }
}

/// What [`Edit::ShiftClips`] does to the lane it names.
pub open spec fn shifted(lane: Seq<Slot>, from: int, delta: int) -> Seq<Slot> {
    lane.map_values(|s: Slot| shift_slot(s, from, delta))
}

/// A slot after the clip `id` got a new extent.
pub open spec fn extend_slot(s: Slot, id: u64, start: int, duration: int) -> Slot {
    if s.id == id {
        Slot { id, start, duration }
    } else {
        s
    }
}

/// What [`Edit::TrimClip`] does to the clip's lane.
pub open spec fn trimmed(lane: Seq<Slot>, id: u64, start: int, duration: int) -> Seq<Slot> {
    lane.map_values(|s: Slot| extend_slot(s, id, start, duration))
}

/// A slot after the clip `id` moved.
pub open spec fn move_slot(s: Slot, id: u64, start: int) -> Slot {
    if s.id == id {
        Slot { start, ..s }
    } else {
        s
    }
}

/// What [`Edit::MoveClip`] within a lane does to it.
pub open spec fn moved(lane: Seq<Slot>, id: u64, start: int) -> Seq<Slot> {
    lane.map_values(|s: Slot| move_slot(s, id, start))
}

/// What one edit of the lane `lane_id` does to it; edits of other lanes leave it
/// alone.
pub open spec fn lane_after(lane: Seq<Slot>, lane_id: u64, e: EditView) -> Seq<Slot> {
    match e {
        EditView::ShiftClips { lane: id, from, delta } => if id == lane_id {
            shifted(lane, from, delta)
        } else {
            lane
        },
        EditView::TrimClip { clip, start, duration } => trimmed(lane, clip, start, duration),
        EditView::MoveClip { clip, to, start } => if to == LaneRef::Id(lane_id) {
            moved(lane, clip, start)
        } else {
            lane
        },
        _ => lane,
    }
}

/// What a list of edits does to a lane.
pub open spec fn lane_after_all(lane: Seq<Slot>, lane_id: u64, steps: Seq<EditView>) -> Seq<Slot>
    decreases steps.len(),
{
    if steps.len() == 0 {
        lane
    } else {
        lane_after(lane_after_all(lane, lane_id, steps.drop_last()), lane_id, steps.last())
    }
}

/// No two slots overlap.
pub open spec fn apart(lane: Seq<Slot>) -> bool {
    forall|i: int, j: int|
        #![trigger lane[i], lane[j]]
        0 <= i < lane.len() && 0 <= j < lane.len() && i != j ==> lane[i].start + lane[i].duration
            <= lane[j].start || lane[j].start + lane[j].duration <= lane[i].start
}

/// No two slots have the same id.
pub open spec fn distinct_ids(lane: Seq<Slot>) -> bool {
    forall|i: int, j: int|
        #![trigger lane[i], lane[j]]
        0 <= i < j < lane.len() ==> lane[i].id != lane[j].id
}

/// Effects of one- and two-step plans.
pub proof fn lemma_two_steps(lane: Seq<Slot>, lane_id: u64, a: EditView, b: EditView)
    ensures
        lane_after_all(lane, lane_id, seq![a]) == lane_after(lane, lane_id, a),
        lane_after_all(lane, lane_id, seq![a, b]) == lane_after(
            lane_after(lane, lane_id, a),
            lane_id,
            b,
        ),
{
    reveal_with_fuel(lane_after_all, 3);
    assert(seq![a].drop_last() =~= Seq::<EditView>::empty());
    assert(seq![a, b].drop_last() =~= seq![a]);
}

/// Opening room at a tick that cuts through no clip keeps the clips apart and leaves
/// the opened span free, so that a clip of that length can land there.
pub proof fn law_opened_room_is_free(lane: Seq<Slot>, at: int, duration: int)
    requires
        apart(lane),
        duration >= 0,
        forall|i: int|
            0 <= i < lane.len() ==> (#[trigger] lane[i]).start >= at || lane[i].start
                + lane[i].duration <= at,
    ensures
        apart(shifted(lane, at, duration)),
        forall|i: int|
            0 <= i < lane.len() ==> (#[trigger] shifted(lane, at, duration)[i]).start >= at
                + duration || shifted(lane, at, duration)[i].start + shifted(
                lane,
                at,
                duration,
            )[i].duration <= at,
{
    let after = shifted(lane, at, duration);
    assert forall|i: int, j: int|
        #![trigger after[i], after[j]]
        0 <= i < after.len() && 0 <= j < after.len() && i != j implies after[i].start
        + after[i].duration <= after[j].start || after[j].start + after[j].duration
        <= after[i].start by {
        assert(lane[i].start >= at || lane[i].start + lane[i].duration <= at);
        assert(lane[j].start >= at || lane[j].start + lane[j].duration <= at);
        assert(lane[i].start + lane[i].duration <= lane[j].start || lane[j].start
            + lane[j].duration <= lane[i].start);
    }
    assert forall|i: int| 0 <= i < lane.len() implies (#[trigger] after[i]).start >= at + duration
        || after[i].start + after[i].duration <= at by {
        assert(lane[i].start >= at || lane[i].start + lane[i].duration <= at);
    }
}

/// Closing the gap that a clip left keeps the other clips apart: the first one that
/// moves comes to stand where the clip started.
pub proof fn law_closed_gap_keeps_apart(lane: Seq<Slot>, k: int)
    requires
        apart(lane),
        0 <= k < lane.len(),
        forall|i: int| 0 <= i < lane.len() ==> (#[trigger] lane[i]).duration >= 1,
    ensures
        apart(shifted(lane.remove(k), lane[k].start, -lane[k].duration)),
        forall|i: int|
            0 <= i < lane.remove(k).len() && (#[trigger] lane.remove(k)[i]).start >= lane[k].start
                ==> lane.remove(k)[i].start - lane[k].duration >= lane[k].start,
{
    let rest = lane.remove(k);
    let (start, duration) = (lane[k].start, lane[k].duration);
    let after = shifted(rest, start, -duration);
    assert forall|i: int| 0 <= i < rest.len() implies ((#[trigger] rest[i]).start >= start
        + duration || rest[i].start + rest[i].duration <= start) && rest[i].duration >= 1 by {
        let x = if i < k {
            i
        } else {
            i + 1
        };
        assert(rest[i] == lane[x]);
        assert(lane[x].start + lane[x].duration <= lane[k].start || lane[k].start
            + lane[k].duration <= lane[x].start);
        assert(lane[x].duration >= 1);
    }
    assert forall|i: int, j: int|
        #![trigger after[i], after[j]]
        0 <= i < after.len() && 0 <= j < after.len() && i != j implies after[i].start
        + after[i].duration <= after[j].start || after[j].start + after[j].duration
        <= after[i].start by {
        let x = if i < k {
            i
        } else {
            i + 1
        };
        let y = if j < k {
            j
        } else {
            j + 1
        };
        assert(rest[i] == lane[x] && rest[j] == lane[y]);
        assert(lane[x].start + lane[x].duration <= lane[y].start || lane[y].start
            + lane[y].duration <= lane[x].start);
        assert(rest[i].start >= start + duration || rest[i].start + rest[i].duration <= start);
        assert(rest[j].start >= start + duration || rest[j].start + rest[j].duration <= start);
    }
}

} // verus!
