//! Dropping and moving clips, each planned as one history group.

use vstd::prelude::*;

use crate::edits::{
    all_applied, create_track, edit_views, new_lane, no_steps, push_step, ClipRef, Edit, EditView, Ignored,
    LaneRef, PhaseNext, PhaseView, Plan, Planned, PlannedView,
};
use crate::find::{last_where, lemma_last_found, lemma_last_none};
use crate::fit::{first_fit, first_fit_start, gap_free, lemma_first_fit, span_free};
use crate::model::TrackKind;
use crate::num::{clamped64, max_int};
use crate::project::{
    content_end, lane_end, lane_wf, lanes_wf, lemma_timeline_end_covers, resample, resampled,
    timeline_end, valid_rate, Generator, Lane, MediaSource, Project, SourceRange,
};
use crate::ripple::{push_reorder, reorder_steps};
use crate::text::{parse_raw_id, raw_id};

verus! {

// --- landing lanes --------------------------------------------------------

/// The lane that `track` names, when it exists and is of `kind`.
pub open spec fn named_lane(p: Project, track: Seq<char>, kind: TrackKind) -> Option<int> {
    match raw_id(track) {
        None => None,
        Some(id) => match p.lane_at(id) {
            Some(t) => if p.lanes@[t].kind == kind {
                Some(t)
            } else {
                None
            },
            None => None,
        },
    }
}

/// The lane that `track` names, when it exists and is of `kind`.
pub fn lane_of_kind(project: &Project, track: &str, kind: TrackKind) -> (r: Option<usize>)
    ensures
        match r {
            Some(t) => t < project.lanes.len() && named_lane(*project, track@, kind) == Some(
                t as int,
            ),
            None => named_lane(*project, track@, kind) is None,
        },
{
    match parse_raw_id(track) {
        None => None,
        Some(id) => match project.find_lane(id) {
            Some(t) => if project.lanes[t].kind == kind {
                Some(t)
            } else {
                None
            },
            None => None,
        },
    }
}

/// Ticks at which content of `duration` can start without leaving `i64`.
pub open spec fn room_for(p: Project, start: int, duration: int) -> bool {
    &&& lanes_wf(p.lanes@)
    &&& p.lanes.len() <= i32::MAX
    &&& start + duration <= i64::MAX
    &&& timeline_end(p.lanes@) + duration <= i64::MAX
}

/// Where a drop of `duration` at `desired` lands: in the first gap of an
/// existing lane, as asked on a new one.
pub open spec fn landing_start(
    p: Project,
    lane: Option<int>,
    desired: int,
    duration: int,
) -> int {
    match lane {
        Some(t) => first_fit(p.lanes@[t].clips@, desired, duration),
        None => desired,
    }
}

/// The lane of a landing, and the step that makes it when there is none.
pub open spec fn landing_lane(p: Project, lane: Option<int>, kind: TrackKind, row: int) -> (
    LaneRef,
    Seq<EditView>,
) {
    match lane {
        Some(t) => (LaneRef::Id(p.lanes@[t].id), Seq::empty()),
        None => (LaneRef::Step(0), seq![new_lane(p.lanes@, 0, 0, kind, row)]),
    }
}

/// Plan the landing: the lane reference, the start, and the step that makes the
/// lane when there is none.
fn plan_landing(
    project: &Project,
    lane: Option<usize>,
    kind: TrackKind,
    row: i64,
    desired: i64,
    duration: i64,
) -> (r: (LaneRef, i64, Vec<Edit>))
    requires
        room_for(*project, desired as int, duration as int),
        duration >= 1,
        lane matches Some(t) ==> t < project.lanes.len(),
    ensures
        ({
            let at = match lane {
                Some(t) => Some(t as int),
                None => None,
            };
            &&& r.0 == landing_lane(*project, at, kind, row as int).0
            &&& r.1 == landing_start(*project, at, desired as int, duration as int)
            &&& edit_views(r.2@) == landing_lane(*project, at, kind, row as int).1
            &&& r.2.len() == (if lane is Some {
                0int
            } else {
                1int
            })
        }),
{
    let mut steps = no_steps();
    match lane {
        Some(t) => {
            proof {
                lemma_timeline_end_covers(project.lanes@);
                assert(lane_wf(project.lanes@[t as int].clips@));
                assert(lane_end(project.lanes@[t as int].clips@) <= timeline_end(project.lanes@));
            }
            let start: i64 = first_fit_start(&project.lanes[t].clips, desired, duration);
            proof {
                lemma_first_fit(
                    project.lanes@[t as int].clips@,
                    desired as int,
                    duration as int,
                    start as int,
                );
            }
            (LaneRef::Id(project.lanes[t].id), start, steps)
        },
        None => {
            push_step(&mut steps, create_track(project, 0, 0, kind, row));
            assert(edit_views(steps@) =~= seq![new_lane(project.lanes@, 0, 0, kind, row as int)]);
            (LaneRef::Step(0), desired, steps)
        },
    }
}

// --- library drops --------------------------------------------------------

/// A planned drop. The last step creates the clip at `start`; with `companion`
/// set, [`add_linked_audio`] plans the rest of the group once it is applied.
#[derive(Debug)]
pub struct DropPlan {
    pub plan: Plan,
    pub media: u64,
    pub source: SourceRange,
    pub start: i64,
    pub duration: i64,
    pub companion: bool,
}

/// The contents of a drop.
pub struct DropView {
    pub steps: Seq<EditView>,
    pub quiet: int,
    pub media: u64,
    pub source: SourceRange,
    pub start: int,
    pub duration: int,
    pub companion: bool,
}

impl View for DropPlan {
    type V = DropView;

    open spec fn view(&self) -> DropView {
        DropView {
            steps: edit_views(self.plan.steps@),
            quiet: self.plan.quiet as int,
            media: self.media,
            source: self.source,
            start: self.start as int,
            duration: self.duration as int,
            companion: self.companion,
        }
    }
}

/// The whole of a media.
pub open spec fn full_range(m: MediaSource) -> SourceRange {
    SourceRange { start: 0, duration: m.duration.value, rate: m.duration.rate }
}

/// Length of a media on the timeline, at least one tick.
pub open spec fn media_ticks(p: Project, m: MediaSource) -> int {
    max_int(
        clamped64(resampled(m.duration.value as int, m.duration.rate, p.frame_rate)),
        1,
    )
}

/// What dropping media `m` with id `id` comes to.
pub open spec fn drop_of(
    p: Project,
    id: u64,
    m: MediaSource,
    track: Seq<char>,
    start_tick: int,
    drop_row: int,
    insert: bool,
    linkage: bool,
) -> DropView {
    let kind = if m.audio_only {
        TrackKind::Audio
    } else {
        TrackKind::Video
    };
    let source = full_range(m);
    let duration = media_ticks(p, m);
    let desired = max_int(start_tick, 0);
    let lane = named_lane(p, track, kind);
    let companion = linkage && !m.audio_only && m.has_audio;
    if insert && !m.audio_only && lane is Some {
        DropView {
            steps: seq![
                EditView::RippleInsert {
                    lane: p.lanes@[lane->0].id,
                    media: id,
                    source,
                    at: desired,
                },
            ],
            quiet: 0,
            media: id,
            source,
            start: desired,
            duration,
            companion,
        }
    } else {
        let (to, make) = landing_lane(p, lane, kind, drop_row);
        let start = landing_start(p, lane, desired, duration);
        DropView {
            steps: make.push(EditView::AddClip { to, media: id, source, start }),
            quiet: make.len() as int,
            media: id,
            source,
            start,
            duration,
            companion,
        }
    }
}

/// What dropping the media that `media` names comes to.
pub open spec fn dropped(
    p: Project,
    media: Seq<char>,
    track: Seq<char>,
    start_tick: int,
    drop_row: int,
    insert: bool,
    linkage: bool,
) -> Result<DropView, Ignored> {
    match raw_id(media) {
        None => Err(Ignored::BadMediaId),
        Some(id) => match p.media_with(id) {
            None => Err(Ignored::MediaNotInPool),
            Some(m) => Ok(drop_of(p, id, m, track, start_tick, drop_row, insert, linkage)),
        },
    }
}

/// Plan dropping a library tile: on an existing lane of its kind in the first gap
/// from the drop on, else on a new lane at the drop row; with the magnet's
/// `insert`, a video opens room on its lane instead. With linkage on, a video
/// with sound also wants an audio companion.
pub fn add_clip(
    project: &Project,
    media: &str,
    track: &str,
    start_tick: i64,
    drop_row: i64,
    insert: bool,
    linkage: bool,
) -> (r: Result<DropPlan, Ignored>)
    requires
        valid_rate(project.frame_rate),
        raw_id(media@) matches Some(id) ==> (project.media_with(id) matches Some(m) ==> valid_rate(
            m.duration.rate,
        ) && room_for(*project, max_int(start_tick as int, 0), media_ticks(*project, m))),
    ensures
        match dropped(
            *project,
            media@,
            track@,
            start_tick as int,
            drop_row as int,
            insert,
            linkage,
        ) {
            Err(why) => r == Err::<DropPlan, Ignored>(why),
            Ok(drop) => r matches Ok(plan) && plan@ == drop,
        },
{
    let id: u64 = match parse_raw_id(media) {
        Some(id) => id,
        None => {
            return Err(Ignored::BadMediaId);
        },
    };
    let at: usize = match project.find_media(id) {
        Some(m) => m,
        None => {
            return Err(Ignored::MediaNotInPool);
        },
    };
    let m = &project.media[at];
    assert(project.media_with(id) == Some(*m));
    let kind = if m.audio_only {
        TrackKind::Audio
    } else {
        TrackKind::Video
    };
    let source = SourceRange { start: 0, duration: m.duration.value, rate: m.duration.rate };
    let ticks: i64 = resample(m.duration.value, m.duration.rate, project.frame_rate);
    let duration: i64 = if ticks < 1 {
        1
    } else {
        ticks
    };
    let companion: bool = linkage && !m.audio_only && m.has_audio;
    let desired: i64 = if start_tick < 0 {
        0
    } else {
        start_tick
    };
    let lane = lane_of_kind(project, track, kind);
    if insert && !m.audio_only {
        match lane {
            Some(t) => {
                let mut steps = no_steps();
                push_step(
                    &mut steps,
                    Edit::RippleInsert { lane: project.lanes[t].id, media: id, source, at: desired },
                );
                assert(edit_views(steps@) =~= seq![
                    EditView::RippleInsert {
                        lane: project.lanes@[t as int].id,
                        media: id,
                        source,
                        at: desired as int,
                    },
                ]);
                return Ok(
                    DropPlan {
                        plan: Plan { steps, quiet: 0 },
                        media: id,
                        source,
                        start: desired,
                        duration,
                        companion,
                    },
                );
            },
            None => {},
        }
    }
    let (to, start, mut steps) = plan_landing(project, lane, kind, drop_row, desired, duration);
    let quiet: usize = steps.len();
    push_step(&mut steps, Edit::AddClip { to, media: id, source, start });
    Ok(DropPlan { plan: Plan { steps, quiet }, media: id, source, start, duration, companion })
}

/// An unlocked audio lane with room for the span.
pub open spec fn companion_lane(start: int, duration: int) -> spec_fn(Lane) -> bool {
    |l: Lane| l.kind == TrackKind::Audio && !l.locked && gap_free(l.clips@, start, duration)
}

/// The steps that land an audio companion and link it: on the topmost unlocked
/// audio lane with room, else on a new bottom lane.
pub open spec fn companion_steps(
    p: Project,
    video_clip: u64,
    media: u64,
    source: SourceRange,
    start: int,
    duration: int,
) -> Seq<EditView> {
    match last_where(p.lanes@, companion_lane(start, duration)) {
        Some(t) => seq![
            EditView::AddClip { to: LaneRef::Id(p.lanes@[t].id), media, source, start },
            EditView::LinkClips { clips: seq![ClipRef::Id(video_clip), ClipRef::Step(0)] },
        ],
        None => seq![
            new_lane(p.lanes@, 0, 0, TrackKind::Audio, p.lanes@.len() as int),
            EditView::AddClip { to: LaneRef::Step(0), media, source, start },
            EditView::LinkClips { clips: seq![ClipRef::Id(video_clip), ClipRef::Step(1)] },
        ],
    }
}

/// Plan the audio companion of a drop on the project that holds the video clip:
/// the same source at the same tick, linked to it.
pub fn add_linked_audio(
    project: &Project,
    video_clip: u64,
    media: u64,
    source: SourceRange,
    start_tick: i64,
    duration_ticks: i64,
) -> (r: Vec<Edit>)
    requires
        lanes_wf(project.lanes@),
        project.lanes.len() <= i32::MAX,
        i64::MIN <= start_tick + duration_ticks <= i64::MAX,
    ensures
        edit_views(r@) == companion_steps(
            *project,
            video_clip,
            media,
            source,
            start_tick as int,
            duration_ticks as int,
        ),
{
    let ghost p = companion_lane(start_tick as int, duration_ticks as int);
    let ghost goal = companion_steps(
        *project,
        video_clip,
        media,
        source,
        start_tick as int,
        duration_ticks as int,
    );
    let mut steps = no_steps();
    let mut t: usize = project.lanes.len();
    while t > 0
        invariant
            t <= project.lanes.len(),
            lanes_wf(project.lanes@),
            i64::MIN <= start_tick + duration_ticks <= i64::MAX,
            p == companion_lane(start_tick as int, duration_ticks as int),
            goal == companion_steps(
                *project,
                video_clip,
                media,
                source,
                start_tick as int,
                duration_ticks as int,
            ),
            steps.len() == 0,
            edit_views(steps@) == Seq::<EditView>::empty(),
            forall|j: int| t <= j < project.lanes.len() ==> !p(#[trigger] project.lanes@[j]),
        decreases t,
    {
        t -= 1;
        let lane = &project.lanes[t];
        assert(lane_wf(project.lanes@[t as int].clips@));
        if lane.kind == TrackKind::Audio && !lane.locked && span_free(
            &lane.clips,
            start_tick,
            duration_ticks,
        ) {
            proof {
                lemma_last_found(project.lanes@, p, t as int);
            }
            push_step(
                &mut steps,
                Edit::AddClip { to: LaneRef::Id(lane.id), media, source, start: start_tick },
            );
            push_step(&mut steps, link_pair(ClipRef::Id(video_clip), ClipRef::Step(0)));
            assert(edit_views(steps@) =~= goal);
            return steps;
        }
    }
    proof {
        lemma_last_none(project.lanes@, p);
    }
    let bottom: i64 = project.lanes.len() as i64;
    push_step(&mut steps, create_track(project, 0, 0, TrackKind::Audio, bottom));
    push_step(&mut steps, Edit::AddClip { to: LaneRef::Step(0), media, source, start: start_tick });
    push_step(&mut steps, link_pair(ClipRef::Id(video_clip), ClipRef::Step(1)));
    assert(edit_views(steps@) =~= goal);
    steps
}

fn link_pair(a: ClipRef, b: ClipRef) -> (r: Edit)
    ensures
        r@ == (EditView::LinkClips { clips: seq![a, b] }),
{
    let mut clips: Vec<ClipRef> = Vec::new();
    clips.push(a);
    clips.push(b);
    assert(clips@ =~= seq![a, b]);
    Edit::LinkClips { clips }
}

impl DropPlan {
    /// What follows the plan of a drop, once its steps are applied and its last one
    /// made `clip`: the companion where one is wanted, planned on the project that
    /// holds the clip. Without the clip there is nothing to link, and the drop is
    /// undone.
    pub fn after_landing(&self, project: &Project, clip: Option<u64>) -> (r: PhaseNext)
        requires
            lanes_wf(project.lanes@),
            project.lanes.len() <= i32::MAX,
            i64::MIN <= self.start + self.duration <= i64::MAX,
        ensures
            r@ == match clip {
                None => PhaseView::RollBack { publish: true },
                Some(id) => if self.companion {
                    PhaseView::Run {
                        steps: companion_steps(
                            *project,
                            id,
                            self.media,
                            self.source,
                            self.start as int,
                            self.duration as int,
                        ),
                        quiet: 0,
                    }
                } else {
                    PhaseView::Commit
                },
            },
    {
        match clip {
            None => PhaseNext::RollBack { publish: true },
            Some(id) => {
                if self.companion {
                    let steps = add_linked_audio(
                        project,
                        id,
                        self.media,
                        self.source,
                        self.start,
                        self.duration,
                    );
                    PhaseNext::Run(Plan { steps, quiet: 0 })
                } else {
                    PhaseNext::Commit
                }
            },
        }
    }
}

/// What dropping generated content comes to.
pub open spec fn generated_drop(
    p: Project,
    generator: Generator,
    kind: TrackKind,
    track: Seq<char>,
    start_tick: int,
    duration_ticks: int,
    drop_row: int,
) -> PlannedView {
    let lane = named_lane(p, track, kind);
    let duration = max_int(duration_ticks, 1);
    let (to, make) = landing_lane(p, lane, kind, drop_row);
    let start = landing_start(p, lane, max_int(start_tick, 0), duration);
    PlannedView::Run {
        steps: make.push(EditView::AddGenerated { to, generator, start, duration }),
        quiet: make.len() as int,
    }
}

/// Plan dropping generated content; `lane_kind` is the kind of lane it goes on,
/// if there is one.
pub fn add_generated(
    project: &Project,
    generator: Generator,
    lane_kind: Option<TrackKind>,
    track: &str,
    start_tick: i64,
    duration_ticks: i64,
    drop_row: i64,
) -> (r: Planned)
    requires
        room_for(*project, max_int(start_tick as int, 0), max_int(duration_ticks as int, 1)),
    ensures
        match lane_kind {
            None => r@ == PlannedView::Ignored(Ignored::NoLaneKind),
            Some(kind) => r@ == generated_drop(
                *project,
                generator,
                kind,
                track@,
                start_tick as int,
                duration_ticks as int,
                drop_row as int,
            ),
        },
{
    let kind = match lane_kind {
        Some(kind) => kind,
        None => {
            return Planned::Ignored(Ignored::NoLaneKind);
        },
    };
    let desired: i64 = if start_tick < 0 {
        0
    } else {
        start_tick
    };
    let duration: i64 = if duration_ticks < 1 {
        1
    } else {
        duration_ticks
    };
    let lane = lane_of_kind(project, track, kind);
    let (to, start, mut steps) = plan_landing(project, lane, kind, drop_row, desired, duration);
    let quiet: usize = steps.len();
    push_step(&mut steps, Edit::AddGenerated { to, generator, start, duration });
    Planned::Run(Plan { steps, quiet })
}

// --- moving one clip ------------------------------------------------------

/// What moving a clip comes to.
pub open spec fn move_of(
    p: Project,
    clip: u64,
    track: Seq<char>,
    insert_row: int,
    start_tick: int,
    insert: bool,
    main_magnet: bool,
) -> PlannedView {
    let t = p.lane_of_clip(clip)->0;
    let from = p.lanes@[t];
    let c = p.clip_with(clip)->0;
    let at = max_int(start_tick, 0);
    let leaves_main = main_magnet && p.lane_of_clip(clip) == p.main_lane();
    if insert {
        match raw_id(track) {
            None => PlannedView::Ignored(Ignored::BadLaneId),
            Some(to) => PlannedView::Run {
                steps: if to == from.id {
                    reorder_steps(
                        to,
                        clip,
                        c.start as int,
                        c.duration as int,
                        lane_end(from.clips@),
                        at,
                    )
                } else {
                    seq![
                        EditView::ShiftClips { lane: to, from: at, delta: c.duration as int },
                        EditView::MoveClip { clip, to: LaneRef::Id(to), start: at },
                        EditView::DropLaneIfEmpty { lane: from.id },
                    ]
                },
                quiet: 0,
            },
        }
    } else {
        let (to, make) = match raw_id(track) {
            Some(id) => (LaneRef::Id(id), Seq::empty()),
            None => (LaneRef::Step(0), seq![new_lane(p.lanes@, 0, 0, from.kind, insert_row)]),
        };
        let go = make.push(EditView::MoveClip { clip, to, start: at });
        let close = if leaves_main {
            go.push(
                EditView::ShiftClips {
                    lane: from.id,
                    from: c.start as int,
                    delta: -(c.duration as int),
                },
            )
        } else {
            go
        };
        PlannedView::Run {
            steps: if to == LaneRef::Id(from.id) {
                go
            } else {
                close.push(EditView::DropLaneIfEmpty { lane: from.id })
            },
            quiet: make.len() as int,
        }
    }
}

/// What moving the clip that `text` names comes to.
pub open spec fn moved_clip(
    p: Project,
    text: Seq<char>,
    track: Seq<char>,
    insert_row: int,
    start_tick: int,
    insert: bool,
    main_magnet: bool,
) -> PlannedView {
    match raw_id(text) {
        None => PlannedView::Ignored(Ignored::BadClipId),
        Some(id) => match p.lane_of_clip(id) {
            None => PlannedView::Ignored(Ignored::ClipNotOnTimeline),
            Some(_) => move_of(p, id, track, insert_row, start_tick, insert, main_magnet),
        },
    }
}

/// Plan moving a dragged clip to where it landed: an existing lane, or a new lane
/// of its kind at `insert_row` when `track` names none.
///
/// A move to another lane drops the source lane when it empties. With the magnet
/// on, a move off the main lane closes the gap it leaves; `insert` makes the
/// landing an insertion.
pub fn move_clip(
    project: &Project,
    clip: &str,
    track: &str,
    insert_row: i64,
    start_tick: i64,
    insert: bool,
    main_magnet: bool,
) -> (r: Planned)
    requires
        lanes_wf(project.lanes@),
        project.lanes.len() <= i32::MAX,
    ensures
        r@ == moved_clip(
            *project,
            clip@,
            track@,
            insert_row as int,
            start_tick as int,
            insert,
            main_magnet,
        ),
{
    let id: u64 = match parse_raw_id(clip) {
        Some(id) => id,
        None => {
            return Planned::Ignored(Ignored::BadClipId);
        },
    };
    let (t, c) = match project.find_clip(id) {
        Some(found) => found,
        None => {
            return Planned::Ignored(Ignored::ClipNotOnTimeline);
        },
    };
    let ghost goal = move_of(
        *project,
        id,
        track@,
        insert_row as int,
        start_tick as int,
        insert,
        main_magnet,
    );
    let from = &project.lanes[t];
    let placed = &from.clips[c];
    proof {
        assert(lane_wf(project.lanes@[t as int].clips@));
        assert(placed.duration >= 1) by {
            assert(project.lanes@[t as int].clips@[c as int].duration >= 1);
        }
    }
    // Decided on the project before the move: a new lane below the stack would
    // become the bottom video lane.
    let leaves_main: bool = main_magnet && match project.main_video_track() {
        Some(m) => m == t,
        None => false,
    };
    let at: i64 = if start_tick < 0 {
        0
    } else {
        start_tick
    };
    let named: Option<u64> = parse_raw_id(track);
    let mut steps = no_steps();
    if insert {
        let to: u64 = match named {
            Some(to) => to,
            None => {
                return Planned::Ignored(Ignored::BadLaneId);
            },
        };
        if to == from.id {
            let park: i64 = content_end(&from.clips);
            push_reorder(&mut steps, to, id, placed.start, placed.duration, park, at);
            assert(edit_views(steps@) =~= goal->steps);
        } else {
            push_step(&mut steps, Edit::ShiftClips { lane: to, from: at, delta: placed.duration });
            push_step(&mut steps, Edit::MoveClip { clip: id, to: LaneRef::Id(to), start: at });
            push_step(&mut steps, Edit::DropLaneIfEmpty { lane: from.id });
            assert(edit_views(steps@) =~= goal->steps);
        }
        return Planned::Run(Plan { steps, quiet: 0 });
    }
    let to = match named {
        Some(lane) => LaneRef::Id(lane),
        None => {
            push_step(&mut steps, create_track(project, 0, 0, from.kind, insert_row));
            LaneRef::Step(0)
        },
    };
    let quiet: usize = steps.len();
    push_step(&mut steps, Edit::MoveClip { clip: id, to, start: at });
    let stays: bool = match named {
        Some(lane) => lane == from.id,
        None => false,
    };
    if !stays {
        if leaves_main {
            push_step(
                &mut steps,
                Edit::ShiftClips { lane: from.id, from: placed.start, delta: -placed.duration },
            );
        }
        push_step(&mut steps, Edit::DropLaneIfEmpty { lane: from.id });
    }
    assert(edit_views(steps@) =~= goal->steps);
    Planned::Run(Plan { steps, quiet })
}

// --- what a move does -----------------------------------------------------

/// A timeline as moves see it: for each lane, the start and the length of each clip.
pub type Board = Map<u64, Map<u64, (int, int)>>;

/// The lane that the clip is on.
pub open spec fn lane_with(b: Board, clip: u64) -> u64 {
    choose|l: u64| #[trigger] b.contains_key(l) && b[l].contains_key(clip)
}

/// The clip is on this lane and on no other.
pub open spec fn only_on(b: Board, clip: u64, lane: u64) -> bool {
    &&& b.contains_key(lane) && b[lane].contains_key(clip)
    &&& forall|l: u64| #[trigger] b.contains_key(l) && b[l].contains_key(clip) ==> l == lane
}

/// The lane with every clip from `from` on moved by `delta`.
pub open spec fn lane_shifted(lane: Map<u64, (int, int)>, from: int, delta: int) -> Map<
    u64,
    (int, int),
> {
    lane.map_values(
        |c: (int, int)|
            if c.0 >= from {
                (c.0 + delta, c.1)
            } else {
                c
            },
    )
}

/// What a step that the engine takes does to the timeline, of the steps that move
/// clips between known lanes; others leave it alone.
pub open spec fn board_after(b: Board, e: EditView) -> Board {
    match e {
        EditView::MoveClip { clip, to: LaneRef::Id(to), start } => {
            let from = lane_with(b, clip);
            let left = b.insert(from, b[from].remove(clip));
            left.insert(to, left[to].insert(clip, (start, b[from][clip].1)))
        },
        EditView::ShiftClips { lane, from, delta } => b.insert(
            lane,
            lane_shifted(b[lane], from, delta),
        ),
        EditView::DropLaneIfEmpty { lane } => if b[lane].dom() =~= Set::<u64>::empty() {
            b.remove(lane)
        } else {
            b
        },
        _ => b,
    }
}

/// An engine that takes every step.
pub open spec fn takes_all() -> spec_fn(Board, EditView) -> Option<Board> {
    |b: Board, e: EditView| Some(board_after(b, e))
}

/// The steps that take a clip off the main lane to the lane `to`.
pub open spec fn leave_steps(clip: u64, from: u64, to: u64, start: int, duration: int, at: int) -> Seq<
    EditView,
> {
    seq![
        EditView::MoveClip { clip, to: LaneRef::Id(to), start: at },
        EditView::ShiftClips { lane: from, from: start, delta: -duration },
        EditView::DropLaneIfEmpty { lane: from },
    ]
}

/// A move off the main lane to another lane, with the magnet on, plans
/// [`leave_steps`], all of them loud.
pub proof fn law_move_off_main_plan(
    p: Project,
    clip: u64,
    track: Seq<char>,
    to: u64,
    insert_row: int,
    start_tick: int,
)
    requires
        p.lane_of_clip(clip) is Some,
        p.lane_of_clip(clip) == p.main_lane(),
        raw_id(track) == Some(to),
        to != p.lanes@[p.lane_of_clip(clip)->0].id,
    ensures
        move_of(p, clip, track, insert_row, start_tick, false, true) == (PlannedView::Run {
            steps: leave_steps(
                clip,
                p.lanes@[p.lane_of_clip(clip)->0].id,
                to,
                p.clip_with(clip)->0.start as int,
                p.clip_with(clip)->0.duration as int,
                max_int(start_tick, 0),
            ),
            quiet: 0,
        }),
{
    let from = p.lanes@[p.lane_of_clip(clip)->0].id;
    let c = p.clip_with(clip)->0;
    assert(move_of(p, clip, track, insert_row, start_tick, false, true)->steps =~= leave_steps(
        clip,
        from,
        to,
        c.start as int,
        c.duration as int,
        max_int(start_tick, 0),
    ));
}

/// What the steps of a move off the main lane come to: the clip stands on the other
/// lane where it was dropped, with its length kept; what started at or behind it on the
/// main lane closes up by that length, and the rest stays; the main lane goes when it
/// empties; no other lane changes.
pub proof fn law_move_off_main_effect(
    b: Board,
    clip: u64,
    from: u64,
    to: u64,
    start: int,
    duration: int,
    at: int,
)
    requires
        from != to,
        b.contains_key(to),
        only_on(b, clip, from),
        b[from][clip] == (start, duration),
    ensures
        ({
            let end = all_applied(
                b,
                leave_steps(clip, from, to, start, duration, at),
                0,
                takes_all(),
            );
            let rest = b[from].remove(clip);
            &&& end.contains_key(to)
            &&& end[to] == b[to].insert(clip, (at, duration))
            &&& end.contains_key(from) == !(rest.dom() =~= Set::<u64>::empty())
            &&& end.contains_key(from) ==> end[from] == lane_shifted(rest, start, -duration)
            &&& forall|l: u64|
                l != from && l != to ==> #[trigger] end.contains_key(l) == b.contains_key(l)
                    && end[l] == b[l]
        }),
{
    let steps = leave_steps(clip, from, to, start, duration, at);
    let b1 = board_after(b, steps[0]);
    let b2 = board_after(b1, steps[1]);
    let b3 = board_after(b2, steps[2]);
    reveal_with_fuel(all_applied, 4);
    assert(b.contains_key(from) && b[from].contains_key(clip));
    assert(lane_with(b, clip) == from) by {
        let l = lane_with(b, clip);
        assert(b.contains_key(l) && b[l].contains_key(clip));
    }
    assert(all_applied(b, steps, 0, takes_all()) == b3);
    let rest = b[from].remove(clip);
    assert(b1[from] == rest);
    assert(b2[from] == lane_shifted(rest, start, -duration));
    assert(lane_shifted(rest, start, -duration).dom() =~= rest.dom());
}

} // verus!
