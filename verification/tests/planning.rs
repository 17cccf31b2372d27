use cutlass_ui::batch::{move_group, remove_clips, split_clip, unlink_clips, GroupMove};
use cutlass_ui::clip_edits::{
    audio_snapshot, audio_targets, clip_param_value, duck_under_voice, generated_clips,
    generator_from_key, keyframes_at, linked_targets, param_slot, parse_marker_color, point_index,
    preset_at, remove_keyframes_at, replace_curve_point, resized_shape, retime_keyframes,
    speed_choice, speed_request, track_flag_from_key, writes_keyframe, ClipParam, FreshLook, KeyframeEdit,
    MarkerColor, ParamKey, ParamValue, SpeedChoice, TrackFlag,
};
use cutlass_ui::clipboard::{
    duplicate_clips, landed_lanes, paste, paste_lanes, paste_phase, snapshot_block,
};
use cutlass_ui::audio::{Easing, Keyframe, Param};
use cutlass_ui::editor::EditorState;
use cutlass_ui::edits::{
    after_command, after_step, ClipRef, Edit, Ignored, LaneRef, PhaseNext, Plan, Planned, RunNext,
};
use cutlass_ui::fit::{block_fit_dx, first_fit_start, nearest_boundary, span_free, WantedSpan};
use cutlass_ui::inspector::{TextAlignH, TextAlignV, TextCase, TextStyle};
use cutlass_ui::model::{Color, MediaTime, Rational, TrackKind, TransformBits};
use cutlass_ui::moves::{add_clip, add_generated, add_linked_audio, move_clip};
use cutlass_ui::project::{
    resample, Animation, ClipSound, ClipSource, Generator, Lane, MediaSource, PairKeyframe,
    Project, ProjectClip, Shape, SourceRange,
};

const FPS_24: Rational = Rational { num: 24, den: 1 };

fn still() -> TransformBits {
    TransformBits {
        position_x: 0,
        position_y: 0,
        anchor_x: 0,
        anchor_y: 0,
        scale: 1.0f32.to_bits(),
        rotation: 0,
        opacity: 1.0f32.to_bits(),
    }
}

fn sound() -> ClipSound {
    ClipSound {
        silent: false,
        retimed: false,
        reversed: false,
        pitch_bits: 1.0f32.to_bits(),
        speed_curve: None,
        volume: Param::Constant(1.0f32.to_bits()),
        fade_in: 0,
        fade_out: 0,
    }
}

fn unanimated() -> Animation {
    Animation {
        position: Vec::new(),
        anchor: Vec::new(),
        scale: Vec::new(),
        rotation: Vec::new(),
        opacity: Vec::new(),
    }
}

/// A media-backed clip at `[start, start + duration)` cut at `source`.
fn media_clip(id: u64, media: u64, source: i64, start: i64, duration: i64) -> ProjectClip {
    ProjectClip {
        id,
        start,
        duration,
        content: ClipSource::Media {
            media,
            source: SourceRange {
                start: source,
                duration,
                rate: FPS_24,
            },
        },
        link: None,
        transform: still(),
        animation: unanimated(),
        sound: sound(),
    }
}

fn lane(id: u64, kind: TrackKind, clips: Vec<ProjectClip>) -> Lane {
    Lane {
        id,
        name: format!("L{id}"),
        kind,
        enabled: true,
        muted: false,
        locked: false,
        duck_source: false,
        clips,
    }
}

fn source(id: u64, ticks: i64) -> MediaSource {
    MediaSource {
        id,
        path: format!("/tmp/{id}.mp4"),
        stem: Some(format!("{id}")),
        width: 1920,
        height: 1080,
        frame_rate: FPS_24,
        duration: MediaTime {
            value: ticks,
            rate: FPS_24,
        },
        has_audio: false,
        audio_only: false,
    }
}

fn project(lanes: Vec<Lane>, media: Vec<MediaSource>) -> Project {
    Project {
        id: 1,
        name: "fixture".to_string(),
        frame_rate: FPS_24,
        lanes,
        media,
    }
}

fn plain_style() -> TextStyle {
    TextStyle {
        font: "Sans".to_string(),
        size: 48.0f32.to_bits(),
        bold: true,
        italic: false,
        underline: false,
        case: TextCase::Upper,
        fill: Color { red: 1, green: 2, blue: 3, alpha: 255 },
        letter_spacing: 0,
        line_spacing: 1.0f32.to_bits(),
        align_h: TextAlignH::Left,
        align_v: TextAlignV::Bottom,
        wrap: false,
        stroke: None,
        background: None,
        shadow: None,
    }
}

fn look() -> FreshLook {
    FreshLook {
        style: plain_style(),
        width: 320.0f32.to_bits(),
        height: 200.0f32.to_bits(),
    }
}

fn plan(p: Planned) -> Plan {
    match p {
        Planned::Run(plan) => plan,
        other => panic!("{other:?}"),
    }
}

fn ignored(p: Planned) -> Ignored {
    match p {
        Planned::Ignored(why) => why,
        other => panic!("{other:?}"),
    }
}

fn linked(mut c: ProjectClip, link: u64) -> ProjectClip {
    c.link = Some(link);
    c
}

fn strings(values: &[&str]) -> Vec<String> {
    values.iter().map(|v| v.to_string()).collect()
}

/// Stack, bottom first: audio 20 with D [0,50); video 10 with A [0,50) B [100,140);
/// video 11 with C [0,80). A and D are linked.
fn sample() -> Project {
    project(
        vec![
            lane(20, TrackKind::Audio, vec![linked(media_clip(4, 1, 0, 0, 50), 7)]),
            lane(
                10,
                TrackKind::Video,
                vec![linked(media_clip(1, 1, 0, 0, 50), 7), media_clip(2, 1, 0, 100, 40)],
            ),
            lane(11, TrackKind::Video, vec![media_clip(3, 1, 0, 0, 80)]),
        ],
        vec![source(1, 1000)],
    )
}

// --- room ---------------------------------------------------------------------

#[test]
fn the_first_gap_that_fits_is_taken() {
    let p = sample();
    let clips = &p.lanes[1].clips;
    assert_eq!(first_fit_start(clips, 0, 50), 50);
    assert_eq!(first_fit_start(clips, 0, 51), 140);
    assert_eq!(first_fit_start(clips, 60, 40), 60);
    assert_eq!(first_fit_start(clips, 61, 40), 140);
    assert_eq!(first_fit_start(clips, 500, 40), 500);
    assert!(span_free(clips, 50, 50));
    assert!(!span_free(clips, 49, 50));
}

#[test]
fn blocks_slide_right_as_one() {
    let p = sample();
    let spans = vec![
        WantedSpan { lane: 10, start: 40, duration: 20 },
        WantedSpan { lane: 11, start: 70, duration: 5 },
    ];
    // 10 frees the first span and the second one too.
    assert_eq!(block_fit_dx(&p, &spans), 10);
    let free = vec![WantedSpan { lane: 10, start: 60, duration: 20 }];
    assert_eq!(block_fit_dx(&p, &free), 0);
    let unknown = vec![WantedSpan { lane: 99, start: 0, duration: 20 }];
    assert_eq!(block_fit_dx(&p, &unknown), 0);
}

#[test]
fn the_nearest_boundary_is_a_clip_edge() {
    let p = sample();
    let clips = &p.lanes[1].clips;
    assert_eq!(nearest_boundary(clips, 40), 0);
    assert_eq!(nearest_boundary(clips, 90), 100);
    assert_eq!(nearest_boundary(clips, 1000), 140);
    // Ties go to the earlier boundary.
    assert_eq!(nearest_boundary(clips, 50), 0);
    assert_eq!(nearest_boundary(clips, 120), 100);
    assert_eq!(nearest_boundary(&Vec::new(), 33), 0);
}

#[test]
fn resampling_rounds_to_the_nearest() {
    let thirty = Rational { num: 30, den: 1 };
    assert_eq!(resample(24, FPS_24, thirty), 30);
    assert_eq!(resample(1, FPS_24, thirty), 1);
    assert_eq!(resample(2, FPS_24, thirty), 3);
    assert_eq!(resample(-2, FPS_24, thirty), -3);
    assert_eq!(resample(1000, Rational { num: 24000, den: 1001 }, FPS_24), 1001);
}

// --- drops --------------------------------------------------------------------

#[test]
fn drops_land_in_the_first_gap_of_their_lane() {
    let mut p = sample();
    p.media.push(source(2, 40));
    let drop = add_clip(&p, "2", "10", 20, 0, false, true).expect("drop");
    assert_eq!(drop.start, 50);
    assert_eq!(drop.plan.quiet, 0);
    assert!(!drop.companion, "a silent media needs no companion");
    assert!(matches!(
        drop.plan.steps[0],
        Edit::AddClip { to: LaneRef::Id(10), media: 2, start: 50, .. }
    ));
}

#[test]
fn drops_elsewhere_make_a_lane_at_the_drop_row() {
    let mut p = sample();
    p.media.push(source(2, 40));
    // Row 1 of three lanes shows above stack index 2.
    let drop = add_clip(&p, "2", "20", -9, 1, false, false).expect("drop");
    assert_eq!((drop.start, drop.plan.quiet), (0, 1));
    match &drop.plan.steps[0] {
        Edit::AddTrack { kind, name, index } => {
            assert_eq!((*kind, name.as_str(), *index), (TrackKind::Video, "V3", 2));
        }
        other => panic!("{other:?}"),
    }
    assert!(matches!(
        drop.plan.steps[1],
        Edit::AddClip { to: LaneRef::Step(0), media: 2, start: 0, .. }
    ));
    assert_eq!(add_clip(&p, "x", "10", 0, 0, false, false).unwrap_err(), Ignored::BadMediaId);
    assert_eq!(
        add_clip(&p, "44", "10", 0, 0, false, false).unwrap_err(),
        Ignored::MediaNotInPool
    );
}

#[test]
fn the_magnet_inserts_video_and_wants_a_companion() {
    let mut p = sample();
    let mut film = source(2, 40);
    film.has_audio = true;
    p.media.push(film);
    let drop = add_clip(&p, "2", "10", 70, 0, true, true).expect("drop");
    assert!(drop.companion);
    assert_eq!(drop.duration, 40);
    assert!(matches!(
        drop.plan.steps[0],
        Edit::RippleInsert { lane: 10, media: 2, at: 70, .. }
    ));
    // The companion goes on the audio lane when there is room at its tick...
    let steps = add_linked_audio(&p, 55, 2, drop.source, 70, 40);
    assert_eq!(steps.len(), 2);
    assert!(matches!(steps[0], Edit::AddClip { to: LaneRef::Id(20), start: 70, .. }));
    match &steps[1] {
        Edit::LinkClips { clips } => assert_eq!(*clips, vec![ClipRef::Id(55), ClipRef::Step(0)]),
        other => panic!("{other:?}"),
    }
    // ...and else on a new lane at the bottom.
    let steps = add_linked_audio(&p, 55, 2, drop.source, 30, 40);
    assert_eq!(steps.len(), 3);
    match &steps[0] {
        Edit::AddTrack { kind, name, index } => {
            assert_eq!((*kind, name.as_str(), *index), (TrackKind::Audio, "A2", 0));
        }
        other => panic!("{other:?}"),
    }
}

#[test]
fn generated_content_needs_a_lane_kind() {
    let p = sample();
    let title = generator_from_key("text", &look()).expect("text");
    assert_eq!(
        ignored(add_generated(&p, title, None, "", 0, 10, 0)),
        Ignored::NoLaneKind
    );
    let title = generator_from_key("text", &look()).expect("text");
    let made = plan(add_generated(&p, title, Some(TrackKind::Text), "10", 5, 0, 0));
    assert_eq!((made.steps.len(), made.quiet), (2, 1));
    match &made.steps[1] {
        Edit::AddGenerated { to, generator, start, duration } => {
            assert_eq!((*to, *start, *duration), (LaneRef::Step(0), 5, 1));
            assert!(matches!(generator, Generator::Text { content, style } if content == "Title" && style.font == "Sans"));
        }
        other => panic!("{other:?}"),
    }
}

// --- moves --------------------------------------------------------------------

#[test]
fn a_move_to_another_lane_drops_the_lane_it_empties() {
    let p = sample();
    let moved = plan(move_clip(&p, "3", "10", 0, 60, false, false));
    assert_eq!(moved.steps.len(), 2);
    assert!(matches!(
        moved.steps[0],
        Edit::MoveClip { clip: 3, to: LaneRef::Id(10), start: 60 }
    ));
    assert!(matches!(moved.steps[1], Edit::DropLaneIfEmpty { lane: 11 }));
    // Within the lane nothing else happens.
    assert_eq!(plan(move_clip(&p, "3", "11", 0, 5, false, true)).steps.len(), 1);
}

#[test]
fn leaving_the_main_lane_closes_the_gap() {
    let p = sample();
    let moved = plan(move_clip(&p, "1", "", 0, -4, false, true));
    assert_eq!(moved.quiet, 1);
    assert!(matches!(moved.steps[0], Edit::AddTrack { index: 3, .. }));
    assert!(matches!(
        moved.steps[1],
        Edit::MoveClip { clip: 1, to: LaneRef::Step(0), start: 0 }
    ));
    assert!(matches!(
        moved.steps[2],
        Edit::ShiftClips { lane: 10, from: 0, delta: -50 }
    ));
    assert!(matches!(moved.steps[3], Edit::DropLaneIfEmpty { lane: 10 }));
}

#[test]
fn inserting_moves_reorder_or_open_room() {
    let p = sample();
    let reorder = plan(move_clip(&p, "1", "10", 0, 90, true, true));
    assert!(matches!(
        reorder.steps[..],
        [
            Edit::MoveClip { clip: 1, start: 140, .. },
            Edit::ShiftClips { lane: 10, from: 0, delta: -50 },
            Edit::ShiftClips { lane: 10, from: 90, delta: 50 },
            Edit::MoveClip { clip: 1, start: 90, .. },
        ]
    ));
    let inward = plan(move_clip(&p, "3", "10", 0, 100, true, true));
    assert!(matches!(
        inward.steps[..],
        [
            Edit::ShiftClips { lane: 10, from: 100, delta: 80 },
            Edit::MoveClip { clip: 3, to: LaneRef::Id(10), start: 100 },
            Edit::DropLaneIfEmpty { lane: 11 },
        ]
    ));
    assert_eq!(ignored(move_clip(&p, "1", "", 0, 0, true, true)), Ignored::BadLaneId);
    assert_eq!(ignored(move_clip(&p, "?", "10", 0, 0, false, true)), Ignored::BadClipId);
    assert_eq!(
        ignored(move_clip(&p, "77", "10", 0, 0, false, true)),
        Ignored::ClipNotOnTimeline
    );
}

fn group_move(clip: &str, track: &str, start_tick: i64) -> GroupMove {
    GroupMove {
        clip: clip.to_string(),
        track: track.to_string(),
        start_tick,
    }
}

#[test]
fn group_moves_park_before_they_land() {
    let p = sample();
    let moved = plan(move_group(
        &p,
        &vec![group_move("2", "11", 0), group_move("3", "10", -3)],
    ));
    assert!(matches!(
        moved.steps[..],
        [
            Edit::MoveClip { clip: 2, to: LaneRef::Id(11), start: 140 },
            Edit::MoveClip { clip: 3, to: LaneRef::Id(10), start: 180 },
            Edit::MoveClip { clip: 2, to: LaneRef::Id(11), start: 0 },
            Edit::MoveClip { clip: 3, to: LaneRef::Id(10), start: 0 },
            Edit::DropLaneIfEmpty { lane: 10 },
            Edit::DropLaneIfEmpty { lane: 11 },
        ]
    ));
    assert_eq!(ignored(move_group(&p, &Vec::new())), Ignored::NothingToDo);
    let stale = vec![group_move("2", "11", 0), group_move("88", "11", 0)];
    assert_eq!(ignored(move_group(&p, &stale)), Ignored::ClipNotOnTimeline);
    assert_eq!(
        ignored(move_group(&p, &vec![group_move("2", "", 0)])),
        Ignored::BadLaneId
    );
}

// --- removing, splitting, unlinking -------------------------------------------

#[test]
fn removals_run_from_right_to_left() {
    let p = sample();
    let gone = plan(remove_clips(&p, &strings(&["1", "2", "3"]), true));
    assert!(matches!(
        gone.steps[..],
        [
            Edit::RippleDelete { clip: 2 },
            Edit::RippleDelete { clip: 1 },
            Edit::RemoveClip { clip: 3 },
            Edit::DropLaneIfEmpty { lane: 10 },
            Edit::DropLaneIfEmpty { lane: 11 },
        ]
    ));
    let plain = plan(remove_clips(&p, &strings(&["2"]), false));
    assert!(matches!(plain.steps[0], Edit::RemoveClip { clip: 2 }));
    assert_eq!(ignored(remove_clips(&p, &strings(&["1", "x"]), true)), Ignored::BadClipId);
    assert_eq!(
        ignored(remove_clips(&p, &strings(&["9"]), true)),
        Ignored::ClipNotOnTimeline
    );
    assert_eq!(ignored(remove_clips(&p, &Vec::new(), true)), Ignored::NothingToDo);
}

#[test]
fn splits_cut_the_group_and_link_the_tails() {
    let p = sample();
    let cut = plan(split_clip(&p, "1", 20, true));
    assert_eq!((cut.steps.len(), cut.quiet), (3, 3));
    assert!(matches!(cut.steps[0], Edit::SplitClip { clip: 4, at: 20 }));
    assert!(matches!(cut.steps[1], Edit::SplitClip { clip: 1, at: 20 }));
    match &cut.steps[2] {
        Edit::LinkClips { clips } => assert_eq!(*clips, vec![ClipRef::Step(0), ClipRef::Step(1)]),
        other => panic!("{other:?}"),
    }
    assert_eq!(plan(split_clip(&p, "1", 20, false)).steps.len(), 1);
    assert_eq!(ignored(split_clip(&p, "1", 50, true)), Ignored::OutsideClip);
    assert_eq!(ignored(split_clip(&p, "-1", 20, true)), Ignored::BadClipId);
}

#[test]
fn unlinking_dissolves_the_whole_group() {
    let p = sample();
    let undone = plan(unlink_clips(&p, &strings(&["2", "1", "nope"])));
    let singles: Vec<Vec<ClipRef>> = undone
        .steps
        .iter()
        .map(|e| match e {
            Edit::LinkClips { clips } => clips.clone(),
            other => panic!("{other:?}"),
        })
        .collect();
    assert_eq!(singles, vec![vec![ClipRef::Id(4)], vec![ClipRef::Id(1)]]);
    assert_eq!(ignored(unlink_clips(&p, &strings(&["2"]))), Ignored::NothingToDo);
}

// --- clipboard ----------------------------------------------------------------

#[test]
fn blocks_keep_their_shape() {
    let p = sample();
    let (origin, block) = snapshot_block(&p, &strings(&["2", "x", "3"])).expect("block");
    assert_eq!(origin, 0);
    assert_eq!(block.iter().map(|c| c.offset_ticks).collect::<Vec<_>>(), vec![0, 100]);
    assert_eq!(block.iter().map(|c| c.track).collect::<Vec<_>>(), vec![11, 10]);
    assert!(snapshot_block(&p, &strings(&["x"])).is_none());
}

#[test]
fn pasted_blocks_slide_until_they_fit_and_relink() {
    let p = sample();
    let (_, block) = snapshot_block(&p, &strings(&["1", "4"])).expect("block");
    let landing = paste_lanes(&p, &block);
    assert!(landing.steps.is_empty());
    assert_eq!(landing.lanes, vec![LaneRef::Id(10), LaneRef::Id(20)]);
    let steps = paste(&p, &block, &vec![10, 20], 20, true);
    // Both move by 30, to 50.
    assert!(matches!(steps[0], Edit::AddClip { to: LaneRef::Id(10), start: 50, .. }));
    assert!(matches!(steps[1], Edit::AddClip { to: LaneRef::Id(20), start: 50, .. }));
    match &steps[2] {
        Edit::LinkClips { clips } => assert_eq!(*clips, vec![ClipRef::Step(0), ClipRef::Step(1)]),
        other => panic!("{other:?}"),
    }
    assert_eq!(steps.len(), 3);
}

#[test]
fn a_single_paste_on_the_main_lane_ripples_in() {
    let p = sample();
    let (_, block) = snapshot_block(&p, &strings(&["2"])).expect("block");
    let steps = paste(&p, &block, &vec![10], 90, true);
    assert!(matches!(
        steps[..],
        [
            Edit::ShiftClips { lane: 10, from: 100, delta: 40 },
            Edit::AddClip { to: LaneRef::Id(10), start: 100, .. },
        ]
    ));
    let freeform = paste(&p, &block, &vec![10], 90, false);
    assert!(matches!(
        freeform[..],
        [Edit::AddClip { to: LaneRef::Id(10), start: 140, .. }]
    ));
}

#[test]
fn vanished_lanes_are_recreated_once_each() {
    let p = sample();
    let (_, mut block) = snapshot_block(&p, &strings(&["1", "2", "4"])).expect("block");
    for c in block.iter_mut() {
        c.track += 500;
    }
    let landing = paste_lanes(&p, &block);
    assert_eq!(
        landing.lanes,
        vec![LaneRef::Step(0), LaneRef::Step(1), LaneRef::Step(0)]
    );
    let made: Vec<(String, usize)> = landing
        .steps
        .iter()
        .map(|e| match e {
            Edit::AddTrack { name, index, .. } => (name.clone(), *index),
            other => panic!("{other:?}"),
        })
        .collect();
    assert_eq!(made, vec![("V3".to_string(), 3), ("A2".to_string(), 4)]);
}

#[test]
fn duplicates_follow_their_originals() {
    let p = sample();
    let one = plan(duplicate_clips(&p, &strings(&["1"]), false));
    assert_eq!(one.quiet, 1);
    assert!(matches!(one.steps[..], [Edit::AddClip { to: LaneRef::Id(10), start: 50, .. }]));
    let rippled = plan(duplicate_clips(&p, &strings(&["1"]), true));
    assert!(matches!(
        rippled.steps[..],
        [
            Edit::ShiftClips { lane: 10, from: 50, delta: 50 },
            Edit::AddClip { to: LaneRef::Id(10), start: 50, .. },
        ]
    ));
    // The block spans 0..80, so its copy starts at 80; A's copy would then meet B.
    let block = plan(duplicate_clips(&p, &strings(&["1", "3"]), true));
    assert!(matches!(
        block.steps[..],
        [
            Edit::AddClip { to: LaneRef::Id(10), start: 140, .. },
            Edit::AddClip { to: LaneRef::Id(11), start: 140, .. },
        ]
    ));
    assert_eq!(ignored(duplicate_clips(&p, &strings(&["x"]), true)), Ignored::BadClipId);
    assert_eq!(
        ignored(duplicate_clips(&p, &strings(&["x", "y"]), true)),
        Ignored::NothingToDo
    );
}

#[test]
fn the_editor_keeps_the_clipboard_and_packs_on_magnet() {
    let p = sample();
    let mut state = EditorState::new(false, true);
    assert!(state.copy_clips(&p, &strings(&["3"])));
    assert!(!state.copy_clips(&p, &strings(&["gone"])));
    assert_eq!(state.clipboard.as_ref().map(|b| b.len()), Some(1));
    let steps = state.set_main_magnet(&p, true).expect("packing");
    assert!(matches!(
        steps[..],
        [Edit::ShiftClips { lane: 10, from: 100, delta: -50 }]
    ));
    assert!(state.set_main_magnet(&p, false).is_none());
    state.set_linkage(false);
    assert!(!state.linkage && !state.main_magnet);
}

// --- single clips -------------------------------------------------------------

fn scalar(tick: i64, value: f32, easing: Easing) -> Keyframe {
    Keyframe {
        tick,
        value: value.to_bits(),
        easing,
    }
}

/// `keyframes_at` slices one merged timeline diamond: only the
/// properties keyframed exactly at the tick, each with its own value
/// and easing, position as vec2.
#[test]
fn keyframes_at_collects_per_property_hits() {
    let t = Animation {
        position: vec![PairKeyframe {
            tick: 10,
            x: 0.1f32.to_bits(),
            y: (-0.2f32).to_bits(),
            easing: Easing::Linear,
        }],
        anchor: Vec::new(),
        scale: vec![scalar(10, 2.0, Easing::EaseIn), scalar(20, 3.0, Easing::Linear)],
        rotation: Vec::new(),
        opacity: vec![scalar(30, 0.5, Easing::Linear)],
    };
    let hits = keyframes_at(&t, 10);
    assert_eq!(
        hits,
        vec![
            ParamKey {
                param: ClipParam::Position,
                value: ParamValue::Vec2(0.1f32.to_bits(), (-0.2f32).to_bits()),
                easing: Easing::Linear
            },
            ParamKey {
                param: ClipParam::Scale,
                value: ParamValue::Scalar(2.0f32.to_bits()),
                easing: Easing::EaseIn
            },
        ]
    );

    assert!(keyframes_at(&t, 15).is_empty());
    assert_eq!(keyframes_at(&t, 30).len(), 1);
}

#[test]
fn diamonds_move_and_vanish_as_one() {
    let mut p = sample();
    p.lanes[1].clips[1].animation.scale = vec![scalar(5, 2.0, Easing::EaseOut)];
    let (clip, steps) = retime_keyframes(&p, "2", 105, 120).expect("retime");
    assert_eq!(clip, 2);
    assert_eq!(
        steps,
        vec![
            KeyframeEdit::Remove { param: ClipParam::Scale, at: 105 },
            KeyframeEdit::Put {
                param: ClipParam::Scale,
                at: 120,
                value: ParamValue::Scalar(2.0f32.to_bits()),
                easing: Easing::EaseOut
            },
        ]
    );
    let (_, gone) = remove_keyframes_at(&p, "2", 105).expect("remove");
    assert_eq!(gone, vec![KeyframeEdit::Remove { param: ClipParam::Scale, at: 105 }]);
    assert_eq!(retime_keyframes(&p, "2", 105, 105).unwrap_err(), Ignored::NothingToDo);
    assert_eq!(retime_keyframes(&p, "2", 106, 110).unwrap_err(), Ignored::NothingToDo);
    assert_eq!(retime_keyframes(&p, "88", 1, 2).unwrap_err(), Ignored::ClipNotOnTimeline);
    assert_eq!(remove_keyframes_at(&p, "x", 1).unwrap_err(), Ignored::BadClipId);
}

#[test]
fn curve_points_keep_their_tick_and_easing() {
    let curve = vec![scalar(0, 1.0, Easing::Linear), scalar(9, 2.0, Easing::EaseIn)];
    let out = replace_curve_point(&curve, 1, 4.0f32.to_bits()).expect("point");
    assert_eq!(out[0], curve[0]);
    assert_eq!(out[1], scalar(9, 4.0, Easing::EaseIn));
    assert!(replace_curve_point(&curve, 2, 0).is_none());
}

#[test]
fn linked_edits_reach_the_group_and_audio_edits_the_sound() {
    let p = sample();
    assert_eq!(linked_targets(&p, "1", true).unwrap(), vec![4, 1]);
    assert_eq!(linked_targets(&p, "1", false).unwrap(), vec![1]);
    assert_eq!(linked_targets(&p, "?", true).unwrap_err(), Ignored::BadClipId);
    // The video half routes to its audio partner.
    assert_eq!(audio_targets(&p, "1").unwrap(), vec![4]);
    assert_eq!(audio_targets(&p, "4").unwrap(), vec![4]);
    assert_eq!(audio_targets(&p, "2").unwrap_err(), Ignored::NothingToDo);
}

#[test]
fn music_ducks_under_overlapping_voice() {
    let mut p = sample();
    let mut voice = lane(
        21,
        TrackKind::Audio,
        vec![media_clip(8, 1, 0, 10, 10), media_clip(9, 1, 0, 50, 10)],
    );
    voice.duck_source = true;
    p.lanes.push(voice);
    assert_eq!(duck_under_voice(&p, "4").unwrap(), (4, vec![8]));
    // A voice clip has no other voice lane to duck under.
    assert_eq!(duck_under_voice(&p, "8").unwrap_err(), Ignored::NothingToDo);
    assert_eq!(duck_under_voice(&p, "77").unwrap_err(), Ignored::ClipNotOnTimeline);
}

#[test]
fn the_snapshot_holds_what_is_heard() {
    let mut p = sample();
    assert!(audio_snapshot(&p).spans.is_empty(), "the media is silent");
    p.media[0].has_audio = true;
    p.lanes[0].clips[0].sound.retimed = true;
    p.lanes[0].clips[0].sound.fade_in = 3;
    let heard = audio_snapshot(&p);
    assert_eq!(heard.fps, (24, 1));
    assert_eq!(heard.spans.len(), 1, "video lanes contribute no sound");
    let span = &heard.spans[0];
    assert_eq!((span.start_tick, span.end_tick), (0, 50));
    assert_eq!(span.path, "/tmp/1.mp4");
    assert!(span.retimed, "retimed clips are stretched, not muted");
    assert_eq!(span.fade_in_ticks, 3);
    p.lanes[0].clips[0].sound.silent = true;
    assert!(audio_snapshot(&p).spans.is_empty());
    p.lanes[0].clips[0].sound.silent = false;
    p.lanes[0].muted = true;
    assert!(audio_snapshot(&p).spans.is_empty());
}

#[test]
fn keys_stand_for_choices() {
    assert_eq!(parse_marker_color("pink"), Some(MarkerColor::Pink));
    assert_eq!(parse_marker_color("mauve"), None);
    assert_eq!(track_flag_from_key("duck-source"), Some(TrackFlag::DuckSource));
    assert_eq!(track_flag_from_key("muted"), Some(TrackFlag::Muted));
    assert_eq!(track_flag_from_key(""), None);
    assert_eq!(
        clip_param_value("anchor", 1, 2),
        Some((ClipParam::AnchorPoint, ParamValue::Vec2(1, 2)))
    );
    assert_eq!(
        clip_param_value("volume", 1, 2),
        Some((ClipParam::Volume, ParamValue::Scalar(1)))
    );
    assert_eq!(clip_param_value("hue", 1, 2), None);
    assert_eq!(preset_at(2, 3), Some(2));
    assert_eq!(preset_at(3, 3), None);
    assert_eq!(preset_at(-1, 3), None);
    assert!(generator_from_key("sticker", &look()).is_none());
}

#[test]
fn resizes_keep_shape_and_fill() {
    let mut p = sample();
    let fill = Color { red: 1, green: 2, blue: 3, alpha: 4 };
    p.lanes[2].clips[0].content = ClipSource::Generated(Generator::Shape {
        shape: Shape::Ellipse,
        rgba: fill,
        width: 5,
        height: 6,
    });
    assert_eq!(generated_clips(&p), vec![3]);
    let (clip, made) = resized_shape(&p, "3", 7, 8).expect("shape");
    assert_eq!(clip, 3);
    assert!(matches!(
        made,
        Generator::Shape { shape: Shape::Ellipse, rgba, width: 7, height: 8 } if rgba == fill
    ));
    assert!(resized_shape(&p, "1", 7, 8).is_none());
    assert!(resized_shape(&p, "x", 7, 8).is_none());
}

#[test]
fn transforms_keyframe_animated_clips_only() {
    let mut p = sample();
    p.lanes[1].clips[1].animation.rotation = vec![scalar(0, 2.0, Easing::Linear)];
    assert_eq!(writes_keyframe(&p, "2"), Some((2, true)));
    assert_eq!(writes_keyframe(&p, "1"), Some((1, false)));
    assert_eq!(writes_keyframe(&p, "99"), Some((99, false)));
    assert_eq!(writes_keyframe(&p, ""), None);
}

#[test]
fn effect_parameters_are_found_by_name() {
    let params = strings(&["radius", "amount", "amount"]);
    assert_eq!(param_slot(&params, "amount"), Some(1));
    assert_eq!(param_slot(&params, "radius"), Some(0));
    assert_eq!(param_slot(&params, "Amount"), None);
}

fn pair(tick: i64, x: f32, y: f32) -> PairKeyframe {
    PairKeyframe {
        tick,
        x: x.to_bits(),
        y: y.to_bits(),
        easing: Easing::Linear,
    }
}

#[test]
fn anchor_keyframes_belong_to_the_diamond() {
    let mut t = unanimated();
    t.anchor = vec![pair(10, 0.25, 0.75)];
    let anchor = ParamKey {
        param: ClipParam::AnchorPoint,
        value: ParamValue::Vec2(0.25f32.to_bits(), 0.75f32.to_bits()),
        easing: Easing::Linear,
    };
    assert_eq!(keyframes_at(&t, 10), vec![anchor]);
    // It comes behind the position and before the scalars.
    t.position = vec![pair(10, 0.0, 0.0)];
    t.scale = vec![scalar(10, 2.0, Easing::Linear)];
    let params: Vec<ClipParam> = keyframes_at(&t, 10).iter().map(|k| k.param).collect();
    assert_eq!(params, vec![ClipParam::Position, ClipParam::AnchorPoint, ClipParam::Scale]);

    let mut p = sample();
    p.lanes[1].clips[1].animation.anchor = vec![pair(5, 0.25, 0.75)];
    assert_eq!(writes_keyframe(&p, "2"), Some((2, true)));
    let (_, moved) = retime_keyframes(&p, "2", 105, 110).expect("retime");
    assert_eq!(
        moved,
        vec![
            KeyframeEdit::Remove { param: ClipParam::AnchorPoint, at: 105 },
            KeyframeEdit::Put {
                param: ClipParam::AnchorPoint,
                at: 110,
                value: anchor.value,
                easing: Easing::Linear
            },
        ]
    );
    let (_, gone) = remove_keyframes_at(&p, "2", 105).expect("remove");
    assert_eq!(gone, vec![KeyframeEdit::Remove { param: ClipParam::AnchorPoint, at: 105 }]);
}

#[test]
fn speed_presets_clear_set_or_drop() {
    for name in ["", "none", "normal"] {
        assert_eq!(speed_choice(name), SpeedChoice::Clear, "{name}");
    }
    for name in ["bullet", "None", " none", "normal2"] {
        assert_eq!(speed_choice(name), SpeedChoice::Named, "{name}");
    }
    let ramp = vec![scalar(0, 2.0, Easing::Linear)];
    assert_eq!(speed_request(SpeedChoice::Clear, None), Some(None));
    assert_eq!(speed_request(SpeedChoice::Named, Some(ramp.clone())), Some(Some(ramp)));
    assert_eq!(speed_request(SpeedChoice::Named, None), None);
    assert_eq!(point_index(3), Some(3));
    assert_eq!(point_index(0), Some(0));
    assert_eq!(point_index(-1), None);
}

#[test]
fn a_block_fits_behind_everything_at_the_latest() {
    let p = sample();
    // 60 ticks fit in no gap of lane 10, so the block goes behind its last clip.
    let spans = vec![WantedSpan { lane: 10, start: 0, duration: 60 }];
    assert_eq!(block_fit_dx(&p, &spans), 140);
}

#[test]
fn copies_of_titles_and_shapes_keep_their_look() {
    let mut p = sample();
    p.lanes[2].clips[0].content = ClipSource::Generated(Generator::Text {
        content: "Hello".to_string(),
        style: plain_style(),
    });
    let (_, block) = snapshot_block(&p, &strings(&["3"])).expect("block");
    match &paste(&p, &block, &vec![11], 100, false)[0] {
        Edit::AddGenerated { generator: Generator::Text { content, style }, .. } => {
            assert_eq!(content, "Hello");
            assert_eq!((style.font.as_str(), style.bold), ("Sans", true));
            assert_eq!(style.case, TextCase::Upper);
        }
        other => panic!("{other:?}"),
    }
    p.lanes[2].clips[0].content =
        ClipSource::Generated(generator_from_key("rect", &look()).expect("rect"));
    match &plan(duplicate_clips(&p, &strings(&["3"]), false)).steps[0] {
        Edit::AddGenerated { generator: Generator::Shape { width, height, .. }, .. } => {
            assert_eq!((*width, *height), (320.0f32.to_bits(), 200.0f32.to_bits()));
        }
        other => panic!("{other:?}"),
    }
}

// --- running plans ------------------------------------------------------------

#[test]
fn refused_steps_undo_the_group() {
    let moved = plan(move_clip(&sample(), "1", "", 0, 5, false, true));
    // A new lane, the move, the closed gap, the emptied lane.
    assert_eq!(after_step(&moved, 0, true), RunNext::Step);
    assert_eq!(after_step(&moved, 0, false), RunNext::RollBack { publish: false });
    assert_eq!(after_step(&moved, 1, false), RunNext::RollBack { publish: true });
    assert_eq!(after_step(&moved, 2, false), RunNext::RollBack { publish: true });
    assert_eq!(after_step(&moved, 3, true), RunNext::Commit);
    assert_eq!(after_step(&moved, 3, false), RunNext::Commit, "a lane that stays is no failure");

    assert_eq!(after_command(2, 0, true), RunNext::Step);
    assert_eq!(after_command(2, 1, true), RunNext::Commit);
    assert_eq!(after_command(2, 1, false), RunNext::RollBack { publish: true });
}

#[test]
fn drops_go_on_with_their_companion() {
    let mut p = sample();
    let mut film = source(2, 40);
    film.has_audio = true;
    p.media.push(film);
    let drop = add_clip(&p, "2", "10", 70, 0, true, true).expect("drop");
    match drop.after_landing(&p, Some(55)) {
        PhaseNext::Run(plan) => assert_eq!((plan.steps.len(), plan.quiet), (2, 0)),
        other => panic!("{other:?}"),
    }
    assert!(matches!(
        drop.after_landing(&p, None),
        PhaseNext::RollBack { publish: true }
    ));
    let alone = add_clip(&p, "2", "10", 70, 0, true, false).expect("drop");
    assert!(matches!(alone.after_landing(&p, Some(55)), PhaseNext::Commit));
}

#[test]
fn pastes_go_on_once_their_lanes_exist() {
    let p = sample();
    let (_, block) = snapshot_block(&p, &strings(&["2"])).expect("block");
    let (lanes_plan, lanes) = paste_lanes(&p, &block).plan();
    assert_eq!((lanes_plan.steps.len(), lanes_plan.quiet), (0, 0));
    let landed = landed_lanes(&lanes, &Vec::new());
    assert_eq!(landed, Some(vec![10]));
    assert!(matches!(
        paste_phase(&p, &block, &landed, 500, false),
        PhaseNext::Run(Plan { quiet: 0, .. })
    ));
    assert!(matches!(
        paste_phase(&p, &block, &None, 500, false),
        PhaseNext::RollBack { publish: true }
    ));
    let refs = vec![LaneRef::Step(1), LaneRef::Id(4), LaneRef::Step(0)];
    assert_eq!(landed_lanes(&refs, &vec![Some(8), Some(9)]), Some(vec![9, 4, 8]));
    assert_eq!(landed_lanes(&refs, &vec![Some(8), None]), None);
    assert_eq!(landed_lanes(&refs, &vec![Some(8)]), None);
}
