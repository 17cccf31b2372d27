use cutlass_ui::edits::{Edit, LaneRef, PhaseNext};
use cutlass_ui::ripple::{commit_trims, pack_main_track, trim_clip, MemberTrim};
use cutlass_ui::audio::Param;
use cutlass_ui::model::{MediaTime, Rational, TrackKind, TransformBits};
use cutlass_ui::project::{
    Animation, ClipSound, ClipSource, Lane, MediaSource, Project, ProjectClip, SourceRange,
};

const FPS_24: Rational = Rational { num: 24, den: 1 };

fn still() -> TransformBits {
    TransformBits {
        position_x: 0,
        position_y: 0,
        anchor_x: 0,
        anchor_y: 0,
        scale: 1.0f32.to_bits(),
        rotation: 0,
        opacity: 1.0f32.to_bits(),
    }
}

fn sound() -> ClipSound {
    ClipSound {
        silent: false,
        retimed: false,
        reversed: false,
        pitch_bits: 1.0f32.to_bits(),
        speed_curve: None,
        volume: Param::Constant(1.0f32.to_bits()),
        fade_in: 0,
        fade_out: 0,
    }
}

fn unanimated() -> Animation {
    Animation {
        position: Vec::new(),
        anchor: Vec::new(),
        scale: Vec::new(),
        rotation: Vec::new(),
        opacity: Vec::new(),
    }
}

/// A media-backed clip at `[start, start + duration)` cut at `source`.
fn media_clip(id: u64, media: u64, source: i64, start: i64, duration: i64) -> ProjectClip {
    ProjectClip {
        id,
        start,
        duration,
        content: ClipSource::Media {
            media,
            source: SourceRange {
                start: source,
                duration,
                rate: FPS_24,
            },
        },
        link: None,
        transform: still(),
        animation: unanimated(),
        sound: sound(),
    }
}

fn lane(id: u64, kind: TrackKind, clips: Vec<ProjectClip>) -> Lane {
    Lane {
        id,
        name: format!("L{id}"),
        kind,
        enabled: true,
        muted: false,
        locked: false,
        duck_source: false,
        clips,
    }
}

fn source(id: u64, ticks: i64) -> MediaSource {
    MediaSource {
        id,
        path: format!("/tmp/{id}.mp4"),
        stem: Some(format!("{id}")),
        width: 1920,
        height: 1080,
        frame_rate: FPS_24,
        duration: MediaTime {
            value: ticks,
            rate: FPS_24,
        },
        has_audio: false,
        audio_only: false,
    }
}

fn project(lanes: Vec<Lane>, media: Vec<MediaSource>) -> Project {
    Project {
        id: 1,
        name: "fixture".to_string(),
        frame_rate: FPS_24,
        lanes,
        media,
    }
}

// --- a stand-in for the engine: it applies steps and rejects what it must --------

fn find(p: &Project, clip: u64) -> (usize, usize) {
    for (t, lane) in p.lanes.iter().enumerate() {
        for (c, x) in lane.clips.iter().enumerate() {
            if x.id == clip {
                return (t, c);
            }
        }
    }
    panic!("no clip {clip}");
}

fn overlaps(lane: &Lane) -> bool {
    lane.clips.iter().any(|a| {
        lane.clips.iter().any(|b| {
            a.id != b.id && a.start < b.start + b.duration && b.start < a.start + a.duration
        })
    })
}

fn apply(p: &mut Project, edit: &Edit) -> Result<(), String> {
    let touched = match edit {
        Edit::ShiftClips { lane, from, delta } => {
            let l = p.lanes.iter_mut().find(|l| l.id == *lane).ok_or("no lane")?;
            for c in l.clips.iter_mut().filter(|c| c.start >= *from) {
                c.start += delta;
            }
            l
        }
        Edit::TrimClip {
            clip,
            start,
            duration,
        } => {
            let (t, c) = find(p, *clip);
            let media_ticks = p.media[0].duration.value;
            let l = &mut p.lanes[t];
            let x = &mut l.clips[c];
            // The source in-point follows the start.
            let moved = start - x.start;
            if let ClipSource::Media { source, .. } = &mut x.content {
                let from = source.start + moved;
                if from < 0 || from + duration > media_ticks {
                    return Err("out of source".to_string());
                }
                source.start = from;
                source.duration = *duration;
            }
            x.start = *start;
            x.duration = *duration;
            l
        }
        Edit::MoveClip { clip, to, start } => {
            let (t, c) = find(p, *clip);
            let mut x = p.lanes[t].clips.remove(c);
            x.start = *start;
            let LaneRef::Id(id) = to else {
                panic!("known lanes only");
            };
            let l = p.lanes.iter_mut().find(|l| l.id == *id).ok_or("no lane")?;
            l.clips.push(x);
            l
        }
        other => panic!("{other:?}"),
    };
    touched.clips.sort_by_key(|c| c.start);
    if overlaps(touched) {
        return Err("overlap".to_string());
    }
    Ok(())
}

/// Run a set of trims; a rejected step leaves the error.
fn run(p: &mut Project, trims: Vec<MemberTrim>, magnet: bool) -> Result<bool, String> {
    let mut group = commit_trims(p, trims, magnet);
    while let Some(steps) = group.next_steps(p) {
        for edit in &steps.map_err(|e| format!("{e:?}"))? {
            apply(p, edit)?;
        }
    }
    Ok(group.ripple)
}

fn trim(clip: u64, start: i64, duration: i64) -> MemberTrim {
    MemberTrim {
        clip,
        start,
        duration,
    }
}

fn extent(p: &Project, clip: u64) -> (i64, i64) {
    let (t, c) = find(p, clip);
    (p.lanes[t].clips[c].start, p.lanes[t].clips[c].duration)
}

fn source_start(p: &Project, clip: u64) -> i64 {
    let (t, c) = find(p, clip);
    match &p.lanes[t].clips[c].content {
        ClipSource::Media { source, .. } => source.start,
        other => panic!("{other:?}"),
    }
}

fn clip_starts(p: &Project, clips: &[u64]) -> Vec<i64> {
    clips.iter().map(|id| extent(p, *id).0).collect()
}

/// Media-backed clip at `[start, start+duration)`; the source window is
/// offset 100 ticks into the fixture media so both edges keep headroom.
fn add_media_clip(id: u64, start: i64, duration: i64) -> ProjectClip {
    media_clip(id, 1, 100 + start, start, duration)
}

fn main_lane(clips: Vec<ProjectClip>) -> Project {
    project(vec![lane(10, TrackKind::Video, clips)], vec![source(1, 1000)])
}

#[test]
fn ripple_tail_shrink_shifts_downstream_on_main_lane() {
    let (a, b, c) = (1, 2, 3);
    let mut p = main_lane(vec![
        add_media_clip(a, 0, 50),
        add_media_clip(b, 50, 30),
        add_media_clip(c, 80, 40),
    ]);
    run(&mut p, vec![trim(b, 50, 20)], true).expect("ripple tail shrink");
    assert_eq!(clip_starts(&p, &[a, b, c]), [0, 50, 70]);
}

#[test]
fn ripple_tail_grow_opens_room_before_extending() {
    let (a, b) = (1, 2);
    let mut p = main_lane(vec![add_media_clip(a, 0, 50), add_media_clip(b, 50, 30)]);
    run(&mut p, vec![trim(a, 0, 60)], true).expect("ripple tail grow");
    assert_eq!(clip_starts(&p, &[a, b]), [0, 60]);
}

#[test]
fn ripple_head_shrink_reanchors_at_old_start() {
    let (a, b) = (1, 2);
    let mut p = main_lane(vec![add_media_clip(a, 0, 50), add_media_clip(b, 50, 30)]);
    run(&mut p, vec![trim(a, 10, 40)], true).expect("ripple head shrink");
    assert_eq!(clip_starts(&p, &[a, b]), [0, 40]);
}

#[test]
fn plain_trim_off_magnet_leaves_gap() {
    let (a, b, c) = (1, 2, 3);
    let mut p = main_lane(vec![
        add_media_clip(a, 0, 50),
        add_media_clip(b, 50, 30),
        add_media_clip(c, 80, 40),
    ]);
    run(&mut p, vec![trim(b, 50, 20)], false).expect("plain trim");
    assert_eq!(clip_starts(&p, &[a, b, c]), [0, 50, 80]);
}

/// Main lane packed gapless — A [0,100) B [100,200) C [200,300) — each clip
/// cut from the middle of a 1000-tick media, so both edges have plenty of
/// source headroom: A source [100,200), B [300,400), C [500,600).
fn ripple_fixture() -> (Project, [u64; 3]) {
    let (a, b, c) = (1, 2, 3);
    let p = main_lane(vec![
        media_clip(a, 1, 100, 0, 100),
        media_clip(b, 1, 300, 100, 100),
        media_clip(c, 1, 500, 200, 100),
    ]);
    (p, [a, b, c])
}

/// Leading-edge shrink: the resolved extent moves the start right (that
/// delta advances the source in-point), the commit re-anchors at the old
/// start, and downstream follows — the lane stays gapless.
#[test]
fn ripple_head_shrink_advances_source_and_stays_anchored() {
    let (mut p, [a, b, c]) = ripple_fixture();
    let rippled = run(&mut p, vec![trim(b, 120, 80)], true).expect("ripple head shrink");
    assert!(rippled);
    assert_eq!(extent(&p, b), (100, 80));
    assert_eq!(source_start(&p, b), 320);
    assert_eq!(extent(&p, c), (180, 100));
    assert_eq!(extent(&p, a), (0, 100));
}

/// Leading-edge grow: earlier source is revealed (in-point retreats),
/// the clip stays anchored, downstream moves right by the delta.
#[test]
fn ripple_head_grow_reveals_earlier_source() {
    let (mut p, [a, b, c]) = ripple_fixture();
    let rippled = run(&mut p, vec![trim(b, 50, 150)], true).expect("ripple head grow");
    assert!(rippled);
    assert_eq!(extent(&p, b), (100, 150));
    assert_eq!(source_start(&p, b), 250);
    assert_eq!(extent(&p, c), (250, 100));
    assert_eq!(extent(&p, a), (0, 100));
}

/// Trailing-edge trims keep the source in-point and move the out-point;
/// the shift only touches clips after the old end.
#[test]
fn ripple_tail_trims_keep_source_in_point() {
    let (mut p, [a, b, c]) = ripple_fixture();
    run(&mut p, vec![trim(b, 100, 140)], true).expect("ripple tail grow");
    assert_eq!(extent(&p, b), (100, 140));
    assert_eq!(source_start(&p, b), 300);
    assert_eq!(extent(&p, c), (240, 100));
    assert_eq!(extent(&p, a), (0, 100));
}

/// The last clip on the lane has nothing downstream — the ripple is a
/// plain trim (the shift selects an empty set and stays a no-op).
#[test]
fn ripple_trim_of_last_clip_has_no_downstream() {
    let (mut p, [a, b, c]) = ripple_fixture();
    run(&mut p, vec![trim(c, 200, 40)], true).expect("ripple last clip");
    assert_eq!(extent(&p, c), (200, 40));
    assert_eq!(extent(&p, a), (0, 100));
    assert_eq!(extent(&p, b), (100, 100));
}

/// The magnet only governs the main lane (bottom video track): an
/// overlay-lane trim stays plain even with the magnet on.
#[test]
fn overlay_lane_trim_does_not_ripple() {
    let (mut p, _) = ripple_fixture();
    let (d, e) = (4, 5);
    p.lanes.push(lane(
        11,
        TrackKind::Video,
        vec![add_media_clip(d, 0, 100), add_media_clip(e, 100, 100)],
    ));
    let rippled = run(&mut p, vec![trim(d, 0, 60)], true).expect("overlay trim");
    assert!(!rippled);
    assert_eq!(extent(&p, d), (0, 60));
    assert_eq!(extent(&p, e), (100, 100));
}

/// A trim that is rejected (source bounds) fails after the shift that opened
/// room, so the group as a whole has to be rolled back.
#[test]
fn rejected_ripple_rolls_back_whole_group() {
    // B's source is [300,400) of a 1000-tick media: growing the tail by
    // 700 ticks would need source up to 1100 — rejected after the shift.
    let (mut scratch, [_, b, _]) = ripple_fixture();
    let result = run(&mut scratch, vec![trim(b, 100, 800)], true);
    assert!(result.is_err());

    // The project that the group started from is what a rollback leaves.
    let (p, [a, b, c]) = ripple_fixture();
    assert_eq!(extent(&p, a), (0, 100));
    assert_eq!(extent(&p, b), (100, 100));
    assert_eq!(extent(&p, c), (200, 100));
}

/// Linked-pair trim (video on the main lane, audio partner elsewhere):
/// both members ripple on their own lanes, so the pair stays in sync and
/// downstream clips on both lanes shift by the same delta.
#[test]
fn linked_pair_ripples_on_both_lanes() {
    let (mut p, [_, b, c]) = ripple_fixture();
    // P mirrors B; Q sits downstream on the audio lane, aligned with C.
    let (pp, q) = (6, 7);
    p.lanes.push(lane(
        12,
        TrackKind::Audio,
        vec![media_clip(pp, 1, 300, 100, 100), media_clip(q, 1, 500, 200, 100)],
    ));
    // Head-shrink both members by 20 (the trim path hands the same edge
    // delta to every link-group member).
    run(&mut p, vec![trim(b, 120, 80), trim(pp, 120, 80)], true).expect("linked ripple trim");

    assert_eq!(extent(&p, b), (100, 80));
    assert_eq!(extent(&p, pp), (100, 80));
    assert_eq!(source_start(&p, b), 320);
    assert_eq!(source_start(&p, pp), 320);
    // Downstream on both lanes shifted left by 20, staying aligned.
    assert_eq!(extent(&p, c), (180, 100));
    assert_eq!(extent(&p, q), (180, 100));
}

// --- further cases ------------------------------------------------------------

#[test]
fn linked_clips_are_trimmed_by_the_same_motion() {
    let (mut p, [_, b, _]) = ripple_fixture();
    let partner = 6;
    let mut other = media_clip(partner, 1, 300, 110, 70);
    other.link = Some(9);
    p.lanes[0].clips[1].link = Some(9);
    p.lanes.push(lane(12, TrackKind::Audio, vec![other]));

    let group = trim_clip(&p, "2", 120, 80, true, true).expect("group");
    assert!(group.ripple);
    assert_eq!(group.trims, vec![trim(b, 120, 80), trim(partner, 130, 50)]);
    let alone = trim_clip(&p, "2", -5, 0, false, false).expect("alone");
    assert!(!alone.ripple);
    assert_eq!(alone.trims, vec![trim(b, 0, 1)]);
    assert!(trim_clip(&p, "x", 0, 1, false, false).is_err());
    assert!(trim_clip(&p, "99", 0, 1, false, false).is_err());
}

#[test]
fn a_vanished_clip_fails_its_ripple() {
    let (p, _) = ripple_fixture();
    let mut group = commit_trims(&p, vec![trim(2, 100, 50), trim(77, 0, 5)], true);
    assert!(matches!(group.next_steps(&p), Some(Ok(_))));
    assert!(matches!(group.next_steps(&p), Some(Err(_))));
    assert!(group.next_steps(&p).is_none());

    let mut parts = commit_trims(&p, vec![trim(2, 100, 50), trim(77, 0, 5)], true);
    assert!(matches!(parts.next_phase(&p), PhaseNext::Run(_)));
    assert!(matches!(parts.next_phase(&p), PhaseNext::RollBack { publish: true }));
    assert!(matches!(parts.next_phase(&p), PhaseNext::Commit));
}

#[test]
fn packing_closes_every_gap() {
    let mut p = main_lane(vec![
        add_media_clip(1, 5, 10),
        add_media_clip(2, 15, 10),
        add_media_clip(3, 40, 10),
    ]);
    let steps = pack_main_track(&p).expect("main lane");
    assert_eq!(steps.len(), 2);
    for edit in &steps {
        apply(&mut p, edit).expect("valid step");
    }
    assert_eq!(clip_starts(&p, &[1, 2, 3]), [0, 10, 20]);
    // A packed lane needs nothing, and without a video lane there is none.
    assert!(pack_main_track(&p).expect("main lane").is_empty());
    assert!(pack_main_track(&project(Vec::new(), Vec::new())).is_none());
}
