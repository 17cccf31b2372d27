use cutlass_ui::model::{Clip, Color, Rational, RationalTime, Sequence, TimeRange, Track, TrackKind};
use cutlass_ui::snap::{compute_drag_snap, resolve_clip_drag, resolve_clip_trim};

fn rt(value: i32) -> RationalTime {
    RationalTime {
        value,
        rate: Rational { num: 24, den: 1 },
    }
}

fn lane_color() -> Color {
    Color {
        red: 0x4A,
        green: 0x6F,
        blue: 0xA5,
        alpha: 255,
    }
}

fn sequence(tracks: Vec<Track>) -> Sequence {
    Sequence {
        id: "1".to_string(),
        name: "Sequence 1".to_string(),
        fps: Rational { num: 24, den: 1 },
        drop_frame: false,
        tracks,
        width: 1920,
        height: 1080,
    }
}

fn track(id: &str, kind: TrackKind, clips: Vec<Clip>) -> Track {
    Track {
        id: id.to_string(),
        name: id.to_string(),
        kind,
        color: lane_color(),
        clips,
        enabled: true,
        muted: false,
        locked: false,
        duck_source: false,
    }
}

/// A clip with effectively unbounded source headroom on both edges.
fn clip(id: &str, start: i32, dur: i32) -> Clip {
    clip_with_rooms(id, start, dur, 1_000_000, 1_000_000)
}

fn clip_with_rooms(id: &str, start: i32, dur: i32, head_room: i32, tail_room: i32) -> Clip {
    Clip {
        id: id.to_string(),
        name: id.to_string(),
        timeline_start: rt(start),
        source_range: TimeRange {
            start: rt(0),
            duration: rt(dur),
        },
        head_room_ticks: head_room,
        tail_room_ticks: tail_room,
        ..Clip::default()
    }
}

/// Rows (top-first): 0 = V2 video, 1 = V1 video, 2 = A1 audio.
fn sample_sequence() -> Sequence {
    sequence(vec![
        track("2", TrackKind::Video, vec![clip("2", 0, 80), clip("3", 200, 60)]),
        track("1", TrackKind::Video, vec![clip("1", 10, 100)]),
        track("9", TrackKind::Audio, vec![]),
    ])
}

// --- compute_drag_snap --------------------------------------------------

#[test]
fn snaps_to_zero_origin_when_dragging_near_start() {
    let seq = sample_sequence();
    let r = compute_drag_snap(&seq, "1", "1", 3, 100, 5, 0);
    assert!(r.has_snap);
    assert_eq!(r.snapped_start_value, 0);
}

#[test]
fn snaps_to_playhead() {
    let seq = sample_sequence();
    let r = compute_drag_snap(&seq, "1", "1", 202, 100, 5, 200);
    assert!(r.has_snap);
    assert_eq!(r.snapped_start_value, 200);
    assert_eq!(r.snap_line_tick, 200);
}

#[test]
fn zero_threshold_disables_snapping() {
    let seq = sample_sequence();
    let r = compute_drag_snap(&seq, "1", "1", 3, 100, 0, 0);
    assert!(!r.has_snap);
    assert_eq!(r.snapped_start_value, 3);
}

// --- resolve_clip_drag --------------------------------------------------

#[test]
fn free_spot_on_same_lane_lands_there() {
    let seq = sample_sequence();
    // Clip "1" (row 1, start 10, dur 100) dragged right by 200 ticks.
    let r = resolve_clip_drag(&seq, "1", "1", 200, 1, 0, 5);
    assert!(r.valid && !r.is_new_lane);
    assert_eq!(r.target_track_id, "1");
    assert_eq!(r.resolved_start, 210);
    assert!(!r.is_noop);
}

#[test]
fn unmoved_drag_is_noop() {
    let seq = sample_sequence();
    let r = resolve_clip_drag(&seq, "1", "1", 0, 1, 0, 0);
    assert!(r.valid && !r.is_new_lane && r.is_noop);
}

#[test]
fn conflict_on_hovered_lane_creates_new_lane_at_row() {
    let seq = sample_sequence();
    // Drag clip "1" up onto row 0 at a position overlapping clip "2" [0,80).
    let r = resolve_clip_drag(&seq, "1", "1", 20, 0, 0, 0);
    assert!(r.valid && r.is_new_lane);
    assert_eq!(r.target_row, 0);
    assert_eq!(r.resolved_start, 30);
}

#[test]
fn edge_snap_resolves_conflict_into_abutment() {
    let seq = sample_sequence();
    // Dragging clip "1" so its start sits at 78 — overlaps "2" [0,80) by 2
    // ticks, but the magnet pulls it to abut at 80, which is free.
    let r = resolve_clip_drag(&seq, "1", "1", 68, 0, 0, 5);
    assert!(r.valid && !r.is_new_lane);
    assert_eq!(r.target_track_id, "2");
    assert_eq!(r.resolved_start, 80);
    assert!(r.has_snap);
}

#[test]
fn foreign_kind_lane_creates_new_lane() {
    let seq = sample_sequence();
    // Video clip hovered over the audio lane (row 2).
    let r = resolve_clip_drag(&seq, "1", "1", 200, 2, 0, 0);
    assert!(r.valid && r.is_new_lane);
    assert_eq!(r.target_row, 2);
}

#[test]
fn rows_outside_stack_clamp_to_top_and_bottom_insertion() {
    let seq = sample_sequence();
    let above = resolve_clip_drag(&seq, "1", "1", 200, -3, 0, 0);
    assert!(above.is_new_lane);
    assert_eq!(above.target_row, 0);

    let below = resolve_clip_drag(&seq, "1", "1", 200, 9, 0, 0);
    assert!(below.is_new_lane);
    assert_eq!(below.target_row, 3);
}

#[test]
fn unknown_ids_resolve_invalid() {
    let seq = sample_sequence();
    let r = resolve_clip_drag(&seq, "1", "404", 0, 1, 0, 0);
    assert!(!r.valid);
}

// --- resolve_clip_trim ----------------------------------------------------

#[test]
fn tail_trim_extends_until_next_clip() {
    let seq = sample_sequence();
    // Clip "2" [0,80) on track "2"; clip "3" starts at 200 on the same lane.
    let r = resolve_clip_trim(&seq, "2", "2", false, 300, 0, 0);
    assert!(r.valid);
    assert_eq!(r.new_start, 0);
    assert_eq!(r.new_duration, 200);
    assert!(!r.is_noop);
}

#[test]
fn head_trim_extends_until_previous_clip() {
    let seq = sample_sequence();
    // Clip "3" [200,260) on track "2"; clip "2" ends at 80 on the same lane.
    let r = resolve_clip_trim(&seq, "2", "3", true, -500, 0, 0);
    assert!(r.valid);
    assert_eq!(r.new_start, 80);
    assert_eq!(r.new_duration, 180);
}

#[test]
fn head_trim_clamps_to_source_headroom() {
    let seq = sequence(vec![track(
        "1",
        TrackKind::Video,
        vec![clip_with_rooms("1", 10, 100, 5, 1_000_000)],
    )]);
    let r = resolve_clip_trim(&seq, "1", "1", true, -50, 0, 0);
    assert!(r.valid);
    assert_eq!(r.new_start, 5);
    assert_eq!(r.new_duration, 105);
}

#[test]
fn tail_trim_clamps_to_source_tailroom() {
    let seq = sequence(vec![track(
        "1",
        TrackKind::Video,
        vec![clip_with_rooms("1", 10, 100, 0, 7)],
    )]);
    let r = resolve_clip_trim(&seq, "1", "1", false, 50, 0, 0);
    assert!(r.valid);
    assert_eq!(r.new_start, 10);
    assert_eq!(r.new_duration, 107);
}

#[test]
fn trim_never_collapses_below_one_tick() {
    let seq = sample_sequence();
    let head = resolve_clip_trim(&seq, "2", "2", true, 1_000, 0, 0);
    assert_eq!(head.new_start, 79);
    assert_eq!(head.new_duration, 1);

    let tail = resolve_clip_trim(&seq, "2", "2", false, -1_000, 0, 0);
    assert_eq!(tail.new_start, 0);
    assert_eq!(tail.new_duration, 1);
}

#[test]
fn trimmed_edge_snaps_to_playhead() {
    let seq = sample_sequence();
    // Clip "1" [10,110) on track "1": tail dragged to 148, playhead at 150.
    let r = resolve_clip_trim(&seq, "1", "1", false, 38, 150, 5);
    assert!(r.valid && r.has_snap);
    assert_eq!(r.new_duration, 140);
    assert_eq!(r.snap_line_tick, 150);
}

#[test]
fn snap_beyond_clamp_is_dropped() {
    // Tail room of 2 caps the end at 102, but clip "B" at 105 is a magnet
    // candidate within threshold — the clamp wins and the guide hides.
    let seq = sequence(vec![
        track("1", TrackKind::Video, vec![clip_with_rooms("A", 0, 100, 0, 2)]),
        track("2", TrackKind::Video, vec![clip("B", 105, 50)]),
    ]);
    let r = resolve_clip_trim(&seq, "1", "A", false, 4, 0, 5);
    assert!(r.valid && !r.has_snap);
    assert_eq!(r.new_duration, 102);
}

#[test]
fn unmoved_trim_is_noop() {
    let seq = sample_sequence();
    let r = resolve_clip_trim(&seq, "1", "1", true, 0, 0, 0);
    assert!(r.valid && r.is_noop);
}

#[test]
fn unknown_trim_ids_resolve_invalid() {
    let seq = sample_sequence();
    let r = resolve_clip_trim(&seq, "1", "404", true, 0, 0, 0);
    assert!(!r.valid);
}

// --- further cases ------------------------------------------------------------

#[test]
fn of_two_equally_near_points_the_first_wins() {
    let seq = sequence(vec![track("1", TrackKind::Video, vec![clip("a", 20, 10)])]);
    // Tick 0 and the playhead are both 5 away; tick 0 is weighed first.
    let r = compute_drag_snap(&seq, "x", "x", 5, 100, 5, 10);
    assert!(r.has_snap);
    assert_eq!((r.snapped_start_value, r.snap_line_tick), (0, 0));
}

#[test]
fn the_trailing_edge_snaps_too() {
    let seq = sequence(vec![track("1", TrackKind::Video, vec![clip("a", 300, 10)])]);
    let r = compute_drag_snap(&seq, "x", "x", 198, 100, 5, 0);
    assert!(r.has_snap);
    assert_eq!((r.snapped_start_value, r.snap_line_tick), (200, 300));
}

#[test]
fn a_clip_is_no_magnet_for_itself() {
    let seq = sequence(vec![track("1", TrackKind::Video, vec![clip("a", 50, 10)])]);
    let r = compute_drag_snap(&seq, "1", "a", 52, 10, 5, -1000);
    assert!(!r.has_snap);
    assert_eq!(r.snapped_start_value, 52);
}

#[test]
fn a_blocked_snap_gives_way_to_the_raw_place() {
    // The magnet at 0 would overlap "b", the raw start does not.
    let seq = sequence(vec![
        track("1", TrackKind::Video, vec![clip("a", 100, 20)]),
        track("2", TrackKind::Video, vec![clip("b", 0, 3)]),
    ]);
    let r = resolve_clip_drag(&seq, "1", "a", -97, 1, -1000, 3);
    assert!(r.valid && !r.is_new_lane);
    assert_eq!(r.resolved_start, 3);
}

#[test]
fn drags_never_land_before_tick_zero() {
    let seq = sequence(vec![track("1", TrackKind::Video, vec![clip("a", 10, 20)])]);
    let r = resolve_clip_drag(&seq, "1", "a", -500, 0, -1000, 0);
    assert_eq!(r.resolved_start, 0);
}
