use cutlass_ui::group_drag::{group_floaters, resolve_group_drag, GroupDragResolution};
use cutlass_ui::model::{Clip, Color, Rational, RationalTime, Sequence, TimeRange, Track, TrackKind};
use cutlass_ui::selection::{
    prune_selection, resolve_marquee, select_clip, selection_contains, selection_has_link,
    toggle_clip, SelectionUpdate,
};

fn rt(value: i32) -> RationalTime {
    RationalTime {
        value,
        rate: Rational { num: 24, den: 1 },
    }
}

fn lane_color() -> Color {
    Color {
        red: 0x4A,
        green: 0x6F,
        blue: 0xA5,
        alpha: 255,
    }
}

fn sequence(tracks: Vec<Track>) -> Sequence {
    Sequence {
        id: "1".to_string(),
        name: "Sequence 1".to_string(),
        fps: Rational { num: 24, den: 1 },
        drop_frame: false,
        tracks,
        width: 1920,
        height: 1080,
    }
}

fn track(id: &str, kind: TrackKind, clips: Vec<Clip>) -> Track {
    Track {
        id: id.to_string(),
        name: id.to_string(),
        kind,
        color: lane_color(),
        clips,
        enabled: true,
        muted: false,
        locked: false,
        duck_source: false,
    }
}

fn clip(id: &str, start: i32, dur: i32) -> Clip {
    linked_clip(id, start, dur, "")
}

fn linked_clip(id: &str, start: i32, dur: i32, link: &str) -> Clip {
    Clip {
        id: id.to_string(),
        name: id.to_string(),
        timeline_start: rt(start),
        source_range: TimeRange {
            start: rt(0),
            duration: rt(dur),
        },
        link_id: link.to_string(),
        ..Clip::default()
    }
}

fn ids(values: &[&str]) -> Vec<String> {
    values.iter().map(|v| v.to_string()).collect()
}

fn ids_vec(ids: &Vec<String>) -> Vec<String> {
    ids.clone()
}

/// Marquee over fractional lane rows.
fn marquee(
    seq: &Sequence,
    tick0: i32,
    tick1: i32,
    row0: f32,
    row1: f32,
    link: bool,
) -> SelectionUpdate {
    resolve_marquee(
        seq,
        tick0,
        tick1,
        row0.floor() as i64,
        row1.ceil() as i64,
        link,
    )
}

/// Rows: 0 = V2 (video, clips A [0,50) B [100,40)), 1 = V1 (video,
/// C [0,80)), 2 = A1 (audio, D [0,50)). A and D share link "L".
fn sample() -> Sequence {
    sequence(vec![
        track(
            "2",
            TrackKind::Video,
            vec![linked_clip("A", 0, 50, "L"), clip("B", 100, 40)],
        ),
        track("1", TrackKind::Video, vec![clip("C", 0, 80)]),
        track("9", TrackKind::Audio, vec![linked_clip("D", 0, 50, "L")]),
    ])
}

// --- selection ----------------------------------------------------------

#[test]
fn contains_finds_member() {
    let set = ids(&["A", "D"]);
    assert!(selection_contains(&set, "A"));
    assert!(!selection_contains(&set, "B"));
}

#[test]
fn select_expands_link_group_when_linkage_on() {
    let seq = sample();
    let upd = select_clip(&seq, "2", "A", true);
    assert_eq!(ids_vec(&upd.ids), vec!["A", "D"]);
    assert_eq!(upd.primary_clip_id, "A");
    assert_eq!(upd.primary_track_id, "2");

    let off = select_clip(&seq, "2", "A", false);
    assert_eq!(ids_vec(&off.ids), vec!["A"]);
}

#[test]
fn toggle_adds_then_removes_link_group() {
    let seq = sample();
    let added = toggle_clip(&seq, &ids(&["B"]), "2", "A", true);
    assert_eq!(ids_vec(&added.ids), vec!["B", "A", "D"]);
    assert_eq!(added.primary_clip_id, "A");

    let removed = toggle_clip(&seq, &added.ids, "2", "A", true);
    assert_eq!(ids_vec(&removed.ids), vec!["B"]);
    // Primary re-anchors on the first remaining clip.
    assert_eq!(removed.primary_clip_id, "B");
    assert_eq!(removed.primary_track_id, "2");
}

#[test]
fn toggle_last_clip_clears_selection() {
    let seq = sample();
    let upd = toggle_clip(&seq, &ids(&["B"]), "2", "B", true);
    assert!(ids_vec(&upd.ids).is_empty());
    assert_eq!(upd.primary_clip_id, "");
}

#[test]
fn marquee_selects_intersecting_clips_and_links() {
    let seq = sample();
    // Rect over rows 0..1.5, ticks 10..60: hits A (row 0) and C (row 1);
    // A pulls in its linked partner D (group joins right after A).
    let upd = marquee(&seq, 10, 60, -0.2, 1.5, true);
    assert_eq!(ids_vec(&upd.ids), vec!["A", "D", "C"]);
    assert_eq!(upd.primary_clip_id, "A");

    // Linkage off: only the intersecting clips.
    let off = marquee(&seq, 10, 60, -0.2, 1.5, false);
    assert_eq!(ids_vec(&off.ids), vec!["A", "C"]);
}

#[test]
fn marquee_skips_locked_lanes_and_misses() {
    let mut locked = track("2", TrackKind::Video, vec![clip("A", 0, 50)]);
    locked.locked = true;
    let seq = sequence(vec![
        locked,
        track("1", TrackKind::Video, vec![clip("C", 0, 80)]),
    ]);
    let upd = marquee(&seq, 0, 100, -0.5, 2.0, true);
    assert_eq!(ids_vec(&upd.ids), vec!["C"]);

    let miss = marquee(&seq, 200, 300, -0.5, 2.0, true);
    assert!(ids_vec(&miss.ids).is_empty());
}

#[test]
fn has_link_spots_linked_members_only() {
    let seq = sample();
    // A carries link "L"; B is unlinked.
    assert!(selection_has_link(&seq, &ids(&["A", "B"])));
    assert!(!selection_has_link(&seq, &ids(&["B"])));
    assert!(!selection_has_link(&seq, &ids(&[])));
}

// --- prune (projection republish reconciliation) -------------------------

#[test]
fn prune_keeps_selection_when_clips_survive() {
    let seq = sample();
    let upd = prune_selection(&seq, &ids(&["A", "D"]), "A");
    assert_eq!(ids_vec(&upd.ids), vec!["A", "D"]);
    assert_eq!(upd.primary_clip_id, "A");
    assert_eq!(upd.primary_track_id, "2");
}

#[test]
fn prune_drops_vanished_ids_and_reanchors_primary() {
    let seq = sample();
    // "X" was deleted by the history step; it was also the primary, so
    // the anchor moves to the first surviving member in (row, start)
    // order — A on row 0.
    let upd = prune_selection(&seq, &ids(&["X", "D", "A"]), "X");
    assert_eq!(ids_vec(&upd.ids), vec!["D", "A"]);
    assert_eq!(upd.primary_clip_id, "A");
    assert_eq!(upd.primary_track_id, "2");
}

#[test]
fn prune_clears_when_nothing_survives() {
    let seq = sample();
    let upd = prune_selection(&seq, &ids(&["X", "Y"]), "X");
    assert!(ids_vec(&upd.ids).is_empty());
    assert_eq!(upd.primary_clip_id, "");
    assert_eq!(upd.primary_track_id, "");
}

#[test]
fn prune_remaps_primary_track_after_cross_lane_move() {
    // Undo of a cross-lane move: the clip id survives but now lives on a
    // different lane than the stored anchor track — follow the clip.
    let seq = sequence(vec![
        track("2", TrackKind::Video, vec![]),
        track("1", TrackKind::Video, vec![clip("A", 0, 50)]),
    ]);
    let upd = prune_selection(&seq, &ids(&["A"]), "A");
    assert_eq!(ids_vec(&upd.ids), vec!["A"]);
    assert_eq!(upd.primary_clip_id, "A");
    assert_eq!(upd.primary_track_id, "1");
}

// --- group drag -----------------------------------------------------------

#[test]
fn group_drag_moves_set_horizontally() {
    let seq = sample();
    // A (video row 0) + D (audio row 2): mixed kinds ⇒ row delta forced 0
    // even though the cursor wandered a row down.
    let r = resolve_group_drag(&seq, &ids(&["A", "D"]), "2", "A", 200, 1, 0, 0);
    assert!(r.valid && !r.is_noop);
    assert_eq!(r.resolved_dx_ticks, 200);
    assert_eq!(r.row_delta, 0);
    let moves = ids_moves(&r);
    assert!(moves.contains(&("A".into(), "2".into(), 200)));
    assert!(moves.contains(&("D".into(), "9".into(), 200)));
}

#[test]
fn group_drag_clamps_set_to_tick_zero() {
    let seq = sample();
    // B starts at 100, A at 0 — dragging left by 150 clamps at dx = 0
    // (A pins the set).
    let r = resolve_group_drag(&seq, &ids(&["A", "B"]), "2", "B", -150, 0, 0, 0);
    assert!(r.valid);
    assert_eq!(r.resolved_dx_ticks, 0);
}

#[test]
fn group_drag_conflict_rejects() {
    let seq = sample();
    // A+D dragged right by 90: A [90,140) would overlap B [100,140) on
    // its own lane — no fallback fits (audio partner pins the rows).
    let r = resolve_group_drag(&seq, &ids(&["A", "D"]), "2", "A", 90, 0, 0, 0);
    assert!(!r.valid);
}

#[test]
fn group_drag_uniform_kind_changes_rows() {
    // Two stacked video lanes plus an empty third: dragging the pair on
    // rows 0+1 down one row lands on rows 1+2.
    let seq = sequence(vec![
        track("3", TrackKind::Video, vec![clip("A", 0, 50)]),
        track("2", TrackKind::Video, vec![clip("B", 0, 50)]),
        track("1", TrackKind::Video, vec![]),
    ]);
    let r = resolve_group_drag(&seq, &ids(&["A", "B"]), "3", "A", 0, 1, 0, 0);
    assert!(r.valid);
    assert_eq!(r.row_delta, 1);
    let moves = ids_moves(&r);
    assert!(moves.contains(&("A".into(), "2".into(), 0)));
    assert!(moves.contains(&("B".into(), "1".into(), 0)));
}

#[test]
fn group_drag_falls_back_to_horizontal_when_rows_blocked() {
    // Set on the only video lane; hovering the audio row below can't
    // re-lane the set, so the move stays horizontal.
    let seq = sample();
    let r = resolve_group_drag(&seq, &ids(&["C"]), "1", "C", 200, 2, 0, 0);
    assert!(r.valid);
    assert_eq!(r.row_delta, 0);
    assert_eq!(r.resolved_dx_ticks, 200);
}

#[test]
fn group_drag_snaps_anchor_edges() {
    let seq = sample();
    // Dragging A+D right so A's start sits at 137: B's start (100) is
    // out of reach but B's end (140) magnets A's start within 5 ticks…
    // 140 collides with nothing (A [140,190), B ends at 140).
    let r = resolve_group_drag(&seq, &ids(&["A", "D"]), "2", "A", 137, 0, 0, 5);
    assert!(r.valid);
    assert!(r.has_snap);
    assert_eq!(r.resolved_dx_ticks, 140);
    assert_eq!(r.snap_line_tick, 140);
}

#[test]
fn group_drag_unmoved_is_noop() {
    let seq = sample();
    let r = resolve_group_drag(&seq, &ids(&["A", "D"]), "2", "A", 0, 0, 0, 0);
    assert!(r.valid && r.is_noop);
}

#[test]
fn group_drag_unknown_anchor_is_invalid() {
    let seq = sample();
    let r = resolve_group_drag(&seq, &ids(&["A"]), "2", "404", 0, 0, 0, 0);
    assert!(!r.valid);
}

#[test]
fn floaters_report_selected_rects() {
    let seq = sample();
    let floaters = group_floaters(&seq, &ids(&["A", "D"]));
    assert_eq!(floaters.len(), 2);
    let first = floaters[0];
    assert_eq!(
        (first.row, first.start_tick, first.duration_ticks),
        (0, 0, 50)
    );
    let second = floaters[1];
    assert_eq!(second.row, 2);
}

fn ids_moves(r: &GroupDragResolution) -> Vec<(String, String, i64)> {
    r.moves
        .iter()
        .map(|m| (m.clip_id.clone(), m.track_id.clone(), m.start_tick))
        .collect()
}

// --- further cases ------------------------------------------------------------

#[test]
fn groups_come_in_row_then_start_order() {
    let seq = sequence(vec![
        track(
            "1",
            TrackKind::Video,
            vec![linked_clip("late", 90, 5, "L"), linked_clip("early", 10, 5, "L")],
        ),
        track("2", TrackKind::Video, vec![linked_clip("below", 0, 5, "L")]),
    ]);
    let upd = select_clip(&seq, "2", "below", true);
    assert_eq!(ids_vec(&upd.ids), vec!["early", "late", "below"]);
}

#[test]
fn toggling_twice_restores_the_selection() {
    let seq = sample();
    let once = toggle_clip(&seq, &ids(&["B", "C"]), "2", "A", true);
    let twice = toggle_clip(&seq, &once.ids, "2", "A", true);
    assert_eq!(ids_vec(&twice.ids), vec!["B", "C"]);
}

#[test]
fn pruning_twice_changes_nothing_more() {
    let seq = sample();
    let once = prune_selection(&seq, &ids(&["X", "D", "A"]), "D");
    assert_eq!(once.primary_clip_id, "D");
    let twice = prune_selection(&seq, &once.ids, once.primary_clip_id.as_str());
    assert_eq!(once.ids, twice.ids);
    assert_eq!(once.primary_clip_id, twice.primary_clip_id);
}

#[test]
fn a_locked_lane_rejects_a_dragged_set() {
    let mut locked = track("2", TrackKind::Video, vec![clip("A", 0, 50)]);
    locked.locked = true;
    let seq = sequence(vec![locked]);
    let r = resolve_group_drag(&seq, &ids(&["A"]), "2", "A", 10, 0, 0, 0);
    assert!(!r.valid && r.moves.is_empty() && r.ghosts.is_empty());
}
