use cutlass_ui::model::{Clip, Color, Rational, RationalTime, Sequence, TimeRange, Track, TrackKind};
use cutlass_ui::preview_pick::{
    covers_tick, draggable_clip, hit_candidates, hit_test, is_composited, outlined_clip, ClipAt,
};

fn rt(value: i32) -> RationalTime {
    RationalTime {
        value,
        rate: Rational { num: 24, den: 1 },
    }
}

fn lane_color() -> Color {
    Color {
        red: 0x4A,
        green: 0x6F,
        blue: 0xA5,
        alpha: 255,
    }
}

fn sequence(tracks: Vec<Track>) -> Sequence {
    Sequence {
        id: "1".to_string(),
        name: "Sequence 1".to_string(),
        fps: Rational { num: 24, den: 1 },
        drop_frame: false,
        tracks,
        width: 1920,
        height: 1080,
    }
}

fn track(id: &str, kind: TrackKind, clips: Vec<Clip>) -> Track {
    Track {
        id: id.to_string(),
        name: id.to_string(),
        kind,
        color: lane_color(),
        clips,
        enabled: true,
        muted: false,
        locked: false,
        duck_source: false,
    }
}

fn clip(id: &str, start: i32, dur: i32) -> Clip {
    Clip {
        id: id.to_string(),
        timeline_start: rt(start),
        source_range: TimeRange {
            start: rt(0),
            duration: rt(dur),
        },
        media_id: "1".to_string(),
        ..Clip::default()
    }
}

fn at(row: usize, index: usize) -> ClipAt {
    ClipAt { row, index }
}

fn stack() -> Sequence {
    let mut locked = track("4", TrackKind::Video, vec![clip("locked", 0, 50)]);
    locked.locked = true;
    let mut hidden = track("3", TrackKind::Video, vec![clip("hidden", 0, 50)]);
    hidden.enabled = false;
    let mut sticker = clip("sticker", 0, 50);
    sticker.media_id = String::new();
    sticker.generator_kind = "".to_string();
    sequence(vec![
        locked,
        hidden,
        track("2", TrackKind::Video, vec![clip("top", 0, 50), sticker]),
        track("9", TrackKind::Audio, vec![clip("sound", 0, 50)]),
        track("1", TrackKind::Video, vec![clip("later", 50, 50), clip("bottom", 0, 50)]),
    ])
}

#[test]
fn candidates_are_visible_unlocked_and_topmost_first() {
    let seq = stack();
    assert_eq!(hit_candidates(&seq, 10), vec![at(2, 0), at(4, 1)]);
    assert_eq!(hit_candidates(&seq, 60), vec![at(4, 0)]);
    assert!(hit_candidates(&seq, 100).is_empty());
}

#[test]
fn the_first_candidate_under_the_cursor_wins() {
    let seq = stack();
    let hit = hit_test(&seq, 10, &vec![true, true]);
    assert_eq!((hit.track_id.as_str(), hit.clip_id.as_str()), ("2", "top"));
    let below = hit_test(&seq, 10, &vec![false, true]);
    assert_eq!((below.track_id.as_str(), below.clip_id.as_str()), ("1", "bottom"));
    let miss = hit_test(&seq, 10, &vec![false, false]);
    assert_eq!((miss.track_id.as_str(), miss.clip_id.as_str()), ("", ""));
}

#[test]
fn gestures_and_outlines_find_their_clip() {
    let seq = stack();
    assert_eq!(draggable_clip(&seq, "top"), Some(at(2, 0)));
    for id in ["locked", "hidden", "sound", "sticker", "nowhere", ""] {
        assert_eq!(draggable_clip(&seq, id), None, "{id}");
    }
    assert_eq!(outlined_clip(&seq, "later", 60), Some(at(4, 0)));
    assert_eq!(outlined_clip(&seq, "later", 10), None);
    // A locked lane still shows its outline, a hidden one does not.
    assert_eq!(outlined_clip(&seq, "locked", 10), Some(at(0, 0)));
    assert_eq!(outlined_clip(&seq, "hidden", 10), None);
}

#[test]
fn drawn_generators_have_a_picture() {
    let mut c = clip("x", 5, 5);
    assert!(is_composited(&c));
    c.media_id = String::new();
    for kind in ["text", "solid", "rect", "ellipse"] {
        c.generator_kind = kind.to_string();
        assert!(is_composited(&c), "{kind}");
    }
    c.generator_kind = "filter".to_string();
    assert!(!is_composited(&c));
    assert!(!covers_tick(&c, 4) && covers_tick(&c, 5) && covers_tick(&c, 9) && !covers_tick(&c, 10));
}

// --- picking with a pointer ---------------------------------------------------

// Viewport at exactly half the canvas: scale 0.5, no letterbox.
const VW: f32 = 960.0;
const VH: f32 = 540.0;

fn media_clip(id: &str, start: i32, dur: i32, w: i32, h: i32) -> Clip {
    let mut c = clip(id, start, dur);
    c.media_id = "m1".to_string();
    c.media_width = w;
    c.media_height = h;
    c
}

/// Whether the clip's centered, upright quad holds a canvas point.
fn holds(seq: &Sequence, c: &Clip, px: f32, py: f32) -> bool {
    let (cw, ch) = (seq.width as f32, seq.height as f32);
    let (w, h) = if c.media_width > 0 && c.media_height > 0 {
        (c.media_width as f32, c.media_height as f32)
    } else {
        (cw, ch)
    };
    let fit = if c.media_id.is_empty() { 1.0 } else { (cw / w).min(ch / h) };
    (px - cw / 2.0).abs() <= w * fit / 2.0 && (py - ch / 2.0).abs() <= h * fit / 2.0
}

/// The clip under viewport point `(x, y)`, or empty.
fn pick(seq: &Sequence, tick: i32, x: f32, y: f32, vw: f32, vh: f32) -> (String, String) {
    let scale = (vw / seq.width as f32).min(vh / seq.height as f32);
    let (px, py) = (x / scale, y / scale);
    let inside = hit_candidates(seq, tick)
        .iter()
        .map(|c| holds(seq, &seq.tracks[c.row].clips[c.index], px, py))
        .collect();
    let hit = hit_test(seq, tick, &inside);
    (hit.track_id, hit.clip_id)
}

#[test]
fn hit_picks_topmost_layer() {
    let seq = sequence(vec![
        track("2", TrackKind::Video, vec![media_clip("top", 0, 100, 1920, 1080)]),
        track("1", TrackKind::Video, vec![media_clip("bottom", 0, 100, 1920, 1080)]),
    ]);
    let hit = pick(&seq, 10, 480.0, 270.0, VW, VH);
    assert_eq!((hit.0.as_str(), hit.1.as_str()), ("2", "top"));
}

#[test]
fn hit_skips_locked_hidden_and_audio_lanes() {
    let mut locked = track("3", TrackKind::Video, vec![media_clip("locked", 0, 100, 1920, 1080)]);
    locked.locked = true;
    let mut hidden = track("2", TrackKind::Video, vec![media_clip("hidden", 0, 100, 1920, 1080)]);
    hidden.enabled = false;
    let seq = sequence(vec![
        locked,
        hidden,
        track("9", TrackKind::Audio, vec![media_clip("audio", 0, 100, 0, 0)]),
        track("1", TrackKind::Video, vec![media_clip("base", 0, 100, 1920, 1080)]),
    ]);
    let hit = pick(&seq, 10, 480.0, 270.0, VW, VH);
    assert_eq!(hit.1.as_str(), "base");
}

#[test]
fn hit_respects_playhead_coverage() {
    let seq = sequence(vec![track(
        "1",
        TrackKind::Video,
        vec![media_clip("A", 50, 50, 1920, 1080)],
    )]);
    assert_eq!(pick(&seq, 49, 480.0, 270.0, VW, VH).1.as_str(), "");
    assert_eq!(pick(&seq, 50, 480.0, 270.0, VW, VH).1.as_str(), "A");
    assert_eq!(pick(&seq, 99, 480.0, 270.0, VW, VH).1.as_str(), "A");
    assert_eq!(pick(&seq, 100, 480.0, 270.0, VW, VH).1.as_str(), "");
}

fn generated_clip(id: &str, kind: &str, w: i32, h: i32) -> Clip {
    let mut clip = media_clip(id, 0, 100, w, h);
    clip.media_id = String::new();
    clip.generator_kind = kind.to_string();
    clip
}

#[test]
fn generators_without_bounds_hit_at_canvas_size() {
    let clip = generated_clip("T", "text", 0, 0);
    let mut sticker = generated_clip("S", "", 0, 0); // not composited yet
    sticker.generator_kind = String::new();
    let seq = sequence(vec![
        track("2", TrackKind::Video, vec![sticker]),
        track("1", TrackKind::Video, vec![clip]),
    ]);
    let hit = pick(&seq, 10, 480.0, 270.0, VW, VH);
    assert_eq!(hit.1.as_str(), "T", "sticker lane falls through");
}

#[test]
fn generator_hit_uses_content_bounds() {
    // Content 960x540 centered on the 1920x1080 canvas spans
    // [480,1440]x[270,810] in canvas px: half that in the viewport.
    let seq = sequence(vec![track(
        "1",
        TrackKind::Video,
        vec![generated_clip("E", "ellipse", 960, 540)],
    )]);
    assert_eq!(pick(&seq, 10, 480.0, 270.0, VW, VH).1.as_str(), "E");
    // Inside the canvas but outside the drawn content: falls through.
    assert_eq!(pick(&seq, 10, 100.0, 50.0, VW, VH).1.as_str(), "");
}

#[test]
fn selection_box_hides_when_off_playhead_or_hidden() {
    let mut hidden = track("2", TrackKind::Video, vec![media_clip("H", 0, 100, 1920, 1080)]);
    hidden.enabled = false;
    let seq = sequence(vec![
        hidden,
        track("1", TrackKind::Video, vec![media_clip("A", 50, 50, 1920, 1080)]),
    ]);
    assert!(outlined_clip(&seq, "", 60).is_none());
    assert!(outlined_clip(&seq, "A", 10).is_none(), "off playhead");
    assert!(outlined_clip(&seq, "A", 60).is_some());
    assert!(outlined_clip(&seq, "H", 60).is_none(), "hidden lane");
    assert!(outlined_clip(&seq, "404", 60).is_none());
}

#[test]
fn drag_rejects_locked_hidden_and_unknown_clips() {
    let mut locked = track("2", TrackKind::Video, vec![media_clip("L", 0, 100, 1920, 1080)]);
    locked.locked = true;
    let mut hidden = track("3", TrackKind::Video, vec![media_clip("H", 0, 100, 1920, 1080)]);
    hidden.enabled = false;
    let seq = sequence(vec![
        locked,
        hidden,
        track("1", TrackKind::Video, vec![media_clip("A", 0, 100, 1920, 1080)]),
    ]);
    assert!(draggable_clip(&seq, "L").is_none());
    assert!(draggable_clip(&seq, "H").is_none());
    assert!(draggable_clip(&seq, "404").is_none());
    assert!(draggable_clip(&seq, "A").is_some());
}
