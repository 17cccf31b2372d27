use std::collections::HashMap;

use cutlass_ui::projection::{
    canvas_size, duration_label, kind_color, minutes_label, project_to_slint,
    room_to_sequence_ticks, to_even, UNBOUNDED_ROOM,
};
use cutlass_ui::inspector::{TextAlignH, TextAlignV, TextCase, TextStyle};
use cutlass_ui::model::Color;
use cutlass_ui::project::{Generator, Shape};
use cutlass_ui::text::{decimal_text, parse_raw_id};
use cutlass_ui::audio::Param;
use cutlass_ui::model::{MediaTime, Rational, TrackKind, TransformBits};
use cutlass_ui::project::{
    Animation, ClipSound, ClipSource, Lane, MediaSource, Project, ProjectClip, SourceRange,
};

const FPS_24: Rational = Rational { num: 24, den: 1 };

fn still() -> TransformBits {
    TransformBits {
        position_x: 0,
        position_y: 0,
        anchor_x: 0,
        anchor_y: 0,
        scale: 1.0f32.to_bits(),
        rotation: 0,
        opacity: 1.0f32.to_bits(),
    }
}

fn sound() -> ClipSound {
    ClipSound {
        silent: false,
        retimed: false,
        reversed: false,
        pitch_bits: 1.0f32.to_bits(),
        speed_curve: None,
        volume: Param::Constant(1.0f32.to_bits()),
        fade_in: 0,
        fade_out: 0,
    }
}

fn unanimated() -> Animation {
    Animation {
        position: Vec::new(),
        anchor: Vec::new(),
        scale: Vec::new(),
        rotation: Vec::new(),
        opacity: Vec::new(),
    }
}

/// A media-backed clip at `[start, start + duration)` cut at `source`.
fn media_clip(id: u64, media: u64, source: i64, start: i64, duration: i64) -> ProjectClip {
    ProjectClip {
        id,
        start,
        duration,
        content: ClipSource::Media {
            media,
            source: SourceRange {
                start: source,
                duration,
                rate: FPS_24,
            },
        },
        link: None,
        transform: still(),
        animation: unanimated(),
        sound: sound(),
    }
}

fn lane(id: u64, kind: TrackKind, clips: Vec<ProjectClip>) -> Lane {
    Lane {
        id,
        name: format!("L{id}"),
        kind,
        enabled: true,
        muted: false,
        locked: false,
        duck_source: false,
        clips,
    }
}

fn source(id: u64, ticks: i64) -> MediaSource {
    MediaSource {
        id,
        path: format!("/tmp/{id}.mp4"),
        stem: Some(format!("{id}")),
        width: 1920,
        height: 1080,
        frame_rate: FPS_24,
        duration: MediaTime {
            value: ticks,
            rate: FPS_24,
        },
        has_audio: false,
        audio_only: false,
    }
}

fn project(lanes: Vec<Lane>, media: Vec<MediaSource>) -> Project {
    Project {
        id: 1,
        name: "fixture".to_string(),
        frame_rate: FPS_24,
        lanes,
        media,
    }
}

fn t(value: i64, num: i32, den: i32) -> MediaTime {
    MediaTime {
        value,
        rate: Rational { num, den },
    }
}

fn time_to_seconds(time: MediaTime) -> f64 {
    if time.rate.num <= 0 || time.rate.den <= 0 {
        return 0.0;
    }
    time.value as f64 * f64::from(time.rate.den) / f64::from(time.rate.num)
}

/// The badge: tenths of a second under a minute, minutes and seconds above.
fn clip_duration_label(duration: MediaTime) -> String {
    let secs = time_to_seconds(duration).max(0.0);
    if secs < 60.0 {
        format!("{secs:.1}s")
    } else {
        minutes_label(secs.round() as u64)
    }
}

#[test]
fn duration_label_switches_to_timecode_at_a_minute() {
    assert_eq!(clip_duration_label(t(1800, 30, 1)), "1:00");
    // 1h 0m 23s at 30fps.
    assert_eq!(clip_duration_label(t(30 * 3623, 30, 1)), "1:00:23");
}

#[test]
fn duration_label_handles_ntsc_rates() {
    // Exactly 60 logical frames at 29.97: just under 60.06s.
    assert_eq!(clip_duration_label(t(1800, 30000, 1001)), "1:00");
}

#[test]
fn source_lengths_round_to_the_nearest_second() {
    assert_eq!(duration_label(t(0, 30, 1)), "00:00");
    assert_eq!(duration_label(t(44, 30, 1)), "00:01");
    assert_eq!(duration_label(t(45, 30, 1)), "00:02");
    assert_eq!(duration_label(t(30 * 61, 30, 1)), "01:01");
    assert_eq!(duration_label(t(30 * 36_061, 30, 1)), "10:01:01");
    assert_eq!(duration_label(t(-9, 30, 1)), "00:00");
    assert_eq!(duration_label(t(9, 0, 1)), "");
}

#[test]
fn rooms_never_offer_more_than_the_media_has() {
    let ntsc = Rational { num: 24000, den: 1001 };
    assert_eq!(room_to_sequence_ticks(100, FPS_24, FPS_24), 100);
    assert_eq!(room_to_sequence_ticks(-5, FPS_24, FPS_24), 0);
    // Another rate keeps one media tick in reserve.
    assert_eq!(room_to_sequence_ticks(100, ntsc, FPS_24), 99);
    assert_eq!(room_to_sequence_ticks(0, ntsc, FPS_24), 0);
    // 30fps media on a 24fps timeline: 99 usable ticks are 79.2 sequence ticks.
    let thirty = Rational { num: 30, den: 1 };
    assert_eq!(room_to_sequence_ticks(100, thirty, FPS_24), 79);
}

#[test]
fn even_sizes_round_up() {
    assert_eq!(to_even(1080), 1080);
    assert_eq!(to_even(1081), 1082);
    assert_eq!(to_even(0), 0);
}

fn plain_style() -> TextStyle {
    TextStyle {
        font: "Sans".to_string(),
        size: 48.0f32.to_bits(),
        bold: true,
        italic: false,
        underline: false,
        case: TextCase::Upper,
        fill: Color { red: 1, green: 2, blue: 3, alpha: 255 },
        letter_spacing: 0,
        line_spacing: 1.0f32.to_bits(),
        align_h: TextAlignH::Left,
        align_v: TextAlignV::Bottom,
        wrap: false,
        stroke: None,
        background: None,
        shadow: None,
    }
}

fn film() -> Project {
    let mut wide = source(3, 100);
    wide.width = 3841;
    wide.height = 719;
    wide.stem = None;
    let mut song = source(2, 48);
    song.audio_only = true;
    song.has_audio = true;
    let mut clip = media_clip(11, 3, 20, 5, 30);
    clip.link = Some(77);
    let title = ProjectClip {
        id: 12,
        start: 0,
        duration: 24,
        content: ClipSource::Generated(Generator::Text {
            content: "Hello".to_string(),
            style: plain_style(),
        }),
        link: None,
        transform: still(),
        animation: unanimated(),
        sound: sound(),
    };
    let lost = media_clip(13, 99, 0, 40, 10);
    project(
        vec![
            lane(20, TrackKind::Video, vec![clip, lost]),
            lane(21, TrackKind::Text, vec![title]),
        ],
        vec![wide, song],
    )
}

#[test]
fn the_view_lists_lanes_top_first() {
    let mut sizes = HashMap::new();
    sizes.insert(12, (300, 40));
    let mut badges = HashMap::new();
    badges.insert(11, "1.2s".to_string());
    let ui = project_to_slint(&film(), &sizes, &badges);
    assert_eq!((ui.id.as_str(), ui.title.as_str()), ("1", "fixture"));
    assert_eq!(ui.sequence.name, "Sequence 1");
    assert_eq!((ui.sequence.width, ui.sequence.height), (3842, 720));
    let rows: Vec<&str> = ui.sequence.tracks.iter().map(|t| t.id.as_str()).collect();
    assert_eq!(rows, vec!["21", "20"]);
    assert_eq!(ui.sequence.tracks[0].color, kind_color(TrackKind::Text));

    let title = &ui.sequence.tracks[0].clips[0];
    assert_eq!((title.name.as_str(), title.text_content.as_str()), ("Text", "Hello"));
    assert_eq!(title.generator_kind, "text");
    assert_eq!((title.media_width, title.media_height), (300, 40));
    assert_eq!(title.head_room_ticks, UNBOUNDED_ROOM);
    assert_eq!(title.media_id, "");

    let clip = &ui.sequence.tracks[1].clips[0];
    assert_eq!(clip.name, "Media 3");
    assert_eq!(clip.link_id, "77");
    assert_eq!(clip.duration_label, "1.2s");
    assert_eq!((clip.head_room_ticks, clip.tail_room_ticks), (20, 50));
    assert_eq!((clip.timeline_start.value, clip.source_range.duration.value), (5, 30));
    assert_eq!((clip.media_id.as_str(), clip.source_in.value), ("3", 20));
    assert_eq!((clip.media_width, clip.media_height), (3841, 719));

    // Media that left the pool: named by the clip, no rooms, no size.
    let lost = &ui.sequence.tracks[1].clips[1];
    assert_eq!(lost.name, "Clip 13");
    assert_eq!((lost.head_room_ticks, lost.media_width), (0, 0));
}

#[test]
fn the_pool_is_ordered_by_id() {
    let ui = project_to_slint(&film(), &HashMap::new(), &HashMap::new());
    let ids: Vec<&str> = ui.media.iter().map(|m| m.id.as_str()).collect();
    assert_eq!(ids, vec!["2", "3"]);
    assert_eq!(ui.media[0].duration_label, "00:02");
    assert_eq!(ui.media[0].duration_ticks, 48);
    assert_eq!(ui.media_audio.len(), 1);
    assert_eq!(ui.media_audio[0].id, "2");
}

#[test]
fn shapes_show_their_fill() {
    let mut p = film();
    let fill = Color { red: 9, green: 8, blue: 7, alpha: 255 };
    p.lanes[1].clips[0].content = ClipSource::Generated(Generator::Shape {
        shape: Shape::Rectangle,
        rgba: fill,
        width: 0,
        height: 0,
    });
    let ui = project_to_slint(&p, &HashMap::new(), &HashMap::new());
    let card = &ui.sequence.tracks[0].clips[0];
    assert_eq!((card.name.as_str(), card.generator_kind.as_str()), ("Shape", "rect"));
    assert_eq!(card.fill_color, fill);
    assert_eq!((card.media_width, card.media_height), (0, 0));
}

#[test]
fn an_empty_project_has_the_default_canvas() {
    assert_eq!(canvas_size(&project(Vec::new(), Vec::new())), (1920, 1080));
}

#[test]
fn ids_read_back_from_their_text() {
    for id in [0, 7, 10, 9_999, u64::MAX] {
        assert_eq!(parse_raw_id(&decimal_text(id)), Some(id));
    }
    assert_eq!(decimal_text(1_204), "1204");
    assert_eq!(parse_raw_id("+12"), Some(12));
    assert_eq!(parse_raw_id("007"), Some(7));
    for bad in ["", "+", "-1", "1 ", "1e3", "18446744073709551616", "٣", "++1"] {
        assert_eq!(parse_raw_id(bad), None, "{bad}");
        assert_eq!(bad.parse::<u64>().ok(), None, "{bad}");
    }
}
