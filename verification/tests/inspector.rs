use cutlass_ui::inspector::{
    can_duck_under_voice, filter_fonts, resolve_selection, sample_audio, sample_transform,
    text_style_from_ui, title_from_ui, TextAlignH, TextAlignV, TextCase, TextClipStyle,
};
use cutlass_ui::project::Generator;
use cutlass_ui::model::{Clip, Color, Rational, Sequence, Track, TrackKind, TransformBits};

fn black() -> Color {
    Color {
        red: 0,
        green: 0,
        blue: 0,
        alpha: 0,
    }
}

fn track(id: &str, kind: TrackKind, duck_source: bool) -> Track {
    Track {
        id: id.to_string(),
        name: id.to_string(),
        kind,
        color: black(),
        clips: Vec::new(),
        enabled: true,
        muted: false,
        locked: false,
        duck_source,
    }
}

fn sequence(tracks: Vec<Track>) -> Sequence {
    Sequence {
        id: String::new(),
        name: String::new(),
        fps: Rational { num: 0, den: 0 },
        drop_frame: false,
        width: 0,
        height: 0,
        tracks,
    }
}

#[test]
fn duck_gate_needs_a_voice_lane_other_than_the_clips_own() {
    // Lane "1" is plain music, lane "2" is tagged as the voice source.
    let seq = sequence(vec![
        track("1", TrackKind::Audio, false),
        track("2", TrackKind::Audio, true),
    ]);
    // A music clip on "1" can duck under the voice on "2".
    assert!(can_duck_under_voice(&seq, "1"));
    // From the voice lane itself there is no *other* voice lane.
    assert!(!can_duck_under_voice(&seq, "2"));
}

#[test]
fn duck_gate_is_false_without_any_voice_lane() {
    let seq = sequence(vec![
        track("1", TrackKind::Audio, false),
        track("2", TrackKind::Audio, false),
    ]);
    assert!(!can_duck_under_voice(&seq, "1"));
}

#[test]
fn duck_gate_ignores_a_voice_flag_on_a_non_audio_lane() {
    // A duck_source flag is inert on a video lane (the toggle is audio-only).
    let seq = sequence(vec![
        track("1", TrackKind::Audio, false),
        track("2", TrackKind::Video, true),
    ]);
    assert!(!can_duck_under_voice(&seq, "1"));
}

#[test]
fn the_selected_clip_is_found_on_its_lane() {
    let mut lane = track("4", TrackKind::Text, false);
    lane.clips.push(Clip {
        id: "9".to_string(),
        text_content: "Hi".to_string(),
        ..Clip::default()
    });
    let seq = sequence(vec![track("1", TrackKind::Video, false), lane]);
    let hit = resolve_selection(&seq, "4", "9");
    assert!(hit.found);
    assert_eq!(hit.track_kind, TrackKind::Text);
    assert_eq!(hit.clip.text_content, "Hi");
    for (t, c) in [("1", "9"), ("4", "8"), ("", "9"), ("4", "")] {
        let miss = resolve_selection(&seq, t, c);
        assert!(!miss.found);
        assert_eq!(miss.track_kind, TrackKind::Video);
        assert_eq!(miss.clip.id, "");
    }
}

#[test]
fn samples_carry_values_and_rows() {
    let bits = TransformBits {
        position_x: 1,
        position_y: 2,
        anchor_x: 3,
        anchor_y: 4,
        scale: 5,
        rotation: 6,
        opacity: 7,
    };
    let s = sample_transform(bits, 'p', 'a', 's', 'r', 'o');
    assert_eq!(s.values, bits);
    assert_eq!(
        (s.position_row, s.anchor_row, s.scale_row, s.rotation_row, s.opacity_row),
        ('p', 'a', 's', 'r', 'o')
    );
    let a = sample_audio(9, 'v');
    assert_eq!((a.volume, a.volume_row), (9, 'v'));
}

fn ui_style() -> TextClipStyle {
    let blue = Color {
        red: 1,
        green: 2,
        blue: 3,
        alpha: 255,
    };
    TextClipStyle {
        font: "Inter".to_string(),
        size: 40.0f32.to_bits(),
        bold: true,
        italic: false,
        underline: true,
        case: 3,
        fill: blue,
        letter_spacing: 0,
        line_spacing: 1,
        align_h: 2,
        align_v: 7,
        wrap: true,
        stroke_enabled: false,
        stroke_color: blue,
        stroke_width: 2,
        background_enabled: true,
        background_color: blue,
        background_alpha: 128,
        background_radius: 4,
        shadow_enabled: true,
        shadow_color: blue,
        shadow_alpha: 0,
        shadow_blur: 5,
        shadow_distance: 6,
    }
}

#[test]
fn text_styles_fold_opacity_and_drop_disabled_effects() {
    let style = text_style_from_ui(&ui_style());
    assert_eq!(style.font, "Inter");
    assert_eq!(style.case, TextCase::Title);
    assert_eq!(style.align_h, TextAlignH::Right);
    assert_eq!(style.align_v, TextAlignV::Middle);
    assert!(style.stroke.is_none());
    let plate = style.background.expect("background");
    assert_eq!((plate.rgba.red, plate.rgba.alpha, plate.radius), (1, 128, 4));
    let shadow = style.shadow.expect("shadow");
    assert_eq!((shadow.rgba.alpha, shadow.blur, shadow.distance), (0, 5, 6));
}

#[test]
fn fonts_filter_without_regard_to_case() {
    let families: Vec<String> = ["Inter", "IBM Plex Sans", "Source Sans", "ÄRIAL"]
        .iter()
        .map(|s| s.to_string())
        .collect();
    assert_eq!(filter_fonts("SANS", &families), vec!["IBM Plex Sans", "Source Sans"]);
    assert_eq!(filter_fonts("", &families).len(), 4);
    assert_eq!(filter_fonts("äri", &families), vec!["ÄRIAL"]);
    assert!(filter_fonts("mono", &families).is_empty());
}

#[test]
fn a_title_edit_carries_text_and_style() {
    match title_from_ui("Hi", &ui_style()) {
        Generator::Text { content, style } => {
            assert_eq!(content, "Hi");
            assert_eq!((style.font.as_str(), style.underline), ("Inter", true));
        }
        other => panic!("{other:?}"),
    }
}
