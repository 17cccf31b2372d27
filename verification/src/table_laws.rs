//! What names and picker positions stand for: laws over every text and every position.

use vstd::prelude::*;

use crate::agent::{abort_text, stage_after, stage_error, PromptStage, StageEvent};
use crate::audio::{file_of, reader_serves, render_serves, same_settings, RenderKey, ResolvedSpan};
use crate::clip_edits::{clears_ramp, generator_of, is_animated, marker_color, param_of, track_flag,
    white, ClipParam, FreshLook, GeneratorView, MarkerColor, ParamValue, TrackFlag};
use crate::edits::prefix_of;
use crate::inspector::{align_h_of, align_v_of, case_of, TextAlignH, TextAlignV, TextCase};
use crate::model::{Color, TrackKind};
use crate::project::{Animation, ClipSource, Generator, MediaSource, Project, ProjectClip, Shape};
use crate::projection::{color_of_kind, labels_of, name_of, natural_size, visual_of};
use crate::text::decimal;

verus! {

// --- properties -----------------------------------------------------------

/// A property is named by its own key and by no other. Position and anchor take both
/// numbers, the others the first.
pub proof fn law_keys_name_properties(key: Seq<char>, x: u32, y: u32)
    ensures
        ({
            let r = param_of(key, x, y);
            let pair = ParamValue::Vec2(x, y);
            let one = ParamValue::Scalar(x);
            &&& (r == Some((ClipParam::Position, pair))) == (key == "position"@)
            &&& (r == Some((ClipParam::AnchorPoint, pair))) == (key == "anchor"@)
            &&& (r == Some((ClipParam::Scale, one))) == (key == "scale"@)
            &&& (r == Some((ClipParam::Rotation, one))) == (key == "rotation"@)
            &&& (r == Some((ClipParam::Opacity, one))) == (key == "opacity"@)
            &&& (r == Some((ClipParam::Volume, one))) == (key == "volume"@)
            &&& r matches Some((param, value)) ==> value == (if param == ClipParam::Position || param
                == ClipParam::AnchorPoint {
                pair
            } else {
                one
            })
        }),
{
    reveal_strlit("position");
    reveal_strlit("anchor");
    reveal_strlit("scale");
    reveal_strlit("rotation");
    reveal_strlit("opacity");
    reveal_strlit("volume");
    assert("position"@[0] == 'p' && "anchor"@[0] == 'a' && "scale"@[0] == 's');
    assert("rotation"@[0] == 'r' && "opacity"@[0] == 'o' && "volume"@[0] == 'v');
}

/// A clip counts as animated exactly when one of its transform properties has keyframes.
pub proof fn law_animated_clips_have_keyframes(a: Animation)
    ensures
        is_animated(a) == !(a.position@.len() == 0 && a.anchor@.len() == 0 && a.scale@.len() == 0
            && a.rotation@.len() == 0 && a.opacity@.len() == 0),
{
}

// --- library tiles --------------------------------------------------------

/// A tile key makes its own content and no other: a title with the fresh style, a dark
/// solid, or a white shape of the fresh size.
pub proof fn law_tiles_make_their_content(key: Seq<char>, look: FreshLook)
    ensures
        ({
            let r = generator_of(key, look);
            let paper = Color { red: 255, green: 255, blue: 255, alpha: 255 };
            &&& (r is Some && r->0 is Text) == (key == "text"@)
            &&& (r == Some(
                GeneratorView::SolidColor(Color { red: 30, green: 30, blue: 30, alpha: 255 }),
            )) == (key == "solid"@)
            &&& (r == Some(
                GeneratorView::Shape(Shape::Rectangle, paper, look.width, look.height),
            )) == (key == "rect"@)
            &&& (r == Some(GeneratorView::Shape(Shape::Ellipse, paper, look.width, look.height)))
                == (key == "ellipse"@)
            &&& r is Some && r->0 is Text ==> r->0 == GeneratorView::Text("Title"@, look.style)
            &&& r is Some ==> key == "text"@ || key == "solid"@ || key == "rect"@ || key
                == "ellipse"@
        }),
{
    reveal_strlit("text");
    reveal_strlit("solid");
    reveal_strlit("rect");
    reveal_strlit("ellipse");
    assert("text"@[0] == 't' && "solid"@[0] == 's' && "rect"@[0] == 'r' && "ellipse"@[0] == 'e');
}

// --- markers and switches -------------------------------------------------

/// A marker colour has its own name and no other.
pub proof fn law_marker_colors_have_names(name: Seq<char>)
    ensures
        (marker_color(name) == Some(MarkerColor::Teal)) == (name == "teal"@),
        (marker_color(name) == Some(MarkerColor::Blue)) == (name == "blue"@),
        (marker_color(name) == Some(MarkerColor::Purple)) == (name == "purple"@),
        (marker_color(name) == Some(MarkerColor::Pink)) == (name == "pink"@),
        (marker_color(name) == Some(MarkerColor::Red)) == (name == "red"@),
        (marker_color(name) == Some(MarkerColor::Orange)) == (name == "orange"@),
        (marker_color(name) == Some(MarkerColor::Yellow)) == (name == "yellow"@),
        (marker_color(name) == Some(MarkerColor::Green)) == (name == "green"@),
{
    reveal_strlit("teal");
    reveal_strlit("blue");
    reveal_strlit("purple");
    reveal_strlit("pink");
    reveal_strlit("red");
    reveal_strlit("orange");
    reveal_strlit("yellow");
    reveal_strlit("green");
    assert("teal"@[0] == 't' && "blue"@[0] == 'b' && "purple"@[1] == 'u' && "pink"@[1] == 'i');
    assert("red"@[0] == 'r' && "orange"@[0] == 'o' && "yellow"@[0] == 'y' && "green"@[0] == 'g');
    assert("purple"@[0] == 'p' && "pink"@[0] == 'p');
}

/// A header switch has its own key and no other.
pub proof fn law_switches_have_keys(key: Seq<char>)
    ensures
        (track_flag(key) == Some(TrackFlag::Enabled)) == (key == "enabled"@),
        (track_flag(key) == Some(TrackFlag::Muted)) == (key == "muted"@),
        (track_flag(key) == Some(TrackFlag::Locked)) == (key == "locked"@),
        (track_flag(key) == Some(TrackFlag::DuckSource)) == (key == "duck-source"@),
{
    reveal_strlit("enabled");
    reveal_strlit("muted");
    reveal_strlit("locked");
    reveal_strlit("duck-source");
    assert("enabled"@[0] == 'e' && "muted"@[0] == 'm');
    assert("locked"@[0] == 'l' && "duck-source"@[0] == 'd');
}

/// A ramp is cleared by the empty name and by the two names for it, and by no other.
pub proof fn law_ramps_are_cleared_by_name(name: Seq<char>)
    ensures
        clears_ramp(name) == (name.len() == 0 || name == "none"@ || name == "normal"@),
{
    reveal_strlit("");
    if name.len() == 0 {
        assert(name =~= ""@);
    }
}

// --- pickers --------------------------------------------------------------

/// The pickers of a title have one position for each choice, and any other position stands
/// for the plain one.
pub proof fn law_pickers_have_positions(n: i32)
    ensures
        (case_of(n) == TextCase::Upper) == (n == 1),
        (case_of(n) == TextCase::Lower) == (n == 2),
        (case_of(n) == TextCase::Title) == (n == 3),
        (align_h_of(n) == TextAlignH::Left) == (n == 0),
        (align_h_of(n) == TextAlignH::Right) == (n == 2),
        (align_v_of(n) == TextAlignV::Top) == (n == 0),
        (align_v_of(n) == TextAlignV::Bottom) == (n == 2),
{
}

// --- lanes ----------------------------------------------------------------

/// A lane's name begins with the letters of its kind, and no two kinds share theirs.
pub proof fn law_prefixes_tell_kinds(a: TrackKind, b: TrackKind)
    ensures
        prefix_of(a) == match a {
            TrackKind::Video => "V"@,
            TrackKind::Audio => "A"@,
            TrackKind::Text => "T"@,
            TrackKind::Sticker => "ST"@,
            TrackKind::Effect => "FX"@,
            TrackKind::Filter => "F"@,
            TrackKind::Adjustment => "ADJ"@,
        },
        prefix_of(a) == prefix_of(b) ==> a == b,
{
    reveal_strlit("V");
    reveal_strlit("A");
    reveal_strlit("T");
    reveal_strlit("ST");
    reveal_strlit("FX");
    reveal_strlit("F");
    reveal_strlit("ADJ");
    assert("V"@[0] == 'V' && "A"@[0] == 'A' && "T"@[0] == 'T' && "F"@[0] == 'F');
    assert("ST"@[0] == 'S' && "FX"@[0] == 'F' && "ADJ"@[0] == 'A');
}

/// Lanes of different kinds have different colours, all of them opaque.
pub proof fn law_kinds_have_colors(a: TrackKind, b: TrackKind)
    ensures
        color_of_kind(a) == color_of_kind(b) ==> a == b,
        color_of_kind(a).alpha == 255,
{
}

// --- labels ---------------------------------------------------------------

/// A media is named after its file, or by its id without one. A clip is labelled by its
/// media's name, or by its own id when the media is gone, and generated content by what it
/// is; only a title has a text.
pub proof fn law_labels_tell_the_content(p: Project, c: ProjectClip)
    ensures
        c.content matches ClipSource::Media { media, .. } ==> labels_of(p, c).1.len() == 0
            && labels_of(p, c).0 == (match p.media_with(media) {
            Some(m) => name_of(m),
            None => "Clip "@ + decimal(c.id as nat),
        }),
        forall|m: MediaSource|
            #![trigger name_of(m)]
            (m.stem matches Some(stem) ==> name_of(m) == stem@) && (m.stem is None ==> name_of(m)
                == "Media "@ + decimal(m.id as nat)),
        c.content matches ClipSource::Generated(g) ==> labels_of(p, c) == (match g {
            Generator::Text { content, .. } => ("Text"@, content@),
            Generator::SolidColor { .. } => ("Solid"@, Seq::<char>::empty()),
            Generator::Shape { .. } => ("Shape"@, Seq::<char>::empty()),
            Generator::Sticker => ("Sticker"@, Seq::<char>::empty()),
            Generator::Effect => ("Effect"@, Seq::<char>::empty()),
            Generator::Filter => ("Filter"@, Seq::<char>::empty()),
            Generator::Adjustment => ("Adjustment"@, Seq::<char>::empty()),
        }),
{
}

/// The card of a solid and of a shape has the content's own fill; nothing else has one.
pub proof fn law_cards_show_the_fill(content: ClipSource)
    ensures
        content matches ClipSource::Generated(Generator::SolidColor { rgba }) ==> visual_of(content)
            == ("solid"@, rgba),
        content matches ClipSource::Generated(Generator::Shape { shape, rgba, .. }) ==> visual_of(
            content,
        ) == (match shape {
            Shape::Rectangle => "rect"@,
            Shape::Ellipse => "ellipse"@,
        }, rgba),
        content matches ClipSource::Generated(Generator::Text { .. }) ==> visual_of(content).0
            == "text"@,
        !(content is Generated) ==> visual_of(content).0 == ""@,
        !(content matches ClipSource::Generated(Generator::SolidColor { .. })) && !(
        content matches ClipSource::Generated(Generator::Shape { .. })) ==> visual_of(content).1
            == (Color { red: 0, green: 0, blue: 0, alpha: 0 }),
{
}

/// The picture of a clip is as large as its media, or as what was measured of generated
/// content; unknown sizes are 0.
pub proof fn law_pictures_have_their_size(p: Project, c: ProjectClip, sizes: Map<u64, (i32, i32)>)
    ensures
        c.content matches ClipSource::Media { media, .. } ==> (p.media_with(media) matches Some(m)
            ==> natural_size(p, c, sizes) == (m.width as int, m.height as int)),
        c.content is Generated && sizes.contains_key(c.id) ==> natural_size(p, c, sizes) == (
            sizes[c.id].0 as int,
            sizes[c.id].1 as int,
        ),
        c.content is Generated && !sizes.contains_key(c.id) ==> natural_size(p, c, sizes) == (
            0int,
            0int,
        ),
{
}

// --- prompts --------------------------------------------------------------

/// A prompt goes through configuration, key, rehearsal engine and copy of the project, in
/// this order, before it runs, and stops after it.
pub proof fn law_prompt_stages_come_in_order(stage: PromptStage)
    ensures
        (stage_after(stage) == PromptStage::ResolveKey) == (stage == PromptStage::LoadConfig),
        (stage_after(stage) == PromptStage::StartSandbox) == (stage == PromptStage::ResolveKey),
        (stage_after(stage) == PromptStage::Snapshot) == (stage == PromptStage::StartSandbox),
        (stage_after(stage) == PromptStage::Run) == (stage == PromptStage::Snapshot),
        stage_after(stage) != PromptStage::LoadConfig,
{
}

/// A stage leaves an error line exactly when it did not pass, and a failure is told in its
/// own words.
pub proof fn law_failed_stages_are_told(event: StageEvent)
    ensures
        (stage_error(event) is None) == (event is Passed),
        event matches StageEvent::Failed { reason } ==> stage_error(event) == Some(reason@),
{
}

/// Whatever ended a prompt early, the answer says that nothing was applied; all but a
/// cancel say why.
pub proof fn law_aborted_prompts_say_so(reason: Seq<char>)
    ensures
        reason != "cancelled"@ ==> abort_text(reason) == reason + " — nothing was applied."@,
        reason == "cancelled"@ ==> abort_text(reason) == "Stopped — nothing was applied."@,
{
}

// --- cached sound ---------------------------------------------------------

/// A cached render can serve a span only when everything that shaped it is the same.
pub proof fn law_renders_are_told_apart(a: RenderKey, b: RenderKey)
    ensures
        same_settings(a, b) == (a.source_start_frame == b.source_start_frame && a.source_frames
            == b.source_frames && a.out_frames == b.out_frames && a.reversed == b.reversed
            && a.pitch_bits == b.pitch_bits && a.curve@ == b.curve@),
{
}

/// A reader is kept while some span of its file starts at its frame, and a render while
/// some span of its file asks for it.
pub proof fn law_cached_sound_is_kept_while_used(
    spans: Seq<ResolvedSpan>,
    same: Seq<bool>,
    start_frame: i64,
    key: RenderKey,
    i: int,
)
    requires
        0 <= i < spans.len(),
        same[i],
    ensures
        spans[i].start_frame == start_frame ==> reader_serves(spans, same, start_frame),
        (spans[i].render matches Some(k) && same_settings(k, key)) ==> render_serves(
            spans,
            same,
            key,
        ),
        spans[i].render is None ==> file_of(spans[i]) == spans[i].path@,
        spans[i].render matches Some(k) ==> file_of(spans[i]) == k.path@,
{
}

/// A reader or a render that no span uses is let go.
pub proof fn law_unused_sound_is_let_go(
    spans: Seq<ResolvedSpan>,
    same: Seq<bool>,
    start_frame: i64,
    key: RenderKey,
)
    ensures
        (forall|i: int|
            0 <= i < spans.len() && same[i] ==> (#[trigger] spans[i]).start_frame != start_frame)
            ==> !reader_serves(spans, same, start_frame),
        (forall|i: int|
            0 <= i < spans.len() && same[i] ==> !((#[trigger] spans[i]).render matches Some(k)
                && same_settings(k, key))) ==> !render_serves(spans, same, key),
{
}

} // verus!
