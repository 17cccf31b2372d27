//! The inspector: the selected clip, its sampled values, text styling, and the
//! font filter.

use vstd::prelude::*;

use crate::model::{is_blank, Clip, Color, Sequence, TrackKind, TransformBits};
use crate::project::Generator;
use crate::snap::{find_named, named_clip};
use crate::text::{str_eq, texts};

verus! {

// --- selection ------------------------------------------------------------

/// The clip that the property sheet shows.
#[derive(Debug)]
pub struct SelectedClipInfo {
    pub found: bool,
    pub track_kind: TrackKind,
    pub clip: Clip,
}

/// Resolve the selected clip; a blank clip when the ids name none.
pub fn resolve_selection(sequence: &Sequence, track_id: &str, clip_id: &str) -> (r: SelectedClipInfo)
    ensures
        match named_clip(sequence.tracks@, track_id@, clip_id@) {
            Some((kind, clip)) => if track_id@.len() > 0 && clip_id@.len() > 0 {
                r.found && r.track_kind == kind && r.clip == clip
            } else {
                !r.found && r.track_kind == TrackKind::Video && is_blank(r.clip)
            },
            None => !r.found && r.track_kind == TrackKind::Video && is_blank(r.clip),
        },
{
    if !track_id.is_empty() && !clip_id.is_empty() {
        match find_named(sequence, track_id, clip_id) {
            Some((t, c)) => {
                return SelectedClipInfo {
                    found: true,
                    track_kind: sequence.tracks[t].kind,
                    clip: sequence.tracks[t].clips[c].clone(),
                };
            },
            None => {},
        }
    }
    SelectedClipInfo { found: false, track_kind: TrackKind::Video, clip: Clip::default() }
}

/// Whether ducking under voice makes sense for a clip on lane `track_id`: some
/// other audio lane is tagged as a voice source.
pub fn can_duck_under_voice(sequence: &Sequence, track_id: &str) -> (r: bool)
    ensures
        r == exists|t: int|
            0 <= t < sequence.tracks.len() && (#[trigger] sequence.tracks@[t]).kind
                == TrackKind::Audio && sequence.tracks@[t].duck_source && sequence.tracks@[t].id@
                != track_id@,
{
    let mut t: usize = 0;
    while t < sequence.tracks.len()
        invariant
            t <= sequence.tracks.len(),
            forall|j: int|
                0 <= j < t ==> !((#[trigger] sequence.tracks@[j]).kind == TrackKind::Audio
                    && sequence.tracks@[j].duck_source && sequence.tracks@[j].id@ != track_id@),
        decreases sequence.tracks.len() - t,
    {
        let track = &sequence.tracks[t];
        if track.kind == TrackKind::Audio && track.duck_source && !str_eq(
            track.id.as_str(),
            track_id,
        ) {
            assert(sequence.tracks@[t as int].duck_source);
            return true;
        }
        t += 1;
    }
    false
}

// --- samples --------------------------------------------------------------

/// A clip's placement at the playhead, each number with the state of its keyframe
/// row.
#[derive(Debug)]
pub struct TransformSample<R> {
    pub values: TransformBits,
    pub position_row: R,
    pub anchor_row: R,
    pub scale_row: R,
    pub rotation_row: R,
    pub opacity_row: R,
}

/// A clip's gain at the playhead, with the state of its keyframe row.
#[derive(Debug)]
pub struct AudioSample<R> {
    pub volume: u32,
    pub volume_row: R,
}

/// Put the sampled placement and the row states together.
pub fn sample_transform<R>(
    values: TransformBits,
    position_row: R,
    anchor_row: R,
    scale_row: R,
    rotation_row: R,
    opacity_row: R,
) -> (r: TransformSample<R>)
    ensures
        r == (TransformSample {
            values,
            position_row,
            anchor_row,
            scale_row,
            rotation_row,
            opacity_row,
        }),
{
    TransformSample { values, position_row, anchor_row, scale_row, rotation_row, opacity_row }
}

/// Put the sampled gain and its row state together.
pub fn sample_audio<R>(volume: u32, volume_row: R) -> (r: AudioSample<R>)
    ensures
        r == (AudioSample { volume, volume_row }),
{
    AudioSample { volume, volume_row }
}

// --- text style -----------------------------------------------------------

/// Letter case of a title.
#[derive(Clone, Copy, Debug, PartialEq, Eq, Structural)]
pub enum TextCase {
    Normal,
    Upper,
    Lower,
    Title,
}

/// Horizontal alignment of a title.
#[derive(Clone, Copy, Debug, PartialEq, Eq, Structural)]
pub enum TextAlignH {
    Left,
    Center,
    Right,
}

/// Vertical alignment of a title.
#[derive(Clone, Copy, Debug, PartialEq, Eq, Structural)]
pub enum TextAlignV {
    Top,
    Middle,
    Bottom,
}

/// Outline of a title.
#[derive(Clone, Copy, Debug, PartialEq, Eq, Structural)]
pub struct TextStroke {
    pub rgba: Color,
    pub width: u32,
}

/// Plate behind a title.
#[derive(Clone, Copy, Debug, PartialEq, Eq, Structural)]
pub struct TextBackground {
    pub rgba: Color,
    pub radius: u32,
}

/// Shadow of a title.
#[derive(Clone, Copy, Debug, PartialEq, Eq, Structural)]
pub struct TextShadow {
    pub rgba: Color,
    pub blur: u32,
    pub distance: u32,
}

/// A title's style as the project keeps it; the numbers are IEEE single bit
/// patterns.
#[derive(Debug)]
pub struct TextStyle {
    pub font: String,
    pub size: u32,
    pub bold: bool,
    pub italic: bool,
    pub underline: bool,
    pub case: TextCase,
    pub fill: Color,
    pub letter_spacing: u32,
    pub line_spacing: u32,
    pub align_h: TextAlignH,
    pub align_v: TextAlignV,
    pub wrap: bool,
    pub stroke: Option<TextStroke>,
    pub background: Option<TextBackground>,
    pub shadow: Option<TextShadow>,
}

impl Clone for TextStyle {
    fn clone(&self) -> (r: Self)
        ensures
            r == *self,
    {
        TextStyle {
            font: self.font.clone(),
            size: self.size,
            bold: self.bold,
            italic: self.italic,
            underline: self.underline,
            case: self.case,
            fill: self.fill,
            letter_spacing: self.letter_spacing,
            line_spacing: self.line_spacing,
            align_h: self.align_h,
            align_v: self.align_v,
            wrap: self.wrap,
            stroke: self.stroke,
            background: self.background,
            shadow: self.shadow,
        }
    }
}

/// A title's style as the inspector edits it: effects are switches, and their
/// opacity is a control of its own, given here as an alpha byte.
#[derive(Debug)]
pub struct TextClipStyle {
    pub font: String,
    pub size: u32,
    pub bold: bool,
    pub italic: bool,
    pub underline: bool,
    pub case: i32,
    pub fill: Color,
    pub letter_spacing: u32,
    pub line_spacing: u32,
    pub align_h: i32,
    pub align_v: i32,
    pub wrap: bool,
    pub stroke_enabled: bool,
    pub stroke_color: Color,
    pub stroke_width: u32,
    pub background_enabled: bool,
    pub background_color: Color,
    pub background_alpha: u8,
    pub background_radius: u32,
    pub shadow_enabled: bool,
    pub shadow_color: Color,
    pub shadow_alpha: u8,
    pub shadow_blur: u32,
    pub shadow_distance: u32,
}

/// The letter case that a picker index stands for.
pub fn text_case_from_int(case: i32) -> (r: TextCase)
    ensures
        r == case_of(case),
{
    match case {
        1 => TextCase::Upper,
        2 => TextCase::Lower,
        3 => TextCase::Title,
        _ => TextCase::Normal,
    }
}

/// The horizontal alignment that a picker index stands for.
pub fn align_h_from_int(align: i32) -> (r: TextAlignH)
    ensures
        r == align_h_of(align),
{
    match align {
        0 => TextAlignH::Left,
        2 => TextAlignH::Right,
        _ => TextAlignH::Center,
    }
}

/// The vertical alignment that a picker index stands for.
pub fn align_v_from_int(align: i32) -> (r: TextAlignV)
    ensures
        r == align_v_of(align),
{
    match align {
        0 => TextAlignV::Top,
        2 => TextAlignV::Bottom,
        _ => TextAlignV::Middle,
    }
}

/// A colour with another alpha.
pub open spec fn with_alpha(c: Color, alpha: u8) -> Color {
    Color { alpha, ..c }
}

/// The letter case that a picker index stands for.
pub open spec fn case_of(case: i32) -> TextCase {
    if case == 1 {
        TextCase::Upper
    } else if case == 2 {
        TextCase::Lower
    } else if case == 3 {
        TextCase::Title
    } else {
        TextCase::Normal
    }
}

/// The horizontal alignment that a picker index stands for.
pub open spec fn align_h_of(align: i32) -> TextAlignH {
    if align == 0 {
        TextAlignH::Left
    } else if align == 2 {
        TextAlignH::Right
    } else {
        TextAlignH::Center
    }
}

/// The vertical alignment that a picker index stands for.
pub open spec fn align_v_of(align: i32) -> TextAlignV {
    if align == 0 {
        TextAlignV::Top
    } else if align == 2 {
        TextAlignV::Bottom
    } else {
        TextAlignV::Middle
    }
}

/// `r` is the inspector's style as the project keeps it: effect opacity folds into the
/// alpha, and an effect that is switched off is absent.
pub open spec fn is_style_of(r: TextStyle, style: TextClipStyle) -> bool {
    &&& r.font@ == style.font@
    &&& r.size == style.size
    &&& r.bold == style.bold
    &&& r.italic == style.italic
    &&& r.underline == style.underline
    &&& r.case == case_of(style.case)
    &&& r.fill == style.fill
    &&& r.letter_spacing == style.letter_spacing
    &&& r.line_spacing == style.line_spacing
    &&& r.align_h == align_h_of(style.align_h)
    &&& r.align_v == align_v_of(style.align_v)
    &&& r.wrap == style.wrap
    &&& r.stroke == (if style.stroke_enabled {
        Some(TextStroke { rgba: style.stroke_color, width: style.stroke_width })
    } else {
        None
    })
    &&& r.background == (if style.background_enabled {
        Some(
            TextBackground {
                rgba: with_alpha(style.background_color, style.background_alpha),
                radius: style.background_radius,
            },
        )
    } else {
        None
    })
    &&& r.shadow == (if style.shadow_enabled {
        Some(
            TextShadow {
                rgba: with_alpha(style.shadow_color, style.shadow_alpha),
                blur: style.shadow_blur,
                distance: style.shadow_distance,
            },
        )
    } else {
        None
    })
}

/// An effect of a title is there exactly when it is switched on, in its own colour, with
/// the opacity of its own control.
pub proof fn law_effects_follow_their_switches(r: TextStyle, style: TextClipStyle)
    requires
        is_style_of(r, style),
    ensures
        (r.stroke is Some) == style.stroke_enabled,
        (r.background is Some) == style.background_enabled,
        (r.shadow is Some) == style.shadow_enabled,
        r.stroke matches Some(x) ==> x.rgba == style.stroke_color && x.width == style.stroke_width,
        r.background matches Some(x) ==> x.rgba.red == style.background_color.red && x.rgba.green
            == style.background_color.green && x.rgba.blue == style.background_color.blue
            && x.rgba.alpha == style.background_alpha && x.radius == style.background_radius,
        r.shadow matches Some(x) ==> x.rgba.red == style.shadow_color.red && x.rgba.green
            == style.shadow_color.green && x.rgba.blue == style.shadow_color.blue && x.rgba.alpha
            == style.shadow_alpha && x.blur == style.shadow_blur && x.distance
            == style.shadow_distance,
        r.font@ == style.font@,
        r.size == style.size,
        r.fill == style.fill,
        r.bold == style.bold,
        r.italic == style.italic,
        r.underline == style.underline,
        r.wrap == style.wrap,
{
}

/// Convert the inspector's style to the project's.
pub fn text_style_from_ui(style: &TextClipStyle) -> (r: TextStyle)
    ensures
        is_style_of(r, *style),
{
    let plate = style.background_color;
    let shade = style.shadow_color;
    TextStyle {
        font: style.font.clone(),
        size: style.size,
        bold: style.bold,
        italic: style.italic,
        underline: style.underline,
        case: text_case_from_int(style.case),
        fill: style.fill,
        letter_spacing: style.letter_spacing,
        line_spacing: style.line_spacing,
        align_h: align_h_from_int(style.align_h),
        align_v: align_v_from_int(style.align_v),
        wrap: style.wrap,
        stroke: if style.stroke_enabled {
            Some(TextStroke { rgba: style.stroke_color, width: style.stroke_width })
        } else {
            None
        },
        background: if style.background_enabled {
            Some(
                TextBackground {
                    rgba: Color {
                        red: plate.red,
                        green: plate.green,
                        blue: plate.blue,
                        alpha: style.background_alpha,
                    },
                    radius: style.background_radius,
                },
            )
        } else {
            None
        },
        shadow: if style.shadow_enabled {
            Some(
                TextShadow {
                    rgba: Color {
                        red: shade.red,
                        green: shade.green,
                        blue: shade.blue,
                        alpha: style.shadow_alpha,
                    },
                    blur: style.shadow_blur,
                    distance: style.shadow_distance,
                },
            )
        } else {
            None
        },
    }
}

/// The content of a title as the inspector edits it: one edit carries the text and
/// the whole style, so that the two never come apart.
pub fn title_from_ui(content: &str, style: &TextClipStyle) -> (r: Generator)
    ensures
        r matches Generator::Text { content: c, style: s } && c@ == content@ && is_style_of(
            s,
            *style,
        ),
{
    Generator::Text { content: content.to_owned(), style: text_style_from_ui(style) }
}

// --- fonts ----------------------------------------------------------------

/// What `str::to_lowercase` makes of a text.
pub uninterp spec fn lowercase_of(s: Seq<char>) -> Seq<char>;

/// `str::to_lowercase`.
#[verifier::external_body]
fn lowercase(s: &str) -> (r: String)
    ensures
        r@ == lowercase_of(s@),
{
    s.to_lowercase()
}

/// `needle` occurs in `s`.
pub open spec fn occurs_in(needle: Seq<char>, s: Seq<char>) -> bool {
    exists|at: int| 0 <= at <= s.len() - needle.len() && #[trigger] s.subrange(
        at,
        at + needle.len(),
    ) == needle
}

/// `str::contains` with a text pattern: it matches a part of the text.
#[verifier::external_body]
fn contains(s: &str, needle: &str) -> (r: bool)
    ensures
        r == occurs_in(needle@, s@),
{
    s.contains(needle)
}

/// Matching the query, whose lowercase is `needle`.
pub open spec fn matches_query(needle: Seq<char>) -> spec_fn(Seq<char>) -> bool {
    |family: Seq<char>| needle.len() == 0 || occurs_in(needle, lowercase_of(family))
}

/// The families that hold `needle` once their lowercase is taken, `folded[i]` being
/// that of family `i`.
pub fn filter_folded(needle: &str, families: &Vec<String>, folded: &Vec<String>) -> (r: Vec<String>)
    requires
        folded.len() == families.len(),
    ensures
        texts(r@) == picked(
            texts(families@),
            Seq::new(
                families@.len(),
                |i: int| needle@.len() == 0 || occurs_in(needle@, folded@[i]@),
            ),
        ),
{
    let ghost all = texts(families@);
    let ghost keep = Seq::new(
        families@.len(),
        |i: int| needle@.len() == 0 || occurs_in(needle@, folded@[i]@),
    );
    let mut out: Vec<String> = Vec::new();
    let mut i: usize = 0;
    assert(texts(out@) =~= Seq::<Seq<char>>::empty());
    while i < families.len()
        invariant
            i <= families.len(),
            folded.len() == families.len(),
            all == texts(families@),
            keep == Seq::new(
                families@.len(),
                |i: int| needle@.len() == 0 || occurs_in(needle@, folded@[i]@),
            ),
            texts(out@) == picked(all.take(i as int), keep),
        decreases families.len() - i,
    {
        let ghost was = texts(out@);
        assert(all.take(i as int + 1).drop_last() =~= all.take(i as int));
        if needle.is_empty() || contains(folded[i].as_str(), needle) {
            out.push(families[i].clone());
            assert(texts(out@) =~= was.push(families@[i as int]@));
        }
        i += 1;
    }
    assert(all.take(i as int) =~= all);
    out
}

/// The items that `keep` marks, in order.
pub open spec fn picked(items: Seq<Seq<char>>, keep: Seq<bool>) -> Seq<Seq<char>>
    decreases items.len(),
{
    if items.len() == 0 {
        Seq::empty()
    } else {
        let before = picked(items.drop_last(), keep);
        if keep[items.len() - 1] {
            before.push(items.last())
        } else {
            before
        }
    }
}

/// The marked items stay, in their order, each as often as it is marked, and no other.
pub proof fn law_picked_items_stay(entries: Seq<Seq<char>>, keep: Seq<bool>) -> (at: Seq<int>)
    ensures
        at.len() == picked(entries, keep).len(),
        forall|k: int|
            #![trigger at[k]]
            0 <= k < at.len() ==> 0 <= at[k] < entries.len() && keep[at[k]] && picked(entries, keep)[k]
                == entries[at[k]],
        forall|j: int, k: int|
            #![trigger at[j], at[k]]
            0 <= j < k < at.len() ==> at[j] < at[k],
        forall|i: int| 0 <= i < entries.len() && keep[i] ==> #[trigger] at.contains(i),
    decreases entries.len(),
{
    if entries.len() == 0 {
        Seq::empty()
    } else {
        let init = entries.drop_last();
        let before = law_picked_items_stay(init, keep);
        let n = entries.len() - 1;
        if keep[n] {
            let at = before.push(n);
            assert forall|k: int|
                #![trigger at[k]]
                0 <= k < at.len() implies 0 <= at[k] < entries.len() && keep[at[k]] && picked(
                entries,
                keep,
            )[k] == entries[at[k]] by {
                if k < before.len() {
                    assert(before[k] == at[k]);
                    assert(init[before[k]] == entries[before[k]]);
                }
            }
            assert forall|j: int, k: int|
                #![trigger at[j], at[k]]
                0 <= j < k < at.len() implies at[j] < at[k] by {
                assert(before[j] == at[j]);
                if k < before.len() {
                    assert(before[k] == at[k]);
                }
            }
            assert forall|i: int| 0 <= i < entries.len() && keep[i] implies #[trigger] at.contains(
                i,
            ) by {
                if i < n {
                    assert(before.contains(i));
                    let k = choose|k: int| 0 <= k < before.len() && before[k] == i;
                    assert(at[k] == i);
                } else {
                    assert(at[before.len() as int] == i);
                }
            }
            at
        } else {
            assert forall|k: int|
                #![trigger before[k]]
                0 <= k < before.len() implies 0 <= before[k] < entries.len() && keep[before[k]]
                && picked(entries, keep)[k] == entries[before[k]] by {
                assert(init[before[k]] == entries[before[k]]);
            }
            before
        }
    }
}

/// The font families whose lowercase holds the lowercase of the query; all of them
/// for an empty query.
pub fn filter_fonts(query: &str, families: &Vec<String>) -> (r: Vec<String>)
    ensures
        texts(r@) == picked(
            texts(families@),
            Seq::new(
                families@.len(),
                |i: int| matches_query(lowercase_of(query@))(texts(families@)[i]),
            ),
        ),
{
    let needle = lowercase(query);
    let mut folded: Vec<String> = Vec::new();
    let mut i: usize = 0;
    while i < families.len()
        invariant
            i <= families.len(),
            folded.len() == i,
            forall|j: int|
                0 <= j < i ==> (#[trigger] folded@[j])@ == lowercase_of(families@[j]@),
        decreases families.len() - i,
    {
        folded.push(lowercase(families[i].as_str()));
        i += 1;
    }
    let r = filter_folded(needle.as_str(), families, &folded);
    proof {
        assert(Seq::new(
            families@.len(),
            |i: int| needle@.len() == 0 || occurs_in(needle@, folded@[i]@),
        ) =~= Seq::new(
            families@.len(),
            |i: int| matches_query(lowercase_of(query@))(texts(families@)[i]),
        ));
    }
    r
}

} // verus!
