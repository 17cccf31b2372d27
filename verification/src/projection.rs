//! The editor's view of a project: lanes top first, clips with their labels and
//! trim rooms, and the media pool.

use std::collections::HashMap;
use vstd::prelude::*;
use vstd::string::StringExecFns;

use crate::arith::{floor_div, lemma_floor, lemma_product};
use crate::find::lemma_filter_take;
use crate::model::{Clip, Color, MediaTime, Rational, RationalTime, Sequence, TimeRange, Track,
    TrackKind};
use crate::num::{clamp_i32, clamped32, clamped64, max_int};
use crate::order::{key_leq, lemma_sort_map, pair_int, pair_leq, positions, sort_positions,
    stable_sort, upto};
use crate::project::{resample, resampled, valid_rate, ClipSource, Generator, Lane, MediaSource,
    Project, ProjectClip, Shape};
use crate::text::{decimal, decimal_text, push_decimal};

verus! {

// --- labels ---------------------------------------------------------------

/// `n` with at least two digits.
pub open spec fn two_digits(n: nat) -> Seq<char> {
    if n < 10 {
        "0"@ + decimal(n)
    } else {
        decimal(n)
    }
}

fn push_two_digits(out: &mut String, n: u64)
    ensures
        final(out)@ == old(out)@ + two_digits(n as nat),
{
    let ghost was = out@;
    if n < 10 {
        out.append("0");
    }
    push_decimal(out, n);
    assert(out@ =~= was + two_digits(n as nat));
}

/// `H:MM:SS` from one hour up; below, minutes and seconds, the minutes with two
/// digits when `padded`.
pub open spec fn time_label(secs: nat, padded: bool) -> Seq<char> {
    let h = secs / 3600;
    let m = (secs / 60) % 60;
    let s = secs % 60;
    if h > 0 {
        decimal(h) + ":"@ + two_digits(m) + ":"@ + two_digits(s)
    } else if padded {
        two_digits(m) + ":"@ + two_digits(s)
    } else {
        decimal(m) + ":"@ + two_digits(s)
    }
}

fn label_time(secs: u64, padded: bool) -> (r: String)
    ensures
        r@ == time_label(secs as nat, padded),
{
    let (h, m, s): (u64, u64, u64) = (secs / 3600, (secs / 60) % 60, secs % 60);
    let mut out = String::new();
    if h > 0 {
        push_decimal(&mut out, h);
        out.append(":");
        push_two_digits(&mut out, m);
        out.append(":");
        push_two_digits(&mut out, s);
    } else {
        if padded {
            push_two_digits(&mut out, m);
        } else {
            push_decimal(&mut out, m);
        }
        out.append(":");
        push_two_digits(&mut out, s);
    }
    assert(out@ =~= time_label(secs as nat, padded));
    out
}

/// Clip badge of a clip of a minute or longer: `M:SS`, or `H:MM:SS`.
pub fn minutes_label(secs: u64) -> (r: String)
    ensures
        r@ == time_label(secs as nat, false),
{
    label_time(secs, false)
}

/// Whole seconds of a duration, rounded to the nearest, halves up.
pub open spec fn nearest_seconds(duration: MediaTime) -> int {
    (max_int(duration.value as int, 0) * duration.rate.den + duration.rate.num as int / 2)
        / (duration.rate.num as int)
}

/// Source length as `MM:SS`, or `H:MM:SS` from one hour up; nothing for a rate that
/// is not usable.
pub fn duration_label(duration: MediaTime) -> (r: String)
    requires
        valid_rate(duration.rate) ==> nearest_seconds(duration) <= u64::MAX,
    ensures
        r@ == (if valid_rate(duration.rate) {
            time_label(nearest_seconds(duration) as nat, true)
        } else {
            Seq::empty()
        }),
{
    let (num, den): (i32, i32) = (duration.rate.num, duration.rate.den);
    if num <= 0 || den <= 0 {
        return String::new();
    }
    let value: i64 = if duration.value < 0 {
        0
    } else {
        duration.value
    };
    proof {
        let (a, b) = (0x8000_0000_0000_0000int, 0x8000_0000int);
        lemma_product(value as int, den as int, a, b);
        assert(value * den >= 0) by (nonlinear_arith)
            requires
                value >= 0,
                den > 0,
        ;
    }
    let ticks: i128 = value as i128 * den as i128 + (num / 2) as i128;
    let secs: i128 = floor_div(ticks, num as i128);
    proof {
        lemma_floor(ticks as int, num as int);
        let (t, n, s) = (ticks as int, num as int, secs as int);
        assert(s >= 0) by (nonlinear_arith)
            requires
                (s + 1) * n > t,
                t >= 0,
                n > 0,
        ;
    }
    label_time(secs as u64, true)
}

/// A media's name: its file stem, else its id.
pub open spec fn name_of(m: MediaSource) -> Seq<char> {
    match m.stem {
        Some(stem) => stem@,
        None => "Media "@ + decimal(m.id as nat),
    }
}

/// A media's name: its file stem, falling back to the id when the path has none.
pub fn media_name(media: &MediaSource) -> (r: String)
    ensures
        r@ == name_of(*media),
{
    match &media.stem {
        Some(stem) => stem.clone(),
        None => {
            let mut out: String = "Media ".to_owned();
            push_decimal(&mut out, media.id);
            out
        },
    }
}

/// Label of a clip, and the text of a title.
pub open spec fn labels_of(p: Project, c: ProjectClip) -> (Seq<char>, Seq<char>) {
    match c.content {
        ClipSource::Media { media, .. } => (
            match p.media_with(media) {
                Some(m) => name_of(m),
                None => "Clip "@ + decimal(c.id as nat),
            },
            Seq::empty(),
        ),
        ClipSource::Generated(g) => match g {
            Generator::Text { content, .. } => ("Text"@, content@),
            Generator::SolidColor { .. } => ("Solid"@, Seq::empty()),
            Generator::Shape { .. } => ("Shape"@, Seq::empty()),
            Generator::Sticker => ("Sticker"@, Seq::empty()),
            Generator::Effect => ("Effect"@, Seq::empty()),
            Generator::Filter => ("Filter"@, Seq::empty()),
            Generator::Adjustment => ("Adjustment"@, Seq::empty()),
        },
    }
}

/// Lane label of a clip, and the text of a title.
pub fn clip_labels(project: &Project, clip: &ProjectClip) -> (r: (String, String))
    ensures
        (r.0@, r.1@) == labels_of(*project, *clip),
{
    match &clip.content {
        ClipSource::Media { media, source: _ } => {
            let name: String = match project.find_media(*media) {
                Some(m) => media_name(&project.media[m]),
                None => {
                    let mut out: String = "Clip ".to_owned();
                    push_decimal(&mut out, clip.id);
                    out
                },
            };
            (name, String::new())
        },
        ClipSource::Generated(generator) => match generator {
            Generator::Text { content, .. } => ("Text".to_owned(), content.clone()),
            Generator::SolidColor { rgba: _ } => ("Solid".to_owned(), String::new()),
            Generator::Shape { .. } => ("Shape".to_owned(), String::new()),
            Generator::Sticker => ("Sticker".to_owned(), String::new()),
            Generator::Effect => ("Effect".to_owned(), String::new()),
            Generator::Filter => ("Filter".to_owned(), String::new()),
            Generator::Adjustment => ("Adjustment".to_owned(), String::new()),
        },
    }
}

/// Tag and fill colour of a clip's card; clear for what has no fill.
pub open spec fn visual_of(content: ClipSource) -> (Seq<char>, Color) {
    let none = Color { red: 0, green: 0, blue: 0, alpha: 0 };
    match content {
        ClipSource::Generated(Generator::Text { .. }) => ("text"@, none),
        ClipSource::Generated(Generator::SolidColor { rgba }) => ("solid"@, rgba),
        ClipSource::Generated(Generator::Shape { shape, rgba, .. }) => match shape {
            Shape::Rectangle => ("rect"@, rgba),
            Shape::Ellipse => ("ellipse"@, rgba),
        },
        _ => (""@, none),
    }
}

/// Tag and fill colour of a clip's card.
pub fn clip_generator_visual(content: &ClipSource) -> (r: (&'static str, Color))
    ensures
        (r.0@, r.1) == visual_of(*content),
{
    let none = Color { red: 0, green: 0, blue: 0, alpha: 0 };
    match content {
        ClipSource::Generated(Generator::Text { .. }) => ("text", none),
        ClipSource::Generated(Generator::SolidColor { rgba }) => ("solid", *rgba),
        ClipSource::Generated(Generator::Shape { shape, rgba, .. }) => match shape {
            Shape::Rectangle => ("rect", *rgba),
            Shape::Ellipse => ("ellipse", *rgba),
        },
        _ => ("", none),
    }
}

/// Colour of the lanes of a kind.
pub open spec fn color_of_kind(kind: TrackKind) -> Color {
    match kind {
        TrackKind::Video => Color { red: 0x4a, green: 0x6f, blue: 0xa5, alpha: 255 },
        TrackKind::Audio => Color { red: 0xc9, green: 0x98, blue: 0x46, alpha: 255 },
        TrackKind::Text => Color { red: 0x5e, green: 0x8b, blue: 0x7e, alpha: 255 },
        TrackKind::Sticker => Color { red: 0xbf, green: 0x6f, blue: 0x4a, alpha: 255 },
        TrackKind::Effect => Color { red: 0x7b, green: 0x68, blue: 0xa6, alpha: 255 },
        TrackKind::Filter => Color { red: 0x4a, green: 0x8c, blue: 0x8c, alpha: 255 },
        TrackKind::Adjustment => Color { red: 0x6c, green: 0x5b, blue: 0x7b, alpha: 255 },
    }
}

/// Colour of the lanes of a kind.
pub fn kind_color(kind: TrackKind) -> (r: Color)
    ensures
        r == color_of_kind(kind),
{
    match kind {
        TrackKind::Video => Color { red: 0x4a, green: 0x6f, blue: 0xa5, alpha: 255 },
        TrackKind::Audio => Color { red: 0xc9, green: 0x98, blue: 0x46, alpha: 255 },
        TrackKind::Text => Color { red: 0x5e, green: 0x8b, blue: 0x7e, alpha: 255 },
        TrackKind::Sticker => Color { red: 0xbf, green: 0x6f, blue: 0x4a, alpha: 255 },
        TrackKind::Effect => Color { red: 0x7b, green: 0x68, blue: 0xa6, alpha: 255 },
        TrackKind::Filter => Color { red: 0x4a, green: 0x8c, blue: 0x8c, alpha: 255 },
        TrackKind::Adjustment => Color { red: 0x6c, green: 0x5b, blue: 0x7b, alpha: 255 },
    }
}

// --- trim rooms -----------------------------------------------------------

/// Room of generated content, which has no source to run out of: enough never to
/// bind, and small enough that the clip's end plus the room fits `i32`.
pub const UNBOUNDED_ROOM: i32 = 0x1fff_ffff;

/// Two rates are equal as ratios.
pub open spec fn same_rate(a: Rational, b: Rational) -> bool {
    a.num * b.den == b.num * a.den
}

/// The media ticks that an extension may take: all of the room at one rate, one
/// less at another, in reserve for rounding.
pub open spec fn usable_room(room: int, media_rate: Rational, tl_rate: Rational) -> int {
    if same_rate(media_rate, tl_rate) {
        max_int(room, 0)
    } else {
        max_int(max_int(room, 0) - 1, 0)
    }
}

/// Sequence ticks in media ticks, as the engine converts an extension.
pub open spec fn back(ticks: int, media_rate: Rational, tl_rate: Rational) -> int {
    clamped64(resampled(ticks, tl_rate, media_rate))
}

/// `ticks` is the largest extension, up to the converted room, that stays within
/// `room` once the engine converts it back.
pub open spec fn is_room(ticks: int, room: int, media_rate: Rational, tl_rate: Rational) -> bool {
    let most = clamped64(resampled(room, media_rate, tl_rate));
    &&& ticks <= most
    &&& ticks <= 0 || back(ticks, media_rate, tl_rate) <= room
    &&& forall|t: int|
        ticks < t <= most ==> #[trigger] back(t, media_rate, tl_rate) > room
}

/// Largest number of sequence ticks by which an edge may extend so that the engine,
/// which converts the extension to media ticks again, stays within the room.
pub fn room_to_sequence_ticks(room_media: i64, media_rate: Rational, tl_rate: Rational) -> (r: i32)
    requires
        valid_rate(media_rate),
        valid_rate(tl_rate),
    ensures
        exists|ticks: int| #[trigger]
            is_room(ticks, usable_room(room_media as int, media_rate, tl_rate), media_rate, tl_rate)
                && r == clamped32(ticks),
{
    let mut room: i64 = if room_media < 0 {
        0
    } else {
        room_media
    };
    proof {
        lemma_product(media_rate.num as int, tl_rate.den as int, 0x8000_0000, 0x8000_0000);
        lemma_product(tl_rate.num as int, media_rate.den as int, 0x8000_0000, 0x8000_0000);
    }
    let alike: bool = media_rate.num as i64 * tl_rate.den as i64 == tl_rate.num as i64
        * media_rate.den as i64;
    if !alike && room > 0 {
        room = room - 1;
    }
    let ghost usable = usable_room(room_media as int, media_rate, tl_rate);
    assert(room == usable);
    let mut ticks: i64 = resample(room, media_rate, tl_rate);
    let ghost most = ticks as int;
    let mut fits: bool = ticks <= 0 || resample(ticks, tl_rate, media_rate) <= room;
    while !fits
        invariant
            valid_rate(media_rate),
            valid_rate(tl_rate),
            room == usable,
            fits == (ticks <= 0 || back(ticks as int, media_rate, tl_rate) <= usable),
            most == clamped64(resampled(usable, media_rate, tl_rate)),
            ticks <= most,
            forall|t: int|
                ticks < t <= most ==> #[trigger] back(t, media_rate, tl_rate) > usable,
        decreases ticks,
    {
        ticks = ticks - 1;
        fits = ticks <= 0 || resample(ticks, tl_rate, media_rate) <= room;
    }
    assert(is_room(ticks as int, usable, media_rate, tl_rate));
    clamp_i32(ticks)
}

/// An offered extension is never rejected: converted to media ticks it stays within
/// the room.
pub proof fn law_room_is_safe(ticks: int, room: int, media_rate: Rational, tl_rate: Rational)
    requires
        is_room(ticks, usable_room(room, media_rate, tl_rate), media_rate, tl_rate),
        ticks > 0,
    ensures
        back(ticks, media_rate, tl_rate) <= max_int(room, 0),
{
}

/// Media ticks before the in-point and behind the out-point of a media clip.
pub open spec fn media_rooms(c: ProjectClip, m: MediaSource) -> (int, int) {
    match c.content {
        ClipSource::Media { source, .. } => (
            source.start as int,
            m.duration.value - (source.start + source.duration),
        ),
        ClipSource::Generated(_) => (0, 0),
    }
}

/// `r` is the room of an edge that has `room` media ticks left.
pub open spec fn edge_room(r: i32, room: int, media_rate: Rational, tl_rate: Rational) -> bool {
    exists|ticks: int| #[trigger]
        is_room(ticks, usable_room(room, media_rate, tl_rate), media_rate, tl_rate) && r
            == clamped32(ticks)
}

/// `(head, tail)` are the trim rooms of the clip: unbounded for generated content,
/// none when its media is gone.
pub open spec fn are_rooms(p: Project, c: ProjectClip, head: i32, tail: i32) -> bool {
    match c.content {
        ClipSource::Generated(_) => head == UNBOUNDED_ROOM && tail == UNBOUNDED_ROOM,
        ClipSource::Media { media, .. } => match p.media_with(media) {
            None => head == 0 && tail == 0,
            Some(m) => {
                let (before, behind) = media_rooms(c, m);
                &&& edge_room(head, before, m.frame_rate, p.frame_rate)
                &&& edge_room(tail, behind, m.frame_rate, p.frame_rate)
            },
        },
    }
}

/// The media rates are usable, and what is left of a media fits `i64`.
pub open spec fn rooms_in_range(p: Project, c: ProjectClip) -> bool {
    c.content matches ClipSource::Media { media, source } ==> (p.media_with(
        media,
    ) matches Some(m) ==> valid_rate(m.frame_rate) && valid_rate(p.frame_rate) && i64::MIN
        <= source.start + source.duration <= i64::MAX && i64::MIN <= media_rooms(c, m).1
        <= i64::MAX)
}

/// How far, in sequence ticks, each edge of a clip can extend before it runs out of
/// source media: `(head, tail)`.
pub fn trim_rooms(project: &Project, clip: &ProjectClip) -> (r: (i32, i32))
    requires
        rooms_in_range(*project, *clip),
    ensures
        are_rooms(*project, *clip, r.0, r.1),
{
    match &clip.content {
        ClipSource::Generated(_) => (UNBOUNDED_ROOM, UNBOUNDED_ROOM),
        ClipSource::Media { media, source } => match project.find_media(*media) {
            None => (0, 0),
            Some(m) => {
                let found = &project.media[m];
                let behind: i64 = found.duration.value - (source.start + source.duration);
                (
                    room_to_sequence_ticks(source.start, found.frame_rate, project.frame_rate),
                    room_to_sequence_ticks(behind, found.frame_rate, project.frame_rate),
                )
            },
        },
    }
}

// --- the canvas -----------------------------------------------------------

/// `v` rounded up to an even number.
pub fn to_even(v: u32) -> (r: u32)
    requires
        v < u32::MAX,
    ensures
        r == v + v % 2,
        r % 2 == 0,
{
    if v % 2 == 0 {
        v
    } else {
        v + 1
    }
}

/// Largest width and height of the media on a video lane.
pub open spec fn lane_extent(p: Project, lane: Lane, n: int) -> (int, int)
    decreases n,
{
    if n <= 0 {
        (0, 0)
    } else {
        let (w, h) = lane_extent(p, lane, n - 1);
        match lane.clips@[n - 1].content {
            ClipSource::Media { media, .. } => match p.media_with(media) {
                Some(m) => (max_int(w, m.width as int), max_int(h, m.height as int)),
                None => (w, h),
            },
            ClipSource::Generated(_) => (w, h),
        }
    }
}

/// Largest width and height of the media on the first `n` lanes that are video.
pub open spec fn video_extent(p: Project, n: int) -> (int, int)
    decreases n,
{
    if n <= 0 {
        (0, 0)
    } else {
        let (w, h) = video_extent(p, n - 1);
        let lane = p.lanes@[n - 1];
        if lane.kind == TrackKind::Video {
            let (lw, lh) = lane_extent(p, lane, lane.clips@.len() as int);
            (max_int(w, lw), max_int(h, lh))
        } else {
            (w, h)
        }
    }
}

/// Size of the canvas: the largest video media, each side made even, or 1920 by
/// 1080 when there is none.
pub open spec fn canvas_of(p: Project) -> (int, int) {
    let (w, h) = video_extent(p, p.lanes@.len() as int);
    if w == 0 || h == 0 {
        (1920, 1080)
    } else {
        (w + w % 2, h + h % 2)
    }
}

/// Size of the canvas.
pub fn canvas_size(project: &Project) -> (r: (u32, u32))
    requires
        forall|m: int|
            0 <= m < project.media.len() ==> (#[trigger] project.media@[m]).width < u32::MAX
                && project.media@[m].height < u32::MAX,
    ensures
        (r.0 as int, r.1 as int) == canvas_of(*project),
{
    let mut max_w: u32 = 0;
    let mut max_h: u32 = 0;
    let mut t: usize = 0;
    while t < project.lanes.len()
        invariant
            t <= project.lanes.len(),
            forall|m: int|
                0 <= m < project.media.len() ==> (#[trigger] project.media@[m]).width < u32::MAX
                    && project.media@[m].height < u32::MAX,
            (max_w as int, max_h as int) == video_extent(*project, t as int),
            max_w < u32::MAX,
            max_h < u32::MAX,
        decreases project.lanes.len() - t,
    {
        let lane = &project.lanes[t];
        if lane.kind == TrackKind::Video {
            let ghost before = (max_w as int, max_h as int);
            let mut c: usize = 0;
            while c < lane.clips.len()
                invariant
                    c <= lane.clips.len(),
                    forall|m: int|
                        0 <= m < project.media.len() ==> (#[trigger] project.media@[m]).width
                            < u32::MAX && project.media@[m].height < u32::MAX,
                    max_w == max_int(before.0, lane_extent(*project, *lane, c as int).0),
                    max_h == max_int(before.1, lane_extent(*project, *lane, c as int).1),
                    before.0 >= 0,
                    before.1 >= 0,
                    max_w < u32::MAX,
                    max_h < u32::MAX,
                decreases lane.clips.len() - c,
            {
                match &lane.clips[c].content {
                    ClipSource::Media { media, source: _ } => {
                        match project.find_media(*media) {
                            Some(m) => {
                                let found = &project.media[m];
                                assert(project.media@[m as int].width < u32::MAX);
                                if found.width > max_w {
                                    max_w = found.width;
                                }
                                if found.height > max_h {
                                    max_h = found.height;
                                }
                            },
                            None => {},
                        }
                    },
                    ClipSource::Generated(_) => {},
                }
                c += 1;
            }
        }
        t += 1;
    }
    if max_w == 0 || max_h == 0 {
        (1920, 1080)
    } else {
        (to_even(max_w), to_even(max_h))
    }
}

/// The canvas always has an even, positive size, which video encoding needs.
pub proof fn law_canvas_is_even(p: Project)
    ensures
        canvas_of(p).0 % 2 == 0,
        canvas_of(p).1 % 2 == 0,
        canvas_of(p).0 > 0,
        canvas_of(p).1 > 0,
{
    lemma_extent(p, p.lanes@.len() as int);
}

proof fn lemma_extent(p: Project, n: int)
    ensures
        video_extent(p, n).0 >= 0,
        video_extent(p, n).1 >= 0,
    decreases n,
{
    if n > 0 {
        lemma_extent(p, n - 1);
    }
}

// --- clips and lanes ------------------------------------------------------

/// Ticks as the editor's `i32` time.
pub open spec fn ui_time(ticks: int, rate: Rational) -> RationalTime {
    RationalTime { value: clamped32(ticks) as i32, rate }
}

/// Natural size of a clip's picture: the media's, or what its content draws; 0 by 0
/// when it is not known.
pub open spec fn natural_size(p: Project, c: ProjectClip, sizes: Map<u64, (i32, i32)>) -> (int, int) {
    match c.content {
        ClipSource::Media { media, .. } => match p.media_with(media) {
            Some(m) => (m.width as int, m.height as int),
            None => (0, 0),
        },
        ClipSource::Generated(_) => if sizes.contains_key(c.id) {
            (sizes[c.id].0 as int, sizes[c.id].1 as int)
        } else {
            (0, 0)
        },
    }
}

/// Media and source in-point that a clip plays from; nothing for generated content.
pub open spec fn source_of(c: ProjectClip) -> (Seq<char>, MediaTime) {
    match c.content {
        ClipSource::Media { media, source } => (
            decimal(media as nat),
            MediaTime { value: source.start, rate: source.rate },
        ),
        ClipSource::Generated(_) => (
            Seq::empty(),
            MediaTime { value: 0, rate: Rational { num: 0, den: 0 } },
        ),
    }
}

/// `ui` shows the clip.
pub open spec fn shows_clip(
    ui: Clip,
    p: Project,
    c: ProjectClip,
    sizes: Map<u64, (i32, i32)>,
    badges: Map<u64, String>,
) -> bool {
    &&& ui.id@ == decimal(c.id as nat)
    &&& (ui.name@, ui.text_content@) == labels_of(p, c)
    &&& ui.timeline_start == ui_time(c.start as int, p.frame_rate)
    &&& ui.source_range == (TimeRange {
        start: ui_time(c.start as int, p.frame_rate),
        duration: ui_time(c.duration as int, p.frame_rate),
    })
    &&& (ui.media_id@, ui.source_in) == source_of(c)
    &&& ui.duration_label@ == (if badges.contains_key(c.id) {
        badges[c.id]@
    } else {
        Seq::empty()
    })
    &&& (ui.generator_kind@, ui.fill_color) == visual_of(c.content)
    &&& are_rooms(p, c, ui.head_room_ticks, ui.tail_room_ticks)
    &&& ui.link_id@ == match c.link {
        Some(link) => decimal(link as nat),
        None => Seq::empty(),
    }
    &&& (ui.media_width as int, ui.media_height as int) == natural_size(p, c, sizes)
    &&& ui.transform == c.transform
}

/// The pool's sizes fit `i32`.
pub open spec fn pool_sizes_fit(p: Project) -> bool {
    forall|m: int|
        0 <= m < p.media.len() ==> (#[trigger] p.media@[m]).width <= i32::MAX && p.media@[m].height
            <= i32::MAX
}

/// Show a clip. `sizes` holds what generated content draws, `badges` the length
/// badge of each clip.
pub fn clip_to_slint(
    project: &Project,
    clip: &ProjectClip,
    sizes: &HashMap<u64, (i32, i32)>,
    badges: &HashMap<u64, String>,
) -> (r: Clip)
    requires
        rooms_in_range(*project, *clip),
        pool_sizes_fit(*project),
    ensures
        shows_clip(r, *project, *clip, sizes@, badges@),
{
    broadcast use vstd::std_specs::hash::group_hash_axioms;

    let (name, text_content) = clip_labels(project, clip);
    let (kind, fill_color) = clip_generator_visual(&clip.content);
    let (head_room_ticks, tail_room_ticks) = trim_rooms(project, clip);
    let (media_id, source_in): (String, MediaTime) = match &clip.content {
        ClipSource::Media { media, source } => (
            decimal_text(*media),
            MediaTime { value: source.start, rate: source.rate },
        ),
        ClipSource::Generated(_) => (
            String::new(),
            MediaTime { value: 0, rate: Rational { num: 0, den: 0 } },
        ),
    };
    let (media_width, media_height): (i32, i32) = match &clip.content {
        ClipSource::Media { media, source: _ } => match project.find_media(*media) {
            Some(m) => {
                assert(project.media@[m as int].width <= i32::MAX);
                (project.media[m].width as i32, project.media[m].height as i32)
            },
            None => (0, 0),
        },
        ClipSource::Generated(_) => match sizes.get(&clip.id) {
            Some(size) => *size,
            None => (0, 0),
        },
    };
    let duration_label: String = match badges.get(&clip.id) {
        Some(label) => label.clone(),
        None => String::new(),
    };
    let start = RationalTime { value: clamp_i32(clip.start), rate: project.frame_rate };
    let duration = RationalTime { value: clamp_i32(clip.duration), rate: project.frame_rate };
    Clip {
        id: decimal_text(clip.id),
        name,
        timeline_start: start,
        source_range: TimeRange { start, duration },
        media_id,
        source_in,
        duration_label,
        text_content,
        generator_kind: kind.to_owned(),
        fill_color,
        head_room_ticks,
        tail_room_ticks,
        link_id: match clip.link {
            Some(link) => decimal_text(link),
            None => String::new(),
        },
        media_width,
        media_height,
        transform: clip.transform,
    }
}

/// `ui` shows the lane.
pub open spec fn shows_lane(
    ui: Track,
    p: Project,
    lane: Lane,
    sizes: Map<u64, (i32, i32)>,
    badges: Map<u64, String>,
) -> bool {
    &&& ui.id@ == decimal(lane.id as nat)
    &&& ui.name@ == lane.name@
    &&& ui.kind == lane.kind
    &&& ui.color == color_of_kind(lane.kind)
    &&& ui.enabled == lane.enabled
    &&& ui.muted == lane.muted
    &&& ui.locked == lane.locked
    &&& ui.duck_source == lane.duck_source
    &&& ui.clips.len() == lane.clips.len()
    &&& forall|i: int|
        0 <= i < ui.clips.len() ==> shows_clip(
            #[trigger] ui.clips@[i],
            p,
            lane.clips@[i],
            sizes,
            badges,
        )
}

/// Every clip of the lane has its rooms in range.
pub open spec fn lane_in_range(p: Project, lane: Lane) -> bool {
    forall|i: int|
        0 <= i < lane.clips.len() ==> rooms_in_range(p, #[trigger] lane.clips@[i])
}

/// Show a lane.
pub fn track_to_slint(
    project: &Project,
    lane: &Lane,
    sizes: &HashMap<u64, (i32, i32)>,
    badges: &HashMap<u64, String>,
) -> (r: Track)
    requires
        lane_in_range(*project, *lane),
        pool_sizes_fit(*project),
    ensures
        shows_lane(r, *project, *lane, sizes@, badges@),
{
    let mut clips: Vec<Clip> = Vec::new();
    let mut i: usize = 0;
    while i < lane.clips.len()
        invariant
            i <= lane.clips.len(),
            lane_in_range(*project, *lane),
            pool_sizes_fit(*project),
            clips.len() == i,
            forall|k: int|
                0 <= k < i ==> shows_clip(
                    #[trigger] clips@[k],
                    *project,
                    lane.clips@[k],
                    sizes@,
                    badges@,
                ),
        decreases lane.clips.len() - i,
    {
        assert(rooms_in_range(*project, lane.clips@[i as int]));
        clips.push(clip_to_slint(project, &lane.clips[i], sizes, badges));
        i += 1;
    }
    Track {
        id: decimal_text(lane.id),
        name: lane.name.clone(),
        kind: lane.kind,
        color: kind_color(lane.kind),
        clips,
        enabled: lane.enabled,
        muted: lane.muted,
        locked: lane.locked,
        duck_source: lane.duck_source,
    }
}

// --- the pool -------------------------------------------------------------

/// A media of the library.
#[derive(Debug)]
pub struct Media {
    pub id: String,
    pub name: String,
    pub width: i32,
    pub height: i32,
    pub has_audio: bool,
    pub duration_ticks: i32,
    pub is_audio: bool,
    pub duration_label: String,
}

impl Clone for Media {
    fn clone(&self) -> (r: Self)
        ensures
            r == *self,
    {
        Media {
            id: self.id.clone(),
            name: self.name.clone(),
            width: self.width,
            height: self.height,
            has_audio: self.has_audio,
            duration_ticks: self.duration_ticks,
            is_audio: self.is_audio,
            duration_label: self.duration_label.clone(),
        }
    }
}

/// `ui` shows the media in a project of this rate.
pub open spec fn shows_media(ui: Media, m: MediaSource, tl_rate: Rational) -> bool {
    &&& ui.id@ == decimal(m.id as nat)
    &&& ui.name@ == name_of(m)
    &&& ui.width == m.width
    &&& ui.height == m.height
    &&& ui.has_audio == m.has_audio
    &&& ui.duration_ticks == clamped32(
        clamped64(resampled(m.duration.value as int, m.duration.rate, tl_rate)),
    )
    &&& ui.is_audio == m.audio_only
    &&& ui.duration_label@ == time_label(nearest_seconds(m.duration) as nat, true)
}

/// The media's numbers are usable.
pub open spec fn media_in_range(m: MediaSource) -> bool {
    valid_rate(m.duration.rate) && m.width <= i32::MAX && m.height <= i32::MAX && nearest_seconds(
        m.duration,
    ) <= u64::MAX
}

/// Show a media.
pub fn media_to_slint(media: &MediaSource, tl_rate: Rational) -> (r: Media)
    requires
        media_in_range(*media),
        valid_rate(tl_rate),
    ensures
        shows_media(r, *media, tl_rate),
{
    Media {
        id: decimal_text(media.id),
        name: media_name(media),
        width: media.width as i32,
        height: media.height as i32,
        has_audio: media.has_audio,
        duration_ticks: clamp_i32(resample(media.duration.value, media.duration.rate, tl_rate)),
        is_audio: media.audio_only,
        duration_label: duration_label(media.duration),
    }
}

/// Positions of the pool in ascending id order.
pub open spec fn pool_order(media: Seq<MediaSource>) -> Seq<int> {
    stable_sort(upto(media.len()), by_id(media))
}

/// How positions of the pool compare.
pub open spec fn by_id(media: Seq<MediaSource>) -> spec_fn(int, int) -> bool {
    |a: int, b: int| media[a].id <= media[b].id
}

/// Every media of the pool has usable numbers.
pub open spec fn pool_in_range(media: Seq<MediaSource>) -> bool {
    forall|m: int| 0 <= m < media.len() ==> media_in_range(#[trigger] media[m])
}

/// `ui` shows the pool in ascending id order.
pub open spec fn shows_pool(ui: Seq<Media>, media: Seq<MediaSource>, tl_rate: Rational) -> bool {
    ui.len() == media.len() && forall|i: int|
        0 <= i < ui.len() ==> shows_media(#[trigger] ui[i], media[pool_order(media)[i]], tl_rate)
}

fn id_keys(media: &Vec<MediaSource>) -> (r: Vec<(i64, i64)>)
    ensures
        r.len() == media.len(),
        forall|i: int, j: int|
            0 <= i < r.len() && 0 <= j < r.len() ==> (pair_leq(
                pair_int(#[trigger] r@[i]),
                pair_int(#[trigger] r@[j]),
            ) == (media@[i].id <= media@[j].id)),
{
    let mut out: Vec<(i64, i64)> = Vec::new();
    let mut i: usize = 0;
    while i < media.len()
        invariant
            i <= media.len(),
            out.len() == i,
            forall|j: int|
                0 <= j < i ==> (#[trigger] out@[j]).0 == media@[j].id as int / 0x1_0000_0000
                    && out@[j].1 == media@[j].id as int % 0x1_0000_0000,
        decreases media.len() - i,
    {
        let id: u64 = media[i].id;
        out.push(((id / 0x1_0000_0000) as i64, (id % 0x1_0000_0000) as i64));
        i += 1;
    }
    out
}

/// The media pool as library entries, ordered by id so that tiles keep their
/// places.
pub fn media_pool(project: &Project) -> (r: Vec<Media>)
    requires
        pool_in_range(project.media@),
        valid_rate(project.frame_rate),
    ensures
        shows_pool(r@, project.media@, project.frame_rate),
{
    let keys = id_keys(&project.media);
    let order = sort_positions(&keys);
    proof {
        let all = upto(project.media@.len());
        let f = |i: int| i;
        assert forall|x: int, y: int| all.contains(x) && all.contains(y) implies #[trigger] key_leq(
            keys@,
        )(x, y) == by_id(project.media@)(f(x), f(y)) by {
            assert(pair_leq(pair_int(keys@[x]), pair_int(keys@[y])) == (project.media@[x].id
                <= project.media@[y].id));
        }
        lemma_sort_map(all, f, key_leq(keys@), by_id(project.media@));
        assert(all.map_values(f) =~= all);
        assert(positions(order@).map_values(f) =~= positions(order@));
    }
    let mut out: Vec<Media> = Vec::new();
    let mut i: usize = 0;
    while i < order.len()
        invariant
            i <= order.len(),
            order.len() == project.media.len(),
            pool_in_range(project.media@),
            valid_rate(project.frame_rate),
            positions(order@) == pool_order(project.media@),
            forall|k: int| 0 <= k < order.len() ==> (#[trigger] order@[k]) < project.media.len(),
            out.len() == i,
            forall|k: int|
                0 <= k < i ==> shows_media(
                    #[trigger] out@[k],
                    project.media@[pool_order(project.media@)[k]],
                    project.frame_rate,
                ),
        decreases order.len() - i,
    {
        let at: usize = order[i];
        proof {
            assert(media_in_range(project.media@[at as int]));
            assert(positions(order@)[i as int] == at as int);
        }
        out.push(media_to_slint(&project.media[at], project.frame_rate));
        i += 1;
    }
    out
}

// --- the project ----------------------------------------------------------

/// A project as the editor shows it.
#[derive(Debug)]
pub struct ProjectUi {
    pub id: String,
    pub title: String,
    pub sequence: Sequence,
    pub media: Vec<Media>,
    /// The audio-only part of `media`.
    pub media_audio: Vec<Media>,
}

/// Being audio only.
pub open spec fn is_audio_media() -> spec_fn(Media) -> bool {
    |m: Media| m.is_audio
}

/// `ui` shows the project: lanes top first, the stack reversed.
pub open spec fn shows_project(
    ui: ProjectUi,
    p: Project,
    sizes: Map<u64, (i32, i32)>,
    badges: Map<u64, String>,
) -> bool {
    &&& ui.id@ == decimal(p.id as nat)
    &&& ui.title@ == p.name@
    &&& ui.sequence.id@ == decimal(p.id as nat)
    &&& ui.sequence.name@ == "Sequence 1"@
    &&& ui.sequence.fps == p.frame_rate
    &&& !ui.sequence.drop_frame
    &&& (ui.sequence.width as int, ui.sequence.height as int) == canvas_of(p)
    &&& ui.sequence.tracks.len() == p.lanes.len()
    &&& forall|row: int|
        0 <= row < p.lanes.len() ==> shows_lane(
            #[trigger] ui.sequence.tracks@[row],
            p,
            p.lanes@[p.lanes.len() - 1 - row],
            sizes,
            badges,
        )
    &&& shows_pool(ui.media@, p.media@, p.frame_rate)
    &&& ui.media_audio@ == ui.media@.filter(is_audio_media())
}

/// The project can be shown: its rates and sizes are usable.
pub open spec fn showable(p: Project) -> bool {
    &&& valid_rate(p.frame_rate)
    &&& pool_in_range(p.media@)
    &&& forall|t: int| 0 <= t < p.lanes.len() ==> lane_in_range(p, #[trigger] p.lanes@[t])
}

/// Show a project. The stack runs from the bottom to the top and the list from the
/// top to the bottom: row `r` is lane `count - 1 - r` of the stack.
pub fn project_to_slint(
    project: &Project,
    sizes: &HashMap<u64, (i32, i32)>,
    badges: &HashMap<u64, String>,
) -> (r: ProjectUi)
    requires
        showable(*project),
    ensures
        shows_project(r, *project, sizes@, badges@),
{
    proof {
        assert forall|m: int| 0 <= m < project.media.len() implies (
        #[trigger] project.media@[m]).width <= i32::MAX && project.media@[m].height <= i32::MAX by {
            assert(media_in_range(project.media@[m]));
        }
    }
    let (width, height) = canvas_size(project);
    let mut tracks: Vec<Track> = Vec::new();
    let n: usize = project.lanes.len();
    let mut row: usize = 0;
    while row < n
        invariant
            row <= n,
            n == project.lanes.len(),
            showable(*project),
            pool_sizes_fit(*project),
            tracks.len() == row,
            forall|k: int|
                0 <= k < row ==> shows_lane(
                    #[trigger] tracks@[k],
                    *project,
                    project.lanes@[n - 1 - k],
                    sizes@,
                    badges@,
                ),
        decreases n - row,
    {
        assert(lane_in_range(*project, project.lanes@[n - 1 - row]));
        tracks.push(track_to_slint(project, &project.lanes[n - 1 - row], sizes, badges));
        row += 1;
    }
    let media = media_pool(project);
    let ghost p = is_audio_media();
    let mut media_audio: Vec<Media> = Vec::new();
    let mut i: usize = 0;
    proof {
        reveal(Seq::filter);
    }
    while i < media.len()
        invariant
            i <= media.len(),
            p == is_audio_media(),
            media_audio@ == media@.take(i as int).filter(p),
        decreases media.len() - i,
    {
        proof {
            lemma_filter_take(media@, i as int, p);
        }
        if media[i].is_audio {
            media_audio.push(media[i].clone());
        }
        i += 1;
    }
    assert(media@.take(i as int) =~= media@);
    ProjectUi {
        id: decimal_text(project.id),
        title: project.name.clone(),
        sequence: Sequence {
            id: decimal_text(project.id),
            name: "Sequence 1".to_owned(),
            fps: project.frame_rate,
            drop_frame: false,
            width,
            height,
            tracks,
        },
        media,
        media_audio,
    }
}

} // verus!
