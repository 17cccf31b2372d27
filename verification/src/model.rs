//! The timeline as the editor sees it: lanes of clips in sequence ticks.

use vstd::prelude::*;

verus! {

/// A frame rate, or any other ratio of two integers.
#[derive(Clone, Copy, Debug, PartialEq, Eq, Structural)]
pub struct Rational {
    pub num: i32,
    pub den: i32,
}

/// A tick count at a rate.
#[derive(Clone, Copy, Debug, PartialEq, Eq, Structural)]
pub struct RationalTime {
    pub value: i32,
    pub rate: Rational,
}

/// A 64-bit tick count at a rate.
#[derive(Clone, Copy, Debug, PartialEq, Eq, Structural)]
pub struct MediaTime {
    pub value: i64,
    pub rate: Rational,
}

/// A start and a length.
#[derive(Clone, Copy, Debug, PartialEq, Eq, Structural)]
pub struct TimeRange {
    pub start: RationalTime,
    pub duration: RationalTime,
}

/// An 8-bit colour with alpha.
#[derive(Clone, Copy, Debug, PartialEq, Eq, Structural)]
pub struct Color {
    pub red: u8,
    pub green: u8,
    pub blue: u8,
    pub alpha: u8,
}

/// What a lane holds; a clip only lands on a lane of its own kind.
#[derive(Clone, Copy, Debug, PartialEq, Eq, Structural)]
pub enum TrackKind {
    Video,
    Audio,
    Text,
    Sticker,
    Effect,
    Filter,
    Adjustment,
}

/// A clip's placement transform; each number is an IEEE single, kept as its
/// bit pattern because nothing here computes with it.
#[derive(Clone, Copy, Debug, PartialEq, Eq, Structural)]
pub struct TransformBits {
    pub position_x: u32,
    pub position_y: u32,
    pub anchor_x: u32,
    pub anchor_y: u32,
    pub scale: u32,
    pub rotation: u32,
    pub opacity: u32,
}

/// A clip on a lane. `timeline_start` and `source_range.duration` are in
/// sequence ticks; the rooms say how far each edge may still extend.
#[derive(Debug)]
pub struct Clip {
    pub id: String,
    pub name: String,
    pub timeline_start: RationalTime,
    pub source_range: TimeRange,
    pub media_id: String,
    /// Source in-point of a media clip.
    pub source_in: MediaTime,
    pub duration_label: String,
    pub text_content: String,
    pub generator_kind: String,
    pub fill_color: Color,
    pub head_room_ticks: i32,
    pub tail_room_ticks: i32,
    pub link_id: String,
    pub media_width: i32,
    pub media_height: i32,
    pub transform: TransformBits,
}

/// A lane, listed top-first in a [`Sequence`].
#[derive(Clone, Debug)]
pub struct Track {
    pub id: String,
    pub name: String,
    pub kind: TrackKind,
    pub color: Color,
    pub clips: Vec<Clip>,
    pub enabled: bool,
    pub muted: bool,
    pub locked: bool,
    pub duck_source: bool,
}

/// The lanes of a timeline, the frontmost first.
#[derive(Clone, Debug)]
pub struct Sequence {
    pub id: String,
    pub name: String,
    pub fps: Rational,
    pub drop_frame: bool,
    pub width: u32,
    pub height: u32,
    pub tracks: Vec<Track>,
}

impl Clone for Clip {
    fn clone(&self) -> (r: Self)
        ensures
            r == *self,
    {
        Clip {
            id: self.id.clone(),
            name: self.name.clone(),
            timeline_start: self.timeline_start,
            source_range: self.source_range,
            media_id: self.media_id.clone(),
            source_in: self.source_in,
            duration_label: self.duration_label.clone(),
            text_content: self.text_content.clone(),
            generator_kind: self.generator_kind.clone(),
            fill_color: self.fill_color,
            head_room_ticks: self.head_room_ticks,
            tail_room_ticks: self.tail_room_ticks,
            link_id: self.link_id.clone(),
            media_width: self.media_width,
            media_height: self.media_height,
            transform: self.transform,
        }
    }
}

/// A clip with nothing in it.
pub open spec fn is_blank(c: Clip) -> bool {
    let zero = Rational { num: 0, den: 0 };
    let none = RationalTime { value: 0, rate: zero };
    &&& c.id@.len() == 0
    &&& c.name@.len() == 0
    &&& c.timeline_start == none
    &&& c.source_range == (TimeRange { start: none, duration: none })
    &&& c.media_id@.len() == 0
    &&& c.source_in == (MediaTime { value: 0, rate: zero })
    &&& c.duration_label@.len() == 0
    &&& c.text_content@.len() == 0
    &&& c.generator_kind@.len() == 0
    &&& c.fill_color == (Color { red: 0, green: 0, blue: 0, alpha: 0 })
    &&& c.head_room_ticks == 0
    &&& c.tail_room_ticks == 0
    &&& c.link_id@.len() == 0
    &&& c.media_width == 0
    &&& c.media_height == 0
    &&& c.transform == (TransformBits {
        position_x: 0,
        position_y: 0,
        anchor_x: 0,
        anchor_y: 0,
        scale: 0,
        rotation: 0,
        opacity: 0,
    })
}

impl Default for Clip {
    fn default() -> (r: Self)
        ensures
            is_blank(r),
    {
        let zero = Rational { num: 0, den: 0 };
        let none = RationalTime { value: 0, rate: zero };
        Clip {
            id: String::new(),
            name: String::new(),
            timeline_start: none,
            source_range: TimeRange { start: none, duration: none },
            media_id: String::new(),
            source_in: MediaTime { value: 0, rate: zero },
            duration_label: String::new(),
            text_content: String::new(),
            generator_kind: String::new(),
            fill_color: Color { red: 0, green: 0, blue: 0, alpha: 0 },
            head_room_ticks: 0,
            tail_room_ticks: 0,
            link_id: String::new(),
            media_width: 0,
            media_height: 0,
            transform: TransformBits {
                position_x: 0,
                position_y: 0,
                anchor_x: 0,
                anchor_y: 0,
                scale: 0,
                rotation: 0,
                opacity: 0,
            },
        }
    }
}

impl Clip {
    /// First tick of the clip.
    pub open spec fn start(&self) -> int {
        self.timeline_start.value as int
    }

    /// Length in ticks.
    pub open spec fn duration(&self) -> int {
        self.source_range.duration.value as int
    }

    /// One past the last tick, saturated to `i32`.
    pub open spec fn end(&self) -> int {
        crate::num::clamped32(self.start() + self.duration())
    }
}

} // verus!
