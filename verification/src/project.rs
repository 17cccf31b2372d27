//! The project as the editing operations read it: lanes from the bottom of the
//! stack to the top, each with its clips in start order, and the media pool.
//!
//! Times on the timeline are whole ticks at the project's frame rate.

use vstd::prelude::*;

use crate::arith::{floor_div, lemma_floor, lemma_product, round_of};
use crate::audio::{Easing, Keyframe, Param};
use crate::find::{first_where, lemma_first_found, lemma_first_where};
use crate::inspector::TextStyle;
use crate::model::{Color, MediaTime, Rational, TrackKind, TransformBits};
use crate::num::{clamped64, max64, max_int};

verus! {

/// A window of a media, in ticks at the media's rate.
#[derive(Clone, Copy, Debug, PartialEq, Eq, Structural)]
pub struct SourceRange {
    pub start: i64,
    pub duration: i64,
    pub rate: Rational,
}

/// A drawn shape.
#[derive(Clone, Copy, Debug, PartialEq, Eq, Structural)]
pub enum Shape {
    Rectangle,
    Ellipse,
}

/// Content that is drawn rather than decoded.
#[derive(Debug)]
pub enum Generator {
    Text { content: String, style: TextStyle },
    SolidColor { rgba: Color },
    /// Width and height are IEEE single bit patterns.
    Shape { shape: Shape, rgba: Color, width: u32, height: u32 },
    Sticker,
    Effect,
    Filter,
    Adjustment,
}

/// Where a clip's content comes from.
#[derive(Debug)]
pub enum ClipSource {
    Media { media: u64, source: SourceRange },
    Generated(Generator),
}

impl Clone for Generator {
    fn clone(&self) -> (r: Self)
        ensures
            r == *self,
    {
        match self {
            Generator::Text { content, style } => Generator::Text {
                content: content.clone(),
                style: style.clone(),
            },
            Generator::SolidColor { rgba } => Generator::SolidColor { rgba: *rgba },
            Generator::Shape { shape, rgba, width, height } => Generator::Shape {
                shape: *shape,
                rgba: *rgba,
                width: *width,
                height: *height,
            },
            Generator::Sticker => Generator::Sticker,
            Generator::Effect => Generator::Effect,
            Generator::Filter => Generator::Filter,
            Generator::Adjustment => Generator::Adjustment,
        }
    }
}

impl Clone for ClipSource {
    fn clone(&self) -> (r: Self)
        ensures
            r == *self,
    {
        match self {
            ClipSource::Media { media, source } => ClipSource::Media {
                media: *media,
                source: *source,
            },
            ClipSource::Generated(generator) => ClipSource::Generated(generator.clone()),
        }
    }
}

/// How a clip sounds.
#[derive(Debug)]
pub struct ClipSound {
    /// Constantly silent.
    pub silent: bool,
    /// Played at another speed than it was recorded, or reversed.
    pub retimed: bool,
    pub reversed: bool,
    /// Pitch factor, an IEEE single bit pattern.
    pub pitch_bits: u32,
    /// Speed ramp, if the clip has one.
    pub speed_curve: Option<Param>,
    /// Gain envelope over clip-relative ticks.
    pub volume: Param,
    pub fade_in: i64,
    pub fade_out: i64,
}

/// A pair of values at a tick; the values are IEEE single bit patterns.
#[derive(Clone, Copy, Debug, PartialEq, Eq, Structural)]
pub struct PairKeyframe {
    pub tick: i64,
    pub x: u32,
    pub y: u32,
    pub easing: Easing,
}

/// The keyframes of a clip's placement, over clip-relative ticks.
#[derive(Debug)]
pub struct Animation {
    pub position: Vec<PairKeyframe>,
    pub anchor: Vec<PairKeyframe>,
    pub scale: Vec<Keyframe>,
    pub rotation: Vec<Keyframe>,
    pub opacity: Vec<Keyframe>,
}

/// A clip on a lane.
#[derive(Debug)]
pub struct ProjectClip {
    pub id: u64,
    pub start: i64,
    pub duration: i64,
    pub content: ClipSource,
    /// Link group.
    pub link: Option<u64>,
    pub transform: TransformBits,
    pub animation: Animation,
    pub sound: ClipSound,
}

/// A lane.
#[derive(Debug)]
pub struct Lane {
    pub id: u64,
    pub name: String,
    pub kind: TrackKind,
    pub enabled: bool,
    pub muted: bool,
    pub locked: bool,
    pub duck_source: bool,
    /// In start order.
    pub clips: Vec<ProjectClip>,
}

/// A media of the pool.
#[derive(Debug)]
pub struct MediaSource {
    pub id: u64,
    pub path: String,
    /// File stem, when the path has one.
    pub stem: Option<String>,
    pub width: u32,
    pub height: u32,
    pub frame_rate: Rational,
    pub duration: MediaTime,
    pub has_audio: bool,
    pub audio_only: bool,
}

/// A project.
#[derive(Debug)]
pub struct Project {
    pub id: u64,
    pub name: String,
    pub frame_rate: Rational,
    /// From the bottom of the stack to the top.
    pub lanes: Vec<Lane>,
    pub media: Vec<MediaSource>,
}

impl ProjectClip {
    /// One past the last tick.
    pub open spec fn end(&self) -> int {
        self.start + self.duration
    }
}

/// Clips in start order that do not overlap, from tick 0 on, with ends that fit
/// `i64`.
pub open spec fn lane_wf(clips: Seq<ProjectClip>) -> bool {
    &&& forall|i: int|
        0 <= i < clips.len() ==> 0 <= (#[trigger] clips[i]).start && 1 <= clips[i].duration
            && clips[i].end() <= i64::MAX
    &&& forall|i: int, j: int|
        0 <= i < j < clips.len() ==> (#[trigger] clips[i]).end() <= (#[trigger] clips[j]).start
}

/// One past the last tick of the lane's content; 0 on an empty lane.
pub open spec fn lane_end(clips: Seq<ProjectClip>) -> int {
    if clips.len() == 0 {
        0
    } else {
        clips.last().end()
    }
}

/// One past the last tick of any lane; 0 when there is no content.
pub open spec fn timeline_end(lanes: Seq<Lane>) -> int
    decreases lanes.len(),
{
    if lanes.len() == 0 {
        0
    } else {
        max_int(timeline_end(lanes.drop_last()), lane_end(lanes.last().clips@))
    }
}

/// Every lane is in order.
pub open spec fn lanes_wf(lanes: Seq<Lane>) -> bool {
    forall|t: int| 0 <= t < lanes.len() ==> lane_wf((#[trigger] lanes[t]).clips@)
}

/// No lane ends behind the timeline.
pub proof fn lemma_timeline_end_covers(lanes: Seq<Lane>)
    requires
        lanes_wf(lanes),
    ensures
        0 <= timeline_end(lanes) <= i64::MAX,
        forall|t: int|
            0 <= t < lanes.len() ==> lane_end((#[trigger] lanes[t]).clips@) <= timeline_end(lanes),
    decreases lanes.len(),
{
    if lanes.len() > 0 {
        let front = lanes.drop_last();
        assert forall|t: int| 0 <= t < front.len() implies lane_wf((#[trigger] front[t]).clips@) by {
            assert(front[t] == lanes[t]);
        }
        lemma_timeline_end_covers(front);
        assert(lanes[lanes.len() - 1] == lanes.last());
        lemma_lane_end_covers(lanes.last().clips@);
        assert forall|t: int| 0 <= t < lanes.len() implies lane_end((#[trigger] lanes[t]).clips@)
            <= timeline_end(lanes) by {
            if t < front.len() {
                assert(front[t] == lanes[t]);
            }
        }
    }
}

/// Content end of the whole timeline.
pub fn content_end_of_all(lanes: &Vec<Lane>) -> (r: i64)
    requires
        lanes_wf(lanes@),
    ensures
        r == timeline_end(lanes@),
{
    let mut end: i64 = 0;
    let mut t: usize = 0;
    while t < lanes.len()
        invariant
            t <= lanes.len(),
            lanes_wf(lanes@),
            end == timeline_end(lanes@.take(t as int)),
        decreases lanes.len() - t,
    {
        assert(lanes@.take(t as int + 1).drop_last() =~= lanes@.take(t as int));
        assert(lane_wf(lanes@[t as int].clips@));
        end = max64(end, content_end(&lanes[t].clips));
        t += 1;
    }
    assert(lanes@.take(t as int) =~= lanes@);
    end
}

/// Content end of a lane.
pub fn content_end(clips: &Vec<ProjectClip>) -> (r: i64)
    requires
        lane_wf(clips@),
    ensures
        r == lane_end(clips@),
{
    if clips.len() == 0 {
        0
    } else {
        let last = &clips[clips.len() - 1];
        last.start + last.duration
    }
}

/// The content end is not before the end of any clip.
pub proof fn lemma_lane_end_covers(clips: Seq<ProjectClip>)
    requires
        lane_wf(clips),
    ensures
        0 <= lane_end(clips) <= i64::MAX,
        forall|i: int| 0 <= i < clips.len() ==> (#[trigger] clips[i]).end() <= lane_end(clips),
{
    if clips.len() > 0 {
        assert forall|i: int| 0 <= i < clips.len() implies (#[trigger] clips[i]).end() <= lane_end(
            clips,
        ) by {
            if i < clips.len() - 1 {
                assert(clips[i].end() <= clips[clips.len() - 1].start);
            }
        }
    }
}

// --- rates ----------------------------------------------------------------

/// A rate with a positive numerator and denominator.
pub open spec fn valid_rate(r: Rational) -> bool {
    r.num > 0 && r.den > 0
}

/// `value` ticks at `from` in ticks at `to`, rounded to the nearest.
pub open spec fn resampled(value: int, from: Rational, to: Rational) -> int {
    round_of(value * from.den * to.num, from.num * to.den)
}

/// `value` ticks at `from` in ticks at `to`, rounded to the nearest.
pub fn resample(value: i64, from: Rational, to: Rational) -> (r: i64)
    requires
        valid_rate(from),
        valid_rate(to),
    ensures
        r == clamped64(resampled(value as int, from, to)),
{
    let ghost (v, fd, tn) = (value as int, from.den as int, to.num as int);
    let ghost (fnum, td) = (from.num as int, to.den as int);
    proof {
        let (a, b) = (0x8000_0000_0000_0000int, 0x8000_0000int);
        lemma_product(v, fd, a, b);
        lemma_product(v * fd, tn, a * b, b);
        lemma_product(fnum, td, b, b);
        assert(a * b * b == 0x2000_0000_0000_0000_0000_0000_0000_0000int) by (nonlinear_arith)
            requires
                a == 0x8000_0000_0000_0000int,
                b == 0x8000_0000int,
        ;
        assert(fnum * td > 0) by (nonlinear_arith)
            requires
                fnum > 0,
                td > 0,
        ;
    }
    let num: i128 = value as i128 * from.den as i128 * to.num as i128;
    let den: i128 = from.num as i128 * to.den as i128;
    let nearest: i128 = if num >= 0 {
        floor_div(2 * num + den, 2 * den)
    } else {
        let up: i128 = floor_div(-2 * num + den, 2 * den);
        proof {
            lemma_floor(-2 * num + den, 2 * den as int);
            let (n, d, q) = (-2 * num + den, 2 * den as int, up as int);
            assert(q >= 0) by (nonlinear_arith)
                requires
                    (q + 1) * d > n,
                    n > 0,
                    d > 0,
            ;
        }
        -up
    };
    if nearest < -0x8000_0000_0000_0000 {
        i64::MIN
    } else if nearest > 0x7fff_ffff_ffff_ffff {
        i64::MAX
    } else {
        nearest as i64
    }
}

// --- lookups --------------------------------------------------------------

/// Being the lane with this id.
pub open spec fn lane_is(id: u64) -> spec_fn(Lane) -> bool {
    |l: Lane| l.id == id
}

/// Being the clip with this id.
pub open spec fn clip_is(id: u64) -> spec_fn(ProjectClip) -> bool {
    |c: ProjectClip| c.id == id
}

/// Holding the clip with this id.
pub open spec fn lane_holds(id: u64) -> spec_fn(Lane) -> bool {
    |l: Lane| first_where(l.clips@, clip_is(id)) is Some
}

/// Being the media with this id.
pub open spec fn media_is(id: u64) -> spec_fn(MediaSource) -> bool {
    |m: MediaSource| m.id == id
}

/// Being a video lane.
pub open spec fn is_video() -> spec_fn(Lane) -> bool {
    |l: Lane| l.kind == TrackKind::Video
}

impl Project {
    /// Position in the stack of the lane with this id.
    pub open spec fn lane_at(&self, id: u64) -> Option<int> {
        first_where(self.lanes@, lane_is(id))
    }

    /// Position in the stack of the lane that holds the clip.
    pub open spec fn lane_of_clip(&self, clip: u64) -> Option<int> {
        first_where(self.lanes@, lane_holds(clip))
    }

    /// The clip with this id.
    pub open spec fn clip_with(&self, clip: u64) -> Option<ProjectClip> {
        match self.lane_of_clip(clip) {
            None => None,
            Some(t) => Some(
                self.lanes@[t].clips@[first_where(self.lanes@[t].clips@, clip_is(clip))->0],
            ),
        }
    }

    /// Position in the stack of the main lane: the bottom video lane.
    pub open spec fn main_lane(&self) -> Option<int> {
        first_where(self.lanes@, is_video())
    }

    /// The media with this id.
    pub open spec fn media_with(&self, id: u64) -> Option<MediaSource> {
        match first_where(self.media@, media_is(id)) {
            None => None,
            Some(m) => Some(self.media@[m]),
        }
    }

    /// Position in the stack of the lane with this id.
    pub fn find_lane(&self, id: u64) -> (r: Option<usize>)
        ensures
            match r {
                Some(t) => t < self.lanes.len() && self.lane_at(id) == Some(t as int)
                    && self.lanes@[t as int].id == id,
                None => self.lane_at(id) is None,
            },
    {
        let ghost p = lane_is(id);
        let mut t: usize = 0;
        while t < self.lanes.len()
            invariant
                t <= self.lanes.len(),
                p == lane_is(id),
                forall|j: int| 0 <= j < t ==> !p(#[trigger] self.lanes@[j]),
            decreases self.lanes.len() - t,
        {
            if self.lanes[t].id == id {
                proof {
                    lemma_first_found(self.lanes@, p, t as int);
                }
                return Some(t);
            }
            t += 1;
        }
        proof {
            lemma_first_where(self.lanes@, p);
        }
        None
    }

    /// Lane position and position on the lane of a clip.
    pub fn find_clip(&self, clip: u64) -> (r: Option<(usize, usize)>)
        ensures
            match r {
                Some((t, c)) => {
                    &&& t < self.lanes.len()
                    &&& c < self.lanes@[t as int].clips.len()
                    &&& self.lane_of_clip(clip) == Some(t as int)
                    &&& first_where(self.lanes@[t as int].clips@, clip_is(clip)) == Some(c as int)
                    &&& self.lanes@[t as int].clips@[c as int].id == clip
                    &&& self.clip_with(clip) == Some(self.lanes@[t as int].clips@[c as int])
                },
                None => self.lane_of_clip(clip) is None && self.clip_with(clip) is None,
            },
    {
        let ghost p = lane_holds(clip);
        let mut t: usize = 0;
        while t < self.lanes.len()
            invariant
                t <= self.lanes.len(),
                p == lane_holds(clip),
                forall|j: int| 0 <= j < t ==> !p(#[trigger] self.lanes@[j]),
            decreases self.lanes.len() - t,
        {
            match index_of_clip(&self.lanes[t].clips, clip) {
                Some(c) => {
                    proof {
                        lemma_first_found(self.lanes@, p, t as int);
                    }
                    return Some((t, c));
                },
                None => {},
            }
            t += 1;
        }
        proof {
            lemma_first_where(self.lanes@, p);
        }
        None
    }

    /// Position of the main lane: the bottom video lane.
    pub fn main_video_track(&self) -> (r: Option<usize>)
        ensures
            match r {
                Some(t) => t < self.lanes.len() && self.main_lane() == Some(t as int),
                None => self.main_lane() is None,
            },
    {
        let ghost p = is_video();
        let mut t: usize = 0;
        while t < self.lanes.len()
            invariant
                t <= self.lanes.len(),
                p == is_video(),
                forall|j: int| 0 <= j < t ==> !p(#[trigger] self.lanes@[j]),
            decreases self.lanes.len() - t,
        {
            if self.lanes[t].kind == TrackKind::Video {
                proof {
                    lemma_first_found(self.lanes@, p, t as int);
                }
                return Some(t);
            }
            t += 1;
        }
        proof {
            lemma_first_where(self.lanes@, p);
        }
        None
    }

    /// Position in the pool of a media.
    pub fn find_media(&self, id: u64) -> (r: Option<usize>)
        ensures
            match r {
                Some(m) => m < self.media.len() && self.media_with(id) == Some(
                    self.media@[m as int],
                ),
                None => self.media_with(id) is None,
            },
    {
        let ghost p = media_is(id);
        let mut m: usize = 0;
        while m < self.media.len()
            invariant
                m <= self.media.len(),
                p == media_is(id),
                forall|j: int| 0 <= j < m ==> !p(#[trigger] self.media@[j]),
            decreases self.media.len() - m,
        {
            if self.media[m].id == id {
                proof {
                    lemma_first_found(self.media@, p, m as int);
                }
                return Some(m);
            }
            m += 1;
        }
        proof {
            lemma_first_where(self.media@, p);
        }
        None
    }
}

/// Position of a clip on a lane.
pub fn index_of_clip(clips: &Vec<ProjectClip>, id: u64) -> (r: Option<usize>)
    ensures
        match r {
            Some(c) => c < clips.len() && first_where(clips@, clip_is(id)) == Some(c as int)
                && clips@[c as int].id == id,
            None => first_where(clips@, clip_is(id)) is None,
        },
{
    let ghost p = clip_is(id);
    let mut c: usize = 0;
    while c < clips.len()
        invariant
            c <= clips.len(),
            p == clip_is(id),
            forall|j: int| 0 <= j < c ==> !p(#[trigger] clips@[j]),
        decreases clips.len() - c,
    {
        if clips[c].id == id {
            proof {
                lemma_first_found(clips@, p, c as int);
            }
            return Some(c);
        }
        c += 1;
    }
    proof {
        lemma_first_where(clips@, p);
    }
    None
}

// --- link groups ----------------------------------------------------------

/// Every clip, lane by lane from the bottom.
pub open spec fn all_clips(lanes: Seq<Lane>) -> Seq<ProjectClip>
    decreases lanes.len(),
{
    if lanes.len() == 0 {
        Seq::empty()
    } else {
        all_clips(lanes.drop_last()) + lanes.last().clips@
    }
}

/// Belonging to one of these link groups.
pub open spec fn linked_to(links: Seq<u64>) -> spec_fn(ProjectClip) -> bool {
    |c: ProjectClip| c.link matches Some(l) && links.contains(l)
}

/// The ids of clips.
pub open spec fn ids_of(clips: Seq<ProjectClip>) -> Seq<u64> {
    clips.map_values(|c: ProjectClip| c.id)
}

/// The ids of every clip in one of these link groups, from the bottom lane up.
pub open spec fn link_members(lanes: Seq<Lane>, links: Seq<u64>) -> Seq<u64> {
    ids_of(all_clips(lanes).filter(linked_to(links)))
}

/// The clip's whole link group; just the clip when it has none.
pub open spec fn link_group_of(p: Project, clip: u64) -> Seq<u64> {
    match p.clip_with(clip) {
        Some(c) => match c.link {
            Some(link) => link_members(p.lanes@, seq![link]),
            None => seq![clip],
        },
        None => seq![clip],
    }
}

pub(crate) fn has_link(links: &Vec<u64>, link: u64) -> (r: bool)
    ensures
        r == links@.contains(link),
{
    let mut i: usize = 0;
    while i < links.len()
        invariant
            i <= links.len(),
            forall|j: int| 0 <= j < i ==> links@[j] != link,
        decreases links.len() - i,
    {
        if links[i] == link {
            assert(links@[i as int] == link);
            return true;
        }
        i += 1;
    }
    false
}

/// The ids of every clip in one of these link groups, from the bottom lane up.
pub fn members_of_links(project: &Project, links: &Vec<u64>) -> (r: Vec<u64>)
    ensures
        r@ == link_members(project.lanes@, links@),
{
    let ghost p = linked_to(links@);
    let mut out: Vec<u64> = Vec::new();
    let mut t: usize = 0;
    proof {
        reveal(Seq::filter);
        assert(out@ =~= ids_of(all_clips(project.lanes@.take(0)).filter(p)));
    }
    while t < project.lanes.len()
        invariant
            t <= project.lanes.len(),
            p == linked_to(links@),
            out@ == ids_of(all_clips(project.lanes@.take(t as int)).filter(p)),
        decreases project.lanes.len() - t,
    {
        let clips = &project.lanes[t].clips;
        let ghost before = all_clips(project.lanes@.take(t as int));
        let mut c: usize = 0;
        proof {
            reveal(Seq::filter);
            assert(before + clips@.take(0) =~= before);
        }
        while c < clips.len()
            invariant
                c <= clips.len(),
                p == linked_to(links@),
                out@ == ids_of((before + clips@.take(c as int)).filter(p)),
            decreases clips.len() - c,
        {
            let clip = &clips[c];
            let ghost had = (before + clips@.take(c as int)).filter(p);
            proof {
                assert(before + clips@.take(c as int + 1) =~= (before + clips@.take(c as int)).push(
                    *clip,
                ));
                crate::find::lemma_filter_push(before + clips@.take(c as int), *clip, p);
            }
            let joined: bool = match clip.link {
                Some(l) => has_link(links, l),
                None => false,
            };
            if joined {
                out.push(clip.id);
                assert(out@ =~= ids_of(had.push(*clip)));
            }
            c += 1;
        }
        proof {
            assert(clips@.take(c as int) =~= clips@);
            let upper = project.lanes@.take(t as int + 1);
            assert(upper.drop_last() =~= project.lanes@.take(t as int));
            assert(upper.last() == project.lanes@[t as int]);
        }
        t += 1;
    }
    assert(project.lanes@.take(t as int) =~= project.lanes@);
    out
}

/// Every clip sharing the clip's link group, itself included; just the clip
/// when it is not linked.
pub fn link_group_ids(project: &Project, clip: u64) -> (r: Vec<u64>)
    ensures
        r@ == link_group_of(*project, clip),
{
    let mut one: Vec<u64> = Vec::new();
    match project.find_clip(clip) {
        Some((t, c)) => {
            match project.lanes[t].clips[c].link {
                Some(link) => {
                    one.push(link);
                    assert(one@ =~= seq![link]);
                    return members_of_links(project, &one);
                },
                None => {},
            }
        },
        None => {},
    }
    one.push(clip);
    assert(one@ =~= seq![clip]);
    one
}

} // verus!
