//! The mixer's decisions: what it does with each message, which frames of which
//! span a block takes, and how the device callback drains mixed blocks.
//!
//! Decoding and summing samples is left to the caller; everything here is
//! positions and counts.

use vstd::prelude::*;

use crate::audio::{frames64, frames_to_ticks, is_resolved, length_fits, resolve_spans,
    ticks_of, ticks_to_frames, AudioMsg, AudioSnapshot, Param, ResolvedSpan, AUDIO_CHANNELS,
    BLOCK_FRAMES, UNITY_BITS};
use crate::num::{clamp, clamped64, max64, max_int, min64, min_int};

verus! {

// --- messages -------------------------------------------------------------

/// What the mixer knows between blocks.
#[derive(Debug)]
pub struct Mixer {
    pub fps: (i32, i32),
    pub epoch: u64,
    pub playing: bool,
    /// Timeline frame that the next block starts at.
    pub write_frame: i64,
    /// The newest snapshot that was not applied yet.
    pub pending: Option<AudioSnapshot>,
    pub spans: Vec<ResolvedSpan>,
}

impl Mixer {
    /// A mixer that has heard nothing.
    pub fn new() -> (r: Self)
        ensures
            r.fps == (0i32, 0i32),
            r.epoch == 0,
            !r.playing,
            r.write_frame == 0,
            r.pending is None,
            r.spans@ == Seq::<ResolvedSpan>::empty(),
    {
        Mixer {
            fps: (0, 0),
            epoch: 0,
            playing: false,
            write_frame: 0,
            pending: None,
            spans: Vec::new(),
        }
    }

    /// Take in one message. Snapshots wait for [`Mixer::settle`], the newest
    /// replacing an older one; play re-anchors at once.
    pub fn on_message(&mut self, msg: AudioMsg, sample_rate: u32)
        ensures
            match msg {
                AudioMsg::Snapshot(s) => *final(self) == (Mixer { pending: Some(s), ..*old(self) }),
                AudioMsg::Play { tick, epoch } => *final(self) == (Mixer {
                    epoch,
                    playing: true,
                    write_frame: frames64(tick, old(self).fps, sample_rate) as i64,
                    ..*old(self)
                }),
                AudioMsg::Pause => *final(self) == (Mixer { playing: false, ..*old(self) }),
            },
    {
        match msg {
            AudioMsg::Snapshot(snapshot) => {
                self.pending = Some(snapshot);
            },
            AudioMsg::Play { tick, epoch } => {
                self.epoch = epoch;
                self.playing = true;
                self.write_frame = ticks_to_frames(tick, self.fps, sample_rate);
            },
            AudioMsg::Pause => {
                self.playing = false;
            },
        }
    }

    /// Where the next block starts once `fps` gives way to `new_fps`: while
    /// playing, at the same time rather than the same frame count.
    pub open spec fn reanchored(&self, new_fps: (i32, i32), sample_rate: u32) -> int {
        if self.playing && self.fps != new_fps && self.fps.0 > 0 {
            frames64(
                clamped64(ticks_of(self.write_frame as int, self.fps, sample_rate as int)) as i64,
                new_fps,
                sample_rate,
            )
        } else {
            self.write_frame as int
        }
    }

    /// Apply the pending snapshot, if there is one; says whether there was.
    pub fn settle(&mut self, sample_rate: u32) -> (r: bool)
        requires
            old(self).pending matches Some(s) ==> forall|i: int|
                0 <= i < s.spans.len() && (#[trigger] s.spans@[i]).retimed ==> length_fits(
                    s.spans@[i],
                    s.fps,
                    sample_rate,
                ),
        ensures
            final(self).pending is None,
            final(self).epoch == old(self).epoch,
            final(self).playing == old(self).playing,
            match old(self).pending {
                None => !r && *final(self) == *old(self),
                Some(s) => {
                    &&& r
                    &&& final(self).fps == s.fps
                    &&& final(self).write_frame == old(self).reanchored(s.fps, sample_rate)
                    &&& final(self).spans.len() == s.spans.len()
                    &&& forall|i: int|
                        0 <= i < s.spans.len() ==> is_resolved(
                            #[trigger] final(self).spans@[i],
                            s.spans@[i],
                            s.fps,
                            sample_rate,
                        )
                },
            },
    {
        let taken = self.pending.take();
        match taken {
            None => false,
            Some(snapshot) => {
                if self.playing && (self.fps.0 != snapshot.fps.0 || self.fps.1 != snapshot.fps.1)
                    && self.fps.0 > 0 {
                    let tick: i64 = frames_to_ticks(self.write_frame, self.fps, sample_rate);
                    self.write_frame = ticks_to_frames(tick, snapshot.fps, sample_rate);
                }
                self.fps = snapshot.fps;
                self.spans = resolve_spans(&snapshot, sample_rate);
                true
            },
        }
    }

    /// Whether to mix another block: while playing, as long as the ring has room and no
    /// message waits, which outranks the next block.
    pub fn fills(&self, ring_full: bool, message_waits: bool) -> (r: bool)
        ensures
            r == (self.playing && !ring_full && !message_waits),
    {
        self.playing && !ring_full && !message_waits
    }

    /// A block was sent: the next one starts where it ended.
    pub fn advance(&mut self)
        requires
            old(self).write_frame + BLOCK_FRAMES <= i64::MAX,
        ensures
            *final(self) == (Mixer {
                write_frame: (old(self).write_frame + BLOCK_FRAMES) as i64,
                ..*old(self)
            }),
    {
        self.write_frame = self.write_frame + BLOCK_FRAMES as i64;
    }
}

// --- one block ------------------------------------------------------------

/// The part of a span that a block takes.
#[derive(Clone, Copy, Debug, PartialEq, Eq, Structural)]
pub struct SpanWindow {
    /// Position of the span in the list.
    pub span: usize,
    /// Timeline frames `from..to`.
    pub from: i64,
    pub to: i64,
    /// Frame of the source, or of the stretched render, at `from`.
    pub source_from: i64,
    /// Served from the stretched render.
    pub stretched: bool,
}

/// The span meets the frames `pos..end`.
pub open spec fn meets(span: ResolvedSpan, pos: int, end: int) -> bool {
    span.start_frame < end && span.end_frame > pos
}

/// Frame of the source, or of the stretched render, that plays at `from`.
pub open spec fn source_at(span: ResolvedSpan, from: int) -> int {
    if span.render is Some {
        from - span.start_frame
    } else {
        span.source_start_frame + (from - span.start_frame)
    }
}

/// First frame of the span in a block that starts at `pos`.
pub open spec fn from_frame(span: ResolvedSpan, pos: int) -> int {
    max_int(span.start_frame as int, pos)
}

/// One past the last frame of the span in a block that ends at `end`.
pub open spec fn to_frame(span: ResolvedSpan, end: int) -> int {
    min_int(span.end_frame as int, end)
}

/// The part of span number `i` that the block `pos..end` takes.
pub open spec fn window(span: ResolvedSpan, i: int, pos: int, end: int) -> SpanWindow {
    SpanWindow {
        span: i as usize,
        from: from_frame(span, pos) as i64,
        to: to_frame(span, end) as i64,
        source_from: source_at(span, from_frame(span, pos)) as i64,
        stretched: span.render is Some,
    }
}

/// The windows of every span that meets the block, in order.
pub open spec fn windows(spans: Seq<ResolvedSpan>, pos: int, end: int) -> Seq<SpanWindow>
    decreases spans.len(),
{
    if spans.len() == 0 {
        Seq::empty()
    } else {
        let before = windows(spans.drop_last(), pos, end);
        if meets(spans.last(), pos, end) {
            before.push(window(spans.last(), spans.len() - 1, pos, end))
        } else {
            before
        }
    }
}

/// The source position at the start of the block's share fits `i64`.
pub open spec fn source_fits(span: ResolvedSpan, pos: int) -> bool {
    &&& from_frame(span, pos) - span.start_frame <= i64::MAX
    &&& i64::MIN <= source_at(span, from_frame(span, pos)) <= i64::MAX
}

/// Which frames of which spans the block of `frames` frames at `pos` takes.
pub fn plan_block(spans: &Vec<ResolvedSpan>, pos: i64, frames: u32) -> (r: Vec<SpanWindow>)
    requires
        pos + frames <= i64::MAX,
        forall|i: int|
            0 <= i < spans.len() && meets(#[trigger] spans@[i], pos as int, pos + frames)
                ==> source_fits(spans@[i], pos as int),
    ensures
        r@ == windows(spans@, pos as int, pos + frames),
{
    let end: i64 = pos + frames as i64;
    let mut out: Vec<SpanWindow> = Vec::new();
    let mut i: usize = 0;
    while i < spans.len()
        invariant
            i <= spans.len(),
            end == pos + frames,
            forall|k: int|
                0 <= k < spans.len() && meets(#[trigger] spans@[k], pos as int, end as int)
                    ==> source_fits(spans@[k], pos as int),
            out@ == windows(spans@.take(i as int), pos as int, end as int),
        decreases spans.len() - i,
    {
        let span = &spans[i];
        proof {
            assert(spans@.take(i as int + 1).drop_last() =~= spans@.take(i as int));
            assert(spans@.take(i as int + 1).last() == *span);
            assert(*span == spans@[i as int]);
        }
        if span.start_frame < end && span.end_frame > pos {
            let from: i64 = max64(span.start_frame, pos);
            let to: i64 = min64(span.end_frame, end);
            let into: i64 = from - span.start_frame;
            let (source_from, stretched): (i64, bool) = match &span.render {
                Some(_) => (into, true),
                None => (span.source_start_frame + into, false),
            };
            out.push(SpanWindow { span: i, from, to, source_from, stretched });
        }
        i += 1;
    }
    assert(spans@.take(i as int) =~= spans@);
    out
}

/// Every window lies in the block and in its span and is not empty.
pub proof fn law_windows_stay_inside(spans: Seq<ResolvedSpan>, pos: int, end: int, k: int)
    requires
        i64::MIN <= pos < end <= i64::MAX,
        spans.len() <= usize::MAX,
        forall|i: int|
            0 <= i < spans.len() ==> (#[trigger] spans[i]).start_frame < spans[i].end_frame,
        0 <= k < windows(spans, pos, end).len(),
    ensures
        ({
            let w = windows(spans, pos, end)[k];
            &&& w.span < spans.len()
            &&& pos <= w.from < w.to <= end
            &&& spans[w.span as int].start_frame <= w.from
            &&& w.to <= spans[w.span as int].end_frame
        }),
    decreases spans.len(),
{
    let front = spans.drop_last();
    let before = windows(front, pos, end);
    if k < before.len() {
        assert forall|i: int| 0 <= i < front.len() implies (#[trigger] front[i]).start_frame
            < front[i].end_frame by {
            assert(front[i] == spans[i]);
        }
        law_windows_stay_inside(front, pos, end, k);
        let w = before[k];
        assert(windows(spans, pos, end)[k] == w);
        assert(front[w.span as int] == spans[w.span as int]);
    } else {
        assert(spans[spans.len() - 1] == spans.last());
    }
}

/// Sequential blocks read each span without a gap: where a span runs on into the
/// next block, its source goes on at the frame after the last one taken.
pub proof fn law_sequential_blocks_never_seek(span: ResolvedSpan, pos: int, mid: int)
    requires
        meets(span, pos, mid),
        pos <= mid,
        span.end_frame > mid,
        span.start_frame < mid,
    ensures
        source_at(span, from_frame(span, mid)) == source_at(span, from_frame(span, pos)) + (
        to_frame(span, mid) - from_frame(span, pos)),
{
}

/// Frames at the head of a window that the stream does not have: it starts
/// `position - source_from` frames late, at most the whole window.
pub open spec fn lead_frames(position: Option<i64>, source_from: int, want: int) -> int {
    match position {
        Some(p) => clamp(p - source_from, 0, want),
        None => 0,
    }
}

impl SpanWindow {
    /// Frames that the window wants.
    pub fn want(&self) -> (r: i64)
        requires
            self.from <= self.to,
            self.to - self.from <= i64::MAX,
        ensures
            r == self.to - self.from,
    {
        self.to - self.from
    }

    /// Frames to leave silent when the reader stands at `position`.
    pub fn lead(&self, position: Option<i64>) -> (r: i64)
        requires
            self.from <= self.to,
            self.to - self.from <= i64::MAX,
        ensures
            r == lead_frames(position, self.source_from as int, self.to - self.from),
    {
        match position {
            None => 0,
            Some(p) => {
                let late: i128 = p as i128 - self.source_from as i128;
                let want: i64 = self.to - self.from;
                if late < 0 {
                    0
                } else if late > want as i128 {
                    want
                } else {
                    late as i64
                }
            },
        }
    }

    /// Sample index in the block where the window's sound goes, after `lead`
    /// silent frames.
    pub fn offset(&self, pos: i64, lead: i64) -> (r: usize)
        requires
            pos <= self.from,
            0 <= lead,
            self.from - pos + lead <= u32::MAX / 2,
        ensures
            r == (self.from - pos + lead) * AUDIO_CHANNELS,
    {
        ((self.from - pos + lead) as usize) * AUDIO_CHANNELS
    }

    /// Frames that a stretched render of `total` frames has for the window.
    pub fn stretched_count(&self, total: i64) -> (r: i64)
        requires
            self.from <= self.to,
            self.to - self.from <= i64::MAX,
        ensures
            r == clamp(total - self.source_from, 0, self.to - self.from),
    {
        let want: i64 = self.to - self.from;
        let left: i128 = total as i128 - self.source_from as i128;
        if left < 0 {
            0
        } else if left > want as i128 {
            want
        } else {
            left as i64
        }
    }
}

/// The span plays at full volume throughout.
pub open spec fn is_unity(span: ResolvedSpan) -> bool {
    span.volume == Param::Constant(UNITY_BITS) && span.fade_in_frames == 0 && span.fade_out_frames
        == 0
}

/// Whether the span's samples go into the mix as they are.
pub fn plays_at_unity(span: &ResolvedSpan) -> (r: bool)
    ensures
        r == is_unity(*span),
{
    match &span.volume {
        Param::Constant(bits) => *bits == UNITY_BITS && span.fade_in_frames == 0
            && span.fade_out_frames == 0,
        Param::Keyframed { keyframes: _ } => false,
    }
}

// --- the device callback --------------------------------------------------

/// A mixed block on its way to the device: its epoch and its sample count.
#[derive(Clone, Copy, Debug, PartialEq, Eq, Structural)]
pub struct BlockHead {
    pub epoch: u64,
    pub samples: usize,
}

/// The block being consumed, and how many of its samples are gone.
#[derive(Clone, Copy, Debug, PartialEq, Eq, Structural)]
pub struct CallbackSink {
    pub current: Option<BlockHead>,
    pub cursor: usize,
}

/// One callback: the frames it wants and the frames it has.
#[derive(Clone, Copy, Debug, PartialEq, Eq, Structural)]
pub struct FillRun {
    pub epoch: u64,
    pub want: usize,
    pub filled: usize,
}

/// What the callback does next.
#[derive(Clone, Copy, Debug, PartialEq, Eq, Structural)]
pub enum FillStep {
    /// Copy `frames` frames from sample `src` of the current block to device
    /// frame `dst`.
    Copy { src: usize, dst: usize, frames: usize },
    /// Take the next block from the queue.
    Receive,
    /// The buffer is full.
    Done,
}

impl CallbackSink {
    /// Whole frames only.
    pub open spec fn wf(&self) -> bool {
        self.current matches Some(b) ==> b.samples % AUDIO_CHANNELS == 0 && self.cursor
            % AUDIO_CHANNELS == 0 && self.cursor <= b.samples
    }

    /// The current block can still serve the run.
    pub open spec fn serves(&self, run: FillRun) -> bool {
        self.current matches Some(b) && b.epoch == run.epoch && self.cursor < b.samples
    }

    /// Frames left in the current block.
    pub open spec fn frames_left(&self) -> int {
        match self.current {
            Some(b) => (b.samples - self.cursor) / AUDIO_CHANNELS as int,
            None => 0,
        }
    }

    /// A sink with no block.
    pub fn new() -> (r: Self)
        ensures
            r.current is None,
            r.cursor == 0,
            r.wf(),
    {
        CallbackSink { current: None, cursor: 0 }
    }

    /// Playback is stopped: whatever was being consumed is dropped.
    pub fn stop(&mut self)
        ensures
            *final(self) == (CallbackSink { current: None, ..*old(self) }),
    {
        self.current = None;
    }

    /// The next step of a run: consume the current block while it belongs to the
    /// run's epoch and has samples left, else ask for another.
    pub fn next_step(&mut self, run: &mut FillRun) -> (r: FillStep)
        requires
            old(self).wf(),
            old(run).filled <= old(run).want,
        ensures
            final(self).wf(),
            final(run).epoch == old(run).epoch,
            final(run).want == old(run).want,
            ({
                let take = min_int(old(self).frames_left(), old(run).want - old(run).filled);
                if old(run).filled == old(run).want {
                    r == FillStep::Done && *final(self) == *old(self) && *final(run) == *old(run)
                } else if old(self).serves(*old(run)) {
                    &&& take > 0
                    &&& r == FillStep::Copy {
                        src: old(self).cursor,
                        dst: old(run).filled,
                        frames: take as usize,
                    }
                    &&& final(self).current == old(self).current
                    &&& final(self).cursor == old(self).cursor + take * AUDIO_CHANNELS
                    &&& final(run).filled == old(run).filled + take
                } else {
                    &&& r == FillStep::Receive
                    &&& final(self).current is None
                    &&& final(self).cursor == old(self).cursor
                    &&& *final(run) == *old(run)
                }
            }),
            final(run).filled <= final(run).want,
    {
        if run.filled == run.want {
            return FillStep::Done;
        }
        match self.current {
            Some(b) => {
                if b.epoch == run.epoch && self.cursor < b.samples {
                    let left: usize = (b.samples - self.cursor) / AUDIO_CHANNELS;
                    let room: usize = run.want - run.filled;
                    let take: usize = if left <= room {
                        left
                    } else {
                        room
                    };
                    let step = FillStep::Copy { src: self.cursor, dst: run.filled, frames: take };
                    self.cursor = self.cursor + take * AUDIO_CHANNELS;
                    run.filled = run.filled + take;
                    return step;
                }
            },
            None => {},
        }
        self.current = None;
        FillStep::Receive
    }

    /// The queue's answer to [`FillStep::Receive`]: a block of the run's epoch
    /// becomes the current one, a stale one is dropped, and an empty queue ends
    /// the run. Says whether the run goes on.
    pub fn receive(&mut self, run: &FillRun, got: Option<BlockHead>) -> (r: bool)
        requires
            old(self).current is None,
            got matches Some(b) ==> b.samples % AUDIO_CHANNELS == 0,
        ensures
            final(self).wf(),
            match got {
                None => !r && *final(self) == *old(self),
                Some(b) => r && *final(self) == (if b.epoch == run.epoch {
                    CallbackSink { current: Some(b), cursor: 0 }
                } else {
                    *old(self)
                }),
            },
    {
        match got {
            None => false,
            Some(b) => {
                if b.epoch == run.epoch {
                    self.cursor = 0;
                    self.current = Some(b);
                }
                true
            },
        }
    }
}

/// What was mixed before a seek is never heard after it: the sink serves a run from
/// blocks of the run's own epoch only, and drops a block of another.
pub proof fn law_stale_blocks_are_silent(sink: CallbackSink, run: FillRun)
    requires
        sink.current matches Some(b) && b.epoch != run.epoch,
    ensures
        !sink.serves(run),
{
}

/// A run over a device buffer of `samples` samples in `channels` channels.
pub fn begin_fill(epoch: u64, samples: usize, channels: usize) -> (r: FillRun)
    ensures
        r == (FillRun {
            epoch,
            want: (samples as int / max_int(channels as int, 1)) as usize,
            filled: 0,
        }),
{
    let per_frame: usize = if channels == 0 {
        1
    } else {
        channels
    };
    FillRun { epoch, want: samples / per_frame, filled: 0 }
}

impl FillRun {
    /// What the run adds to the clock: the frames that were really consumed,
    /// and whether the device starved.
    pub fn finish(&self, frames_played: u64, underruns: u64) -> (r: (u64, u64))
        ensures
            r.0 == vstd::wrapping::u64_specs::wrapping_add(frames_played, self.filled as u64),
            r.1 == if self.filled < self.want {
                vstd::wrapping::u64_specs::wrapping_add(underruns, 1)
            } else {
                underruns
            },
    {
        let played: u64 = frames_played.wrapping_add(self.filled as u64);
        if self.filled < self.want {
            (played, underruns.wrapping_add(1))
        } else {
            (played, underruns)
        }
    }
}

} // verus!
