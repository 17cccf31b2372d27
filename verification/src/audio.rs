//! Audio timing: the playback clock, what each span sounds like in sample
//! frames, and which frames of which span a mixed block takes.
//!
//! Consumed device frames are the clock. A seek bumps an epoch, and blocks that
//! were mixed for an older epoch are dropped on the way to the device.

use vstd::prelude::*;

use crate::arith::{floor_div, floor_of, lemma_floor, lemma_floor_is, lemma_product};
use crate::num::clamped64;
use crate::paths::{may_be_same, same_path, tells_same};

verus! {

/// Frames per mixed block.
pub const BLOCK_FRAMES: usize = 1024;

/// Blocks in flight on the way to the device.
pub const BLOCK_CAPACITY: usize = 6;

/// Interleaved channels of a mixed block.
pub const AUDIO_CHANNELS: usize = 2;

// --- ticks and frames -----------------------------------------------------

/// A usable frame rate and sample rate.
pub open spec fn audible_rate(rate: (i32, i32), sample_rate: int) -> bool {
    rate.0 > 0 && rate.1 > 0 && sample_rate > 0
}

/// `value` ticks at `rate` in sample frames, rounded down; 0 at a rate that is
/// not usable.
pub open spec fn frames_of(value: int, rate: (i32, i32), sample_rate: int) -> int {
    if audible_rate(rate, sample_rate) {
        floor_of(value * rate.1 * sample_rate, rate.0 as int)
    } else {
        0
    }
}

/// `frames` in ticks at `rate`, rounded down; 0 at a rate that is not usable.
pub open spec fn ticks_of(frames: int, rate: (i32, i32), sample_rate: int) -> int {
    if audible_rate(rate, sample_rate) {
        floor_of(frames * rate.0, rate.1 * sample_rate)
    } else {
        0
    }
}

fn clamp_i64(x: i128) -> (r: i64)
    ensures
        r == clamped64(x as int),
{
    if x < -0x8000_0000_0000_0000 {
        i64::MIN
    } else if x > 0x7fff_ffff_ffff_ffff {
        i64::MAX
    } else {
        x as i64
    }
}

/// `value` ticks at `rate` frames per second in device sample frames, floored.
pub fn ticks_to_frames(value: i64, rate: (i32, i32), sample_rate: u32) -> (r: i64)
    ensures
        r == clamped64(frames_of(value as int, rate, sample_rate as int)),
{
    let (num, den) = rate;
    if num <= 0 || den <= 0 || sample_rate == 0 {
        return 0;
    }
    proof {
        let (a, b, c) = (0x8000_0000_0000_0000int, 0x8000_0000int, 0x1_0000_0000int);
        lemma_product(value as int, den as int, a, b);
        lemma_product(value * den, sample_rate as int, a * b, c);
        assert(a * b * c == 0x4000_0000_0000_0000_0000_0000_0000_0000int) by (nonlinear_arith)
            requires
                a == 0x8000_0000_0000_0000int,
                b == 0x8000_0000int,
                c == 0x1_0000_0000int,
        ;
    }
    let scaled: i128 = value as i128 * den as i128 * sample_rate as i128;
    clamp_i64(floor_div(scaled, num as i128))
}

/// Inverse of [`ticks_to_frames`], floored.
pub fn frames_to_ticks(frames: i64, rate: (i32, i32), sample_rate: u32) -> (r: i64)
    ensures
        r == clamped64(ticks_of(frames as int, rate, sample_rate as int)),
{
    let (num, den) = rate;
    if num <= 0 || den <= 0 || sample_rate == 0 {
        return 0;
    }
    proof {
        let (a, b, c) = (0x8000_0000_0000_0000int, 0x8000_0000int, 0x1_0000_0000int);
        lemma_product(frames as int, num as int, a, b);
        lemma_product(den as int, sample_rate as int, b, c);
        assert(den * sample_rate > 0) by (nonlinear_arith)
            requires
                den > 0,
                sample_rate > 0,
        ;
    }
    let scaled: i128 = frames as i128 * num as i128;
    let per_tick: i128 = den as i128 * sample_rate as i128;
    clamp_i64(floor_div(scaled, per_tick))
}

/// Later ticks never map to earlier frames.
pub proof fn law_frames_are_monotone(a: int, b: int, rate: (i32, i32), sample_rate: int)
    requires
        a <= b,
    ensures
        frames_of(a, rate, sample_rate) <= frames_of(b, rate, sample_rate),
{
    if audible_rate(rate, sample_rate) {
        let (p, q) = (a * rate.1 * sample_rate, b * rate.1 * sample_rate);
        let n = rate.0 as int;
        let k = rate.1 as int;
        assert(p <= q) by (nonlinear_arith)
            requires
                a <= b,
                k > 0,
                sample_rate > 0,
                p == a * k * sample_rate,
                q == b * k * sample_rate,
        ;
        lemma_floor(p, n);
        lemma_floor(q, n);
        let (x, y) = (p / n, q / n);
        assert(x <= y) by (nonlinear_arith)
            requires
                x * n <= p,
                (y + 1) * n > q,
                p <= q,
                n > 0,
        ;
    }
}

/// Ticks turned to frames and back never gain a tick, and lose at most one when
/// a tick is at least a frame long.
pub proof fn law_tick_round_trip(tick: int, rate: (i32, i32), sample_rate: int)
    requires
        audible_rate(rate, sample_rate),
    ensures
        ticks_of(frames_of(tick, rate, sample_rate), rate, sample_rate) <= tick,
        rate.1 * sample_rate >= rate.0 ==> tick - 1 <= ticks_of(
            frames_of(tick, rate, sample_rate),
            rate,
            sample_rate,
        ),
        (tick * rate.1 * sample_rate) % (rate.0 as int) == 0 ==> ticks_of(
            frames_of(tick, rate, sample_rate),
            rate,
            sample_rate,
        ) == tick,
{
    let n = rate.0 as int;
    let k = rate.1 * sample_rate;
    let den = rate.1 as int;
    assert(k > 0) by (nonlinear_arith)
        requires
            den > 0,
            sample_rate > 0,
            k == den * sample_rate,
    ;
    let p = tick * rate.1 * sample_rate;
    assert(p == tick * k) by (nonlinear_arith)
        requires
            p == tick * den * sample_rate,
            k == den * sample_rate,
    ;
    let f = frames_of(tick, rate, sample_rate);
    lemma_floor(p, n);
    let t = ticks_of(f, rate, sample_rate);
    lemma_floor(f * n, k);
    assert(t <= tick) by (nonlinear_arith)
        requires
            f * n <= tick * k,
            t * k <= f * n,
            k > 0,
    ;
    if k >= n {
        assert(tick - 1 <= t) by (nonlinear_arith)
            requires
                (f + 1) * n > tick * k,
                (t + 1) * k > f * n,
                k >= n,
                k > 0,
        ;
    }
    if p % n == 0 {
        vstd::arithmetic::div_mod::lemma_fundamental_div_mod(p, n);
        assert(f * n == tick * k) by (nonlinear_arith)
            requires
                p == n * f + 0,
                p == tick * k,
        ;
        assert((tick + 1) * k > tick * k) by (nonlinear_arith)
            requires
                k > 0,
        ;
        lemma_floor_is(f * n, k, tick);
    }
}

// --- the clock ------------------------------------------------------------

/// What the transport, the mixer and the device callback share.
#[derive(Clone, Copy, Debug, PartialEq, Eq, Structural)]
pub struct AudioShared {
    /// Bumped by every play or seek.
    pub epoch: u64,
    /// Timeline tick at the current epoch's origin.
    pub anchor_tick: i64,
    /// Device frames of the current epoch that were consumed.
    pub frames_played: u64,
    pub playing: bool,
    pub underruns: u64,
}

/// What the transport tells the mixer.
#[derive(Debug)]
pub enum AudioMsg {
    Snapshot(AudioSnapshot),
    /// Start, or re-anchor, producing from `tick`.
    Play { tick: i64, epoch: u64 },
    Pause,
}

impl AudioShared {
    /// A stopped clock at tick 0.
    pub fn new() -> (r: Self)
        ensures
            r == (AudioShared {
                epoch: 0,
                anchor_tick: 0,
                frames_played: 0,
                playing: false,
                underruns: 0,
            }),
    {
        AudioShared { epoch: 0, anchor_tick: 0, frames_played: 0, playing: false, underruns: 0 }
    }

    /// The tick that the clock shows.
    pub open spec fn tick_at(&self, fps: (i32, i32), sample_rate: int) -> int {
        if audible_rate(fps, sample_rate) {
            clamped64(self.anchor_tick + ticks_of(self.frames_played as int, fps, sample_rate))
        } else {
            self.anchor_tick as int
        }
    }
}

/// Transport control and the master clock. `connected` says that a real output
/// device paces playback; without one nothing hears the messages.
#[derive(Clone, Copy, Debug, PartialEq, Eq, Structural)]
pub struct AudioHandle {
    pub shared: AudioShared,
    pub connected: bool,
    pub sample_rate: u32,
}

impl AudioHandle {
    /// Whether a real output device paces playback. If not, playback falls back to
    /// wall-clock time.
    pub fn active(&self) -> (r: bool)
        ensures
            r == self.connected,
    {
        self.connected
    }

    /// Start playing from `tick`; the mid-playback seek too. The clock shows
    /// `tick` at once, and the message tells the mixer.
    pub fn play(&mut self, tick: i64) -> (r: Option<AudioMsg>)
        ensures
            final(self).connected == old(self).connected,
            final(self).sample_rate == old(self).sample_rate,
            final(self).shared == (AudioShared {
                epoch: vstd::wrapping::u64_specs::wrapping_add(old(self).shared.epoch, 1),
                anchor_tick: tick,
                frames_played: 0,
                playing: true,
                underruns: old(self).shared.underruns,
            }),
            r == (if old(self).connected {
                Some(AudioMsg::Play { tick, epoch: final(self).shared.epoch })
            } else {
                None
            }),
    {
        let epoch: u64 = self.shared.epoch.wrapping_add(1);
        self.shared = AudioShared {
            epoch,
            anchor_tick: tick,
            frames_played: 0,
            playing: true,
            underruns: self.shared.underruns,
        };
        if self.connected {
            Some(AudioMsg::Play { tick, epoch })
        } else {
            None
        }
    }

    /// Stop playing; the clock stays where it is.
    pub fn pause(&mut self) -> (r: Option<AudioMsg>)
        ensures
            *final(self) == (AudioHandle {
                shared: AudioShared { playing: false, ..old(self).shared },
                ..*old(self)
            }),
            r == (if old(self).connected {
                Some(AudioMsg::Pause)
            } else {
                None
            }),
    {
        self.shared = AudioShared {
            epoch: self.shared.epoch,
            anchor_tick: self.shared.anchor_tick,
            frames_played: self.shared.frames_played,
            playing: false,
            underruns: self.shared.underruns,
        };
        if self.connected {
            Some(AudioMsg::Pause)
        } else {
            None
        }
    }

    /// Tell the mixer what the timeline sounds like now.
    pub fn publish_snapshot(&self, snapshot: AudioSnapshot) -> (r: Option<AudioMsg>)
        ensures
            r == (if self.connected {
                Some(AudioMsg::Snapshot(snapshot))
            } else {
                None
            }),
    {
        if self.connected {
            Some(AudioMsg::Snapshot(snapshot))
        } else {
            None
        }
    }

    /// Playhead tick by the audio clock: the anchor plus the consumed device
    /// frames at the sequence rate, floored.
    pub fn current_tick(&self, fps_num: i32, fps_den: i32) -> (r: i64)
        ensures
            r == self.shared.tick_at((fps_num, fps_den), self.sample_rate as int),
    {
        let anchor: i64 = self.shared.anchor_tick;
        let sample_rate: u32 = self.sample_rate;
        if fps_num <= 0 || fps_den <= 0 || sample_rate == 0 {
            return anchor;
        }
        let frames: u64 = self.shared.frames_played;
        proof {
            let (a, b, c) = (0x1_0000_0000_0000_0000int, 0x8000_0000int, 0x1_0000_0000int);
            lemma_product(frames as int, fps_num as int, a, b);
            lemma_product(fps_den as int, sample_rate as int, b, c);
            assert(fps_den * sample_rate > 0) by (nonlinear_arith)
                requires
                    fps_den > 0,
                    sample_rate > 0,
            ;
            assert(frames * fps_num >= 0) by (nonlinear_arith)
                requires
                    frames >= 0,
                    fps_num > 0,
            ;
        }
        let scaled: i128 = frames as i128 * fps_num as i128;
        let per_tick: i128 = fps_den as i128 * sample_rate as i128;
        let ticks: i128 = floor_div(scaled, per_tick);
        proof {
            let (n, d) = (scaled as int, per_tick as int);
            lemma_floor(n, d);
            let t = ticks as int;
            assert(-1 <= t <= n) by (nonlinear_arith)
                requires
                    t * d <= n,
                    (t + 1) * d > n,
                    n >= 0,
                    d >= 1,
            ;
        }
        clamp_i64(anchor as i128 + ticks)
    }
}

/// Right after play or seek the clock shows the tick asked for, whatever the
/// rates are.
pub proof fn law_clock_starts_at_anchor(clock: AudioShared, fps: (i32, i32), sample_rate: int)
    requires
        clock.frames_played == 0,
    ensures
        clock.tick_at(fps, sample_rate) == clock.anchor_tick,
{
    if audible_rate(fps, sample_rate) {
        let d = fps.1 * sample_rate;
        let den = fps.1 as int;
        assert(d > 0) by (nonlinear_arith)
            requires
                den > 0,
                sample_rate > 0,
                d == den * sample_rate,
        ;
        assert(0 * fps.0 == 0);
        lemma_floor_is(0, d, 0);
    }
}

// --- parameters over time -------------------------------------------------

/// How a value moves from one keyframe to the next; the control points are
/// IEEE single bit patterns.
#[derive(Clone, Copy, Debug, PartialEq, Eq, Structural)]
pub enum Easing {
    Linear,
    EaseIn,
    EaseOut,
    EaseInOut,
    Bezier { x1: u32, y1: u32, x2: u32, y2: u32 },
}

/// A value at a tick; the value is an IEEE single bit pattern.
#[derive(Clone, Copy, Debug, PartialEq, Eq, Structural)]
pub struct Keyframe {
    pub tick: i64,
    pub value: u32,
    pub easing: Easing,
}

/// A parameter: one value (as a bit pattern), or keyframes.
#[derive(Debug)]
pub enum Param {
    Constant(u32),
    Keyframed { keyframes: Vec<Keyframe> },
}

/// The bit pattern of the single 1.
pub const UNITY_BITS: u32 = 0x3f80_0000;

/// The keyframes of a parameter; none when it is constant.
pub open spec fn keyframes_of(p: Param) -> Seq<Keyframe> {
    match p {
        Param::Constant(_) => Seq::empty(),
        Param::Keyframed { keyframes } => keyframes@,
    }
}

/// Two parameters say the same.
pub open spec fn same_param(a: Param, b: Param) -> bool {
    match (a, b) {
        (Param::Constant(x), Param::Constant(y)) => x == y,
        (Param::Keyframed { keyframes: x }, Param::Keyframed { keyframes: y }) => x@ == y@,
        _ => false,
    }
}

fn copy_keyframes(keys: &Vec<Keyframe>) -> (r: Vec<Keyframe>)
    ensures
        r@ == keys@,
{
    let mut out: Vec<Keyframe> = Vec::new();
    let mut i: usize = 0;
    while i < keys.len()
        invariant
            i <= keys.len(),
            out@ == keys@.take(i as int),
        decreases keys.len() - i,
    {
        out.push(keys[i]);
        assert(out@ =~= keys@.take(i as int + 1));
        i += 1;
    }
    assert(keys@.take(i as int) =~= keys@);
    out
}

impl Clone for Param {
    fn clone(&self) -> (r: Self)
        ensures
            same_param(r, *self),
    {
        match self {
            Param::Constant(v) => Param::Constant(*v),
            Param::Keyframed { keyframes } => Param::Keyframed {
                keyframes: copy_keyframes(keyframes),
            },
        }
    }
}

/// A keyframe moved from sequence ticks to sample frames.
pub open spec fn rebased(k: Keyframe, fps: (i32, i32), sample_rate: int) -> Keyframe {
    Keyframe {
        tick: clamped64(frames_of(k.tick as int, fps, sample_rate)) as i64,
        value: k.value,
        easing: k.easing,
    }
}

/// `b` is `a` with its keyframes moved from sequence ticks to sample frames.
pub open spec fn is_rebased(a: Param, b: Param, fps: (i32, i32), sample_rate: int) -> bool {
    match (a, b) {
        (Param::Constant(x), Param::Constant(y)) => x == y,
        (Param::Keyframed { keyframes: x }, Param::Keyframed { keyframes: y }) => y@
            == x@.map_values(|k: Keyframe| rebased(k, fps, sample_rate)),
        _ => false,
    }
}

fn rebase(p: &Param, fps: (i32, i32), sample_rate: u32) -> (r: Param)
    ensures
        is_rebased(*p, r, fps, sample_rate as int),
{
    match p {
        Param::Constant(v) => Param::Constant(*v),
        Param::Keyframed { keyframes } => {
            let ghost whole = keyframes@.map_values(
                |k: Keyframe| rebased(k, fps, sample_rate as int),
            );
            let mut out: Vec<Keyframe> = Vec::new();
            let mut i: usize = 0;
            while i < keyframes.len()
                invariant
                    i <= keyframes.len(),
                    whole == keyframes@.map_values(
                        |k: Keyframe| rebased(k, fps, sample_rate as int),
                    ),
                    out@ == whole.take(i as int),
                decreases keyframes.len() - i,
            {
                let k = keyframes[i];
                out.push(
                    Keyframe {
                        tick: ticks_to_frames(k.tick, fps, sample_rate),
                        value: k.value,
                        easing: k.easing,
                    },
                );
                assert(out@ =~= whole.take(i as int + 1));
                i += 1;
            }
            assert(whole.take(i as int) =~= whole);
            Param::Keyframed { keyframes: out }
        },
    }
}

/// One speed-ramp keyframe as integers: tick, value bits, easing tag, control
/// point bits.
pub type CurveKeyframe = (i64, u32, u8, (u32, u32, u32, u32));

/// The integers that stand for a keyframe.
pub open spec fn curve_entry(k: Keyframe) -> CurveKeyframe {
    match k.easing {
        Easing::Linear => (k.tick, k.value, 0, (0, 0, 0, 0)),
        Easing::EaseIn => (k.tick, k.value, 1, (0, 0, 0, 0)),
        Easing::EaseOut => (k.tick, k.value, 2, (0, 0, 0, 0)),
        Easing::EaseInOut => (k.tick, k.value, 3, (0, 0, 0, 0)),
        Easing::Bezier { x1, y1, x2, y2 } => (k.tick, k.value, 4, (x1, y1, x2, y2)),
    }
}

/// The identity of a speed ramp; empty for a constant rate.
pub open spec fn curve_identity(curve: Option<Param>) -> Seq<CurveKeyframe> {
    match curve {
        None => Seq::empty(),
        Some(p) => keyframes_of(p).map_values(|k: Keyframe| curve_entry(k)),
    }
}

/// Flatten a speed ramp to a cache identity.
pub fn curve_key(curve: &Option<Param>) -> (r: Vec<CurveKeyframe>)
    ensures
        r@ == curve_identity(*curve),
{
    let mut out: Vec<CurveKeyframe> = Vec::new();
    match curve {
        Some(Param::Keyframed { keyframes }) => {
            let ghost whole = curve_identity(*curve);
            let mut i: usize = 0;
            while i < keyframes.len()
                invariant
                    i <= keyframes.len(),
                    whole == keyframes@.map_values(|k: Keyframe| curve_entry(k)),
                    out@ == whole.take(i as int),
                decreases keyframes.len() - i,
            {
                let k = keyframes[i];
                let (tag, points): (u8, (u32, u32, u32, u32)) = match k.easing {
                    Easing::Linear => (0, (0, 0, 0, 0)),
                    Easing::EaseIn => (1, (0, 0, 0, 0)),
                    Easing::EaseOut => (2, (0, 0, 0, 0)),
                    Easing::EaseInOut => (3, (0, 0, 0, 0)),
                    Easing::Bezier { x1, y1, x2, y2 } => (4, (x1, y1, x2, y2)),
                };
                out.push((k.tick, k.value, tag, points));
                assert(out@ =~= whole.take(i as int + 1));
                i += 1;
            }
            assert(whole.take(i as int) =~= whole);
        },
        _ => {
            assert(out@ =~= curve_identity(*curve));
        },
    }
    out
}

/// Different ramps have different identities: equal identities come from equal
/// keyframes.
pub proof fn law_curve_identity_is_faithful(a: Param, b: Param)
    requires
        curve_identity(Some(a)) == curve_identity(Some(b)),
    ensures
        keyframes_of(a) == keyframes_of(b),
{
    let (x, y) = (keyframes_of(a), keyframes_of(b));
    assert(curve_identity(Some(a)).len() == x.len());
    assert(curve_identity(Some(b)).len() == y.len());
    assert forall|i: int| 0 <= i < x.len() implies x[i] == y[i] by {
        assert(curve_identity(Some(a))[i] == curve_entry(x[i]));
        assert(curve_identity(Some(b))[i] == curve_entry(y[i]));
    }
    assert(x =~= y);
}

// --- spans ----------------------------------------------------------------

/// One audible clip in rational time.
#[derive(Debug)]
pub struct AudioSpan {
    pub path: String,
    /// Placement, sequence ticks at the snapshot's rate.
    pub start_tick: i64,
    pub end_tick: i64,
    /// Source in-point at `source_rate`.
    pub source_start: i64,
    pub source_rate: (i32, i32),
    /// Source window length at `source_rate`.
    pub source_duration: i64,
    /// Stretched to the span length rather than read one to one.
    pub retimed: bool,
    /// Played back to front.
    pub reversed: bool,
    /// Pitch factor, an IEEE single bit pattern.
    pub pitch_bits: u32,
    /// Speed ramp over normalized ticks.
    pub speed_curve: Option<Param>,
    /// Gain envelope over clip-relative sequence ticks.
    pub volume: Param,
    pub fade_in_ticks: i64,
    pub fade_out_ticks: i64,
}

/// Every audible clip on the timeline, and the sequence rate.
#[derive(Debug)]
pub struct AudioSnapshot {
    pub fps: (i32, i32),
    pub spans: Vec<AudioSpan>,
}

/// What a stretched render depends on; also its cache key.
#[derive(Debug)]
pub struct RenderKey {
    pub path: String,
    pub source_start_frame: i64,
    pub source_frames: i64,
    pub out_frames: i64,
    pub reversed: bool,
    pub pitch_bits: u32,
    pub curve: Vec<CurveKeyframe>,
}

/// A span with its times in device sample frames.
#[derive(Debug)]
pub struct ResolvedSpan {
    pub path: String,
    pub start_frame: i64,
    pub end_frame: i64,
    pub source_start_frame: i64,
    pub volume: Param,
    pub fade_in_frames: i64,
    pub fade_out_frames: i64,
    pub speed_curve: Option<Param>,
    /// The render to serve; `None` reads the source one to one.
    pub render: Option<RenderKey>,
}

/// Ticks in frames, as the mixer holds them.
pub open spec fn frames64(value: i64, rate: (i32, i32), sample_rate: u32) -> int {
    clamped64(frames_of(value as int, rate, sample_rate as int))
}

/// `key` identifies the stretched render of `span`.
pub open spec fn is_render_of(
    key: RenderKey,
    span: AudioSpan,
    fps: (i32, i32),
    sample_rate: u32,
) -> bool {
    &&& key.path@ == span.path@
    &&& key.source_start_frame == frames64(span.source_start, span.source_rate, sample_rate)
    &&& key.source_frames == frames64(span.source_duration, span.source_rate, sample_rate)
    &&& key.out_frames == frames64(span.end_tick, fps, sample_rate) - frames64(
        span.start_tick,
        fps,
        sample_rate,
    )
    &&& key.reversed == span.reversed
    &&& key.pitch_bits == span.pitch_bits
    &&& key.curve@ == curve_identity(span.speed_curve)
}

/// `r` is `span` with its times in device sample frames.
pub open spec fn is_resolved(
    r: ResolvedSpan,
    span: AudioSpan,
    fps: (i32, i32),
    sample_rate: u32,
) -> bool {
    &&& r.path@ == span.path@
    &&& r.start_frame == frames64(span.start_tick, fps, sample_rate)
    &&& r.end_frame == frames64(span.end_tick, fps, sample_rate)
    &&& r.source_start_frame == frames64(span.source_start, span.source_rate, sample_rate)
    &&& is_rebased(span.volume, r.volume, fps, sample_rate as int)
    &&& r.fade_in_frames == frames64(span.fade_in_ticks, fps, sample_rate)
    &&& r.fade_out_frames == frames64(span.fade_out_ticks, fps, sample_rate)
    &&& match (span.speed_curve, r.speed_curve) {
        (None, None) => true,
        (Some(a), Some(b)) => same_param(a, b),
        _ => false,
    }
    &&& match r.render {
        Some(key) => span.retimed && is_render_of(key, span, fps, sample_rate),
        None => !span.retimed,
    }
}

/// The span's length in frames fits `i64`.
pub open spec fn length_fits(span: AudioSpan, fps: (i32, i32), sample_rate: u32) -> bool {
    i64::MIN <= frames64(span.end_tick, fps, sample_rate) - frames64(
        span.start_tick,
        fps,
        sample_rate,
    ) <= i64::MAX
}

fn resolve_span(span: &AudioSpan, fps: (i32, i32), sample_rate: u32) -> (r: ResolvedSpan)
    requires
        span.retimed ==> length_fits(*span, fps, sample_rate),
    ensures
        is_resolved(r, *span, fps, sample_rate),
{
    let start_frame: i64 = ticks_to_frames(span.start_tick, fps, sample_rate);
    let end_frame: i64 = ticks_to_frames(span.end_tick, fps, sample_rate);
    let source_start_frame: i64 = ticks_to_frames(span.source_start, span.source_rate, sample_rate);
    let render: Option<RenderKey> = if span.retimed {
        Some(
            RenderKey {
                path: span.path.clone(),
                source_start_frame,
                source_frames: ticks_to_frames(span.source_duration, span.source_rate, sample_rate),
                out_frames: end_frame - start_frame,
                reversed: span.reversed,
                pitch_bits: span.pitch_bits,
                curve: curve_key(&span.speed_curve),
            },
        )
    } else {
        None
    };
    let speed_curve: Option<Param> = match &span.speed_curve {
        Some(p) => Some(p.clone()),
        None => None,
    };
    ResolvedSpan {
        path: span.path.clone(),
        start_frame,
        end_frame,
        source_start_frame,
        volume: rebase(&span.volume, fps, sample_rate),
        fade_in_frames: ticks_to_frames(span.fade_in_ticks, fps, sample_rate),
        fade_out_frames: ticks_to_frames(span.fade_out_ticks, fps, sample_rate),
        // A ramp's ticks are normalized, so it rides through unmapped.
        speed_curve,
        render,
    }
}

/// Resolve every span of a snapshot, in order.
pub fn resolve_spans(snapshot: &AudioSnapshot, sample_rate: u32) -> (r: Vec<ResolvedSpan>)
    requires
        forall|i: int|
            0 <= i < snapshot.spans.len() && (#[trigger] snapshot.spans@[i]).retimed ==> length_fits(
                snapshot.spans@[i],
                snapshot.fps,
                sample_rate,
            ),
    ensures
        r.len() == snapshot.spans.len(),
        forall|i: int|
            0 <= i < r.len() ==> is_resolved(
                #[trigger] r@[i],
                snapshot.spans@[i],
                snapshot.fps,
                sample_rate,
            ),
{
    let mut out: Vec<ResolvedSpan> = Vec::new();
    let mut i: usize = 0;
    while i < snapshot.spans.len()
        invariant
            i <= snapshot.spans.len(),
            out.len() == i,
            forall|k: int|
                0 <= k < snapshot.spans.len() && (#[trigger] snapshot.spans@[k]).retimed
                    ==> length_fits(snapshot.spans@[k], snapshot.fps, sample_rate),
            forall|k: int|
                0 <= k < i ==> is_resolved(
                    #[trigger] out@[k],
                    snapshot.spans@[k],
                    snapshot.fps,
                    sample_rate,
                ),
        decreases snapshot.spans.len() - i,
    {
        let span = &snapshot.spans[i];
        assert(*span == snapshot.spans@[i as int]);
        out.push(resolve_span(span, snapshot.fps, sample_rate));
        i += 1;
    }
    out
}

/// The keys ask for the same render, their files apart.
pub open spec fn same_settings(a: RenderKey, b: RenderKey) -> bool {
    &&& a.source_start_frame == b.source_start_frame
    &&& a.source_frames == b.source_frames
    &&& a.out_frames == b.out_frames
    &&& a.reversed == b.reversed
    &&& a.pitch_bits == b.pitch_bits
    &&& a.curve@ == b.curve@
}

fn same_entry(a: CurveKeyframe, b: CurveKeyframe) -> (r: bool)
    ensures
        r == (a == b),
{
    let (t, v, g, p) = a;
    let (u, w, h, q) = b;
    t == u && v == w && g == h && p.0 == q.0 && p.1 == q.1 && p.2 == q.2 && p.3 == q.3
}

impl RenderKey {
    /// Whether two keys name the same render, `same_file` saying whether their paths
    /// are the same.
    pub fn matches_when(&self, other: &RenderKey, same_file: bool) -> (r: bool)
        ensures
            r == (same_file && same_settings(*self, *other)),
    {
        if !same_file || self.source_start_frame != other.source_start_frame || self.source_frames
            != other.source_frames || self.out_frames != other.out_frames || self.reversed
            != other.reversed || self.pitch_bits != other.pitch_bits || self.curve.len()
            != other.curve.len() {
            return false;
        }
        let mut i: usize = 0;
        while i < self.curve.len()
            invariant
                i <= self.curve.len(),
                self.curve.len() == other.curve.len(),
                forall|k: int| 0 <= k < i ==> self.curve@[k] == other.curve@[k],
            decreases self.curve.len() - i,
        {
            if !same_entry(self.curve[i], other.curve[i]) {
                return false;
            }
            i += 1;
        }
        assert(self.curve@ =~= other.curve@);
        true
    }

    /// Whether two keys name the same render.
    pub fn matches(&self, other: &RenderKey) -> (r: bool)
        ensures
            exists|same: bool| #[trigger]
                may_be_same(self.path@, other.path@, same) && r == (same && same_settings(
                    *self,
                    *other,
                )),
    {
        let same: bool = same_path(self.path.as_str(), other.path.as_str());
        assert(may_be_same(self.path@, other.path@, same));
        self.matches_when(other, same)
    }
}

/// The file that a span is read from: its render's, else its own.
pub open spec fn file_of(span: ResolvedSpan) -> Seq<char> {
    match span.render {
        Some(key) => key.path@,
        None => span.path@,
    }
}

/// The files of spans.
pub open spec fn span_paths(spans: Seq<ResolvedSpan>) -> Seq<Seq<char>> {
    spans.map_values(|s: ResolvedSpan| s.path@)
}

/// The files that spans are read from.
pub open spec fn files_of(spans: Seq<ResolvedSpan>) -> Seq<Seq<char>> {
    spans.map_values(|s: ResolvedSpan| file_of(s))
}

/// A span starts at the frame and is of the file, `same[i]` saying so of span `i`.
pub open spec fn reader_serves(spans: Seq<ResolvedSpan>, same: Seq<bool>, start_frame: i64) -> bool {
    exists|i: int|
        0 <= i < spans.len() && same[i] && (#[trigger] spans[i]).start_frame == start_frame
}

/// A span is served from the render, `same[i]` saying whether the file of span `i` is
/// the render's.
pub open spec fn render_serves(spans: Seq<ResolvedSpan>, same: Seq<bool>, key: RenderKey) -> bool {
    exists|i: int|
        0 <= i < spans.len() && same[i] && ((#[trigger] spans[i]).render matches Some(k)
            && same_settings(k, key))
}

/// A reader, keyed by path and start frame, still serves some span, `same[i]` saying
/// whether the path of span `i` is the reader's.
pub fn reader_is_live_when(spans: &Vec<ResolvedSpan>, same: &Vec<bool>, start_frame: i64) -> (r:
    bool)
    requires
        same.len() == spans.len(),
    ensures
        r == reader_serves(spans@, same@, start_frame),
{
    let mut i: usize = 0;
    while i < spans.len()
        invariant
            i <= spans.len(),
            same.len() == spans.len(),
            forall|k: int|
                0 <= k < i ==> !(same@[k] && (#[trigger] spans@[k]).start_frame == start_frame),
        decreases spans.len() - i,
    {
        if same[i] && spans[i].start_frame == start_frame {
            assert(spans@[i as int].start_frame == start_frame);
            return true;
        }
        i += 1;
    }
    false
}

/// A cached render still serves some span, `same[i]` saying whether the file of span
/// `i` is the render's.
pub fn render_is_live_when(spans: &Vec<ResolvedSpan>, same: &Vec<bool>, key: &RenderKey) -> (r: bool)
    requires
        same.len() == spans.len(),
    ensures
        r == render_serves(spans@, same@, *key),
{
    let mut i: usize = 0;
    while i < spans.len()
        invariant
            i <= spans.len(),
            same.len() == spans.len(),
            forall|k: int|
                0 <= k < i ==> !(same@[k] && ((#[trigger] spans@[k]).render matches Some(r)
                    && same_settings(r, *key))),
        decreases spans.len() - i,
    {
        match &spans[i].render {
            Some(k) => {
                if k.matches_when(key, same[i]) {
                    assert(spans@[i as int].render is Some);
                    return true;
                }
            },
            None => {},
        }
        i += 1;
    }
    false
}

/// A reader, keyed by path and start frame, still serves some span.
pub fn reader_is_live(spans: &Vec<ResolvedSpan>, path: &str, start_frame: i64) -> (r: bool)
    ensures
        exists|same: Seq<bool>| #[trigger]
            tells_same(span_paths(spans@), same, path@) && r == reader_serves(
                spans@,
                same,
                start_frame,
            ),
{
    let mut same: Vec<bool> = Vec::new();
    let mut i: usize = 0;
    while i < spans.len()
        invariant
            i <= spans.len(),
            same.len() == i,
            forall|j: int| 0 <= j < i ==> may_be_same(spans@[j].path@, path@, #[trigger] same@[j]),
        decreases spans.len() - i,
    {
        same.push(same_path(spans[i].path.as_str(), path));
        i += 1;
    }
    assert(tells_same(span_paths(spans@), same@, path@));
    reader_is_live_when(spans, &same, start_frame)
}

/// A cached render still serves some span.
pub fn render_is_live(spans: &Vec<ResolvedSpan>, key: &RenderKey) -> (r: bool)
    ensures
        exists|same: Seq<bool>| #[trigger]
            tells_same(files_of(spans@), same, key.path@) && r == render_serves(
                spans@,
                same,
                *key,
            ),
{
    let mut same: Vec<bool> = Vec::new();
    let mut i: usize = 0;
    while i < spans.len()
        invariant
            i <= spans.len(),
            same.len() == i,
            forall|j: int|
                0 <= j < i ==> may_be_same(file_of(spans@[j]), key.path@, #[trigger] same@[j]),
        decreases spans.len() - i,
    {
        let one: bool = match &spans[i].render {
            Some(k) => same_path(k.path.as_str(), key.path.as_str()),
            None => same_path(spans[i].path.as_str(), key.path.as_str()),
        };
        same.push(one);
        i += 1;
    }
    assert(tells_same(files_of(spans@), same@, key.path@));
    render_is_live_when(spans, &same, key)
}

} // verus!
