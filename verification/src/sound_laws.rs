//! What the sound side is for: laws that relate ticks to sample frames, spans to their
//! frames, and blocks to the spans that they take.

use vstd::prelude::*;

use crate::arith::lemma_floor;
use crate::audio::{audible_rate, frames64, frames_of, is_rebased, is_resolved, keyframes_of,
    rebased, ticks_of, AudioShared, AudioSpan, Param, ResolvedSpan, AUDIO_CHANNELS};
use crate::mixer::{lead_frames, window, windows, CallbackSink, FillRun, Mixer, SpanWindow};

verus! {

// --- ticks and frames -----------------------------------------------------

/// `frame` is the sample frame that plays when the tick begins: at a tick rate of
/// `rate.0 / rate.1` it begins no later than the tick does, and the next frame begins
/// later than it.
pub open spec fn is_frame_of(frame: int, tick: int, rate: (i32, i32), sample_rate: int) -> bool {
    frame * rate.0 <= tick * rate.1 * sample_rate && tick * rate.1 * sample_rate < (frame + 1)
        * rate.0
}

/// `tick` is the tick that is on when the sample frame begins.
pub open spec fn is_tick_of(tick: int, frame: int, rate: (i32, i32), sample_rate: int) -> bool {
    tick * (rate.1 * sample_rate) <= frame * rate.0 && frame * rate.0 < (tick + 1) * (rate.1
        * sample_rate)
}

/// Ticks turn into the frame that plays when they begin, and frames into the tick that is
/// on when they begin; both into 0 at a rate that is not positive.
pub proof fn law_frames_follow_time(value: int, rate: (i32, i32), sample_rate: int)
    ensures
        rate.0 > 0 && rate.1 > 0 && sample_rate > 0 ==> is_frame_of(
            frames_of(value, rate, sample_rate),
            value,
            rate,
            sample_rate,
        ) && is_tick_of(ticks_of(value, rate, sample_rate), value, rate, sample_rate),
        rate.0 <= 0 || rate.1 <= 0 || sample_rate <= 0 ==> frames_of(value, rate, sample_rate) == 0
            && ticks_of(value, rate, sample_rate) == 0,
{
    if audible_rate(rate, sample_rate) {
        let (n, d) = (rate.1 as int, sample_rate);
        assert(n * d > 0) by (nonlinear_arith)
            requires
                n > 0,
                d > 0,
        ;
        lemma_floor(value * rate.1 * sample_rate, rate.0 as int);
        lemma_floor(value * rate.0, rate.1 * sample_rate);
    }
}

/// The clock shows its anchor moved on by the ticks that the consumed frames make up, and
/// the anchor alone at a rate that is not positive.
pub proof fn law_clock_counts_consumed_frames(clock: AudioShared, fps: (i32, i32), sample_rate: int)
    ensures
        fps.0 <= 0 || fps.1 <= 0 || sample_rate <= 0 ==> clock.tick_at(fps, sample_rate)
            == clock.anchor_tick,
        fps.0 > 0 && fps.1 > 0 && sample_rate > 0 && i64::MIN < clock.tick_at(fps, sample_rate)
            < i64::MAX ==> is_tick_of(
            clock.tick_at(fps, sample_rate) - clock.anchor_tick,
            clock.frames_played as int,
            fps,
            sample_rate,
        ),
{
    law_frames_follow_time(clock.frames_played as int, fps, sample_rate);
}

/// While it plays, a mixer whose frame rate changes goes on at the tick that it had
/// reached: the next block starts at the frame of that tick at the new rate. Otherwise it
/// stays where it is.
pub proof fn law_rate_change_keeps_the_tick(
    mixer: Mixer,
    new_fps: (i32, i32),
    sample_rate: u32,
) -> (tick: int)
    requires
        mixer.fps.0 > 0 && mixer.fps.1 > 0 && new_fps.0 > 0 && new_fps.1 > 0 && sample_rate > 0,
        i64::MIN <= ticks_of(mixer.write_frame as int, mixer.fps, sample_rate as int) <= i64::MAX,
        i64::MIN < mixer.reanchored(new_fps, sample_rate) < i64::MAX,
    ensures
        is_tick_of(tick, mixer.write_frame as int, mixer.fps, sample_rate as int),
        mixer.playing && mixer.fps != new_fps ==> is_frame_of(
            mixer.reanchored(new_fps, sample_rate),
            tick,
            new_fps,
            sample_rate as int,
        ),
        !mixer.playing || mixer.fps == new_fps ==> mixer.reanchored(new_fps, sample_rate)
            == mixer.write_frame,
{
    let tick = ticks_of(mixer.write_frame as int, mixer.fps, sample_rate as int);
    law_frames_follow_time(mixer.write_frame as int, mixer.fps, sample_rate as int);
    law_frames_follow_time(tick, new_fps, sample_rate as int);
    tick
}

// --- spans ----------------------------------------------------------------

/// The frames of `value` ticks fit `i64`.
pub open spec fn fits_frames(value: i64, rate: (i32, i32), sample_rate: u32) -> bool {
    i64::MIN < frames64(value, rate, sample_rate) < i64::MAX
}

proof fn lemma_frames64(value: i64, rate: (i32, i32), sample_rate: u32)
    requires
        rate.0 > 0 && rate.1 > 0 && sample_rate > 0,
        fits_frames(value, rate, sample_rate),
    ensures
        is_frame_of(
            frames64(value, rate, sample_rate),
            value as int,
            rate,
            sample_rate as int,
        ),
{
    law_frames_follow_time(value as int, rate, sample_rate as int);
}

/// A span in frames begins, ends, fades and reads its source at the frames that play when
/// the ticks of the span begin, the sequence ticks at the sequence rate and the source
/// ticks at the source's own. It is stretched exactly when the clip is retimed, and then
/// over the length of the span.
pub proof fn law_span_keeps_its_times(
    r: ResolvedSpan,
    span: AudioSpan,
    fps: (i32, i32),
    sample_rate: u32,
)
    requires
        is_resolved(r, span, fps, sample_rate),
        fps.0 > 0 && fps.1 > 0 && sample_rate > 0,
        span.source_rate.0 > 0 && span.source_rate.1 > 0,
        fits_frames(span.start_tick, fps, sample_rate),
        fits_frames(span.end_tick, fps, sample_rate),
        fits_frames(span.source_start, span.source_rate, sample_rate),
        fits_frames(span.source_duration, span.source_rate, sample_rate),
        fits_frames(span.fade_in_ticks, fps, sample_rate),
        fits_frames(span.fade_out_ticks, fps, sample_rate),
    ensures
        ({
            let hz = sample_rate as int;
            &&& r.path@ == span.path@
            &&& is_frame_of(r.start_frame as int, span.start_tick as int, fps, hz)
            &&& is_frame_of(r.end_frame as int, span.end_tick as int, fps, hz)
            &&& is_frame_of(
                r.source_start_frame as int,
                span.source_start as int,
                span.source_rate,
                hz,
            )
            &&& is_frame_of(r.fade_in_frames as int, span.fade_in_ticks as int, fps, hz)
            &&& is_frame_of(r.fade_out_frames as int, span.fade_out_ticks as int, fps, hz)
            &&& (r.speed_curve is Some) == (span.speed_curve is Some)
            &&& (r.render is Some) == span.retimed
            &&& r.render matches Some(key) ==> {
                &&& key.path@ == span.path@
                &&& is_frame_of(
                    key.source_start_frame as int,
                    span.source_start as int,
                    span.source_rate,
                    hz,
                )
                &&& is_frame_of(
                    key.source_frames as int,
                    span.source_duration as int,
                    span.source_rate,
                    hz,
                )
                &&& key.out_frames == r.end_frame - r.start_frame
                &&& key.reversed == span.reversed
                &&& key.pitch_bits == span.pitch_bits
            }
        }),
{
    lemma_frames64(span.start_tick, fps, sample_rate);
    lemma_frames64(span.end_tick, fps, sample_rate);
    lemma_frames64(span.source_start, span.source_rate, sample_rate);
    lemma_frames64(span.source_duration, span.source_rate, sample_rate);
    lemma_frames64(span.fade_in_ticks, fps, sample_rate);
    lemma_frames64(span.fade_out_ticks, fps, sample_rate);
}

/// An envelope in frames has the values and easings of the one in ticks, keyframe by
/// keyframe, each at the frame that plays when its tick begins; a constant stays.
pub proof fn law_envelope_keeps_its_shape(a: Param, b: Param, fps: (i32, i32), sample_rate: u32)
    requires
        is_rebased(a, b, fps, sample_rate as int),
        fps.0 > 0 && fps.1 > 0 && sample_rate > 0,
        forall|k: int|
            0 <= k < keyframes_of(a).len() ==> fits_frames(
                (#[trigger] keyframes_of(a)[k]).tick,
                fps,
                sample_rate,
            ),
    ensures
        a matches Param::Constant(x) ==> b == Param::Constant(x),
        a is Keyframed ==> b is Keyframed && keyframes_of(b).len() == keyframes_of(a).len(),
        forall|k: int|
            #![trigger keyframes_of(b)[k]]
            0 <= k < keyframes_of(a).len() ==> {
                &&& keyframes_of(b)[k].value == keyframes_of(a)[k].value
                &&& keyframes_of(b)[k].easing == keyframes_of(a)[k].easing
                &&& is_frame_of(
                    keyframes_of(b)[k].tick as int,
                    keyframes_of(a)[k].tick as int,
                    fps,
                    sample_rate as int,
                )
            },
{
    assert forall|k: int|
        #![trigger keyframes_of(b)[k]]
        0 <= k < keyframes_of(a).len() implies {
        &&& keyframes_of(b)[k].value == keyframes_of(a)[k].value
        &&& keyframes_of(b)[k].easing == keyframes_of(a)[k].easing
        &&& is_frame_of(
            keyframes_of(b)[k].tick as int,
            keyframes_of(a)[k].tick as int,
            fps,
            sample_rate as int,
        )
    } by {
        let x = keyframes_of(a)[k];
        lemma_frames64(x.tick, fps, sample_rate);
        assert(keyframes_of(b)[k] == rebased(x, fps, sample_rate as int));
    }
}

// --- blocks ---------------------------------------------------------------

/// The window takes exactly the frames of the block `pos..end` that span number `i` plays,
/// and reads them where they are: a span read one to one goes on from its source start, a
/// stretched one from the start of its render.
pub open spec fn takes_share(w: SpanWindow, span: ResolvedSpan, i: int, pos: int, end: int) -> bool {
    &&& w.span == i
    &&& forall|f: int| #![trigger plays_in(w, f)]
        plays_in(w, f) == (pos <= f < end && span.start_frame <= f < span.end_frame)
    &&& w.stretched == (span.render is Some)
    &&& span.render is None ==> w.source_from - w.from == span.source_start_frame
        - span.start_frame
    &&& span.render is Some ==> w.source_from == w.from - span.start_frame
}

/// The frame is in the window.
pub open spec fn plays_in(w: SpanWindow, f: int) -> bool {
    w.from <= f < w.to
}

/// One of the windows takes the share of span number `i`.
pub open spec fn share_taken(
    ws: Seq<SpanWindow>,
    span: ResolvedSpan,
    i: int,
    pos: int,
    end: int,
) -> bool {
    exists|k: int| 0 <= k < ws.len() && takes_share(#[trigger] ws[k], span, i, pos, end)
}

/// The source position at the start of the block's share fits `i64`.
pub open spec fn reads_in_range(span: ResolvedSpan, pos: int) -> bool {
    let from = if span.start_frame < pos { pos } else { span.start_frame as int };
    i64::MIN <= from - span.start_frame <= i64::MAX && i64::MIN <= span.source_start_frame + (from
        - span.start_frame) <= i64::MAX
}

/// A block takes its share of every span that plays in it, and nothing of the others; the
/// shares come in the order of the spans, one for each.
pub proof fn law_block_takes_every_share(spans: Seq<ResolvedSpan>, pos: int, end: int)
    requires
        i64::MIN <= pos < end <= i64::MAX,
        spans.len() <= usize::MAX,
        forall|i: int| 0 <= i < spans.len() ==> reads_in_range(#[trigger] spans[i], pos),
    ensures
        forall|i: int|
            #![trigger spans[i]]
            0 <= i < spans.len() && spans[i].start_frame < end && pos < spans[i].end_frame
                ==> share_taken(windows(spans, pos, end), spans[i], i, pos, end),
        forall|k: int|
            #![trigger windows(spans, pos, end)[k]]
            0 <= k < windows(spans, pos, end).len() ==> {
                let w = windows(spans, pos, end)[k];
                w.span < spans.len() && takes_share(w, spans[w.span as int], w.span as int, pos, end)
            },
        forall|j: int, k: int|
            #![trigger windows(spans, pos, end)[j], windows(spans, pos, end)[k]]
            0 <= j < k < windows(spans, pos, end).len() ==> windows(spans, pos, end)[j].span
                < windows(spans, pos, end)[k].span,
    decreases spans.len(),
{
    if spans.len() > 0 {
        let init = spans.drop_last();
        assert forall|i: int| 0 <= i < init.len() implies reads_in_range(
            #[trigger] init[i],
            pos,
        ) by {
            assert(init[i] == spans[i]);
        }
        law_block_takes_every_share(init, pos, end);
        let n = spans.len() - 1;
        let before = windows(init, pos, end);
        let now = windows(spans, pos, end);
        assert(reads_in_range(spans[n], pos));
        assert forall|i: int|
            #![trigger spans[i]]
            0 <= i < spans.len() && spans[i].start_frame < end && pos
                < spans[i].end_frame implies share_taken(now, spans[i], i, pos, end) by {
            if i < n {
                assert(init[i] == spans[i]);
                let k = choose|k: int|
                    0 <= k < before.len() && takes_share(
                        #[trigger] before[k],
                        spans[i],
                        i,
                        pos,
                        end,
                    );
                assert(now[k] == before[k]);
            } else {
                let w = window(spans[n], n, pos, end);
                assert(now[before.len() as int] == w);
                assert(takes_share(now[before.len() as int], spans[n], n, pos, end));
            }
        }
        assert forall|k: int|
            #![trigger now[k]]
            0 <= k < now.len() implies {
            let w = now[k];
            w.span < spans.len() && takes_share(w, spans[w.span as int], w.span as int, pos, end)
        } by {
            if k < before.len() {
                assert(now[k] == before[k]);
                assert(init[before[k].span as int] == spans[before[k].span as int]);
            } else {
                assert(takes_share(now[k], spans[n], n, pos, end));
            }
        }
        assert forall|j: int, k: int|
            #![trigger now[j], now[k]]
            0 <= j < k < now.len() implies now[j].span < now[k].span by {
            assert(now[j] == before[j]);
            if k < before.len() {
                assert(now[k] == before[k]);
            }
        }
    }
}

/// A stream that stands ahead of the window leaves the frames that it lacks silent, no
/// more than the window has; one that does not leaves none.
pub proof fn law_lead_is_what_the_stream_lacks(position: Option<i64>, source_from: int, want: int)
    requires
        want >= 0,
    ensures
        ({
            let lead = lead_frames(position, source_from, want);
            &&& 0 <= lead <= want
            &&& position is None ==> lead == 0
            &&& position matches Some(p) ==> (p <= source_from ==> lead == 0) && (source_from <= p
                <= source_from + want ==> source_from + lead == p) && (p >= source_from + want
                ==> lead == want)
        }),
{
}

/// A sink serves a run exactly from a block of the run's epoch that has samples left, and
/// has as many frames left as its unread samples make up.
pub proof fn law_sink_serves_unread_samples(sink: CallbackSink, run: FillRun)
    requires
        sink.wf(),
    ensures
        match sink.current {
            Some(b) => sink.serves(run) == (b.epoch == run.epoch && sink.cursor < b.samples)
                && sink.frames_left() * AUDIO_CHANNELS == b.samples - sink.cursor,
            None => !sink.serves(run) && sink.frames_left() == 0,
        },
{
}

} // verus!
