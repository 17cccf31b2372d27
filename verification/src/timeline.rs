//! Sequence-level time queries.

use vstd::prelude::*;

use crate::arith::{ceil_div, ceil_of, lemma_ceil, lemma_ceil_is, lemma_product};
use crate::model::{Clip, Rational, RationalTime, Sequence, Track};
use crate::num::{clamped32, clamped64, max_int};

verus! {

/// Whether two rates are written alike.
pub fn rate_eq(a: &Rational, b: &Rational) -> (r: bool)
    ensures
        r == (*a == *b),
{
    a.num == b.num && a.den == b.den
}

/// Both times of the clip are authored at `target`.
pub open spec fn at_rate(clip: Clip, target: Rational) -> bool {
    clip.timeline_start.rate == target && clip.source_range.duration.rate == target
}

/// `start + duration` in target ticks, as one fraction: the numerator.
pub open spec fn end_num(clip: Clip, target: Rational) -> int {
    let s = clip.timeline_start;
    let d = clip.source_range.duration;
    target.num * (s.value * s.rate.den * d.rate.num + d.value * d.rate.den * s.rate.num)
}

/// `start + duration` in target ticks, as one fraction: the denominator.
pub open spec fn end_den(clip: Clip, target: Rational) -> int {
    target.den * (clip.timeline_start.rate.num * clip.source_range.duration.rate.num)
}

/// End of the clip in target ticks: exact at the target rate, else the single
/// fraction rounded up once.
pub open spec fn clip_end(clip: Clip, target: Rational) -> int {
    if at_rate(clip, target) {
        clip.timeline_start.value + clip.source_range.duration.value
    } else if end_den(clip, target) > 0 {
        ceil_of(end_num(clip, target), end_den(clip, target))
    } else {
        ceil_of(-end_num(clip, target), -end_den(clip, target))
    }
}

/// The clip's end can be converted: its own rates do not vanish and have the
/// same sign, and the target has a denominator.
pub open spec fn convertible(clip: Clip, target: Rational) -> bool {
    at_rate(clip, target) || (target.den != 0 && clip.timeline_start.rate.num
        * clip.source_range.duration.rate.num > 0)
}

/// End of `clip` in ticks of `target`.
pub fn clip_end_in_target(clip: &Clip, target: &Rational) -> (r: i64)
    requires
        convertible(*clip, *target),
    ensures
        r == clamped64(clip_end(*clip, *target)),
{
    let start = &clip.timeline_start;
    let duration = &clip.source_range.duration;
    if rate_eq(&start.rate, target) && rate_eq(&duration.rate, target) {
        return start.value as i64 + duration.value as i64;
    }
    let ghost (vs, ds, ns) = (start.value as int, start.rate.den as int, start.rate.num as int);
    let ghost (vd, dd, nd) = (
        duration.value as int,
        duration.rate.den as int,
        duration.rate.num as int,
    );
    let ghost (tn, td) = (target.num as int, target.den as int);
    proof {
        let m = 0x8000_0000int;
        lemma_product(vs, ds, m, m);
        lemma_product(vs * ds, nd, m * m, m);
        lemma_product(vd, dd, m, m);
        lemma_product(vd * dd, ns, m * m, m);
        lemma_product(tn, vs * ds * nd + vd * dd * ns, m, 2 * (m * m * m));
        lemma_product(ns, nd, m, m);
        lemma_product(td, ns * nd, m, m * m);
        assert(m * m * m == 0x2000_0000_0000_0000_0000_0000int) by (nonlinear_arith)
            requires
                m == 0x8000_0000int,
        ;
        assert(m * (2 * (m * m * m)) == 0x2000_0000_0000_0000_0000_0000_0000_0000int)
            by (nonlinear_arith)
            requires
                m == 0x8000_0000int,
        ;
        assert(m * (m * m) == m * m * m) by (nonlinear_arith);
        assert(td * (ns * nd) != 0) by (nonlinear_arith)
            requires
                td != 0,
                ns * nd > 0,
        ;
    }
    let from: i128 = start.value as i128 * start.rate.den as i128 * duration.rate.num as i128;
    let span: i128 = duration.value as i128 * duration.rate.den as i128 * start.rate.num as i128;
    let sum: i128 = from + span;
    let num: i128 = target.num as i128 * sum;
    let rates: i128 = start.rate.num as i128 * duration.rate.num as i128;
    let den: i128 = target.den as i128 * rates;
    let end: i128 = if den > 0 {
        ceil_div(num, den)
    } else {
        ceil_div(-num, -den)
    };
    if end < -0x8000_0000_0000_0000 {
        i64::MIN
    } else if end > 0x7fff_ffff_ffff_ffff {
        i64::MAX
    } else {
        end as i64
    }
}

/// Latest end on a lane, at least 0.
pub open spec fn lane_end(clips: Seq<Clip>, target: Rational) -> int
    decreases clips.len(),
{
    if clips.len() == 0 {
        0
    } else {
        max_int(lane_end(clips.drop_last(), target), clip_end(clips.last(), target))
    }
}

/// Latest end on any lane, at least 0.
pub open spec fn content_end(tracks: Seq<Track>, target: Rational) -> int
    decreases tracks.len(),
{
    if tracks.len() == 0 {
        0
    } else {
        max_int(content_end(tracks.drop_last(), target), lane_end(tracks.last().clips@, target))
    }
}

/// Every clip's end can be converted.
pub open spec fn all_convertible(tracks: Seq<Track>, target: Rational) -> bool {
    forall|t: int, c: int|
        0 <= t < tracks.len() && 0 <= c < tracks[t].clips@.len() ==> convertible(
            #[trigger] tracks[t].clips@[c],
            target,
        )
}

/// Latest content end across all lanes, at the sequence rate.
///
/// `timeline_start + duration` becomes one fraction before it is rounded up, so
/// the ruler covers the whole content and never shows a tick too many.
pub fn sequence_duration(sequence: Sequence) -> (r: RationalTime)
    requires
        all_convertible(sequence.tracks@, sequence.fps),
    ensures
        r.rate == sequence.fps,
        r.value == clamped32(content_end(sequence.tracks@, sequence.fps)),
{
    let target = sequence.fps;
    let mut max_end: i64 = 0;
    let mut t: usize = 0;
    while t < sequence.tracks.len()
        invariant
            t <= sequence.tracks.len(),
            target == sequence.fps,
            all_convertible(sequence.tracks@, target),
            max_end == clamped64(content_end(sequence.tracks@.take(t as int), target)),
        decreases sequence.tracks.len() - t,
    {
        let clips = &sequence.tracks[t].clips;
        let ghost before = content_end(sequence.tracks@.take(t as int), target);
        proof {
            law_duration_covers_content(sequence.tracks@.take(t as int), target);
        }
        let mut c: usize = 0;
        while c < clips.len()
            invariant
                c <= clips.len(),
                t < sequence.tracks.len(),
                *clips == sequence.tracks@[t as int].clips,
                all_convertible(sequence.tracks@, target),
                before >= 0,
                max_end == clamped64(max_int(before, lane_end(clips@.take(c as int), target))),
            decreases clips.len() - c,
        {
            assert(sequence.tracks@[t as int].clips@[c as int] == clips@[c as int]);
            let end: i64 = clip_end_in_target(&clips[c], &target);
            assert(clips@.take(c as int + 1).drop_last() =~= clips@.take(c as int));
            if end > max_end {
                max_end = end;
            }
            c += 1;
        }
        proof {
            assert(clips@.take(c as int) =~= clips@);
            let upper = sequence.tracks@.take(t as int + 1);
            assert(upper.drop_last() =~= sequence.tracks@.take(t as int));
        }
        t += 1;
    }
    assert(sequence.tracks@.take(t as int) =~= sequence.tracks@);
    RationalTime { value: crate::num::clamp_i32(max_end), rate: target }
}

// --- laws -----------------------------------------------------------------

proof fn lemma_lane_end(clips: Seq<Clip>, target: Rational)
    ensures
        lane_end(clips, target) >= 0,
        forall|c: int|
            0 <= c < clips.len() ==> clip_end(#[trigger] clips[c], target) <= lane_end(clips, target),
        lane_end(clips, target) == 0 || exists|c: int|
            0 <= c < clips.len() && clip_end(#[trigger] clips[c], target) == lane_end(clips, target),
    decreases clips.len(),
{
    if clips.len() > 0 {
        let front = clips.drop_last();
        lemma_lane_end(front, target);
        assert forall|c: int| 0 <= c < clips.len() implies clip_end(#[trigger] clips[c], target)
            <= lane_end(clips, target) by {
            if c < front.len() {
                assert(front[c] == clips[c]);
            }
        }
        if lane_end(clips, target) == lane_end(front, target) {
            if lane_end(front, target) != 0 {
                let c = choose|c: int|
                    0 <= c < front.len() && clip_end(#[trigger] front[c], target) == lane_end(
                        front,
                        target,
                    );
                assert(clips[c] == front[c]);
            }
        } else {
            assert(clips[clips.len() - 1] == clips.last());
        }
    }
}

/// The duration covers every clip and is no longer than needed: it is the end
/// of some clip, or 0.
pub proof fn law_duration_covers_content(tracks: Seq<Track>, target: Rational)
    ensures
        content_end(tracks, target) >= 0,
        forall|t: int, c: int|
            0 <= t < tracks.len() && 0 <= c < tracks[t].clips@.len() ==> clip_end(
                #[trigger] tracks[t].clips@[c],
                target,
            ) <= content_end(tracks, target),
        content_end(tracks, target) == 0 || exists|t: int, c: int|
            0 <= t < tracks.len() && 0 <= c < tracks[t].clips@.len() && clip_end(
                #[trigger] tracks[t].clips@[c],
                target,
            ) == content_end(tracks, target),
    decreases tracks.len(),
{
    if tracks.len() > 0 {
        let front = tracks.drop_last();
        law_duration_covers_content(front, target);
        lemma_lane_end(tracks.last().clips@, target);
        assert forall|t: int, c: int|
            0 <= t < tracks.len() && 0 <= c < tracks[t].clips@.len() implies clip_end(
            #[trigger] tracks[t].clips@[c],
            target,
        ) <= content_end(tracks, target) by {
            if t < front.len() {
                assert(front[t].clips@[c] == tracks[t].clips@[c]);
            } else {
                assert(tracks.last().clips@[c] == tracks[t].clips@[c]);
            }
        }
        if content_end(tracks, target) == content_end(front, target) {
            if content_end(front, target) != 0 {
                let (t, c) = choose|t: int, c: int|
                    0 <= t < front.len() && 0 <= c < front[t].clips@.len() && clip_end(
                        #[trigger] front[t].clips@[c],
                        target,
                    ) == content_end(front, target);
                assert(tracks[t].clips@[c] == front[t].clips@[c]);
            }
        } else {
            let clips = tracks.last().clips@;
            let c = choose|c: int|
                0 <= c < clips.len() && clip_end(#[trigger] clips[c], target) == lane_end(
                    clips,
                    target,
                );
            assert(tracks[tracks.len() - 1].clips@[c] == clips[c]);
        }
    }
}

/// A clip's end reaches its content: it is the least number of target ticks
/// that is not short of `start + duration`.
pub proof fn law_clip_end_is_least_cover(clip: Clip, target: Rational)
    requires
        !at_rate(clip, target),
        end_den(clip, target) > 0,
    ensures
        clip_end(clip, target) * end_den(clip, target) >= end_num(clip, target),
        (clip_end(clip, target) - 1) * end_den(clip, target) < end_num(clip, target),
{
    lemma_ceil(end_num(clip, target), end_den(clip, target));
}

/// Rounding the sum once never overshoots rounding its two parts.
pub proof fn law_single_rounding(a: int, b: int, d: int)
    requires
        d > 0,
    ensures
        ceil_of(a + b, d) <= ceil_of(a, d) + ceil_of(b, d),
{
    lemma_ceil(a, d);
    lemma_ceil(b, d);
    lemma_ceil(a + b, d);
    let (x, y, z) = (ceil_of(a, d), ceil_of(b, d), ceil_of(a + b, d));
    assert(z <= x + y) by (nonlinear_arith)
        requires
            x * d >= a,
            y * d >= b,
            (z - 1) * d < a + b,
            d > 0,
    ;
}

/// A rate equals the target as a ratio, however the two are written.
pub open spec fn same_ratio(rate: Rational, target: Rational) -> bool {
    rate.num > 0 && rate.den > 0 && rate.num * target.den == target.num * rate.den
}

/// A clip whose rates equal the target rate as ratios, written with whatever factors,
/// ends where it would at the target rate itself.
pub proof fn law_unreduced_rate_agrees(clip: Clip, target: Rational)
    requires
        target.num > 0,
        target.den > 0,
        same_ratio(clip.timeline_start.rate, target),
        same_ratio(clip.source_range.duration.rate, target),
    ensures
        clip_end(clip, target) == clip.timeline_start.value + clip.source_range.duration.value,
{
    if !at_rate(clip, target) {
        let (n, d) = (target.num as int, target.den as int);
        let (vs, vd) = (clip.timeline_start.value as int, clip.source_range.duration.value as int);
        let (sn, sd) = (
            clip.timeline_start.rate.num as int,
            clip.timeline_start.rate.den as int,
        );
        let (dn, dd) = (
            clip.source_range.duration.rate.num as int,
            clip.source_range.duration.rate.den as int,
        );
        let num = end_num(clip, target);
        let den = end_den(clip, target);
        let sum = vs + vd;
        assert(den > 0) by (nonlinear_arith)
            requires
                den == d * (sn * dn),
                d > 0,
                sn > 0,
                dn > 0,
        ;
        assert(n * (vs * sd * dn) == vs * den) by (nonlinear_arith)
            requires
                den == d * (sn * dn),
                sn * d == n * sd,
        ;
        assert(n * (vd * dd * sn) == vd * den) by (nonlinear_arith)
            requires
                den == d * (sn * dn),
                dn * d == n * dd,
        ;
        assert(num == sum * den) by (nonlinear_arith)
            requires
                num == n * (vs * sd * dn + vd * dd * sn),
                n * (vs * sd * dn) == vs * den,
                n * (vd * dd * sn) == vd * den,
                sum == vs + vd,
        ;
        assert((sum - 1) * den < num) by (nonlinear_arith)
            requires
                num == sum * den,
                den > 0,
        ;
        lemma_ceil_is(num, den, sum);
    }
}

} // verus!
