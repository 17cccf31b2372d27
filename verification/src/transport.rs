//! Playback clock: the playhead is computed from elapsed time, never counted
//! up per frame, so slow decoding drops frames without slowing playback.

use vstd::prelude::*;

use crate::arith::{lemma_floor, lemma_floor_is, lemma_product, trunc_div, trunc_of};
use crate::audio::{AudioHandle, AudioMsg, AudioShared};
use crate::num::{clamp_i32, clamped32, max_int};

verus! {

/// The rate and the speed make the clock run.
pub open spec fn runs(fps_num: int, fps_den: int, speed_num: int, speed_den: int) -> bool {
    fps_num > 0 && fps_den > 0 && speed_num != 0 && speed_den > 0
}

/// Ticks that pass in `elapsed` milliseconds, with a part of a tick dropped.
pub open spec fn ticks_elapsed(
    elapsed: int,
    fps_num: int,
    fps_den: int,
    speed_num: int,
    speed_den: int,
) -> int {
    trunc_of(elapsed * fps_num * speed_num, fps_den * speed_den * 1000)
}

/// Where the playhead is.
pub open spec fn playhead_at(
    anchor_tick: int,
    anchor_ms: int,
    now_ms: int,
    fps_num: int,
    fps_den: int,
    speed_num: int,
    speed_den: int,
) -> int {
    if runs(fps_num, fps_den, speed_num, speed_den) {
        clamped32(
            anchor_tick + ticks_elapsed(
                max_int(now_ms - anchor_ms, 0),
                fps_num,
                fps_den,
                speed_num,
                speed_den,
            ),
        )
    } else {
        anchor_tick
    }
}

/// Playhead tick after `now_ms - anchor_ms` milliseconds of playback from
/// `anchor_tick`, at `fps_num / fps_den` ticks per second times
/// `speed_num / speed_den`.
///
/// A negative speed runs backward; mid-frame time truncates toward the anchor
/// in both directions. Elapsed time clamps at 0, and a rate or speed that does
/// not run leaves the playhead on the anchor.
pub fn playback_tick_scaled(
    anchor_tick: i32,
    anchor_ms: i32,
    now_ms: i32,
    fps_num: i32,
    fps_den: i32,
    speed_num: i32,
    speed_den: i32,
) -> (r: i32)
    ensures
        r == playhead_at(
            anchor_tick as int,
            anchor_ms as int,
            now_ms as int,
            fps_num as int,
            fps_den as int,
            speed_num as int,
            speed_den as int,
        ),
{
    if fps_num <= 0 || fps_den <= 0 || speed_num == 0 || speed_den <= 0 {
        return anchor_tick;
    }
    let since: i64 = now_ms as i64 - anchor_ms as i64;
    let elapsed: i128 = if since > 0 {
        since as i128
    } else {
        0
    };
    proof {
        let m = 0x8000_0000int;
        lemma_product(elapsed as int, fps_num as int, 2 * m, m);
        lemma_product(elapsed * fps_num, speed_num as int, 2 * m * m, m);
        lemma_product(fps_den as int, speed_den as int, m, m);
        assert(2 * m * m * m == 0x4000_0000_0000_0000_0000_0000int) by (nonlinear_arith)
            requires
                m == 0x8000_0000int,
        ;
        assert(fps_den * speed_den > 0) by (nonlinear_arith)
            requires
                fps_den > 0,
                speed_den > 0,
        ;
    }
    let num: i128 = elapsed * fps_num as i128 * speed_num as i128;
    let den: i128 = fps_den as i128 * speed_den as i128 * 1000;
    let ticks: i128 = trunc_div(num, den);
    let at: i128 = anchor_tick as i128 + ticks;
    if at < -0x8000_0000 {
        i32::MIN
    } else if at > 0x7fff_ffff {
        i32::MAX
    } else {
        at as i32
    }
}

/// Which clock playback follows, and where it stands: with a live output device and
/// plain speed the audio clock, else the scaled wall clock.
pub fn playback_tick(
    audio: &AudioHandle,
    anchor_tick: i32,
    anchor_ms: i32,
    now_ms: i32,
    fps_num: i32,
    fps_den: i32,
    speed_num: i32,
    speed_den: i32,
) -> (r: i32)
    ensures
        r == if audio.connected && speed_num == 1 && speed_den == 1 {
            clamped32(audio.shared.tick_at((fps_num, fps_den), audio.sample_rate as int))
        } else {
            playhead_at(
                anchor_tick as int,
                anchor_ms as int,
                now_ms as int,
                fps_num as int,
                fps_den as int,
                speed_num as int,
                speed_den as int,
            )
        },
{
    if audio.active() && speed_num == 1 && speed_den == 1 {
        clamp_i32(audio.current_tick(fps_num, fps_den))
    } else {
        playback_tick_scaled(anchor_tick, anchor_ms, now_ms, fps_num, fps_den, speed_num, speed_den)
    }
}

/// Tell the audio side that playback starts at `tick`: other speeds than plain play
/// are silent.
pub fn transport_play(audio: &mut AudioHandle, tick: i32, speed_num: i32, speed_den: i32) -> (r:
    Option<AudioMsg>)
    ensures
        final(audio).connected == old(audio).connected,
        final(audio).sample_rate == old(audio).sample_rate,
        if speed_num == 1 && speed_den == 1 {
            final(audio).shared == (AudioShared {
                epoch: vstd::wrapping::u64_specs::wrapping_add(old(audio).shared.epoch, 1),
                anchor_tick: tick as i64,
                frames_played: 0,
                playing: true,
                underruns: old(audio).shared.underruns,
            }) && r == (if old(audio).connected {
                Some(AudioMsg::Play { tick: tick as i64, epoch: final(audio).shared.epoch })
            } else {
                None
            })
        } else {
            final(audio).shared == (AudioShared { playing: false, ..old(audio).shared }) && r == (
            if old(audio).connected {
                Some(AudioMsg::Pause)
            } else {
                None
            })
        },
{
    if speed_num == 1 && speed_den == 1 {
        audio.play(tick as i64)
    } else {
        audio.pause()
    }
}

// --- laws -----------------------------------------------------------------

/// A clock that has not passed its anchor stays on it: a stale anchor never
/// rewinds the playhead.
pub proof fn law_stale_anchor_never_rewinds(
    anchor_tick: int,
    anchor_ms: int,
    now_ms: int,
    fps_num: int,
    fps_den: int,
    speed_num: int,
    speed_den: int,
)
    requires
        i32::MIN <= anchor_tick <= i32::MAX,
        now_ms <= anchor_ms,
    ensures
        playhead_at(anchor_tick, anchor_ms, now_ms, fps_num, fps_den, speed_num, speed_den)
            == anchor_tick,
{
    if runs(fps_num, fps_den, speed_num, speed_den) {
        let d = fps_den * speed_den * 1000;
        assert(d > 0) by (nonlinear_arith)
            requires
                fps_den > 0,
                speed_den > 0,
                d == fps_den * speed_den * 1000,
        ;
        assert(0 * fps_num * speed_num == 0) by (nonlinear_arith);
        lemma_floor_is(0, d, 0);
    }
}

/// Later never lies behind earlier: forward playback never steps back, and
/// reverse playback never steps forward.
pub proof fn law_playhead_is_monotone(
    anchor_tick: int,
    anchor_ms: int,
    earlier_ms: int,
    later_ms: int,
    fps_num: int,
    fps_den: int,
    speed_num: int,
    speed_den: int,
)
    requires
        runs(fps_num, fps_den, speed_num, speed_den),
        earlier_ms <= later_ms,
    ensures
        ({
            let a = playhead_at(
                anchor_tick,
                anchor_ms,
                earlier_ms,
                fps_num,
                fps_den,
                speed_num,
                speed_den,
            );
            let b = playhead_at(
                anchor_tick,
                anchor_ms,
                later_ms,
                fps_num,
                fps_den,
                speed_num,
                speed_den,
            );
            if speed_num > 0 {
                a <= b
            } else {
                a >= b
            }
        }),
{
    let x = max_int(earlier_ms - anchor_ms, 0);
    let y = max_int(later_ms - anchor_ms, 0);
    let s = if speed_num > 0 {
        speed_num
    } else {
        -speed_num
    };
    let d = fps_den * speed_den * 1000;
    assert(d > 0) by (nonlinear_arith)
        requires
            fps_den > 0,
            speed_den > 0,
            d == fps_den * speed_den * 1000,
    ;
    let (p, q) = (x * fps_num * s, y * fps_num * s);
    assert(0 <= p <= q) by (nonlinear_arith)
        requires
            0 <= x <= y,
            fps_num > 0,
            s > 0,
            p == x * fps_num * s,
            q == y * fps_num * s,
    ;
    lemma_floor(p, d);
    lemma_floor(q, d);
    let (fp, fq) = (p / d, q / d);
    assert(0 <= fp <= fq) by (nonlinear_arith)
        requires
            fp * d <= p,
            (fp + 1) * d > p,
            fq * d <= q,
            (fq + 1) * d > q,
            0 <= p <= q,
            d > 0,
    ;
    if speed_num < 0 {
        assert(x * fps_num * speed_num == -p) by (nonlinear_arith)
            requires
                p == x * fps_num * s,
                s == -speed_num,
        ;
        assert(y * fps_num * speed_num == -q) by (nonlinear_arith)
            requires
                q == y * fps_num * s,
                s == -speed_num,
        ;
    }
}

/// Reverse playback mirrors forward playback: the same time takes the playhead
/// as many ticks back as it would take it forward.
pub proof fn law_reverse_mirrors_forward(
    elapsed: int,
    fps_num: int,
    fps_den: int,
    speed_num: int,
    speed_den: int,
)
    requires
        elapsed >= 0,
        runs(fps_num, fps_den, speed_num, speed_den),
    ensures
        ticks_elapsed(elapsed, fps_num, fps_den, -speed_num, speed_den) == -ticks_elapsed(
            elapsed,
            fps_num,
            fps_den,
            speed_num,
            speed_den,
        ),
{
    let a = elapsed * fps_num * speed_num;
    let b = elapsed * fps_num * (-speed_num);
    assert(b == -a) by (nonlinear_arith)
        requires
            a == elapsed * fps_num * speed_num,
            b == elapsed * fps_num * (-speed_num),
    ;
    let d = fps_den * speed_den * 1000;
    assert(d > 0) by (nonlinear_arith)
        requires
            fps_den > 0,
            speed_den > 0,
            d == fps_den * speed_den * 1000,
    ;
    lemma_floor_is(0, d, 0);
}

/// Playing `k` times as fast is playing `k` times as long.
pub proof fn law_speed_scales_time(elapsed: int, fps_num: int, fps_den: int, k: int)
    requires
        elapsed >= 0,
        k > 0,
    ensures
        ticks_elapsed(elapsed, fps_num, fps_den, k, 1) == ticks_elapsed(
            elapsed * k,
            fps_num,
            fps_den,
            1,
            1,
        ),
{
    assert(elapsed * fps_num * k == elapsed * k * fps_num * 1) by (nonlinear_arith);
}

/// The playhead is on the tick that the elapsed time has reached: as many whole ticks
/// ahead of the anchor as the time, the rate and the speed make up, and no less. At a rate
/// or speed that does not run it is on the anchor.
pub proof fn law_playhead_keeps_time(
    anchor_tick: int,
    anchor_ms: int,
    now_ms: int,
    fps_num: int,
    fps_den: int,
    speed_num: int,
    speed_den: int,
)
    requires
        anchor_ms <= now_ms,
    ensures
        ({
            let at = playhead_at(
                anchor_tick,
                anchor_ms,
                now_ms,
                fps_num,
                fps_den,
                speed_num,
                speed_den,
            );
            let time = (now_ms - anchor_ms) * fps_num * speed_num;
            let tick = fps_den * speed_den * 1000;
            &&& fps_num <= 0 || fps_den <= 0 || speed_num == 0 || speed_den <= 0 ==> at
                == anchor_tick
            &&& fps_num > 0 && fps_den > 0 && speed_den > 0 && i32::MIN < at < i32::MAX ==> {
                &&& speed_num > 0 ==> (at - anchor_tick) * tick <= time && time < (at - anchor_tick
                    + 1) * tick
                &&& speed_num < 0 ==> (anchor_tick - at) * tick <= -time && -time < (anchor_tick
                    - at + 1) * tick
            }
        }),
{
    let elapsed = now_ms - anchor_ms;
    let time = elapsed * fps_num * speed_num;
    let tick = fps_den * speed_den * 1000;
    if runs(fps_num, fps_den, speed_num, speed_den) {
        assert(tick > 0) by (nonlinear_arith)
            requires
                fps_den > 0,
                speed_den > 0,
                tick == fps_den * speed_den * 1000,
        ;
        assert(speed_num > 0 ==> time >= 0) by (nonlinear_arith)
            requires
                elapsed >= 0,
                fps_num > 0,
                time == elapsed * fps_num * speed_num,
        ;
        assert(speed_num < 0 ==> time <= 0) by (nonlinear_arith)
            requires
                elapsed >= 0,
                fps_num > 0,
                time == elapsed * fps_num * speed_num,
        ;
        if time >= 0 {
            crate::arith::lemma_floor(time, tick);
        }
        if time <= 0 {
            crate::arith::lemma_floor(-time, tick);
        }
        if time == 0 {
            assert(0int / tick == 0) by (nonlinear_arith)
                requires
                    tick > 0,
            ;
        }
    }
}

} // verus!
