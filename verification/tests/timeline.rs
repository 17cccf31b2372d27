use cutlass_ui::model::{Clip, Color, Rational, RationalTime, Sequence, TimeRange, Track, TrackKind};
use cutlass_ui::timeline::sequence_duration;

fn r(num: i32, den: i32) -> Rational {
    Rational { num, den }
}

fn rt(value: i32, num: i32, den: i32) -> RationalTime {
    RationalTime {
        value,
        rate: r(num, den),
    }
}

fn clip(timeline_start: RationalTime, duration: RationalTime) -> Clip {
    Clip {
        timeline_start,
        source_range: TimeRange {
            start: rt(0, 0, 0),
            duration,
        },
        ..Clip::default()
    }
}

fn track(clips: Vec<Clip>) -> Track {
    Track {
        id: String::new(),
        name: String::new(),
        kind: TrackKind::Video,
        color: Color {
            red: 0,
            green: 0,
            blue: 0,
            alpha: 0,
        },
        clips,
        enabled: false,
        muted: false,
        locked: false,
        duck_source: false,
    }
}

fn sequence(fps: Rational, tracks: Vec<Track>) -> Sequence {
    Sequence {
        id: String::new(),
        name: String::new(),
        fps,
        drop_frame: false,
        width: 0,
        height: 0,
        tracks,
    }
}

// ---- empty / degenerate -----------------------------------------

#[test]
fn empty_sequence_is_zero_at_sequence_rate() {
    let d = sequence_duration(sequence(r(30, 1), vec![]));
    assert_eq!(d.value, 0);
    assert_eq!(d.rate.num, 30);
    assert_eq!(d.rate.den, 1);
}

#[test]
fn empty_tracks_are_zero() {
    let d = sequence_duration(sequence(
        r(30, 1),
        vec![track(vec![]), track(vec![]), track(vec![])],
    ));
    assert_eq!(d.value, 0);
}

#[test]
fn zero_duration_clip_uses_timeline_start() {
    // A bare cut point with no source range should still extend
    // the sequence to its position.
    let d = sequence_duration(sequence(
        r(30, 1),
        vec![track(vec![clip(rt(100, 30, 1), rt(0, 30, 1))])],
    ));
    assert_eq!(d.value, 100);
}

// ---- fast path: same rate everywhere -----------------------------

#[test]
fn single_clip_at_sequence_rate() {
    let d = sequence_duration(sequence(
        r(30, 1),
        vec![track(vec![clip(rt(0, 30, 1), rt(150, 30, 1))])],
    ));
    assert_eq!(d.value, 150);
}

#[test]
fn multiple_clips_on_one_track_take_max_end() {
    let d = sequence_duration(sequence(
        r(30, 1),
        vec![track(vec![
            clip(rt(0, 30, 1), rt(60, 30, 1)),  // ends @ 60
            clip(rt(60, 30, 1), rt(90, 30, 1)), // ends @ 150 ← max
            clip(rt(30, 30, 1), rt(50, 30, 1)), // ends @ 80
        ])],
    ));
    assert_eq!(d.value, 150);
}

#[test]
fn longest_track_wins_across_multiple_tracks() {
    // Max-end clip lives on track 1, not the first track — guards
    // against any "first track only" regression.
    let d = sequence_duration(sequence(
        r(30, 1),
        vec![
            track(vec![clip(rt(0, 30, 1), rt(100, 30, 1))]),
            track(vec![clip(rt(50, 30, 1), rt(200, 30, 1))]), // ends @ 250
            track(vec![clip(rt(0, 30, 1), rt(75, 30, 1))]),
        ],
    ));
    assert_eq!(d.value, 250);
}

// ---- slow path: mixed rate --------------------------------------

#[test]
fn ntsc_clip_in_30fps_sequence_rounds_once_not_twice() {
    // Regression for the double-ceil bug. Clip at 23.976 (24000/1001):
    //   start = 1 tick  ≈ 0.04171 s
    //   dur   = 24 ticks ≈ 1.00100 s
    //   end   = 25 ticks ≈ 1.04271 s
    //
    // Mapped to 30 fps: (25 * 1001 * 30) / (24000 * 1)
    //                 = 750_750 / 24_000
    //                 = 31.28125
    // → ceil = 32.
    //
    // The naive implementation rounded start and duration
    // independently and got
    //   ceil(1.251) + ceil(30.0625) = 2 + 31 = 33
    // — one phantom frame past the actual content end. Visible as
    // a ruler / scrubber that extends slightly past the last clip.
    let d = sequence_duration(sequence(
        r(30, 1),
        vec![track(vec![clip(rt(1, 24000, 1001), rt(24, 24000, 1001))])],
    ));
    assert_eq!(d.value, 32);
}

#[test]
fn integer_multiple_rate_change_is_exact() {
    // 60 fps clip in a 30 fps sequence: each value halves cleanly
    // so there's no rounding regardless of strategy. This is the
    // sanity case for the slow path.
    let d = sequence_duration(sequence(
        r(30, 1),
        vec![track(vec![clip(rt(120, 60, 1), rt(60, 60, 1))])],
    ));
    // 120 @ 60fps == 60 @ 30fps; 60 @ 60fps == 30 @ 30fps; end = 90.
    assert_eq!(d.value, 90);
}

#[test]
fn result_carries_sequence_rate_not_clip_rate() {
    // Reported duration is always at the sequence rate, even when
    // the only clip is authored at a different rate.
    let d = sequence_duration(sequence(
        r(30, 1),
        vec![track(vec![clip(rt(0, 24, 1), rt(48, 24, 1))])],
    ));
    assert_eq!(d.rate.num, 30);
    assert_eq!(d.rate.den, 1);
    // 48 @ 24fps = 2 s = 60 @ 30fps.
    assert_eq!(d.value, 60);
}

#[test]
fn fast_and_slow_paths_agree_on_canonical_vs_unreduced_rate() {
    // Fast-path comparison is structural (num/den equality), so
    // 30/1 vs 60/2 take different paths in `clip_end_in_target`.
    // They MUST produce the same answer for a no-op rate
    // conversion — otherwise we have a soundness bug in the
    // i128 reduction.
    let fast = sequence_duration(sequence(
        r(30, 1),
        vec![track(vec![clip(rt(15, 30, 1), rt(90, 30, 1))])],
    ));
    let slow = sequence_duration(sequence(
        r(30, 1),
        vec![track(vec![clip(rt(15, 60, 2), rt(90, 60, 2))])],
    ));
    assert_eq!(fast.value, slow.value);
    assert_eq!(fast.value, 105);
}

#[test]
fn long_ntsc_sequence_does_not_overflow() {
    // ~1 hour @ 23.976: 86_313 ticks ≈ 3599.97 s. Cross-multiplied
    // against 30/1 the slow-path numerator
    //   86_313 * 1001 * 30 ≈ 2.6e9
    // sits well inside i64 on its own, but the
    // `n_start * d_dur + n_dur * d_start` step squares-ish that
    // magnitude into the 1e16+ regime, which is where i64 starts
    // to feel tight and where moving to i128 actually buys safety.
    // This test exists to catch any future "optimization" that
    // shrinks the slow path back to i64.
    //
    // Expected: 86_313 * 1001 / 24_000 * 30 = 107_999.14 → ceil = 108_000.
    let d = sequence_duration(sequence(
        r(30, 1),
        vec![track(vec![clip(
            rt(0, 24000, 1001),
            rt(86_313, 24000, 1001),
        )])],
    ));
    assert_eq!(d.value, 108_000);
}

#[test]
fn huge_ends_clamp_to_the_time_range() {
    let d = sequence_duration(sequence(
        r(30, 1),
        vec![track(vec![clip(rt(i32::MAX, 30, 1), rt(i32::MAX, 30, 1))])],
    ));
    assert_eq!(d.value, i32::MAX);
}

#[test]
fn ends_before_zero_leave_an_empty_sequence() {
    let d = sequence_duration(sequence(
        r(30, 1),
        vec![track(vec![clip(rt(-50, 60, 1), rt(20, 60, 1))])],
    ));
    assert_eq!(d.value, 0);
}

#[test]
fn rates_written_with_different_factors_agree() {
    let d = sequence_duration(sequence(
        r(30, 1),
        vec![track(vec![clip(rt(15, 60, 2), rt(90, 90, 3))])],
    ));
    assert_eq!(d.value, 105);
}
