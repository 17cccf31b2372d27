use cutlass_ui::audio::{
    curve_key, frames_to_ticks, reader_is_live, render_is_live, resolve_spans, ticks_to_frames,
    AudioHandle, AudioMsg, AudioShared, AudioSnapshot, AudioSpan, Easing, Keyframe, Param,
    BLOCK_FRAMES, UNITY_BITS,
};
use cutlass_ui::mixer::{
    begin_fill, plan_block, plays_at_unity, BlockHead, CallbackSink, FillStep, Mixer,
};

#[test]
fn tick_frame_conversion_is_exact_for_integer_rates() {
    // 24 ticks (1s at 24fps) = 48000 frames at 48kHz.
    assert_eq!(ticks_to_frames(24, (24, 1), 48_000), 48_000);
    assert_eq!(frames_to_ticks(48_000, (24, 1), 48_000), 24);
    // One tick = 2000 frames.
    assert_eq!(ticks_to_frames(1, (24, 1), 48_000), 2_000);
}

fn span(start_tick: i64, end_tick: i64) -> AudioSpan {
    AudioSpan {
        path: "/tmp/x.mp3".to_string(),
        start_tick,
        end_tick,
        source_start: 0,
        source_rate: (24, 1),
        source_duration: 0,
        retimed: false,
        reversed: false,
        pitch_bits: 1.0f32.to_bits(),
        speed_curve: None,
        volume: Param::Constant(1.0f32.to_bits()),
        fade_in_ticks: 0,
        fade_out_ticks: 0,
    }
}

fn key(tick: i64, value: f32) -> Keyframe {
    Keyframe {
        tick,
        value: value.to_bits(),
        easing: Easing::Linear,
    }
}

fn keys_of(p: &Param) -> Vec<Keyframe> {
    match p {
        Param::Constant(_) => Vec::new(),
        Param::Keyframed { keyframes } => keyframes.clone(),
    }
}

#[test]
fn resolve_spans_rebases_volume_envelope_to_frames() {
    // A 0→1 ramp over clip ticks [0, 24] (1s at 24fps) must rebase to
    // sample frames [0, 48000] so the mixer's per-frame lookup matches.
    let mut one = span(0, 24);
    one.volume = Param::Keyframed {
        keyframes: vec![key(0, 0.0), key(24, 1.0)],
    };
    let snapshot = AudioSnapshot {
        fps: (24, 1),
        spans: vec![one],
    };
    let spans = resolve_spans(&snapshot, 48_000);
    let kfs = keys_of(&spans[0].volume);
    assert_eq!(kfs.len(), 2);
    assert_eq!((kfs[0].tick, kfs[1].tick), (0, 48_000));
    // Halfway through (frame 24000) the linear ramp reads 0.5.
    let (v0, v1) = (f32::from_bits(kfs[0].value), f32::from_bits(kfs[1].value));
    let at = (24_000 - kfs[0].tick) as f32 / (kfs[1].tick - kfs[0].tick) as f32;
    assert_eq!(v0 + (v1 - v0) * at, 0.5);
}

#[test]
fn tick_frame_conversion_handles_ntsc() {
    // 30000 ticks at 30000/1001 fps = 1001 seconds = 1001 · 48000 frames.
    assert_eq!(
        ticks_to_frames(30_000, (30_000, 1_001), 48_000),
        1_001 * 48_000
    );
    assert_eq!(
        frames_to_ticks(1_001 * 48_000, (30_000, 1_001), 48_000),
        30_000
    );
}

#[test]
fn invalid_rates_collapse_to_zero() {
    assert_eq!(ticks_to_frames(100, (0, 1), 48_000), 0);
    assert_eq!(ticks_to_frames(100, (24, 1), 0), 0);
    assert_eq!(frames_to_ticks(100, (24, 0), 48_000), 0);
}

#[test]
fn conversions_floor_below_zero_too() {
    // One frame before the origin lies in tick -1.
    assert_eq!(frames_to_ticks(-1, (24, 1), 48_000), -1);
    assert_eq!(frames_to_ticks(-2_000, (24, 1), 48_000), -1);
    assert_eq!(ticks_to_frames(-1, (30_000, 1_001), 48_000), -1_602);
}

#[test]
fn clock_reports_anchor_plus_consumed_frames() {
    let mut handle = AudioHandle {
        shared: AudioShared::new(),
        connected: false,
        sample_rate: 48_000,
    };
    assert!(handle.play(100).is_none());
    assert_eq!(handle.current_tick(24, 1), 100);
    // 1.5s of consumed audio = 36 ticks at 24fps.
    handle.shared.frames_played = 72_000;
    assert_eq!(handle.current_tick(24, 1), 136);
}

#[test]
fn seeks_bump_the_epoch_and_pauses_keep_the_clock() {
    let mut handle = AudioHandle {
        shared: AudioShared::new(),
        connected: true,
        sample_rate: 48_000,
    };
    assert!(matches!(
        handle.play(5),
        Some(AudioMsg::Play { tick: 5, epoch: 1 })
    ));
    assert!(matches!(
        handle.play(9),
        Some(AudioMsg::Play { tick: 9, epoch: 2 })
    ));
    handle.shared.frames_played = 2_000;
    assert!(matches!(handle.pause(), Some(AudioMsg::Pause)));
    assert_eq!(handle.current_tick(24, 1), 10);
    // A rate that is not usable shows the anchor.
    assert_eq!(handle.current_tick(0, 1), 9);
}

#[test]
fn blocks_without_spans_take_nothing() {
    // No spans: nothing is mixed into the block.
    assert!(plan_block(&Vec::new(), 0, BLOCK_FRAMES as u32).is_empty());
}

#[test]
fn blocks_take_their_share_of_a_span() {
    const RATE: u32 = 48_000;
    // One clip: timeline ticks [24, 48) at 24fps = seconds [1, 2).
    let snapshot = AudioSnapshot {
        fps: (24, 1),
        spans: vec![span(24, 48)],
    };
    let spans = resolve_spans(&snapshot, RATE);
    assert_eq!(spans[0].start_frame, i64::from(RATE));
    assert_eq!(spans[0].end_frame, 2 * i64::from(RATE));

    assert!(plan_block(&spans, 0, 1024).is_empty());

    let inside = plan_block(&spans, 48_000 + 4 * 1024, 1024);
    assert_eq!(inside.len(), 1);
    assert_eq!((inside[0].from, inside[0].to), (52_096, 53_120));
    assert_eq!(inside[0].source_from, 4_096);
    assert!(!inside[0].stretched);

    // A block across the clip start leaves its head silent.
    let straddle = plan_block(&spans, 48_000 - 512, 1024);
    assert_eq!((straddle[0].from, straddle[0].to), (48_000, 48_512));
    assert_eq!(straddle[0].source_from, 0);
    assert_eq!(straddle[0].offset(48_000 - 512, 0), 512 * 2);
    // The next block goes on where this one stopped.
    let next = plan_block(&spans, 48_512, 1024);
    assert_eq!(next[0].source_from, 512);
}

#[test]
fn a_late_stream_leaves_a_lead() {
    let spans = resolve_spans(
        &AudioSnapshot {
            fps: (24, 1),
            spans: vec![span(0, 24)],
        },
        48_000,
    );
    let w = plan_block(&spans, 0, 1024)[0];
    assert_eq!(w.lead(None), 0);
    assert_eq!(w.lead(Some(100)), 100);
    assert_eq!(w.lead(Some(-5)), 0);
    assert_eq!(w.lead(Some(9_999)), 1024);
    assert_eq!(w.want(), 1024);
    assert_eq!(w.stretched_count(10), 10);
    assert_eq!(w.stretched_count(5_000), 1024);
}

#[test]
fn retimed_spans_carry_a_render_key() {
    let mut fast = span(0, 24);
    fast.retimed = true;
    fast.source_duration = 48;
    fast.speed_curve = Some(Param::Keyframed {
        keyframes: vec![key(0, 1.0), key(1_000, 3.0)],
    });
    let spans = resolve_spans(
        &AudioSnapshot {
            fps: (24, 1),
            spans: vec![fast],
        },
        48_000,
    );
    let render = spans[0].render.as_ref().expect("render key");
    assert_eq!(render.source_frames, 96_000);
    assert_eq!(render.out_frames, 48_000);
    assert_eq!(render.curve.len(), 2);
    assert!(render_is_live(&spans, render));
    assert!(!render_is_live(&Vec::new(), render));
    assert!(reader_is_live(&spans, "/tmp/x.mp3", 0));
    assert!(!reader_is_live(&spans, "/tmp/x.mp3", 1));
    assert!(reader_is_live(&spans, "/tmp//x.mp3", 0), "another spelling of the path");
    assert!(!reader_is_live(&spans, "/tmp/y.mp3", 0));
    assert!(plan_block(&spans, 0, 1024)[0].stretched);
}

#[test]
fn curve_keys_tell_ramps_apart() {
    let linear = Some(Param::Keyframed {
        keyframes: vec![key(0, 1.0)],
    });
    let mut eased_key = key(0, 1.0);
    eased_key.easing = Easing::Bezier {
        x1: 1,
        y1: 2,
        x2: 3,
        y2: 4,
    };
    let eased = Some(Param::Keyframed {
        keyframes: vec![eased_key],
    });
    assert_eq!(
        curve_key(&linear),
        vec![(0, 1.0f32.to_bits(), 0, (0, 0, 0, 0))]
    );
    assert_eq!(
        curve_key(&eased),
        vec![(0, 1.0f32.to_bits(), 4, (1, 2, 3, 4))]
    );
    assert!(curve_key(&None).is_empty());
    assert!(curve_key(&Some(Param::Constant(7))).is_empty());
}

#[test]
fn unity_needs_a_flat_envelope_and_no_fades() {
    assert_eq!(UNITY_BITS, 1.0f32.to_bits());
    let resolve = |s: AudioSpan| {
        resolve_spans(
            &AudioSnapshot {
                fps: (24, 1),
                spans: vec![s],
            },
            48_000,
        )
    };
    assert!(plays_at_unity(&resolve(span(0, 24))[0]));
    let mut faded = span(0, 24);
    faded.fade_in_ticks = 2;
    assert!(!plays_at_unity(&resolve(faded)[0]));
    let mut half = span(0, 24);
    half.volume = Param::Constant(0.5f32.to_bits());
    assert!(!plays_at_unity(&resolve(half)[0]));
}

#[test]
fn the_mixer_keeps_the_time_across_a_rate_change() {
    let mut mixer = Mixer::new();
    mixer.on_message(
        AudioMsg::Snapshot(AudioSnapshot {
            fps: (24, 1),
            spans: vec![span(0, 48)],
        }),
        48_000,
    );
    assert!(mixer.settle(48_000));
    assert!(!mixer.settle(48_000));
    mixer.on_message(AudioMsg::Play { tick: 24, epoch: 3 }, 48_000);
    assert_eq!((mixer.epoch, mixer.write_frame), (3, 48_000));
    mixer.advance();
    assert_eq!(mixer.write_frame, 49_024);
    mixer.on_message(
        AudioMsg::Snapshot(AudioSnapshot {
            fps: (48, 1),
            spans: Vec::new(),
        }),
        48_000,
    );
    assert!(mixer.settle(48_000));
    // Tick 24 at 24fps, read as tick 24 at 48fps.
    assert_eq!(mixer.write_frame, 24_000);
    mixer.on_message(AudioMsg::Pause, 48_000);
    assert!(!mixer.playing);
}

#[test]
fn the_callback_drops_stale_blocks_and_counts_consumed_frames() {
    let mut sink = CallbackSink::new();
    let mut run = begin_fill(2, 40, 4);
    assert_eq!(run.want, 10);
    assert_eq!(sink.next_step(&mut run), FillStep::Receive);
    assert!(sink.receive(
        &run,
        Some(BlockHead {
            epoch: 1,
            samples: 64
        })
    ));
    assert_eq!(sink.next_step(&mut run), FillStep::Receive);
    assert!(sink.receive(
        &run,
        Some(BlockHead {
            epoch: 2,
            samples: 12
        })
    ));
    assert_eq!(
        sink.next_step(&mut run),
        FillStep::Copy {
            src: 0,
            dst: 0,
            frames: 6
        }
    );
    assert_eq!(sink.next_step(&mut run), FillStep::Receive);
    assert!(!sink.receive(&run, None));
    // Six of ten frames: the clock moves by six, and the device starved.
    assert_eq!(run.finish(100, 7), (106, 8));

    assert!(sink.receive(
        &run,
        Some(BlockHead {
            epoch: 2,
            samples: 64
        })
    ));
    assert_eq!(
        sink.next_step(&mut run),
        FillStep::Copy {
            src: 0,
            dst: 6,
            frames: 4
        }
    );
    assert_eq!(sink.next_step(&mut run), FillStep::Done);
    assert_eq!(run.finish(100, 7), (110, 7));
    sink.stop();
    assert!(sink.current.is_none());
}
