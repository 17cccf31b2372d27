use cutlass_ui::audio::{AudioHandle, AudioMsg, AudioShared};
use cutlass_ui::transport::{playback_tick_scaled, transport_play};

/// The 1x path, as the Slint clock calls it during plain playback.
fn playback_tick(
    anchor_tick: i32,
    anchor_ms: i32,
    now_ms: i32,
    fps_num: i32,
    fps_den: i32,
) -> i32 {
    playback_tick_scaled(anchor_tick, anchor_ms, now_ms, fps_num, fps_den, 1, 1)
}

#[test]
fn integer_rate_advances_exactly() {
    assert_eq!(playback_tick(0, 0, 1000, 24, 1), 24);
    assert_eq!(playback_tick(10, 0, 2000, 24, 1), 58);
    assert_eq!(playback_tick(0, 500, 1500, 60, 1), 60);
}

#[test]
fn ntsc_rate_is_exact() {
    // 30000/1001 fps: 1001ms is exactly 30 frames.
    assert_eq!(playback_tick(0, 0, 1001, 30000, 1001), 30);
    // One hour of NTSC: 3_600_000 ms · 30000 / (1001 · 1000) = 107_892.1… → floor.
    assert_eq!(playback_tick(0, 0, 3_600_000, 30000, 1001), 107_892);
}

#[test]
fn mid_frame_floors() {
    // 24fps ⇒ 41.67ms per frame.
    assert_eq!(playback_tick(0, 0, 41, 24, 1), 0);
    assert_eq!(playback_tick(0, 0, 42, 24, 1), 1);
}

#[test]
fn stale_anchor_never_rewinds() {
    assert_eq!(playback_tick(100, 5000, 4000, 24, 1), 100);
}

#[test]
fn invalid_rate_returns_anchor() {
    assert_eq!(playback_tick(7, 0, 1000, 0, 1), 7);
    assert_eq!(playback_tick(7, 0, 1000, 24, 0), 7);
    assert_eq!(playback_tick(7, 0, 1000, -24, 1), 7);
}

#[test]
fn scaled_speeds_multiply_the_rate() {
    // 2x: one second of 24fps covers 48 ticks.
    assert_eq!(playback_tick_scaled(0, 0, 1000, 24, 1, 2, 1), 48);
    // 8x cap case.
    assert_eq!(playback_tick_scaled(0, 0, 1000, 24, 1, 8, 1), 192);
    // Fractional speed (half): 12 ticks per second.
    assert_eq!(playback_tick_scaled(0, 0, 1000, 24, 1, 1, 2), 12);
}

#[test]
fn reverse_speed_walks_backward() {
    assert_eq!(playback_tick_scaled(100, 0, 1000, 24, 1, -1, 1), 76);
    assert_eq!(playback_tick_scaled(100, 0, 1000, 24, 1, -2, 1), 52);
    // Mid-frame truncates toward the anchor: 41ms at -1x is no step yet.
    assert_eq!(playback_tick_scaled(100, 0, 41, 24, 1, -1, 1), 100);
    assert_eq!(playback_tick_scaled(100, 0, 42, 24, 1, -1, 1), 99);
}

#[test]
fn zero_speed_returns_anchor() {
    assert_eq!(playback_tick_scaled(7, 0, 1000, 24, 1, 0, 1), 7);
    assert_eq!(playback_tick_scaled(7, 0, 1000, 24, 1, 1, 0), 7);
}

fn device(connected: bool) -> AudioHandle {
    AudioHandle {
        shared: AudioShared::new(),
        connected,
        sample_rate: 48_000,
    }
}

#[test]
fn plain_speed_follows_the_audio_clock() {
    let mut audio = device(true);
    transport_play(&mut audio, 100, 1, 1);
    audio.shared.frames_played = 24_000;
    let tick = cutlass_ui::transport::playback_tick(&audio, 0, 0, 9_000, 24, 1, 1, 1);
    assert_eq!(tick, 112);
    // Shuttle speeds and machines without a device use the wall clock.
    let fast = cutlass_ui::transport::playback_tick(&audio, 0, 0, 1_000, 24, 1, 2, 1);
    assert_eq!(fast, 48);
    let silent = cutlass_ui::transport::playback_tick(&device(false), 0, 0, 1_000, 24, 1, 1, 1);
    assert_eq!(silent, 24);
}

#[test]
fn other_speeds_play_silently() {
    let mut audio = device(true);
    assert!(matches!(
        transport_play(&mut audio, 7, 1, 1),
        Some(AudioMsg::Play { tick: 7, epoch: 1 })
    ));
    assert!(matches!(
        transport_play(&mut audio, 9, 2, 1),
        Some(AudioMsg::Pause)
    ));
    assert!(!audio.shared.playing);
    assert_eq!(audio.shared.anchor_tick, 7);
}

#[test]
fn ticks_clamp_to_the_time_range() {
    assert_eq!(
        playback_tick_scaled(i32::MAX - 1, 0, i32::MAX, 1000, 1, 8, 1),
        i32::MAX
    );
    assert_eq!(
        playback_tick_scaled(i32::MIN + 1, 0, i32::MAX, 1000, 1, -8, 1),
        i32::MIN
    );
}
