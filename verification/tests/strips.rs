use cutlass_ui::strips::{
    filmstrip_tiles, interval_us_for, render_wave_tile, tile_range, wave_max_half, waveform_tiles,
    PeakAction, StripMsg, StripQueue, StripWork, TileEntry, TileKey, TileRange, TileRegistry,
    CACHE_CAP, CACHE_KEEP, MAX_K, MAX_TILES, MIN_K,
};

const WAVE_BAR_RGBA: [u8; 4] = [0xFF, 0xFF, 0xFF, 0xD8];

#[test]
fn interval_us_is_exact_for_all_allowed_k() {
    assert_eq!(interval_us_for(0), 1_000_000);
    assert_eq!(interval_us_for(2), 4_000_000);
    assert_eq!(interval_us_for(-2), 250_000);
    assert_eq!(interval_us_for(MIN_K), 15_625);
    // Exactness: interval reconstructs 2^k seconds with no remainder.
    for k in MIN_K..=6 {
        let us = interval_us_for(k);
        assert_eq!(us as f64 / 1e6, 2.0_f64.powi(k), "k={k}");
    }
}

#[test]
fn coarser_grids_nest_inside_finer_ones() {
    // Every key on the k+1 grid is also on the k grid: zooming in reuses
    // every frame already decoded while zoomed out.
    for k in MIN_K..10 {
        assert_eq!(interval_us_for(k + 1) % interval_us_for(k), 0);
    }
}

#[test]
fn tile_ranges_start_at_zero_and_stay_bounded() {
    let r = tile_range(0, -5, 3);
    assert_eq!((r.i0, r.i1, r.interval_us), (0, 3, 1_000_000));
    let r = tile_range(MAX_K, 10, 5);
    assert_eq!((r.i0, r.i1), (10, 10));
    let r = tile_range(0, 2, i64::MAX);
    assert_eq!(r.i1 - r.i0 + 1, MAX_TILES);
}

/// Half heights of the bars that peaks in `0..=1` at `per_second` give.
fn heights(
    peaks: &[f32],
    per_second: f64,
    t0_s: f64,
    span_s: f64,
    width: usize,
    height: usize,
) -> Vec<usize> {
    let mut out = Vec::new();
    if peaks.is_empty() || per_second <= 0.0 || span_s <= 0.0 {
        return out;
    }
    let bars = width / 4;
    let bar_span_s = span_s / bars as f64;
    for bar in 0..bars {
        let start_s = t0_s + bar as f64 * bar_span_s;
        let lo = (start_s * per_second).floor().max(0.0) as usize;
        if lo >= peaks.len() {
            return out;
        }
        let hi =
            (((start_s + bar_span_s) * per_second).ceil() as usize).clamp(lo + 1, peaks.len());
        let peak = peaks[lo..hi].iter().copied().fold(0.0f32, f32::max);
        out.push((f64::from(peak.clamp(0.0, 1.0)) * wave_max_half(height) as f64) as usize);
    }
    out
}

fn wave(
    peaks: &[f32],
    per_second: f64,
    t0_s: f64,
    span_s: f64,
    width: usize,
    height: usize,
) -> Vec<u8> {
    let bars = heights(peaks, per_second, t0_s, span_s, width, height);
    render_wave_tile(&bars, width, height)
}

#[test]
fn wave_tile_paints_mirrored_bars_on_transparent_ground() {
    let peaks = vec![1.0f32; 200]; // 2s of loud audio at 100/s
    let rgba = wave(&peaks, 100.0, 0.0, 2.0, 64, 32);
    assert_eq!(rgba.len(), 64 * 32 * 4);

    let px = |x: usize, y: usize| {
        let i = (y * 64 + x) * 4;
        [rgba[i], rgba[i + 1], rgba[i + 2], rgba[i + 3]]
    };
    // Bar column at center rows is painted; the gap column is not.
    assert_eq!(px(0, 16), WAVE_BAR_RGBA);
    assert_eq!(px(3, 16), [0, 0, 0, 0], "gap between bars stays clear");
    // Mirrored: symmetric rows above/below the midline both painted.
    assert_eq!(px(0, 4), px(0, 27));
    // Top margin rows stay clear (max_half leaves 2px headroom).
    assert_eq!(px(0, 0), [0, 0, 0, 0]);
}

#[test]
fn wave_tile_silence_keeps_a_center_line() {
    let peaks = vec![0.0f32; 100];
    let rgba = wave(&peaks, 100.0, 0.0, 1.0, 16, 32);
    let center = (16 * 16) * 4;
    assert_eq!(&rgba[center..center + 4], &WAVE_BAR_RGBA);
    let top = 16 * 4_usize;
    assert_eq!(&rgba[top..top + 4], &[0, 0, 0, 0]);
}

#[test]
fn wave_tile_past_the_end_of_audio_does_not_panic() {
    // 115 peaks ≈ 1.15s of audio at 100/s, but the tile spans [1.0, 2.0)s:
    // later bars start past the last peak (a clip whose tick duration
    // outlives its decoded audio).
    let peaks = vec![0.5f32; 115];
    let rgba = wave(&peaks, 100.0, 1.0, 1.0, 64, 32);
    assert_eq!(rgba.len(), 64 * 32 * 4);
    // Bars fully past the audio stay transparent.
    let last_bar_x = 60; // bar 15 of 16 covers [1.9375, 2.0)s
    let center = (16 * 64 + last_bar_x) * 4;
    assert_eq!(&rgba[center..center + 4], &[0, 0, 0, 0]);
}

#[test]
fn wave_tile_with_no_peaks_is_fully_transparent() {
    let rgba = wave(&[], 100.0, 0.0, 1.0, 16, 16);
    assert!(rgba.iter().all(|&b| b == 0));
}

fn frame_key(at_us: i64) -> TileKey {
    TileKey {
        media: 7,
        at_us,
        k: 0,
    }
}

#[test]
fn lru_eviction_keeps_recently_used_entries() {
    let mut registry = TileRegistry::new();
    for i in 0..(CACHE_CAP as u64 + 100) {
        registry.entries.push(TileEntry {
            key: frame_key(i as i64),
            last_used: i,
        });
    }
    let dropped = registry.evict_lru();
    assert!(registry.entries.len() <= CACHE_CAP);
    assert_eq!(registry.entries.len(), CACHE_KEEP);
    assert_eq!(dropped.len(), CACHE_CAP + 100 - CACHE_KEEP);
    // The newest entries survive, the oldest are gone.
    let has = |at: i64| registry.entries.iter().any(|e| e.key == frame_key(at));
    assert!(has(CACHE_CAP as i64 + 99));
    assert!(!has(0));
    assert!(dropped.contains(&frame_key(0)));
}

#[test]
fn a_registry_at_its_cap_evicts_nothing() {
    let mut registry = TileRegistry::new();
    for i in 0..CACHE_CAP as u64 {
        registry.entries.push(TileEntry {
            key: frame_key(i as i64),
            last_used: 0,
        });
    }
    assert!(registry.evict_lru().is_empty());
    assert_eq!(registry.entries.len(), CACHE_CAP);
}

fn two_tiles() -> TileRange {
    TileRange {
        k: 1,
        interval_us: 2_000_000,
        i0: 1,
        i1: 2,
    }
}

#[test]
fn tiles_are_asked_for_once_and_then_shown() {
    let mut registry = TileRegistry::new();
    let first = filmstrip_tiles(&mut registry, "7", Some(two_tiles()));
    assert_eq!(first.decoded, vec![false, false]);
    assert_eq!(first.request, vec![2_000_000, 4_000_000]);
    // On their way: not asked for again.
    let again = filmstrip_tiles(&mut registry, "7", Some(two_tiles()));
    assert!(again.request.is_empty());
    // A failed tile is delivered too, and is not asked for again.
    assert!(registry.deliver(7, 0, &vec![2_000_000, 4_000_000]).is_empty());
    assert!(registry.pending.is_empty());
    let shown = filmstrip_tiles(&mut registry, "7", Some(two_tiles()));
    assert_eq!(shown.decoded, vec![true, true]);
    assert!(shown.request.is_empty());
    // Frames are shared between grids, waveforms are not.
    let finer = TileRange {
        k: 0,
        interval_us: 1_000_000,
        i0: 2,
        i1: 3,
    };
    let zoomed = filmstrip_tiles(&mut registry, "7", Some(finer));
    assert_eq!(zoomed.decoded, vec![true, false]);
    let waves = waveform_tiles(&mut registry, "7", Some(two_tiles()));
    assert_eq!(waves.decoded, vec![false, false]);
}

#[test]
fn unusable_lookups_show_nothing() {
    let mut registry = TileRegistry::new();
    let bad = filmstrip_tiles(&mut registry, "seven", Some(two_tiles()));
    assert!(bad.decoded.is_empty() && bad.request.is_empty());
    let hidden = waveform_tiles(&mut registry, "7", None);
    assert!(hidden.decoded.is_empty() && hidden.request.is_empty());
    assert_eq!(registry.tick, 0);
    assert!(registry.deliver(7, 0, &Vec::new()).is_empty());
    assert_eq!(registry.tick, 0);
}

#[test]
fn newest_work_runs_first_and_registrations_apply_at_once() {
    let mut queue = StripQueue::new();
    queue.triage(StripMsg::Filmstrip {
        media_id: 1,
        times_us: vec![0],
    });
    queue.triage(StripMsg::Register {
        media_id: 1,
        path: "a.mp4".to_string(),
    });
    queue.triage(StripMsg::Waveform {
        media_id: 2,
        k: 3,
        times_us: vec![8],
    });
    assert!(matches!(
        queue.next_work(),
        Some(StripWork::Waveform { media_id: 2, k: 3, .. })
    ));
    assert!(matches!(
        queue.next_work(),
        Some(StripWork::Filmstrip { media_id: 1, .. })
    ));
    assert!(queue.next_work().is_none());
}

#[test]
fn peaks_are_decoded_once() {
    let mut queue = StripQueue::new();
    assert!(matches!(queue.ensure_peaks(1), PeakAction::Unavailable));
    queue.triage(StripMsg::Register {
        media_id: 2,
        path: "b.wav".to_string(),
    });
    match queue.ensure_peaks(2) {
        PeakAction::Decode { path } => assert_eq!(path, "b.wav"),
        other => panic!("{other:?}"),
    }
    queue.peaks_decoded(2, true);
    assert!(matches!(queue.ensure_peaks(2), PeakAction::Ready));
    queue.triage(StripMsg::Register {
        media_id: 3,
        path: "c.wav".to_string(),
    });
    queue.peaks_decoded(3, false);
    assert!(matches!(queue.ensure_peaks(3), PeakAction::Unavailable));
}
