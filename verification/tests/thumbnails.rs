use cutlass_ui::thumbnails::{render_waveform, waveform_max_half, ThumbKind};

const WAVEFORM_BG: [u8; 4] = [0x2A, 0x46, 0xC8, 0xFF];
const WAVEFORM_BAR: [u8; 4] = [0xA9, 0xC0, 0xFF, 0xFF];

/// The card of peaks in `0..=1`.
fn waveform(peaks: &[f32], width: u32, height: u32) -> (u32, u32, Vec<u8>) {
    let tallest = f64::from(waveform_max_half(height));
    let heights: Vec<u32> = peaks
        .iter()
        .map(|p| (f64::from(p.clamp(0.0, 1.0)) * tallest) as u32)
        .collect();
    render_waveform(&heights, width, height)
}

#[test]
fn waveform_paints_bars_on_background() {
    let (w, h, rgba) = waveform(&[0.0, 0.5, 1.0], 50, 50);
    assert_eq!((w, h), (50, 50));
    assert_eq!(rgba.len(), 50 * 50 * 4);

    let count = |color: [u8; 4]| rgba.chunks_exact(4).filter(|px| *px == color).count();
    let bar = count(WAVEFORM_BAR);
    let bg = count(WAVEFORM_BG);
    assert!(bar > 0, "bars should be painted");
    assert!(bg > 0, "background should remain visible");
    assert_eq!(bar + bg, 50 * 50, "only palette colors are painted");
}

#[test]
fn waveform_with_no_peaks_is_solid_card() {
    let (_, _, rgba) = waveform(&[], 10, 10);
    assert!(rgba.chunks_exact(4).all(|px| px == WAVEFORM_BG));
}

#[test]
fn louder_peaks_paint_taller_bars() {
    let quiet = waveform(&[0.1], 20, 100).2;
    let loud = waveform(&[1.0], 20, 100).2;
    let bars = |buf: &[u8]| buf.chunks_exact(4).filter(|px| *px == WAVEFORM_BAR).count();
    assert!(bars(&loud) > bars(&quiet));
}

#[test]
fn bars_stand_centred_in_their_slots() {
    // One slot of 20 columns: a bar of 12, four columns in; 80 rows tall.
    let (_, _, rgba) = waveform(&[1.0], 20, 100);
    let px = |x: usize, y: usize| {
        let i = (y * 20 + x) * 4;
        [rgba[i], rgba[i + 1], rgba[i + 2], rgba[i + 3]]
    };
    assert_eq!(px(3, 50), WAVEFORM_BG);
    assert_eq!(px(4, 50), WAVEFORM_BAR);
    assert_eq!(px(15, 50), WAVEFORM_BAR);
    assert_eq!(px(16, 50), WAVEFORM_BG);
    assert_eq!(px(4, 9), WAVEFORM_BG);
    assert_eq!(px(4, 10), WAVEFORM_BAR);
    assert_eq!(px(4, 89), WAVEFORM_BAR);
    assert_eq!(px(4, 90), WAVEFORM_BG);
}

#[test]
fn thumbnail_kinds_differ() {
    assert_ne!(ThumbKind::Video, ThumbKind::Image);
    assert_ne!(ThumbKind::Audio, ThumbKind::Image);
}
