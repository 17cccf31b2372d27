//! Library tile thumbnails: which kind a media gets, and the waveform card.

use vstd::prelude::*;

use crate::model::Color;
use crate::num::{clamp, max_int};
use crate::raster::{has_pixels, is_image, lemma_no_rows, lemma_row_done, push_pixel};

verus! {

/// What a thumbnail is made from.
#[derive(Clone, Copy, Debug, PartialEq, Eq, Structural)]
pub enum ThumbKind {
    Video,
    Audio,
    /// A still image: the tile shows the picture itself.
    Image,
}

/// Card behind the bars.
pub open spec fn card() -> Color {
    Color { red: 0x2a, green: 0x46, blue: 0xc8, alpha: 0xff }
}

/// Bars on the card.
pub open spec fn card_bar() -> Color {
    Color { red: 0xa9, green: 0xc0, blue: 0xff, alpha: 0xff }
}

/// Columns per bar.
pub open spec fn slot(width: int, bars: int) -> int {
    max_int(width / bars, 1)
}

/// Columns that a bar paints.
pub open spec fn bar_width(slot: int) -> int {
    max_int(slot * 3 / 5, 1)
}

/// Half the height of the loudest bar.
pub open spec fn loudest(height: int) -> int {
    max_int(height / 2 - height / 10, 1)
}

/// Half the height of the quietest bar.
pub open spec fn quietest(height: int) -> int {
    max_int(height / 50, 1)
}

/// Half the height of the loudest bar: about 90% of half the card.
pub fn waveform_max_half(height: u32) -> (r: u32)
    ensures
        r == loudest(height as int),
{
    let half: u32 = height / 2 - height / 10;
    if half < 1 {
        1
    } else {
        half
    }
}

/// Whether a bar covers the pixel: bars centred in their slots, mirrored around
/// the middle; a bar that would stick out on the right is left away.
pub open spec fn card_covers(heights: Seq<u32>, width: int, height: int, x: int, y: int) -> bool {
    let s = slot(width, heights.len() as int);
    let w = bar_width(s);
    let bar = x / s;
    let x0 = bar * s + (s - w) / 2;
    let half = clamp(heights[bar] as int, quietest(height), loudest(height));
    &&& bar < heights.len()
    &&& x0 <= x < x0 + w
    &&& x0 + w <= width
    &&& height / 2 - half <= y < height / 2 + half
}

/// What a waveform card shows.
pub open spec fn card_paint(heights: Seq<u32>, width: int, height: int) -> spec_fn(
    int,
    int,
) -> Color {
    |x: int, y: int|
        if heights.len() > 0 && card_covers(heights, width, height, x, y) {
            card_bar()
        } else {
            card()
        }
}

/// Draw mirrored peak bars onto a solid card. `heights[b]` is half the height of
/// bar `b` before it is pulled between the quietest and the loudest.
pub fn render_waveform(heights: &Vec<u32>, width: u32, height: u32) -> (r: (u32, u32, Vec<u8>))
    requires
        width * height * 4 <= usize::MAX,
    ensures
        r.0 == width,
        r.1 == height,
        is_image(
            r.2@,
            width as int,
            height as int,
            card_paint(heights@, width as int, height as int),
        ),
{
    let ghost paint = card_paint(heights@, width as int, height as int);
    let bars: u64 = heights.len() as u64;
    let (wide, high): (u64, u64) = (width as u64, height as u64);
    let slot: u64 = if bars == 0 || wide / bars < 1 {
        1
    } else {
        wide / bars
    };
    let bar_w: u64 = if slot * 3 / 5 < 1 {
        1
    } else {
        slot * 3 / 5
    };
    let inset: u64 = (slot - bar_w) / 2;
    let mid: u64 = high / 2;
    let tallest: u64 = waveform_max_half(height) as u64;
    let lowest: u64 = if high / 50 < 1 {
        1
    } else {
        high / 50
    };
    let mut out: Vec<u8> = Vec::new();
    let mut y: u64 = 0;
    proof {
        lemma_no_rows(width as int, paint);
    }
    while y < high
        invariant
            y <= high,
            wide == width,
            high == height,
            bars == heights.len(),
            paint == card_paint(heights@, width as int, height as int),
            bars > 0 ==> slot == self::slot(width as int, heights@.len() as int),
            slot >= 1,
            slot <= wide || slot == 1,
            bar_w == bar_width(slot as int),
            bar_w <= slot,
            inset == (slot - bar_w) / 2,
            mid == high / 2,
            tallest == loudest(height as int),
            lowest == quietest(height as int),
            has_pixels(out@, width as int, y as int, 0, paint),
        decreases high - y,
    {
        let mut x: u64 = 0;
        while x < wide
            invariant
                x <= wide,
                y < high,
                wide == width,
                high == height,
                bars == heights.len(),
                paint == card_paint(heights@, width as int, height as int),
                bars > 0 ==> slot == self::slot(width as int, heights@.len() as int),
                slot >= 1,
                slot <= wide || slot == 1,
                bar_w == bar_width(slot as int),
                bar_w <= slot,
                inset == (slot - bar_w) / 2,
                mid == high / 2,
                tallest == loudest(height as int),
                lowest == quietest(height as int),
                has_pixels(out@, width as int, y as int, x as int, paint),
            decreases wide - x,
        {
            let bar: u64 = x / slot;
            let mut covered: bool = false;
            proof {
                vstd::arithmetic::div_mod::lemma_fundamental_div_mod(x as int, slot as int);
                let (b, s) = (bar as int, slot as int);
                assert(0 <= b * s <= x && b <= x) by (nonlinear_arith)
                    requires
                        x as int == s * b + (x as int) % s,
                        0 <= (x as int) % s,
                        s >= 1,
                        b >= 0,
                ;
            }
            if bar < bars {
                let x0: u64 = bar * slot + inset;
                let raw: u64 = heights[bar as usize] as u64;
                let half: u64 = if raw < lowest {
                    lowest
                } else if raw > tallest {
                    tallest
                } else {
                    raw
                };
                covered = x0 <= x && x < x0 + bar_w && x0 + bar_w <= wide && y + half >= mid && y
                    < mid + half;
            }
            let color = if covered {
                Color { red: 0xa9, green: 0xc0, blue: 0xff, alpha: 0xff }
            } else {
                Color { red: 0x2a, green: 0x46, blue: 0xc8, alpha: 0xff }
            };
            assert(color == paint(x as int, y as int));
            push_pixel(
                &mut out,
                color,
                Ghost(width as int),
                Ghost(y as int),
                Ghost(x as int),
                Ghost(paint),
            );
            x += 1;
        }
        proof {
            lemma_row_done(out@, width as int, y as int, paint);
        }
        y += 1;
    }
    (width, height, out)
}

/// A louder peak paints at least what a quieter one does.
pub proof fn law_louder_is_taller(a: u32, b: u32, height: int)
    requires
        a <= b,
        height >= 0,
    ensures
        clamp(a as int, quietest(height), loudest(height)) <= clamp(
            b as int,
            quietest(height),
            loudest(height),
        ),
{
}

} // verus!
