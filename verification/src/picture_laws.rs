//! What strips and waveform pictures are for: laws on which tiles are asked for, and on
//! which pixels the bars cover.

use vstd::prelude::*;

use crate::find::lemma_filter_members;
use crate::strips::{clear, lookable, range_keys, tile_key, touched, wanted, wave_bar, wave_paint,
    TileEntry, TileKey, TileRange};
use crate::thumbnails::{bar_width, card, card_bar, card_paint, slot};

verus! {

// --- tiles ----------------------------------------------------------------

/// The key of the tile of a media on a grid that starts after `i` intervals.
pub open spec fn is_tile(key: TileKey, media: u64, range: TileRange, i: int) -> bool {
    key.media == media && key.k == range.k && key.at_us == i * range.interval_us
}

/// The key is one of a tile of the range.
pub open spec fn in_range(key: TileKey, media: u64, range: TileRange) -> bool {
    exists|i: int| range.i0 <= i <= range.i1 && #[trigger] is_tile(key, media, range, i)
}

proof fn lemma_range_key(media: u64, range: TileRange, i: int)
    requires
        lookable(range),
        range.i0 <= i <= range.i1,
    ensures
        is_tile(tile_key(media, range, i), media, range, i),
{
    let (a, b, n) = (range.i0 as int, range.i1 as int, range.interval_us as int);
    assert(a * n <= i * n <= b * n) by (nonlinear_arith)
        requires
            a <= i <= b,
            n > 0,
    ;
}

/// A look-up asks for exactly the tiles of its range that are neither decoded nor on their
/// way.
pub proof fn law_missing_tiles_are_asked_for(
    entries: Seq<TileEntry>,
    pending: Seq<TileKey>,
    media: u64,
    range: TileRange,
)
    requires
        lookable(range),
    ensures
        forall|key: TileKey| #[trigger]
            range_keys(media, range).filter(wanted(entries, pending)).contains(key) == (in_range(
                key,
                media,
                range,
            ) && (forall|e: int| 0 <= e < entries.len() ==> (#[trigger] entries[e]).key != key)
                && !pending.contains(key)),
        forall|key: TileKey| #[trigger]
            range_keys(media, range).contains(key) == in_range(key, media, range),
        range_keys(media, range).len() == range.i1 - range.i0 + 1,
{
    let keys = range_keys(media, range);
    let f = wanted(entries, pending);
    lemma_filter_members(keys, f);
    assert forall|key: TileKey| #[trigger] keys.contains(key) == in_range(key, media, range) by {
        if keys.contains(key) {
            let j = choose|j: int| 0 <= j < keys.len() && keys[j] == key;
            lemma_range_key(media, range, range.i0 + j);
            assert(is_tile(key, media, range, range.i0 + j));
        }
        if in_range(key, media, range) {
            let i = choose|i: int|
                range.i0 <= i <= range.i1 && #[trigger] is_tile(key, media, range, i);
            lemma_range_key(media, range, i);
            assert(keys[i - range.i0] == key);
        }
    }
}

/// A look-up marks exactly the tiles of its range as used now, and no tile turns into
/// another.
pub proof fn law_looked_at_tiles_are_fresh(e: TileEntry, media: u64, range: TileRange, tick: u64)
    requires
        lookable(range),
    ensures
        touched(e, range_keys(media, range), tick).key == e.key,
        in_range(e.key, media, range) ==> touched(e, range_keys(media, range), tick).last_used
            == tick,
        !in_range(e.key, media, range) ==> touched(e, range_keys(media, range), tick) == e,
{
    law_missing_tiles_are_asked_for(Seq::empty(), Seq::empty(), media, range);
    assert(range_keys(media, range).contains(e.key) == in_range(e.key, media, range));
}

// --- waveform tiles -------------------------------------------------------

/// Half the height of a bar in a tile: its peak, at least one pixel, and at most what
/// leaves two pixels of margin.
pub open spec fn half_in_tile(peak: usize, height: int) -> int {
    let most = if height / 2 - 2 < 1 {
        1
    } else {
        height / 2 - 2
    };
    if peak < 1 {
        1
    } else if peak > most {
        most
    } else {
        peak as int
    }
}

/// A waveform tile has a bar for each peak that it has room for: three columns of bar and
/// one of gap, as high above the middle as below it. What has no peak stays clear.
pub proof fn law_wave_bars_stand_for_peaks(
    heights: Seq<usize>,
    width: int,
    height: int,
    bar: int,
    column: int,
    y: int,
)
    requires
        0 <= bar,
        0 <= column < 4,
        4 * bar + 4 <= width,
    ensures
        ({
            let paint = wave_paint(heights, width, height);
            let mid = height / 2;
            &&& bar >= heights.len() || column == 3 ==> paint(4 * bar + column, y) == clear()
            &&& bar < heights.len() && column < 3 ==> paint(4 * bar + column, y) == (if mid
                - half_in_tile(heights[bar], height) <= y < mid + half_in_tile(
                heights[bar],
                height,
            ) {
                wave_bar()
            } else {
                clear()
            })
            &&& paint(4 * bar + column, mid + y) == paint(4 * bar + column, mid - 1 - y)
        }),
{
    let x = 4 * bar + column;
    assert(x / 4 == bar && x % 4 == column);
    assert(bar < width / 4);
}

// --- waveform cards -------------------------------------------------------

/// Half the height of a bar on a card: its peak, pulled between a fiftieth of the card and
/// two fifths of it, at least one pixel.
pub open spec fn half_on_card(peak: u32, height: int) -> int {
    let least = if height / 50 < 1 {
        1
    } else {
        height / 50
    };
    let most = if height / 2 - height / 10 < 1 {
        1
    } else {
        height / 2 - height / 10
    };
    if peak < least {
        least
    } else if peak > most {
        most
    } else {
        peak as int
    }
}

/// A waveform card has a bar for each peak, centred in a slot of its own, as high above
/// the middle as below it; the rest of the slot shows the card. A bar that does not fit on
/// the card is left away whole.
pub proof fn law_card_bars_stand_for_peaks(
    heights: Seq<u32>,
    width: int,
    height: int,
    bar: int,
    column: int,
    y: int,
)
    requires
        0 <= bar < heights.len(),
        0 <= height,
        0 <= width,
        0 <= column < slot(width, heights.len() as int),
    ensures
        ({
            let s = slot(width, heights.len() as int);
            let w = bar_width(s);
            let left = (s - w) / 2;
            let x = bar * s + column;
            let paint = card_paint(heights, width, height);
            let mid = height / 2;
            &&& 1 <= w <= s
            &&& 0 <= (s - w) - 2 * left <= 1
            &&& column < left || column >= left + w || bar * s + left + w > width ==> paint(x, y)
                == card()
            &&& left <= column < left + w && bar * s + left + w <= width ==> paint(x, y) == (if mid
                - half_on_card(heights[bar], height) <= y < mid + half_on_card(
                heights[bar],
                height,
            ) {
                card_bar()
            } else {
                card()
            })
            &&& paint(x, mid + y) == paint(x, mid - 1 - y)
        }),
{
    let s = slot(width, heights.len() as int);
    let x = bar * s + column;
    assert(x / s == bar) by (nonlinear_arith)
        requires
            x == bar * s + column,
            0 <= column < s,
    ;
}

} // verus!
