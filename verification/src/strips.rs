//! Filmstrip and waveform tiles: the power-of-two time grid, the registry of
//! decoded tiles, the strip worker's queue, and the waveform raster.
//!
//! A tile is asked for at most once while it is on its way, and the tiles that
//! were looked at last survive when the registry is full.

use std::collections::HashMap;
use std::collections::HashSet;
use vstd::arithmetic::power2::{lemma2_to64, lemma_pow2_adds, lemma_pow2_pos, lemma_pow2_unfold,
    pow2};
use vstd::bits::{lemma_u64_shl_is_mul, lemma_u64_shr_is_div};
use vstd::prelude::*;

use crate::find::{lemma_filter_members, lemma_filter_take};
use crate::model::Color;
use crate::num::{clamp, max_int};
use crate::text::{parse_raw_id, raw_id};
use crate::raster::{has_pixels, is_image, lemma_no_rows, lemma_row_done, push_pixel};
use crate::order::{
    key_leq, key_order, lemma_sort_members, lemma_stable_sort, pair_int, pair_leq, positions,
    sort_positions, total_preorder, upto,
};

verus! {

/// Finest tile interval: 2^-6 s.
pub const MIN_K: i32 = -6;

/// Coarsest tile interval: 2^26 s.
pub const MAX_K: i32 = 26;

/// Upper bound on the tiles of one request.
pub const MAX_TILES: i64 = 256;

/// Tiles that the registry holds before it evicts.
pub const CACHE_CAP: usize = 1024;

/// Tiles that an eviction leaves.
pub const CACHE_KEEP: usize = 768;

// --- the grid -------------------------------------------------------------

/// Microseconds of a tile that covers `2^k` seconds.
pub open spec fn interval(k: int) -> int {
    if k >= 0 {
        1_000_000int * (pow2(k as nat) as int)
    } else {
        1_000_000int / (pow2((-k) as nat) as int)
    }
}

/// Microseconds per tile of `2^k` seconds.
pub fn interval_us_for(k: i32) -> (r: i64)
    requires
        -63 <= k <= 43,
    ensures
        r == interval(k as int),
{
    if k >= 0 {
        proof {
            lemma2_to64();
            if k < 43 {
                vstd::arithmetic::power2::lemma_pow2_strictly_increases(k as nat, 43);
            }
            assert(pow2(43) == 0x800_0000_0000) by {
                lemma_pow2_adds(32, 11);
            }
            lemma_u64_shl_is_mul(1_000_000, k as u64);
        }
        let shifted: u64 = 1_000_000u64 << (k as u64);
        shifted as i64
    } else {
        let by: u64 = (-k) as u64;
        proof {
            lemma_u64_shr_is_div(1_000_000, by);
            lemma_pow2_pos(by as nat);
            vstd::arithmetic::div_mod::lemma_div_nonincreasing(1_000_000, pow2(by as nat) as int);
        }
        let shifted: u64 = 1_000_000u64 >> by;
        assert(shifted <= 1_000_000);
        shifted as i64
    }
}

/// Over the allowed range the interval is exact: it is `2^k` seconds to the
/// microsecond.
pub proof fn law_interval_is_exact(k: int)
    requires
        MIN_K <= k < 0,
    ensures
        interval(k) * pow2((-k) as nat) == 1_000_000,
{
    lemma2_to64();
    let p = pow2((-k) as nat) as int;
    assert(p == 2 || p == 4 || p == 8 || p == 16 || p == 32 || p == 64);
}

/// Coarser grids nest in finer ones: each tile is two tiles of the next finer
/// grid, so every key of a grid is a key of all finer ones.
pub proof fn law_grids_nest(k: int, i: int)
    requires
        MIN_K <= k < MAX_K,
    ensures
        interval(k + 1) == 2 * interval(k),
        i * interval(k + 1) == (2 * i) * interval(k),
{
    if k >= 0 {
        lemma_pow2_unfold((k + 1) as nat);
    } else {
        lemma2_to64();
        assert(interval(0) == 1_000_000);
        assert(pow2((-(-1int)) as nat) == 2);
        assert(interval(-1) == 500_000);
        assert(pow2((-(-2int)) as nat) == 4);
        assert(interval(-2) == 250_000);
        assert(pow2((-(-3int)) as nat) == 8);
        assert(interval(-3) == 125_000);
        assert(pow2((-(-4int)) as nat) == 16);
        assert(interval(-4) == 62_500);
        assert(pow2((-(-5int)) as nat) == 32);
        assert(interval(-5) == 31_250);
        assert(pow2((-(-6int)) as nat) == 64);
        assert(interval(-6) == 15_625);
    }
    let (a, b) = (interval(k), interval(k + 1));
    assert(i * b == (2 * i) * a) by (nonlinear_arith)
        requires
            b == 2 * a,
    ;
}

/// The tiles `i0..=i1` of the grid `k`.
#[derive(Clone, Copy, Debug, PartialEq, Eq, Structural)]
pub struct TileRange {
    pub k: i32,
    pub interval_us: i64,
    pub i0: i64,
    pub i1: i64,
}

/// The tiles to show between two grid positions: from tile 0 on, at least one,
/// at most [`MAX_TILES`].
pub fn tile_range(k: i32, lo: i64, hi: i64) -> (r: TileRange)
    requires
        MIN_K <= k <= MAX_K,
        lo <= i64::MAX - MAX_TILES,
    ensures
        r.k == k,
        r.interval_us == interval(k as int),
        r.i0 == max_int(lo as int, 0),
        r.i1 == clamp(hi as int, r.i0 as int, r.i0 + MAX_TILES - 1),
        0 <= r.i0 <= r.i1,
        r.i1 - r.i0 < MAX_TILES,
{
    let i0: i64 = if lo < 0 {
        0
    } else {
        lo
    };
    let last: i64 = i0 + (MAX_TILES - 1);
    let i1: i64 = if hi < i0 {
        i0
    } else if hi > last {
        last
    } else {
        hi
    };
    TileRange { k, interval_us: interval_us_for(k), i0, i1 }
}

// --- the registry ---------------------------------------------------------

/// A tile: a media, a time on its grid, and the grid.
#[derive(Clone, Copy, Debug, PartialEq, Eq, Structural)]
pub struct TileKey {
    pub media: u64,
    pub at_us: i64,
    pub k: i32,
}

/// A decoded tile and when it was last looked at.
#[derive(Clone, Copy, Debug, PartialEq, Eq, Structural)]
pub struct TileEntry {
    pub key: TileKey,
    pub last_used: u64,
}

/// The decoded tiles, the tiles that are on their way, and the use counter.
#[derive(Debug)]
pub struct TileRegistry {
    pub entries: Vec<TileEntry>,
    pub pending: Vec<TileKey>,
    pub tick: u64,
}

/// What a look at the registry found.
#[derive(Debug)]
pub struct TileLookup {
    /// For each tile of the range, whether it is decoded.
    pub decoded: Vec<bool>,
    /// Times to ask the worker for: not decoded and not on their way.
    pub request: Vec<i64>,
}

/// The key of tile `i`.
pub open spec fn tile_key(media: u64, range: TileRange, i: int) -> TileKey {
    TileKey { media, at_us: (i * range.interval_us) as i64, k: range.k }
}

/// The keys of a range, in order.
pub open spec fn range_keys(media: u64, range: TileRange) -> Seq<TileKey> {
    Seq::new((range.i1 - range.i0 + 1) as nat, |j: int| tile_key(media, range, range.i0 + j))
}

/// A key is decoded.
pub open spec fn holds(entries: Seq<TileEntry>, key: TileKey) -> bool {
    exists|i: int| 0 <= i < entries.len() && (#[trigger] entries[i]).key == key
}

/// Keys to ask for.
pub open spec fn wanted(entries: Seq<TileEntry>, pending: Seq<TileKey>) -> spec_fn(TileKey) -> bool {
    |key: TileKey| !holds(entries, key) && !pending.contains(key)
}

/// An entry after the tiles in `keys` were looked at.
pub open spec fn touched(e: TileEntry, keys: Seq<TileKey>, tick: u64) -> TileEntry {
    TileEntry {
        key: e.key,
        last_used: if keys.contains(e.key) {
            tick
        } else {
            e.last_used
        },
    }
}

/// The times of keys.
pub open spec fn times_of(keys: Seq<TileKey>) -> Seq<i64> {
    keys.map_values(|key: TileKey| key.at_us)
}

/// No key occurs twice.
pub open spec fn distinct(entries: Seq<TileEntry>) -> bool {
    forall|i: int, j: int|
        0 <= i < j < entries.len() ==> (#[trigger] entries[i]).key != (#[trigger] entries[j]).key
}

fn find_entry(entries: &Vec<TileEntry>, key: TileKey) -> (r: Option<usize>)
    ensures
        match r {
            Some(i) => i < entries.len() && entries@[i as int].key == key,
            None => !holds(entries@, key),
        },
{
    let mut i: usize = 0;
    while i < entries.len()
        invariant
            i <= entries.len(),
            forall|j: int| 0 <= j < i ==> (#[trigger] entries@[j]).key != key,
        decreases entries.len() - i,
    {
        if entries[i].key == key {
            return Some(i);
        }
        i += 1;
    }
    None
}

fn is_pending(pending: &Vec<TileKey>, key: TileKey) -> (r: bool)
    ensures
        r == pending@.contains(key),
{
    let mut i: usize = 0;
    while i < pending.len()
        invariant
            i <= pending.len(),
            forall|j: int| 0 <= j < i ==> pending@[j] != key,
        decreases pending.len() - i,
    {
        if pending[i] == key {
            assert(pending@[i as int] == key);
            return true;
        }
        i += 1;
    }
    false
}

proof fn lemma_range_keys_distinct(media: u64, range: TileRange)
    requires
        range.interval_us > 0,
        range.i0 <= range.i1,
        i64::MIN <= range.i0 * range.interval_us,
        range.i1 * range.interval_us <= i64::MAX,
    ensures
        range_keys(media, range).no_duplicates(),
        forall|i: int|
            range.i0 <= i <= range.i1 ==> i64::MIN <= #[trigger] (i * range.interval_us)
                <= i64::MAX,
{
    let n = range.interval_us as int;
    assert forall|i: int| range.i0 <= i <= range.i1 implies i64::MIN <= #[trigger] (i
        * range.interval_us) <= i64::MAX by {
        let (a, b) = (range.i0 as int, range.i1 as int);
        assert(a * n <= i * n <= b * n) by (nonlinear_arith)
            requires
                a <= i <= b,
                n > 0,
        ;
    }
    let keys = range_keys(media, range);
    assert forall|x: int, y: int| 0 <= x < y < keys.len() implies keys[x] != keys[y] by {
        let (i, j) = (range.i0 + x, range.i0 + y);
        assert(i * n < j * n) by (nonlinear_arith)
            requires
                i < j,
                n > 0,
        ;
        assert(i64::MIN <= i * range.interval_us <= i64::MAX);
        assert(i64::MIN <= j * range.interval_us <= i64::MAX);
    }
}

impl TileRegistry {
    /// No tile is held twice.
    pub open spec fn wf(&self) -> bool {
        distinct(self.entries@)
    }

    /// An empty registry.
    pub fn new() -> (r: Self)
        ensures
            r.wf(),
            r.entries@ == Seq::<TileEntry>::empty(),
            r.pending@ == Seq::<TileKey>::empty(),
            r.tick == 0,
    {
        TileRegistry { entries: Vec::new(), pending: Vec::new(), tick: 0 }
    }

    /// Count one use.
    pub fn next_use_tick(&mut self) -> (r: u64)
        requires
            old(self).tick < u64::MAX,
        ensures
            r == old(self).tick + 1,
            *final(self) == (TileRegistry { tick: r, ..*old(self) }),
    {
        self.tick = self.tick + 1;
        self.tick
    }

    /// Look up the tiles of a range: decoded ones are marked as used now, and
    /// the missing ones that are not on their way yet are to be asked for.
    pub fn look_up(&mut self, media: u64, range: TileRange) -> (r: TileLookup)
        requires
            old(self).wf(),
            old(self).tick < u64::MAX,
            range.interval_us > 0,
            range.i0 <= range.i1,
            range.i1 - range.i0 < MAX_TILES,
            i64::MIN <= range.i0 * range.interval_us,
            range.i1 * range.interval_us <= i64::MAX,
        ensures
            final(self).wf(),
            final(self).tick == old(self).tick + 1,
            ({
                let keys = range_keys(media, range);
                let ask = keys.filter(wanted(old(self).entries@, old(self).pending@));
                &&& r.decoded@ == Seq::new(
                    keys.len(),
                    |j: int| holds(old(self).entries@, keys[j]),
                )
                &&& r.request@ == times_of(ask)
                &&& final(self).pending@ == old(self).pending@ + ask
                &&& final(self).entries@ == old(self).entries@.map_values(
                    |e: TileEntry| touched(e, keys, final(self).tick),
                )
            }),
    {
        let ghost keys = range_keys(media, range);
        let ghost entries0 = self.entries@;
        let ghost pending0 = self.pending@;
        let ghost want = wanted(entries0, pending0);
        proof {
            lemma_range_keys_distinct(media, range);
            reveal(Seq::filter);
        }
        let tick: u64 = self.next_use_tick();
        let mut decoded: Vec<bool> = Vec::new();
        let mut request: Vec<i64> = Vec::new();
        let count: usize = (range.i1 - range.i0) as usize + 1;
        let mut j: usize = 0;
        proof {
            assert(self.entries@ =~= entries0.map_values(
                |e: TileEntry| touched(e, keys.take(0), tick),
            ));
            assert(self.pending@ =~= pending0 + keys.take(0).filter(want));
            assert(request@ =~= times_of(keys.take(0).filter(want)));
            assert(decoded@ =~= Seq::new(0, |x: int| holds(entries0, keys[x])));
        }
        while j < count
            invariant
                j <= count,
                count == range.i1 - range.i0 + 1,
                count <= MAX_TILES,
                range.interval_us > 0,
                keys == range_keys(media, range),
                keys.no_duplicates(),
                want == wanted(entries0, pending0),
                forall|x: int|
                    range.i0 <= x <= range.i1 ==> i64::MIN <= #[trigger] (x * range.interval_us)
                        <= i64::MAX,
                distinct(entries0),
                self.tick == tick,
                self.entries@ == entries0.map_values(
                    |e: TileEntry| touched(e, keys.take(j as int), tick),
                ),
                self.pending@ == pending0 + keys.take(j as int).filter(want),
                request@ == times_of(keys.take(j as int).filter(want)),
                decoded@ == Seq::new(j as nat, |x: int| holds(entries0, keys[x])),
            decreases count - j,
        {
            let i: i64 = range.i0 + j as i64;
            assert(i64::MIN <= i * range.interval_us <= i64::MAX);
            let key = TileKey { media, at_us: i * range.interval_us, k: range.k };
            let ghost done = keys.take(j as int);
            let ghost next = keys.take(j as int + 1);
            proof {
                assert(keys[j as int] == key);
                assert(next =~= done.push(key));
                lemma_filter_take(keys, j as int, want);
                assert forall|x: TileKey| #[trigger] next.contains(x) == (done.contains(x) || x
                    == key) by {
                    if done.contains(x) {
                        let p = choose|p: int| 0 <= p < done.len() && done[p] == x;
                        assert(next[p] == x);
                    }
                    assert(next[j as int] == key);
                    if next.contains(x) {
                        let p = choose|p: int| 0 <= p < next.len() && next[p] == x;
                        if p < j {
                            assert(done[p] == x);
                        }
                    }
                }
            }
            let ghost before = self.entries@;
            match find_entry(&self.entries, key) {
                Some(at) => {
                    self.entries.set(at, TileEntry { key, last_used: tick });
                    decoded.push(true);
                    proof {
                        assert(entries0[at as int].key == key);
                        assert(holds(entries0, key));
                        assert forall|x: int| 0 <= x < self.entries@.len() implies #[trigger] self.entries@[x]
                            == touched(entries0[x], next, tick) by {
                            if x != at {
                                assert(entries0[x].key != key) by {
                                    if x < at {
                                        assert(entries0[x].key != entries0[at as int].key);
                                    } else {
                                        assert(entries0[at as int].key != entries0[x].key);
                                    }
                                }
                                assert(self.entries@[x] == touched(entries0[x], done, tick));
                            }
                        }
                    }
                },
                None => {
                    decoded.push(false);
                    proof {
                        if holds(entries0, key) {
                            let x = choose|x: int|
                                0 <= x < entries0.len() && (#[trigger] entries0[x]).key == key;
                            assert(before[x].key == key);
                        }
                        assert forall|x: int| 0 <= x < self.entries@.len() implies #[trigger] self.entries@[x]
                            == touched(entries0[x], next, tick) by {
                            assert(self.entries@[x] == touched(entries0[x], done, tick));
                            if entries0[x].key == key {
                                assert(holds(entries0, key));
                            }
                        }
                        // A key that is not pending yet was not pending before.
                        let asked = done.filter(want);
                        lemma_filter_members(done, want);
                        if self.pending@.contains(key) && !pending0.contains(key) {
                            let p = choose|p: int|
                                0 <= p < self.pending@.len() && self.pending@[p] == key;
                            assert(asked[p - pending0.len()] == key);
                            assert(asked.contains(key));
                            assert(done.contains(key));
                            let q = choose|q: int| 0 <= q < done.len() && done[q] == key;
                            assert(keys[q] == keys[j as int]);
                        }
                        if pending0.contains(key) {
                            let p = choose|p: int| 0 <= p < pending0.len() && pending0[p] == key;
                            assert(self.pending@[p] == key);
                        }
                    }
                    if !is_pending(&self.pending, key) {
                        assert(want(key));
                        self.pending.push(key);
                        request.push(key.at_us);
                        assert(self.pending@ =~= pending0 + done.filter(want).push(key));
                        assert(request@ =~= times_of(done.filter(want).push(key)));
                    }
                },
            }
            proof {
                assert(self.entries@ =~= entries0.map_values(
                    |e: TileEntry| touched(e, next, tick),
                ));
                assert(decoded@ =~= Seq::new((j + 1) as nat, |x: int| holds(entries0, keys[x])));
                assert(self.pending@ =~= pending0 + next.filter(want));
            }
            j += 1;
        }
        proof {
            assert(keys.take(j as int) =~= keys);
            assert(decoded@ =~= Seq::new(keys.len(), |x: int| holds(entries0, keys[x])));
        }
        TileLookup { decoded, request }
    }
}

/// A look-up that shows nothing.
pub open spec fn shows_nothing(l: TileLookup) -> bool {
    l.decoded.len() == 0 && l.request.len() == 0
}

/// The range in which filmstrip frames are kept: a frame is the same at every zoom,
/// so all grids share one.
pub open spec fn frame_range(range: TileRange) -> TileRange {
    TileRange { k: 0, ..range }
}

/// The range can be looked up.
pub open spec fn lookable(range: TileRange) -> bool {
    &&& range.interval_us > 0
    &&& range.i0 <= range.i1
    &&& range.i1 - range.i0 < MAX_TILES
    &&& i64::MIN <= range.i0 * range.interval_us
    &&& range.i1 * range.interval_us <= i64::MAX
}

/// What a look-up of a media's tiles came to: nothing for an id that names no media
/// or without a range, else the registry's answer.
pub open spec fn looked_up(
    before: TileRegistry,
    after: TileRegistry,
    r: TileLookup,
    media_id: Seq<char>,
    range: Option<TileRange>,
) -> bool {
    match (raw_id(media_id), range) {
        (Some(media), Some(range)) => {
            let keys = range_keys(media, range);
            let ask = keys.filter(wanted(before.entries@, before.pending@));
            &&& after.tick == before.tick + 1
            &&& r.decoded@ == Seq::new(keys.len(), |j: int| holds(before.entries@, keys[j]))
            &&& r.request@ == times_of(ask)
            &&& after.pending@ == before.pending@ + ask
            &&& after.entries@ == before.entries@.map_values(
                |e: TileEntry| touched(e, keys, after.tick),
            )
        },
        _ => shows_nothing(r) && after == before,
    }
}

/// Look up the visible filmstrip tiles of a video clip.
pub fn filmstrip_tiles(registry: &mut TileRegistry, media_id: &str, range: Option<TileRange>) -> (r:
    TileLookup)
    requires
        old(registry).wf(),
        old(registry).tick < u64::MAX,
        range matches Some(x) ==> lookable(x),
    ensures
        final(registry).wf(),
        looked_up(
            *old(registry),
            *final(registry),
            r,
            media_id@,
            match range {
                Some(x) => Some(frame_range(x)),
                None => None,
            },
        ),
{
    match (parse_raw_id(media_id), range) {
        (Some(media), Some(x)) => registry.look_up(
            media,
            TileRange { k: 0, interval_us: x.interval_us, i0: x.i0, i1: x.i1 },
        ),
        _ => TileLookup { decoded: Vec::new(), request: Vec::new() },
    }
}

/// Look up the visible waveform tiles of an audio clip.
pub fn waveform_tiles(registry: &mut TileRegistry, media_id: &str, range: Option<TileRange>) -> (r:
    TileLookup)
    requires
        old(registry).wf(),
        old(registry).tick < u64::MAX,
        range matches Some(x) ==> lookable(x),
    ensures
        final(registry).wf(),
        looked_up(*old(registry), *final(registry), r, media_id@, range),
{
    match (parse_raw_id(media_id), range) {
        (Some(media), Some(x)) => registry.look_up(media, x),
        _ => TileLookup { decoded: Vec::new(), request: Vec::new() },
    }
}

/// A tile is asked for at most once: what a look-up asks for was not on its way
/// before, is on its way after, and is not asked for by the next look-up.
pub proof fn law_tiles_are_requested_once(
    entries: Seq<TileEntry>,
    pending: Seq<TileKey>,
    keys: Seq<TileKey>,
    again: Seq<TileKey>,
    later_entries: Seq<TileEntry>,
    key: TileKey,
)
    requires
        keys.filter(wanted(entries, pending)).contains(key),
    ensures
        !pending.contains(key),
        !again.filter(
            wanted(later_entries, pending + keys.filter(wanted(entries, pending))),
        ).contains(key),
{
    lemma_filter_members(keys, wanted(entries, pending));
    let ask = keys.filter(wanted(entries, pending));
    let now = pending + ask;
    let p = choose|p: int| 0 <= p < ask.len() && ask[p] == key;
    assert(now[pending.len() + p] == key);
    lemma_filter_members(again, wanted(later_entries, now));
}

// --- delivery and eviction ------------------------------------------------

/// The keys of delivered times.
pub open spec fn delivered_keys(media: u64, k: i32, times: Seq<i64>) -> Seq<TileKey> {
    times.map_values(|t: i64| TileKey { media, at_us: t, k })
}

/// `after` is `before` with every key of `keys` decoded and used at `tick`.
pub open spec fn recorded(
    before: Seq<TileEntry>,
    keys: Seq<TileKey>,
    tick: u64,
    after: Seq<TileEntry>,
) -> bool {
    &&& distinct(after)
    &&& forall|key: TileKey| #[trigger]
        holds(after, key) == (holds(before, key) || keys.contains(key))
    &&& forall|i: int|
        0 <= i < after.len() ==> if keys.contains((#[trigger] after[i]).key) {
            after[i].last_used == tick
        } else {
            before.contains(after[i])
        }
}

/// `after` is what an eviction leaves of `before`: all of it when it fits, else
/// the [`CACHE_KEEP`] entries that were used last.
pub open spec fn evicted(before: Seq<TileEntry>, after: Seq<TileEntry>) -> bool {
    if before.len() <= CACHE_CAP {
        after == before
    } else {
        &&& after.len() == CACHE_KEEP
        &&& distinct(after)
        &&& forall|i: int| 0 <= i < after.len() ==> before.contains(#[trigger] after[i])
        &&& forall|i: int, j: int|
            0 <= i < after.len() && 0 <= j < before.len() && !holds(after, before[j].key)
                ==> (#[trigger] before[j]).last_used <= (#[trigger] after[i]).last_used
    }
}

/// `dropped` are the keys that `before` holds and `after` does not.
pub open spec fn dropped_from(
    before: Seq<TileEntry>,
    after: Seq<TileEntry>,
    dropped: Seq<TileKey>,
) -> bool {
    forall|key: TileKey| #[trigger]
        dropped.contains(key) == (holds(before, key) && !holds(after, key))
}

/// Use counters as keys that sort like them.
fn age_keys(entries: &Vec<TileEntry>) -> (r: Vec<(i64, i64)>)
    ensures
        r.len() == entries.len(),
        forall|i: int, j: int|
            0 <= i < r.len() && 0 <= j < r.len() ==> (pair_leq(
                pair_int(#[trigger] r@[i]),
                pair_int(#[trigger] r@[j]),
            ) == (entries@[i].last_used <= entries@[j].last_used)),
{
    let mut out: Vec<(i64, i64)> = Vec::new();
    let mut i: usize = 0;
    while i < entries.len()
        invariant
            i <= entries.len(),
            out.len() == i,
            forall|j: int|
                0 <= j < i ==> (#[trigger] out@[j]).0 == entries@[j].last_used as int
                    / 0x1_0000_0000 && out@[j].1 == entries@[j].last_used as int % 0x1_0000_0000,
        decreases entries.len() - i,
    {
        let used: u64 = entries[i].last_used;
        out.push(((used / 0x1_0000_0000) as i64, (used % 0x1_0000_0000) as i64));
        i += 1;
    }
    out
}

spec fn occurs(order: Seq<usize>, p: int) -> bool {
    exists|a: int| 0 <= a < order.len() && #[trigger] order[a] == p
}

proof fn lemma_order_facts(keys: Seq<(i64, i64)>, order: Seq<usize>)
    requires
        positions(order) == key_order(keys),
    ensures
        order.len() == keys.len(),
        forall|a: int, b: int| 0 <= a < b < order.len() ==> order[a] != order[b],
        forall|p: int| 0 <= p < keys.len() ==> #[trigger] occurs(order, p),
        forall|a: int, b: int|
            0 <= a < b < order.len() ==> pair_leq(
                pair_int(keys[(#[trigger] order[a]) as int]),
                pair_int(keys[(#[trigger] order[b]) as int]),
            ),
{
    broadcast use vstd::seq_lib::group_to_multiset_ensures;

    let all = upto(keys.len());
    let leq = key_leq(keys);
    let sorted = key_order(keys);
    lemma_stable_sort(all, leq);
    lemma_sort_members(all, leq);
    assert(total_preorder(leq));
    assert(all.no_duplicates());
    all.lemma_multiset_has_no_duplicates();
    sorted.lemma_multiset_has_no_duplicates_conv();
    assert forall|a: int, b: int| 0 <= a < b < order.len() implies order[a] != order[b] by {
        assert(positions(order)[a] != positions(order)[b]);
    }
    assert forall|p: int| 0 <= p < keys.len() implies #[trigger] occurs(order, p) by {
        assert(all[p] == p);
        assert(all.contains(p));
        assert(sorted.contains(p));
        let a = choose|a: int| 0 <= a < sorted.len() && sorted[a] == p;
        assert(positions(order)[a] == p);
        assert(order[a] == p);
    }
    assert forall|a: int, b: int| 0 <= a < b < order.len() implies pair_leq(
        pair_int(keys[(#[trigger] order[a]) as int]),
        pair_int(keys[(#[trigger] order[b]) as int]),
    ) by {
        assert(leq(sorted[a], sorted[b]));
        assert(positions(order)[a] == sorted[a]);
        assert(positions(order)[b] == sorted[b]);
    }
}

impl TileRegistry {
    /// Drop the least recently used tiles once the registry exceeds its cap;
    /// returns their keys.
    pub fn evict_lru(&mut self) -> (r: Vec<TileKey>)
        requires
            old(self).wf(),
        ensures
            final(self).wf(),
            evicted(old(self).entries@, final(self).entries@),
            dropped_from(old(self).entries@, final(self).entries@, r@),
            final(self).pending@ == old(self).pending@,
            final(self).tick == old(self).tick,
    {
        let ghost before = self.entries@;
        let mut dropped: Vec<TileKey> = Vec::new();
        let n: usize = self.entries.len();
        if n <= CACHE_CAP {
            return dropped;
        }
        let ages = age_keys(&self.entries);
        let order = sort_positions(&ages);
        proof {
            lemma_order_facts(ages@, order@);
        }
        let cut: usize = n - CACHE_KEEP;
        let mut kept: Vec<TileEntry> = Vec::new();
        let mut i: usize = 0;
        while i < n
            invariant
                i <= n,
                n == self.entries.len(),
                before == self.entries@,
                self.pending@ == old(self).pending@,
                self.tick == old(self).tick,
                cut == n - CACHE_KEEP,
                n > CACHE_CAP,
                order.len() == n,
                forall|a: int| 0 <= a < n ==> (#[trigger] order@[a]) < n,
                dropped.len() == (if i < cut {
                    i as int
                } else {
                    cut as int
                }),
                kept.len() == (if i < cut {
                    0
                } else {
                    i - cut
                }),
                forall|a: int| 0 <= a < dropped.len() ==> dropped@[a] == before[#[trigger] order@[a] as int].key,
                forall|a: int|
                    0 <= a < kept.len() ==> #[trigger] kept@[a] == before[order@[cut + a] as int],
            decreases n - i,
        {
            let p: usize = order[i];
            if i < cut {
                dropped.push(self.entries[p].key);
            } else {
                kept.push(self.entries[p]);
            }
            i += 1;
        }
        self.entries = kept;
        proof {
            let after = self.entries@;
            assert forall|i: int, j: int| 0 <= i < j < after.len() implies (#[trigger] after[i]).key
                != (#[trigger] after[j]).key by {
                let (p, q) = (order@[cut + i] as int, order@[cut + j] as int);
                assert(p != q);
                if p < q {
                    assert(before[p].key != before[q].key);
                } else {
                    assert(before[q].key != before[p].key);
                }
            }
            assert forall|i: int| 0 <= i < after.len() implies before.contains(
                #[trigger] after[i],
            ) by {
                assert(before[order@[cut + i] as int] == after[i]);
            }
            assert forall|i: int, j: int|
                0 <= i < after.len() && 0 <= j < before.len() && !holds(after, before[j].key) implies (
            #[trigger] before[j]).last_used <= (#[trigger] after[i]).last_used by {
                assert(occurs(order@, j));
                let a = choose|a: int| 0 <= a < order.len() && #[trigger] order@[a] == j;
                if a >= cut {
                    assert(after[a - cut] == before[j]);
                    assert(holds(after, before[j].key));
                }
                let b = cut + i;
                assert(pair_leq(
                    pair_int(ages@[order@[a] as int]),
                    pair_int(ages@[order@[b] as int]),
                ));
            }
            assert forall|key: TileKey| #[trigger] dropped@.contains(key) == (holds(before, key)
                && !holds(after, key)) by {
                if dropped@.contains(key) {
                    let a = choose|a: int| 0 <= a < dropped.len() && dropped@[a] == key;
                    let p = order@[a] as int;
                    assert(before[p].key == key);
                    if holds(after, key) {
                        let i = choose|i: int| 0 <= i < after.len() && (#[trigger] after[i]).key == key;
                        let q = order@[cut + i] as int;
                        assert(p != q);
                        if p < q {
                            assert(before[p].key != before[q].key);
                        } else {
                            assert(before[q].key != before[p].key);
                        }
                    }
                }
                if holds(before, key) && !holds(after, key) {
                    let j = choose|j: int| 0 <= j < before.len() && (#[trigger] before[j]).key == key;
                    assert(occurs(order@, j));
                    let a = choose|a: int| 0 <= a < order.len() && #[trigger] order@[a] == j;
                    if a >= cut {
                        assert(after[a - cut].key == key);
                    }
                    assert(dropped@[a] == key);
                }
            }
        }
        dropped
    }

    /// Take in delivered tiles, decoded or not: they leave the pending list, and
    /// an entry stands for each, so a failed tile is not asked for again.
    fn record(&mut self, media: u64, k: i32, times_us: &Vec<i64>, tick: u64)
        requires
            old(self).wf(),
        ensures
            final(self).wf(),
            recorded(
                old(self).entries@,
                delivered_keys(media, k, times_us@),
                tick,
                final(self).entries@,
            ),
            final(self).pending@ == old(self).pending@.filter(
                not_among(delivered_keys(media, k, times_us@)),
            ),
            final(self).tick == old(self).tick,
    {
        let ghost before = self.entries@;
        let ghost keys = delivered_keys(media, k, times_us@);
        let mut left: Vec<TileKey> = Vec::new();
        let mut p: usize = 0;
        proof {
            reveal(Seq::filter);
        }
        while p < self.pending.len()
            invariant
                p <= self.pending.len(),
                self.pending@ == old(self).pending@,
                self.entries@ == before,
                self.tick == old(self).tick,
                keys == delivered_keys(media, k, times_us@),
                left@ == self.pending@.take(p as int).filter(not_among(keys)),
            decreases self.pending.len() - p,
        {
            proof {
                lemma_filter_take(self.pending@, p as int, not_among(keys));
            }
            let key = self.pending[p];
            if !is_delivered(media, k, times_us, key) {
                left.push(key);
            }
            p += 1;
        }
        assert(self.pending@.take(p as int) =~= self.pending@);
        self.pending = left;
        let mut i: usize = 0;
        proof {
            assert(keys.take(0) =~= Seq::<TileKey>::empty());
            assert forall|x: int| 0 <= x < before.len() implies before.contains(
                #[trigger] before[x],
            ) by {}
            assert(recorded(before, keys.take(0), tick, self.entries@));
        }
        while i < times_us.len()
            invariant
                i <= times_us.len(),
                keys == delivered_keys(media, k, times_us@),
                recorded(before, keys.take(i as int), tick, self.entries@),
                self.pending@ == old(self).pending@.filter(not_among(keys)),
                self.tick == old(self).tick,
            decreases times_us.len() - i,
        {
            let key = TileKey { media, at_us: times_us[i], k };
            let ghost done = keys.take(i as int);
            let ghost next = keys.take(i as int + 1);
            let ghost mid = self.entries@;
            proof {
                assert(keys[i as int] == key);
                assert(next =~= done.push(key));
                assert forall|x: TileKey| #[trigger] next.contains(x) == (done.contains(x) || x
                    == key) by {
                    if done.contains(x) {
                        let q = choose|q: int| 0 <= q < done.len() && done[q] == x;
                        assert(next[q] == x);
                    }
                    assert(next[i as int] == key);
                    if next.contains(x) {
                        let q = choose|q: int| 0 <= q < next.len() && next[q] == x;
                        if q < i {
                            assert(done[q] == x);
                        }
                    }
                }
            }
            let entry = TileEntry { key, last_used: tick };
            match find_entry(&self.entries, key) {
                Some(at) => {
                    self.entries.set(at, entry);
                    proof {
                        let now = self.entries@;
                        assert forall|x: int, y: int| 0 <= x < y < now.len() implies (
                        #[trigger] now[x]).key != (#[trigger] now[y]).key by {
                            assert(mid[x].key != mid[y].key);
                        }
                        assert forall|q: TileKey| #[trigger] holds(now, q) == (holds(before, q)
                            || next.contains(q)) by {
                            assert(holds(mid, q) == (holds(before, q) || done.contains(q)));
                            if holds(now, q) {
                                let x = choose|x: int| 0 <= x < now.len() && (#[trigger] now[x]).key == q;
                                assert(mid[x].key == q);
                            }
                            if holds(mid, q) {
                                let x = choose|x: int| 0 <= x < mid.len() && (#[trigger] mid[x]).key == q;
                                assert(now[x].key == q);
                            }
                            assert(now[at as int].key == key);
                        }
                        assert forall|x: int| 0 <= x < now.len() implies if next.contains(
                            (#[trigger] now[x]).key,
                        ) {
                            now[x].last_used == tick
                        } else {
                            before.contains(now[x])
                        } by {
                            if x != at {
                                assert(now[x] == mid[x]);
                                if x < at {
                                    assert(mid[x].key != mid[at as int].key);
                                } else {
                                    assert(mid[at as int].key != mid[x].key);
                                }
                            }
                        }
                    }
                },
                None => {
                    self.entries.push(entry);
                    proof {
                        let now = self.entries@;
                        assert forall|x: int, y: int| 0 <= x < y < now.len() implies (
                        #[trigger] now[x]).key != (#[trigger] now[y]).key by {
                            if y < mid.len() {
                                assert(mid[x].key != mid[y].key);
                            } else {
                                assert(mid[x].key != key);
                            }
                        }
                        assert forall|q: TileKey| #[trigger] holds(now, q) == (holds(before, q)
                            || next.contains(q)) by {
                            assert(holds(mid, q) == (holds(before, q) || done.contains(q)));
                            if holds(mid, q) {
                                let x = choose|x: int| 0 <= x < mid.len() && (#[trigger] mid[x]).key == q;
                                assert(now[x].key == q);
                            }
                            if holds(now, q) {
                                let x = choose|x: int| 0 <= x < now.len() && (#[trigger] now[x]).key == q;
                                if x < mid.len() {
                                    assert(mid[x].key == q);
                                }
                            }
                            assert(now[mid.len() as int].key == key);
                        }
                        assert forall|x: int| 0 <= x < now.len() implies if next.contains(
                            (#[trigger] now[x]).key,
                        ) {
                            now[x].last_used == tick
                        } else {
                            before.contains(now[x])
                        } by {
                            if x < mid.len() {
                                assert(now[x] == mid[x]);
                                assert(mid[x].key != key);
                            }
                        }
                    }
                },
            }
            i += 1;
        }
        assert(keys.take(i as int) =~= keys);
    }

    /// Deliver the tiles at `times_us`, then evict; returns the evicted keys.
    /// An empty delivery changes nothing.
    pub fn deliver(&mut self, media: u64, k: i32, times_us: &Vec<i64>) -> (r: Vec<TileKey>)
        requires
            old(self).wf(),
            old(self).tick < u64::MAX,
        ensures
            final(self).wf(),
            ({
                let keys = delivered_keys(media, k, times_us@);
                if times_us.len() == 0 {
                    *final(self) == *old(self) && r@ == Seq::<TileKey>::empty()
                } else {
                    &&& final(self).tick == old(self).tick + 1
                    &&& final(self).pending@ == old(self).pending@.filter(not_among(keys))
                    &&& exists|mid: Seq<TileEntry>| #[trigger]
                        recorded(old(self).entries@, keys, final(self).tick, mid) && evicted(
                            mid,
                            final(self).entries@,
                        ) && dropped_from(mid, final(self).entries@, r@)
                }
            }),
    {
        if times_us.len() == 0 {
            return Vec::new();
        }
        let tick: u64 = self.next_use_tick();
        self.record(media, k, times_us, tick);
        let ghost mid = self.entries@;
        let r = self.evict_lru();
        assert(recorded(
            old(self).entries@,
            delivered_keys(media, k, times_us@),
            self.tick,
            mid,
        ));
        r
    }
}

/// Not being one of `keys`.
pub open spec fn not_among(keys: Seq<TileKey>) -> spec_fn(TileKey) -> bool {
    |key: TileKey| !keys.contains(key)
}

fn is_delivered(media: u64, k: i32, times_us: &Vec<i64>, key: TileKey) -> (r: bool)
    ensures
        r == delivered_keys(media, k, times_us@).contains(key),
{
    let ghost keys = delivered_keys(media, k, times_us@);
    let mut i: usize = 0;
    while i < times_us.len()
        invariant
            i <= times_us.len(),
            keys == delivered_keys(media, k, times_us@),
            forall|j: int| 0 <= j < i ==> #[trigger] keys[j] != key,
        decreases times_us.len() - i,
    {
        if key.media == media && key.k == k && key.at_us == times_us[i] {
            assert(keys[i as int] == key);
            return true;
        }
        assert(keys[i as int] != key);
        i += 1;
    }
    false
}

/// The tiles that were looked at last survive: an eviction drops one of them
/// only when everything it keeps was looked at no earlier.
pub proof fn law_recent_tiles_survive(
    before: Seq<TileEntry>,
    after: Seq<TileEntry>,
    tick: u64,
    j: int,
)
    requires
        evicted(before, after),
        0 <= j < before.len(),
        before[j].last_used == tick,
        exists|i: int| 0 <= i < after.len() && (#[trigger] after[i]).last_used < tick,
    ensures
        holds(after, before[j].key),
{
    let i = choose|i: int| 0 <= i < after.len() && (#[trigger] after[i]).last_used < tick;
    if before.len() > CACHE_CAP {
        if !holds(after, before[j].key) {
            assert(before[j].last_used <= after[i].last_used);
        }
    } else {
        assert(after[j].key == before[j].key);
    }
}

// --- the strip worker -----------------------------------------------------

/// A message to the strip worker.
#[derive(Debug)]
pub enum StripMsg {
    /// Media was imported: remember its path.
    Register { media_id: u64, path: String },
    /// Decode the frames at these times.
    Filmstrip { media_id: u64, times_us: Vec<i64> },
    /// Draw the waveform tiles at these times, `2^k` seconds each.
    Waveform { media_id: u64, k: i32, times_us: Vec<i64> },
}

/// Tile work, newest last.
#[derive(Debug)]
pub enum StripWork {
    Filmstrip { media_id: u64, times_us: Vec<i64> },
    Waveform { media_id: u64, k: i32, times_us: Vec<i64> },
}

/// What a waveform request has to do about the media's peaks.
#[derive(Debug)]
pub enum PeakAction {
    /// They are computed.
    Ready,
    /// They cannot be had.
    Unavailable,
    /// Compute them from this file.
    Decode { path: String },
}

/// What the strip worker remembers.
pub struct StripQueue {
    pub paths: HashMap<u64, String>,
    pub peaks: HashSet<u64>,
    pub peaks_failed: HashSet<u64>,
    pub backlog: Vec<StripWork>,
}

/// The work that a message brings, if any.
pub open spec fn work_of(msg: StripMsg) -> Option<StripWork> {
    match msg {
        StripMsg::Register { .. } => None,
        StripMsg::Filmstrip { media_id, times_us } => Some(
            StripWork::Filmstrip { media_id, times_us },
        ),
        StripMsg::Waveform { media_id, k, times_us } => Some(
            StripWork::Waveform { media_id, k, times_us },
        ),
    }
}

impl StripQueue {
    /// A worker that knows nothing.
    pub fn new() -> (r: Self)
        ensures
            r.paths@ == Map::<u64, String>::empty(),
            r.peaks@ == Set::<u64>::empty(),
            r.peaks_failed@ == Set::<u64>::empty(),
            r.backlog@ == Seq::<StripWork>::empty(),
    {
        StripQueue {
            paths: HashMap::new(),
            peaks: HashSet::new(),
            peaks_failed: HashSet::new(),
            backlog: Vec::new(),
        }
    }

    /// Sort a message in: registrations apply at once, tile work joins the
    /// backlog.
    pub fn triage(&mut self, msg: StripMsg)
        ensures
            final(self).peaks@ == old(self).peaks@,
            final(self).peaks_failed@ == old(self).peaks_failed@,
            final(self).paths@ == match msg {
                StripMsg::Register { media_id, path } => old(self).paths@.insert(media_id, path),
                _ => old(self).paths@,
            },
            final(self).backlog@ == match work_of(msg) {
                Some(work) => old(self).backlog@.push(work),
                None => old(self).backlog@,
            },
    {
        broadcast use vstd::std_specs::hash::group_hash_axioms;

        match msg {
            StripMsg::Register { media_id, path } => {
                self.paths.insert(media_id, path);
            },
            StripMsg::Filmstrip { media_id, times_us } => {
                self.backlog.push(StripWork::Filmstrip { media_id, times_us });
            },
            StripMsg::Waveform { media_id, k, times_us } => {
                self.backlog.push(StripWork::Waveform { media_id, k, times_us });
            },
        }
    }

    /// The newest piece of work: what the user looks at now comes before what
    /// was asked for earlier.
    pub fn next_work(&mut self) -> (r: Option<StripWork>)
        ensures
            final(self).paths@ == old(self).paths@,
            final(self).peaks@ == old(self).peaks@,
            final(self).peaks_failed@ == old(self).peaks_failed@,
            match r {
                Some(work) => old(self).backlog@.len() > 0 && work == old(self).backlog@.last()
                    && final(self).backlog@ == old(self).backlog@.drop_last(),
                None => old(self).backlog@.len() == 0 && final(self).backlog@ == old(self).backlog@,
            },
    {
        self.backlog.pop()
    }

    /// What [`StripQueue::ensure_peaks`] decides.
    pub open spec fn peaks_known(&self, media_id: u64) -> bool {
        self.peaks@.contains(media_id) || self.peaks_failed@.contains(media_id)
    }

    /// What to do about the peaks of a media: they are computed once, on first
    /// demand, and a media that has none or no file is given up.
    pub fn ensure_peaks(&mut self, media_id: u64) -> (r: PeakAction)
        ensures
            final(self).paths@ == old(self).paths@,
            final(self).backlog@ == old(self).backlog@,
            final(self).peaks@ == old(self).peaks@,
            match r {
                PeakAction::Ready => old(self).peaks@.contains(media_id)
                    && final(self).peaks_failed@ == old(self).peaks_failed@,
                PeakAction::Decode { path } => !old(self).peaks_known(media_id)
                    && old(self).paths@.contains_key(media_id) && path@
                    == old(self).paths@[media_id]@ && final(self).peaks_failed@ == old(
                    self,
                ).peaks_failed@,
                PeakAction::Unavailable => !old(self).peaks@.contains(media_id)
                    && final(self).peaks_failed@ == old(self).peaks_failed@.insert(media_id) && (old(
                    self,
                ).peaks_failed@.contains(media_id) || !old(self).paths@.contains_key(media_id)),
            },
    {
        broadcast use vstd::std_specs::hash::group_hash_axioms;

        if self.peaks.contains(&media_id) {
            return PeakAction::Ready;
        }
        if self.peaks_failed.contains(&media_id) {
            assert(self.peaks_failed@ =~= self.peaks_failed@.insert(media_id));
            return PeakAction::Unavailable;
        }
        let found: Option<String> = match self.paths.get(&media_id) {
            Some(path) => Some(path.clone()),
            None => None,
        };
        match found {
            Some(path) => PeakAction::Decode { path },
            None => {
                self.peaks_failed.insert(media_id);
                PeakAction::Unavailable
            },
        }
    }

    /// The outcome of a peak decode.
    pub fn peaks_decoded(&mut self, media_id: u64, ok: bool)
        ensures
            final(self).paths@ == old(self).paths@,
            final(self).backlog@ == old(self).backlog@,
            final(self).peaks@ == (if ok {
                old(self).peaks@.insert(media_id)
            } else {
                old(self).peaks@
            }),
            final(self).peaks_failed@ == (if ok {
                old(self).peaks_failed@
            } else {
                old(self).peaks_failed@.insert(media_id)
            }),
            final(self).peaks_known(media_id),
    {
        broadcast use vstd::std_specs::hash::group_hash_axioms;

        if ok {
            self.peaks.insert(media_id);
        } else {
            self.peaks_failed.insert(media_id);
        }
    }
}

// --- the waveform raster --------------------------------------------------

/// Bar pitch in the raster: three pixels of bar and one of gap.
pub const WAVE_BAR_PITCH: usize = 4;

/// Colour of the waveform bars.
pub open spec fn wave_bar() -> Color {
    Color { red: 0xff, green: 0xff, blue: 0xff, alpha: 0xd8 }
}

/// No paint.
pub open spec fn clear() -> Color {
    Color { red: 0, green: 0, blue: 0, alpha: 0 }
}

/// Half the height of the tallest bar.
pub open spec fn max_half(height: int) -> int {
    max_int(height / 2 - 2, 1)
}

/// Half the height of the tallest bar in a tile: two pixels of margin.
pub fn wave_max_half(height: usize) -> (r: usize)
    ensures
        r == max_half(height as int),
{
    let half: usize = height / 2;
    if half > 3 {
        half - 2
    } else {
        1
    }
}

/// Whether a bar covers the pixel: bars of a mirrored height around the middle,
/// each keeping at least a centre line.
pub open spec fn bar_covers(heights: Seq<usize>, width: int, height: int, x: int, y: int) -> bool {
    let bar = x / (WAVE_BAR_PITCH as int);
    let half = clamp(heights[bar] as int, 1, max_half(height));
    &&& bar < heights.len()
    &&& bar < width / (WAVE_BAR_PITCH as int)
    &&& x % (WAVE_BAR_PITCH as int) < WAVE_BAR_PITCH - 1
    &&& height / 2 - half <= y < height / 2 + half
}

/// What a waveform tile shows.
pub open spec fn wave_paint(heights: Seq<usize>, width: int, height: int) -> spec_fn(
    int,
    int,
) -> Color {
    |x: int, y: int|
        if bar_covers(heights, width, height, x, y) {
            wave_bar()
        } else {
            clear()
        }
}

/// Draw mirrored bars on a transparent tile. `heights[b]` is half the height of
/// bar `b` before it is pulled into the visible range; bars beyond the list,
/// where the audio has ended, stay clear.
pub fn render_wave_tile(heights: &Vec<usize>, width: usize, height: usize) -> (r: Vec<u8>)
    requires
        width * height * 4 <= usize::MAX,
    ensures
        is_image(
            r@,
            width as int,
            height as int,
            wave_paint(heights@, width as int, height as int),
        ),
{
    let ghost paint = wave_paint(heights@, width as int, height as int);
    let bars: usize = width / WAVE_BAR_PITCH;
    let tallest: usize = wave_max_half(height);
    let mid: usize = height / 2;
    let mut out: Vec<u8> = Vec::new();
    let mut y: usize = 0;
    proof {
        lemma_no_rows(width as int, paint);
    }
    while y < height
        invariant
            y <= height,
            paint == wave_paint(heights@, width as int, height as int),
            bars == width / WAVE_BAR_PITCH,
            tallest == max_half(height as int),
            mid == height / 2,
            has_pixels(out@, width as int, y as int, 0, paint),
        decreases height - y,
    {
        let mut x: usize = 0;
        while x < width
            invariant
                x <= width,
                y < height,
                paint == wave_paint(heights@, width as int, height as int),
                bars == width / WAVE_BAR_PITCH,
                tallest == max_half(height as int),
                mid == height / 2,
                has_pixels(out@, width as int, y as int, x as int, paint),
            decreases width - x,
        {
            let bar: usize = x / WAVE_BAR_PITCH;
            let mut covered: bool = false;
            if bar < heights.len() && bar < bars && x % WAVE_BAR_PITCH < WAVE_BAR_PITCH - 1 {
                let raw: usize = heights[bar];
                let half: usize = if raw < 1 {
                    1
                } else if raw > tallest {
                    tallest
                } else {
                    raw
                };
                covered = if y >= mid {
                    y - mid < half
                } else {
                    mid - y <= half
                };
            }
            let color = if covered {
                Color { red: 0xff, green: 0xff, blue: 0xff, alpha: 0xd8 }
            } else {
                Color { red: 0, green: 0, blue: 0, alpha: 0 }
            };
            assert(color == paint(x as int, y as int));
            push_pixel(
                &mut out,
                color,
                Ghost(width as int),
                Ghost(y as int),
                Ghost(x as int),
                Ghost(paint),
            );
            x += 1;
        }
        proof {
            lemma_row_done(out@, width as int, y as int, paint);
        }
        y += 1;
    }
    out
}

} // verus!
