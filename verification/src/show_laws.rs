//! What showing a project is for: laws that relate what the editor shows to the clips,
//! lanes and media of the project, and picks in the preview to what is shown.

use vstd::prelude::*;

use crate::arith::lemma_floor;
use crate::edit_laws::{has_clip, ids_unique, law_media_is_found};
use crate::find::{first_where, lemma_first_found, lemma_first_where};
use crate::gesture_laws::{ends_at, is_shown, shown_at, starts_at};
use crate::model::{Clip, MediaTime, Rational, Track, TrackKind};
use crate::num::{clamped32, clamped64};
use crate::order::{lemma_sort_members, lemma_stable_sort, total_preorder, upto};
use crate::preview_pick::{draggable, first_on, hits, lane_hits, outlinable, outlinable_with,
    outlined, pickable, pickable_with, ClipAt};
use crate::project::{resampled, valid_rate, ClipSource, MediaSource, Project, ProjectClip};
use crate::projection::{are_rooms, back, by_id, canvas_of, is_room, lane_extent, nearest_seconds,
    pool_order, same_rate, shows_clip, shows_lane, shows_media, shows_project, time_label,
    two_digits, usable_room, video_extent, Media, ProjectUi, UNBOUNDED_ROOM};
use crate::select_laws::shown_unique;
use crate::snap::{clip_index, clip_named};
use crate::text::decimal;
use crate::timeline::{at_rate, clip_end, law_clip_end_is_least_cover};

verus! {

// --- clip ends ------------------------------------------------------------

/// The end of a clip is the first tick of the target rate that is not before the end of
/// its content, its start and its length each counted at a rate of their own.
pub proof fn law_clip_end_covers_content(clip: Clip, target: Rational)
    requires
        target.num > 0,
        target.den > 0,
        clip.timeline_start.rate.num > 0,
        clip.timeline_start.rate.den > 0,
        clip.source_range.duration.rate.num > 0,
        clip.source_range.duration.rate.den > 0,
    ensures
        ({
            let s = clip.timeline_start;
            let d = clip.source_range.duration;
            let end = clip_end(clip, target);
            let per_tick = target.den * (s.rate.num * d.rate.num);
            let content = target.num * (s.value * s.rate.den * d.rate.num + d.value * d.rate.den
                * s.rate.num);
            end * per_tick >= content && (end - 1) * per_tick < content
        }),
{
    let s = clip.timeline_start;
    let d = clip.source_range.duration;
    let (tn, td, sn, sd, dn, dd) = (
        target.num as int,
        target.den as int,
        s.rate.num as int,
        s.rate.den as int,
        d.rate.num as int,
        d.rate.den as int,
    );
    let per_tick = td * (sn * dn);
    assert(per_tick > 0) by (nonlinear_arith)
        requires
            td > 0,
            sn > 0,
            dn > 0,
            per_tick == td * (sn * dn),
    ;
    if at_rate(clip, target) {
        let (a, b) = (s.value as int, d.value as int);
        assert((a + b) * (td * (tn * tn)) == tn * (a * td * tn + b * td * tn)) by (nonlinear_arith);
        assert((a + b - 1) * per_tick == (a + b) * per_tick - per_tick) by (nonlinear_arith);
    } else {
        law_clip_end_is_least_cover(clip, target);
    }
}

// --- labels ---------------------------------------------------------------

/// A length in whole seconds is off by at most half a second.
pub proof fn law_seconds_are_nearest(duration: MediaTime)
    requires
        valid_rate(duration.rate),
        duration.value >= 0,
    ensures
        ({
            let time = duration.value * duration.rate.den;
            let told = nearest_seconds(duration) * duration.rate.num;
            2 * (told - time) <= duration.rate.num && 2 * (time - told) <= duration.rate.num
        }),
{
    let n = duration.rate.num as int;
    lemma_floor(duration.value * duration.rate.den + n / 2, n);
    let q = nearest_seconds(duration);
    assert((q + 1) * n == q * n + n) by (nonlinear_arith);
}

/// A time label tells hours, minutes and seconds that make up the time, minutes and
/// seconds below sixty; hours only from one hour up.
pub proof fn law_label_tells_the_time(secs: nat, padded: bool) -> (hms: (nat, nat, nat))
    ensures
        hms.0 * 3600 + hms.1 * 60 + hms.2 == secs,
        hms.1 < 60,
        hms.2 < 60,
        hms.0 > 0 ==> time_label(secs, padded) == decimal(hms.0) + ":"@ + two_digits(hms.1) + ":"@
            + two_digits(hms.2),
        hms.0 == 0 && padded ==> time_label(secs, padded) == two_digits(hms.1) + ":"@ + two_digits(
            hms.2,
        ),
        hms.0 == 0 && !padded ==> time_label(secs, padded) == decimal(hms.1) + ":"@ + two_digits(
            hms.2,
        ),
        two_digits(hms.2) == (if hms.2 < 10 {
            "0"@ + decimal(hms.2)
        } else {
            decimal(hms.2)
        }),
{
    (secs / 3600, (secs / 60) % 60, secs % 60)
}

// --- trim rooms -----------------------------------------------------------

proof fn lemma_resample_same(x: int, rate: Rational)
    requires
        valid_rate(rate),
    ensures
        resampled(x, rate, rate) == x,
{
    let (n, m) = (rate.num as int, rate.den as int);
    let d = n * m;
    assert(d > 0) by (nonlinear_arith)
        requires
            n > 0,
            m > 0,
            d == n * m,
    ;
    assert(x * m * n == x * d) by (nonlinear_arith)
        requires
            d == n * m,
    ;
    let v = x * d;
    if v >= 0 {
        assert(x >= 0) by (nonlinear_arith)
            requires
                v == x * d,
                v >= 0,
                d > 0,
        ;
        lemma_floor(2 * v + d, 2 * d);
        let q = (2 * v + d) / (2 * d);
        assert(q == x) by (nonlinear_arith)
            requires
                q * (2 * d) <= 2 * (x * d) + d,
                (q + 1) * (2 * d) > 2 * (x * d) + d,
                d > 0,
        ;
    } else {
        lemma_floor(-2 * v + d, 2 * d);
        let q = (-2 * v + d) / (2 * d);
        assert(q == -x) by (nonlinear_arith)
            requires
                q * (2 * d) <= -2 * (x * d) + d,
                (q + 1) * (2 * d) > -2 * (x * d) + d,
                d > 0,
        ;
    }
}

/// The room that an edge with `room` media ticks left may show as `r` sequence ticks: all
/// of it at one rate; at another never more than the media has, and no less than what
/// keeps one media tick in reserve.
pub open spec fn offers_room(r: int, room: int, media_rate: Rational, tl_rate: Rational) -> bool {
    let left = if room < 0 {
        0
    } else {
        room
    };
    if media_rate == tl_rate {
        r == clamped32(left)
    } else {
        &&& r > 0 ==> clamped64(resampled(r, tl_rate, media_rate)) <= left
        &&& r < i32::MAX ==> forall|more: int|
            r < more && #[trigger] resampled(more, tl_rate, media_rate) < left
                && i64::MIN <= resampled(more, tl_rate, media_rate) ==> more > clamped64(
                resampled(if left > 0 { left - 1 } else { 0 }, media_rate, tl_rate),
            )
    }
}

/// An offered extension is the most that is safe: converted to media ticks it stays within
/// what the media has, and a longer one either does not, once a media tick is kept in
/// reserve for rounding, or is longer than what is left.
pub proof fn law_offered_room_is_the_most(
    r: i32,
    ticks: int,
    room: int,
    media_rate: Rational,
    tl_rate: Rational,
)
    requires
        valid_rate(media_rate),
        valid_rate(tl_rate),
        !same_rate(media_rate, tl_rate) || media_rate == tl_rate,
        i64::MIN <= room <= i64::MAX,
        is_room(ticks, usable_room(room, media_rate, tl_rate), media_rate, tl_rate),
        i32::MIN < ticks,
        ticks <= i32::MAX || media_rate == tl_rate,
        r == clamped32(ticks),
    ensures
        offers_room(r as int, room, media_rate, tl_rate),
{
    let left = if room < 0 {
        0
    } else {
        room
    };
    if media_rate == tl_rate {
        lemma_resample_same(left, media_rate);
        if ticks < left {
            assert(back(left, media_rate, tl_rate) == left);
            assert(false);
        }
    } else {
        assert forall|more: int|
            r < more && #[trigger] resampled(more, tl_rate, media_rate) < left && i64::MIN
                <= resampled(more, tl_rate, media_rate) && r < i32::MAX implies more > clamped64(
            resampled(if left > 0 { left - 1 } else { 0 }, media_rate, tl_rate),
        ) by {
            assert(back(more, media_rate, tl_rate) == resampled(more, tl_rate, media_rate));
        }
    }
}

/// Media ticks before the in-point, and behind the out-point, of a clip on a media.
pub open spec fn ticks_left(c: ProjectClip, m: MediaSource) -> (int, int) {
    let source = c.content->source;
    (source.start as int, m.duration.value - source.start - source.duration)
}

/// Generated content can grow as far as the timeline goes, and a clip whose media is gone
/// cannot grow. The head of any other clip can grow by what its media has before the
/// in-point, and its tail by what it has behind the out-point; at one rate by exactly
/// that.
pub proof fn law_rooms_are_what_the_media_has(p: Project, t: int, c: int, head: i32, tail: i32)
    requires
        ids_unique(p),
        has_clip(p, t, c),
        are_rooms(p, p.lanes@[t].clips@[c], head, tail),
    ensures
        ({
            let x = p.lanes@[t].clips@[c];
            &&& x.content is Generated ==> head == UNBOUNDED_ROOM && tail == UNBOUNDED_ROOM
            &&& x.content matches ClipSource::Media { media, .. } ==> (forall|m: int|
                0 <= m < p.media@.len() ==> (#[trigger] p.media@[m]).id != media) ==> head == 0
                && tail == 0
            &&& forall|m: int|
                #![trigger p.media@[m]]
                0 <= m < p.media@.len() && (x.content matches ClipSource::Media { media, .. }
                    && media == p.media@[m].id) && p.media@[m].frame_rate == p.frame_rate
                    && valid_rate(p.frame_rate) && i64::MIN <= ticks_left(x, p.media@[m]).1
                    <= i64::MAX ==> offers_room(
                    head as int,
                    ticks_left(x, p.media@[m]).0,
                    p.frame_rate,
                    p.frame_rate,
                ) && offers_room(
                    tail as int,
                    ticks_left(x, p.media@[m]).1,
                    p.frame_rate,
                    p.frame_rate,
                )
        }),
{
    let x = p.lanes@[t].clips@[c];
    match x.content {
        ClipSource::Media { media, source } => {
            law_media_is_found(p, media);
            assert forall|m: int|
                #![trigger p.media@[m]]
                0 <= m < p.media@.len() && media == p.media@[m].id && p.media@[m].frame_rate
                    == p.frame_rate && valid_rate(p.frame_rate) && i64::MIN <= ticks_left(
                    x,
                    p.media@[m],
                ).1 <= i64::MAX implies offers_room(
                head as int,
                ticks_left(x, p.media@[m]).0,
                p.frame_rate,
                p.frame_rate,
            ) && offers_room(
                tail as int,
                ticks_left(x, p.media@[m]).1,
                p.frame_rate,
                p.frame_rate,
            ) by {
                let y = p.media@[m];
                assert(p.media_with(media) == Some(y));
                let rate = p.frame_rate;
                let (a, b) = ticks_left(x, y);
                let i = choose|i: int| #[trigger]
                    is_room(i, usable_room(a, rate, rate), rate, rate) && head == clamped32(i);
                let j = choose|j: int| #[trigger]
                    is_room(j, usable_room(b, rate, rate), rate, rate) && tail == clamped32(j);
                lemma_exact_room(i, a, rate);
                lemma_exact_room(j, b, rate);
            }
        },
        ClipSource::Generated(_) => {},
    }
}

proof fn lemma_exact_room(ticks: int, room: int, rate: Rational)
    requires
        valid_rate(rate),
        i64::MIN <= room <= i64::MAX,
        is_room(ticks, usable_room(room, rate, rate), rate, rate),
    ensures
        ticks == (if room < 0 {
            0
        } else {
            room
        }),
{
    let left = if room < 0 {
        0
    } else {
        room
    };
    assert(same_rate(rate, rate));
    lemma_resample_same(left, rate);
    if ticks < left {
        assert(back(left, rate, rate) == left);
    }
}

// --- the canvas -----------------------------------------------------------

/// The media at place `m` plays in a clip of a video lane.
pub open spec fn is_pictured(p: Project, t: int, c: int, m: int) -> bool {
    has_clip(p, t, c) && p.lanes@[t].kind == TrackKind::Video && 0 <= m < p.media@.len() && (
    p.lanes@[t].clips@[c].content matches ClipSource::Media { media, .. } && media
        == p.media@[m].id)
}

/// `w` and `h` are the largest sides of the media in clips of the lane at place `t` before
/// place `n`, or 0.
spec fn lane_most(p: Project, t: int, n: int, w: int, h: int) -> bool {
    &&& forall|c: int, m: int| #[trigger]
        is_pictured(p, t, c, m) && c < n ==> p.media@[m].width <= w && p.media@[m].height <= h
    &&& w == 0 || exists|c: int, m: int| #[trigger]
        is_pictured(p, t, c, m) && p.media@[m].width == w
    &&& h == 0 || exists|c: int, m: int| #[trigger]
        is_pictured(p, t, c, m) && p.media@[m].height == h
}

proof fn lemma_lane_extent(p: Project, t: int, n: int)
    requires
        ids_unique(p),
        0 <= t < p.lanes@.len(),
        p.lanes@[t].kind == TrackKind::Video,
        0 <= n <= p.lanes@[t].clips@.len(),
    ensures
        lane_most(
            p,
            t,
            n,
            lane_extent(p, p.lanes@[t], n).0,
            lane_extent(p, p.lanes@[t], n).1,
        ),
        lane_extent(p, p.lanes@[t], n).0 >= 0,
        lane_extent(p, p.lanes@[t], n).1 >= 0,
    decreases n,
{
    if n > 0 {
        lemma_lane_extent(p, t, n - 1);
        let lane = p.lanes@[t];
        let (w0, h0) = lane_extent(p, lane, n - 1);
        let (w, h) = lane_extent(p, lane, n);
        match lane.clips@[n - 1].content {
            ClipSource::Media { media, .. } => {
                law_media_is_found(p, media);
                if exists|m: int| 0 <= m < p.media@.len() && (#[trigger] p.media@[m]).id == media {
                    let m = choose|m: int|
                        0 <= m < p.media@.len() && (#[trigger] p.media@[m]).id == media;
                    assert(p.media_with(media) == Some(p.media@[m]));
                    assert(is_pictured(p, t, n - 1, m));
                    assert forall|c: int, k: int| #[trigger]
                        is_pictured(p, t, c, k) && c < n implies p.media@[k].width <= w
                        && p.media@[k].height <= h by {
                        if c == n - 1 {
                            assert(p.media_with(media) == Some(p.media@[k]));
                        }
                    }
                } else {
                    assert(p.media_with(media) is None);
                }
            },
            ClipSource::Generated(_) => {},
        }
    }
}

/// `w` and `h` are the largest sides of the media in clips of video lanes before place
/// `n`, or 0.
pub open spec fn is_most(p: Project, n: int, w: int, h: int) -> bool {
    &&& forall|t: int, c: int, m: int| #[trigger]
        is_pictured(p, t, c, m) && t < n ==> p.media@[m].width <= w && p.media@[m].height <= h
    &&& w == 0 || exists|t: int, c: int, m: int| #[trigger]
        is_pictured(p, t, c, m) && p.media@[m].width == w
    &&& h == 0 || exists|t: int, c: int, m: int| #[trigger]
        is_pictured(p, t, c, m) && p.media@[m].height == h
}

proof fn lemma_video_extent(p: Project, n: int)
    requires
        ids_unique(p),
        0 <= n <= p.lanes@.len(),
    ensures
        is_most(p, n, video_extent(p, n).0, video_extent(p, n).1),
        video_extent(p, n).0 >= 0,
        video_extent(p, n).1 >= 0,
    decreases n,
{
    if n > 0 {
        lemma_video_extent(p, n - 1);
        let lane = p.lanes@[n - 1];
        if lane.kind == TrackKind::Video {
            let len = lane.clips@.len() as int;
            lemma_lane_extent(p, n - 1, len);
            let (lw, lh) = lane_extent(p, lane, len);
            assert(lane_most(p, n - 1, len, lw, lh));
            let (w, h) = video_extent(p, n);
            assert forall|t: int, c: int, m: int| #[trigger]
                is_pictured(p, t, c, m) && t < n implies p.media@[m].width <= w
                && p.media@[m].height <= h by {
                if t == n - 1 {
                    assert(is_pictured(p, n - 1, c, m));
                }
            }
        }
    }
}

/// The canvas is as wide as the widest and as high as the highest media on video lanes,
/// made even upwards, and 1920 by 1080 without any.
pub proof fn law_canvas_holds_every_video(p: Project) -> (most: (int, int))
    requires
        ids_unique(p),
    ensures
        is_most(p, p.lanes@.len() as int, most.0, most.1),
        most.0 > 0 && most.1 > 0 ==> most.0 <= canvas_of(p).0 <= most.0 + 1 && most.1 <= canvas_of(
            p,
        ).1 <= most.1 + 1 && canvas_of(p).0 % 2 == 0 && canvas_of(p).1 % 2 == 0,
        most.0 <= 0 || most.1 <= 0 ==> canvas_of(p) == (1920int, 1080int),
{
    lemma_video_extent(p, p.lanes@.len() as int);
    video_extent(p, p.lanes@.len() as int)
}

// --- clips, lanes and the project -----------------------------------------

/// A clip is shown where it is: with its id, from its start and with its length, with its
/// link, its media and its source in-point.
pub proof fn law_shown_clip_is_the_clip(
    ui: Clip,
    p: Project,
    c: ProjectClip,
    sizes: Map<u64, (i32, i32)>,
    badges: Map<u64, String>,
)
    requires
        shows_clip(ui, p, c, sizes, badges),
        i32::MIN <= c.start <= i32::MAX,
        i32::MIN <= c.duration <= i32::MAX,
    ensures
        ui.id@ == decimal(c.id as nat),
        ui.timeline_start.value == c.start,
        ui.timeline_start.rate == p.frame_rate,
        ui.source_range.duration.value == c.duration,
        ui.source_range.duration.rate == p.frame_rate,
        c.link matches Some(link) ==> ui.link_id@ == decimal(link as nat),
        c.link is None ==> ui.link_id@.len() == 0,
        c.content matches ClipSource::Media { media, source } ==> ui.media_id@ == decimal(
            media as nat,
        ) && ui.source_in.value == source.start && ui.source_in.rate == source.rate,
        c.content is Generated ==> ui.media_id@.len() == 0,
        ui.transform == c.transform,
{
}

/// A project is shown with its lanes from the top of the stack down, each under its own
/// name, kind and switches and with its clips in their order, at the project's rate.
pub proof fn law_shown_rows_are_the_stack(
    ui: ProjectUi,
    p: Project,
    sizes: Map<u64, (i32, i32)>,
    badges: Map<u64, String>,
    row: int,
    t: int,
)
    requires
        shows_project(ui, p, sizes, badges),
        0 <= row,
        0 <= t,
        row + t + 1 == p.lanes@.len(),
    ensures
        ui.sequence.fps == p.frame_rate,
        ui.title@ == p.name@,
        ui.sequence.tracks@.len() == p.lanes@.len(),
        ({
            let shown = ui.sequence.tracks@[row];
            let lane = p.lanes@[t];
            &&& shown.id@ == decimal(lane.id as nat)
            &&& shown.name@ == lane.name@
            &&& shown.kind == lane.kind
            &&& shown.enabled == lane.enabled
            &&& shown.muted == lane.muted
            &&& shown.locked == lane.locked
            &&& shown.duck_source == lane.duck_source
            &&& shown.clips@.len() == lane.clips@.len()
            &&& forall|c: int|
                0 <= c < lane.clips@.len() ==> shows_clip(
                    #[trigger] shown.clips@[c],
                    p,
                    lane.clips@[c],
                    sizes,
                    badges,
                )
        }),
{
    assert(p.lanes@[p.lanes@.len() - 1 - row] == p.lanes@[t]);
    assert(shows_lane(ui.sequence.tracks@[row], p, p.lanes@[t], sizes, badges));
}

/// A media is shown with its id, its size and its sound, and as long as it is in ticks of
/// the project.
pub proof fn law_shown_media_is_the_media(ui: Media, m: MediaSource, tl_rate: Rational)
    requires
        shows_media(ui, m, tl_rate),
        i32::MIN <= resampled(m.duration.value as int, m.duration.rate, tl_rate) <= i32::MAX,
    ensures
        ui.id@ == decimal(m.id as nat),
        ui.width == m.width,
        ui.height == m.height,
        ui.has_audio == m.has_audio,
        ui.is_audio == m.audio_only,
        ui.duration_ticks == resampled(m.duration.value as int, m.duration.rate, tl_rate),
        m.stem matches Some(stem) ==> ui.name@ == stem@,
{
}

/// The pool is shown by ascending id, every media once.
pub proof fn law_pool_is_in_id_order(media: Seq<MediaSource>)
    ensures
        pool_order(media).len() == media.len(),
        forall|i: int, j: int|
            #![trigger pool_order(media)[i], pool_order(media)[j]]
            0 <= i < j < media.len() ==> media[pool_order(media)[i]].id
                <= media[pool_order(media)[j]].id,
        forall|m: int| #[trigger] pool_order(media).contains(m) == (0 <= m < media.len()),
{
    let all = upto(media.len());
    let f = by_id(media);
    assert(total_preorder(f));
    lemma_stable_sort(all, f);
    lemma_sort_members(all, f);
    assert forall|m: int| #[trigger] pool_order(media).contains(m) == (0 <= m < media.len()) by {
        if 0 <= m < media.len() {
            assert(all[m] == m);
        }
    }
    assert forall|i: int, j: int|
        #![trigger pool_order(media)[i], pool_order(media)[j]]
        0 <= i < j < media.len() implies media[pool_order(media)[i]].id
        <= media[pool_order(media)[j]].id by {
        assert(f(pool_order(media)[i], pool_order(media)[j]));
    }
}

// --- picks ----------------------------------------------------------------

/// The clip has a picture of its own: a media, a title, a solid or a drawn shape.
pub open spec fn is_drawn(c: Clip) -> bool {
    c.media_id@.len() > 0 || c.generator_kind@ == "text"@ || c.generator_kind@ == "solid"@
        || c.generator_kind@ == "rect"@ || c.generator_kind@ == "ellipse"@
}

/// The clip at a place can be hit at the tick: its lane is shown, unlocked and not audio,
/// the clip covers the tick, and it is drawn.
pub open spec fn can_hit(tracks: Seq<Track>, t: int, c: int, tick: int) -> bool {
    is_shown(tracks, t, c) && tracks[t].kind != TrackKind::Audio && tracks[t].enabled
        && !tracks[t].locked && starts_at(tracks, t, c) <= tick < ends_at(tracks, t, c) && is_drawn(
        tracks[t].clips@[c],
    )
}

/// Rows and places fit `usize`, and ends fit `i32`.
pub open spec fn rows_in_range(tracks: Seq<Track>) -> bool {
    &&& tracks.len() <= usize::MAX
    &&& forall|t: int| 0 <= t < tracks.len() ==> (#[trigger] tracks[t]).clips@.len() <= usize::MAX
    &&& forall|t: int, c: int|
        is_shown(tracks, t, c) ==> i32::MIN <= #[trigger] ends_at(tracks, t, c) <= i32::MAX
}

proof fn lemma_lane_hits(tracks: Seq<Track>, t: int, n: int, tick: int)
    requires
        rows_in_range(tracks),
        0 <= t < tracks.len(),
        pickable(tracks[t]),
        0 <= n <= tracks[t].clips@.len(),
    ensures
        forall|c: int| #[trigger]
            can_hit(tracks, t, c, tick) && c < n ==> lane_hits(tracks[t], t, n, tick).contains(
                ClipAt { row: t as usize, index: c as usize },
            ),
        forall|k: int|
            #![trigger lane_hits(tracks[t], t, n, tick)[k]]
            0 <= k < lane_hits(tracks[t], t, n, tick).len() ==> {
                let at = lane_hits(tracks[t], t, n, tick)[k];
                at.row == t && at.index < n && can_hit(tracks, t, at.index as int, tick)
            },
        forall|j: int, k: int|
            #![trigger lane_hits(tracks[t], t, n, tick)[j], lane_hits(tracks[t], t, n, tick)[k]]
            0 <= j < k < lane_hits(tracks[t], t, n, tick).len() ==> lane_hits(
                tracks[t],
                t,
                n,
                tick,
            )[j].index < lane_hits(tracks[t], t, n, tick)[k].index,
    decreases n,
{
    if n > 0 {
        lemma_lane_hits(tracks, t, n - 1, tick);
        let before = lane_hits(tracks[t], t, n - 1, tick);
        let now = lane_hits(tracks[t], t, n, tick);
        assert(is_shown(tracks, t, n - 1));
        assert(i32::MIN <= ends_at(tracks, t, n - 1) <= i32::MAX);
        assert forall|c: int| #[trigger] can_hit(tracks, t, c, tick) && c < n implies now.contains(
            ClipAt { row: t as usize, index: c as usize },
        ) by {
            let at = ClipAt { row: t as usize, index: c as usize };
            if c < n - 1 {
                assert(before.contains(at));
                let k = choose|k: int| 0 <= k < before.len() && before[k] == at;
                assert(now[k] == at);
            } else {
                assert(now[before.len() as int] == at);
            }
        }
        assert forall|k: int|
            #![trigger now[k]]
            0 <= k < now.len() implies {
            let at = now[k];
            at.row == t && at.index < n && can_hit(tracks, t, at.index as int, tick)
        } by {
            if k < before.len() {
                assert(now[k] == before[k]);
            }
        }
        assert forall|j: int, k: int|
            #![trigger now[j], now[k]]
            0 <= j < k < now.len() implies now[j].index < now[k].index by {
            assert(now[j] == before[j]);
            if k < before.len() {
                assert(now[k] == before[k]);
            }
        }
    }
}

proof fn lemma_hits(tracks: Seq<Track>, n: int, tick: int)
    requires
        rows_in_range(tracks),
        0 <= n <= tracks.len(),
    ensures
        forall|t: int, c: int| #[trigger]
            can_hit(tracks, t, c, tick) && t < n ==> hits(tracks, n, tick).contains(
                ClipAt { row: t as usize, index: c as usize },
            ),
        forall|k: int|
            #![trigger hits(tracks, n, tick)[k]]
            0 <= k < hits(tracks, n, tick).len() ==> {
                let at = hits(tracks, n, tick)[k];
                at.row < n && can_hit(tracks, at.row as int, at.index as int, tick)
            },
        forall|j: int, k: int|
            #![trigger hits(tracks, n, tick)[j], hits(tracks, n, tick)[k]]
            0 <= j < k < hits(tracks, n, tick).len() ==> {
                let a = hits(tracks, n, tick)[j];
                let b = hits(tracks, n, tick)[k];
                a.row < b.row || (a.row == b.row && a.index < b.index)
            },
    decreases n,
{
    if n > 0 {
        lemma_hits(tracks, n - 1, tick);
        let lane = tracks[n - 1];
        let before = hits(tracks, n - 1, tick);
        let now = hits(tracks, n, tick);
        let len = lane.clips@.len() as int;
        if pickable(lane) {
            lemma_lane_hits(tracks, n - 1, len, tick);
            let here = lane_hits(lane, n - 1, len, tick);
            assert(now == before + here);
            assert forall|t: int, c: int| #[trigger]
                can_hit(tracks, t, c, tick) && t < n implies now.contains(
                ClipAt { row: t as usize, index: c as usize },
            ) by {
                let at = ClipAt { row: t as usize, index: c as usize };
                if t < n - 1 {
                    assert(before.contains(at));
                    let k = choose|k: int| 0 <= k < before.len() && before[k] == at;
                    assert(now[k] == at);
                } else {
                    assert(here.contains(at));
                    let k = choose|k: int| 0 <= k < here.len() && here[k] == at;
                    assert(now[before.len() + k] == at);
                }
            }
            assert forall|k: int|
                #![trigger now[k]]
                0 <= k < now.len() implies {
                let at = now[k];
                at.row < n && can_hit(tracks, at.row as int, at.index as int, tick)
            } by {
                if k < before.len() {
                    assert(now[k] == before[k]);
                } else {
                    assert(now[k] == here[k - before.len()]);
                }
            }
            assert forall|j: int, k: int|
                #![trigger now[j], now[k]]
                0 <= j < k < now.len() implies {
                let a = now[j];
                let b = now[k];
                a.row < b.row || (a.row == b.row && a.index < b.index)
            } by {
                if k < before.len() {
                    assert(now[j] == before[j]);
                    assert(now[k] == before[k]);
                } else {
                    assert(now[k] == here[k - before.len()]);
                    if j < before.len() {
                        assert(now[j] == before[j]);
                    } else {
                        assert(now[j] == here[j - before.len()]);
                    }
                }
            }
        }
    }
}

/// What can be hit in the preview is exactly the drawn clips on shown, unlocked lanes with
/// pictures that cover the playhead, the topmost first.
pub proof fn law_hits_are_what_is_drawn(tracks: Seq<Track>, tick: int)
    requires
        rows_in_range(tracks),
    ensures
        ({
            let all = hits(tracks, tracks.len() as int, tick);
            &&& forall|t: int, c: int| #[trigger]
                can_hit(tracks, t, c, tick) ==> all.contains(
                    ClipAt { row: t as usize, index: c as usize },
                )
            &&& forall|k: int|
                #![trigger all[k]]
                0 <= k < all.len() ==> can_hit(
                    tracks,
                    all[k].row as int,
                    all[k].index as int,
                    tick,
                )
            &&& forall|j: int, k: int|
                #![trigger all[j], all[k]]
                0 <= j < k < all.len() ==> all[j].row < all[k].row || (all[j].row == all[k].row
                    && all[j].index < all[k].index)
        }),
{
    lemma_hits(tracks, tracks.len() as int, tick);
}

proof fn lemma_first_on(tracks: Seq<Track>, t: int, c: int)
    requires
        rows_in_range(tracks),
        shown_unique(tracks),
        is_shown(tracks, t, c),
    ensures
        ({
            let id = tracks[t].clips@[c].id@;
            let at = ClipAt { row: t as usize, index: c as usize };
            &&& first_on(tracks, pickable_with(id), id) == (if pickable(tracks[t]) {
                Some(at)
            } else {
                None
            })
            &&& first_on(tracks, outlinable_with(id), id) == (if outlinable(tracks[t]) {
                Some(at)
            } else {
                None
            })
        }),
{
    let id = tracks[t].clips@[c].id@;
    let named = clip_named(id);
    let clips = tracks[t].clips@;
    assert forall|d: int| 0 <= d < c implies !named(#[trigger] clips[d]) by {
        if named(clips[d]) {
            assert(shown_at(tracks, t, d).id@ == shown_at(tracks, t, c).id@);
        }
    }
    lemma_first_found(clips, named, c);
    let f = pickable_with(id);
    let g = outlinable_with(id);
    assert forall|u: int| 0 <= u < tracks.len() && u != t implies !f(#[trigger] tracks[u]) && !g(
        tracks[u],
    ) by {
        lemma_first_where(tracks[u].clips@, named);
        match clip_index(tracks[u].clips@, id) {
            Some(d) => {
                assert(named(tracks[u].clips@[d]));
                assert(shown_at(tracks, u, d).id@ == shown_at(tracks, t, c).id@);
            },
            None => {},
        }
    }
    lemma_first_where(tracks, f);
    lemma_first_where(tracks, g);
    if pickable(tracks[t]) {
        assert(f(tracks[t]));
        lemma_first_found(tracks, f, t);
    } else if first_where(tracks, f) is Some {
        assert(f(tracks[first_where(tracks, f)->0]));
    }
    if outlinable(tracks[t]) {
        assert(g(tracks[t]));
        lemma_first_found(tracks, g, t);
    } else if first_where(tracks, g) is Some {
        assert(g(tracks[first_where(tracks, g)->0]));
    }
}

/// A gesture in the preview moves the clip it names exactly when the clip is drawn and its
/// lane is shown, unlocked and not audio. The clip is outlined exactly when it is drawn,
/// covers the playhead and its lane is shown and not audio, locked or not.
pub proof fn law_gesture_moves_the_named_clip(tracks: Seq<Track>, t: int, c: int, tick: int)
    requires
        rows_in_range(tracks),
        shown_unique(tracks),
        is_shown(tracks, t, c),
    ensures
        ({
            let x = tracks[t].clips@[c];
            let at = ClipAt { row: t as usize, index: c as usize };
            let lane_shows = tracks[t].kind != TrackKind::Audio && tracks[t].enabled;
            let drawn = x.id@.len() > 0 && is_drawn(x);
            &&& draggable(tracks, x.id@) == (if drawn && lane_shows && !tracks[t].locked {
                Some(at)
            } else {
                None
            })
            &&& outlined(tracks, x.id@, tick) == (if drawn && lane_shows && starts_at(tracks, t, c)
                <= tick < ends_at(tracks, t, c) {
                Some(at)
            } else {
                None
            })
        }),
{
    lemma_first_on(tracks, t, c);
    assert(i32::MIN <= ends_at(tracks, t, c) <= i32::MAX);
}

} // verus!
