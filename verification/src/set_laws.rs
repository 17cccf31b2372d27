//! What dragging a set of clips is for: laws over the clips of the shown timeline, told by
//! their places in it.

use vstd::prelude::*;

use crate::find::{first_where, lemma_filter_members, lemma_first_where};
use crate::gesture_laws::{apart_by, ends_at, is_shown, shown_at, starts_at};
use crate::group_drag::{earliest, fitting, floater, group_drag, is_anchor, landed, landed_move,
    landings, lemma_shift_probes_near, lemma_snap_near, member_fits, one_kind, outer_points,
    outside, raw_shift, row_shift, set_fits, set_snap, shift_probe, shift_probes, snapped_shift,
    LandingView, MoveView};
use crate::model::Track;
use crate::num::clamped32;
use crate::order::{lemma_sort_members, lemma_stable_sort};
use crate::select_laws::{has_place, holds_place, is_placed, law_every_clip_is_placed, shown_unique};
use crate::selection::{all_placed, by_place, chosen, in_place_order, PlacedClip};
use crate::snap::{law_nearest_probe, nearest, Probe};

verus! {

/// The clip at a place is in the set.
pub open spec fn in_set(tracks: Seq<Track>, ids: Seq<Seq<char>>, t: int, c: int) -> bool {
    is_shown(tracks, t, c) && ids.contains(tracks[t].clips@[c].id@)
}

/// Every clip ends within `i32`, and so does every clip of the set moved by `dx`.
pub open spec fn set_in_range(tracks: Seq<Track>, ids: Seq<Seq<char>>, dx: int) -> bool {
    forall|t: int, c: int|
        is_shown(tracks, t, c) ==> i32::MIN <= #[trigger] ends_at(tracks, t, c) <= i32::MAX && (
        in_set(tracks, ids, t, c) ==> i32::MIN <= ends_at(tracks, t, c) + dx <= i32::MAX)
}

/// Every clip starts at tick 0 or later, and `reach` ticks behind its end are still within
/// `i32`.
pub open spec fn within_reach(tracks: Seq<Track>, reach: int) -> bool {
    forall|t: int, c: int|
        is_shown(tracks, t, c) ==> 0 <= starts_at(tracks, t, c) <= #[trigger] ends_at(tracks, t, c)
            && ends_at(tracks, t, c) + reach <= i32::MAX
}

/// The clip at a place has room when it moves by `dx` ticks and `rows` rows: it comes onto
/// an unlocked lane of its kind and meets no clip there that is not in the set.
pub open spec fn has_room(
    tracks: Seq<Track>,
    ids: Seq<Seq<char>>,
    t: int,
    c: int,
    dx: int,
    rows: int,
) -> bool {
    let u = t + rows;
    &&& 0 <= u < tracks.len()
    &&& tracks[u].kind == tracks[t].kind
    &&& !tracks[u].locked
    &&& forall|d: int|
        #![trigger starts_at(tracks, u, d)]
        is_shown(tracks, u, d) && !ids.contains(tracks[u].clips@[d].id@) ==> ends_at(tracks, t, c)
            + dx <= starts_at(tracks, u, d) || ends_at(tracks, u, d) <= starts_at(tracks, t, c) + dx
}

/// Every clip of the set has room when it moves by `dx` ticks and `rows` rows.
pub open spec fn set_has_room(tracks: Seq<Track>, ids: Seq<Seq<char>>, dx: int, rows: int) -> bool {
    forall|t: int, c: int| #[trigger]
        in_set(tracks, ids, t, c) ==> has_room(tracks, ids, t, c, dx, rows)
}

/// The members are the clips of the set.
proof fn lemma_members(tracks: Seq<Track>, ids: Seq<Seq<char>>)
    requires
        tracks.len() <= usize::MAX,
    ensures
        forall|t: int, c: int| #[trigger]
            in_set(tracks, ids, t, c) ==> holds_place(
                chosen(all_placed(tracks), ids),
                tracks,
                t,
                c,
            ),
        forall|k: int|
            #![trigger chosen(all_placed(tracks), ids)[k]]
            0 <= k < chosen(all_placed(tracks), ids).len() ==> has_place(
                chosen(all_placed(tracks), ids)[k],
                tracks,
            ) && ids.contains(chosen(all_placed(tracks), ids)[k].clip_id@),
{
    let clips = all_placed(tracks);
    let members = chosen(clips, ids);
    let f = |c: PlacedClip| ids.contains(c.clip_id@);
    assert(members == clips.filter(f));
    lemma_filter_members(clips, f);
    law_every_clip_is_placed(tracks);
    assert forall|t: int, c: int| #[trigger] in_set(tracks, ids, t, c) implies holds_place(
        members,
        tracks,
        t,
        c,
    ) by {
        assert(holds_place(clips, tracks, t, c));
        let k = choose|k: int| 0 <= k < clips.len() && is_placed(#[trigger] clips[k], tracks, t, c);
        assert(f(clips[k]));
        assert(clips.contains(clips[k]));
        assert(members.contains(clips[k]));
        let j = choose|j: int| 0 <= j < members.len() && members[j] == clips[k];
        assert(is_placed(members[j], tracks, t, c));
    }
    assert forall|k: int|
        #![trigger members[k]]
        0 <= k < members.len() implies has_place(members[k], tracks) && ids.contains(
        members[k].clip_id@,
    ) by {
        assert(members.contains(members[k]));
        assert(clips.contains(members[k]));
        assert(f(members[k]));
        let i = choose|i: int| 0 <= i < clips.len() && clips[i] == members[k];
        assert(has_place(clips[i], tracks));
    }
}

proof fn lemma_member_fits(
    tracks: Seq<Track>,
    ids: Seq<Seq<char>>,
    m: PlacedClip,
    t: int,
    c: int,
    dx: int,
    rows: int,
)
    requires
        tracks.len() <= usize::MAX,
        set_in_range(tracks, ids, dx),
        is_placed(m, tracks, t, c),
        in_set(tracks, ids, t, c),
    ensures
        member_fits(tracks, all_placed(tracks), ids, m, dx, rows) == has_room(
            tracks,
            ids,
            t,
            c,
            dx,
            rows,
        ),
{
    let clips = all_placed(tracks);
    law_every_clip_is_placed(tracks);
    let u = t + rows;
    assert(i32::MIN <= ends_at(tracks, t, c) + dx <= i32::MAX);
    if has_room(tracks, ids, t, c, dx, rows) {
        assert forall|i: int|
            0 <= i < clips.len() && (#[trigger] clips[i]).row == m.row + rows && outside(
                clips[i],
                ids,
            ) implies !(m.start + dx < clips[i].end_tick() && clips[i].start < clamped32(
            m.start + dx + m.duration,
        )) by {
            assert(has_place(clips[i], tracks));
            let (v, d) = choose|v: int, d: int| #[trigger] is_placed(clips[i], tracks, v, d);
            assert(v == u);
            assert(i32::MIN <= ends_at(tracks, u, d) <= i32::MAX);
            assert(starts_at(tracks, u, d) == clips[i].start);
        }
    }
    if member_fits(tracks, clips, ids, m, dx, rows) {
        assert forall|d: int|
            #![trigger starts_at(tracks, u, d)]
            is_shown(tracks, u, d) && !ids.contains(tracks[u].clips@[d].id@) implies ends_at(
            tracks,
            t,
            c,
        ) + dx <= starts_at(tracks, u, d) || ends_at(tracks, u, d) <= starts_at(tracks, t, c)
            + dx by {
            assert(holds_place(clips, tracks, u, d));
            let i = choose|i: int|
                0 <= i < clips.len() && is_placed(#[trigger] clips[i], tracks, u, d);
            assert(clips[i].row == m.row + rows && outside(clips[i], ids));
            assert(i32::MIN <= ends_at(tracks, u, d) <= i32::MAX);
        }
    }
}

proof fn lemma_set_fits(tracks: Seq<Track>, ids: Seq<Seq<char>>, dx: int, rows: int)
    requires
        tracks.len() <= usize::MAX,
        set_in_range(tracks, ids, dx),
    ensures
        set_fits(tracks, all_placed(tracks), ids, chosen(all_placed(tracks), ids), dx, rows)
            == set_has_room(tracks, ids, dx, rows),
{
    let clips = all_placed(tracks);
    let members = chosen(clips, ids);
    lemma_members(tracks, ids);
    if set_fits(tracks, clips, ids, members, dx, rows) {
        assert forall|t: int, c: int| #[trigger] in_set(tracks, ids, t, c) implies has_room(
            tracks,
            ids,
            t,
            c,
            dx,
            rows,
        ) by {
            assert(holds_place(members, tracks, t, c));
            let k = choose|k: int|
                0 <= k < members.len() && is_placed(#[trigger] members[k], tracks, t, c);
            lemma_member_fits(tracks, ids, members[k], t, c, dx, rows);
        }
    }
    if set_has_room(tracks, ids, dx, rows) {
        assert forall|k: int| 0 <= k < members.len() implies member_fits(
            tracks,
            clips,
            ids,
            #[trigger] members[k],
            dx,
            rows,
        ) by {
            assert(has_place(members[k], tracks));
            let (t, c) = choose|t: int, c: int| #[trigger] is_placed(members[k], tracks, t, c);
            assert(in_set(tracks, ids, t, c));
            lemma_member_fits(tracks, ids, members[k], t, c, dx, rows);
        }
    }
}

// --- the shift ------------------------------------------------------------

/// `shift` is `dx`, held back as far as it takes to keep the set off the ticks before 0.
pub open spec fn is_kept_shift(
    tracks: Seq<Track>,
    ids: Seq<Seq<char>>,
    dx: int,
    shift: int,
) -> bool {
    &&& shift >= dx
    &&& forall|t: int, c: int| #[trigger]
        in_set(tracks, ids, t, c) ==> starts_at(tracks, t, c) + shift >= 0
    &&& shift == dx || exists|t: int, c: int| #[trigger]
        in_set(tracks, ids, t, c) && starts_at(tracks, t, c) + shift == 0
}

proof fn lemma_earliest(members: Seq<PlacedClip>)
    requires
        members.len() > 0,
    ensures
        forall|m: int| 0 <= m < members.len() ==> earliest(members) <= (#[trigger] members[m]).start,
        exists|m: int| 0 <= m < members.len() && earliest(members) == (#[trigger] members[m]).start,
    decreases members.len(),
{
    let n = members.len() - 1;
    if n == 0 {
        assert(members.drop_last().len() == 0);
        reveal_with_fuel(earliest, 2);
        assert(earliest(members) == members[0].start);
    } else {
        let init = members.drop_last();
        lemma_earliest(init);
        assert forall|m: int| 0 <= m < members.len() implies earliest(members) <= (
        #[trigger] members[m]).start by {
            if m < n {
                assert(init[m] == members[m]);
            }
        }
        let k = choose|k: int| 0 <= k < init.len() && earliest(init) == (#[trigger] init[k]).start;
        if earliest(members) == earliest(init) {
            assert(members[k].start == earliest(members));
        } else {
            assert(members[n].start == earliest(members));
        }
    }
}

proof fn lemma_raw_shift(tracks: Seq<Track>, ids: Seq<Seq<char>>, dx: int, t: int, c: int)
    requires
        tracks.len() <= usize::MAX,
        in_set(tracks, ids, t, c),
    ensures
        is_kept_shift(tracks, ids, dx, raw_shift(chosen(all_placed(tracks), ids), dx)),
{
    let members = chosen(all_placed(tracks), ids);
    lemma_members(tracks, ids);
    assert(holds_place(members, tracks, t, c));
    lemma_earliest(members);
    let shift = raw_shift(members, dx);
    assert forall|u: int, d: int| #[trigger] in_set(tracks, ids, u, d) implies starts_at(
        tracks,
        u,
        d,
    ) + shift >= 0 by {
        assert(holds_place(members, tracks, u, d));
        let k = choose|k: int|
            0 <= k < members.len() && is_placed(#[trigger] members[k], tracks, u, d);
        assert(earliest(members) <= members[k].start);
    }
    if shift != dx {
        let k = choose|k: int|
            0 <= k < members.len() && earliest(members) == (#[trigger] members[k]).start;
        assert(has_place(members[k], tracks));
        let (u, d) = choose|u: int, d: int| #[trigger] is_placed(members[k], tracks, u, d);
        assert(in_set(tracks, ids, u, d));
    }
}

/// The set keeps to lanes of one kind.
pub open spec fn set_of_one_kind(tracks: Seq<Track>, ids: Seq<Seq<char>>) -> bool {
    forall|t: int, c: int, u: int, d: int| #[trigger]
        in_set(tracks, ids, t, c) && #[trigger] in_set(tracks, ids, u, d) ==> tracks[t].kind
            == tracks[u].kind
}

proof fn lemma_one_kind(tracks: Seq<Track>, ids: Seq<Seq<char>>)
    requires
        tracks.len() <= usize::MAX,
    ensures
        one_kind(chosen(all_placed(tracks), ids)) == set_of_one_kind(tracks, ids),
{
    let members = chosen(all_placed(tracks), ids);
    lemma_members(tracks, ids);
    if one_kind(members) {
        assert forall|t: int, c: int, u: int, d: int| #[trigger]
            in_set(tracks, ids, t, c) && #[trigger] in_set(
                tracks,
                ids,
                u,
                d,
            ) implies tracks[t].kind == tracks[u].kind by {
            assert(holds_place(members, tracks, t, c));
            assert(holds_place(members, tracks, u, d));
            let i = choose|i: int|
                0 <= i < members.len() && is_placed(#[trigger] members[i], tracks, t, c);
            let j = choose|j: int|
                0 <= j < members.len() && is_placed(#[trigger] members[j], tracks, u, d);
            assert(members[i].kind == members[0].kind);
            assert(members[j].kind == members[0].kind);
        }
    }
    if set_of_one_kind(tracks, ids) {
        assert forall|m: int| 0 <= m < members.len() implies (#[trigger] members[m]).kind
            == members[0].kind by {
            assert(has_place(members[m], tracks));
            assert(has_place(members[0], tracks));
            let (t, c) = choose|t: int, c: int| #[trigger] is_placed(members[m], tracks, t, c);
            let (u, d) = choose|u: int, d: int| #[trigger] is_placed(members[0], tracks, u, d);
            assert(in_set(tracks, ids, t, c));
            assert(in_set(tracks, ids, u, d));
        }
    }
}

proof fn lemma_shift_in_range(
    tracks: Seq<Track>,
    ids: Seq<Seq<char>>,
    dx: int,
    shift: int,
    threshold: int,
)
    requires
        threshold >= 0,
        within_reach(tracks, (if dx < 0 { 0 } else { dx }) + threshold),
        forall|t: int, c: int| #[trigger]
            in_set(tracks, ids, t, c) ==> starts_at(tracks, t, c) + shift >= 0,
        shift <= (if dx < 0 {
            0
        } else {
            dx
        }) + threshold,
    ensures
        set_in_range(tracks, ids, shift),
{
}

/// A snapped shift is within the threshold of the plain one.
proof fn lemma_snap_is_near(
    clips: Seq<PlacedClip>,
    ids: Seq<Seq<char>>,
    start: int,
    end: int,
    dx: int,
    threshold: int,
    playhead: int,
)
    ensures
        snapped_shift(clips, ids, start, end, dx, threshold, playhead) matches Some(p)
            ==> apart_by(p.start, dx) <= threshold,
{
    if threshold > 0 {
        let points = seq![0, playhead] + outer_points(clips, ids);
        let ps = shift_probes(points, start, end, dx);
        lemma_snap_near(ps, threshold);
        lemma_shift_probes_near(points, start, end, dx);
    }
}

// --- the landing ----------------------------------------------------------

/// One of the moves takes the clip at a place by `dx` ticks and `rows` rows.
pub open spec fn moves_member(
    moves: Seq<MoveView>,
    tracks: Seq<Track>,
    t: int,
    c: int,
    dx: int,
    rows: int,
) -> bool {
    exists|k: int|
        0 <= k < moves.len() && #[trigger] moves[k] == (MoveView {
            clip: tracks[t].clips@[c].id@,
            track: tracks[t + rows].id@,
            start: starts_at(tracks, t, c) + dx,
        })
}

proof fn lemma_landed_moves(
    tracks: Seq<Track>,
    ids: Seq<Seq<char>>,
    l: LandingView,
    line: int,
    t: int,
    c: int,
)
    requires
        tracks.len() <= usize::MAX,
        in_set(tracks, ids, t, c),
    ensures
        moves_member(
            landed(tracks, chosen(all_placed(tracks), ids), l, line).moves,
            tracks,
            t,
            c,
            l.dx,
            l.rows,
        ),
{
    let members = chosen(all_placed(tracks), ids);
    lemma_members(tracks, ids);
    assert(holds_place(members, tracks, t, c));
    let k = choose|k: int| 0 <= k < members.len() && is_placed(#[trigger] members[k], tracks, t, c);
    let order = in_place_order(members);
    lemma_sort_members(members, by_place());
    assert(members.contains(members[k]));
    assert(order.contains(members[k]));
    let j = choose|j: int| 0 <= j < order.len() && order[j] == members[k];
    let moves = landed(tracks, members, l, line).moves;
    assert(moves[j] == landed_move(tracks, order[j], l.dx, l.rows));
}

/// The first landing that fits.
proof fn lemma_first_landing(
    snapped: Option<int>,
    raw: int,
    rows: int,
    fits: spec_fn(LandingView) -> bool,
)
    ensures
        ({
            let tries = landings(snapped, raw, rows);
            let a = snapped is Some && fits(LandingView { dx: snapped->0, rows, snapped: true });
            let b = fits(LandingView { dx: raw, rows, snapped: false });
            let c = snapped is Some && fits(LandingView { dx: snapped->0, rows: 0, snapped: true });
            let d = fits(LandingView { dx: raw, rows: 0, snapped: false });
            &&& first_where(tries, fits) is Some == (a || b || c || d)
            &&& first_where(tries, fits) matches Some(i) ==> {
                let l = tries[i];
                &&& fits(l)
                &&& l.rows == (if a || b {
                    rows
                } else {
                    0
                })
                &&& l.snapped == (if a || b {
                    a
                } else {
                    c
                })
                &&& l.dx == (if l.snapped {
                    snapped->0
                } else {
                    raw
                })
            }
        }),
{
    let tries = landings(snapped, raw, rows);
    lemma_first_where(tries, fits);
    match first_where(tries, fits) {
        Some(i) => {
            assert(i > 0 ==> !fits(tries[0]));
            assert(i > 1 ==> !fits(tries[1]));
            assert(i > 2 ==> !fits(tries[2]));
        },
        None => {
            assert(!fits(tries[0]));
            assert(tries.len() > 1 ==> !fits(tries[1]));
            assert(tries.len() > 2 ==> !fits(tries[2]));
            assert(tries.len() > 3 ==> !fits(tries[3]));
        },
    }
}

proof fn lemma_kept_shift(
    tracks: Seq<Track>,
    ids: Seq<Seq<char>>,
    dx: int,
    shift: int,
    threshold: int,
)
    requires
        threshold >= 0,
        within_reach(tracks, (if dx < 0 { 0 } else { dx }) + threshold),
        is_kept_shift(tracks, ids, dx, shift),
    ensures
        shift <= (if dx < 0 {
            0
        } else {
            dx
        }),
{
    if shift != dx {
        let (t, c) = choose|t: int, c: int| #[trigger]
            in_set(tracks, ids, t, c) && starts_at(tracks, t, c) + shift == 0;
        assert(in_set(tracks, ids, t, c));
        let e = ends_at(tracks, t, c);
        assert(0 <= starts_at(tracks, t, c));
    }
}

/// A dragged set goes where the pointer takes the grabbed clip: every clip by the same
/// ticks, held back at tick 0, and by as many rows as the pointer is off the grabbed
/// clip's row, or by none when the set mixes kinds. The landings are tried in this order:
/// the snapped shift and the plain one at those rows, and both again in the own rows. The
/// first at which every clip has room is taken, and the drag is refused without one.
pub proof fn law_set_follows_the_pointer(
    tracks: Seq<Track>,
    ids: Seq<Seq<char>>,
    t: int,
    c: int,
    dx: int,
    hover: int,
    playhead: int,
    threshold: int,
) -> (r: (int, Option<Probe>))
    requires
        tracks.len() <= usize::MAX,
        shown_unique(tracks),
        in_set(tracks, ids, t, c),
        threshold >= 0,
        within_reach(tracks, (if dx < 0 { 0 } else { dx }) + threshold),
    ensures
        is_kept_shift(tracks, ids, dx, r.0),
        ({
            let snap = snapped_shift(
                all_placed(tracks),
                ids,
                starts_at(tracks, t, c),
                ends_at(tracks, t, c),
                r.0,
                threshold,
                playhead,
            );
            let stays = snap is Some && forall|u: int, d: int| #[trigger]
                in_set(tracks, ids, u, d) ==> starts_at(tracks, u, d) + snap->0.start >= 0;
            r.1 == (if stays {
                snap
            } else {
                None
            })
        }),
        ({
            let g = group_drag(
                tracks,
                ids,
                tracks[t].id@,
                tracks[t].clips@[c].id@,
                dx,
                hover,
                playhead,
                threshold,
            );
            let rows = if set_of_one_kind(tracks, ids) {
                hover - t
            } else {
                0
            };
            let snap_there = r.1 is Some && set_has_room(tracks, ids, r.1->0.start, rows);
            let plain_there = set_has_room(tracks, ids, r.0, rows);
            let snap_level = r.1 is Some && set_has_room(tracks, ids, r.1->0.start, 0);
            let plain_level = set_has_room(tracks, ids, r.0, 0);
            &&& g.valid == (snap_there || plain_there || snap_level || plain_level)
            &&& g.valid ==> {
                &&& g.row_delta == (if snap_there || plain_there {
                    rows
                } else {
                    0
                })
                &&& g.has_snap == (if snap_there || plain_there {
                    snap_there
                } else {
                    snap_level
                })
                &&& g.dx == (if g.has_snap {
                    r.1->0.start
                } else {
                    r.0
                })
                &&& g.has_snap ==> g.line == r.1->0.line
                &&& g.is_noop == (g.dx == 0 && g.row_delta == 0)
                &&& forall|u: int, d: int| #[trigger]
                    in_set(tracks, ids, u, d) ==> moves_member(
                        g.moves,
                        tracks,
                        u,
                        d,
                        g.dx,
                        g.row_delta,
                    )
            }
        }),
{
    let clips = all_placed(tracks);
    let members = chosen(clips, ids);
    let lane = tracks[t].id@;
    let id = tracks[t].clips@[c].id@;
    lemma_members(tracks, ids);
    lemma_raw_shift(tracks, ids, dx, t, c);
    lemma_one_kind(tracks, ids);
    let f = is_anchor(lane, id);
    lemma_first_where(members, f);
    assert(holds_place(members, tracks, t, c));
    let k = choose|k: int| 0 <= k < members.len() && is_placed(#[trigger] members[k], tracks, t, c);
    assert(f(members[k]));
    let a = first_where(members, f)->0;
    assert(f(members[a]));
    assert(has_place(members[a], tracks));
    let (u, d) = choose|u: int, d: int| #[trigger] is_placed(members[a], tracks, u, d);
    assert(shown_at(tracks, u, d).id@ == shown_at(tracks, t, c).id@);
    assert(u == t && d == c);
    let snap = set_snap(clips, ids, members, members[a], dx, threshold, playhead);
    let raw = raw_shift(members, dx);
    let rows = row_shift(members, members[a], hover);
    let shift = match snap {
        Some(p) => Some(p.start),
        None => None,
    };
    let line = match snap {
        Some(p) => p.line,
        None => 0,
    };
    let fits = fitting(tracks, clips, ids, members);
    lemma_first_landing(shift, raw, rows, fits);
    lemma_kept_shift(tracks, ids, dx, raw, threshold);
    lemma_shift_in_range(tracks, ids, dx, raw, threshold);
    lemma_set_fits(tracks, ids, raw, rows);
    lemma_set_fits(tracks, ids, raw, 0);
    if snap is Some {
        let s = snap->0.start;
        lemma_snap_is_near(
            clips,
            ids,
            members[a].start as int,
            members[a].end_tick(),
            raw,
            threshold,
            playhead,
        );
        assert forall|v: int, e: int| #[trigger] in_set(tracks, ids, v, e) implies starts_at(
            tracks,
            v,
            e,
        ) + s >= 0 by {
            assert(holds_place(members, tracks, v, e));
            let j = choose|j: int|
                0 <= j < members.len() && is_placed(#[trigger] members[j], tracks, v, e);
            lemma_earliest(members);
            assert(earliest(members) <= members[j].start);
        }
        lemma_shift_in_range(tracks, ids, dx, s, threshold);
        lemma_set_fits(tracks, ids, s, rows);
        lemma_set_fits(tracks, ids, s, 0);
    }
    assert(i32::MIN <= ends_at(tracks, t, c) <= i32::MAX);
    assert(members[a].end_tick() == ends_at(tracks, t, c));
    lemma_earliest(members);
    let first = choose|m: int|
        0 <= m < members.len() && earliest(members) == (#[trigger] members[m]).start;
    assert(has_place(members[first], tracks));
    let (v, e) = choose|v: int, e: int| #[trigger] is_placed(members[first], tracks, v, e);
    assert(in_set(tracks, ids, v, e));
    match first_where(landings(shift, raw, rows), fits) {
        Some(i) => {
            let l = landings(shift, raw, rows)[i];
            assert forall|v: int, e: int| #[trigger] in_set(tracks, ids, v, e) implies moves_member(
                landed(tracks, members, l, line).moves,
                tracks,
                v,
                e,
                l.dx,
                l.rows,
            ) by {
                lemma_landed_moves(tracks, ids, l, line, v, e);
            }
        },
        None => {},
    }
    (raw, snap)
}

/// The rectangles that a landing shows are where its moves go: one for each, on the lane
/// and at the start of the move, as long as the clip and in the lane's colour.
pub proof fn law_ghosts_show_the_landing(
    tracks: Seq<Track>,
    members: Seq<PlacedClip>,
    l: LandingView,
    line: int,
    i: int,
)
    requires
        0 <= i < members.len(),
        forall|m: int|
            0 <= m < members.len() ==> 0 <= (#[trigger] members[m]).row + l.rows < tracks.len()
                && i64::MIN <= members[m].start + l.dx <= i64::MAX,
        tracks.len() <= i64::MAX,
    ensures
        ({
            let r = landed(tracks, members, l, line);
            let x = in_place_order(members)[i];
            &&& r.moves.len() == members.len()
            &&& r.ghosts.len() == members.len()
            &&& r.moves[i].clip == x.clip_id@
            &&& r.moves[i].start == x.start + l.dx
            &&& r.ghosts[i].start_tick == r.moves[i].start
            &&& r.ghosts[i].row == x.row + l.rows
            &&& r.moves[i].track == tracks[r.ghosts[i].row as int].id@
            &&& r.ghosts[i].color == tracks[r.ghosts[i].row as int].color
            &&& r.ghosts[i].duration_ticks == x.duration
        }),
{
    let order = in_place_order(members);
    lemma_stable_sort(members, by_place());
    lemma_sort_members(members, by_place());
    assert(order.contains(order[i]));
    assert(members.contains(order[i]));
    let m = choose|m: int| 0 <= m < members.len() && members[m] == order[i];
    assert(0 <= members[m].row + l.rows < tracks.len());
}

/// A clip that floats with the pointer stands for the clip where it was pressed.
pub proof fn law_floaters_stand_for_their_clips(c: PlacedClip)
    requires
        c.row <= i64::MAX,
    ensures
        floater(c).row == c.row,
        floater(c).start_tick == c.start,
        floater(c).duration_ticks == c.duration,
        floater(c).color == c.color,
{
}

// --- snapping -------------------------------------------------------------

/// The tick is an edge of a gathered clip that is not in the set.
spec fn is_outer_edge(x: int, c: PlacedClip, ids: Seq<Seq<char>>) -> bool {
    !ids.contains(c.clip_id@) && (x == c.start || x == c.start + c.duration)
}

proof fn lemma_outer_points(clips: Seq<PlacedClip>, ids: Seq<Seq<char>>)
    requires
        forall|k: int|
            0 <= k < clips.len() ==> i32::MIN <= (#[trigger] clips[k]).start + clips[k].duration
                <= i32::MAX,
    ensures
        forall|k: int, x: int|
            0 <= k < clips.len() && #[trigger] is_outer_edge(x, clips[k], ids) ==> outer_points(
                clips,
                ids,
            ).contains(x),
        forall|x: int| #[trigger]
            outer_points(clips, ids).contains(x) ==> exists|k: int|
                0 <= k < clips.len() && is_outer_edge(x, #[trigger] clips[k], ids),
    decreases clips.len(),
{
    if clips.len() > 0 {
        let init = clips.drop_last();
        let n = clips.len() - 1;
        assert forall|k: int| 0 <= k < init.len() implies i32::MIN <= (#[trigger] init[k]).start
            + init[k].duration <= i32::MAX by {
            assert(init[k] == clips[k]);
        }
        lemma_outer_points(init, ids);
        let before = outer_points(init, ids);
        let now = outer_points(clips, ids);
        assert(i32::MIN <= clips[n].start + clips[n].duration <= i32::MAX);
        assert forall|k: int, x: int|
            0 <= k < clips.len() && #[trigger] is_outer_edge(x, clips[k], ids) implies now.contains(
            x,
        ) by {
            if k < n {
                assert(is_outer_edge(x, init[k], ids));
                assert(before.contains(x));
                let j = choose|j: int| 0 <= j < before.len() && before[j] == x;
                assert(now[j] == x);
            } else {
                assert(now[before.len() as int] == clips[n].start);
                assert(now[before.len() as int + 1] == clips[n].start + clips[n].duration);
            }
        }
        assert forall|x: int| #[trigger] now.contains(x) implies exists|k: int|
            0 <= k < clips.len() && is_outer_edge(x, #[trigger] clips[k], ids) by {
            let j = choose|j: int| 0 <= j < now.len() && now[j] == x;
            if j < before.len() {
                assert(before[j] == x);
                assert(before.contains(x));
                let k = choose|k: int|
                    0 <= k < init.len() && is_outer_edge(x, #[trigger] init[k], ids);
                assert(is_outer_edge(x, clips[k], ids));
            } else {
                assert(is_outer_edge(x, clips[n], ids));
            }
        }
    }
}

/// The tick is an edge of the clip at a place, which is not in the set.
pub open spec fn is_edge_outside(
    x: int,
    tracks: Seq<Track>,
    ids: Seq<Seq<char>>,
    t: int,
    c: int,
) -> bool {
    is_shown(tracks, t, c) && !ids.contains(tracks[t].clips@[c].id@) && (x == starts_at(
        tracks,
        t,
        c,
    ) || x == ends_at(tracks, t, c))
}

/// The tick attracts an edge of the grabbed clip: it is tick 0, the playhead or an edge of
/// a clip that is not in the set.
pub open spec fn attracts_set(
    x: int,
    tracks: Seq<Track>,
    ids: Seq<Seq<char>>,
    playhead: int,
) -> bool {
    x == 0 || x == playhead || exists|t: int, c: int| #[trigger]
        is_edge_outside(x, tracks, ids, t, c)
}

proof fn lemma_set_points(tracks: Seq<Track>, ids: Seq<Seq<char>>, playhead: int)
    requires
        tracks.len() <= usize::MAX,
        within_reach(tracks, 0),
    ensures
        forall|x: int|
            (seq![0, playhead] + outer_points(all_placed(tracks), ids)).contains(x)
                == #[trigger] attracts_set(x, tracks, ids, playhead),
{
    let clips = all_placed(tracks);
    law_every_clip_is_placed(tracks);
    assert forall|k: int| 0 <= k < clips.len() implies i32::MIN <= (#[trigger] clips[k]).start
        + clips[k].duration <= i32::MAX by {
        assert(has_place(clips[k], tracks));
        let (t, c) = choose|t: int, c: int| #[trigger] is_placed(clips[k], tracks, t, c);
        assert(is_shown(tracks, t, c));
        let e = ends_at(tracks, t, c);
        assert(0 <= starts_at(tracks, t, c));
    }
    lemma_outer_points(clips, ids);
    let outer = outer_points(clips, ids);
    let all = seq![0, playhead] + outer;
    assert forall|x: int| all.contains(x) == #[trigger] attracts_set(x, tracks, ids, playhead) by {
        if all.contains(x) {
            let j = choose|j: int| 0 <= j < all.len() && all[j] == x;
            if j >= 2 {
                assert(outer[j - 2] == x);
                assert(outer.contains(x));
                let k = choose|k: int|
                    0 <= k < clips.len() && is_outer_edge(x, #[trigger] clips[k], ids);
                assert(has_place(clips[k], tracks));
                let (t, c) = choose|t: int, c: int| #[trigger] is_placed(clips[k], tracks, t, c);
                assert(is_edge_outside(x, tracks, ids, t, c));
            }
        }
        if attracts_set(x, tracks, ids, playhead) {
            if x == 0 {
                assert(all[0] == x);
            } else if x == playhead {
                assert(all[1] == x);
            } else {
                let (t, c) = choose|t: int, c: int| #[trigger]
                    is_edge_outside(x, tracks, ids, t, c);
                assert(holds_place(clips, tracks, t, c));
                let k = choose|k: int|
                    0 <= k < clips.len() && is_placed(#[trigger] clips[k], tracks, t, c);
                assert(is_outer_edge(x, clips[k], ids));
                let j = choose|j: int| 0 <= j < outer.len() && outer[j] == x;
                assert(all[j + 2] == x);
            }
        }
    }
}

proof fn lemma_shift_probes(points: Seq<int>, start: int, end: int, dx: int)
    ensures
        forall|x: int| #[trigger]
            points.contains(x) ==> shift_probes(points, start, end, dx).contains(
                shift_probe(x, start, dx),
            ) && shift_probes(points, start, end, dx).contains(shift_probe(x, end, dx)),
        forall|p: Probe| #[trigger]
            shift_probes(points, start, end, dx).contains(p) ==> points.contains(p.line) && (p
                == shift_probe(p.line, start, dx) || p == shift_probe(p.line, end, dx)),
    decreases points.len(),
{
    if points.len() > 0 {
        let init = points.drop_last();
        lemma_shift_probes(init, start, end, dx);
        let before = shift_probes(init, start, end, dx);
        let now = shift_probes(points, start, end, dx);
        assert forall|x: int| #[trigger] points.contains(x) implies now.contains(
            shift_probe(x, start, dx),
        ) && now.contains(shift_probe(x, end, dx)) by {
            let k = choose|k: int| 0 <= k < points.len() && points[k] == x;
            if k < init.len() {
                assert(init[k] == x);
                assert(init.contains(x));
                let i = choose|i: int|
                    0 <= i < before.len() && before[i] == shift_probe(x, start, dx);
                let j = choose|j: int| 0 <= j < before.len() && before[j] == shift_probe(x, end, dx);
                assert(now[i] == shift_probe(x, start, dx));
                assert(now[j] == shift_probe(x, end, dx));
            } else {
                assert(now[before.len() as int] == shift_probe(x, start, dx));
                assert(now[before.len() as int + 1] == shift_probe(x, end, dx));
            }
        }
        assert forall|p: Probe| #[trigger] now.contains(p) implies points.contains(p.line) && (p
            == shift_probe(p.line, start, dx) || p == shift_probe(p.line, end, dx)) by {
            let k = choose|k: int| 0 <= k < now.len() && now[k] == p;
            if k < before.len() {
                assert(before[k] == p);
                assert(before.contains(p));
                let i = choose|i: int| 0 <= i < init.len() && init[i] == p.line;
                assert(points[i] == p.line);
            } else {
                assert(points[points.len() - 1] == points.last());
            }
        }
    }
}

/// Snapping a set brings an edge of the grabbed clip onto a tick that attracts it: one
/// within the threshold of where the pointer pulls the edge, with none nearer to either
/// edge. There is no snap exactly when the threshold is not positive or every such tick is
/// out of reach of both edges.
pub proof fn law_set_snaps_to_the_nearest(
    tracks: Seq<Track>,
    ids: Seq<Seq<char>>,
    start: int,
    end: int,
    dx: int,
    threshold: int,
    playhead: int,
)
    requires
        tracks.len() <= usize::MAX,
        within_reach(tracks, 0),
        i32::MIN <= start + dx <= i32::MAX,
        i32::MIN <= end + dx <= i32::MAX,
    ensures
        ({
            let r = snapped_shift(all_placed(tracks), ids, start, end, dx, threshold, playhead);
            &&& threshold <= 0 ==> r is None
            &&& threshold > 0 && r is None ==> forall|x: int| #[trigger]
                attracts_set(x, tracks, ids, playhead) ==> apart_by(x, start + dx) > threshold
                    && apart_by(x, end + dx) > threshold
            &&& r matches Some(p) ==> {
                &&& attracts_set(p.line, tracks, ids, playhead)
                &&& p.start + start == p.line || p.start + end == p.line
                &&& apart_by(p.start, dx) <= threshold
                &&& forall|x: int| #[trigger]
                    attracts_set(x, tracks, ids, playhead) ==> apart_by(p.start, dx) <= apart_by(
                        x,
                        start + dx,
                    ) && apart_by(p.start, dx) <= apart_by(x, end + dx)
            }
        }),
{
    if threshold > 0 {
        let points = seq![0, playhead] + outer_points(all_placed(tracks), ids);
        lemma_set_points(tracks, ids, playhead);
        let ps = shift_probes(points, start, end, dx);
        lemma_shift_probes(points, start, end, dx);
        law_nearest_probe(ps, threshold);
        match nearest(ps, threshold) {
            Some(p) => {
                assert(ps.contains(p));
                assert(points.contains(p.line));
                assert(attracts_set(p.line, tracks, ids, playhead));
                assert forall|x: int| #[trigger]
                    attracts_set(x, tracks, ids, playhead) implies apart_by(p.start, dx)
                    <= apart_by(x, start + dx) && apart_by(p.start, dx) <= apart_by(
                    x,
                    end + dx,
                ) by {
                    assert(points.contains(x));
                    assert(ps.contains(shift_probe(x, start, dx)));
                    assert(ps.contains(shift_probe(x, end, dx)));
                }
            },
            None => {
                assert forall|x: int| #[trigger]
                    attracts_set(x, tracks, ids, playhead) implies apart_by(x, start + dx)
                    > threshold && apart_by(x, end + dx) > threshold by {
                    assert(points.contains(x));
                    assert(ps.contains(shift_probe(x, start, dx)));
                    assert(ps.contains(shift_probe(x, end, dx)));
                }
            },
        }
    }
}

} // verus!
