//! Dragging a multi-selection: one uniform shift in time and in rows for the
//! whole set, checked against everything outside it. When no landing fits, the
//! release commits nothing.

use vstd::prelude::*;

use crate::find::{first_where, lemma_first_found, lemma_first_where};
use crate::model::{Color, Sequence, Track};
use crate::num::{clamped32, distance, max64, max_int, min_int};
use crate::order::{lemma_sort_members, lemma_stable_sort};
use crate::selection::{all_placed, by_place, chosen, chosen_clips, in_place_order,
    lemma_filter_rows, lemma_placed_rows, placed_clips, rows_fit, sort_by_place, PlacedClip};
use crate::snap::{better, nearest, Probe};
use crate::text::{contains_text, str_eq, texts};

verus! {

/// A rectangle that stands for a clip while a set is dragged.
#[derive(Clone, Copy, Debug, PartialEq, Eq, Structural)]
pub struct GroupGhost {
    pub row: i64,
    pub start_tick: i64,
    pub duration_ticks: i32,
    pub color: Color,
}

/// Where one clip of the set goes.
#[derive(Debug)]
pub struct ClipMove {
    pub clip_id: String,
    pub track_id: String,
    pub start_tick: i64,
}

/// Where a dragged set lands.
#[derive(Debug)]
pub struct GroupDragResolution {
    pub valid: bool,
    pub is_noop: bool,
    pub resolved_dx_ticks: i64,
    pub row_delta: i64,
    pub has_snap: bool,
    pub snap_line_tick: i32,
    pub moves: Vec<ClipMove>,
    pub ghosts: Vec<GroupGhost>,
}

/// The contents of a [`ClipMove`].
pub struct MoveView {
    pub clip: Seq<char>,
    pub track: Seq<char>,
    pub start: int,
}

/// The contents of a list of moves.
pub open spec fn move_views(moves: Seq<ClipMove>) -> Seq<MoveView> {
    moves.map_values(
        |m: ClipMove| MoveView { clip: m.clip_id@, track: m.track_id@, start: m.start_tick as int },
    )
}

/// The contents of a [`GroupDragResolution`].
pub struct GroupView {
    pub valid: bool,
    pub is_noop: bool,
    pub dx: int,
    pub row_delta: int,
    pub has_snap: bool,
    pub line: int,
    pub moves: Seq<MoveView>,
    pub ghosts: Seq<GroupGhost>,
}

impl View for GroupDragResolution {
    type V = GroupView;

    open spec fn view(&self) -> GroupView {
        GroupView {
            valid: self.valid,
            is_noop: self.is_noop,
            dx: self.resolved_dx_ticks as int,
            row_delta: self.row_delta as int,
            has_snap: self.has_snap,
            line: self.snap_line_tick as int,
            moves: move_views(self.moves@),
            ghosts: self.ghosts@,
        }
    }
}

/// No landing.
pub open spec fn no_landing() -> GroupView {
    GroupView {
        valid: false,
        is_noop: true,
        dx: 0,
        row_delta: 0,
        has_snap: false,
        line: 0,
        moves: Seq::empty(),
        ghosts: Seq::empty(),
    }
}

/// The press-time rectangle of a clip.
pub open spec fn floater(c: PlacedClip) -> GroupGhost {
    GroupGhost {
        row: c.row as i64,
        start_tick: c.start as i64,
        duration_ticks: c.duration,
        color: c.color,
    }
}

/// Press-time rectangles of the selected clips in (row, start) order, for the
/// floating copies that follow the cursor.
pub fn group_floaters(sequence: &Sequence, ids: &Vec<String>) -> (r: Vec<GroupGhost>)
    requires
        sequence.tracks.len() <= i32::MAX,
    ensures
        r@ == in_place_order(chosen(all_placed(sequence.tracks@), texts(ids@))).map_values(
            |c: PlacedClip| floater(c),
        ),
{
    let clips = placed_clips(sequence);
    let members = chosen_clips(&clips, ids);
    proof {
        lemma_placed_rows(sequence.tracks@);
        assert(rows_fit(clips@));
        lemma_filter_rows(clips@, |c: PlacedClip| texts(ids@).contains(c.clip_id@));
    }
    let sorted = sort_by_place(&members);
    let ghost whole = sorted@.map_values(|c: PlacedClip| floater(c));
    let mut out: Vec<GroupGhost> = Vec::new();
    let mut i: usize = 0;
    while i < sorted.len()
        invariant
            i <= sorted.len(),
            whole == sorted@.map_values(|c: PlacedClip| floater(c)),
            out@ == whole.take(i as int),
        decreases sorted.len() - i,
    {
        let c = &sorted[i];
        out.push(
            GroupGhost {
                row: c.row as i64,
                start_tick: c.start as i64,
                duration_ticks: c.duration,
                color: c.color,
            },
        );
        assert(out@ =~= whole.take(i as int + 1));
        i += 1;
    }
    assert(whole.take(i as int) =~= whole);
    out
}

// --- the shift ------------------------------------------------------------

/// Whether a clip stays put while the set moves.
pub open spec fn outside(c: PlacedClip, ids: Seq<Seq<char>>) -> bool {
    !ids.contains(c.clip_id@)
}

/// The edges of the clips that stay put.
pub open spec fn outer_points(clips: Seq<PlacedClip>, ids: Seq<Seq<char>>) -> Seq<int>
    decreases clips.len(),
{
    if clips.len() == 0 {
        Seq::empty()
    } else {
        let before = outer_points(clips.drop_last(), ids);
        if outside(clips.last(), ids) {
            before.push(clips.last().start as int).push(clips.last().end_tick())
        } else {
            before
        }
    }
}

/// Shifting by `dx` so that the edge at `edge` meets `point` instead.
pub open spec fn shift_probe(point: int, edge: int, dx: int) -> Probe {
    let at = clamped32(edge + dx);
    Probe { travel: distance(point, at), start: dx + (point - at), line: point }
}

/// Both shifts of each point, in order.
pub open spec fn shift_probes(points: Seq<int>, start: int, end: int, dx: int) -> Seq<Probe>
    decreases points.len(),
{
    if points.len() == 0 {
        Seq::empty()
    } else {
        shift_probes(points.drop_last(), start, end, dx).push(
            shift_probe(points.last(), start, dx),
        ).push(shift_probe(points.last(), end, dx))
    }
}

/// The shift that brings an edge of the anchor onto the nearest point.
pub open spec fn snapped_shift(
    clips: Seq<PlacedClip>,
    ids: Seq<Seq<char>>,
    start: int,
    end: int,
    dx: int,
    threshold: int,
    playhead: int,
) -> Option<Probe> {
    if threshold <= 0 {
        None
    } else {
        nearest(
            shift_probes(seq![0, playhead] + outer_points(clips, ids), start, end, dx),
            threshold,
        )
    }
}

#[derive(Clone, Copy)]
struct BestShift {
    travel: i64,
    dx: i64,
    line: i32,
}

spec fn shift_view(b: Option<BestShift>) -> Option<Probe> {
    match b {
        None => None,
        Some(b) => Some(Probe { travel: b.travel as int, start: b.dx as int, line: b.line as int }),
    }
}

fn clamp_wide(x: i64) -> (r: i64)
    ensures
        r == clamped32(x as int),
{
    if x < -0x8000_0000 {
        -0x8000_0000
    } else if x > 0x7fff_ffff {
        0x7fff_ffff
    } else {
        x
    }
}

fn weigh(best: Option<BestShift>, point: i32, edge: i32, dx: i64, threshold: i32) -> (r: Option<
    BestShift,
>)
    requires
        -0x1_0000_0000 <= dx <= 0x1_0000_0000,
    ensures
        shift_view(r) == better(
            shift_view(best),
            shift_probe(point as int, edge as int, dx as int),
            threshold as int,
        ),
{
    let at: i64 = clamp_wide(edge as i64 + dx);
    let off: i64 = point as i64 - at;
    let travel: i64 = if off >= 0 {
        off
    } else {
        -off
    };
    let closer: bool = match best {
        None => true,
        Some(b) => travel < b.travel,
    };
    if travel <= threshold as i64 && closer {
        Some(BestShift { travel, dx: dx + off, line: point })
    } else {
        best
    }
}

proof fn lemma_shift_push(points: Seq<int>, point: int, start: int, end: int, dx: int, threshold: int)
    ensures
        nearest(shift_probes(points.push(point), start, end, dx), threshold) == better(
            better(
                nearest(shift_probes(points, start, end, dx), threshold),
                shift_probe(point, start, dx),
                threshold,
            ),
            shift_probe(point, end, dx),
            threshold,
        ),
{
    reveal_with_fuel(nearest, 3);
    let ps = shift_probes(points, start, end, dx);
    let a = ps.push(shift_probe(point, start, dx));
    let b = a.push(shift_probe(point, end, dx));
    assert(points.push(point).drop_last() =~= points);
    assert(b.drop_last() =~= a);
    assert(a.drop_last() =~= ps);
}

/// Best shift for the anchor's edges: `(shift, guide tick)` when a clip edge
/// outside the selection, the playhead or tick 0 is within the threshold.
fn snap_dx(
    clips: &Vec<PlacedClip>,
    ids: &Vec<String>,
    anchor_start: i32,
    anchor_end: i32,
    dx: i64,
    threshold: i32,
    playhead_tick: i32,
) -> (r: Option<(i64, i32)>)
    requires
        -0x1_0000_0000 <= dx <= 0x1_0000_0000,
    ensures
        match snapped_shift(
            clips@,
            texts(ids@),
            anchor_start as int,
            anchor_end as int,
            dx as int,
            threshold as int,
            playhead_tick as int,
        ) {
            None => r is None,
            Some(p) => r matches Some((shift, line)) && shift == p.start && line == p.line,
        },
{
    if threshold <= 0 {
        return None;
    }
    let ghost set = texts(ids@);
    let ghost (s, e, d, th) = (anchor_start as int, anchor_end as int, dx as int, threshold as int);
    let ghost mut points: Seq<int> = Seq::empty();
    let best = weigh(weigh(None, 0, anchor_start, dx, threshold), 0, anchor_end, dx, threshold);
    proof {
        lemma_shift_push(points, 0, s, e, d, th);
        points = points.push(0);
    }
    let mut best = weigh(
        weigh(best, playhead_tick, anchor_start, dx, threshold),
        playhead_tick,
        anchor_end,
        dx,
        threshold,
    );
    proof {
        lemma_shift_push(points, playhead_tick as int, s, e, d, th);
        points = points.push(playhead_tick as int);
        assert(points =~= seq![0, playhead_tick as int] + outer_points(clips@.take(0), set));
    }
    let mut i: usize = 0;
    while i < clips.len()
        invariant
            i <= clips.len(),
            -0x1_0000_0000 <= dx <= 0x1_0000_0000,
            set == texts(ids@),
            s == anchor_start,
            e == anchor_end,
            d == dx,
            th == threshold,
            points == seq![0, playhead_tick as int] + outer_points(clips@.take(i as int), set),
            shift_view(best) == nearest(shift_probes(points, s, e, d), th),
        decreases clips.len() - i,
    {
        let clip = &clips[i];
        let ghost upper = clips@.take(i as int + 1);
        proof {
            assert(upper.drop_last() =~= clips@.take(i as int));
            assert(upper.last() == *clip);
        }
        if !contains_text(ids, clip.clip_id.as_str()) {
            let from: i32 = clip.start;
            let to: i32 = clip.end();
            best =
            weigh(weigh(best, from, anchor_start, dx, threshold), from, anchor_end, dx, threshold);
            proof {
                lemma_shift_push(points, from as int, s, e, d, th);
                points = points.push(from as int);
            }
            best =
            weigh(weigh(best, to, anchor_start, dx, threshold), to, anchor_end, dx, threshold);
            proof {
                lemma_shift_push(points, to as int, s, e, d, th);
                points = points.push(to as int);
                assert(points =~= seq![0, playhead_tick as int] + outer_points(upper, set));
            }
        }
        i += 1;
    }
    assert(clips@.take(i as int) =~= clips@);
    match best {
        None => None,
        Some(b) => Some((b.dx, b.line)),
    }
}

// --- the landing ----------------------------------------------------------

/// A candidate landing: shift in ticks, shift in rows, whether it is snapped.
#[derive(Clone, Copy, Debug, PartialEq, Eq, Structural)]
struct Landing {
    dx: i64,
    rows: i64,
    snapped: bool,
}

/// A candidate landing as integers.
pub struct LandingView {
    pub dx: int,
    pub rows: int,
    pub snapped: bool,
}

spec fn landing_view(l: Landing) -> LandingView {
    LandingView { dx: l.dx as int, rows: l.rows as int, snapped: l.snapped }
}

/// `member`, shifted, lands on an unlocked lane of its kind and meets no clip
/// outside the set.
pub open spec fn member_fits(
    tracks: Seq<Track>,
    clips: Seq<PlacedClip>,
    ids: Seq<Seq<char>>,
    member: PlacedClip,
    dx: int,
    rows: int,
) -> bool {
    let row = member.row + rows;
    let start = member.start + dx;
    &&& 0 <= row < tracks.len()
    &&& tracks[row].kind == member.kind
    &&& !tracks[row].locked
    &&& forall|i: int|
        0 <= i < clips.len() && (#[trigger] clips[i]).row == row && outside(clips[i], ids)
            ==> !(start < clips[i].end_tick() && clips[i].start < clamped32(
            start + member.duration,
        ))
}

/// Every member fits.
pub open spec fn set_fits(
    tracks: Seq<Track>,
    clips: Seq<PlacedClip>,
    ids: Seq<Seq<char>>,
    members: Seq<PlacedClip>,
    dx: int,
    rows: int,
) -> bool {
    forall|m: int|
        0 <= m < members.len() ==> member_fits(tracks, clips, ids, #[trigger] members[m], dx, rows)
}

/// Earliest start in the set.
pub open spec fn earliest(members: Seq<PlacedClip>) -> int
    decreases members.len(),
{
    if members.len() == 0 {
        i32::MAX as int
    } else {
        min_int(earliest(members.drop_last()), members.last().start as int)
    }
}

/// All members are of one kind.
pub open spec fn one_kind(members: Seq<PlacedClip>) -> bool {
    forall|m: int| 0 <= m < members.len() ==> (#[trigger] members[m]).kind == members[0].kind
}

/// The grabbed clip among the members.
pub open spec fn is_anchor(track: Seq<char>, clip: Seq<char>) -> spec_fn(PlacedClip) -> bool {
    |c: PlacedClip| c.track_id@ == track && c.clip_id@ == clip
}

/// The landings to try: the snapped and then the raw shift at the hovered rows,
/// then both again without leaving the rows.
pub open spec fn landings(snapped: Option<int>, raw: int, rows: int) -> Seq<LandingView> {
    let first = match snapped {
        Some(dx) => seq![
            LandingView { dx, rows, snapped: true },
            LandingView { dx: raw, rows, snapped: false },
        ],
        None => seq![LandingView { dx: raw, rows, snapped: false }],
    };
    let level = match snapped {
        Some(dx) => seq![
            LandingView { dx, rows: 0, snapped: true },
            LandingView { dx: raw, rows: 0, snapped: false },
        ],
        None => seq![LandingView { dx: raw, rows: 0, snapped: false }],
    };
    if rows != 0 {
        first + level
    } else {
        first
    }
}

/// The landings at which the set fits.
pub open spec fn fitting(
    tracks: Seq<Track>,
    clips: Seq<PlacedClip>,
    ids: Seq<Seq<char>>,
    members: Seq<PlacedClip>,
) -> spec_fn(LandingView) -> bool {
    |l: LandingView| set_fits(tracks, clips, ids, members, l.dx, l.rows)
}

/// Where one member goes.
pub open spec fn landed_move(tracks: Seq<Track>, c: PlacedClip, dx: int, rows: int) -> MoveView {
    MoveView { clip: c.clip_id@, track: tracks[c.row + rows].id@, start: c.start + dx }
}

/// The rectangle of one member where it goes.
pub open spec fn landed_ghost(tracks: Seq<Track>, c: PlacedClip, dx: int, rows: int) -> GroupGhost {
    GroupGhost {
        row: (c.row + rows) as i64,
        start_tick: (c.start + dx) as i64,
        duration_ticks: c.duration,
        color: tracks[c.row + rows].color,
    }
}

/// The set after landing at `l`.
pub open spec fn landed(
    tracks: Seq<Track>,
    members: Seq<PlacedClip>,
    l: LandingView,
    line: int,
) -> GroupView {
    let order = in_place_order(members);
    GroupView {
        valid: true,
        is_noop: l.dx == 0 && l.rows == 0,
        dx: l.dx,
        row_delta: l.rows,
        has_snap: l.snapped,
        line: if l.snapped {
            line
        } else {
            0
        },
        moves: Seq::new(order.len(), |i: int| landed_move(tracks, order[i], l.dx, l.rows)),
        ghosts: Seq::new(order.len(), |i: int| landed_ghost(tracks, order[i], l.dx, l.rows)),
    }
}

/// The shift that keeps the set from crossing tick 0.
pub open spec fn raw_shift(members: Seq<PlacedClip>, dx: int) -> int {
    max_int(dx, -earliest(members))
}

/// The rows that the set moves by: none when it spans several kinds.
pub open spec fn row_shift(members: Seq<PlacedClip>, anchor: PlacedClip, hover: int) -> int {
    if one_kind(members) {
        hover - anchor.row
    } else {
        0
    }
}

/// The snap for a set grabbed at `anchor`, if it keeps the set off tick 0.
pub open spec fn set_snap(
    clips: Seq<PlacedClip>,
    ids: Seq<Seq<char>>,
    members: Seq<PlacedClip>,
    anchor: PlacedClip,
    dx: int,
    threshold: int,
    playhead: int,
) -> Option<Probe> {
    match snapped_shift(
        clips,
        ids,
        anchor.start as int,
        anchor.end_tick(),
        raw_shift(members, dx),
        threshold,
        playhead,
    ) {
        Some(p) => if p.start >= -earliest(members) {
            Some(p)
        } else {
            None
        },
        None => None,
    }
}

/// What a drag of the set resolves to.
pub open spec fn group_drag(
    tracks: Seq<Track>,
    ids: Seq<Seq<char>>,
    anchor_track: Seq<char>,
    anchor_clip: Seq<char>,
    dx: int,
    hover: int,
    playhead: int,
    threshold: int,
) -> GroupView {
    let clips = all_placed(tracks);
    let members = chosen(clips, ids);
    match first_where(members, is_anchor(anchor_track, anchor_clip)) {
        None => no_landing(),
        Some(a) => {
            let snap = set_snap(clips, ids, members, members[a], dx, threshold, playhead);
            let tries = landings(
                match snap {
                    Some(p) => Some(p.start),
                    None => None,
                },
                raw_shift(members, dx),
                row_shift(members, members[a], hover),
            );
            match first_where(tries, fitting(tracks, clips, ids, members)) {
                None => no_landing(),
                Some(i) => landed(
                    tracks,
                    members,
                    tries[i],
                    match snap {
                        Some(p) => p.line,
                        None => 0,
                    },
                ),
            }
        },
    }
}

fn invalid_resolution() -> (r: GroupDragResolution)
    ensures
        r@ == no_landing(),
{
    let r = GroupDragResolution {
        valid: false,
        is_noop: true,
        resolved_dx_ticks: 0,
        row_delta: 0,
        has_snap: false,
        snap_line_tick: 0,
        moves: Vec::new(),
        ghosts: Vec::new(),
    };
    assert(r@.moves =~= Seq::<MoveView>::empty());
    assert(r@.ghosts =~= Seq::<GroupGhost>::empty());
    r
}

/// Whether every selected clip, shifted by (`dx`, `rows`), lands on an unlocked
/// lane of its kind without overlapping any clip outside the set.
fn placement_fits(
    clips: &Vec<PlacedClip>,
    ids: &Vec<String>,
    members: &Vec<PlacedClip>,
    sequence: &Sequence,
    dx: i64,
    rows: i64,
) -> (r: bool)
    requires
        rows_fit(members@),
        rows_fit(clips@),
        sequence.tracks.len() <= i32::MAX,
        -0x2_0000_0000 <= dx <= 0x2_0000_0000,
        -0x2_0000_0000 <= rows <= 0x2_0000_0000,
    ensures
        r == set_fits(sequence.tracks@, clips@, texts(ids@), members@, dx as int, rows as int),
{
    let mut m: usize = 0;
    while m < members.len()
        invariant
            m <= members.len(),
            rows_fit(members@),
            rows_fit(clips@),
            sequence.tracks.len() <= i32::MAX,
            -0x2_0000_0000 <= dx <= 0x2_0000_0000,
            -0x2_0000_0000 <= rows <= 0x2_0000_0000,
            forall|j: int|
                0 <= j < m ==> member_fits(
                    sequence.tracks@,
                    clips@,
                    texts(ids@),
                    #[trigger] members@[j],
                    dx as int,
                    rows as int,
                ),
        decreases members.len() - m,
    {
        let member = &members[m];
        let row: i64 = member.row as i64 + rows;
        if row < 0 || row >= sequence.tracks.len() as i64 {
            assert(!member_fits(sequence.tracks@, clips@, texts(ids@), *member, dx as int, rows as int));
            return false;
        }
        let track = &sequence.tracks[row as usize];
        if track.kind != member.kind || track.locked {
            assert(!member_fits(sequence.tracks@, clips@, texts(ids@), *member, dx as int, rows as int));
            return false;
        }
        let start: i64 = member.start as i64 + dx;
        let end: i64 = clamp_wide(start + member.duration as i64);
        let mut i: usize = 0;
        while i < clips.len()
            invariant
                i <= clips.len(),
                m < members.len(),
                *member == members@[m as int],
                rows_fit(clips@),
                row == member.row + rows,
                0 <= row < sequence.tracks.len(),
                start == member.start + dx,
                end == clamped32(start + member.duration),
                forall|j: int|
                    0 <= j < i && (#[trigger] clips@[j]).row == row && outside(clips@[j], texts(ids@))
                        ==> !(start < clips@[j].end_tick() && clips@[j].start < end),
            decreases clips.len() - i,
        {
            let other = &clips[i];
            if other.row as i64 == row && !contains_text(ids, other.clip_id.as_str()) && start
                < other.end() as i64 && (other.start as i64) < end {
                assert(!member_fits(
                    sequence.tracks@,
                    clips@,
                    texts(ids@),
                    *member,
                    dx as int,
                    rows as int,
                )) by {
                    assert(clips@[i as int].row == row);
                }
                return false;
            }
            i += 1;
        }
        m += 1;
    }
    true
}

fn earliest_start(members: &Vec<PlacedClip>) -> (r: i32)
    ensures
        r == earliest(members@),
{
    let mut least: i32 = i32::MAX;
    let mut i: usize = 0;
    while i < members.len()
        invariant
            i <= members.len(),
            least == earliest(members@.take(i as int)),
        decreases members.len() - i,
    {
        assert(members@.take(i as int + 1).drop_last() =~= members@.take(i as int));
        if members[i].start < least {
            least = members[i].start;
        }
        i += 1;
    }
    assert(members@.take(i as int) =~= members@);
    least
}

fn is_one_kind(members: &Vec<PlacedClip>) -> (r: bool)
    ensures
        r == one_kind(members@),
{
    let mut i: usize = 0;
    while i < members.len()
        invariant
            i <= members.len(),
            forall|m: int| 0 <= m < i ==> (#[trigger] members@[m]).kind == members@[0].kind,
        decreases members.len() - i,
    {
        if members[i].kind != members[0].kind {
            return false;
        }
        i += 1;
    }
    true
}

fn find_anchor(members: &Vec<PlacedClip>, track: &str, clip: &str) -> (r: Option<usize>)
    ensures
        match r {
            Some(i) => i < members.len() && first_where(members@, is_anchor(track@, clip@)) == Some(
                i as int,
            ),
            None => first_where(members@, is_anchor(track@, clip@)) is None,
        },
{
    let ghost p = is_anchor(track@, clip@);
    let mut i: usize = 0;
    while i < members.len()
        invariant
            i <= members.len(),
            p == is_anchor(track@, clip@),
            forall|j: int| 0 <= j < i ==> !p(#[trigger] members@[j]),
        decreases members.len() - i,
    {
        if str_eq(members[i].track_id.as_str(), track) && str_eq(members[i].clip_id.as_str(), clip) {
            proof {
                lemma_first_found(members@, p, i as int);
            }
            return Some(i);
        }
        i += 1;
    }
    proof {
        lemma_first_where(members@, p);
    }
    None
}

/// The landings to try, as machine values.
fn landings_to_try(snapped: Option<i64>, raw: i64, rows: i64) -> (r: Vec<Landing>)
    ensures
        r@.map_values(|l: Landing| landing_view(l)) == landings(
            match snapped {
                Some(dx) => Some(dx as int),
                None => None,
            },
            raw as int,
            rows as int,
        ),
{
    let mut out: Vec<Landing> = Vec::new();
    match snapped {
        Some(dx) => {
            out.push(Landing { dx, rows, snapped: true });
        },
        None => {},
    }
    out.push(Landing { dx: raw, rows, snapped: false });
    if rows != 0 {
        match snapped {
            Some(dx) => {
                out.push(Landing { dx, rows: 0, snapped: true });
            },
            None => {},
        }
        out.push(Landing { dx: raw, rows: 0, snapped: false });
    }
    assert(out@.map_values(|l: Landing| landing_view(l)) =~= landings(
        match snapped {
            Some(dx) => Some(dx as int),
            None => None,
        },
        raw as int,
        rows as int,
    ));
    out
}

/// Build the resolution of a set that fits at `l`.
fn land(sequence: &Sequence, members: &Vec<PlacedClip>, l: Landing, line: i32) -> (r:
    GroupDragResolution)
    requires
        rows_fit(members@),
        sequence.tracks.len() <= i32::MAX,
        -0x2_0000_0000 <= l.dx <= 0x2_0000_0000,
        -0x2_0000_0000 <= l.rows <= 0x2_0000_0000,
        forall|m: int|
            0 <= m < members.len() ==> 0 <= (#[trigger] members@[m]).row + l.rows
                < sequence.tracks.len(),
    ensures
        r@ == landed(sequence.tracks@, members@, landing_view(l), line as int),
{
    let sorted = sort_by_place(members);
    let ghost goal = landed(sequence.tracks@, members@, landing_view(l), line as int);
    proof {
        lemma_stable_sort(members@, by_place());
        lemma_sort_members(members@, by_place());
        assert forall|i: int| 0 <= i < sorted.len() implies 0 <= (#[trigger] sorted@[i]).row
            + l.rows < sequence.tracks.len() && sorted@[i].row <= i32::MAX by {
            assert(sorted@.contains(sorted@[i]));
            assert(members@.contains(sorted@[i]));
        }
    }
    let mut moves: Vec<ClipMove> = Vec::new();
    let mut ghosts: Vec<GroupGhost> = Vec::new();
    let mut i: usize = 0;
    assert(move_views(moves@) =~= goal.moves.take(0));
    while i < sorted.len()
        invariant
            i <= sorted.len(),
            sorted@ == in_place_order(members@),
            goal == landed(sequence.tracks@, members@, landing_view(l), line as int),
            sequence.tracks.len() <= i32::MAX,
            -0x2_0000_0000 <= l.dx <= 0x2_0000_0000,
            -0x2_0000_0000 <= l.rows <= 0x2_0000_0000,
            forall|k: int|
                0 <= k < sorted.len() ==> 0 <= (#[trigger] sorted@[k]).row + l.rows
                    < sequence.tracks.len() && sorted@[k].row <= i32::MAX,
            move_views(moves@) == goal.moves.take(i as int),
            ghosts@ == goal.ghosts.take(i as int),
        decreases sorted.len() - i,
    {
        let c = &sorted[i];
        assert(sorted@[i as int].row <= i32::MAX);
        let row: i64 = c.row as i64 + l.rows;
        let track = &sequence.tracks[row as usize];
        let start: i64 = c.start as i64 + l.dx;
        let ghost was = move_views(moves@);
        moves.push(
            ClipMove { clip_id: c.clip_id.clone(), track_id: track.id.clone(), start_tick: start },
        );
        ghosts.push(
            GroupGhost {
                row,
                start_tick: start,
                duration_ticks: c.duration,
                color: track.color,
            },
        );
        proof {
            assert(move_views(moves@) =~= was.push(goal.moves[i as int]));
            assert(move_views(moves@) =~= goal.moves.take(i as int + 1));
            assert(ghosts@ =~= goal.ghosts.take(i as int + 1));
        }
        i += 1;
    }
    proof {
        assert(goal.moves.take(i as int) =~= goal.moves);
        assert(goal.ghosts.take(i as int) =~= goal.ghosts);
    }
    GroupDragResolution {
        valid: true,
        is_noop: l.dx == 0 && l.rows == 0,
        resolved_dx_ticks: l.dx,
        row_delta: l.rows,
        has_snap: l.snapped,
        snap_line_tick: if l.snapped {
            line
        } else {
            0
        },
        moves,
        ghosts,
    }
}

/// Resolve a multi-selection drag: one uniform shift (kept off tick 0, snapped
/// on the grabbed clip's edges) and one row shift (the hovered row minus the
/// grabbed clip's row; none when the set spans several lane kinds).
///
/// Every member must land on an unlocked lane of its own kind with no overlap
/// against clips outside the set. When the snapped or row-shifted landing does
/// not fit, weaker ones are tried; when nothing fits the result is invalid.
pub fn resolve_group_drag(
    sequence: &Sequence,
    ids: &Vec<String>,
    anchor_track_id: &str,
    anchor_clip_id: &str,
    dx_ticks: i32,
    hover_row: i32,
    playhead_tick: i32,
    snap_threshold_ticks: i32,
) -> (r: GroupDragResolution)
    requires
        sequence.tracks.len() <= i32::MAX,
    ensures
        r@ == group_drag(
            sequence.tracks@,
            texts(ids@),
            anchor_track_id@,
            anchor_clip_id@,
            dx_ticks as int,
            hover_row as int,
            playhead_tick as int,
            snap_threshold_ticks as int,
        ),
{
    let clips = placed_clips(sequence);
    let members = chosen_clips(&clips, ids);
    proof {
        lemma_placed_rows(sequence.tracks@);
        assert(rows_fit(clips@));
        lemma_filter_rows(clips@, |c: PlacedClip| texts(ids@).contains(c.clip_id@));
    }
    let at: usize = match find_anchor(&members, anchor_track_id, anchor_clip_id) {
        Some(i) => i,
        None => {
            return invalid_resolution();
        },
    };
    let anchor = &members[at];
    assert(members@[at as int].row <= i32::MAX);
    let rows: i64 = if is_one_kind(&members) {
        hover_row as i64 - anchor.row as i64
    } else {
        0
    };
    let dx_min: i64 = -(earliest_start(&members) as i64);
    let dx_raw: i64 = max64(dx_ticks as i64, dx_min);
    let snap: Option<(i64, i32)> = match snap_dx(
        &clips,
        ids,
        anchor.start,
        anchor.end(),
        dx_raw,
        snap_threshold_ticks,
        playhead_tick,
    ) {
        Some((dx, line)) => if dx >= dx_min {
            Some((dx, line))
        } else {
            None
        },
        None => None,
    };
    let ghost snap_spec = set_snap(
        clips@,
        texts(ids@),
        members@,
        *anchor,
        dx_ticks as int,
        snap_threshold_ticks as int,
        playhead_tick as int,
    );
    let dx_snapped: Option<i64> = match snap {
        Some((dx, _)) => Some(dx),
        None => None,
    };
    let line: i32 = match snap {
        Some((_, line)) => line,
        None => 0,
    };
    proof {
        if snap_spec is Some {
            lemma_snap_near(
                shift_probes(
                    seq![0, playhead_tick as int] + outer_points(clips@, texts(ids@)),
                    anchor.start as int,
                    anchor.end_tick(),
                    dx_raw as int,
                ),
                snap_threshold_ticks as int,
            );
            lemma_shift_probes_near(
                seq![0, playhead_tick as int] + outer_points(clips@, texts(ids@)),
                anchor.start as int,
                anchor.end_tick(),
                dx_raw as int,
            );
        }
    }
    let tries = landings_to_try(dx_snapped, dx_raw, rows);
    let ghost wide = tries@.map_values(|l: Landing| landing_view(l));
    let ghost p = fitting(sequence.tracks@, clips@, texts(ids@), members@);
    proof {
        lemma_landing_values(
            match snap_spec {
                Some(p) => Some(p.start),
                None => None,
            },
            dx_raw as int,
            rows as int,
        );
        assert(snap_spec is Some ==> -0x2_0000_0000 <= snap_spec->0.start <= 0x2_0000_0000);
        assert forall|j: int| 0 <= j < tries.len() implies -0x2_0000_0000 <= (
        #[trigger] tries@[j]).dx <= 0x2_0000_0000 && -0x2_0000_0000 <= tries@[j].rows
            <= 0x2_0000_0000 by {
            assert(wide[j] == landing_view(tries@[j]));
        }
    }
    let mut i: usize = 0;
    while i < tries.len()
        invariant
            i <= tries.len(),
            sequence.tracks.len() <= i32::MAX,
            rows_fit(clips@),
            rows_fit(members@),
            clips@ == all_placed(sequence.tracks@),
            members@ == chosen(clips@, texts(ids@)),
            at < members.len(),
            first_where(members@, is_anchor(anchor_track_id@, anchor_clip_id@)) == Some(at as int),
            snap_spec == set_snap(
                clips@,
                texts(ids@),
                members@,
                members@[at as int],
                dx_ticks as int,
                snap_threshold_ticks as int,
                playhead_tick as int,
            ),
            line == match snap_spec {
                Some(p) => p.line,
                None => 0,
            },
            wide == tries@.map_values(|l: Landing| landing_view(l)),
            wide == landings(
                match snap_spec {
                    Some(p) => Some(p.start),
                    None => None,
                },
                raw_shift(members@, dx_ticks as int),
                row_shift(members@, members@[at as int], hover_row as int),
            ),
            p == fitting(sequence.tracks@, clips@, texts(ids@), members@),
            forall|j: int|
                0 <= j < tries.len() ==> -0x2_0000_0000 <= (#[trigger] tries@[j]).dx
                    <= 0x2_0000_0000 && -0x2_0000_0000 <= tries@[j].rows <= 0x2_0000_0000,
            forall|j: int| 0 <= j < i ==> !p(#[trigger] wide[j]),
        decreases tries.len() - i,
    {
        let l = tries[i];
        assert(wide[i as int] == landing_view(l));
        assert(tries@[i as int] == l);
        if placement_fits(&clips, ids, &members, sequence, l.dx, l.rows) {
            proof {
                assert(p(wide[i as int]));
                lemma_first_found(wide, p, i as int);
                assert forall|m: int| 0 <= m < members.len() implies 0 <= (
                #[trigger] members@[m]).row + l.rows < sequence.tracks.len() by {
                    assert(member_fits(
                        sequence.tracks@,
                        clips@,
                        texts(ids@),
                        members@[m],
                        l.dx as int,
                        l.rows as int,
                    ));
                }
            }
            return land(sequence, &members, l, line);
        }
        i += 1;
    }
    proof {
        lemma_first_where(wide, p);
    }
    invalid_resolution()
}

proof fn lemma_landing_values(snapped: Option<int>, raw: int, rows: int)
    ensures
        forall|j: int|
            0 <= j < landings(snapped, raw, rows).len() ==> {
                let l = #[trigger] landings(snapped, raw, rows)[j];
                (l.dx == raw || snapped == Some(l.dx)) && (l.rows == rows || l.rows == 0)
            },
{
}

pub proof fn lemma_snap_near(ps: Seq<Probe>, threshold: int)
    ensures
        nearest(ps, threshold) is Some ==> ps.contains(nearest(ps, threshold)->0) && nearest(
            ps,
            threshold,
        )->0.travel <= threshold,
    decreases ps.len(),
{
    if ps.len() > 0 {
        let front = ps.drop_last();
        lemma_snap_near(front, threshold);
        if nearest(front, threshold) is Some {
            let p = nearest(front, threshold)->0;
            let i = choose|i: int| 0 <= i < front.len() && front[i] == p;
            assert(ps[i] == p);
        }
        assert(ps[ps.len() - 1] == ps.last());
    }
}

pub proof fn lemma_shift_probes_near(points: Seq<int>, start: int, end: int, dx: int)
    ensures
        forall|p: Probe| #[trigger]
            shift_probes(points, start, end, dx).contains(p) ==> distance(p.start, dx) <= p.travel,
    decreases points.len(),
{
    if points.len() > 0 {
        let front = points.drop_last();
        lemma_shift_probes_near(front, start, end, dx);
        let ps = shift_probes(points, start, end, dx);
        let before = shift_probes(front, start, end, dx);
        assert forall|p: Probe| #[trigger] ps.contains(p) implies distance(p.start, dx)
            <= p.travel by {
            let i = choose|i: int| 0 <= i < ps.len() && ps[i] == p;
            if i < before.len() {
                assert(before[i] == p);
                assert(before.contains(p));
            }
        }
    }
}

// --- laws -----------------------------------------------------------------

proof fn lemma_earliest(members: Seq<PlacedClip>)
    ensures
        forall|m: int| 0 <= m < members.len() ==> earliest(members) <= (#[trigger] members[m]).start,
    decreases members.len(),
{
    if members.len() > 0 {
        lemma_earliest(members.drop_last());
        assert forall|m: int| 0 <= m < members.len() implies earliest(members) <= (
        #[trigger] members[m]).start by {
            if m < members.len() - 1 {
                assert(members.drop_last()[m] == members[m]);
            }
        }
    }
}

/// Every member is shifted by the same ticks and rows, stays off tick 0, and
/// stands on an unlocked lane of its kind, clear of every clip outside the set.
pub open spec fn lands_clear(tracks: Seq<Track>, ids: Seq<Seq<char>>, r: GroupView) -> bool {
    let clips = all_placed(tracks);
    let members = chosen(clips, ids);
    let order = in_place_order(members);
    &&& r.moves.len() == members.len()
    &&& r.is_noop == (r.dx == 0 && r.row_delta == 0)
    &&& !one_kind(members) ==> r.row_delta == 0
    &&& forall|m: int|
        0 <= m < members.len() ==> 0 <= (#[trigger] members[m]).start + r.dx && member_fits(
            tracks,
            clips,
            ids,
            members[m],
            r.dx,
            r.row_delta,
        )
    &&& forall|i: int|
        0 <= i < r.moves.len() ==> #[trigger] r.moves[i] == landed_move(
            tracks,
            order[i],
            r.dx,
            r.row_delta,
        ) && members.contains(order[i])
}

/// A valid group drag shifts every member by the same ticks and rows, keeps the
/// set from crossing tick 0, and lands each member on an unlocked lane of its
/// kind, clear of every clip outside the set.
pub proof fn law_group_lands_clear(
    tracks: Seq<Track>,
    ids: Seq<Seq<char>>,
    anchor_track: Seq<char>,
    anchor_clip: Seq<char>,
    dx: int,
    hover: int,
    playhead: int,
    threshold: int,
)
    ensures
        ({
            let r = group_drag(
                tracks,
                ids,
                anchor_track,
                anchor_clip,
                dx,
                hover,
                playhead,
                threshold,
            );
            r.valid ==> lands_clear(tracks, ids, r)
        }),
{
    let clips = all_placed(tracks);
    let members = chosen(clips, ids);
    let order = in_place_order(members);
    lemma_stable_sort(members, by_place());
    lemma_sort_members(members, by_place());
    match first_where(members, is_anchor(anchor_track, anchor_clip)) {
        None => {},
        Some(a) => {
            let snap = set_snap(clips, ids, members, members[a], dx, threshold, playhead);
            let tries = landings(
                match snap {
                    Some(p) => Some(p.start),
                    None => None,
                },
                raw_shift(members, dx),
                row_shift(members, members[a], hover),
            );
            let p = fitting(tracks, clips, ids, members);
            lemma_first_where(tries, p);
            lemma_earliest(members);
            match first_where(tries, p) {
                None => {},
                Some(i) => {
                    let l = tries[i];
                    assert(p(l));
                    let r = landed(
                        tracks,
                        members,
                        l,
                        match snap {
                            Some(p) => p.line,
                            None => 0,
                        },
                    );
                    lemma_landing_values(
                        match snap {
                            Some(p) => Some(p.start),
                            None => None,
                        },
                        raw_shift(members, dx),
                        row_shift(members, members[a], hover),
                    );
                    assert(l.dx >= -earliest(members));
                    assert(!one_kind(members) ==> l.rows == 0);
                    assert(r == group_drag(
                        tracks,
                        ids,
                        anchor_track,
                        anchor_clip,
                        dx,
                        hover,
                        playhead,
                        threshold,
                    ));
                    assert(set_fits(tracks, clips, ids, members, l.dx, l.rows));
                    assert forall|m: int| 0 <= m < members.len() implies 0 <= (
                    #[trigger] members[m]).start + r.dx && member_fits(
                        tracks,
                        clips,
                        ids,
                        members[m],
                        r.dx,
                        r.row_delta,
                    ) by {}
                    assert forall|k: int| 0 <= k < r.moves.len() implies #[trigger] r.moves[k]
                        == landed_move(tracks, order[k], r.dx, r.row_delta) && members.contains(
                        order[k],
                    ) by {
                        assert(order.contains(order[k]));
                    }
                    assert(lands_clear(tracks, ids, r));
                },
            }
        },
    }
}

/// Two members that did not overlap before the drag do not overlap after it.
pub proof fn law_group_keeps_members_apart(a: PlacedClip, b: PlacedClip, dx: int, rows: int)
    requires
        a.row != b.row || a.start + a.duration <= b.start || b.start + b.duration <= a.start,
    ensures
        a.row + rows != b.row + rows || (a.start + dx) + a.duration <= b.start + dx || (b.start
            + dx) + b.duration <= a.start + dx,
{
}

} // verus!
