//! Copying and pasting: a block of clips keeps its lanes and relative placement,
//! and slides right as one until every member fits.

use vstd::prelude::*;

use crate::edits::{add_clip_content, add_content, create_track, edit_views, new_lane, no_steps,
    push_step, ClipRef, Edit, EditView, Ignored, LaneRef, PhaseNext, PhaseView, Plan, Planned,
    PlannedView};
use crate::find::{first_where, lemma_first_found, lemma_first_where};
use crate::fit::{block_fit_dx, block_fits, block_in_range, boundaries, first_fit, first_fit_start,
    lanes_exist, lemma_first_fit, nearest_boundary, span_fits, WantedSpan};
use crate::model::TrackKind;
use crate::num::{distance, max_int};
use crate::order::{
    key_leq, lemma_sort_map, lemma_sort_members, lemma_stable_sort, positions, sort_positions,
    stable_sort, total_preorder, upto,
};
use crate::project::{
    lane_end, lane_is, lane_wf, lanes_wf, lemma_lane_end_covers, lemma_timeline_end_covers,
    timeline_end, ClipSource, Project, ProjectClip,
};
use crate::text::{parse_raw_id, raw_id, texts};

verus! {

/// A copied clip.
#[derive(Debug)]
pub struct ClipboardClip {
    /// The lane it was copied from.
    pub track: u64,
    pub kind: TrackKind,
    pub content: ClipSource,
    pub duration_ticks: i64,
    /// Start relative to the block.
    pub offset_ticks: i64,
    pub link: Option<u64>,
}

impl Clone for ClipboardClip {
    fn clone(&self) -> (r: Self)
        ensures
            r == *self,
    {
        ClipboardClip {
            track: self.track,
            kind: self.kind,
            content: self.content.clone(),
            duration_ticks: self.duration_ticks,
            offset_ticks: self.offset_ticks,
            link: self.link,
        }
    }
}

// --- copying --------------------------------------------------------------

/// The copy of the clip that `raw` names, at its absolute start.
pub open spec fn copied(p: Project, raw: Seq<char>) -> Option<ClipboardClip> {
    match raw_id(raw) {
        None => None,
        Some(id) => match p.lane_of_clip(id) {
            None => None,
            Some(t) => {
                let c = p.clip_with(id)->0;
                Some(
                    ClipboardClip {
                        track: p.lanes@[t].id,
                        kind: p.lanes@[t].kind,
                        content: c.content,
                        duration_ticks: c.duration,
                        offset_ticks: c.start,
                        link: c.link,
                    },
                )
            },
        },
    }
}

/// The copies of the clips that `ids` name, in order; ids that name none are left
/// out.
pub open spec fn copies(p: Project, ids: Seq<Seq<char>>) -> Seq<ClipboardClip>
    decreases ids.len(),
{
    if ids.len() == 0 {
        Seq::empty()
    } else {
        match copied(p, ids.last()) {
            Some(c) => copies(p, ids.drop_last()).push(c),
            None => copies(p, ids.drop_last()),
        }
    }
}

/// Earlier first.
pub open spec fn by_offset() -> spec_fn(ClipboardClip, ClipboardClip) -> bool {
    |a: ClipboardClip, b: ClipboardClip| a.offset_ticks <= b.offset_ticks
}

/// A copy relative to `origin`.
pub open spec fn relative(c: ClipboardClip, origin: int) -> ClipboardClip {
    ClipboardClip { offset_ticks: (c.offset_ticks - origin) as i64, ..c }
}

/// The block that a copy makes: its origin, and its members in start order.
pub open spec fn block_of(p: Project, ids: Seq<Seq<char>>) -> Option<(int, Seq<ClipboardClip>)> {
    let sorted = stable_sort(copies(p, ids), by_offset());
    if sorted.len() == 0 {
        None
    } else {
        let origin = sorted[0].offset_ticks as int;
        Some((origin, sorted.map_values(|c: ClipboardClip| relative(c, origin))))
    }
}

/// The copy of the clip that `raw` names.
fn copy_clip(project: &Project, raw: &str) -> (r: Option<ClipboardClip>)
    requires
        lanes_wf(project.lanes@),
    ensures
        r == copied(*project, raw@),
        r matches Some(c) ==> c.offset_ticks >= 0,
{
    match parse_raw_id(raw) {
        None => None,
        Some(id) => match project.find_clip(id) {
            None => None,
            Some((t, c)) => {
                let lane = &project.lanes[t];
                let clip = &lane.clips[c];
                proof {
                    assert(lane_wf(project.lanes@[t as int].clips@));
                    assert(project.lanes@[t as int].clips@[c as int].start >= 0);
                }
                Some(
                    ClipboardClip {
                        track: lane.id,
                        kind: lane.kind,
                        content: clip.content.clone(),
                        duration_ticks: clip.duration,
                        offset_ticks: clip.start,
                        link: clip.link,
                    },
                )
            },
        },
    }
}

/// Snapshot the clips that `clips` name as one block: members in start order,
/// offsets relative to the earliest. Ids that name no clip are skipped.
pub fn snapshot_block(project: &Project, clips: &Vec<String>) -> (r: Option<
    (i64, Vec<ClipboardClip>),
>)
    requires
        lanes_wf(project.lanes@),
    ensures
        match block_of(*project, texts(clips@)) {
            None => r is None,
            Some((origin, block)) => r matches Some((o, b)) && o == origin && b@ == block,
        },
{
    let ghost ids = texts(clips@);
    let mut found: Vec<ClipboardClip> = Vec::new();
    let mut keys: Vec<(i64, i64)> = Vec::new();
    let mut i: usize = 0;
    while i < clips.len()
        invariant
            i <= clips.len(),
            ids == texts(clips@),
            lanes_wf(project.lanes@),
            found@ == copies(*project, ids.take(i as int)),
            keys.len() == found.len(),
            forall|j: int|
                0 <= j < found.len() ==> (#[trigger] keys@[j]).0 == found@[j].offset_ticks
                    && keys@[j].1 == 0 && found@[j].offset_ticks >= 0,
        decreases clips.len() - i,
    {
        proof {
            assert(ids.take(i as int + 1).drop_last() =~= ids.take(i as int));
            assert(ids.take(i as int + 1).last() == clips@[i as int]@);
        }
        match copy_clip(project, clips[i].as_str()) {
            None => {},
            Some(copy) => {
                let start: i64 = copy.offset_ticks;
                found.push(copy);
                keys.push((start, 0));
            },
        }
        i += 1;
    }
    assert(ids.take(i as int) =~= ids);
    let order = sort_positions(&keys);
    let ghost f = |p: int| found@[p];
    let ghost sorted = stable_sort(found@, by_offset());
    proof {
        let all = upto(found@.len());
        assert forall|x: int, y: int| all.contains(x) && all.contains(y) implies #[trigger] key_leq(
            keys@,
        )(x, y) == by_offset()(f(x), f(y)) by {}
        lemma_sort_map(all, f, key_leq(keys@), by_offset());
        assert(all.map_values(f) =~= found@);
        assert(positions(order@).map_values(f) == sorted);
    }
    if order.len() == 0 {
        return None;
    }
    let origin: i64 = found[order[0]].offset_ticks;
    proof {
        assert(positions(order@).map_values(f)[0] == found@[order@[0] as int]);
        assert(keys@[order@[0] as int].1 == 0);
    }
    let ghost whole = sorted.map_values(|c: ClipboardClip| relative(c, origin as int));
    let mut block: Vec<ClipboardClip> = Vec::new();
    let mut k: usize = 0;
    while k < order.len()
        invariant
            k <= order.len(),
            f == |p: int| found@[p],
            positions(order@).map_values(f) == sorted,
            whole == sorted.map_values(|c: ClipboardClip| relative(c, origin as int)),
            origin >= 0,
            keys.len() == found.len(),
            forall|j: int|
                0 <= j < found.len() ==> (#[trigger] keys@[j]).0 == found@[j].offset_ticks
                    && keys@[j].1 == 0 && found@[j].offset_ticks >= 0,
            forall|j: int| 0 <= j < order.len() ==> (#[trigger] order@[j]) < found.len(),
            block@ == whole.take(k as int),
        decreases order.len() - k,
    {
        let member = &found[order[k]];
        proof {
            assert(sorted[k as int] == positions(order@).map_values(f)[k as int]);
            assert(keys@[order@[k as int] as int].1 == 0);
        }
        block.push(
            ClipboardClip {
                track: member.track,
                kind: member.kind,
                content: member.content.clone(),
                duration_ticks: member.duration_ticks,
                offset_ticks: member.offset_ticks - origin,
                link: member.link,
            },
        );
        assert(block@ =~= whole.take(k as int + 1));
        k += 1;
    }
    assert(whole.take(k as int) =~= whole);
    Some((origin, block))
}

/// A block starts at its origin: some member has offset 0, and none a negative
/// one.
pub proof fn law_block_starts_at_origin(p: Project, ids: Seq<Seq<char>>)
    requires
        lanes_wf(p.lanes@),
        block_of(p, ids) is Some,
    ensures
        block_of(p, ids) matches Some((origin, block)) && block.len() > 0 && block[0].offset_ticks
            == 0 && forall|i: int| 0 <= i < block.len() ==> (#[trigger] block[i]).offset_ticks >= 0,
{
    let found = copies(p, ids);
    let sorted = stable_sort(found, by_offset());
    lemma_stable_sort(found, by_offset());
    lemma_sort_members(found, by_offset());
    assert(total_preorder(by_offset()));
    let origin = sorted[0].offset_ticks as int;
    let block = sorted.map_values(|c: ClipboardClip| relative(c, origin));
    lemma_copies_in_range(p, ids);
    assert forall|i: int| 0 <= i < block.len() implies (#[trigger] block[i]).offset_ticks >= 0 by {
        if i > 0 {
            assert(by_offset()(sorted[0], sorted[i]));
        }
        assert(sorted.contains(sorted[0]) && sorted.contains(sorted[i]));
        assert(found.contains(sorted[0]) && found.contains(sorted[i]));
    }
}

proof fn lemma_copies_in_range(p: Project, ids: Seq<Seq<char>>)
    requires
        lanes_wf(p.lanes@),
    ensures
        forall|c: ClipboardClip| #[trigger] copies(p, ids).contains(c) ==> c.offset_ticks >= 0,
    decreases ids.len(),
{
    if ids.len() > 0 {
        lemma_copies_in_range(p, ids.drop_last());
        let before = copies(p, ids.drop_last());
        let now = copies(p, ids);
        assert forall|c: ClipboardClip| #[trigger] now.contains(c) implies c.offset_ticks >= 0 by {
            let i = choose|i: int| 0 <= i < now.len() && now[i] == c;
            if i < before.len() {
                assert(before[i] == c);
                assert(before.contains(c));
            } else {
                let id = raw_id(ids.last())->0;
                let t = p.lane_of_clip(id)->0;
                lemma_first_where(p.lanes@, crate::project::lane_holds(id));
                lemma_first_where(p.lanes@[t].clips@, crate::project::clip_is(id));
                let k = first_where(p.lanes@[t].clips@, crate::project::clip_is(id))->0;
                assert(lane_wf(p.lanes@[t].clips@));
                assert(p.lanes@[t].clips@[k].start >= 0);
            }
        }
    }
}

// --- placing a block ------------------------------------------------------

/// The spans that a block wants, with member `i` on lane `lanes[i]`.
pub open spec fn wanted_spans(block: Seq<ClipboardClip>, lanes: Seq<u64>, base: int) -> Seq<
    WantedSpan,
> {
    Seq::new(
        block.len(),
        |i: int|
            WantedSpan {
                lane: lanes[i],
                start: (base + block[i].offset_ticks) as i64,
                duration: max_int(block[i].duration_ticks as int, 1) as i64,
            },
    )
}

/// `dx` is the smallest shift at which the spans fit; 0 when a lane is missing.
pub open spec fn is_block_shift(p: Project, spans: Seq<WantedSpan>, dx: int) -> bool {
    if lanes_exist(p, spans) {
        &&& dx >= 0
        &&& block_fits(p, spans, dx)
        &&& forall|d: int| 0 <= d < dx ==> !(#[trigger] block_fits(p, spans, d))
    } else {
        dx == 0
    }
}

/// The smallest shift at which the spans fit.
pub open spec fn block_shift(p: Project, spans: Seq<WantedSpan>) -> int {
    choose|dx: int| is_block_shift(p, spans, dx)
}

proof fn lemma_block_shift(p: Project, spans: Seq<WantedSpan>, dx: int)
    requires
        is_block_shift(p, spans, dx),
    ensures
        block_shift(p, spans) == dx,
{
    let other = block_shift(p, spans);
    assert(is_block_shift(p, spans, other));
    if lanes_exist(p, spans) {
        if other < dx {
            assert(!block_fits(p, spans, other));
        } else if dx < other {
            assert(!block_fits(p, spans, dx));
        }
    }
}

/// The smallest shift at or below one that fits.
proof fn lemma_least_shift(p: Project, spans: Seq<WantedSpan>, dx: int) -> (least: int)
    requires
        dx >= 0,
        block_fits(p, spans, dx),
    ensures
        0 <= least <= dx,
        block_fits(p, spans, least),
        forall|d: int| 0 <= d < least ==> !(#[trigger] block_fits(p, spans, d)),
    decreases dx,
{
    if exists|d: int| 0 <= d < dx && #[trigger] block_fits(p, spans, d) {
        let d = choose|d: int| 0 <= d < dx && #[trigger] block_fits(p, spans, d);
        lemma_least_shift(p, spans, d)
    } else {
        dx
    }
}

/// A block always has a place: behind everything on the timeline it fits, so there
/// is a smallest shift at which it does, and that is the one it moves by.
pub proof fn law_block_shift_exists(p: Project, spans: Seq<WantedSpan>)
    requires
        lanes_wf(p.lanes@),
        forall|i: int| 0 <= i < spans.len() ==> 0 <= (#[trigger] spans[i]).start,
    ensures
        is_block_shift(p, spans, block_shift(p, spans)),
        0 <= block_shift(p, spans) <= timeline_end(p.lanes@),
{
    lemma_timeline_end_covers(p.lanes@);
    if lanes_exist(p, spans) {
        let end = timeline_end(p.lanes@);
        assert forall|i: int| 0 <= i < spans.len() implies span_fits(p, #[trigger] spans[i], end) by {
            let span = spans[i];
            let t = p.lane_at(span.lane)->0;
            lemma_first_where(p.lanes@, lane_is(span.lane));
            let clips = p.lanes@[t].clips@;
            assert(lane_wf(clips));
            lemma_lane_end_covers(clips);
            assert(lane_end(p.lanes@[t].clips@) <= end);
            assert forall|c: int| 0 <= c < clips.len() implies (#[trigger] clips[c]).end()
                <= span.start + end by {}
        }
        let least = lemma_least_shift(p, spans, end);
        assert(is_block_shift(p, spans, least));
        lemma_block_shift(p, spans, least);
    } else {
        assert(is_block_shift(p, spans, 0));
        lemma_block_shift(p, spans, 0);
    }
}

/// The links of a block.
pub open spec fn links_of(block: Seq<ClipboardClip>) -> Seq<Option<u64>> {
    block.map_values(|c: ClipboardClip| c.link)
}

/// References to the copies among the first `n` whose originals are in `link`.
pub open spec fn copies_in(links: Seq<Option<u64>>, link: u64, n: int) -> Seq<ClipRef>
    decreases n,
{
    if n <= 0 {
        Seq::empty()
    } else if links[n - 1] == Some(link) {
        copies_in(links, link, n - 1).push(ClipRef::Step((n - 1) as usize))
    } else {
        copies_in(links, link, n - 1)
    }
}

/// Links the copies whose originals shared a group, group by group in the order
/// in which they come up; a copy that is alone stays unlinked.
pub open spec fn relinks(links: Seq<Option<u64>>, n: int) -> Seq<EditView>
    decreases n,
{
    if n <= 0 {
        Seq::empty()
    } else {
        let before = relinks(links, n - 1);
        match links[n - 1] {
            Some(link) => {
                let group = copies_in(links, link, links.len() as int);
                if copies_in(links, link, n - 1).len() == 0 && group.len() >= 2 {
                    before.push(EditView::LinkClips { clips: group })
                } else {
                    before
                }
            },
            None => before,
        }
    }
}

/// The steps that place a block: every member's content at its shifted start,
/// then the links.
pub open spec fn placing_steps(
    p: Project,
    block: Seq<ClipboardClip>,
    lanes: Seq<u64>,
    base: int,
) -> Seq<EditView> {
    let dx = block_shift(p, wanted_spans(block, lanes, base));
    Seq::new(
        block.len(),
        |i: int|
            add_content(
                LaneRef::Id(lanes[i]),
                block[i].content,
                block[i].duration_ticks as int,
                base + block[i].offset_ticks + dx,
            ),
    ) + relinks(links_of(block), block.len() as int)
}

/// The starts that a block wants fit `i64`, and so do its shifted spans.
pub open spec fn placeable(p: Project, block: Seq<ClipboardClip>, lanes: Seq<u64>, base: int) -> bool {
    &&& lanes.len() == block.len()
    &&& forall|i: int|
        0 <= i < block.len() ==> 0 <= base + (#[trigger] block[i]).offset_ticks <= i64::MAX
    &&& block_in_range(p, wanted_spans(block, lanes, base))
}

fn collect_copies(block: &Vec<ClipboardClip>, link: u64, n: usize) -> (r: Vec<ClipRef>)
    requires
        n <= block.len(),
    ensures
        r@ == copies_in(links_of(block@), link, n as int),
{
    let mut out: Vec<ClipRef> = Vec::new();
    let mut i: usize = 0;
    while i < n
        invariant
            i <= n <= block.len(),
            out@ == copies_in(links_of(block@), link, i as int),
        decreases n - i,
    {
        assert(links_of(block@)[i as int] == block@[i as int].link);
        let joined: bool = match block[i].link {
            Some(l) => l == link,
            None => false,
        };
        if joined {
            out.push(ClipRef::Step(i));
        }
        i += 1;
    }
    out
}

/// Place a block: one shift to the right until every member fits on its lane,
/// then each member's content, then the links among the copies.
pub fn place_block(project: &Project, block: &Vec<ClipboardClip>, lanes: &Vec<u64>, base: i64) -> (r:
    Vec<Edit>)
    requires
        placeable(*project, block@, lanes@, base as int),
    ensures
        edit_views(r@) == placing_steps(*project, block@, lanes@, base as int),
{
    let ghost spans_goal = wanted_spans(block@, lanes@, base as int);
    let mut spans: Vec<WantedSpan> = Vec::new();
    let mut i: usize = 0;
    while i < block.len()
        invariant
            i <= block.len(),
            placeable(*project, block@, lanes@, base as int),
            spans_goal == wanted_spans(block@, lanes@, base as int),
            spans@ == spans_goal.take(i as int),
        decreases block.len() - i,
    {
        let member = &block[i];
        assert(0 <= base + block@[i as int].offset_ticks <= i64::MAX);
        spans.push(
            WantedSpan {
                lane: lanes[i],
                start: base + member.offset_ticks,
                duration: if member.duration_ticks < 1 {
                    1
                } else {
                    member.duration_ticks
                },
            },
        );
        assert(spans@ =~= spans_goal.take(i as int + 1));
        i += 1;
    }
    assert(spans_goal.take(i as int) =~= spans_goal);
    let dx: i64 = block_fit_dx(project, &spans);
    proof {
        assert(is_block_shift(*project, spans@, dx as int));
        lemma_block_shift(*project, spans@, dx as int);
    }
    let ghost adds = Seq::new(
        block@.len(),
        |i: int|
            add_content(
                LaneRef::Id(lanes@[i]),
                block@[i].content,
                block@[i].duration_ticks as int,
                base + block@[i].offset_ticks + dx,
            ),
    );
    let mut steps = no_steps();
    let mut k: usize = 0;
    assert(edit_views(steps@) =~= adds.take(0));
    while k < block.len()
        invariant
            k <= block.len(),
            placeable(*project, block@, lanes@, base as int),
            spans_goal == wanted_spans(block@, lanes@, base as int),
            0 <= dx <= timeline_end(project.lanes@),
            adds == Seq::new(
                block@.len(),
                |i: int|
                    add_content(
                        LaneRef::Id(lanes@[i]),
                        block@[i].content,
                        block@[i].duration_ticks as int,
                        base + block@[i].offset_ticks + dx,
                    ),
            ),
            edit_views(steps@) == adds.take(k as int),
        decreases block.len() - k,
    {
        let member = &block[k];
        proof {
            assert(0 <= base + block@[k as int].offset_ticks <= i64::MAX);
            assert(spans_goal[k as int].start == base + block@[k as int].offset_ticks);
            assert(spans_goal[k as int].duration >= 1);
        }
        push_step(
            &mut steps,
            add_clip_content(
                LaneRef::Id(lanes[k]),
                &member.content,
                member.duration_ticks,
                base + member.offset_ticks + dx,
            ),
        );
        assert(edit_views(steps@) =~= adds.take(k as int + 1));
        k += 1;
    }
    assert(adds.take(k as int) =~= adds);
    let ghost links = links_of(block@);
    let mut n: usize = 0;
    assert(edit_views(steps@) =~= adds + relinks(links, 0));
    while n < block.len()
        invariant
            n <= block.len(),
            links == links_of(block@),
            edit_views(steps@) == adds + relinks(links, n as int),
        decreases block.len() - n,
    {
        assert(links[n as int] == block@[n as int].link);
        match block[n].link {
            Some(link) => {
                let seen = collect_copies(block, link, n);
                if seen.len() == 0 {
                    let group = collect_copies(block, link, block.len());
                    if group.len() >= 2 {
                        push_step(&mut steps, Edit::LinkClips { clips: group });
                        assert(edit_views(steps@) =~= adds + relinks(links, n as int + 1));
                    }
                }
            },
            None => {},
        }
        n += 1;
    }
    steps
}

/// A placed block keeps its shape: every member moves by the same shift, and no
/// member overlaps a clip that was there.
pub proof fn law_block_lands_free(
    p: Project,
    block: Seq<ClipboardClip>,
    lanes: Seq<u64>,
    base: int,
    dx: int,
    i: int,
)
    requires
        placeable(p, block, lanes, base),
        lanes_exist(p, wanted_spans(block, lanes, base)),
        is_block_shift(p, wanted_spans(block, lanes, base), dx),
        0 <= i < block.len(),
    ensures
        block_shift(p, wanted_spans(block, lanes, base)) == dx,
        p.lane_at(lanes[i]) matches Some(t) && crate::fit::gap_free(
            p.lanes@[t].clips@,
            base + block[i].offset_ticks + dx,
            max_int(block[i].duration_ticks as int, 1),
        ),
{
    let spans = wanted_spans(block, lanes, base);
    lemma_block_shift(p, spans, dx);
    assert(0 <= base + block[i].offset_ticks <= i64::MAX);
    assert(crate::fit::span_fits(p, spans[i], dx));
}

// --- pasting --------------------------------------------------------------

/// The lanes that a block came from and that are gone, each once, with the kind
/// of the member that names it first.
pub open spec fn missing_lanes(p: Project, block: Seq<ClipboardClip>) -> Seq<(u64, TrackKind)>
    decreases block.len(),
{
    if block.len() == 0 {
        Seq::empty()
    } else {
        let before = missing_lanes(p, block.drop_last());
        let c = block.last();
        if p.lane_at(c.track) is Some || first_where(before, lane_named(c.track)) is Some {
            before
        } else {
            before.push((c.track, c.kind))
        }
    }
}

/// Standing for this lane.
pub open spec fn lane_named(track: u64) -> spec_fn((u64, TrackKind)) -> bool {
    |m: (u64, TrackKind)| m.0 == track
}

/// How many of the lanes are of `kind`.
pub open spec fn alike(missing: Seq<(u64, TrackKind)>, kind: TrackKind) -> nat
    decreases missing.len(),
{
    if missing.len() == 0 {
        0
    } else {
        alike(missing.drop_last(), kind) + if missing.last().1 == kind {
            1nat
        } else {
            0nat
        }
    }
}

/// The steps that recreate the missing lanes at the top of the stack.
pub open spec fn lane_steps(p: Project, missing: Seq<(u64, TrackKind)>) -> Seq<EditView> {
    Seq::new(
        missing.len(),
        |k: int|
            new_lane(p.lanes@, k as nat, alike(missing.take(k), missing[k].1), missing[k].1, 0),
    )
}

/// The lane that a copied lane lands on: itself while it exists, else the one that
/// a step recreates.
pub open spec fn paste_lane(p: Project, missing: Seq<(u64, TrackKind)>, track: u64) -> LaneRef {
    if p.lane_at(track) is Some {
        LaneRef::Id(track)
    } else {
        LaneRef::Step(first_where(missing, lane_named(track))->0 as usize)
    }
}

fn find_missing(missing: &Vec<(u64, TrackKind)>, track: u64) -> (r: Option<usize>)
    ensures
        match r {
            Some(k) => k < missing.len() && first_where(missing@, lane_named(track)) == Some(
                k as int,
            ),
            None => first_where(missing@, lane_named(track)) is None,
        },
{
    let ghost p = lane_named(track);
    let mut k: usize = 0;
    while k < missing.len()
        invariant
            k <= missing.len(),
            p == lane_named(track),
            forall|j: int| 0 <= j < k ==> !p(#[trigger] missing@[j]),
        decreases missing.len() - k,
    {
        if missing[k].0 == track {
            proof {
                lemma_first_found(missing@, p, k as int);
            }
            return Some(k);
        }
        k += 1;
    }
    proof {
        lemma_first_where(missing@, p);
    }
    None
}

fn count_alike(missing: &Vec<(u64, TrackKind)>, n: usize, kind: TrackKind) -> (r: u32)
    requires
        n <= missing.len(),
        n <= u32::MAX,
    ensures
        r == alike(missing@.take(n as int), kind),
        r <= n,
{
    let mut count: u32 = 0;
    let mut k: usize = 0;
    while k < n
        invariant
            k <= n <= missing.len(),
            n <= u32::MAX,
            count <= k,
            count == alike(missing@.take(k as int), kind),
        decreases n - k,
    {
        assert(missing@.take(k as int + 1).drop_last() =~= missing@.take(k as int));
        if missing[k].1 == kind {
            count += 1;
        }
        k += 1;
    }
    count
}

/// A paste's landing lanes: the steps that recreate lanes that are gone, and the
/// lane of each member.
#[derive(Debug)]
pub struct PasteLanes {
    pub steps: Vec<Edit>,
    pub lanes: Vec<LaneRef>,
}

impl PasteLanes {
    /// The landing lanes as a plan of their own: a lane that cannot be recreated undoes
    /// the paste and leaves the view alone.
    pub fn plan(self) -> (r: (Plan, Vec<LaneRef>))
        ensures
            edit_views(r.0.steps@) == edit_views(self.steps@),
            r.0.quiet == self.steps.len(),
            r.1@ == self.lanes@,
    {
        let quiet: usize = self.steps.len();
        (Plan { steps: self.steps, quiet }, self.lanes)
    }
}

/// The lane that a reference stands for, `made[i]` being the lane that step `i` made.
pub open spec fn lane_made(lane: LaneRef, made: Seq<Option<u64>>) -> Option<u64> {
    match lane {
        LaneRef::Id(id) => Some(id),
        LaneRef::Step(i) => if i < made.len() {
            made[i as int]
        } else {
            None
        },
    }
}

/// The lanes that references stand for; `None` when one of them was not made.
pub open spec fn lanes_made(lanes: Seq<LaneRef>, made: Seq<Option<u64>>) -> Option<Seq<u64>>
    decreases lanes.len(),
{
    if lanes.len() == 0 {
        Some(Seq::empty())
    } else {
        match (lanes_made(lanes.drop_last(), made), lane_made(lanes.last(), made)) {
            (Some(before), Some(id)) => Some(before.push(id)),
            _ => None,
        }
    }
}

proof fn lemma_lanes_made_prefix(lanes: Seq<LaneRef>, made: Seq<Option<u64>>, n: int)
    requires
        0 <= n <= lanes.len(),
        lanes_made(lanes.take(n), made) is None,
    ensures
        lanes_made(lanes, made) is None,
    decreases lanes.len() - n,
{
    if n < lanes.len() {
        assert(lanes.take(n + 1).drop_last() =~= lanes.take(n));
        lemma_lanes_made_prefix(lanes, made, n + 1);
    } else {
        assert(lanes.take(n) =~= lanes);
    }
}

/// The lanes that a paste lands on once the missing ones are made.
pub fn landed_lanes(lanes: &Vec<LaneRef>, made: &Vec<Option<u64>>) -> (r: Option<Vec<u64>>)
    ensures
        match lanes_made(lanes@, made@) {
            Some(ids) => r matches Some(out) && out@ == ids,
            None => r is None,
        },
{
    let mut out: Vec<u64> = Vec::new();
    let mut i: usize = 0;
    assert(lanes@.take(0) =~= Seq::<LaneRef>::empty());
    assert(out@ =~= Seq::<u64>::empty());
    while i < lanes.len()
        invariant
            i <= lanes.len(),
            lanes_made(lanes@.take(i as int), made@) == Some(out@),
        decreases lanes.len() - i,
    {
        assert(lanes@.take(i as int + 1).drop_last() =~= lanes@.take(i as int));
        let id: Option<u64> = match lanes[i] {
            LaneRef::Id(id) => Some(id),
            LaneRef::Step(k) => if k < made.len() {
                made[k]
            } else {
                None
            },
        };
        match id {
            Some(id) => {
                out.push(id);
            },
            None => {
                proof {
                    lemma_lanes_made_prefix(lanes@, made@, i as int + 1);
                }
                return None;
            },
        }
        i += 1;
    }
    assert(lanes@.take(i as int) =~= lanes@);
    Some(out)
}

proof fn lemma_missing_grows(p: Project, block: Seq<ClipboardClip>, n: int)
    requires
        0 <= n <= block.len(),
    ensures
        missing_lanes(p, block.take(n)).len() <= missing_lanes(p, block).len() <= block.len(),
        missing_lanes(p, block).take(missing_lanes(p, block.take(n)).len() as int)
            == missing_lanes(p, block.take(n)),
    decreases block.len(),
{
    if n == block.len() {
        assert(block.take(n) =~= block);
        if block.len() > 0 {
            lemma_missing_grows(p, block.drop_last(), block.len() - 1);
        }
        let m = missing_lanes(p, block);
        assert(m.take(m.len() as int) =~= m);
    } else {
        lemma_missing_grows(p, block.drop_last(), n);
        assert(block.drop_last().take(n) =~= block.take(n));
        let a = missing_lanes(p, block.take(n));
        let b = missing_lanes(p, block.drop_last());
        let c = missing_lanes(p, block);
        assert(c.take(a.len() as int) =~= b.take(a.len() as int));
    }
}

/// Plan the landing lanes of a paste: members land on the lanes they were copied
/// from, recreated by kind at the top of the stack where they are gone.
pub fn paste_lanes(project: &Project, block: &Vec<ClipboardClip>) -> (r: PasteLanes)
    requires
        project.lanes.len() <= i32::MAX,
        block.len() <= i32::MAX,
        project.lanes.len() + block.len() <= usize::MAX,
    ensures
        edit_views(r.steps@) == lane_steps(*project, missing_lanes(*project, block@)),
        r.lanes@ == block@.map_values(
            |c: ClipboardClip|
                paste_lane(*project, missing_lanes(*project, block@), c.track),
        ),
{
    let mut missing: Vec<(u64, TrackKind)> = Vec::new();
    let mut i: usize = 0;
    while i < block.len()
        invariant
            i <= block.len(),
            missing.len() <= i,
            missing@ == missing_lanes(*project, block@.take(i as int)),
        decreases block.len() - i,
    {
        proof {
            assert(block@.take(i as int + 1).drop_last() =~= block@.take(i as int));
            assert(block@.take(i as int + 1).last() == block@[i as int]);
        }
        let c = &block[i];
        let gone: bool = match project.find_lane(c.track) {
            Some(_) => false,
            None => match find_missing(&missing, c.track) {
                Some(_) => false,
                None => true,
            },
        };
        if gone {
            missing.push((c.track, c.kind));
        }
        i += 1;
    }
    assert(block@.take(i as int) =~= block@);
    let ghost goal = lane_steps(*project, missing@);
    let mut steps = no_steps();
    let mut k: usize = 0;
    assert(edit_views(steps@) =~= goal.take(0));
    while k < missing.len()
        invariant
            k <= missing.len(),
            missing.len() <= block.len(),
            project.lanes.len() <= i32::MAX,
            block.len() <= i32::MAX,
            project.lanes.len() + block.len() <= usize::MAX,
            goal == lane_steps(*project, missing@),
            edit_views(steps@) == goal.take(k as int),
        decreases missing.len() - k,
    {
        let kind = missing[k].1;
        let before: u32 = count_alike(&missing, k, kind);
        push_step(&mut steps, create_track(project, k as u32, before, kind, 0));
        assert(edit_views(steps@) =~= goal.take(k as int + 1));
        k += 1;
    }
    assert(goal.take(k as int) =~= goal);
    let ghost refs = block@.map_values(|c: ClipboardClip| paste_lane(*project, missing@, c.track));
    let mut lanes: Vec<LaneRef> = Vec::new();
    let mut b: usize = 0;
    while b < block.len()
        invariant
            b <= block.len(),
            missing@ == missing_lanes(*project, block@),
            refs == block@.map_values(
                |c: ClipboardClip| paste_lane(*project, missing@, c.track),
            ),
            lanes@ == refs.take(b as int),
        decreases block.len() - b,
    {
        let track: u64 = block[b].track;
        let lane = match project.find_lane(track) {
            Some(_) => LaneRef::Id(track),
            None => match find_missing(&missing, track) {
                Some(k) => LaneRef::Step(k),
                None => {
                    proof {
                        lemma_member_is_missing(*project, block@, b as int);
                    }
                    LaneRef::Step(0)
                },
            },
        };
        lanes.push(lane);
        assert(lanes@ =~= refs.take(b as int + 1));
        b += 1;
    }
    assert(refs.take(b as int) =~= refs);
    PasteLanes { steps, lanes }
}

proof fn lemma_member_is_missing(p: Project, block: Seq<ClipboardClip>, i: int)
    requires
        0 <= i < block.len(),
        p.lane_at(block[i].track) is None,
    ensures
        first_where(missing_lanes(p, block), lane_named(block[i].track)) is Some,
{
    let track = block[i].track;
    let q = lane_named(track);
    let part = missing_lanes(p, block.take(i + 1));
    assert(block.take(i + 1).drop_last() =~= block.take(i));
    assert(block.take(i + 1).last() == block[i]);
    lemma_missing_grows(p, block, i + 1);
    let all = missing_lanes(p, block);
    let before = missing_lanes(p, block.take(i));
    lemma_first_where(before, q);
    lemma_first_where(all, q);
    let k = if first_where(before, q) is Some {
        first_where(before, q)->0
    } else {
        before.len() as int
    };
    assert(q(part[k]));
    assert(all.take(part.len() as int)[k] == part[k]);
    assert(q(all[k]));
}

/// `r` is the boundary of the lane nearest to `tick`, the earlier of two.
pub open spec fn is_nearest_boundary(clips: Seq<ProjectClip>, tick: int, r: int) -> bool {
    &&& boundaries(clips).contains(r)
    &&& forall|k: int|
        0 <= k < boundaries(clips).len() ==> distance(tick, r) <= distance(
            tick,
            #[trigger] boundaries(clips)[k],
        ) && (distance(tick, r) == distance(tick, boundaries(clips)[k]) ==> r <= boundaries(
            clips,
        )[k])
}

/// The boundary of the lane nearest to `tick`.
pub open spec fn boundary_near(clips: Seq<ProjectClip>, tick: int) -> int {
    choose|r: int| is_nearest_boundary(clips, tick, r)
}

proof fn lemma_boundary_near(clips: Seq<ProjectClip>, tick: int, r: int)
    requires
        is_nearest_boundary(clips, tick, r),
    ensures
        boundary_near(clips, tick) == r,
{
    let o = boundary_near(clips, tick);
    assert(is_nearest_boundary(clips, tick, o));
    let all = boundaries(clips);
    let a = choose|k: int| 0 <= k < all.len() && all[k] == r;
    let b = choose|k: int| 0 <= k < all.len() && all[k] == o;
    assert(distance(tick, r) <= distance(tick, all[b]));
    assert(distance(tick, o) <= distance(tick, all[a]));
}

/// A block of one member that lands on the main lane while the magnet is on.
pub open spec fn ripple_pastes(
    p: Project,
    block: Seq<ClipboardClip>,
    lanes: Seq<u64>,
    main_magnet: bool,
) -> bool {
    block.len() == 1 && main_magnet && p.lane_at(lanes[0]) is Some && p.lane_at(lanes[0])
        == p.main_lane()
}

/// The steps of a paste on a project that has all its landing lanes.
pub open spec fn paste_steps(
    p: Project,
    block: Seq<ClipboardClip>,
    lanes: Seq<u64>,
    tick: int,
    main_magnet: bool,
) -> Seq<EditView> {
    if ripple_pastes(p, block, lanes, main_magnet) {
        let clips = p.lanes@[p.lane_at(lanes[0])->0].clips@;
        let at = boundary_near(clips, max_int(tick, 0));
        seq![
            EditView::ShiftClips {
                lane: lanes[0],
                from: at,
                delta: max_int(block[0].duration_ticks as int, 1),
            },
            add_content(
                LaneRef::Id(lanes[0]),
                block[0].content,
                block[0].duration_ticks as int,
                at,
            ),
        ]
    } else {
        placing_steps(p, block, lanes, max_int(tick, 0))
    }
}

/// Plan pasting a block at `tick` on the project that has its landing lanes:
/// members keep their relative placement and the block slides right until it
/// fits. A single clip on the main lane with the magnet on is inserted at the clip
/// boundary nearest to `tick` instead.
pub fn paste(
    project: &Project,
    block: &Vec<ClipboardClip>,
    lanes: &Vec<u64>,
    tick: i64,
    main_magnet: bool,
) -> (r: Vec<Edit>)
    requires
        placeable(*project, block@, lanes@, max_int(tick as int, 0)),
    ensures
        edit_views(r@) == paste_steps(*project, block@, lanes@, tick as int, main_magnet),
{
    let base: i64 = if tick < 0 {
        0
    } else {
        tick
    };
    if block.len() == 1 && main_magnet {
        match (project.find_lane(lanes[0]), project.main_video_track()) {
            (Some(t), Some(m)) => {
                if t == m {
                    let only = &block[0];
                    let clips = &project.lanes[t].clips;
                    assert(lane_wf(project.lanes@[t as int].clips@));
                    let at: i64 = nearest_boundary(clips, base);
                    proof {
                        lemma_boundary_near(clips@, base as int, at as int);
                    }
                    let long: i64 = if only.duration_ticks < 1 {
                        1
                    } else {
                        only.duration_ticks
                    };
                    let mut steps = no_steps();
                    push_step(
                        &mut steps,
                        Edit::ShiftClips { lane: lanes[0], from: at, delta: long },
                    );
                    push_step(
                        &mut steps,
                        add_clip_content(
                            LaneRef::Id(lanes[0]),
                            &only.content,
                            only.duration_ticks,
                            at,
                        ),
                    );
                    assert(edit_views(steps@) =~= paste_steps(
                        *project,
                        block@,
                        lanes@,
                        tick as int,
                        main_magnet,
                    ));
                    return steps;
                }
            },
            _ => {},
        }
    }
    place_block(project, block, lanes, base)
}

/// What follows the landing lanes of a paste: the block itself, or the end of it all
/// when a lane is missing.
pub fn paste_phase(
    project: &Project,
    block: &Vec<ClipboardClip>,
    lanes: &Option<Vec<u64>>,
    tick: i64,
    main_magnet: bool,
) -> (r: PhaseNext)
    requires
        *lanes matches Some(ids) ==> placeable(
            *project,
            block@,
            ids@,
            max_int(tick as int, 0),
        ),
    ensures
        r@ == match *lanes {
            Some(ids) => PhaseView::Run {
                steps: paste_steps(*project, block@, ids@, tick as int, main_magnet),
                quiet: 0,
            },
            None => PhaseView::RollBack { publish: true },
        },
{
    match lanes {
        Some(ids) => PhaseNext::Run(
            Plan { steps: paste(project, block, ids, tick, main_magnet), quiet: 0 },
        ),
        None => PhaseNext::RollBack { publish: true },
    }
}

// --- duplicating ----------------------------------------------------------

/// What duplicating one clip comes to: right behind it, in the first gap that
/// fits; on the main lane with the magnet on, in a hole opened for it.
pub open spec fn duplicate_of(p: Project, id: u64, main_magnet: bool) -> PlannedView {
    let t = p.lane_of_clip(id)->0;
    let lane = p.lanes@[t];
    let c = p.clip_with(id)->0;
    let long = max_int(c.duration as int, 1);
    if main_magnet && p.main_lane() == Some(t) {
        PlannedView::Run {
            steps: seq![
                EditView::ShiftClips { lane: lane.id, from: c.end(), delta: long },
                add_content(LaneRef::Id(lane.id), c.content, long, c.end()),
            ],
            quiet: 0,
        }
    } else {
        PlannedView::Run {
            steps: seq![
                add_content(
                    LaneRef::Id(lane.id),
                    c.content,
                    long,
                    first_fit(lane.clips@, c.end(), long),
                ),
            ],
            quiet: 1,
        }
    }
}

/// What duplicating the clip that `text` names comes to.
pub open spec fn duplicated(p: Project, text: Seq<char>, main_magnet: bool) -> PlannedView {
    match raw_id(text) {
        None => PlannedView::Ignored(Ignored::BadClipId),
        Some(id) => match p.lane_of_clip(id) {
            None => PlannedView::Ignored(Ignored::ClipNotOnTimeline),
            Some(_) => duplicate_of(p, id, main_magnet),
        },
    }
}

/// Plan a copy of one clip right behind it on its own lane.
pub fn duplicate_clip(project: &Project, clip: &str, main_magnet: bool) -> (r: Planned)
    requires
        lanes_wf(project.lanes@),
        raw_id(clip@) matches Some(id) ==> (project.clip_with(id) matches Some(c)
            ==> timeline_end(project.lanes@) + c.duration <= i64::MAX),
    ensures
        r@ == duplicated(*project, clip@, main_magnet),
{
    let id: u64 = match parse_raw_id(clip) {
        Some(id) => id,
        None => {
            return Planned::Ignored(Ignored::BadClipId);
        },
    };
    let (t, c) = match project.find_clip(id) {
        Some(found) => found,
        None => {
            return Planned::Ignored(Ignored::ClipNotOnTimeline);
        },
    };
    let ghost goal = duplicate_of(*project, id, main_magnet);
    let lane = &project.lanes[t];
    let original = &lane.clips[c];
    proof {
        assert(lane_wf(project.lanes@[t as int].clips@));
        lemma_lane_end_covers(lane.clips@);
        crate::project::lemma_timeline_end_covers(project.lanes@);
        assert(lane_end(project.lanes@[t as int].clips@) <= timeline_end(
            project.lanes@,
        ));
        assert(project.clip_with(id) == Some(*original));
        assert(lane.clips@[c as int].end() <= lane_end(lane.clips@));
        assert(lane.clips@[c as int].duration >= 1);
    }
    let long: i64 = original.duration;
    let end: i64 = original.start + original.duration;
    let on_main: bool = match project.main_video_track() {
        Some(m) => m == t,
        None => false,
    };
    let mut steps = no_steps();
    if main_magnet && on_main {
        push_step(&mut steps, Edit::ShiftClips { lane: lane.id, from: end, delta: long });
        push_step(&mut steps, add_clip_content(LaneRef::Id(lane.id), &original.content, long, end));
        assert(edit_views(steps@) =~= goal->steps);
        return Planned::Run(Plan { steps, quiet: 0 });
    }
    let start: i64 = first_fit_start(&lane.clips, end, long);
    proof {
        lemma_first_fit(lane.clips@, end as int, long as int, start as int);
    }
    push_step(&mut steps, add_clip_content(LaneRef::Id(lane.id), &original.content, long, start));
    assert(edit_views(steps@) =~= goal->steps);
    Planned::Run(Plan { steps, quiet: 1 })
}

/// Length of a block: the latest end of its members.
pub open spec fn block_span(block: Seq<ClipboardClip>) -> int
    decreases block.len(),
{
    if block.len() == 0 {
        0
    } else {
        max_int(
            block_span(block.drop_last()),
            block.last().offset_ticks + max_int(block.last().duration_ticks as int, 1),
        )
    }
}

/// The lanes that the members of a block came from.
pub open spec fn own_lanes(block: Seq<ClipboardClip>) -> Seq<u64> {
    block.map_values(|c: ClipboardClip| c.track)
}

/// Every member ends within `i64`.
pub open spec fn block_ends_fit(block: Seq<ClipboardClip>) -> bool {
    forall|i: int|
        0 <= i < block.len() ==> (#[trigger] block[i]).offset_ticks >= 0 && block[i].offset_ticks
            + max_int(block[i].duration_ticks as int, 1) <= i64::MAX
}

/// What duplicating a selection of several clips comes to: the block again, right
/// behind its end.
pub open spec fn duplicates_of(p: Project, ids: Seq<Seq<char>>) -> PlannedView {
    match block_of(p, ids) {
        None => PlannedView::Ignored(Ignored::NothingToDo),
        Some((origin, block)) => PlannedView::Run {
            steps: placing_steps(p, block, own_lanes(block), origin + block_span(block)),
            quiet: 0,
        },
    }
}

/// The copies of a selection stay in range.
pub open spec fn duplicable(p: Project, ids: Seq<Seq<char>>) -> bool {
    block_of(p, ids) matches Some((origin, block)) ==> block_ends_fit(block) && origin
        + block_span(block) <= i64::MAX && placeable(
        p,
        block,
        own_lanes(block),
        origin + block_span(block),
    )
}

/// Plan duplicating a selection: one clip goes right behind itself; several go as
/// one block right behind the block's end, slid further right when something is in
/// the way.
pub fn duplicate_clips(project: &Project, clips: &Vec<String>, main_magnet: bool) -> (r: Planned)
    requires
        lanes_wf(project.lanes@),
        clips.len() == 1 ==> (raw_id(clips@[0]@) matches Some(id) ==> (project.clip_with(
            id,
        ) matches Some(c) ==> timeline_end(project.lanes@) + c.duration
            <= i64::MAX)),
        clips.len() != 1 ==> duplicable(*project, texts(clips@)),
    ensures
        r@ == if clips.len() == 1 {
            duplicated(*project, clips@[0]@, main_magnet)
        } else {
            duplicates_of(*project, texts(clips@))
        },
{
    if clips.len() == 1 {
        return duplicate_clip(project, clips[0].as_str(), main_magnet);
    }
    let (origin, block) = match snapshot_block(project, clips) {
        Some(found) => found,
        None => {
            return Planned::Ignored(Ignored::NothingToDo);
        },
    };
    let mut span: i64 = 0;
    let mut lanes: Vec<u64> = Vec::new();
    let ghost tracks = own_lanes(block@);
    let mut i: usize = 0;
    while i < block.len()
        invariant
            i <= block.len(),
            block_ends_fit(block@),
            0 <= span,
            span == block_span(block@.take(i as int)),
            tracks == own_lanes(block@),
            lanes@ == tracks.take(i as int),
        decreases block.len() - i,
    {
        let member = &block[i];
        proof {
            assert(block@.take(i as int + 1).drop_last() =~= block@.take(i as int));
            assert(block@[i as int].offset_ticks >= 0);
        }
        let long: i64 = if member.duration_ticks < 1 {
            1
        } else {
            member.duration_ticks
        };
        let end: i64 = member.offset_ticks + long;
        if end > span {
            span = end;
        }
        lanes.push(member.track);
        assert(lanes@ =~= tracks.take(i as int + 1));
        i += 1;
    }
    proof {
        assert(block@.take(i as int) =~= block@);
        assert(tracks.take(i as int) =~= tracks);
    }
    let base: i64 = origin + span;
    let steps = place_block(project, &block, &lanes, base);
    Planned::Run(Plan { steps, quiet: 0 })
}

} // verus!
