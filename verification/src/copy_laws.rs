//! What copying and pasting are for: laws that relate the copies to the clips they come
//! from, and the planned steps to the copies.

use vstd::prelude::*;

use crate::clipboard::{block_of, block_shift, block_span, boundary_near, by_offset, copied, copies,
    copies_in, duplicated, duplicates_of, is_nearest_boundary, lane_named, lane_steps,
    law_block_shift_exists, links_of, missing_lanes, own_lanes, paste_lane, paste_steps, placeable,
    placing_steps, relinks, wanted_spans, ClipboardClip};
use crate::edit_laws::{clip_at, has_clip, ids_unique, law_clip_is_found, law_found_clip_is_there,
    law_lane_is_found, law_main_lane_is_bottom_video};
use crate::edits::{ClipRef, EditView, LaneRef};
use crate::find::{first_where, lemma_first_where};
use crate::fit::{block_fits, boundaries, first_fit, gap_free, lanes_exist, law_first_fit_exists,
    span_fits};
use crate::model::TrackKind;
use crate::num::{distance, max_int};
use crate::order::{lemma_sort_members, lemma_stable_sort, stable_sort, total_preorder};
use crate::project::{lane_end, lane_wf, lanes_wf, ClipSource, Project, ProjectClip};
use crate::text::raw_id;

verus! {

// --- copying --------------------------------------------------------------

/// `m` is a faithful copy of the clip at a place, in a block that starts at `origin`:
/// it has the clip's content, length, link and lane, and stands as far behind the origin
/// as the clip does.
pub open spec fn is_copy(m: ClipboardClip, p: Project, t: int, c: int, origin: int) -> bool {
    &&& m.content == p.lanes@[t].clips@[c].content
    &&& m.duration_ticks == p.lanes@[t].clips@[c].duration
    &&& m.link == p.lanes@[t].clips@[c].link
    &&& m.track == p.lanes@[t].id
    &&& m.kind == p.lanes@[t].kind
    &&& m.offset_ticks == p.lanes@[t].clips@[c].start - origin
}

/// One of the ids names the clip at a place.
pub open spec fn is_named(ids: Seq<Seq<char>>, p: Project, t: int, c: int) -> bool {
    has_clip(p, t, c) && exists|k: int|
        0 <= k < ids.len() && raw_id(#[trigger] ids[k]) == Some(p.lanes@[t].clips@[c].id)
}

/// The list holds a faithful copy of the clip at a place.
pub open spec fn holds_copy(list: Seq<ClipboardClip>, p: Project, t: int, c: int, origin: int) -> bool {
    exists|j: int| 0 <= j < list.len() && is_copy(#[trigger] list[j], p, t, c, origin)
}

/// The member is a faithful copy of a clip that one of the ids names.
pub open spec fn copies_named(m: ClipboardClip, ids: Seq<Seq<char>>, p: Project, origin: int) -> bool {
    exists|t: int, c: int| #[trigger] is_copy(m, p, t, c, origin) && is_named(ids, p, t, c)
}

/// Every id names a clip.
pub open spec fn all_name(ids: Seq<Seq<char>>, p: Project) -> bool {
    forall|k: int| 0 <= k < ids.len() ==> names_some(#[trigger] ids[k], p)
}

/// The text names a clip.
pub open spec fn names_some(text: Seq<char>, p: Project) -> bool {
    exists|t: int, c: int|
        has_clip(p, t, c) && raw_id(text) == Some((#[trigger] clip_at(p, t, c)).id)
}

proof fn lemma_copied(p: Project, text: Seq<char>, t: int, c: int)
    requires
        ids_unique(p),
        has_clip(p, t, c),
        raw_id(text) == Some(p.lanes@[t].clips@[c].id),
    ensures
        copied(p, text) is Some,
        is_copy(copied(p, text)->0, p, t, c, 0),
{
    law_clip_is_found(p, t, c);
}

proof fn lemma_copied_from(p: Project, text: Seq<char>) -> (at: (int, int))
    requires
        copied(p, text) is Some,
    ensures
        has_clip(p, at.0, at.1),
        raw_id(text) == Some(p.lanes@[at.0].clips@[at.1].id),
        is_copy(copied(p, text)->0, p, at.0, at.1, 0),
{
    law_found_clip_is_there(p, raw_id(text)->0)
}

/// Every copy comes from an id that names its clip.
proof fn lemma_copies_come_from_ids(p: Project, ids: Seq<Seq<char>>)
    ensures
        forall|j: int|
            0 <= j < copies(p, ids).len() ==> copies_named(#[trigger] copies(p, ids)[j], ids, p, 0),
    decreases ids.len(),
{
    if ids.len() > 0 {
        let front = ids.drop_last();
        lemma_copies_come_from_ids(p, front);
        let before = copies(p, front);
        let now = copies(p, ids);
        assert forall|j: int| 0 <= j < now.len() implies copies_named(#[trigger] now[j], ids, p, 0) by {
            if j < before.len() {
                assert(now[j] == before[j]);
                let (t, c) = choose|t: int, c: int| #[trigger]
                    is_copy(before[j], p, t, c, 0) && is_named(front, p, t, c);
                let k = choose|k: int|
                    0 <= k < front.len() && raw_id(#[trigger] front[k]) == Some(
                        p.lanes@[t].clips@[c].id,
                    );
                assert(ids[k] == front[k]);
                assert(is_named(ids, p, t, c));
                assert(is_copy(now[j], p, t, c, 0));
            } else {
                let at = lemma_copied_from(p, ids.last());
                assert(ids[ids.len() - 1] == ids.last());
                assert(is_named(ids, p, at.0, at.1));
                assert(is_copy(now[j], p, at.0, at.1, 0));
            }
        }
    }
}

/// A clip that an id names has its copy.
proof fn lemma_named_is_copied(p: Project, ids: Seq<Seq<char>>, t: int, c: int)
    requires
        ids_unique(p),
        is_named(ids, p, t, c),
    ensures
        holds_copy(copies(p, ids), p, t, c, 0),
    decreases ids.len(),
{
    let front = ids.drop_last();
    let before = copies(p, front);
    let now = copies(p, ids);
    let k = choose|k: int|
        0 <= k < ids.len() && raw_id(#[trigger] ids[k]) == Some(p.lanes@[t].clips@[c].id);
    if k < front.len() {
        assert(front[k] == ids[k]);
        lemma_named_is_copied(p, front, t, c);
        let j = choose|j: int| 0 <= j < before.len() && is_copy(#[trigger] before[j], p, t, c, 0);
        assert(now[j] == before[j]);
    } else {
        lemma_copied(p, ids.last(), t, c);
        assert(is_copy(now[now.len() - 1], p, t, c, 0));
    }
}

proof fn lemma_copies_count(p: Project, ids: Seq<Seq<char>>)
    requires
        ids_unique(p),
        all_name(ids, p),
    ensures
        copies(p, ids).len() == ids.len(),
    decreases ids.len(),
{
    if ids.len() > 0 {
        let front = ids.drop_last();
        assert forall|k: int| 0 <= k < front.len() implies names_some(#[trigger] front[k], p) by {
            assert(front[k] == ids[k]);
        }
        lemma_copies_count(p, front);
        assert(names_some(ids[ids.len() - 1], p));
        let (t, c) = choose|t: int, c: int|
            has_clip(p, t, c) && raw_id(ids.last()) == Some((#[trigger] clip_at(p, t, c)).id);
        lemma_copied(p, ids.last(), t, c);
    }
}

/// The sorted copies: each from a named clip, none before the first, in start order.
proof fn lemma_sorted_copies(p: Project, ids: Seq<Seq<char>>)
    requires
        ids_unique(p),
        lanes_wf(p.lanes@),
    ensures
        ({
            let sorted = stable_sort(copies(p, ids), by_offset());
            &&& sorted.len() == copies(p, ids).len()
            &&& forall|j: int|
                0 <= j < sorted.len() ==> copies_named(#[trigger] sorted[j], ids, p, 0)
                    && sorted[j].offset_ticks >= 0 && sorted[j].offset_ticks
                    >= sorted[0].offset_ticks
            &&& forall|i: int, j: int|
                #![trigger sorted[i], sorted[j]]
                0 <= i < j < sorted.len() ==> sorted[i].offset_ticks <= sorted[j].offset_ticks
        }),
{
    let found = copies(p, ids);
    let sorted = stable_sort(found, by_offset());
    lemma_copies_come_from_ids(p, ids);
    lemma_stable_sort(found, by_offset());
    lemma_sort_members(found, by_offset());
    assert(total_preorder(by_offset()));
    assert forall|i: int, j: int|
        #![trigger sorted[i], sorted[j]]
        0 <= i < j < sorted.len() implies sorted[i].offset_ticks <= sorted[j].offset_ticks by {
        assert(by_offset()(sorted[i], sorted[j]));
    }
    assert forall|j: int| 0 <= j < sorted.len() implies copies_named(#[trigger] sorted[j], ids, p, 0)
        && sorted[j].offset_ticks >= 0 && sorted[j].offset_ticks >= sorted[0].offset_ticks by {
        assert(sorted.contains(sorted[j]));
        assert(found.contains(sorted[j]));
        let i = choose|i: int| 0 <= i < found.len() && found[i] == sorted[j];
        assert(copies_named(found[i], ids, p, 0));
        let (t, c) = choose|t: int, c: int| #[trigger]
            is_copy(sorted[j], p, t, c, 0) && is_named(ids, p, t, c);
        assert(lane_wf(p.lanes@[t].clips@));
        assert(p.lanes@[t].clips@[c].start >= 0);
        if j > 0 {
            assert(sorted[0].offset_ticks <= sorted[j].offset_ticks);
        }
    }
}

/// A copied block holds the clips that the ids name, whole: each member is the faithful
/// copy of one of them. The block starts where the earliest of them does, its members
/// come in start order, and it holds one for each id when every id names a clip.
pub proof fn law_copy_is_faithful(p: Project, ids: Seq<Seq<char>>)
    requires
        ids_unique(p),
        lanes_wf(p.lanes@),
    ensures
        block_of(p, ids) matches Some((origin, block)) ==> {
            &&& block.len() > 0
            &&& forall|j: int|
                0 <= j < block.len() ==> copies_named(#[trigger] block[j], ids, p, origin)
                    && block[j].offset_ticks >= 0
            &&& block[0].offset_ticks == 0
            &&& forall|i: int, j: int|
                #![trigger block[i], block[j]]
                0 <= i < j < block.len() ==> block[i].offset_ticks <= block[j].offset_ticks
            &&& all_name(ids, p) ==> block.len() == ids.len()
        },
        ids.len() > 0 && all_name(ids, p) ==> block_of(p, ids) is Some,
{
    let sorted = stable_sort(copies(p, ids), by_offset());
    lemma_sorted_copies(p, ids);
    if all_name(ids, p) {
        lemma_copies_count(p, ids);
    }
    if sorted.len() > 0 {
        let (origin, block) = block_of(p, ids)->0;
        assert forall|j: int| 0 <= j < block.len() implies copies_named(
            #[trigger] block[j],
            ids,
            p,
            origin,
        ) && block[j].offset_ticks == sorted[j].offset_ticks - origin by {
            assert(copies_named(sorted[j], ids, p, 0));
            assert(sorted[0].offset_ticks >= 0);
            let (t, c) = choose|t: int, c: int| #[trigger]
                is_copy(sorted[j], p, t, c, 0) && is_named(ids, p, t, c);
            assert(is_copy(block[j], p, t, c, origin));
        }
        assert forall|i: int, j: int|
            #![trigger block[i], block[j]]
            0 <= i < j < block.len() implies block[i].offset_ticks <= block[j].offset_ticks by {
            assert(copies_named(block[i], ids, p, origin) && copies_named(block[j], ids, p, origin));
            assert(sorted[i].offset_ticks <= sorted[j].offset_ticks);
        }
        assert(copies_named(block[0], ids, p, origin));
    }
}

/// No clip that an id names is passed over: the block holds its faithful copy, and does
/// not start behind it.
pub proof fn law_named_clip_is_copied(p: Project, ids: Seq<Seq<char>>, t: int, c: int)
    requires
        ids_unique(p),
        lanes_wf(p.lanes@),
        is_named(ids, p, t, c),
    ensures
        block_of(p, ids) matches Some((origin, block)) && origin <= p.lanes@[t].clips@[c].start
            && holds_copy(block, p, t, c, origin),
{
    let found = copies(p, ids);
    let sorted = stable_sort(found, by_offset());
    lemma_sorted_copies(p, ids);
    lemma_sort_members(found, by_offset());
    lemma_named_is_copied(p, ids, t, c);
    let i = choose|i: int| 0 <= i < found.len() && is_copy(#[trigger] found[i], p, t, c, 0);
    assert(found.contains(found[i]));
    assert(sorted.contains(found[i]));
    let j = choose|j: int| 0 <= j < sorted.len() && sorted[j] == found[i];
    let (origin, block) = block_of(p, ids)->0;
    assert(copies_named(sorted[j], ids, p, 0));
    assert(copies_named(sorted[0], ids, p, 0));
    assert(is_copy(block[j], p, t, c, origin));
}

// --- placing --------------------------------------------------------------

/// The step puts the whole content of the copy onto the lane at `start`: a media clip
/// with its source window, generated content as it is and at its length.
pub open spec fn adds_copy(e: EditView, m: ClipboardClip, lane: u64, start: int) -> bool {
    match m.content {
        ClipSource::Media { media, source } => e == (EditView::AddClip {
            to: LaneRef::Id(lane),
            media,
            source,
            start,
        }),
        ClipSource::Generated(g) => e == (EditView::AddGenerated {
            to: LaneRef::Id(lane),
            generator: g,
            start,
            duration: if m.duration_ticks < 1 { 1 } else { m.duration_ticks as int },
        }),
    }
}

/// The copy, at `start`, would meet a clip of the lane at place `u`.
pub open spec fn meets_clip(p: Project, u: int, m: ClipboardClip, start: int) -> bool {
    exists|d: int|
        has_clip(p, u, d) && (#[trigger] clip_at(p, u, d)).start < start + (if m.duration_ticks < 1 {
            1
        } else {
            m.duration_ticks as int
        }) && start < clip_at(p, u, d).start + clip_at(p, u, d).duration
}

/// Some member of a block at `base` would meet a clip of its lane.
pub open spec fn some_meets(p: Project, at: Seq<int>, block: Seq<ClipboardClip>, base: int) -> bool {
    exists|i: int|
        0 <= i < block.len() && #[trigger] meets_clip(
            p,
            at[i],
            block[i],
            base + block[i].offset_ticks,
        )
}

/// A placed block keeps its shape and its content: every member is added whole, onto its
/// lane, by one shift to the right that is common to all. There no member meets a clip,
/// and at any smaller shift some member would.
pub proof fn law_placed_block(
    p: Project,
    block: Seq<ClipboardClip>,
    lanes: Seq<u64>,
    at: Seq<int>,
    base: int,
) -> (dx: int)
    requires
        ids_unique(p),
        placeable(p, block, lanes, base),
        at.len() == block.len(),
        forall|i: int|
            0 <= i < block.len() ==> 0 <= (#[trigger] at[i]) < p.lanes@.len() && p.lanes@[at[i]].id
                == lanes[i],
    ensures
        dx >= 0,
        placing_steps(p, block, lanes, base).len() >= block.len(),
        forall|i: int|
            #![trigger block[i]]
            0 <= i < block.len() ==> adds_copy(
                placing_steps(p, block, lanes, base)[i],
                block[i],
                lanes[i],
                base + block[i].offset_ticks + dx,
            ) && !meets_clip(p, at[i], block[i], base + block[i].offset_ticks + dx),
        forall|less: int| 0 <= less < dx ==> #[trigger] some_meets(p, at, block, base + less),
        forall|k: int|
            block.len() <= k < placing_steps(p, block, lanes, base).len() ==> (
            #[trigger] placing_steps(p, block, lanes, base)[k]) is LinkClips,
{
    let spans = wanted_spans(block, lanes, base);
    assert forall|i: int| 0 <= i < spans.len() implies p.lane_at((#[trigger] spans[i]).lane) == Some(
        at[i],
    ) by {
        law_lane_is_found(p, lanes[i]);
        assert(p.lanes@[at[i]].id == lanes[i]);
    }
    assert(lanes_exist(p, spans));
    assert forall|i: int| 0 <= i < spans.len() implies 0 <= (#[trigger] spans[i]).start by {
        assert(0 <= base + block[i].offset_ticks <= i64::MAX);
    }
    law_block_shift_exists(p, spans);
    let dx = block_shift(p, spans);
    let steps = placing_steps(p, block, lanes, base);
    let links = links_of(block);
    lemma_relinks_are_links(links, block.len() as int);
    assert forall|i: int|
        #![trigger block[i]]
        0 <= i < block.len() implies adds_copy(
        steps[i],
        block[i],
        lanes[i],
        base + block[i].offset_ticks + dx,
    ) && !meets_clip(p, at[i], block[i], base + block[i].offset_ticks + dx) by {
        assert(0 <= base + block[i].offset_ticks <= i64::MAX);
        assert(span_fits(p, spans[i], dx));
        let start = base + block[i].offset_ticks + dx;
        if meets_clip(p, at[i], block[i], start) {
            let d = choose|d: int|
                has_clip(p, at[i], d) && (#[trigger] clip_at(p, at[i], d)).start < start + (
                if block[i].duration_ticks < 1 {
                    1
                } else {
                    block[i].duration_ticks as int
                }) && start < clip_at(p, at[i], d).start + clip_at(p, at[i], d).duration;
            assert(p.lanes@[at[i]].clips@[d].end() <= start || p.lanes@[at[i]].clips@[d].start
                >= start + spans[i].duration);
        }
    }
    assert forall|less: int| 0 <= less < dx implies #[trigger] some_meets(
        p,
        at,
        block,
        base + less,
    ) by {
        assert(!block_fits(p, spans, less));
        let i = choose|i: int| 0 <= i < spans.len() && !span_fits(p, #[trigger] spans[i], less);
        assert(0 <= base + block[i].offset_ticks <= i64::MAX);
        let start = base + block[i].offset_ticks + less;
        let clips = p.lanes@[at[i]].clips@;
        let d = choose|d: int|
            0 <= d < clips.len() && !((#[trigger] clips[d]).end() <= start || clips[d].start >= start
                + spans[i].duration);
        assert(has_clip(p, at[i], d));
        assert(clip_at(p, at[i], d).start < start + spans[i].duration);
        assert(meets_clip(p, at[i], block[i], base + less + block[i].offset_ticks));
    }
    assert forall|k: int| block.len() <= k < steps.len() implies (#[trigger] steps[k]) is LinkClips by {
        assert(steps[k] == relinks(links, block.len() as int)[k - block.len()]);
    }
    dx
}

proof fn lemma_relinks_are_links(links: Seq<Option<u64>>, n: int)
    requires
        0 <= n <= links.len(),
    ensures
        forall|k: int| 0 <= k < relinks(links, n).len() ==> (#[trigger] relinks(links, n)[k]) is LinkClips,
    decreases n,
{
    if n > 0 {
        lemma_relinks_are_links(links, n - 1);
        let before = relinks(links, n - 1);
        let now = relinks(links, n);
        assert forall|k: int| 0 <= k < now.len() implies (#[trigger] now[k]) is LinkClips by {
            if k < before.len() {
                assert(now[k] == before[k]);
            }
        }
    }
}

/// Which copies are in a group: exactly those among the first `n` whose originals carry
/// the link.
proof fn lemma_copies_in(links: Seq<Option<u64>>, link: u64, n: int)
    requires
        0 <= n <= links.len() <= usize::MAX,
    ensures
        forall|i: int|
            #![trigger links[i]]
            0 <= i < n ==> copies_in(links, link, n).contains(ClipRef::Step(i as usize)) == (links[i]
                == Some(link)),
        forall|k: int|
            0 <= k < copies_in(links, link, n).len() ==> exists|i: int|
                0 <= i < n && #[trigger] links[i] == Some(link) && (
                #[trigger] copies_in(links, link, n)[k]) == ClipRef::Step(i as usize),
    decreases n,
{
    if n > 0 {
        lemma_copies_in(links, link, n - 1);
        let before = copies_in(links, link, n - 1);
        let now = copies_in(links, link, n);
        assert forall|k: int| 0 <= k < now.len() implies exists|i: int|
            0 <= i < n && #[trigger] links[i] == Some(link) && (#[trigger] now[k]) == ClipRef::Step(
                i as usize,
            ) by {
            if k < before.len() {
                assert(now[k] == before[k]);
                let i = choose|i: int|
                    0 <= i < n - 1 && #[trigger] links[i] == Some(link) && before[k]
                        == ClipRef::Step(i as usize);
                assert(links[i] == Some(link));
            } else {
                assert(links[n - 1] == Some(link));
            }
        }
        assert forall|i: int|
            #![trigger links[i]]
            0 <= i < n implies now.contains(ClipRef::Step(i as usize)) == (links[i] == Some(link)) by {
            let x = ClipRef::Step(i as usize);
            if links[i] == Some(link) {
                if i < n - 1 {
                    let k = choose|k: int| 0 <= k < before.len() && before[k] == x;
                    assert(now[k] == x);
                } else {
                    assert(now[now.len() - 1] == x);
                }
            }
            if now.contains(x) {
                let k = choose|k: int| 0 <= k < now.len() && now[k] == x;
                let j = choose|j: int|
                    0 <= j < n && #[trigger] links[j] == Some(link) && now[k] == ClipRef::Step(
                        j as usize,
                    );
                assert(i as usize == j as usize);
            }
        }
    }
}

proof fn lemma_relinks(links: Seq<Option<u64>>, n: int)
    requires
        0 <= n <= links.len() <= usize::MAX,
    ensures
        forall|k: int|
            #![trigger relinks(links, n)[k]]
            0 <= k < relinks(links, n).len() ==> exists|i: int|
                0 <= i < n && (#[trigger] links[i]) is Some && relinks(links, n)[k]
                    == (EditView::LinkClips {
                    clips: copies_in(links, links[i]->0, links.len() as int),
                }),
        forall|i: int|
            #![trigger links[i]]
            0 <= i < n && links[i] is Some && copies_in(
                links,
                links[i]->0,
                links.len() as int,
            ).len() >= 2 ==> relinks(links, n).contains(
                EditView::LinkClips { clips: copies_in(links, links[i]->0, links.len() as int) },
            ),
    decreases n,
{
    if n > 0 {
        lemma_relinks(links, n - 1);
        let before = relinks(links, n - 1);
        let now = relinks(links, n);
        let all = links.len() as int;
        assert forall|k: int|
            #![trigger now[k]]
            0 <= k < now.len() implies exists|i: int|
            0 <= i < n && (#[trigger] links[i]) is Some && now[k] == (EditView::LinkClips {
                clips: copies_in(links, links[i]->0, all),
            }) by {
            if k < before.len() {
                assert(now[k] == before[k]);
                let i = choose|i: int|
                    0 <= i < n - 1 && (#[trigger] links[i]) is Some && before[k]
                        == (EditView::LinkClips { clips: copies_in(links, links[i]->0, all) });
                assert(links[i] is Some);
            } else {
                assert(links[n - 1] is Some);
            }
        }
        assert forall|i: int|
            #![trigger links[i]]
            0 <= i < n && links[i] is Some && copies_in(links, links[i]->0, all).len()
                >= 2 implies now.contains(
            EditView::LinkClips { clips: copies_in(links, links[i]->0, all) },
        ) by {
            let e = EditView::LinkClips { clips: copies_in(links, links[i]->0, all) };
            if i < n - 1 {
                let k = choose|k: int| 0 <= k < before.len() && before[k] == e;
                assert(now[k] == e);
            } else {
                let link = links[i]->0;
                let earlier = copies_in(links, link, n - 1);
                if earlier.len() == 0 {
                    assert(now[now.len() - 1] == e);
                } else {
                    lemma_copies_in(links, link, n - 1);
                    let j = choose|j: int|
                        0 <= j < n - 1 && #[trigger] links[j] == Some(link) && earlier[0]
                            == ClipRef::Step(j as usize);
                    assert(links[j] is Some);
                    let k = choose|k: int| 0 <= k < before.len() && before[k] == e;
                    assert(now[k] == e);
                }
            }
        }
    }
}

/// The step links exactly the copies whose originals carry the link.
pub open spec fn links_copies_of(e: EditView, block: Seq<ClipboardClip>, link: u64) -> bool {
    forall|i: int|
        #![trigger block[i]]
        0 <= i < block.len() ==> e->LinkClips_clips.contains(ClipRef::Step(i as usize)) == (
        block[i].link == Some(link))
}

/// Copies are linked as their originals were: two copies whose originals shared a link
/// are put into one group, a group holds copies of one link only and all of them, and a
/// copy whose original had no link is in none.
pub proof fn law_copies_are_linked_alike(
    p: Project,
    block: Seq<ClipboardClip>,
    lanes: Seq<u64>,
    base: int,
)
    requires
        block.len() <= usize::MAX,
    ensures
        forall|i: int, j: int|
            #![trigger block[i], block[j]]
            0 <= i < j < block.len() && block[i].link is Some && block[i].link == block[j].link
                ==> exists|k: int|
                block.len() <= k < placing_steps(p, block, lanes, base).len() && (
                #[trigger] placing_steps(p, block, lanes, base)[k])->LinkClips_clips.contains(
                    ClipRef::Step(i as usize),
                ) && placing_steps(p, block, lanes, base)[k]->LinkClips_clips.contains(
                    ClipRef::Step(j as usize),
                ),
        forall|k: int|
            #![trigger placing_steps(p, block, lanes, base)[k]]
            block.len() <= k < placing_steps(p, block, lanes, base).len() ==> placing_steps(
                p,
                block,
                lanes,
                base,
            )[k] is LinkClips && exists|l: u64| #[trigger]
                links_copies_of(placing_steps(p, block, lanes, base)[k], block, l),
{
    let links = links_of(block);
    let n = block.len() as int;
    let steps = placing_steps(p, block, lanes, base);
    let tail = relinks(links, n);
    lemma_relinks(links, n);
    assert(links.len() == block.len());
    assert forall|i: int, j: int|
        #![trigger block[i], block[j]]
        0 <= i < j < block.len() && block[i].link is Some && block[i].link == block[j].link implies exists|
        k: int,
    |
        block.len() <= k < steps.len() && (#[trigger] steps[k])->LinkClips_clips.contains(
            ClipRef::Step(i as usize),
        ) && steps[k]->LinkClips_clips.contains(ClipRef::Step(j as usize)) by {
        let link = block[i].link->0;
        lemma_copies_in(links, link, n);
        let group = copies_in(links, link, n);
        assert(links[i] == Some(link) && links[j] == Some(link));
        assert(group.contains(ClipRef::Step(i as usize)));
        assert(group.contains(ClipRef::Step(j as usize)));
        assert(group.len() >= 2) by {
            let a = choose|a: int| 0 <= a < group.len() && group[a] == ClipRef::Step(i as usize);
            let b = choose|b: int| 0 <= b < group.len() && group[b] == ClipRef::Step(j as usize);
            assert(a != b);
        }
        let e = EditView::LinkClips { clips: group };
        assert(tail.contains(e));
        let q = choose|q: int| 0 <= q < tail.len() && tail[q] == e;
        assert(steps[n + q] == e);
    }
    assert forall|k: int|
        #![trigger steps[k]]
        block.len() <= k < steps.len() implies steps[k] is LinkClips && exists|l: u64| #[trigger]
        links_copies_of(steps[k], block, l) by {
        assert(steps[k] == tail[k - n]);
        let i0 = choose|i: int|
            0 <= i < n && (#[trigger] links[i]) is Some && tail[k - n] == (EditView::LinkClips {
                clips: copies_in(links, links[i]->0, links.len() as int),
            });
        let l = links[i0]->0;
        lemma_copies_in(links, l, n);
        assert forall|i: int|
            #![trigger block[i]]
            0 <= i < block.len() implies steps[k]->LinkClips_clips.contains(
            ClipRef::Step(i as usize),
        ) == (block[i].link == Some(l)) by {
            assert(links[i] == block[i].link);
        }
        assert(links_copies_of(steps[k], block, l));
    }
}

// --- pasting and duplicating ----------------------------------------------

/// The lane at place `m` is the bottom video lane.
pub open spec fn is_bottom_video(p: Project, m: int) -> bool {
    0 <= m < p.lanes@.len() && p.lanes@[m].kind == TrackKind::Video && forall|t: int|
        0 <= t < m ==> (#[trigger] p.lanes@[t]).kind != TrackKind::Video
}

pub proof fn lemma_bottom_video(p: Project, m: int)
    requires
        is_bottom_video(p, m),
    ensures
        p.main_lane() == Some(m),
{
    law_main_lane_is_bottom_video(p);
    match p.main_lane() {
        Some(k) => {
            if k < m {
                assert(p.lanes@[k].kind != TrackKind::Video);
            } else if m < k {
                assert(p.lanes@[m].kind != TrackKind::Video);
            }
        },
        None => {
            assert(p.lanes@[m].kind != TrackKind::Video);
        },
    }
}

/// A paste at a tick places the block there, or at 0, unless it is a single clip for the
/// bottom video lane while the magnet is on.
pub proof fn law_paste_places_the_block(
    p: Project,
    block: Seq<ClipboardClip>,
    lanes: Seq<u64>,
    tick: int,
    magnet: bool,
)
    requires
        ids_unique(p),
        lanes.len() == block.len(),
        block.len() != 1 || !magnet || forall|m: int|
            is_bottom_video(p, m) ==> (#[trigger] p.lanes@[m]).id != lanes[0],
    ensures
        paste_steps(p, block, lanes, tick, magnet) == placing_steps(
            p,
            block,
            lanes,
            if tick < 0 { 0 } else { tick },
        ),
{
    law_main_lane_is_bottom_video(p);
    if block.len() == 1 && magnet {
        law_lane_is_found(p, lanes[0]);
        if p.lane_at(lanes[0]) is Some && p.lane_at(lanes[0]) == p.main_lane() {
            let m = p.main_lane()->0;
            assert(is_bottom_video(p, m));
            assert(p.lanes@[m].id == lanes[0]);
        }
    }
}

/// A tick's distance.
pub open spec fn away(a: int, b: int) -> int {
    if a < b { b - a } else { a - b }
}

/// A single clip that is pasted onto the bottom video lane while the magnet is on goes in
/// at the start of a clip or at the end of the content, whichever is nearest to the tick
/// and the earlier of two, and what stands from there on makes room of its length.
pub proof fn law_single_paste_inserts(
    p: Project,
    block: Seq<ClipboardClip>,
    lanes: Seq<u64>,
    tick: int,
    m: int,
) -> (at: int)
    requires
        ids_unique(p),
        lanes_wf(p.lanes@),
        block.len() == 1,
        lanes.len() == 1,
        is_bottom_video(p, m),
        p.lanes@[m].id == lanes[0],
    ensures
        ({
            let clips = p.lanes@[m].clips@;
            let want = if tick < 0 { 0 } else { tick };
            let end = if clips.len() == 0 {
                0
            } else {
                clips[clips.len() - 1].start + clips[clips.len() - 1].duration
            };
            let steps = paste_steps(p, block, lanes, tick, true);
            &&& at == end || exists|d: int| 0 <= d < clips.len() && (#[trigger] clips[d]).start == at
            &&& away(want, at) <= away(want, end)
            &&& away(want, at) == away(want, end) ==> at <= end
            &&& forall|d: int|
                0 <= d < clips.len() ==> away(want, at) <= away(
                    want,
                    (#[trigger] clips[d]).start as int,
                ) && (away(want, at) == away(want, clips[d].start as int) ==> at <= clips[d].start)
            &&& steps.len() == 2
            &&& steps[0] == (EditView::ShiftClips {
                lane: lanes[0],
                from: at,
                delta: if block[0].duration_ticks < 1 { 1 } else { block[0].duration_ticks as int },
            })
            &&& adds_copy(steps[1], block[0], lanes[0], at)
        }),
{
    lemma_bottom_video(p, m);
    law_lane_is_found(p, lanes[0]);
    let clips = p.lanes@[m].clips@;
    assert(p.lane_at(lanes[0]) == Some(m));
    assert(lane_wf(clips));
    let want = max_int(tick, 0);
    let all = boundaries(clips);
    let at = lemma_nearest_exists(all, want, all.len() as int);
    assert(is_nearest_boundary(clips, want, at));
    lemma_boundary_is(clips, want, at);
    let k = choose|k: int| 0 <= k < all.len() && all[k] == at;
    if k < clips.len() {
        assert(clips[k].start == at);
    }
    assert(all[clips.len() as int] == lane_end(clips));
    assert forall|d: int| 0 <= d < clips.len() implies away(want, at) <= away(
        want,
        (#[trigger] clips[d]).start as int,
    ) && (away(want, at) == away(want, clips[d].start as int) ==> at <= clips[d].start) by {
        assert(all[d] == clips[d].start);
    }
    at
}

proof fn lemma_boundary_is(clips: Seq<ProjectClip>, tick: int, r: int)
    requires
        is_nearest_boundary(clips, tick, r),
    ensures
        boundary_near(clips, tick) == r,
{
    let other = boundary_near(clips, tick);
    assert(is_nearest_boundary(clips, tick, other));
    let a = choose|a: int| 0 <= a < boundaries(clips).len() && boundaries(clips)[a] == r;
    let b = choose|b: int| 0 <= b < boundaries(clips).len() && boundaries(clips)[b] == other;
    assert(boundaries(clips)[a] == r && boundaries(clips)[b] == other);
}

/// Of the first `n` points there is a nearest one, the smaller of two.
proof fn lemma_nearest_exists(all: Seq<int>, tick: int, n: int) -> (r: int)
    requires
        1 <= n <= all.len(),
    ensures
        exists|k: int| 0 <= k < n && #[trigger] all[k] == r,
        forall|k: int|
            0 <= k < n ==> distance(tick, r) <= distance(tick, #[trigger] all[k]) && (distance(
                tick,
                r,
            ) == distance(tick, all[k]) ==> r <= all[k]),
    decreases n,
{
    if n == 1 {
        assert(all[0] == all[0]);
        all[0]
    } else {
        let r = lemma_nearest_exists(all, tick, n - 1);
        let x = all[n - 1];
        if distance(tick, x) < distance(tick, r) || (distance(tick, x) == distance(tick, r) && x
            < r) {
            x
        } else {
            let k = choose|k: int| 0 <= k < n - 1 && #[trigger] all[k] == r;
            assert(all[k] == r);
            r
        }
    }
}

/// Duplicates of several clips are their block again, on the lanes they are on, from the
/// end of the latest of them on.
pub proof fn law_duplicates_follow_the_block(p: Project, ids: Seq<Seq<char>>) -> (base: int)
    requires
        ids_unique(p),
        lanes_wf(p.lanes@),
        block_of(p, ids) is Some,
    ensures
        ({
            let (origin, block) = block_of(p, ids)->0;
            let r = duplicates_of(p, ids);
            let tracks = block.map_values(|m: ClipboardClip| m.track);
            &&& r is Run
            &&& r->quiet == 0
            &&& r->steps == placing_steps(p, block, tracks, base)
            &&& forall|j: int|
                #![trigger block[j]]
                0 <= j < block.len() ==> origin + block[j].offset_ticks + (if block[j].duration_ticks
                    < 1 {
                    1
                } else {
                    block[j].duration_ticks as int
                }) <= base
            &&& exists|j: int|
                #![trigger block[j]]
                0 <= j < block.len() && origin + block[j].offset_ticks + (
                if block[j].duration_ticks < 1 {
                    1
                } else {
                    block[j].duration_ticks as int
                }) == base
        }),
{
    law_copy_is_faithful(p, ids);
    let (origin, block) = block_of(p, ids)->0;
    lemma_block_span(block, block.len() as int);
    assert(block.take(block.len() as int) =~= block);
    assert(own_lanes(block) =~= block.map_values(|m: ClipboardClip| m.track));
    origin + block_span(block)
}

proof fn lemma_block_span(block: Seq<ClipboardClip>, n: int)
    requires
        0 <= n <= block.len(),
        forall|j: int| 0 <= j < block.len() ==> (#[trigger] block[j]).offset_ticks >= 0,
    ensures
        forall|j: int|
            #![trigger block[j]]
            0 <= j < n ==> block[j].offset_ticks + max_int(block[j].duration_ticks as int, 1)
                <= block_span(block.take(n)),
        n > 0 ==> exists|j: int|
            #![trigger block[j]]
            0 <= j < n && block[j].offset_ticks + max_int(block[j].duration_ticks as int, 1)
                == block_span(block.take(n)),
        block_span(block.take(n)) >= 0,
    decreases n,
{
    if n > 0 {
        lemma_block_span(block, n - 1);
        assert(block.take(n).drop_last() =~= block.take(n - 1));
        assert(block.take(n).last() == block[n - 1]);
        let before = block_span(block.take(n - 1));
        let x = block[n - 1].offset_ticks + max_int(block[n - 1].duration_ticks as int, 1);
        assert(block_span(block.take(n)) == max_int(before, x));
        if before > x && n > 1 {
            let j = choose|j: int|
                #![trigger block[j]]
                0 <= j < n - 1 && block[j].offset_ticks + max_int(
                    block[j].duration_ticks as int,
                    1,
                ) == before;
            assert(block[j].offset_ticks + max_int(block[j].duration_ticks as int, 1)
                == block_span(block.take(n)));
        }
    }
}

/// The step puts the whole content onto the lane at `start`.
pub open spec fn adds_content(e: EditView, c: ProjectClip, lane: u64, start: int) -> bool {
    match c.content {
        ClipSource::Media { media, source } => e == (EditView::AddClip {
            to: LaneRef::Id(lane),
            media,
            source,
            start,
        }),
        ClipSource::Generated(g) => e == (EditView::AddGenerated {
            to: LaneRef::Id(lane),
            generator: g,
            start,
            duration: c.duration as int,
        }),
    }
}

/// A span of `duration` at `start` meets a clip of the lane at place `t`.
pub open spec fn span_meets(p: Project, t: int, start: int, duration: int) -> bool {
    exists|d: int|
        has_clip(p, t, d) && (#[trigger] clip_at(p, t, d)).start < start + duration && start
            < clip_at(p, t, d).start + clip_at(p, t, d).duration
}

/// The duplicate of a clip has all of its content and lies on its lane. On the bottom
/// video lane with the magnet on it follows the clip at once, and what stands there makes
/// room; elsewhere it takes the first place from the clip's end on where it meets no
/// clip.
pub proof fn law_duplicate_follows_its_clip(
    p: Project,
    text: Seq<char>,
    t: int,
    c: int,
    magnet: bool,
)
    requires
        ids_unique(p),
        lanes_wf(p.lanes@),
        has_clip(p, t, c),
        raw_id(text) == Some(p.lanes@[t].clips@[c].id),
    ensures
        ({
            let x = p.lanes@[t].clips@[c];
            let lane = p.lanes@[t].id;
            let end = x.start + x.duration;
            let r = duplicated(p, text, magnet);
            &&& r is Run
            &&& magnet && is_bottom_video(p, t) ==> r->steps.len() == 2 && r->quiet == 0
                && r->steps[0] == (EditView::ShiftClips {
                lane,
                from: end,
                delta: x.duration as int,
            }) && adds_content(r->steps[1], x, lane, end)
            &&& !(magnet && is_bottom_video(p, t)) ==> r->steps.len() == 1 && r->quiet == 1
                && exists|s: int|
                s >= end && #[trigger] adds_content(r->steps[0], x, lane, s) && !span_meets(
                    p,
                    t,
                    s,
                    x.duration as int,
                ) && forall|e: int|
                    end <= e < s ==> #[trigger] span_meets(p, t, e, x.duration as int)
        }),
{
    law_clip_is_found(p, t, c);
    law_main_lane_is_bottom_video(p);
    let x = p.lanes@[t].clips@[c];
    let lane = p.lanes@[t].id;
    let clips = p.lanes@[t].clips@;
    let end = x.start + x.duration;
    assert(lane_wf(clips));
    assert(x.duration >= 1);
    assert((p.main_lane() == Some(t)) == is_bottom_video(p, t)) by {
        if is_bottom_video(p, t) {
            lemma_bottom_video(p, t);
        }
    }
    let r = duplicated(p, text, magnet);
    if !(magnet && is_bottom_video(p, t)) {
        law_first_fit_exists(clips, end, x.duration as int);
        let s = first_fit(clips, end, x.duration as int);
        assert(adds_content(r->steps[0], x, lane, s));
        lemma_gap_free(p, t, s, x.duration as int);
        assert forall|e: int| end <= e < s implies #[trigger] span_meets(p, t, e, x.duration as int) by {
            lemma_gap_free(p, t, e, x.duration as int);
            assert(!gap_free(clips, e, x.duration as int));
        }
    }
}

/// A free gap is one that meets no clip.
pub proof fn lemma_gap_free(p: Project, t: int, start: int, duration: int)
    requires
        0 <= t < p.lanes@.len(),
    ensures
        gap_free(p.lanes@[t].clips@, start, duration) == !span_meets(p, t, start, duration),
{
    let clips = p.lanes@[t].clips@;
    if span_meets(p, t, start, duration) {
        let d = choose|d: int|
            has_clip(p, t, d) && (#[trigger] clip_at(p, t, d)).start < start + duration && start
                < clip_at(p, t, d).start + clip_at(p, t, d).duration;
        assert(!(clips[d].end() <= start || clips[d].start >= start + duration));
    }
    if !gap_free(clips, start, duration) {
        let d = choose|d: int|
            0 <= d < clips.len() && !((#[trigger] clips[d]).end() <= start || clips[d].start >= start
                + duration);
        assert(has_clip(p, t, d));
        assert(clip_at(p, t, d).start < start + duration);
    }
}

// --- landing lanes --------------------------------------------------------

/// No lane of the project has the id.
pub open spec fn is_gone(p: Project, track: u64) -> bool {
    forall|t: int| 0 <= t < p.lanes@.len() ==> (#[trigger] p.lanes@[t]).id != track
}

/// The entry stands for the lane of a member that is gone.
spec fn stands_for(x: (u64, TrackKind), p: Project, block: Seq<ClipboardClip>) -> bool {
    exists|i: int|
        0 <= i < block.len() && is_gone(p, (#[trigger] block[i]).track) && x == (
            block[i].track,
            block[i].kind,
        )
}

proof fn lemma_missing(p: Project, block: Seq<ClipboardClip>)
    requires
        ids_unique(p),
    ensures
        missing_lanes(p, block).len() <= block.len(),
        forall|k: int|
            0 <= k < missing_lanes(p, block).len() ==> stands_for(
                #[trigger] missing_lanes(p, block)[k],
                p,
                block,
            ),
        forall|j: int, k: int|
            #![trigger missing_lanes(p, block)[j], missing_lanes(p, block)[k]]
            0 <= j < k < missing_lanes(p, block).len() ==> missing_lanes(p, block)[j].0
                != missing_lanes(p, block)[k].0,
        forall|i: int|
            0 <= i < block.len() && is_gone(p, (#[trigger] block[i]).track) ==> first_where(
                missing_lanes(p, block),
                lane_named(block[i].track),
            ) is Some,
    decreases block.len(),
{
    if block.len() > 0 {
        let init = block.drop_last();
        lemma_missing(p, init);
        let before = missing_lanes(p, init);
        let now = missing_lanes(p, block);
        let c = block.last();
        let f = lane_named(c.track);
        assert(block[block.len() - 1] == c);
        law_lane_is_found(p, c.track);
        lemma_first_where(before, f);
        assert forall|k: int| 0 <= k < now.len() implies stands_for(#[trigger] now[k], p, block) by {
            if k < before.len() {
                assert(now[k] == before[k]);
                let i = choose|i: int|
                    0 <= i < init.len() && is_gone(p, (#[trigger] init[i]).track) && before[k] == (
                        init[i].track,
                        init[i].kind,
                    );
                assert(block[i] == init[i]);
            }
        }
        assert forall|j: int, k: int|
            #![trigger now[j], now[k]]
            0 <= j < k < now.len() implies now[j].0 != now[k].0 by {
            assert(now[j] == before[j]);
            if k < before.len() {
                assert(now[k] == before[k]);
            } else {
                assert(!f(before[j]));
            }
        }
        assert forall|i: int|
            0 <= i < block.len() && is_gone(p, (#[trigger] block[i]).track) implies first_where(
            now,
            lane_named(block[i].track),
        ) is Some by {
            let g = lane_named(block[i].track);
            lemma_first_where(now, g);
            if i < init.len() {
                assert(init[i] == block[i]);
                lemma_first_where(before, g);
                let k = first_where(before, g)->0;
                assert(now[k] == before[k]);
                assert(g(now[k]));
            } else if first_where(before, f) is None {
                assert(g(now[before.len() as int]));
            }
        }
    }
}

/// A pasted member lands on the lane it was copied from while that lane exists. Where it
/// is gone, the member lands on a lane of its kind that the paste makes at the top of the
/// stack: one for all members of the lost lane, and another for those of another.
pub proof fn law_paste_lands_on_own_lanes(p: Project, block: Seq<ClipboardClip>, i: int, j: int)
    requires
        ids_unique(p),
        block.len() <= usize::MAX,
        0 <= i < block.len(),
        0 <= j < block.len(),
    ensures
        ({
            let missing = missing_lanes(p, block);
            let steps = lane_steps(p, missing);
            let lane = paste_lane(p, missing, block[i].track);
            &&& !is_gone(p, block[i].track) ==> lane == LaneRef::Id(block[i].track)
            &&& is_gone(p, block[i].track) ==> {
                &&& lane is Step
                &&& 0 <= lane->Step_0 < steps.len()
                &&& steps[lane->Step_0 as int] is AddTrack
                &&& steps[lane->Step_0 as int]->index == p.lanes@.len() + lane->Step_0
                &&& (forall|k: int|
                    0 <= k < block.len() && (#[trigger] block[k]).track == block[i].track
                        ==> block[k].kind == block[i].kind) ==> steps[lane->Step_0 as int]->kind
                    == block[i].kind
                &&& is_gone(p, block[j].track) ==> (paste_lane(p, missing, block[j].track) == lane)
                    == (block[j].track == block[i].track)
            }
        }),
{
    let missing = missing_lanes(p, block);
    let steps = lane_steps(p, missing);
    law_lane_is_found(p, block[i].track);
    law_lane_is_found(p, block[j].track);
    lemma_missing(p, block);
    let f = lane_named(block[i].track);
    let g = lane_named(block[j].track);
    lemma_first_where(missing, f);
    lemma_first_where(missing, g);
    if is_gone(p, block[i].track) {
        let k = first_where(missing, f)->0;
        assert(f(missing[k]));
        assert(stands_for(missing[k], p, block));
        let m = choose|m: int|
            0 <= m < block.len() && is_gone(p, (#[trigger] block[m]).track) && missing[k] == (
                block[m].track,
                block[m].kind,
            );
        assert(block[m].track == block[i].track);
        assert(steps[k] is AddTrack);
        if is_gone(p, block[j].track) {
            let l = first_where(missing, g)->0;
            assert(g(missing[l]));
        }
    } else {
        assert(p.lane_at(block[i].track) is Some);
    }
}

/// A paste makes no lane without need: each that it makes is for a member whose lane is
/// gone.
pub proof fn law_paste_makes_needed_lanes(p: Project, block: Seq<ClipboardClip>, k: int) -> (i: int)
    requires
        ids_unique(p),
        block.len() <= usize::MAX,
        0 <= k < lane_steps(p, missing_lanes(p, block)).len(),
    ensures
        0 <= i < block.len(),
        is_gone(p, block[i].track),
        paste_lane(p, missing_lanes(p, block), block[i].track) == LaneRef::Step(k as usize),
{
    let missing = missing_lanes(p, block);
    lemma_missing(p, block);
    assert(stands_for(missing[k], p, block));
    let i = choose|i: int|
        0 <= i < block.len() && is_gone(p, (#[trigger] block[i]).track) && missing[k] == (
            block[i].track,
            block[i].kind,
        );
    law_lane_is_found(p, block[i].track);
    let f = lane_named(block[i].track);
    lemma_first_where(missing, f);
    let l = first_where(missing, f)->0;
    assert(f(missing[l]));
    assert(l == k);
    i
}

/// A copy of nothing is no block: there is one exactly when an id names a clip.
pub proof fn law_copy_of_nothing(p: Project, ids: Seq<Seq<char>>)
    requires
        ids_unique(p),
        forall|k: int| 0 <= k < ids.len() ==> !names_some(#[trigger] ids[k], p),
    ensures
        block_of(p, ids) is None,
{
    lemma_no_copies(p, ids);
    lemma_stable_sort(copies(p, ids), by_offset());
}

proof fn lemma_no_copies(p: Project, ids: Seq<Seq<char>>)
    requires
        ids_unique(p),
        forall|k: int| 0 <= k < ids.len() ==> !names_some(#[trigger] ids[k], p),
    ensures
        copies(p, ids).len() == 0,
    decreases ids.len(),
{
    if ids.len() > 0 {
        let init = ids.drop_last();
        assert forall|k: int| 0 <= k < init.len() implies !names_some(#[trigger] init[k], p) by {
            assert(init[k] == ids[k]);
        }
        lemma_no_copies(p, init);
        let text = ids[ids.len() - 1];
        assert(!names_some(text, p));
        if copied(p, text) is Some {
            let at = law_found_clip_is_there(p, raw_id(text)->0);
            assert(clip_at(p, at.0, at.1).id == raw_id(text)->0);
        }
    }
}

} // verus!
