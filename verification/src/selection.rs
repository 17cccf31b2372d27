//! Multi-selection: click, shift-click and marquee gestures.
//!
//! A selection is a list of clip ids plus a primary anchor. While linkage is
//! on, a gesture takes in the whole link group of every clip it touches.

use vstd::prelude::*;

use crate::find::{first_where, lemma_filter_members, lemma_filter_take, lemma_first_found,
    lemma_first_where};
use crate::model::{Clip, Color, Sequence, Track, TrackKind};
use crate::num::{clamped32, sat_add};
use crate::order::{
    key_leq, lemma_sort_map, lemma_sort_members, lemma_stable_sort, pair_int, pair_leq, positions,
    sort_positions, stable_sort, total_preorder, upto,
};
use crate::text::{contains_text, str_eq, texts};

verus! {

/// One placed clip with its lane row (top first) and what its lane says.
#[derive(Debug)]
pub struct PlacedClip {
    pub row: usize,
    pub track_id: String,
    pub kind: TrackKind,
    pub locked: bool,
    pub color: Color,
    pub clip_id: String,
    pub link_id: String,
    pub start: i32,
    pub duration: i32,
}

impl Clone for PlacedClip {
    fn clone(&self) -> (r: Self)
        ensures
            r == *self,
    {
        PlacedClip {
            row: self.row,
            track_id: self.track_id.clone(),
            kind: self.kind,
            locked: self.locked,
            color: self.color,
            clip_id: self.clip_id.clone(),
            link_id: self.link_id.clone(),
            start: self.start,
            duration: self.duration,
        }
    }
}

impl PlacedClip {
    /// One past the last tick, saturated to `i32`.
    pub open spec fn end_tick(&self) -> int {
        clamped32(self.start + self.duration)
    }

    /// One past the last tick, saturated to `i32`.
    pub fn end(&self) -> (r: i32)
        ensures
            r == self.end_tick(),
    {
        sat_add(self.start, self.duration)
    }
}

/// Clip `clip` on the lane `track` at row `row`.
pub open spec fn placed(track: Track, row: int, clip: Clip) -> PlacedClip {
    PlacedClip {
        row: row as usize,
        track_id: track.id,
        kind: track.kind,
        locked: track.locked,
        color: track.color,
        clip_id: clip.id,
        link_id: clip.link_id,
        start: clip.timeline_start.value,
        duration: clip.source_range.duration.value,
    }
}

/// Every clip, lane by lane from the top, each lane in its own order.
pub open spec fn all_placed(tracks: Seq<Track>) -> Seq<PlacedClip>
    decreases tracks.len(),
{
    if tracks.len() == 0 {
        Seq::empty()
    } else {
        all_placed(tracks.drop_last()) + Seq::new(
            tracks.last().clips@.len(),
            |c: int| placed(tracks.last(), tracks.len() - 1, tracks.last().clips@[c]),
        )
    }
}

/// Gather every clip with its placement.
pub fn placed_clips(sequence: &Sequence) -> (r: Vec<PlacedClip>)
    ensures
        r@ == all_placed(sequence.tracks@),
{
    let mut out: Vec<PlacedClip> = Vec::new();
    let mut row: usize = 0;
    while row < sequence.tracks.len()
        invariant
            row <= sequence.tracks.len(),
            out@ == all_placed(sequence.tracks@.take(row as int)),
        decreases sequence.tracks.len() - row,
    {
        let track = &sequence.tracks[row];
        let ghost before = out@;
        let mut c: usize = 0;
        while c < track.clips.len()
            invariant
                row < sequence.tracks.len(),
                *track == sequence.tracks@[row as int],
                c <= track.clips.len(),
                out@ == before + Seq::new(
                    c as nat,
                    |i: int| placed(*track, row as int, track.clips@[i]),
                ),
            decreases track.clips.len() - c,
        {
            let clip = &track.clips[c];
            let ghost was = out@;
            out.push(
                PlacedClip {
                    row,
                    track_id: track.id.clone(),
                    kind: track.kind,
                    locked: track.locked,
                    color: track.color,
                    clip_id: clip.id.clone(),
                    link_id: clip.link_id.clone(),
                    start: clip.timeline_start.value,
                    duration: clip.source_range.duration.value,
                },
            );
            assert(out@ =~= before + Seq::new(
                (c + 1) as nat,
                |i: int| placed(*track, row as int, track.clips@[i]),
            ));
            c += 1;
        }
        proof {
            let upper = sequence.tracks@.take(row as int + 1);
            assert(upper.drop_last() =~= sequence.tracks@.take(row as int));
            assert(upper.last() == *track);
            assert(out@ =~= all_placed(upper));
        }
        row += 1;
    }
    assert(sequence.tracks@.take(row as int) =~= sequence.tracks@);
    out
}

/// Rows count up with the lanes they stand for.
pub proof fn lemma_placed_rows(tracks: Seq<Track>)
    requires
        tracks.len() <= usize::MAX,
    ensures
        forall|i: int|
            #![trigger all_placed(tracks)[i]]
            0 <= i < all_placed(tracks).len() ==> {
                let c = all_placed(tracks)[i];
                &&& c.row < tracks.len()
                &&& c.track_id == tracks[c.row as int].id
                &&& c.kind == tracks[c.row as int].kind
                &&& c.locked == tracks[c.row as int].locked
            },
    decreases tracks.len(),
{
    if tracks.len() > 0 {
        lemma_placed_rows(tracks.drop_last());
        assert forall|i: int|
            #![trigger all_placed(tracks)[i]]
            0 <= i < all_placed(tracks).len() implies {
            let c = all_placed(tracks)[i];
            &&& c.row < tracks.len()
            &&& c.track_id == tracks[c.row as int].id
            &&& c.kind == tracks[c.row as int].kind
            &&& c.locked == tracks[c.row as int].locked
        } by {
            let front = all_placed(tracks.drop_last());
            if i < front.len() {
                assert(all_placed(tracks)[i] == front[i]);
            }
        }
    }
}

// --- (row, start) order ---------------------------------------------------

/// The place of a clip: its row, then its start.
pub open spec fn place(c: PlacedClip) -> (int, int) {
    (c.row as int, c.start as int)
}

/// Order by place.
pub open spec fn by_place() -> spec_fn(PlacedClip, PlacedClip) -> bool {
    |a: PlacedClip, b: PlacedClip| pair_leq(place(a), place(b))
}

/// Clips in (row, start) order.
pub open spec fn in_place_order(clips: Seq<PlacedClip>) -> Seq<PlacedClip> {
    stable_sort(clips, by_place())
}

/// Every clip's row fits `i32`.
pub open spec fn rows_fit(clips: Seq<PlacedClip>) -> bool {
    forall|i: int| 0 <= i < clips.len() ==> (#[trigger] clips[i]).row <= i32::MAX
}

pub fn sort_by_place(clips: &Vec<PlacedClip>) -> (r: Vec<PlacedClip>)
    requires
        rows_fit(clips@),
    ensures
        r@ == in_place_order(clips@),
{
    let mut keys: Vec<(i64, i64)> = Vec::new();
    let mut i: usize = 0;
    while i < clips.len()
        invariant
            i <= clips.len(),
            rows_fit(clips@),
            keys.len() == i,
            forall|j: int| 0 <= j < i ==> pair_int(#[trigger] keys@[j]) == place(clips@[j]),
        decreases clips.len() - i,
    {
        keys.push((clips[i].row as i64, clips[i].start as i64));
        i += 1;
    }
    let order = sort_positions(&keys);
    let ghost f = |p: int| clips@[p];
    proof {
        let all = upto(clips@.len());
        assert forall|x: int, y: int| all.contains(x) && all.contains(y) implies #[trigger] key_leq(
            keys@,
        )(x, y) == by_place()(f(x), f(y)) by {}
        lemma_sort_map(all, f, key_leq(keys@), by_place());
        assert(all.map_values(f) =~= clips@);
    }
    let mut out: Vec<PlacedClip> = Vec::new();
    let mut k: usize = 0;
    while k < order.len()
        invariant
            k <= order.len(),
            order.len() == clips.len(),
            f == |p: int| clips@[p],
            forall|j: int| 0 <= j < order.len() ==> (#[trigger] order@[j]) < clips.len(),
            out@ == positions(order@).map_values(f).take(k as int),
        decreases order.len() - k,
    {
        out.push(clips[order[k]].clone());
        assert(out@ =~= positions(order@).map_values(f).take(k as int + 1));
        k += 1;
    }
    assert(positions(order@).map_values(f).take(k as int) =~= positions(order@).map_values(f));
    out
}

/// The first clip in (row, start) order.
pub open spec fn first_in_place(clips: Seq<PlacedClip>) -> Option<PlacedClip> {
    if clips.len() == 0 {
        None
    } else {
        Some(in_place_order(clips)[0])
    }
}

/// The first clip in (row, start) order is one of the clips, and none lies
/// before it.
pub proof fn law_first_in_place(clips: Seq<PlacedClip>)
    requires
        clips.len() > 0,
    ensures
        clips.contains(first_in_place(clips)->0),
        forall|c: PlacedClip| #[trigger]
            clips.contains(c) ==> pair_leq(place(first_in_place(clips)->0), place(c)),
{
    let sorted = in_place_order(clips);
    lemma_stable_sort(clips, by_place());
    lemma_sort_members(clips, by_place());
    assert(total_preorder(by_place()));
    assert(sorted.contains(sorted[0]));
    assert forall|c: PlacedClip| #[trigger] clips.contains(c) implies pair_leq(
        place(sorted[0]),
        place(c),
    ) by {
        assert(sorted.contains(c));
        let i = choose|i: int| 0 <= i < sorted.len() && sorted[i] == c;
        if i > 0 {
            assert(by_place()(sorted[0], sorted[i]));
        }
    }
}

// --- membership and link groups -------------------------------------------

/// Membership test for a selection.
pub fn selection_contains(ids: &Vec<String>, id: &str) -> (r: bool)
    ensures
        r == texts(ids@).contains(id@),
{
    contains_text(ids, id)
}

/// The ids of clips.
pub open spec fn clip_ids(clips: Seq<PlacedClip>) -> Seq<Seq<char>> {
    clips.map_values(|c: PlacedClip| c.clip_id@)
}

/// The clips whose ids are in `ids`, in their order.
pub open spec fn chosen(clips: Seq<PlacedClip>, ids: Seq<Seq<char>>) -> Seq<PlacedClip> {
    clips.filter(|c: PlacedClip| ids.contains(c.clip_id@))
}

/// Having this id.
pub open spec fn has_id(id: Seq<char>) -> spec_fn(PlacedClip) -> bool {
    |c: PlacedClip| c.clip_id@ == id
}

/// Belonging to this link group.
pub open spec fn in_link(link: Seq<char>) -> spec_fn(PlacedClip) -> bool {
    |c: PlacedClip| c.link_id@ == link
}

/// The clips of a link group, in their order.
pub open spec fn linked(clips: Seq<PlacedClip>, link: Seq<char>) -> Seq<PlacedClip> {
    clips.filter(in_link(link))
}

/// The link group of the first clip with this id; empty when it has none.
pub open spec fn link_of(clips: Seq<PlacedClip>, id: Seq<char>) -> Seq<char> {
    match first_where(clips, has_id(id)) {
        Some(i) => clips[i].link_id@,
        None => Seq::empty(),
    }
}

/// The clip, or while linkage is on its whole link group in (row, start) order.
pub open spec fn group_ids(clips: Seq<PlacedClip>, id: Seq<char>, link_enabled: bool) -> Seq<
    Seq<char>,
> {
    let link = link_of(clips, id);
    if !link_enabled || link.len() == 0 {
        seq![id]
    } else {
        clip_ids(in_place_order(linked(clips, link)))
    }
}

fn find_placed(clips: &Vec<PlacedClip>, id: &str) -> (r: Option<usize>)
    ensures
        match r {
            Some(i) => i < clips.len() && first_where(clips@, has_id(id@)) == Some(i as int),
            None => first_where(clips@, has_id(id@)) is None,
        },
{
    let ghost p = has_id(id@);
    let mut i: usize = 0;
    while i < clips.len()
        invariant
            i <= clips.len(),
            p == has_id(id@),
            forall|j: int| 0 <= j < i ==> !p(#[trigger] clips@[j]),
        decreases clips.len() - i,
    {
        if str_eq(clips[i].clip_id.as_str(), id) {
            proof {
                lemma_first_found(clips@, p, i as int);
            }
            return Some(i);
        }
        i += 1;
    }
    proof {
        lemma_first_where(clips@, p);
    }
    None
}

pub fn chosen_clips(clips: &Vec<PlacedClip>, ids: &Vec<String>) -> (r: Vec<PlacedClip>)
    ensures
        r@ == chosen(clips@, texts(ids@)),
{
    let ghost p = |c: PlacedClip| texts(ids@).contains(c.clip_id@);
    let mut out: Vec<PlacedClip> = Vec::new();
    let mut i: usize = 0;
    proof {
        reveal(Seq::filter);
    }
    while i < clips.len()
        invariant
            i <= clips.len(),
            p == |c: PlacedClip| texts(ids@).contains(c.clip_id@),
            out@ == clips@.take(i as int).filter(p),
        decreases clips.len() - i,
    {
        proof {
            lemma_filter_take(clips@, i as int, p);
        }
        if contains_text(ids, clips[i].clip_id.as_str()) {
            out.push(clips[i].clone());
        }
        i += 1;
    }
    assert(clips@.take(i as int) =~= clips@);
    out
}

fn linked_clips(clips: &Vec<PlacedClip>, link: &str) -> (r: Vec<PlacedClip>)
    ensures
        r@ == linked(clips@, link@),
{
    let ghost p = in_link(link@);
    let mut out: Vec<PlacedClip> = Vec::new();
    let mut i: usize = 0;
    proof {
        reveal(Seq::filter);
    }
    while i < clips.len()
        invariant
            i <= clips.len(),
            p == in_link(link@),
            out@ == clips@.take(i as int).filter(p),
        decreases clips.len() - i,
    {
        proof {
            lemma_filter_take(clips@, i as int, p);
        }
        if str_eq(clips[i].link_id.as_str(), link) {
            out.push(clips[i].clone());
        }
        i += 1;
    }
    assert(clips@.take(i as int) =~= clips@);
    out
}

fn ids_of(clips: &Vec<PlacedClip>) -> (r: Vec<String>)
    ensures
        texts(r@) == clip_ids(clips@),
{
    let mut out: Vec<String> = Vec::new();
    let mut i: usize = 0;
    while i < clips.len()
        invariant
            i <= clips.len(),
            texts(out@) == clip_ids(clips@).take(i as int),
        decreases clips.len() - i,
    {
        let ghost was = texts(out@);
        out.push(clips[i].clip_id.clone());
        proof {
            assert(texts(out@) =~= was.push(clips@[i as int].clip_id@));
            assert(texts(out@) =~= clip_ids(clips@).take(i as int + 1));
        }
        i += 1;
    }
    assert(clip_ids(clips@).take(i as int) =~= clip_ids(clips@));
    out
}

pub proof fn lemma_filter_rows(clips: Seq<PlacedClip>, p: spec_fn(PlacedClip) -> bool)
    requires
        rows_fit(clips),
    ensures
        rows_fit(clips.filter(p)),
{
    lemma_filter_members(clips, p);
    assert forall|i: int| 0 <= i < clips.filter(p).len() implies (#[trigger] clips.filter(
        p,
    )[i]).row <= i32::MAX by {
        assert(clips.filter(p).contains(clips.filter(p)[i]));
        assert(clips.contains(clips.filter(p)[i]));
    }
}

/// The clip plus, while linkage is on, every clip of its link group, ordered by
/// (row, start).
pub fn link_group(clips: &Vec<PlacedClip>, clip_id: &str, link_enabled: bool) -> (r: Vec<String>)
    requires
        rows_fit(clips@),
    ensures
        texts(r@) == group_ids(clips@, clip_id@, link_enabled),
{
    let link: String = match find_placed(clips, clip_id) {
        Some(i) => clips[i].link_id.clone(),
        None => String::new(),
    };
    if !link_enabled || link.as_str().is_empty() {
        let mut only: Vec<String> = Vec::new();
        only.push(clip_id.to_owned());
        assert(texts(only@) =~= seq![clip_id@]);
        return only;
    }
    let members = linked_clips(clips, link.as_str());
    proof {
        lemma_filter_rows(clips@, in_link(link@));
    }
    ids_of(&sort_by_place(&members))
}

// --- gestures -------------------------------------------------------------

/// A new selection: its ids, and the lane and clip of its primary anchor
/// (empty when there is none).
#[derive(Debug)]
pub struct SelectionUpdate {
    pub ids: Vec<String>,
    pub primary_track_id: String,
    pub primary_clip_id: String,
}

/// The contents of a [`SelectionUpdate`].
pub struct SelectionView {
    pub ids: Seq<Seq<char>>,
    pub track: Seq<char>,
    pub clip: Seq<char>,
}

impl View for SelectionUpdate {
    type V = SelectionView;

    open spec fn view(&self) -> SelectionView {
        SelectionView {
            ids: texts(self.ids@),
            track: self.primary_track_id@,
            clip: self.primary_clip_id@,
        }
    }
}

/// Plain click: select the clip and its link group.
pub fn select_clip(sequence: &Sequence, track_id: &str, clip_id: &str, link_enabled: bool) -> (r:
    SelectionUpdate)
    requires
        sequence.tracks.len() <= i32::MAX,
    ensures
        r@ == (SelectionView {
            ids: group_ids(all_placed(sequence.tracks@), clip_id@, link_enabled),
            track: track_id@,
            clip: clip_id@,
        }),
{
    let clips = placed_clips(sequence);
    proof {
        lemma_placed_rows(sequence.tracks@);
    }
    SelectionUpdate {
        ids: link_group(&clips, clip_id, link_enabled),
        primary_track_id: track_id.to_owned(),
        primary_clip_id: clip_id.to_owned(),
    }
}

/// The lane and clip of an anchor.
pub open spec fn anchored(c: Option<PlacedClip>) -> (Seq<char>, Seq<char>) {
    match c {
        Some(c) => (c.track_id@, c.clip_id@),
        None => (Seq::empty(), Seq::empty()),
    }
}

/// The ids that are not in `group`, in their order.
pub open spec fn without(ids: Seq<Seq<char>>, group: Seq<Seq<char>>) -> Seq<Seq<char>> {
    ids.filter(|id: Seq<char>| !group.contains(id))
}

/// What a shift-click makes of a selection.
pub open spec fn toggled(
    clips: Seq<PlacedClip>,
    current: Seq<Seq<char>>,
    track: Seq<char>,
    clip: Seq<char>,
    link_enabled: bool,
) -> SelectionView {
    let group = group_ids(clips, clip, link_enabled);
    if current.contains(clip) {
        let ids = without(current, group);
        let (track, clip) = anchored(first_in_place(chosen(clips, ids)));
        SelectionView { ids, track, clip }
    } else {
        SelectionView { ids: without(current, group) + group, track, clip }
    }
}

fn anchor_on(clips: &Vec<PlacedClip>, ids: &Vec<String>) -> (r: (String, String))
    requires
        rows_fit(clips@),
    ensures
        (r.0@, r.1@) == anchored(first_in_place(chosen(clips@, texts(ids@)))),
{
    let members = chosen_clips(clips, ids);
    proof {
        lemma_filter_rows(clips@, |c: PlacedClip| texts(ids@).contains(c.clip_id@));
    }
    if members.len() == 0 {
        return (String::new(), String::new());
    }
    let sorted = sort_by_place(&members);
    proof {
        lemma_stable_sort(members@, by_place());
    }
    (sorted[0].track_id.clone(), sorted[0].clip_id.clone())
}

fn ids_without(ids: &Vec<String>, group: &Vec<String>) -> (r: Vec<String>)
    ensures
        texts(r@) == without(texts(ids@), texts(group@)),
{
    let ghost p = |id: Seq<char>| !texts(group@).contains(id);
    let mut out: Vec<String> = Vec::new();
    let mut i: usize = 0;
    proof {
        reveal(Seq::filter);
        assert(texts(out@) =~= Seq::<Seq<char>>::empty());
    }
    while i < ids.len()
        invariant
            i <= ids.len(),
            p == |id: Seq<char>| !texts(group@).contains(id),
            texts(out@) == texts(ids@).take(i as int).filter(p),
        decreases ids.len() - i,
    {
        proof {
            lemma_filter_take(texts(ids@), i as int, p);
        }
        let ghost was = texts(out@);
        if !contains_text(group, ids[i].as_str()) {
            out.push(ids[i].clone());
            assert(texts(out@) =~= was.push(ids@[i as int]@));
        }
        i += 1;
    }
    assert(texts(ids@).take(i as int) =~= texts(ids@));
    out
}

fn append_ids(ids: &mut Vec<String>, more: &Vec<String>)
    ensures
        texts(final(ids)@) == texts(old(ids)@) + texts(more@),
{
    let ghost first = texts(ids@);
    let mut i: usize = 0;
    assert(first =~= first + texts(more@).take(0));
    while i < more.len()
        invariant
            i <= more.len(),
            texts(ids@) == first + texts(more@).take(i as int),
        decreases more.len() - i,
    {
        let ghost was = texts(ids@);
        ids.push(more[i].clone());
        assert(texts(ids@) =~= was.push(more@[i as int]@));
        assert(texts(ids@) =~= first + texts(more@).take(i as int + 1));
        i += 1;
    }
    assert(texts(more@).take(i as int) =~= texts(more@));
}

/// Shift-click: toggle the clip's link group in the selection. Deselecting
/// re-anchors the primary on the first remaining member in (row, start) order.
pub fn toggle_clip(
    sequence: &Sequence,
    current: &Vec<String>,
    track_id: &str,
    clip_id: &str,
    link_enabled: bool,
) -> (r: SelectionUpdate)
    requires
        sequence.tracks.len() <= i32::MAX,
    ensures
        r@ == toggled(
            all_placed(sequence.tracks@),
            texts(current@),
            track_id@,
            clip_id@,
            link_enabled,
        ),
{
    let clips = placed_clips(sequence);
    proof {
        lemma_placed_rows(sequence.tracks@);
    }
    let group = link_group(&clips, clip_id, link_enabled);
    let was_selected: bool = selection_contains(current, clip_id);
    let mut ids = ids_without(current, &group);
    if was_selected {
        let (track, clip) = anchor_on(&clips, &ids);
        SelectionUpdate { ids, primary_track_id: track, primary_clip_id: clip }
    } else {
        append_ids(&mut ids, &group);
        SelectionUpdate {
            ids,
            primary_track_id: track_id.to_owned(),
            primary_clip_id: clip_id.to_owned(),
        }
    }
}

/// Toggling a group into a selection that holds none of it, and toggling it
/// again, gives the selection back.
pub proof fn law_toggle_twice(
    clips: Seq<PlacedClip>,
    current: Seq<Seq<char>>,
    track: Seq<char>,
    clip: Seq<char>,
    link_enabled: bool,
)
    requires
        forall|i: int|
            0 <= i < current.len() ==> !group_ids(clips, clip, link_enabled).contains(
                #[trigger] current[i],
            ),
    ensures
        toggled(
            clips,
            toggled(clips, current, track, clip, link_enabled).ids,
            track,
            clip,
            link_enabled,
        ).ids == current,
{
    let group = group_ids(clips, clip, link_enabled);
    let p = |id: Seq<char>| !group.contains(id);
    law_group_holds_clip(clips, clip, link_enabled);
    lemma_filter_all(current, p);
    let ids = current + group;
    assert(toggled(clips, current, track, clip, link_enabled).ids == ids);
    let k = choose|k: int| 0 <= k < group.len() && group[k] == clip;
    assert(ids[current.len() + k] == clip);
    assert(ids.contains(clip));
    Seq::filter_distributes_over_add(current, group, p);
    assert forall|i: int| 0 <= i < group.len() implies !p(#[trigger] group[i]) by {
        assert(group.contains(group[i]));
    }
    lemma_filter_nothing(group, p);
    assert(current + Seq::<Seq<char>>::empty() =~= current);
}

proof fn lemma_filter_all<T>(s: Seq<T>, p: spec_fn(T) -> bool)
    requires
        forall|i: int| 0 <= i < s.len() ==> p(#[trigger] s[i]),
    ensures
        s.filter(p) == s,
    decreases s.len(),
{
    reveal(Seq::filter);
    if s.len() > 0 {
        let front = s.drop_last();
        assert forall|i: int| 0 <= i < front.len() implies p(#[trigger] front[i]) by {
            assert(front[i] == s[i]);
        }
        lemma_filter_all(front, p);
        assert(s[s.len() - 1] == s.last());
        assert(front.push(s.last()) =~= s);
    }
}

proof fn lemma_filter_nothing<T>(s: Seq<T>, p: spec_fn(T) -> bool)
    requires
        forall|i: int| 0 <= i < s.len() ==> !p(#[trigger] s[i]),
    ensures
        s.filter(p) == Seq::<T>::empty(),
    decreases s.len(),
{
    reveal(Seq::filter);
    if s.len() > 0 {
        let front = s.drop_last();
        assert forall|i: int| 0 <= i < front.len() implies !p(#[trigger] front[i]) by {
            assert(front[i] == s[i]);
        }
        lemma_filter_nothing(front, p);
        assert(s[s.len() - 1] == s.last());
    } else {
        assert(s.filter(p) =~= Seq::<T>::empty());
    }
}

/// A clip is a member of its own group.
pub proof fn law_group_holds_clip(clips: Seq<PlacedClip>, id: Seq<char>, link_enabled: bool)
    ensures
        group_ids(clips, id, link_enabled).contains(id),
{
    let p = has_id(id);
    lemma_first_where(clips, p);
    let link = link_of(clips, id);
    if link_enabled && link.len() > 0 {
        let first = first_where(clips, p)->0;
        let q = in_link(link);
        lemma_filter_members(clips, q);
        assert(clips.contains(clips[first]));
        assert(q(clips[first]));
        assert(clips.filter(q).contains(clips[first]));
        lemma_sort_members(linked(clips, link), by_place());
        let sorted = in_place_order(linked(clips, link));
        assert(sorted.contains(clips[first]));
        let k = choose|k: int| 0 <= k < sorted.len() && sorted[k] == clips[first];
        assert(clip_ids(sorted)[k] == id);
    } else {
        assert(seq![id][0] == id);
    }
}

// --- marquee --------------------------------------------------------------

/// A clip on an unlocked lane that meets the ticks `tick0..tick1` on a row in
/// `row_lo..row_hi`.
pub open spec fn marquee_hits(c: PlacedClip, tick0: int, tick1: int, row_lo: int, row_hi: int) -> bool {
    !c.locked && row_lo <= c.row < row_hi && c.start < tick1 && c.end_tick() > tick0
}

/// `ids` with `id` behind it unless it is there already.
pub open spec fn push_unique(ids: Seq<Seq<char>>, id: Seq<char>) -> Seq<Seq<char>> {
    if ids.contains(id) {
        ids
    } else {
        ids.push(id)
    }
}

/// Push each of `more` that is not there yet.
pub open spec fn push_all_unique(ids: Seq<Seq<char>>, more: Seq<Seq<char>>) -> Seq<Seq<char>>
    decreases more.len(),
{
    if more.len() == 0 {
        ids
    } else {
        push_unique(push_all_unique(ids, more.drop_last()), more.last())
    }
}

/// The groups of the clips in `hit`, each id once, where it came up first.
pub open spec fn expanded(
    clips: Seq<PlacedClip>,
    hit: Seq<PlacedClip>,
    link_enabled: bool,
) -> Seq<Seq<char>>
    decreases hit.len(),
{
    if hit.len() == 0 {
        Seq::empty()
    } else {
        push_all_unique(
            expanded(clips, hit.drop_last(), link_enabled),
            group_ids(clips, hit.last().clip_id@, link_enabled),
        )
    }
}

/// The clips a marquee touches, in (row, start) order.
pub open spec fn marquee_clips(
    clips: Seq<PlacedClip>,
    tick0: int,
    tick1: int,
    row_lo: int,
    row_hi: int,
) -> Seq<PlacedClip> {
    in_place_order(
        clips.filter(|c: PlacedClip| marquee_hits(c, tick0, tick1, row_lo, row_hi)),
    )
}

fn add_unique(ids: &mut Vec<String>, more: &Vec<String>)
    ensures
        texts(final(ids)@) == push_all_unique(texts(old(ids)@), texts(more@)),
{
    let ghost first = texts(ids@);
    let mut i: usize = 0;
    while i < more.len()
        invariant
            i <= more.len(),
            texts(ids@) == push_all_unique(first, texts(more@).take(i as int)),
        decreases more.len() - i,
    {
        let ghost was = texts(ids@);
        proof {
            let upper = texts(more@).take(i as int + 1);
            assert(upper.drop_last() =~= texts(more@).take(i as int));
            assert(upper.last() == more@[i as int]@);
        }
        if !contains_text(ids, more[i].as_str()) {
            ids.push(more[i].clone());
            assert(texts(ids@) =~= was.push(more@[i as int]@));
        }
        i += 1;
    }
    assert(texts(more@).take(i as int) =~= texts(more@));
}

/// Marquee: every clip on an unlocked lane that meets the rectangle, expanded to
/// whole link groups while linkage is on.
///
/// `row_lo` is the floor of the rectangle's top edge and `row_hi` the ceiling of
/// its bottom edge, in lane rows from the top.
pub fn resolve_marquee(
    sequence: &Sequence,
    tick0: i32,
    tick1: i32,
    row_lo: i64,
    row_hi: i64,
    link_enabled: bool,
) -> (r: SelectionUpdate)
    requires
        sequence.tracks.len() <= i32::MAX,
    ensures
        ({
            let clips = all_placed(sequence.tracks@);
            let hit = marquee_clips(
                clips,
                tick0 as int,
                tick1 as int,
                row_lo as int,
                row_hi as int,
            );
            let (track, clip) = anchored(
                if hit.len() == 0 {
                    None
                } else {
                    Some(hit[0])
                },
            );
            r@ == (SelectionView { ids: expanded(clips, hit, link_enabled), track, clip })
        }),
{
    let clips = placed_clips(sequence);
    proof {
        lemma_placed_rows(sequence.tracks@);
        assert(rows_fit(clips@));
        reveal(Seq::filter);
    }
    let ghost p = |c: PlacedClip|
        marquee_hits(c, tick0 as int, tick1 as int, row_lo as int, row_hi as int);
    let mut found: Vec<PlacedClip> = Vec::new();
    let mut i: usize = 0;
    while i < clips.len()
        invariant
            i <= clips.len(),
            rows_fit(clips@),
            p == |c: PlacedClip|
                marquee_hits(c, tick0 as int, tick1 as int, row_lo as int, row_hi as int),
            found@ == clips@.take(i as int).filter(p),
        decreases clips.len() - i,
    {
        proof {
            lemma_filter_take(clips@, i as int, p);
        }
        let c = &clips[i];
        let row: i64 = c.row as i64;
        if !c.locked && row_lo <= row && row < row_hi && c.start < tick1 && c.end() > tick0 {
            found.push(c.clone());
        }
        i += 1;
    }
    proof {
        assert(clips@.take(i as int) =~= clips@);
        lemma_filter_rows(clips@, p);
    }
    let hit = sort_by_place(&found);
    let mut ids: Vec<String> = Vec::new();
    assert(texts(ids@) =~= Seq::<Seq<char>>::empty());
    let mut k: usize = 0;
    while k < hit.len()
        invariant
            k <= hit.len(),
            rows_fit(clips@),
            texts(ids@) == expanded(clips@, hit@.take(k as int), link_enabled),
        decreases hit.len() - k,
    {
        proof {
            let upper = hit@.take(k as int + 1);
            assert(upper.drop_last() =~= hit@.take(k as int));
            assert(upper.last() == hit@[k as int]);
        }
        let group = link_group(&clips, hit[k].clip_id.as_str(), link_enabled);
        add_unique(&mut ids, &group);
        k += 1;
    }
    assert(hit@.take(k as int) =~= hit@);
    let (track, clip): (String, String) = if hit.len() == 0 {
        (String::new(), String::new())
    } else {
        (hit[0].track_id.clone(), hit[0].clip_id.clone())
    };
    SelectionUpdate { ids, primary_track_id: track, primary_clip_id: clip }
}

proof fn lemma_push_all_unique(ids: Seq<Seq<char>>, more: Seq<Seq<char>>)
    ensures
        ids.no_duplicates() ==> push_all_unique(ids, more).no_duplicates(),
        forall|id: Seq<char>| #[trigger]
            push_all_unique(ids, more).contains(id) == (ids.contains(id) || more.contains(id)),
    decreases more.len(),
{
    if more.len() > 0 {
        lemma_push_all_unique(ids, more.drop_last());
        let before = push_all_unique(ids, more.drop_last());
        let after = push_all_unique(ids, more);
        assert forall|id: Seq<char>| #[trigger] after.contains(id) == (ids.contains(id)
            || more.contains(id)) by {
            assert(more.contains(id) == (more.drop_last().contains(id) || id == more.last())) by {
                if more.contains(id) {
                    let i = choose|i: int| 0 <= i < more.len() && more[i] == id;
                    if i < more.len() - 1 {
                        assert(more.drop_last()[i] == id);
                    }
                }
                if more.drop_last().contains(id) {
                    let i = choose|i: int| 0 <= i < more.len() - 1 && more.drop_last()[i] == id;
                    assert(more[i] == id);
                }
                assert(more[more.len() - 1] == more.last());
            }
            assert(before.push(more.last()).contains(id) == (before.contains(id) || id
                == more.last())) by {
                let pushed = before.push(more.last());
                if before.contains(id) {
                    let i = choose|i: int| 0 <= i < before.len() && before[i] == id;
                    assert(pushed[i] == id);
                }
                assert(pushed[before.len() as int] == more.last());
            }
        }
    }
}

/// A marquee selects each clip once, and exactly the members of the groups of
/// the clips it touches.
pub proof fn law_marquee_selects_groups(
    clips: Seq<PlacedClip>,
    hit: Seq<PlacedClip>,
    link_enabled: bool,
)
    ensures
        expanded(clips, hit, link_enabled).no_duplicates(),
        forall|id: Seq<char>| #[trigger]
            expanded(clips, hit, link_enabled).contains(id) <==> exists|k: int|
                0 <= k < hit.len() && group_ids(
                    clips,
                    (#[trigger] hit[k]).clip_id@,
                    link_enabled,
                ).contains(id),
    decreases hit.len(),
{
    if hit.len() > 0 {
        let front = hit.drop_last();
        law_marquee_selects_groups(clips, front, link_enabled);
        lemma_push_all_unique(
            expanded(clips, front, link_enabled),
            group_ids(clips, hit.last().clip_id@, link_enabled),
        );
        assert forall|id: Seq<char>| #[trigger]
            expanded(clips, hit, link_enabled).contains(id) <==> exists|k: int|
                0 <= k < hit.len() && group_ids(
                    clips,
                    (#[trigger] hit[k]).clip_id@,
                    link_enabled,
                ).contains(id) by {
            if expanded(clips, front, link_enabled).contains(id) {
                let k = choose|k: int|
                    0 <= k < front.len() && group_ids(
                        clips,
                        (#[trigger] front[k]).clip_id@,
                        link_enabled,
                    ).contains(id);
                assert(hit[k] == front[k]);
            }
            assert(hit[hit.len() - 1] == hit.last());
            if exists|k: int|
                0 <= k < hit.len() && group_ids(
                    clips,
                    (#[trigger] hit[k]).clip_id@,
                    link_enabled,
                ).contains(id) {
                let k = choose|k: int|
                    0 <= k < hit.len() && group_ids(
                        clips,
                        (#[trigger] hit[k]).clip_id@,
                        link_enabled,
                    ).contains(id);
                if k < front.len() {
                    assert(front[k] == hit[k]);
                }
            }
        }
    }
}

// --- upkeep ---------------------------------------------------------------

/// Whether any selected clip belongs to a link group.
pub fn selection_has_link(sequence: &Sequence, ids: &Vec<String>) -> (r: bool)
    ensures
        r == exists|i: int|
            0 <= i < all_placed(sequence.tracks@).len() && (#[trigger] all_placed(
                sequence.tracks@,
            )[i]).link_id@.len() > 0 && texts(ids@).contains(
                all_placed(sequence.tracks@)[i].clip_id@,
            ),
{
    let clips = placed_clips(sequence);
    let mut i: usize = 0;
    while i < clips.len()
        invariant
            i <= clips.len(),
            clips@ == all_placed(sequence.tracks@),
            forall|j: int|
                0 <= j < i ==> !((#[trigger] clips@[j]).link_id@.len() > 0 && texts(ids@).contains(
                    clips@[j].clip_id@,
                )),
        decreases clips.len() - i,
    {
        if !clips[i].link_id.as_str().is_empty() && contains_text(ids, clips[i].clip_id.as_str()) {
            assert(clips@[i as int].link_id@.len() > 0);
            return true;
        }
        i += 1;
    }
    false
}

/// The ids that still name a clip, in their order.
pub open spec fn surviving(clips: Seq<PlacedClip>, ids: Seq<Seq<char>>) -> Seq<Seq<char>> {
    ids.filter(|id: Seq<char>| clip_ids(clips).contains(id))
}

/// Being the primary clip, and still selected.
pub open spec fn still_primary(primary: Seq<char>, kept: Seq<Seq<char>>) -> spec_fn(
    PlacedClip,
) -> bool {
    |c: PlacedClip| c.clip_id@ == primary && kept.contains(c.clip_id@)
}

/// A selection reconciled with the clips there are: vanished ids leave, and the
/// anchor follows its clip, or moves to the first survivor.
pub open spec fn pruned(
    clips: Seq<PlacedClip>,
    ids: Seq<Seq<char>>,
    primary: Seq<char>,
) -> SelectionView {
    let kept = surviving(clips, ids);
    let own = first_where(clips, still_primary(primary, kept));
    let (track, clip) = anchored(
        match own {
            Some(i) => Some(clips[i]),
            None => first_in_place(chosen(clips, kept)),
        },
    );
    SelectionView { ids: kept, track, clip }
}

/// Reconcile the selection with a freshly published timeline.
pub fn prune_selection(sequence: &Sequence, ids: &Vec<String>, primary_clip_id: &str) -> (r:
    SelectionUpdate)
    requires
        sequence.tracks.len() <= i32::MAX,
    ensures
        r@ == pruned(all_placed(sequence.tracks@), texts(ids@), primary_clip_id@),
{
    let clips = placed_clips(sequence);
    proof {
        lemma_placed_rows(sequence.tracks@);
        assert(rows_fit(clips@));
        reveal(Seq::filter);
    }
    let there = ids_of(&clips);
    let ghost p = |id: Seq<char>| clip_ids(clips@).contains(id);
    let mut kept: Vec<String> = Vec::new();
    let mut i: usize = 0;
    assert(texts(kept@) =~= Seq::<Seq<char>>::empty());
    while i < ids.len()
        invariant
            i <= ids.len(),
            texts(there@) == clip_ids(clips@),
            p == |id: Seq<char>| clip_ids(clips@).contains(id),
            texts(kept@) == texts(ids@).take(i as int).filter(p),
        decreases ids.len() - i,
    {
        proof {
            lemma_filter_take(texts(ids@), i as int, p);
        }
        let ghost was = texts(kept@);
        if contains_text(&there, ids[i].as_str()) {
            kept.push(ids[i].clone());
            assert(texts(kept@) =~= was.push(ids@[i as int]@));
        }
        i += 1;
    }
    assert(texts(ids@).take(i as int) =~= texts(ids@));
    let ghost q = still_primary(primary_clip_id@, texts(kept@));
    let mut k: usize = 0;
    while k < clips.len()
        invariant
            k <= clips.len(),
            q == still_primary(primary_clip_id@, texts(kept@)),
            texts(kept@) == surviving(clips@, texts(ids@)),
            clips@ == all_placed(sequence.tracks@),
            forall|j: int| 0 <= j < k ==> !q(#[trigger] clips@[j]),
        decreases clips.len() - k,
    {
        if str_eq(clips[k].clip_id.as_str(), primary_clip_id) && contains_text(
            &kept,
            clips[k].clip_id.as_str(),
        ) {
            proof {
                lemma_first_found(clips@, q, k as int);
            }
            return SelectionUpdate {
                ids: kept,
                primary_track_id: clips[k].track_id.clone(),
                primary_clip_id: clips[k].clip_id.clone(),
            };
        }
        k += 1;
    }
    proof {
        lemma_first_where(clips@, q);
    }
    let (track, clip) = anchor_on(&clips, &kept);
    SelectionUpdate { ids: kept, primary_track_id: track, primary_clip_id: clip }
}

/// What is left after a prune all names clips, and pruning again changes
/// nothing; a selection whose clips are all there keeps its ids.
pub proof fn law_prune_settles(clips: Seq<PlacedClip>, ids: Seq<Seq<char>>, primary: Seq<char>)
    ensures
        forall|i: int|
            0 <= i < pruned(clips, ids, primary).ids.len() ==> clip_ids(clips).contains(
                #[trigger] pruned(clips, ids, primary).ids[i],
            ),
        surviving(clips, surviving(clips, ids)) == surviving(clips, ids),
        (forall|i: int| 0 <= i < ids.len() ==> clip_ids(clips).contains(#[trigger] ids[i])) ==> pruned(
            clips,
            ids,
            primary,
        ).ids == ids,
{
    let p = |id: Seq<char>| clip_ids(clips).contains(id);
    let kept = surviving(clips, ids);
    assert forall|i: int| 0 <= i < kept.len() implies p(#[trigger] kept[i]) by {
        ids.lemma_filter_pred(p, i);
    }
    lemma_filter_all(kept, p);
    if forall|i: int| 0 <= i < ids.len() ==> clip_ids(clips).contains(#[trigger] ids[i]) {
        assert forall|i: int| 0 <= i < ids.len() implies p(#[trigger] ids[i]) by {}
        lemma_filter_all(ids, p);
    }
}

} // verus!
