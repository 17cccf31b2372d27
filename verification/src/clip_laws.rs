//! What edits of single clips and the sound of the timeline are for: laws over the clips,
//! lanes, media and keyframes of the project.

use vstd::prelude::*;

use crate::audio::{AudioSpan, Keyframe};
use crate::clip_edits::{audio_targets_of, heard, heard_media, heard_on, hits_at, is_generated,
    is_span_of, key_at, on_audio_lane, overlaps, pair_at, pair_hit, resized, retime_steps,
    scalar_hit, voice_clips, ClipParam, KeyframeEdit, ParamKey, ParamValue};
use crate::edit_laws::{clip_at, has_clip, ids_unique, law_clip_is_found, law_link_group,
    law_media_is_found, lemma_filter_unique, lemma_place_in_all, lemma_place_in_lanes};
use crate::find::{first_where, lemma_filter_members, lemma_first_found, lemma_first_where};
use crate::model::TrackKind;
use crate::project::{all_clips, ids_of, link_group_of, Animation, ClipSource, Generator,
    MediaSource, PairKeyframe, Project, ProjectClip};
use crate::text::raw_id;

verus! {

// --- which clips ----------------------------------------------------------

/// An edit of the sound of a clip reaches the clip itself on an audio lane; elsewhere it
/// reaches the clips that carry its link and sit on audio lanes, each once, and no other.
pub proof fn law_sound_edit_reaches_audio(p: Project, t: int, c: int)
    requires
        ids_unique(p),
        has_clip(p, t, c),
    ensures
        ({
            let x = p.lanes@[t].clips@[c];
            let targets = audio_targets_of(p, x.id);
            &&& p.lanes@[t].kind == TrackKind::Audio ==> targets == seq![x.id]
            &&& p.lanes@[t].kind != TrackKind::Audio ==> {
                &&& targets.no_duplicates()
                &&& forall|u: int, d: int|
                    #![trigger clip_at(p, u, d)]
                    has_clip(p, u, d) ==> targets.contains(clip_at(p, u, d).id) == (x.link is Some
                        && clip_at(p, u, d).link == x.link && p.lanes@[u].kind == TrackKind::Audio)
                &&& forall|y: u64| #[trigger]
                    targets.contains(y) ==> exists|u: int, d: int|
                        has_clip(p, u, d) && (#[trigger] clip_at(p, u, d)).id == y
            }
        }),
{
    let x = p.lanes@[t].clips@[c];
    law_clip_is_found(p, t, c);
    law_link_group(p, t, c);
    let f = on_audio_lane(p);
    if p.lanes@[t].kind != TrackKind::Audio {
        let group = link_group_of(p, x.id);
        lemma_filter_members(group, f);
        lemma_filter_unique(group, f);
        let targets = audio_targets_of(p, x.id);
        assert forall|u: int, d: int|
            #![trigger clip_at(p, u, d)]
            has_clip(p, u, d) implies targets.contains(clip_at(p, u, d).id) == (x.link is Some
            && clip_at(p, u, d).link == x.link && p.lanes@[u].kind == TrackKind::Audio) by {
            law_clip_is_found(p, u, d);
            if clip_at(p, u, d).id == x.id {
                assert(clip_at(p, t, c).id == x.id);
                assert(u == t);
            }
        }
    }
}

/// A clip could be ducked under: it is on an audio lane that is a voice, other than the
/// lane at place `own`, and shares a tick with the span.
pub open spec fn is_voice_over(p: Project, u: int, d: int, own: int, start: int, end: int) -> bool {
    let y = p.lanes@[u].clips@[d];
    has_clip(p, u, d) && u != own && p.lanes@[u].kind == TrackKind::Audio && p.lanes@[u].duck_source
        && y.start < end && start < y.start + y.duration
}

proof fn lemma_voice_clips(p: Project, n: int, own: int, start: int, end: int)
    requires
        ids_unique(p),
        0 <= n <= p.lanes@.len(),
    ensures
        forall|u: int, d: int|
            #![trigger clip_at(p, u, d)]
            u < n && is_voice_over(p, u, d, own, start, end) ==> voice_clips(
                p.lanes@,
                n,
                own,
                start,
                end,
            ).contains(clip_at(p, u, d).id),
        forall|y: u64| #[trigger]
            voice_clips(p.lanes@, n, own, start, end).contains(y) ==> exists|u: int, d: int|
                u < n && is_voice_over(p, u, d, own, start, end) && (#[trigger] clip_at(p, u, d)).id
                    == y,
    decreases n,
{
    if n > 0 {
        lemma_voice_clips(p, n - 1, own, start, end);
        let lane = p.lanes@[n - 1];
        let before = voice_clips(p.lanes@, n - 1, own, start, end);
        let now = voice_clips(p.lanes@, n, own, start, end);
        let f = overlaps(start, end);
        let over = lane.clips@.filter(f);
        lemma_filter_members(lane.clips@, f);
        assert forall|u: int, d: int|
            #![trigger clip_at(p, u, d)]
            u < n && is_voice_over(p, u, d, own, start, end) implies now.contains(
            clip_at(p, u, d).id,
        ) by {
            let id = clip_at(p, u, d).id;
            if u < n - 1 {
                let k = choose|k: int| 0 <= k < before.len() && before[k] == id;
                assert(now[k] == id);
            } else {
                assert(lane.clips@.contains(lane.clips@[d]));
                assert(over.contains(lane.clips@[d]));
                let k = choose|k: int| 0 <= k < over.len() && over[k] == lane.clips@[d];
                assert(ids_of(over)[k] == id);
                assert(now[before.len() + k] == id);
            }
        }
        assert forall|y: u64| #[trigger] now.contains(y) implies exists|u: int, d: int|
            u < n && is_voice_over(p, u, d, own, start, end) && (#[trigger] clip_at(p, u, d)).id
                == y by {
            let k = choose|k: int| 0 <= k < now.len() && now[k] == y;
            if k < before.len() {
                assert(before.contains(y));
                let (u, d) = choose|u: int, d: int|
                    u < n - 1 && is_voice_over(p, u, d, own, start, end) && (
                    #[trigger] clip_at(p, u, d)).id == y;
                assert(clip_at(p, u, d).id == y);
            } else {
                let z = over[k - before.len()];
                assert(ids_of(over)[k - before.len()] == y);
                assert(over.contains(z));
                let d = choose|d: int| 0 <= d < lane.clips@.len() && lane.clips@[d] == z;
                assert(clip_at(p, n - 1, d).id == y);
                assert(is_voice_over(p, n - 1, d, own, start, end));
            }
        }
    }
}

/// Ducking looks at exactly the clips on other voice lanes that share a tick with the
/// span of the music.
pub proof fn law_duck_hears_overlapping_voices(p: Project, own: int, start: int, end: int)
    requires
        ids_unique(p),
    ensures
        ({
            let voice = voice_clips(p.lanes@, p.lanes@.len() as int, own, start, end);
            &&& forall|u: int, d: int|
                #![trigger clip_at(p, u, d)]
                has_clip(p, u, d) ==> voice.contains(clip_at(p, u, d).id) == is_voice_over(
                    p,
                    u,
                    d,
                    own,
                    start,
                    end,
                )
            &&& forall|y: u64| #[trigger]
                voice.contains(y) ==> exists|u: int, d: int|
                    has_clip(p, u, d) && (#[trigger] clip_at(p, u, d)).id == y
        }),
{
    lemma_voice_clips(p, p.lanes@.len() as int, own, start, end);
    let voice = voice_clips(p.lanes@, p.lanes@.len() as int, own, start, end);
    assert forall|u: int, d: int|
        #![trigger clip_at(p, u, d)]
        has_clip(p, u, d) implies voice.contains(clip_at(p, u, d).id) == is_voice_over(
        p,
        u,
        d,
        own,
        start,
        end,
    ) by {
        if voice.contains(clip_at(p, u, d).id) {
            let (v, e) = choose|v: int, e: int|
                v < p.lanes@.len() && is_voice_over(p, v, e, own, start, end) && (
                #[trigger] clip_at(p, v, e)).id == clip_at(p, u, d).id;
            assert(v == u && e == d);
        }
    }
}

/// The clips to measure are exactly the generated ones.
pub proof fn law_generated_clips_are_measured(p: Project)
    requires
        ids_unique(p),
    ensures
        forall|t: int, c: int|
            #![trigger clip_at(p, t, c)]
            has_clip(p, t, c) ==> ids_of(all_clips(p.lanes@).filter(is_generated())).contains(
                clip_at(p, t, c).id,
            ) == (clip_at(p, t, c).content is Generated),
{
    let all = all_clips(p.lanes@);
    let f = is_generated();
    let some = all.filter(f);
    lemma_filter_members(all, f);
    assert forall|t: int, c: int|
        #![trigger clip_at(p, t, c)]
        has_clip(p, t, c) implies ids_of(some).contains(clip_at(p, t, c).id) == (clip_at(
        p,
        t,
        c,
    ).content is Generated) by {
        let x = clip_at(p, t, c);
        if x.content is Generated {
            let i = lemma_place_in_all(p.lanes@, t, c);
            assert(all.contains(x));
            assert(some.contains(x));
            let k = choose|k: int| 0 <= k < some.len() && some[k] == x;
            assert(ids_of(some)[k] == x.id);
        }
        if ids_of(some).contains(x.id) {
            let k = choose|k: int| 0 <= k < ids_of(some).len() && ids_of(some)[k] == x.id;
            assert(some.contains(some[k]));
            assert(all.contains(some[k]));
            let i = choose|i: int| 0 <= i < all.len() && all[i] == some[k];
            let at = lemma_place_in_lanes(p.lanes@, i);
            assert(clip_at(p, at.0, at.1).id == x.id);
        }
    }
}

/// A drawn shape takes the new size and keeps its outline and fill; nothing else is
/// resized.
pub proof fn law_resize_keeps_the_look(
    p: Project,
    text: Seq<char>,
    t: int,
    c: int,
    width: u32,
    height: u32,
)
    requires
        ids_unique(p),
        has_clip(p, t, c),
        raw_id(text) == Some(p.lanes@[t].clips@[c].id),
    ensures
        ({
            let x = p.lanes@[t].clips@[c];
            let r = resized(p, text, width, height);
            match x.content {
                ClipSource::Generated(Generator::Shape { shape, rgba, .. }) => r == Some(
                    (x.id, Generator::Shape { shape, rgba, width, height }),
                ),
                _ => r is None,
            }
        }),
{
    law_clip_is_found(p, t, c);
}

// --- keyframes ------------------------------------------------------------

/// The keyframe at place `i` is the first one at the tick.
pub open spec fn first_key_at(keys: Seq<Keyframe>, i: int, tick: i64) -> bool {
    0 <= i < keys.len() && keys[i].tick == tick && forall|j: int|
        0 <= j < i ==> (#[trigger] keys[j]).tick != tick
}

/// The keyframe at place `i` is the first one at the tick.
pub open spec fn first_pair_at(keys: Seq<PairKeyframe>, i: int, tick: i64) -> bool {
    0 <= i < keys.len() && keys[i].tick == tick && forall|j: int|
        0 <= j < i ==> (#[trigger] keys[j]).tick != tick
}

/// `hit` is the keyframe that a property of one number has at the tick.
pub open spec fn is_key_hit(hit: ParamKey, keys: Seq<Keyframe>, tick: i64) -> bool {
    exists|i: int| #[trigger]
        first_key_at(keys, i, tick) && hit.value == ParamValue::Scalar(keys[i].value) && hit.easing
            == keys[i].easing
}

/// `hit` is the keyframe that a property of two numbers has at the tick.
pub open spec fn is_pair_hit(hit: ParamKey, keys: Seq<PairKeyframe>, tick: i64) -> bool {
    exists|i: int| #[trigger]
        first_pair_at(keys, i, tick) && hit.value == ParamValue::Vec2(keys[i].x, keys[i].y)
            && hit.easing == keys[i].easing
}

/// `hit` is the keyframe that its property has at the tick.
pub open spec fn is_hit(hit: ParamKey, a: Animation, tick: i64) -> bool {
    match hit.param {
        ClipParam::Position => is_pair_hit(hit, a.position@, tick),
        ClipParam::AnchorPoint => is_pair_hit(hit, a.anchor@, tick),
        ClipParam::Scale => is_key_hit(hit, a.scale@, tick),
        ClipParam::Rotation => is_key_hit(hit, a.rotation@, tick),
        ClipParam::Opacity => is_key_hit(hit, a.opacity@, tick),
        ClipParam::Volume => false,
    }
}

proof fn lemma_scalar_hit(keys: Seq<Keyframe>, param: ClipParam, tick: i64)
    ensures
        scalar_hit(keys, param, tick).len() <= 1,
        scalar_hit(keys, param, tick).len() == 1 ==> scalar_hit(keys, param, tick)[0].param == param
            && is_key_hit(scalar_hit(keys, param, tick)[0], keys, tick),
        forall|h: ParamKey| #[trigger]
            is_key_hit(h, keys, tick) && h.param == param ==> scalar_hit(keys, param, tick)
                == seq![h],
{
    let f = key_at(tick);
    lemma_first_where(keys, f);
    match first_where(keys, f) {
        Some(i) => {
            assert(f(keys[i]));
            assert forall|j: int| 0 <= j < i implies (#[trigger] keys[j]).tick != tick by {
                assert(!f(keys[j]));
            }
            assert(first_key_at(keys, i, tick));
        },
        None => {},
    }
    assert forall|h: ParamKey| #[trigger]
        is_key_hit(h, keys, tick) && h.param == param implies scalar_hit(keys, param, tick)
        == seq![h] by {
        let i = choose|i: int| #[trigger]
            first_key_at(keys, i, tick) && h.value == ParamValue::Scalar(keys[i].value) && h.easing
                == keys[i].easing;
        assert(f(keys[i]));
        lemma_first_found(keys, f, i);
        assert(scalar_hit(keys, param, tick) =~= seq![h]);
    }
}

proof fn lemma_pair_hit(keys: Seq<PairKeyframe>, param: ClipParam, tick: i64)
    ensures
        pair_hit(keys, param, tick).len() <= 1,
        pair_hit(keys, param, tick).len() == 1 ==> pair_hit(keys, param, tick)[0].param == param
            && is_pair_hit(pair_hit(keys, param, tick)[0], keys, tick),
        forall|h: ParamKey| #[trigger]
            is_pair_hit(h, keys, tick) && h.param == param ==> pair_hit(keys, param, tick)
                == seq![h],
{
    let f = pair_at(tick);
    lemma_first_where(keys, f);
    match first_where(keys, f) {
        Some(i) => {
            assert(f(keys[i]));
            assert forall|j: int| 0 <= j < i implies (#[trigger] keys[j]).tick != tick by {
                assert(!f(keys[j]));
            }
            assert(first_pair_at(keys, i, tick));
        },
        None => {},
    }
    assert forall|h: ParamKey| #[trigger]
        is_pair_hit(h, keys, tick) && h.param == param implies pair_hit(keys, param, tick)
        == seq![h] by {
        let i = choose|i: int| #[trigger]
            first_pair_at(keys, i, tick) && h.value == ParamValue::Vec2(keys[i].x, keys[i].y)
                && h.easing == keys[i].easing;
        assert(f(keys[i]));
        lemma_first_found(keys, f, i);
        assert(pair_hit(keys, param, tick) =~= seq![h]);
    }
}

proof fn lemma_in_joined(parts: Seq<Seq<ParamKey>>, k: int, h: ParamKey)
    requires
        parts.len() == 5,
        0 <= k < 5,
        parts[k] == seq![h],
    ensures
        (parts[0] + parts[1] + parts[2] + parts[3] + parts[4]).contains(h),
{
    let all = parts[0] + parts[1] + parts[2] + parts[3] + parts[4];
    let n0 = parts[0].len() as int;
    let n1 = n0 + parts[1].len();
    let n2 = n1 + parts[2].len();
    let n3 = n2 + parts[3].len();
    let at = if k == 0 {
        0
    } else if k == 1 {
        n0
    } else if k == 2 {
        n1
    } else if k == 3 {
        n2
    } else {
        n3
    };
    assert(all[at] == h);
}

/// The keyframes at a tick are exactly the ones that the transform properties have there,
/// each with its value and easing, no property twice.
pub proof fn law_keyframes_at_tick(a: Animation, tick: i64)
    ensures
        forall|h: ParamKey| #[trigger] hits_at(a, tick).contains(h) == is_hit(h, a, tick),
        forall|i: int, j: int|
            #![trigger hits_at(a, tick)[i], hits_at(a, tick)[j]]
            0 <= i < j < hits_at(a, tick).len() ==> hits_at(a, tick)[i].param != hits_at(
                a,
                tick,
            )[j].param,
{
    lemma_pair_hit(a.position@, ClipParam::Position, tick);
    lemma_pair_hit(a.anchor@, ClipParam::AnchorPoint, tick);
    lemma_scalar_hit(a.scale@, ClipParam::Scale, tick);
    lemma_scalar_hit(a.rotation@, ClipParam::Rotation, tick);
    lemma_scalar_hit(a.opacity@, ClipParam::Opacity, tick);
    let parts = seq![
        pair_hit(a.position@, ClipParam::Position, tick),
        pair_hit(a.anchor@, ClipParam::AnchorPoint, tick),
        scalar_hit(a.scale@, ClipParam::Scale, tick),
        scalar_hit(a.rotation@, ClipParam::Rotation, tick),
        scalar_hit(a.opacity@, ClipParam::Opacity, tick),
    ];
    assert(hits_at(a, tick) == parts[0] + parts[1] + parts[2] + parts[3] + parts[4]);
    assert forall|h: ParamKey| #[trigger] hits_at(a, tick).contains(h) == is_hit(h, a, tick) by {
        if is_hit(h, a, tick) {
            match h.param {
                ClipParam::Position => {
                    lemma_in_joined(parts, 0, h);
                },
                ClipParam::AnchorPoint => {
                    lemma_in_joined(parts, 1, h);
                },
                ClipParam::Scale => {
                    lemma_in_joined(parts, 2, h);
                },
                ClipParam::Rotation => {
                    lemma_in_joined(parts, 3, h);
                },
                ClipParam::Opacity => {
                    lemma_in_joined(parts, 4, h);
                },
                ClipParam::Volume => {},
            }
        }
    }
}

/// Retiming takes every keyframe from the one tick to the other: each is removed there and
/// put here with its own value and easing, one after the other, and nothing else is done.
pub proof fn law_retime_moves_keyframes(hits: Seq<ParamKey>, from: i64, to: i64)
    ensures
        retime_steps(hits, from, to).len() == 2 * hits.len(),
        forall|k: int|
            #![trigger hits[k]]
            0 <= k < hits.len() ==> retime_steps(hits, from, to)[2 * k] == (KeyframeEdit::Remove {
                param: hits[k].param,
                at: from,
            }) && retime_steps(hits, from, to)[2 * k + 1] == (KeyframeEdit::Put {
                param: hits[k].param,
                at: to,
                value: hits[k].value,
                easing: hits[k].easing,
            }),
    decreases hits.len(),
{
    if hits.len() > 0 {
        let init = hits.drop_last();
        law_retime_moves_keyframes(init, from, to);
        assert forall|k: int|
            #![trigger hits[k]]
            0 <= k < hits.len() implies retime_steps(hits, from, to)[2 * k] == (
        KeyframeEdit::Remove { param: hits[k].param, at: from }) && retime_steps(
            hits,
            from,
            to,
        )[2 * k + 1] == (KeyframeEdit::Put {
            param: hits[k].param,
            at: to,
            value: hits[k].value,
            easing: hits[k].easing,
        }) by {
            if k < init.len() {
                assert(init[k] == hits[k]);
            }
        }
    }
}

// --- what the timeline sounds like ----------------------------------------

/// The clip at a place plays the media at place `m`, and is heard: it is on an unmuted
/// audio lane, it is not silent, and the media has sound.
pub open spec fn is_heard(p: Project, t: int, c: int, m: int) -> bool {
    has_clip(p, t, c) && p.lanes@[t].kind == TrackKind::Audio && !p.lanes@[t].muted
        && !p.lanes@[t].clips@[c].sound.silent && 0 <= m < p.media@.len() && p.media@[m].has_audio
        && (p.lanes@[t].clips@[c].content matches ClipSource::Media { media, .. } && media
        == p.media@[m].id)
}

/// The entry is the clip at a place with the media at place `m`, which is heard.
pub open spec fn is_heard_entry(
    x: (ProjectClip, MediaSource),
    p: Project,
    t: int,
    c: int,
    m: int,
) -> bool {
    is_heard(p, t, c, m) && x.0 == p.lanes@[t].clips@[c] && x.1 == p.media@[m]
}

proof fn lemma_heard_media(p: Project, t: int, c: int)
    requires
        ids_unique(p),
        has_clip(p, t, c),
    ensures
        match heard_media(p, p.lanes@[t], p.lanes@[t].clips@[c]) {
            Some(x) => exists|m: int| #[trigger] is_heard(p, t, c, m) && x == p.media@[m],
            None => forall|m: int| !#[trigger] is_heard(p, t, c, m),
        },
        forall|m: int| #[trigger]
            is_heard(p, t, c, m) ==> heard_media(p, p.lanes@[t], p.lanes@[t].clips@[c]) == Some(
                p.media@[m],
            ),
{
    let x = p.lanes@[t].clips@[c];
    match x.content {
        ClipSource::Media { media, .. } => {
            law_media_is_found(p, media);
            if exists|m: int| 0 <= m < p.media@.len() && (#[trigger] p.media@[m]).id == media {
                let m = choose|m: int|
                    0 <= m < p.media@.len() && (#[trigger] p.media@[m]).id == media;
                assert(p.media_with(media) == Some(p.media@[m]));
                if heard_media(p, p.lanes@[t], x) is Some {
                    assert(is_heard(p, t, c, m));
                }
            } else {
                assert(p.media_with(media) is None);
            }
        },
        ClipSource::Generated(_) => {},
    }
}

/// One of the entries is the clip at a place with its media.
pub open spec fn entry_among(
    list: Seq<(ProjectClip, MediaSource)>,
    p: Project,
    t: int,
    c: int,
    m: int,
) -> bool {
    exists|k: int| 0 <= k < list.len() && is_heard_entry(#[trigger] list[k], p, t, c, m)
}

/// The entry is a clip that is heard, of a lane before `n`.
pub open spec fn entry_of(x: (ProjectClip, MediaSource), p: Project, n: int) -> bool {
    exists|t: int, c: int, m: int| t < n && #[trigger] is_heard_entry(x, p, t, c, m)
}

proof fn lemma_heard_on(p: Project, t: int, n: int)
    requires
        ids_unique(p),
        0 <= t < p.lanes@.len(),
        0 <= n <= p.lanes@[t].clips@.len(),
    ensures
        forall|c: int, m: int| #[trigger]
            is_heard(p, t, c, m) && c < n ==> entry_among(heard_on(p, p.lanes@[t], n), p, t, c, m),
        forall|k: int|
            0 <= k < heard_on(p, p.lanes@[t], n).len() ==> entry_of(
                #[trigger] heard_on(p, p.lanes@[t], n)[k],
                p,
                t + 1,
            ),
    decreases n,
{
    if n > 0 {
        lemma_heard_on(p, t, n - 1);
        lemma_heard_media(p, t, n - 1);
        let lane = p.lanes@[t];
        let before = heard_on(p, lane, n - 1);
        let now = heard_on(p, lane, n);
        assert forall|c: int, m: int| #[trigger] is_heard(p, t, c, m) && c < n implies entry_among(
            now,
            p,
            t,
            c,
            m,
        ) by {
            if c < n - 1 {
                let k = choose|k: int|
                    0 <= k < before.len() && is_heard_entry(#[trigger] before[k], p, t, c, m);
                assert(now[k] == before[k]);
            } else {
                assert(is_heard_entry(now[before.len() as int], p, t, c, m));
            }
        }
        assert forall|k: int| 0 <= k < now.len() implies entry_of(#[trigger] now[k], p, t + 1) by {
            if k < before.len() {
                assert(now[k] == before[k]);
            } else {
                let m = choose|m: int| #[trigger]
                    is_heard(p, t, n - 1, m) && heard_media(p, lane, lane.clips@[n - 1]) == Some(
                        p.media@[m],
                    );
                assert(is_heard_entry(now[k], p, t, n - 1, m));
            }
        }
    }
}

proof fn lemma_heard(p: Project, n: int)
    requires
        ids_unique(p),
        0 <= n <= p.lanes@.len(),
    ensures
        forall|t: int, c: int, m: int| #[trigger]
            is_heard(p, t, c, m) && t < n ==> entry_among(heard(p, n), p, t, c, m),
        forall|k: int| 0 <= k < heard(p, n).len() ==> entry_of(#[trigger] heard(p, n)[k], p, n),
    decreases n,
{
    if n > 0 {
        lemma_heard(p, n - 1);
        let lane = p.lanes@[n - 1];
        lemma_heard_on(p, n - 1, lane.clips@.len() as int);
        let before = heard(p, n - 1);
        let here = heard_on(p, lane, lane.clips@.len() as int);
        let now = heard(p, n);
        assert forall|t: int, c: int, m: int| #[trigger]
            is_heard(p, t, c, m) && t < n implies entry_among(now, p, t, c, m) by {
            if t < n - 1 {
                let k = choose|k: int|
                    0 <= k < before.len() && is_heard_entry(#[trigger] before[k], p, t, c, m);
                assert(now[k] == before[k]);
            } else {
                let k = choose|k: int|
                    0 <= k < here.len() && is_heard_entry(#[trigger] here[k], p, t, c, m);
                assert(now[before.len() + k] == here[k]);
            }
        }
        assert forall|k: int| 0 <= k < now.len() implies entry_of(#[trigger] now[k], p, n) by {
            if k < before.len() {
                assert(now[k] == before[k]);
                let (t, c, m) = choose|t: int, c: int, m: int|
                    t < n - 1 && #[trigger] is_heard_entry(before[k], p, t, c, m);
                assert(is_heard_entry(now[k], p, t, c, m));
            } else {
                assert(now[k] == here[k - before.len()]);
            }
        }
    }
}

/// The timeline sounds like exactly the clips on unmuted audio lanes that are not silent
/// and whose media has sound, each with its own media.
pub proof fn law_heard_clips_sound(p: Project)
    requires
        ids_unique(p),
    ensures
        forall|t: int, c: int, m: int| #[trigger]
            is_heard(p, t, c, m) ==> entry_among(heard(p, p.lanes@.len() as int), p, t, c, m),
        forall|k: int|
            0 <= k < heard(p, p.lanes@.len() as int).len() ==> entry_of(
                #[trigger] heard(p, p.lanes@.len() as int)[k],
                p,
                p.lanes@.len() as int,
            ),
{
    lemma_heard(p, p.lanes@.len() as int);
}

/// A span plays the source of its clip where the clip is: from the clip's start up to its
/// end, out of the clip's media, with the clip's fades and retiming.
pub proof fn law_span_plays_its_clip(
    span: AudioSpan,
    p: Project,
    t: int,
    c: int,
    m: int,
)
    requires
        is_heard(p, t, c, m),
        is_span_of(span, p.lanes@[t].clips@[c], p.media@[m]),
    ensures
        ({
            let x = p.lanes@[t].clips@[c];
            let source = x.content->source;
            &&& span.path@ == p.media@[m].path@
            &&& span.start_tick == x.start
            &&& span.end_tick - span.start_tick == x.duration
            &&& span.source_start == source.start
            &&& span.source_duration == source.duration
            &&& span.source_rate.0 == source.rate.num
            &&& span.source_rate.1 == source.rate.den
            &&& span.retimed == x.sound.retimed
            &&& span.reversed == x.sound.reversed
            &&& span.pitch_bits == x.sound.pitch_bits
            &&& (span.speed_curve is Some) == (x.sound.speed_curve is Some)
            &&& span.fade_in_ticks == x.sound.fade_in
            &&& span.fade_out_ticks == x.sound.fade_out
        }),
{
}

} // verus!
