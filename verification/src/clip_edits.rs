//! Edits of single clips: which clips of a link group they reach, keyframes,
//! ducking, and what the timeline sounds like.

use vstd::prelude::*;

use crate::audio::{same_param, AudioSnapshot, AudioSpan, Easing, Keyframe, Param};
use crate::edits::Ignored;
use crate::find::{
    first_where, lemma_filter_push, lemma_filter_take, lemma_first_found, lemma_first_where,
};
use crate::inspector::TextStyle;
use crate::model::{Color, TrackKind};
use crate::project::{all_clips, ids_of, lane_wf, lanes_wf, link_group_ids, link_group_of,
    Animation, ClipSource, Generator, Lane, MediaSource, PairKeyframe, Project, ProjectClip, Shape};
use crate::text::{parse_raw_id, raw_id, str_eq};

verus! {

// --- which clips ----------------------------------------------------------

/// The clips that a linked edit reaches: the whole link group with linkage on,
/// else the clip alone.
pub fn linked_targets(project: &Project, clip: &str, linkage: bool) -> (r: Result<
    Vec<u64>,
    Ignored,
>)
    ensures
        match raw_id(clip@) {
            None => r == Err::<Vec<u64>, Ignored>(Ignored::BadClipId),
            Some(id) => r matches Ok(targets) && targets@ == (if linkage {
                link_group_of(*project, id)
            } else {
                seq![id]
            }),
        },
{
    match parse_raw_id(clip) {
        None => Err(Ignored::BadClipId),
        Some(id) => {
            if linkage {
                Ok(link_group_ids(project, id))
            } else {
                let mut one: Vec<u64> = Vec::new();
                one.push(id);
                assert(one@ =~= seq![id]);
                Ok(one)
            }
        },
    }
}

/// Sitting on an audio lane.
pub open spec fn on_audio_lane(p: Project) -> spec_fn(u64) -> bool {
    |id: u64| p.lane_of_clip(id) matches Some(t) && p.lanes@[t].kind == TrackKind::Audio
}

/// The clips that an audio edit of `id` reaches: the clip on an audio lane, else
/// its link partners on audio lanes, where the sound is.
pub open spec fn audio_targets_of(p: Project, id: u64) -> Seq<u64> {
    if on_audio_lane(p)(id) {
        seq![id]
    } else {
        link_group_of(p, id).filter(on_audio_lane(p))
    }
}

fn sits_on_audio(project: &Project, id: u64) -> (r: bool)
    ensures
        r == on_audio_lane(*project)(id),
{
    match project.find_clip(id) {
        Some((t, _)) => project.lanes[t].kind == TrackKind::Audio,
        None => false,
    }
}

/// The clips that a volume or fade edit reaches. The video half of a linked pair
/// routes to its audio partners, whatever the linkage switch says.
pub fn audio_targets(project: &Project, clip: &str) -> (r: Result<Vec<u64>, Ignored>)
    ensures
        match raw_id(clip@) {
            None => r == Err::<Vec<u64>, Ignored>(Ignored::BadClipId),
            Some(id) => if audio_targets_of(*project, id).len() == 0 {
                r == Err::<Vec<u64>, Ignored>(Ignored::NothingToDo)
            } else {
                r matches Ok(targets) && targets@ == audio_targets_of(*project, id)
            },
        },
{
    let id: u64 = match parse_raw_id(clip) {
        Some(id) => id,
        None => {
            return Err(Ignored::BadClipId);
        },
    };
    let mut targets: Vec<u64> = Vec::new();
    if sits_on_audio(project, id) {
        targets.push(id);
        assert(targets@ =~= seq![id]);
        return Ok(targets);
    }
    let group = link_group_ids(project, id);
    let ghost p = on_audio_lane(*project);
    let mut i: usize = 0;
    proof {
        reveal(Seq::filter);
    }
    while i < group.len()
        invariant
            i <= group.len(),
            p == on_audio_lane(*project),
            targets@ == group@.take(i as int).filter(p),
        decreases group.len() - i,
    {
        proof {
            lemma_filter_take(group@, i as int, p);
        }
        if sits_on_audio(project, group[i]) {
            targets.push(group[i]);
        }
        i += 1;
    }
    assert(group@.take(i as int) =~= group@);
    if targets.len() == 0 {
        return Err(Ignored::NothingToDo);
    }
    Ok(targets)
}

/// A voice lane other than lane number `own`.
pub open spec fn voice_lane(l: Lane, t: int, own: int) -> bool {
    l.kind == TrackKind::Audio && l.duck_source && t != own
}

/// Overlapping the span `start..end`.
pub open spec fn overlaps(start: int, end: int) -> spec_fn(ProjectClip) -> bool {
    |c: ProjectClip| c.start < end && start < c.end()
}

/// The clips on voice lanes among the first `n` lanes that overlap the span.
pub open spec fn voice_clips(lanes: Seq<Lane>, n: int, own: int, start: int, end: int) -> Seq<u64>
    decreases n,
{
    if n <= 0 {
        Seq::empty()
    } else {
        let before = voice_clips(lanes, n - 1, own, start, end);
        if voice_lane(lanes[n - 1], n - 1, own) {
            before + ids_of(lanes[n - 1].clips@.filter(overlaps(start, end)))
        } else {
            before
        }
    }
}

/// The voice clips that a music clip ducks under: those on other voice lanes that
/// overlap it.
pub fn duck_under_voice(project: &Project, clip: &str) -> (r: Result<(u64, Vec<u64>), Ignored>)
    requires
        lanes_wf(project.lanes@),
    ensures
        match raw_id(clip@) {
            None => r == Err::<(u64, Vec<u64>), Ignored>(Ignored::BadClipId),
            Some(id) => match project.clip_with(id) {
                None => r == Err::<(u64, Vec<u64>), Ignored>(Ignored::ClipNotOnTimeline),
                Some(c) => {
                    let voice = voice_clips(
                        project.lanes@,
                        project.lanes@.len() as int,
                        project.lane_of_clip(id)->0,
                        c.start as int,
                        c.end(),
                    );
                    if voice.len() == 0 {
                        r == Err::<(u64, Vec<u64>), Ignored>(Ignored::NothingToDo)
                    } else {
                        r matches Ok((music, v)) && music == id && v@ == voice
                    }
                },
            },
        },
{
    let id: u64 = match parse_raw_id(clip) {
        Some(id) => id,
        None => {
            return Err(Ignored::BadClipId);
        },
    };
    let (own, c) = match project.find_clip(id) {
        Some(found) => found,
        None => {
            return Err(Ignored::ClipNotOnTimeline);
        },
    };
    let music = &project.lanes[own].clips[c];
    proof {
        assert(lane_wf(project.lanes@[own as int].clips@));
        assert(project.lanes@[own as int].clips@[c as int].end() <= i64::MAX);
    }
    let start: i64 = music.start;
    let end: i64 = music.start + music.duration;
    let ghost q = overlaps(start as int, end as int);
    let mut voice: Vec<u64> = Vec::new();
    let mut t: usize = 0;
    while t < project.lanes.len()
        invariant
            t <= project.lanes.len(),
            lanes_wf(project.lanes@),
            q == overlaps(start as int, end as int),
            voice@ == voice_clips(project.lanes@, t as int, own as int, start as int, end as int),
        decreases project.lanes.len() - t,
    {
        let lane = &project.lanes[t];
        assert(lane_wf(project.lanes@[t as int].clips@));
        if lane.kind == TrackKind::Audio && lane.duck_source && t != own {
            let ghost before = voice@;
            let mut k: usize = 0;
            proof {
                reveal(Seq::filter);
                assert(voice@ =~= before + ids_of(lane.clips@.take(0).filter(q)));
            }
            while k < lane.clips.len()
                invariant
                    k <= lane.clips.len(),
                    lane_wf(lane.clips@),
                    q == overlaps(start as int, end as int),
                    voice@ == before + ids_of(lane.clips@.take(k as int).filter(q)),
                decreases lane.clips.len() - k,
            {
                let x = &lane.clips[k];
                let ghost had = lane.clips@.take(k as int).filter(q);
                proof {
                    lemma_filter_take(lane.clips@, k as int, q);
                    assert(lane.clips@[k as int].end() <= i64::MAX);
                }
                if x.start < end && start < x.start + x.duration {
                    voice.push(x.id);
                    assert(ids_of(had.push(*x)) =~= ids_of(had).push(x.id));
                    assert(voice@ =~= before + ids_of(lane.clips@.take(k as int + 1).filter(q)));
                }
                k += 1;
            }
            assert(lane.clips@.take(k as int) =~= lane.clips@);
        }
        t += 1;
    }
    if voice.len() == 0 {
        return Err(Ignored::NothingToDo);
    }
    Ok((id, voice))
}

// --- keyframes ------------------------------------------------------------

/// An animated property.
#[derive(Clone, Copy, Debug, PartialEq, Eq, Structural)]
pub enum ClipParam {
    Position,
    AnchorPoint,
    Scale,
    Rotation,
    Opacity,
    Volume,
}

/// A property value; the numbers are IEEE single bit patterns.
#[derive(Clone, Copy, Debug, PartialEq, Eq, Structural)]
pub enum ParamValue {
    Scalar(u32),
    Vec2(u32, u32),
}

/// The property and the shape of its value that a key names: position and anchor
/// take both numbers, the others the first.
pub open spec fn param_of(key: Seq<char>, x: u32, y: u32) -> Option<(ClipParam, ParamValue)> {
    if key == "position"@ {
        Some((ClipParam::Position, ParamValue::Vec2(x, y)))
    } else if key == "anchor"@ {
        Some((ClipParam::AnchorPoint, ParamValue::Vec2(x, y)))
    } else if key == "scale"@ {
        Some((ClipParam::Scale, ParamValue::Scalar(x)))
    } else if key == "rotation"@ {
        Some((ClipParam::Rotation, ParamValue::Scalar(x)))
    } else if key == "opacity"@ {
        Some((ClipParam::Opacity, ParamValue::Scalar(x)))
    } else if key == "volume"@ {
        Some((ClipParam::Volume, ParamValue::Scalar(x)))
    } else {
        None
    }
}

/// The property and the value that an inspector key stands for; `None` for an
/// unknown key.
pub fn clip_param_value(key: &str, x: u32, y: u32) -> (r: Option<(ClipParam, ParamValue)>)
    ensures
        r == param_of(key@, x, y),
{
    if str_eq(key, "position") {
        Some((ClipParam::Position, ParamValue::Vec2(x, y)))
    } else if str_eq(key, "anchor") {
        Some((ClipParam::AnchorPoint, ParamValue::Vec2(x, y)))
    } else if str_eq(key, "scale") {
        Some((ClipParam::Scale, ParamValue::Scalar(x)))
    } else if str_eq(key, "rotation") {
        Some((ClipParam::Rotation, ParamValue::Scalar(x)))
    } else if str_eq(key, "opacity") {
        Some((ClipParam::Opacity, ParamValue::Scalar(x)))
    } else if str_eq(key, "volume") {
        Some((ClipParam::Volume, ParamValue::Scalar(x)))
    } else {
        None
    }
}

/// A keyframe of some property.
#[derive(Clone, Copy, Debug, PartialEq, Eq, Structural)]
pub struct ParamKey {
    pub param: ClipParam,
    pub value: ParamValue,
    pub easing: Easing,
}

/// Standing at this tick.
pub open spec fn key_at(tick: i64) -> spec_fn(Keyframe) -> bool {
    |k: Keyframe| k.tick == tick
}

/// Standing at this tick.
pub open spec fn pair_at(tick: i64) -> spec_fn(PairKeyframe) -> bool {
    |k: PairKeyframe| k.tick == tick
}

/// The keyframe of a scalar property at `tick`, if there is one.
pub open spec fn scalar_hit(keys: Seq<Keyframe>, param: ClipParam, tick: i64) -> Seq<ParamKey> {
    match first_where(keys, key_at(tick)) {
        Some(i) => seq![
            ParamKey { param, value: ParamValue::Scalar(keys[i].value), easing: keys[i].easing },
        ],
        None => Seq::empty(),
    }
}

/// The keyframe of a property of two numbers at `tick`, if there is one.
pub open spec fn pair_hit(keys: Seq<PairKeyframe>, param: ClipParam, tick: i64) -> Seq<ParamKey> {
    match first_where(keys, pair_at(tick)) {
        Some(i) => seq![
            ParamKey {
                param,
                value: ParamValue::Vec2(keys[i].x, keys[i].y),
                easing: keys[i].easing,
            },
        ],
        None => Seq::empty(),
    }
}

/// Every property's keyframe at `tick`: position, anchor, scale, rotation, opacity.
pub open spec fn hits_at(a: Animation, tick: i64) -> Seq<ParamKey> {
    pair_hit(a.position@, ClipParam::Position, tick) + pair_hit(
        a.anchor@,
        ClipParam::AnchorPoint,
        tick,
    ) + scalar_hit(a.scale@, ClipParam::Scale, tick) + scalar_hit(
        a.rotation@,
        ClipParam::Rotation,
        tick,
    ) + scalar_hit(a.opacity@, ClipParam::Opacity, tick)
}

fn push_pair_hit(out: &mut Vec<ParamKey>, keys: &Vec<PairKeyframe>, param: ClipParam, tick: i64)
    ensures
        final(out)@ == old(out)@ + pair_hit(keys@, param, tick),
{
    let ghost was = out@;
    let ghost p = pair_at(tick);
    let mut i: usize = 0;
    while i < keys.len()
        invariant
            i <= keys.len(),
            p == pair_at(tick),
            was == old(out)@,
            out@ == was,
            forall|j: int| 0 <= j < i ==> !p(#[trigger] keys@[j]),
        decreases keys.len() - i,
    {
        if keys[i].tick == tick {
            proof {
                lemma_first_found(keys@, p, i as int);
            }
            out.push(
                ParamKey {
                    param,
                    value: ParamValue::Vec2(keys[i].x, keys[i].y),
                    easing: keys[i].easing,
                },
            );
            assert(out@ =~= was + pair_hit(keys@, param, tick));
            return;
        }
        i += 1;
    }
    proof {
        lemma_first_where(keys@, p);
    }
    assert(out@ =~= was + pair_hit(keys@, param, tick));
}

fn push_scalar_hit(out: &mut Vec<ParamKey>, keys: &Vec<Keyframe>, param: ClipParam, tick: i64)
    ensures
        final(out)@ == old(out)@ + scalar_hit(keys@, param, tick),
{
    let ghost was = out@;
    let ghost p = key_at(tick);
    let mut i: usize = 0;
    while i < keys.len()
        invariant
            i <= keys.len(),
            p == key_at(tick),
            was == old(out)@,
            out@ == was,
            forall|j: int| 0 <= j < i ==> !p(#[trigger] keys@[j]),
        decreases keys.len() - i,
    {
        if keys[i].tick == tick {
            proof {
                lemma_first_found(keys@, p, i as int);
            }
            out.push(
                ParamKey {
                    param,
                    value: ParamValue::Scalar(keys[i].value),
                    easing: keys[i].easing,
                },
            );
            assert(out@ =~= was + scalar_hit(keys@, param, tick));
            return;
        }
        i += 1;
    }
    proof {
        lemma_first_where(keys@, p);
    }
    assert(out@ =~= was + scalar_hit(keys@, param, tick));
}

/// Every animated property with a keyframe exactly at the clip-relative tick, with
/// its value and easing.
pub fn keyframes_at(animation: &Animation, rel_tick: i64) -> (r: Vec<ParamKey>)
    ensures
        r@ == hits_at(*animation, rel_tick),
{
    let mut out: Vec<ParamKey> = Vec::new();
    push_pair_hit(&mut out, &animation.position, ClipParam::Position, rel_tick);
    assert(out@ =~= pair_hit(animation.position@, ClipParam::Position, rel_tick));
    push_pair_hit(&mut out, &animation.anchor, ClipParam::AnchorPoint, rel_tick);
    push_scalar_hit(&mut out, &animation.scale, ClipParam::Scale, rel_tick);
    push_scalar_hit(&mut out, &animation.rotation, ClipParam::Rotation, rel_tick);
    push_scalar_hit(&mut out, &animation.opacity, ClipParam::Opacity, rel_tick);
    out
}

/// An edit of one keyframe, at an absolute tick.
#[derive(Clone, Copy, Debug, PartialEq, Eq, Structural)]
pub enum KeyframeEdit {
    Remove { param: ClipParam, at: i64 },
    Put { param: ClipParam, at: i64, value: ParamValue, easing: Easing },
}

/// Moving keyframes: each is removed and set again with its value and easing.
pub open spec fn retime_steps(hits: Seq<ParamKey>, from: i64, to: i64) -> Seq<KeyframeEdit>
    decreases hits.len(),
{
    if hits.len() == 0 {
        Seq::empty()
    } else {
        let k = hits.last();
        retime_steps(hits.drop_last(), from, to).push(
            KeyframeEdit::Remove { param: k.param, at: from },
        ).push(
            KeyframeEdit::Put { param: k.param, at: to, value: k.value, easing: k.easing },
        )
    }
}

/// The tick relative to the clip fits `i64`.
pub open spec fn relative_fits(p: Project, clip: Seq<char>, tick: int) -> bool {
    raw_id(clip) matches Some(id) ==> (p.clip_with(id) matches Some(c) ==> i64::MIN <= tick
        - c.start <= i64::MAX)
}

/// Plan moving every keyframe at `from_tick` to `to_tick`, as one history group.
/// No failure changes the view.
pub fn retime_keyframes(project: &Project, clip: &str, from_tick: i64, to_tick: i64) -> (r: Result<
    (u64, Vec<KeyframeEdit>),
    Ignored,
>)
    requires
        relative_fits(*project, clip@, from_tick as int),
    ensures
        match raw_id(clip@) {
            None => r == Err::<(u64, Vec<KeyframeEdit>), Ignored>(Ignored::BadClipId),
            Some(id) => if from_tick == to_tick {
                r == Err::<(u64, Vec<KeyframeEdit>), Ignored>(Ignored::NothingToDo)
            } else {
                match project.clip_with(id) {
                    None => r == Err::<(u64, Vec<KeyframeEdit>), Ignored>(
                        Ignored::ClipNotOnTimeline,
                    ),
                    Some(c) => {
                        let hits = hits_at(c.animation, (from_tick - c.start) as i64);
                        if hits.len() == 0 {
                            r == Err::<(u64, Vec<KeyframeEdit>), Ignored>(Ignored::NothingToDo)
                        } else {
                            r matches Ok((target, steps)) && target == id && steps@
                                == retime_steps(hits, from_tick, to_tick)
                        }
                    },
                }
            },
        },
{
    let id: u64 = match parse_raw_id(clip) {
        Some(id) => id,
        None => {
            return Err(Ignored::BadClipId);
        },
    };
    if from_tick == to_tick {
        return Err(Ignored::NothingToDo);
    }
    let (t, c) = match project.find_clip(id) {
        Some(found) => found,
        None => {
            return Err(Ignored::ClipNotOnTimeline);
        },
    };
    let model = &project.lanes[t].clips[c];
    assert(project.clip_with(id) == Some(*model));
    let hits = keyframes_at(&model.animation, from_tick - model.start);
    if hits.len() == 0 {
        return Err(Ignored::NothingToDo);
    }
    let mut steps: Vec<KeyframeEdit> = Vec::new();
    let mut i: usize = 0;
    while i < hits.len()
        invariant
            i <= hits.len(),
            steps@ == retime_steps(hits@.take(i as int), from_tick, to_tick),
        decreases hits.len() - i,
    {
        proof {
            assert(hits@.take(i as int + 1).drop_last() =~= hits@.take(i as int));
        }
        let k = hits[i];
        steps.push(KeyframeEdit::Remove { param: k.param, at: from_tick });
        steps.push(
            KeyframeEdit::Put { param: k.param, at: to_tick, value: k.value, easing: k.easing },
        );
        i += 1;
    }
    assert(hits@.take(i as int) =~= hits@);
    Ok((id, steps))
}

/// Plan removing every property's keyframe at `tick`, as one history group. No
/// failure changes the view.
pub fn remove_keyframes_at(project: &Project, clip: &str, tick: i64) -> (r: Result<
    (u64, Vec<KeyframeEdit>),
    Ignored,
>)
    requires
        relative_fits(*project, clip@, tick as int),
    ensures
        match raw_id(clip@) {
            None => r == Err::<(u64, Vec<KeyframeEdit>), Ignored>(Ignored::BadClipId),
            Some(id) => match project.clip_with(id) {
                None => r == Err::<(u64, Vec<KeyframeEdit>), Ignored>(Ignored::ClipNotOnTimeline),
                Some(c) => {
                    let hits = hits_at(c.animation, (tick - c.start) as i64);
                    if hits.len() == 0 {
                        r == Err::<(u64, Vec<KeyframeEdit>), Ignored>(Ignored::NothingToDo)
                    } else {
                        r matches Ok((target, steps)) && target == id && steps@ == hits.map_values(
                            |k: ParamKey| KeyframeEdit::Remove { param: k.param, at: tick },
                        )
                    }
                },
            },
        },
{
    let id: u64 = match parse_raw_id(clip) {
        Some(id) => id,
        None => {
            return Err(Ignored::BadClipId);
        },
    };
    let (t, c) = match project.find_clip(id) {
        Some(found) => found,
        None => {
            return Err(Ignored::ClipNotOnTimeline);
        },
    };
    let model = &project.lanes[t].clips[c];
    assert(project.clip_with(id) == Some(*model));
    let hits = keyframes_at(&model.animation, tick - model.start);
    if hits.len() == 0 {
        return Err(Ignored::NothingToDo);
    }
    let ghost goal = hits@.map_values(
        |k: ParamKey| KeyframeEdit::Remove { param: k.param, at: tick },
    );
    let mut steps: Vec<KeyframeEdit> = Vec::new();
    let mut i: usize = 0;
    while i < hits.len()
        invariant
            i <= hits.len(),
            goal == hits@.map_values(
                |k: ParamKey| KeyframeEdit::Remove { param: k.param, at: tick },
            ),
            steps@ == goal.take(i as int),
        decreases hits.len() - i,
    {
        steps.push(KeyframeEdit::Remove { param: hits[i].param, at: tick });
        assert(steps@ =~= goal.take(i as int + 1));
        i += 1;
    }
    assert(goal.take(i as int) =~= goal);
    Ok((id, steps))
}

/// A speed ramp with the value of one point replaced; its tick and easing stay.
/// `None` when there is no such point.
pub fn replace_curve_point(curve: &Vec<Keyframe>, index: usize, value: u32) -> (r: Option<
    Vec<Keyframe>,
>)
    ensures
        match r {
            None => index >= curve.len(),
            Some(out) => index < curve.len() && out@ == curve@.update(
                index as int,
                Keyframe { value, ..curve@[index as int] },
            ),
        },
{
    if index >= curve.len() {
        return None;
    }
    let mut out: Vec<Keyframe> = Vec::new();
    let ghost goal = curve@.update(index as int, Keyframe { value, ..curve@[index as int] });
    let mut i: usize = 0;
    while i < curve.len()
        invariant
            i <= curve.len(),
            index < curve.len(),
            goal == curve@.update(index as int, Keyframe { value, ..curve@[index as int] }),
            out@ == goal.take(i as int),
        decreases curve.len() - i,
    {
        let k = curve[i];
        if i == index {
            out.push(Keyframe { tick: k.tick, value, easing: k.easing });
        } else {
            out.push(k);
        }
        assert(out@ =~= goal.take(i as int + 1));
        i += 1;
    }
    assert(goal.take(i as int) =~= goal);
    Some(out)
}

/// Whether some transform property of the clip moves over time.
pub open spec fn is_animated(a: Animation) -> bool {
    a.position.len() > 0 || a.anchor.len() > 0 || a.scale.len() > 0 || a.rotation.len() > 0
        || a.opacity.len() > 0
}

/// Whether setting the transform of the clip that `clip` names adds keyframes at
/// the playhead: it does where the clip is animated. `None` when `clip` is no id.
pub fn writes_keyframe(project: &Project, clip: &str) -> (r: Option<(u64, bool)>)
    ensures
        r == match raw_id(clip@) {
            None => None,
            Some(id) => Some(
                (
                    id,
                    match project.clip_with(id) {
                        Some(c) => is_animated(c.animation),
                        None => false,
                    },
                ),
            ),
        },
{
    match parse_raw_id(clip) {
        None => None,
        Some(id) => match project.find_clip(id) {
            None => Some((id, false)),
            Some((t, c)) => {
                let a = &project.lanes[t].clips[c].animation;
                Some(
                    (
                        id,
                        a.position.len() > 0 || a.anchor.len() > 0 || a.scale.len() > 0
                            || a.rotation.len() > 0 || a.opacity.len() > 0,
                    ),
                )
            },
        },
    }
}

/// Named `name`.
pub open spec fn is_named(name: Seq<char>) -> spec_fn(String) -> bool {
    |s: String| s@ == name
}

/// The slot of the effect parameter called `name`, among an effect's parameters.
pub fn param_slot(params: &Vec<String>, name: &str) -> (r: Option<usize>)
    ensures
        match r {
            Some(i) => first_where(params@, is_named(name@)) == Some(i as int),
            None => first_where(params@, is_named(name@)) is None,
        },
{
    let ghost p = is_named(name@);
    let mut i: usize = 0;
    while i < params.len()
        invariant
            i <= params.len(),
            p == is_named(name@),
            forall|j: int| 0 <= j < i ==> !p(#[trigger] params@[j]),
        decreases params.len() - i,
    {
        if str_eq(params[i].as_str(), name) {
            proof {
                lemma_first_found(params@, p, i as int);
            }
            return Some(i);
        }
        i += 1;
    }
    proof {
        lemma_first_where(params@, p);
    }
    None
}

// --- generated content ----------------------------------------------------

/// How freshly dropped content looks: the style of a title, and the size of a shape
/// as IEEE single bit patterns.
#[derive(Debug)]
pub struct FreshLook {
    pub style: TextStyle,
    pub width: u32,
    pub height: u32,
}

/// The content that a library tile key stands for.
pub open spec fn generator_of(key: Seq<char>, look: FreshLook) -> Option<GeneratorView> {
    if key == "text"@ {
        Some(GeneratorView::Text("Title"@, look.style))
    } else if key == "solid"@ {
        Some(GeneratorView::SolidColor(Color { red: 30, green: 30, blue: 30, alpha: 255 }))
    } else if key == "rect"@ {
        Some(GeneratorView::Shape(Shape::Rectangle, white(), look.width, look.height))
    } else if key == "ellipse"@ {
        Some(GeneratorView::Shape(Shape::Ellipse, white(), look.width, look.height))
    } else {
        None
    }
}

/// Opaque white.
pub open spec fn white() -> Color {
    Color { red: 255, green: 255, blue: 255, alpha: 255 }
}

/// The contents of a [`Generator`].
pub enum GeneratorView {
    Text(Seq<char>, TextStyle),
    SolidColor(Color),
    Shape(Shape, Color, u32, u32),
    Sticker,
    Effect,
    Filter,
    Adjustment,
}

/// The contents of generated content.
pub open spec fn generator_view(g: Generator) -> GeneratorView {
    match g {
        Generator::Text { content, style } => GeneratorView::Text(content@, style),
        Generator::SolidColor { rgba } => GeneratorView::SolidColor(rgba),
        Generator::Shape { shape, rgba, width, height } => GeneratorView::Shape(
            shape,
            rgba,
            width,
            height,
        ),
        Generator::Sticker => GeneratorView::Sticker,
        Generator::Effect => GeneratorView::Effect,
        Generator::Filter => GeneratorView::Filter,
        Generator::Adjustment => GeneratorView::Adjustment,
    }
}

/// The content that a library tile key creates, with the look that fresh content
/// has; `None` for an unknown key.
pub fn generator_from_key(key: &str, look: &FreshLook) -> (r: Option<Generator>)
    ensures
        match generator_of(key@, *look) {
            Some(g) => r matches Some(made) && generator_view(made) == g,
            None => r is None,
        },
{
    let plain = Color { red: 255, green: 255, blue: 255, alpha: 255 };
    let (width, height): (u32, u32) = (look.width, look.height);
    if str_eq(key, "text") {
        Some(Generator::Text { content: "Title".to_owned(), style: look.style.clone() })
    } else if str_eq(key, "solid") {
        Some(Generator::SolidColor { rgba: Color { red: 30, green: 30, blue: 30, alpha: 255 } })
    } else if str_eq(key, "rect") {
        Some(Generator::Shape { shape: Shape::Rectangle, rgba: plain, width, height })
    } else if str_eq(key, "ellipse") {
        Some(Generator::Shape { shape: Shape::Ellipse, rgba: plain, width, height })
    } else {
        None
    }
}

/// The clip that `clip` names with its shape at a new size, given as IEEE single bit
/// patterns: shape and fill stay. `None` when it is no drawn shape.
pub open spec fn resized(p: Project, clip: Seq<char>, width: u32, height: u32) -> Option<
    (u64, Generator),
> {
    match raw_id(clip) {
        None => None,
        Some(id) => match p.clip_with(id) {
            Some(c) => match c.content {
                ClipSource::Generated(Generator::Shape { shape, rgba, .. }) => Some(
                    (id, Generator::Shape { shape, rgba, width, height }),
                ),
                _ => None,
            },
            None => None,
        },
    }
}

/// The shape of the clip that `clip` names, at a new size.
pub fn resized_shape(project: &Project, clip: &str, width: u32, height: u32) -> (r: Option<
    (u64, Generator),
>)
    ensures
        r == resized(*project, clip@, width, height),
{
    match parse_raw_id(clip) {
        None => None,
        Some(id) => match project.find_clip(id) {
            None => None,
            Some((t, c)) => match &project.lanes[t].clips[c].content {
                ClipSource::Generated(Generator::Shape { shape, rgba, .. }) => Some(
                    (id, Generator::Shape { shape: *shape, rgba: *rgba, width, height }),
                ),
                _ => None,
            },
        },
    }
}

/// Drawn by a generator.
pub open spec fn is_generated() -> spec_fn(ProjectClip) -> bool {
    |c: ProjectClip| c.content is Generated
}

/// The clips whose drawn size has to be measured: every generated one, lane by
/// lane from the bottom.
pub fn generated_clips(project: &Project) -> (r: Vec<u64>)
    ensures
        r@ == ids_of(all_clips(project.lanes@).filter(is_generated())),
{
    let ghost p = is_generated();
    let mut out: Vec<u64> = Vec::new();
    let mut t: usize = 0;
    proof {
        reveal(Seq::filter);
        assert(out@ =~= ids_of(all_clips(project.lanes@.take(0)).filter(p)));
    }
    while t < project.lanes.len()
        invariant
            t <= project.lanes.len(),
            p == is_generated(),
            out@ == ids_of(all_clips(project.lanes@.take(t as int)).filter(p)),
        decreases project.lanes.len() - t,
    {
        let clips = &project.lanes[t].clips;
        let ghost before = all_clips(project.lanes@.take(t as int));
        let mut c: usize = 0;
        proof {
            reveal(Seq::filter);
            assert(before + clips@.take(0) =~= before);
        }
        while c < clips.len()
            invariant
                c <= clips.len(),
                p == is_generated(),
                out@ == ids_of((before + clips@.take(c as int)).filter(p)),
            decreases clips.len() - c,
        {
            let clip = &clips[c];
            let ghost had = (before + clips@.take(c as int)).filter(p);
            proof {
                assert(before + clips@.take(c as int + 1) =~= (before + clips@.take(c as int)).push(
                    *clip,
                ));
                lemma_filter_push(before + clips@.take(c as int), *clip, p);
            }
            match &clip.content {
                ClipSource::Generated(_) => {
                    out.push(clip.id);
                    assert(out@ =~= ids_of(had.push(*clip)));
                },
                ClipSource::Media { .. } => {},
            }
            c += 1;
        }
        proof {
            assert(clips@.take(c as int) =~= clips@);
            let upper = project.lanes@.take(t as int + 1);
            assert(upper.drop_last() =~= project.lanes@.take(t as int));
            assert(upper.last() == project.lanes@[t as int]);
        }
        t += 1;
    }
    assert(project.lanes@.take(t as int) =~= project.lanes@);
    out
}

// --- what the timeline sounds like ----------------------------------------

/// The media of a clip that is heard: it sits on an unmuted audio lane, is not
/// silent, and its media is in the pool and has sound.
pub open spec fn heard_media(p: Project, lane: Lane, c: ProjectClip) -> Option<MediaSource> {
    if lane.kind != TrackKind::Audio || lane.muted || c.sound.silent {
        None
    } else {
        match c.content {
            ClipSource::Media { media, .. } => match p.media_with(media) {
                Some(m) => if m.has_audio {
                    Some(m)
                } else {
                    None
                },
                None => None,
            },
            ClipSource::Generated(_) => None,
        }
    }
}

/// `span` is the clip in rational time.
pub open spec fn is_span_of(span: AudioSpan, c: ProjectClip, m: MediaSource) -> bool {
    &&& c.content matches ClipSource::Media { media: _, source }
    &&& span.path@ == m.path@
    &&& span.start_tick == c.start
    &&& span.end_tick == c.end()
    &&& span.source_start == c.content->source.start
    &&& span.source_rate == (c.content->source.rate.num, c.content->source.rate.den)
    &&& span.source_duration == c.content->source.duration
    &&& span.retimed == c.sound.retimed
    &&& span.reversed == c.sound.reversed
    &&& span.pitch_bits == c.sound.pitch_bits
    &&& match (c.sound.speed_curve, span.speed_curve) {
        (None, None) => true,
        (Some(a), Some(b)) => same_param(b, a),
        _ => false,
    }
    &&& same_param(span.volume, c.sound.volume)
    &&& span.fade_in_ticks == c.sound.fade_in
    &&& span.fade_out_ticks == c.sound.fade_out
}

/// The heard clips of the first `n` clips of a lane, in order, with their media.
pub open spec fn heard_on(p: Project, lane: Lane, n: int) -> Seq<(ProjectClip, MediaSource)>
    decreases n,
{
    if n <= 0 {
        Seq::empty()
    } else {
        match heard_media(p, lane, lane.clips@[n - 1]) {
            Some(m) => heard_on(p, lane, n - 1).push((lane.clips@[n - 1], m)),
            None => heard_on(p, lane, n - 1),
        }
    }
}

/// The heard clips of the first `n` lanes, from the bottom up.
pub open spec fn heard(p: Project, n: int) -> Seq<(ProjectClip, MediaSource)>
    decreases n,
{
    if n <= 0 {
        Seq::empty()
    } else {
        heard(p, n - 1) + heard_on(p, p.lanes@[n - 1], p.lanes@[n - 1].clips@.len() as int)
    }
}

/// The spans are the heard clips, one for one.
pub open spec fn spans_are(spans: Seq<AudioSpan>, clips: Seq<(ProjectClip, MediaSource)>) -> bool {
    spans.len() == clips.len() && forall|i: int|
        0 <= i < spans.len() ==> is_span_of(#[trigger] spans[i], clips[i].0, clips[i].1)
}

/// Every audible clip on the timeline in rational time. Retimed clips are in it:
/// the mixer stretches them.
pub fn audio_snapshot(project: &Project) -> (r: AudioSnapshot)
    requires
        lanes_wf(project.lanes@),
    ensures
        r.fps == (project.frame_rate.num, project.frame_rate.den),
        spans_are(r.spans@, heard(*project, project.lanes@.len() as int)),
{
    let mut spans: Vec<AudioSpan> = Vec::new();
    let mut t: usize = 0;
    while t < project.lanes.len()
        invariant
            t <= project.lanes.len(),
            lanes_wf(project.lanes@),
            spans_are(spans@, heard(*project, t as int)),
        decreases project.lanes.len() - t,
    {
        let lane = &project.lanes[t];
        assert(lane_wf(project.lanes@[t as int].clips@));
        let mut k: usize = 0;
        assert(heard(*project, t as int) + heard_on(*project, *lane, 0) =~= heard(
            *project,
            t as int,
        ));
        while k < lane.clips.len()
            invariant
                k <= lane.clips.len(),
                lane_wf(lane.clips@),
                spans_are(
                    spans@,
                    heard(*project, t as int) + heard_on(*project, *lane, k as int),
                ),
            decreases lane.clips.len() - k,
        {
            let clip = &lane.clips[k];
            assert(lane.clips@[k as int].end() <= i64::MAX);
            let ghost before = heard(*project, t as int) + heard_on(*project, *lane, k as int);
            if lane.kind == TrackKind::Audio && !lane.muted && !clip.sound.silent {
                match &clip.content {
                    ClipSource::Media { media, source } => {
                        match project.find_media(*media) {
                            Some(at) => {
                                let m = &project.media[at];
                                if m.has_audio {
                                    let speed_curve: Option<Param> = match &clip.sound.speed_curve {
                                        Some(p) => Some(p.clone()),
                                        None => None,
                                    };
                                    spans.push(
                                        AudioSpan {
                                            path: m.path.clone(),
                                            start_tick: clip.start,
                                            end_tick: clip.start + clip.duration,
                                            source_start: source.start,
                                            source_rate: (source.rate.num, source.rate.den),
                                            source_duration: source.duration,
                                            retimed: clip.sound.retimed,
                                            reversed: clip.sound.reversed,
                                            pitch_bits: clip.sound.pitch_bits,
                                            speed_curve,
                                            volume: clip.sound.volume.clone(),
                                            fade_in_ticks: clip.sound.fade_in,
                                            fade_out_ticks: clip.sound.fade_out,
                                        },
                                    );
                                    assert(heard(*project, t as int) + heard_on(
                                        *project,
                                        *lane,
                                        k as int + 1,
                                    ) =~= before.push((*clip, *m)));
                                }
                            },
                            None => {},
                        }
                    },
                    ClipSource::Generated(_) => {},
                }
            }
            k += 1;
        }
        t += 1;
    }
    AudioSnapshot { fps: (project.frame_rate.num, project.frame_rate.den), spans }
}

// --- small choices --------------------------------------------------------

/// Colour of a ruler marker.
#[derive(Clone, Copy, Debug, PartialEq, Eq, Structural)]
pub enum MarkerColor {
    Teal,
    Blue,
    Purple,
    Pink,
    Red,
    Orange,
    Yellow,
    Green,
}

/// The marker colour that a name stands for.
pub open spec fn marker_color(name: Seq<char>) -> Option<MarkerColor> {
    if name == "teal"@ {
        Some(MarkerColor::Teal)
    } else if name == "blue"@ {
        Some(MarkerColor::Blue)
    } else if name == "purple"@ {
        Some(MarkerColor::Purple)
    } else if name == "pink"@ {
        Some(MarkerColor::Pink)
    } else if name == "red"@ {
        Some(MarkerColor::Red)
    } else if name == "orange"@ {
        Some(MarkerColor::Orange)
    } else if name == "yellow"@ {
        Some(MarkerColor::Yellow)
    } else if name == "green"@ {
        Some(MarkerColor::Green)
    } else {
        None
    }
}

/// The marker colour that a name stands for; `None` lets the palette cycle.
pub fn parse_marker_color(name: &str) -> (r: Option<MarkerColor>)
    ensures
        r == marker_color(name@),
{
    if str_eq(name, "teal") {
        Some(MarkerColor::Teal)
    } else if str_eq(name, "blue") {
        Some(MarkerColor::Blue)
    } else if str_eq(name, "purple") {
        Some(MarkerColor::Purple)
    } else if str_eq(name, "pink") {
        Some(MarkerColor::Pink)
    } else if str_eq(name, "red") {
        Some(MarkerColor::Red)
    } else if str_eq(name, "orange") {
        Some(MarkerColor::Orange)
    } else if str_eq(name, "yellow") {
        Some(MarkerColor::Yellow)
    } else if str_eq(name, "green") {
        Some(MarkerColor::Green)
    } else {
        None
    }
}

/// A switch in a lane's header.
#[derive(Clone, Copy, Debug, PartialEq, Eq, Structural)]
pub enum TrackFlag {
    Enabled,
    Muted,
    Locked,
    DuckSource,
}

/// The header switch that a key stands for.
pub open spec fn track_flag(key: Seq<char>) -> Option<TrackFlag> {
    if key == "enabled"@ {
        Some(TrackFlag::Enabled)
    } else if key == "muted"@ {
        Some(TrackFlag::Muted)
    } else if key == "locked"@ {
        Some(TrackFlag::Locked)
    } else if key == "duck-source"@ {
        Some(TrackFlag::DuckSource)
    } else {
        None
    }
}

/// The header switch that a key stands for; `None` for an unknown key.
pub fn track_flag_from_key(key: &str) -> (r: Option<TrackFlag>)
    ensures
        r == track_flag(key@),
{
    if str_eq(key, "enabled") {
        Some(TrackFlag::Enabled)
    } else if str_eq(key, "muted") {
        Some(TrackFlag::Muted)
    } else if str_eq(key, "locked") {
        Some(TrackFlag::Locked)
    } else if str_eq(key, "duck-source") {
        Some(TrackFlag::DuckSource)
    } else {
        None
    }
}

/// Position in a list of `count` presets that an index picks; `None` when it is
/// out of range.
pub fn preset_at(index: i32, count: usize) -> (r: Option<usize>)
    ensures
        r == (if 0 <= index < count {
            Some(index as usize)
        } else {
            None
        }),
{
    if index < 0 || index as usize >= count {
        None
    } else {
        Some(index as usize)
    }
}

/// The point of a speed curve that an index names; a negative one names none.
pub fn point_index(index: i32) -> (r: Option<usize>)
    ensures
        r == (if index >= 0 {
            Some(index as usize)
        } else {
            None
        }),
{
    if index >= 0 {
        Some(index as usize)
    } else {
        None
    }
}

/// What a speed-ramp preset asks for.
#[derive(Clone, Copy, Debug, PartialEq, Eq, Structural)]
pub enum SpeedChoice {
    /// No ramp.
    Clear,
    /// The ramp of that name.
    Named,
}

/// The names that clear the ramp.
pub open spec fn clears_ramp(name: Seq<char>) -> bool {
    name == ""@ || name == "none"@ || name == "normal"@
}

/// What a speed-ramp preset asks for, its name without the space around it.
pub fn speed_choice(trimmed: &str) -> (r: SpeedChoice)
    ensures
        r == (if clears_ramp(trimmed@) {
            SpeedChoice::Clear
        } else {
            SpeedChoice::Named
        }),
{
    if str_eq(trimmed, "") || str_eq(trimmed, "none") || str_eq(trimmed, "normal") {
        SpeedChoice::Clear
    } else {
        SpeedChoice::Named
    }
}

/// The ramp that a preset sets, `found` being what its name stands for: `Some(None)`
/// clears the ramp, and `None` drops the request, since the name is unknown.
pub fn speed_request(choice: SpeedChoice, found: Option<Vec<Keyframe>>) -> (r: Option<
    Option<Vec<Keyframe>>,
>)
    ensures
        r == match choice {
            SpeedChoice::Clear => Some(None),
            SpeedChoice::Named => match found {
                Some(curve) => Some(Some(curve)),
                None => None,
            },
        },
{
    match choice {
        SpeedChoice::Clear => Some(None),
        SpeedChoice::Named => match found {
            Some(curve) => Some(Some(curve)),
            None => None,
        },
    }
}

} // verus!
