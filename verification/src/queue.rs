//! The preview worker's message queue: a burst of frame requests or gesture
//! overrides is drained to its newest, edits run in order and none is lost, and
//! an override never outlives the edit that ended its gesture.

use vstd::prelude::*;

verus! {

/// What a message asks for.
#[derive(Clone, Copy, Debug, PartialEq, Eq, Structural)]
pub enum MsgKind {
    Frame,
    Import,
    AddClip,
    AddGenerated,
    MoveClip,
    MoveGroup,
    TrimClip,
    RemoveClips,
    SetGenerator,
    SetShapeSize,
    PreviewShapeSize,
    SetClipSpeed,
    SetClipPitch,
    SetSpeedCurve,
    SetSpeedCurvePoint,
    SetClipAudio,
    DuckUnderVoice,
    SetClipCrop,
    AddEffect,
    RemoveEffect,
    SetEffectParam,
    AddTransition,
    RemoveTransition,
    SetTransition,
    SetCanvas,
    FitClip,
    TransformOverride,
    ClearTransformOverride,
    GeneratorOverride,
    ClearGeneratorOverride,
    SetTransform,
    SetParamKeyframe,
    RemoveParamKeyframe,
    RetimeKeyframes,
    RemoveKeyframesAt,
    SplitClip,
    AddMarker,
    RemoveMarker,
    Undo,
    Redo,
    CopyClips,
    PasteAt,
    DuplicateClips,
    UnlinkClips,
    SetMainMagnet,
    SetLinkage,
    SetTrackFlag,
    Export,
    CancelExport,
    SaveProject,
    OpenProject,
    RelinkMedia,
    RelinkFolder,
    NewProject,
    Autosave,
    RestoreAutosave,
    SnapshotProject,
    AgentApplyPlan,
}

/// Draws a frame itself, at its own tick.
pub open spec fn draws_itself(kind: MsgKind) -> bool {
    match kind {
        MsgKind::Frame
        | MsgKind::TransformOverride
        | MsgKind::GeneratorOverride
        | MsgKind::PreviewShapeSize
        | MsgKind::ClearTransformOverride
        | MsgKind::ClearGeneratorOverride
        | MsgKind::SetTransform
        | MsgKind::FitClip => true,
        _ => false,
    }
}

/// Leaves the picture as it is.
pub open spec fn leaves_canvas(kind: MsgKind) -> bool {
    match kind {
        MsgKind::Import
        | MsgKind::CopyClips
        | MsgKind::SaveProject
        | MsgKind::Autosave
        | MsgKind::Export
        | MsgKind::CancelExport
        | MsgKind::SetLinkage
        | MsgKind::UnlinkClips
        | MsgKind::SetClipAudio
        | MsgKind::DuckUnderVoice
        | MsgKind::AddMarker
        | MsgKind::RemoveMarker
        | MsgKind::SnapshotProject => true,
        _ => false,
    }
}

/// Whether an executed message changes the picture at the playhead and does not
/// draw it itself, so that the current frame has to be drawn again.
pub fn mutation_redraws_preview(kind: MsgKind) -> (r: bool)
    ensures
        r == (!draws_itself(kind) && !leaves_canvas(kind)),
{
    match kind {
        MsgKind::Frame
        | MsgKind::TransformOverride
        | MsgKind::GeneratorOverride
        | MsgKind::PreviewShapeSize
        | MsgKind::ClearTransformOverride
        | MsgKind::ClearGeneratorOverride
        | MsgKind::SetTransform
        | MsgKind::FitClip
        | MsgKind::Import
        | MsgKind::CopyClips
        | MsgKind::SaveProject
        | MsgKind::Autosave
        | MsgKind::Export
        | MsgKind::CancelExport
        | MsgKind::SetLinkage
        | MsgKind::UnlinkClips
        | MsgKind::SetClipAudio
        | MsgKind::DuckUnderVoice
        | MsgKind::AddMarker
        | MsgKind::RemoveMarker
        | MsgKind::SnapshotProject => false,
        _ => true,
    }
}

// --- draining -------------------------------------------------------------

/// A message at the front of the queue: its kind, its number in arrival order,
/// and the tick it carries (frames and overrides do).
#[derive(Clone, Copy, Debug, PartialEq, Eq, Structural)]
pub struct Incoming {
    pub kind: MsgKind,
    pub number: u64,
    pub tick: i64,
}

/// A gesture that previews by a session override: dragging a clip in the preview, or a
/// control of its generated content.
#[derive(Clone, Copy, Debug, PartialEq, Eq, Structural)]
pub enum Gesture {
    Transform,
    Generator,
}

/// What the worker does next.
#[derive(Clone, Copy, Debug, PartialEq, Eq, Structural)]
pub enum Action {
    /// Point the gesture's override at what message `number` carries.
    Override { gesture: Gesture, number: u64 },
    /// The same, and draw it at its own tick.
    Show { gesture: Gesture, number: u64, tick: i64 },
    /// Drop the gesture's override: the message that is executed next ends the
    /// gesture.
    ClearOverride { gesture: Gesture },
    /// Execute message `number`.
    Execute { number: u64 },
    /// Draw the frame at this tick.
    Render { tick: i64 },
    /// Warm the cache behind this tick while the queue stays empty.
    Prefetch { tick: i64 },
}

/// A burst that is being drained: the kind that opened it, the tick to draw, and
/// for an override the newest one and whether it is still to be applied.
#[derive(Clone, Copy, Debug, PartialEq, Eq, Structural)]
pub struct Drain {
    pub kind: MsgKind,
    pub tick: i64,
    pub newest: u64,
    pub pending: bool,
}

/// Opens a burst.
pub open spec fn opens_burst(kind: MsgKind) -> bool {
    match kind {
        MsgKind::Frame
        | MsgKind::TransformOverride
        | MsgKind::GeneratorOverride
        | MsgKind::PreviewShapeSize => true,
        _ => false,
    }
}

/// The gesture whose override a message sets.
pub open spec fn gesture_of(kind: MsgKind) -> Option<Gesture> {
    match kind {
        MsgKind::TransformOverride => Some(Gesture::Transform),
        MsgKind::GeneratorOverride | MsgKind::PreviewShapeSize => Some(Gesture::Generator),
        _ => None,
    }
}

/// The gesture that a message ends: a commit is the value from then on, and a clear
/// gives the gesture up.
pub open spec fn ended_by(kind: MsgKind) -> Option<Gesture> {
    match kind {
        MsgKind::SetTransform | MsgKind::ClearTransformOverride => Some(Gesture::Transform),
        MsgKind::SetGenerator
        | MsgKind::SetShapeSize
        | MsgKind::ClearGeneratorOverride => Some(Gesture::Generator),
        _ => None,
    }
}

/// The gesture that a message ends, if it ends one.
pub fn ends_gesture(kind: MsgKind) -> (r: Option<Gesture>)
    ensures
        r == ended_by(kind),
{
    match kind {
        MsgKind::SetTransform | MsgKind::ClearTransformOverride => Some(Gesture::Transform),
        MsgKind::SetGenerator
        | MsgKind::SetShapeSize
        | MsgKind::ClearGeneratorOverride => Some(Gesture::Generator),
        _ => None,
    }
}

/// Executing a message; one that ends a gesture first drops the gesture's override.
pub open spec fn executing(m: Incoming) -> Seq<Action> {
    let run = Action::Execute { number: m.number };
    match ended_by(m.kind) {
        Some(gesture) => seq![Action::ClearOverride { gesture }, run],
        None => seq![run],
    }
}

/// The override that waits at the end of a burst, or in front of another message.
pub open spec fn waiting(d: Drain) -> Seq<Action> {
    match gesture_of(d.kind) {
        Some(gesture) => if d.pending {
            seq![Action::Override { gesture, number: d.newest }]
        } else {
            Seq::empty()
        },
        None => Seq::empty(),
    }
}

/// Draining one message: frames and overrides of the burst's kind replace what is
/// to be drawn; anything else comes up in its turn, after the override that was
/// waiting. A transform override of another gesture is applied and drawn with the
/// burst, other overrides are shown at once, and all the rest is executed.
pub open spec fn drained(d: Drain, m: Incoming) -> (Drain, Seq<Action>) {
    let rest = Drain { pending: false, ..d };
    if m.kind == MsgKind::Frame {
        (Drain { tick: m.tick, ..d }, Seq::empty())
    } else if m.kind == d.kind {
        (Drain { tick: m.tick, newest: m.number, pending: true, ..d }, Seq::empty())
    } else {
        match gesture_of(m.kind) {
            Some(Gesture::Transform) => (
                Drain { tick: m.tick, ..rest },
                waiting(d).push(
                    Action::Override { gesture: Gesture::Transform, number: m.number },
                ),
            ),
            Some(Gesture::Generator) => (
                rest,
                waiting(d).push(
                    Action::Show {
                        gesture: Gesture::Generator,
                        number: m.number,
                        tick: m.tick,
                    },
                ),
            ),
            None => (rest, waiting(d) + executing(m)),
        }
    }
}

/// The end of a burst: the waiting override, then the frame; a scrub also reads
/// ahead.
pub open spec fn closing(d: Drain) -> Seq<Action> {
    let draw = Action::Render { tick: d.tick };
    if d.kind == MsgKind::Frame {
        seq![draw, Action::Prefetch { tick: d.tick }]
    } else {
        waiting(d).push(draw)
    }
}

/// The burst that a message opens.
pub open spec fn opened(m: Incoming) -> Drain {
    Drain {
        kind: m.kind,
        tick: m.tick,
        newest: m.number,
        pending: m.kind != MsgKind::Frame,
    }
}

/// What a message does that opens no burst.
pub open spec fn done_alone(m: Incoming, last_tick: i64) -> Seq<Action> {
    if !draws_itself(m.kind) && !leaves_canvas(m.kind) {
        executing(m).push(Action::Render { tick: last_tick })
    } else {
        executing(m)
    }
}

fn overridden_by(kind: MsgKind) -> (r: Option<Gesture>)
    ensures
        r == gesture_of(kind),
{
    match kind {
        MsgKind::TransformOverride => Some(Gesture::Transform),
        MsgKind::GeneratorOverride | MsgKind::PreviewShapeSize => Some(Gesture::Generator),
        _ => None,
    }
}

fn push_executing(out: &mut Vec<Action>, m: Incoming)
    ensures
        final(out)@ == old(out)@ + executing(m),
{
    let ghost was = out@;
    match ends_gesture(m.kind) {
        Some(gesture) => {
            out.push(Action::ClearOverride { gesture });
        },
        None => {},
    }
    out.push(Action::Execute { number: m.number });
    assert(out@ =~= was + executing(m));
}

impl Drain {
    /// Open a burst with its first message; `None` for a message that is executed
    /// by itself.
    pub fn open(m: Incoming) -> (r: Option<Drain>)
        ensures
            opens_burst(m.kind) ==> r == Some(opened(m)),
            !opens_burst(m.kind) ==> r is None,
    {
        match m.kind {
            MsgKind::Frame => Some(
                Drain { kind: m.kind, tick: m.tick, newest: m.number, pending: false },
            ),
            MsgKind::TransformOverride
            | MsgKind::GeneratorOverride
            | MsgKind::PreviewShapeSize => Some(
                Drain { kind: m.kind, tick: m.tick, newest: m.number, pending: true },
            ),
            _ => None,
        }
    }

    /// The override that waits.
    fn push_waiting(&self, out: &mut Vec<Action>)
        ensures
            final(out)@ == old(out)@ + waiting(*self),
    {
        let ghost was = out@;
        match overridden_by(self.kind) {
            Some(gesture) => {
                if self.pending {
                    out.push(Action::Override { gesture, number: self.newest });
                }
            },
            None => {},
        }
        assert(out@ =~= was + waiting(*self));
    }

    /// Take the next message of the queue, whatever it is.
    pub fn take(&mut self, m: Incoming) -> (r: Vec<Action>)
        ensures
            *final(self) == drained(*old(self), m).0,
            r@ == drained(*old(self), m).1,
    {
        let mut out: Vec<Action> = Vec::new();
        if m.kind == MsgKind::Frame {
            self.tick = m.tick;
        } else if m.kind == self.kind {
            self.tick = m.tick;
            self.newest = m.number;
            self.pending = true;
        } else {
            self.push_waiting(&mut out);
            self.pending = false;
            match overridden_by(m.kind) {
                Some(Gesture::Transform) => {
                    self.tick = m.tick;
                    out.push(Action::Override { gesture: Gesture::Transform, number: m.number });
                },
                Some(Gesture::Generator) => {
                    out.push(
                        Action::Show {
                            gesture: Gesture::Generator,
                            number: m.number,
                            tick: m.tick,
                        },
                    );
                },
                None => {
                    push_executing(&mut out, m);
                },
            }
        }
        assert(out@ =~= drained(*old(self), m).1);
        out
    }

    /// The queue is empty: what is left to do. The tick is the one that later
    /// redraws use.
    pub fn close(&self) -> (r: Vec<Action>)
        ensures
            r@ == closing(*self),
    {
        let mut out: Vec<Action> = Vec::new();
        self.push_waiting(&mut out);
        out.push(Action::Render { tick: self.tick });
        if self.kind == MsgKind::Frame {
            out.push(Action::Prefetch { tick: self.tick });
        }
        assert(out@ =~= closing(*self));
        out
    }
}

/// What a message does that opens no burst: it is executed, and the current frame
/// is drawn again when that changed the picture.
pub fn execute_alone(m: Incoming, last_tick: i64) -> (r: Vec<Action>)
    ensures
        r@ == done_alone(m, last_tick),
{
    let mut out: Vec<Action> = Vec::new();
    push_executing(&mut out, m);
    assert(out@ =~= executing(m));
    if mutation_redraws_preview(m.kind) {
        out.push(Action::Render { tick: last_tick });
    }
    out
}

// --- laws -----------------------------------------------------------------

/// Draining a list of messages.
pub open spec fn drained_all(d: Drain, msgs: Seq<Incoming>) -> (Drain, Seq<Action>)
    decreases msgs.len(),
{
    if msgs.len() == 0 {
        (d, Seq::empty())
    } else {
        let (mid, before) = drained_all(d, msgs.drop_last());
        let (end, more) = drained(mid, msgs.last());
        (end, before + more)
    }
}

/// Everything a burst does.
pub open spec fn burst(d: Drain, msgs: Seq<Incoming>) -> Seq<Action> {
    let (end, acts) = drained_all(d, msgs);
    acts + closing(end)
}

/// The message that an action carries out, if any.
pub open spec fn number_of(a: Action) -> Option<u64> {
    match a {
        Action::Override { number, .. } => Some(number),
        Action::Show { number, .. } => Some(number),
        Action::Execute { number } => Some(number),
        _ => None,
    }
}

/// Messages come up in the order of their numbers, each once.
pub open spec fn in_arrival_order(acts: Seq<Action>) -> bool {
    forall|i: int, j: int|
        #![trigger acts[i], acts[j]]
        0 <= i < j < acts.len() && number_of(acts[i]) is Some && number_of(acts[j]) is Some
            ==> number_of(acts[i])->0 < number_of(acts[j])->0
}

/// Numbers count up along the queue.
pub open spec fn numbered(msgs: Seq<Incoming>) -> bool {
    forall|i: int, j: int|
        0 <= i < j < msgs.len() ==> (#[trigger] msgs[i]).number < (#[trigger] msgs[j]).number
}

/// Nothing that was carried out so far came after `bound`.
pub open spec fn all_upto(acts: Seq<Action>, bound: u64) -> bool {
    forall|i: int|
        0 <= i < acts.len() && number_of(#[trigger] acts[i]) is Some ==> number_of(acts[i])->0
            <= bound
}

/// Nothing that was carried out came before `bound`.
pub open spec fn all_from(acts: Seq<Action>, bound: u64) -> bool {
    forall|i: int|
        0 <= i < acts.len() && number_of(#[trigger] acts[i]) is Some ==> bound <= number_of(
            acts[i],
        )->0
}

/// Nothing that was carried out so far came after the override that still waits.
pub open spec fn all_before_pending(acts: Seq<Action>, d: Drain) -> bool {
    d.pending ==> forall|i: int|
        0 <= i < acts.len() && number_of(#[trigger] acts[i]) is Some ==> number_of(acts[i])->0
            < d.newest
}

proof fn lemma_drained_in_order(d: Drain, msgs: Seq<Incoming>, opener: u64)
    requires
        opens_burst(d.kind),
        d.newest == opener,
        d.pending == (d.kind != MsgKind::Frame),
        numbered(msgs),
        forall|i: int| 0 <= i < msgs.len() ==> opener < (#[trigger] msgs[i]).number,
    ensures
        ({
            let (end, acts) = drained_all(d, msgs);
            let last = if msgs.len() == 0 {
                opener
            } else {
                msgs.last().number
            };
            &&& end.kind == d.kind
            &&& opener <= end.newest <= last
            &&& all_from(acts, opener)
            &&& (end.kind == MsgKind::Frame ==> !end.pending)
            &&& in_arrival_order(acts)
            &&& all_upto(acts, last)
            &&& all_before_pending(acts, end)
        }),
    decreases msgs.len(),
{
    if msgs.len() > 0 {
        let front = msgs.drop_last();
        assert forall|i: int| 0 <= i < front.len() implies opener < (#[trigger] front[i]).number by {
            assert(front[i] == msgs[i]);
        }
        assert forall|i: int, j: int| 0 <= i < j < front.len() implies (#[trigger] front[i]).number
            < (#[trigger] front[j]).number by {
            assert(front[i] == msgs[i] && front[j] == msgs[j]);
        }
        lemma_drained_in_order(d, front, opener);
        let (mid, before) = drained_all(d, front);
        let m = msgs.last();
        let (end, more) = drained(mid, m);
        let bound = if front.len() == 0 {
            opener
        } else {
            front.last().number
        };
        assert(bound < m.number) by {
            assert(msgs[msgs.len() - 1] == m);
            if front.len() > 0 {
                assert(msgs[msgs.len() - 2] == front.last());
            }
        }
        let acts = before + more;
        assert forall|i: int|
            0 <= i < acts.len() && number_of(#[trigger] acts[i]) is Some implies number_of(
            acts[i],
        )->0 <= m.number by {
            if i < before.len() {
                assert(acts[i] == before[i]);
            } else {
                assert(acts[i] == more[i - before.len()]);
            }
        }
        assert forall|i: int, j: int|
            #![trigger acts[i], acts[j]]
            0 <= i < j < acts.len() && number_of(acts[i]) is Some && number_of(acts[j])
                is Some implies number_of(acts[i])->0 < number_of(acts[j])->0 by {
            if j < before.len() {
                assert(acts[i] == before[i] && acts[j] == before[j]);
            } else {
                assert(acts[j] == more[j - before.len()]);
                if i < before.len() {
                    assert(acts[i] == before[i]);
                } else {
                    assert(acts[i] == more[i - before.len()]);
                }
            }
        }
        assert forall|i: int|
            end.pending && 0 <= i < acts.len() && number_of(#[trigger] acts[i]) is Some implies number_of(
            acts[i],
        )->0 < end.newest by {
            if i < before.len() {
                assert(acts[i] == before[i]);
            } else {
                assert(acts[i] == more[i - before.len()]);
            }
        }
    }
}

/// Everything a burst carries out, overrides and edits alike, comes up in arrival
/// order and at most once. So no edit overtakes another, and no override is
/// applied after an edit that came behind it.
pub proof fn law_burst_keeps_order(d: Drain, msgs: Seq<Incoming>)
    requires
        opens_burst(d.kind),
        d.pending == (d.kind != MsgKind::Frame),
        numbered(msgs),
        forall|i: int| 0 <= i < msgs.len() ==> d.newest < (#[trigger] msgs[i]).number,
    ensures
        in_arrival_order(burst(d, msgs)),
{
    lemma_drained_in_order(d, msgs, d.newest);
    let (end, acts) = drained_all(d, msgs);
    let all = burst(d, msgs);
    let tail = closing(end);
    assert forall|i: int, j: int|
        #![trigger all[i], all[j]]
        0 <= i < j < all.len() && number_of(all[i]) is Some && number_of(all[j])
            is Some implies number_of(all[i])->0 < number_of(all[j])->0 by {
        if j < acts.len() {
            assert(all[i] == acts[i] && all[j] == acts[j]);
        } else {
            assert(all[j] == tail[j - acts.len()]);
            if i < acts.len() {
                assert(all[i] == acts[i]);
            } else {
                assert(all[i] == tail[i - acts.len()]);
            }
        }
    }
}

/// The numbers of the messages that actions execute, in order.
pub open spec fn executed(acts: Seq<Action>) -> Seq<u64>
    decreases acts.len(),
{
    if acts.len() == 0 {
        Seq::empty()
    } else {
        match acts.last() {
            Action::Execute { number } => executed(acts.drop_last()).push(number),
            _ => executed(acts.drop_last()),
        }
    }
}

/// The numbers of the edits among messages, in order: everything but frames and
/// overrides.
pub open spec fn edits_in(msgs: Seq<Incoming>) -> Seq<u64>
    decreases msgs.len(),
{
    if msgs.len() == 0 {
        Seq::empty()
    } else if opens_burst(msgs.last().kind) {
        edits_in(msgs.drop_last())
    } else {
        edits_in(msgs.drop_last()).push(msgs.last().number)
    }
}

proof fn lemma_executed_push(acts: Seq<Action>, a: Action)
    ensures
        executed(acts.push(a)) == (match a {
            Action::Execute { number } => executed(acts).push(number),
            _ => executed(acts),
        }),
{
    assert(acts.push(a).drop_last() =~= acts);
}

proof fn lemma_executed_join(a: Seq<Action>, b: Seq<Action>)
    ensures
        executed(a + b) == executed(a) + executed(b),
    decreases b.len(),
{
    if b.len() == 0 {
        assert(a + b =~= a);
        assert(executed(a) + executed(b) =~= executed(a));
    } else {
        lemma_executed_join(a, b.drop_last());
        assert((a + b).drop_last() =~= a + b.drop_last());
        assert((a + b).last() == b.last());
        assert(executed(a + b) =~= executed(a) + executed(b));
    }
}

proof fn lemma_edits_join(a: Seq<Incoming>, b: Seq<Incoming>)
    ensures
        edits_in(a + b) == edits_in(a) + edits_in(b),
    decreases b.len(),
{
    if b.len() == 0 {
        assert(a + b =~= a);
        assert(edits_in(a) + edits_in(b) =~= edits_in(a));
    } else {
        lemma_edits_join(a, b.drop_last());
        assert((a + b).drop_last() =~= a + b.drop_last());
        assert((a + b).last() == b.last());
        assert(edits_in(a + b) =~= edits_in(a) + edits_in(b));
    }
}

proof fn lemma_executed_parts(d: Drain, m: Incoming)
    ensures
        executed(waiting(d)) == Seq::<u64>::empty(),
        executed(executing(m)) == seq![m.number],
{
    let none = Seq::<Action>::empty();
    assert(executed(none) =~= Seq::<u64>::empty());
    if waiting(d).len() > 0 {
        lemma_executed_push(none, waiting(d)[0]);
        assert(waiting(d) =~= none.push(waiting(d)[0]));
    } else {
        assert(waiting(d) =~= none);
    }
    let run = Action::Execute { number: m.number };
    match ended_by(m.kind) {
        Some(gesture) => {
            let clear = Action::ClearOverride { gesture };
            lemma_executed_push(none, clear);
            lemma_executed_push(none.push(clear), run);
            assert(executing(m) =~= none.push(clear).push(run));
        },
        None => {
            lemma_executed_push(none, run);
            assert(executing(m) =~= none.push(run));
        },
    }
    assert(executed(executing(m)) =~= seq![m.number]);
}

proof fn lemma_executed_drained(d: Drain, m: Incoming)
    requires
        opens_burst(d.kind),
    ensures
        executed(drained(d, m).1) == if opens_burst(m.kind) {
            Seq::<u64>::empty()
        } else {
            seq![m.number]
        },
{
    let acts = drained(d, m).1;
    lemma_executed_parts(d, m);
    if m.kind == MsgKind::Frame || m.kind == d.kind {
        assert(acts =~= Seq::<Action>::empty());
    } else if gesture_of(m.kind) is Some {
        lemma_executed_push(waiting(d), acts.last());
        assert(acts =~= waiting(d).push(acts.last()));
    } else {
        lemma_executed_join(waiting(d), executing(m));
        assert(executed(acts) =~= seq![m.number]);
    }
}

proof fn lemma_kind_stays(d: Drain, msgs: Seq<Incoming>)
    ensures
        drained_all(d, msgs).0.kind == d.kind,
    decreases msgs.len(),
{
    if msgs.len() > 0 {
        lemma_kind_stays(d, msgs.drop_last());
    }
}

proof fn lemma_drained_executes(d: Drain, msgs: Seq<Incoming>)
    requires
        opens_burst(d.kind),
    ensures
        executed(drained_all(d, msgs).1) == edits_in(msgs),
    decreases msgs.len(),
{
    if msgs.len() > 0 {
        let front = msgs.drop_last();
        lemma_drained_executes(d, front);
        lemma_kind_stays(d, front);
        let (mid, before) = drained_all(d, front);
        lemma_executed_drained(mid, msgs.last());
        lemma_executed_join(before, drained(mid, msgs.last()).1);
        assert(executed(drained_all(d, msgs).1) =~= edits_in(msgs));
    }
}

/// A burst executes exactly the edits that it drains, each once and in arrival order.
pub proof fn law_burst_executes_its_edits(d: Drain, msgs: Seq<Incoming>)
    requires
        opens_burst(d.kind),
    ensures
        executed(burst(d, msgs)) == edits_in(msgs),
{
    let (end, acts) = drained_all(d, msgs);
    lemma_kind_stays(d, msgs);
    lemma_drained_executes(d, msgs);
    lemma_executed_join(acts, closing(end));
    let draw = Action::Render { tick: end.tick };
    let none = Seq::<Action>::empty();
    lemma_executed_parts(end, Incoming { kind: end.kind, number: 0, tick: 0 });
    if end.kind == MsgKind::Frame {
        lemma_executed_push(none, draw);
        lemma_executed_push(none.push(draw), Action::Prefetch { tick: end.tick });
        assert(closing(end) =~= none.push(draw).push(Action::Prefetch { tick: end.tick }));
    } else {
        lemma_executed_push(waiting(end), draw);
    }
    assert(executed(closing(end)) =~= Seq::<u64>::empty());
    assert(executed(burst(d, msgs)) =~= edits_in(msgs));
}

/// An override that is drained in a burst of another kind is applied, and not
/// passed over.
pub proof fn law_foreign_override_is_applied(d: Drain, msgs: Seq<Incoming>, i: int)
    requires
        0 <= i < msgs.len(),
        gesture_of(msgs[i].kind) is Some,
        msgs[i].kind != d.kind,
    ensures
        exists|k: int|
            0 <= k < burst(d, msgs).len() && #[trigger] applies(
                burst(d, msgs)[k],
                gesture_of(msgs[i].kind)->0,
                msgs[i].number,
            ),
{
    let k = lemma_overridden(d, msgs, i);
    let acts = drained_all(d, msgs).1;
    assert(burst(d, msgs)[k] == acts[k]);
}

/// The action points the gesture's override at message `number`.
pub open spec fn applies(a: Action, gesture: Gesture, number: u64) -> bool {
    match a {
        Action::Override { gesture: g, number: n } => g == gesture && n == number,
        Action::Show { gesture: g, number: n, .. } => g == gesture && n == number,
        _ => false,
    }
}

proof fn lemma_overridden(d: Drain, msgs: Seq<Incoming>, i: int) -> (k: int)
    requires
        0 <= i < msgs.len(),
        gesture_of(msgs[i].kind) is Some,
        msgs[i].kind != d.kind,
    ensures
        0 <= k < drained_all(d, msgs).1.len(),
        applies(drained_all(d, msgs).1[k], gesture_of(msgs[i].kind)->0, msgs[i].number),
    decreases msgs.len(),
{
    let front = msgs.drop_last();
    let (mid, before) = drained_all(d, front);
    let (end, more) = drained(mid, msgs.last());
    let acts = before + more;
    lemma_kind_stays(d, front);
    if i < front.len() {
        assert(front[i] == msgs[i]);
        let k = lemma_overridden(d, front, i);
        assert(acts[k] == before[k]);
        k
    } else {
        assert(acts[acts.len() - 1] == more[more.len() - 1]);
        acts.len() - 1
    }
}

/// The newest override of a gesture is applied: none that arrived is passed over
/// for an older one.
pub proof fn law_newest_override_is_applied(d: Drain, msgs: Seq<Incoming>)
    requires
        gesture_of(d.kind) is Some,
        d.pending,
    ensures
        burst(d, msgs).contains(
            Action::Override {
                gesture: gesture_of(d.kind)->0,
                number: drained_all(d, msgs).0.newest,
            },
        ),
        forall|i: int|
            0 <= i < msgs.len() && (#[trigger] msgs[i]).kind == d.kind && (forall|j: int|
                i < j < msgs.len() ==> (#[trigger] msgs[j]).kind != d.kind) ==> drained_all(
                d,
                msgs,
            ).0.newest == msgs[i].number,
{
    lemma_newest(d, msgs);
    lemma_kind_stays(d, msgs);
    let (end, acts) = drained_all(d, msgs);
    let a = Action::Override { gesture: gesture_of(d.kind)->0, number: end.newest };
    let all = burst(d, msgs);
    if end.pending {
        assert(closing(end)[0] == a);
        assert(all[acts.len() as int] == a);
    } else {
        let k = choose|k: int| 0 <= k < acts.len() && acts[k] == a;
        assert(all[k] == a);
    }
}

proof fn lemma_newest(d: Drain, msgs: Seq<Incoming>)
    requires
        gesture_of(d.kind) is Some,
        d.pending,
    ensures
        ({
            let (end, acts) = drained_all(d, msgs);
            &&& !end.pending ==> acts.contains(
                Action::Override { gesture: gesture_of(d.kind)->0, number: end.newest },
            )
            &&& forall|i: int|
                0 <= i < msgs.len() && (#[trigger] msgs[i]).kind == d.kind && (forall|j: int|
                    i < j < msgs.len() ==> (#[trigger] msgs[j]).kind != d.kind) ==> end.newest
                    == msgs[i].number
        }),
    decreases msgs.len(),
{
    if msgs.len() > 0 {
        let front = msgs.drop_last();
        lemma_newest(d, front);
        lemma_kind_stays(d, front);
        let (mid, before) = drained_all(d, front);
        let (end, more) = drained(mid, msgs.last());
        let acts = before + more;
        if !end.pending {
            let a = Action::Override { gesture: gesture_of(d.kind)->0, number: end.newest };
            if mid.pending {
                assert(waiting(mid)[0] == a);
                assert(more[0] == a);
                assert(acts[before.len() as int] == a);
            } else {
                let k = choose|k: int| 0 <= k < before.len() && before[k] == a;
                assert(acts[k] == a);
            }
        }
        assert forall|i: int|
            0 <= i < msgs.len() && (#[trigger] msgs[i]).kind == d.kind && (forall|j: int|
                i < j < msgs.len() ==> (#[trigger] msgs[j]).kind != d.kind) implies end.newest
            == msgs[i].number by {
            if i < front.len() {
                assert(msgs[msgs.len() - 1].kind != d.kind);
                assert(front[i] == msgs[i]);
                assert forall|j: int| i < j < front.len() implies (#[trigger] front[j]).kind
                    != d.kind by {
                    assert(front[j] == msgs[j]);
                }
            }
        }
    }
}

/// Beside what it shows of other gestures, a burst draws one frame, at its very end or
/// just before it reads ahead: of several frames only the newest.
pub proof fn law_burst_draws_once(d: Drain, msgs: Seq<Incoming>, i: int)
    requires
        0 <= i < burst(d, msgs).len(),
        burst(d, msgs)[i] is Render,
    ensures
        burst(d, msgs)[i] == (Action::Render { tick: drained_all(d, msgs).0.tick }),
        i == burst(d, msgs).len() - (if d.kind == MsgKind::Frame {
            2int
        } else {
            1int
        }),
{
    lemma_no_render(d, msgs);
    lemma_kind_stays(d, msgs);
    let (end, acts) = drained_all(d, msgs);
    let tail = closing(end);
    if i < acts.len() {
        assert(burst(d, msgs)[i] == acts[i]);
    } else {
        assert(burst(d, msgs)[i] == tail[i - acts.len()]);
    }
}

/// A message moves the frame that the burst draws: a scrub, an override of the burst's own
/// kind, or one of the transform.
pub open spec fn moves_frame(d: Drain, m: Incoming) -> bool {
    m.kind == MsgKind::Frame || m.kind == d.kind || m.kind == MsgKind::TransformOverride
}

/// The frame that a burst draws is the one of the newest message that moves it, or the one
/// that the burst was opened at.
pub proof fn law_burst_draws_the_newest_frame(d: Drain, msgs: Seq<Incoming>)
    ensures
        forall|i: int|
            0 <= i < msgs.len() && moves_frame(d, #[trigger] msgs[i]) && (forall|j: int|
                i < j < msgs.len() ==> !moves_frame(d, #[trigger] msgs[j])) ==> drained_all(
                d,
                msgs,
            ).0.tick == msgs[i].tick,
        (forall|i: int| 0 <= i < msgs.len() ==> !moves_frame(d, #[trigger] msgs[i]))
            ==> drained_all(d, msgs).0.tick == d.tick,
    decreases msgs.len(),
{
    if msgs.len() > 0 {
        let init = msgs.drop_last();
        let n = msgs.len() - 1;
        law_burst_draws_the_newest_frame(d, init);
        lemma_kind_stays(d, init);
        assert(msgs[n] == msgs.last());
        assert forall|i: int|
            0 <= i < msgs.len() && moves_frame(d, #[trigger] msgs[i]) && (forall|j: int|
                i < j < msgs.len() ==> !moves_frame(d, #[trigger] msgs[j])) implies drained_all(
            d,
            msgs,
        ).0.tick == msgs[i].tick by {
            if i < n {
                assert(init[i] == msgs[i]);
                assert(!moves_frame(d, msgs[n]));
                assert forall|j: int| i < j < init.len() implies !moves_frame(
                    d,
                    #[trigger] init[j],
                ) by {
                    assert(init[j] == msgs[j]);
                }
            }
        }
        if forall|i: int| 0 <= i < msgs.len() ==> !moves_frame(d, #[trigger] msgs[i]) {
            assert forall|i: int| 0 <= i < init.len() implies !moves_frame(d, #[trigger] init[i]) by {
                assert(init[i] == msgs[i]);
            }
            assert(!moves_frame(d, msgs[n]));
        }
    }
}

/// Every edit that can change the picture has the frame drawn again after it; frames,
/// overrides and the edits that draw for themselves do not, nor does what leaves the
/// picture alone.
pub proof fn law_picture_edits_redraw(kind: MsgKind)
    ensures
        (!draws_itself(kind) && !leaves_canvas(kind)) == match kind {
            MsgKind::AddClip
            | MsgKind::AddGenerated
            | MsgKind::MoveClip
            | MsgKind::MoveGroup
            | MsgKind::TrimClip
            | MsgKind::RemoveClips
            | MsgKind::SetGenerator
            | MsgKind::SetShapeSize
            | MsgKind::SetClipSpeed
            | MsgKind::SetClipPitch
            | MsgKind::SetSpeedCurve
            | MsgKind::SetSpeedCurvePoint
            | MsgKind::SetClipCrop
            | MsgKind::AddEffect
            | MsgKind::RemoveEffect
            | MsgKind::SetEffectParam
            | MsgKind::AddTransition
            | MsgKind::RemoveTransition
            | MsgKind::SetTransition
            | MsgKind::SetCanvas
            | MsgKind::SetParamKeyframe
            | MsgKind::RemoveParamKeyframe
            | MsgKind::RetimeKeyframes
            | MsgKind::RemoveKeyframesAt
            | MsgKind::SplitClip
            | MsgKind::Undo
            | MsgKind::Redo
            | MsgKind::PasteAt
            | MsgKind::DuplicateClips
            | MsgKind::SetMainMagnet
            | MsgKind::SetTrackFlag
            | MsgKind::OpenProject
            | MsgKind::RelinkMedia
            | MsgKind::RelinkFolder
            | MsgKind::NewProject
            | MsgKind::RestoreAutosave
            | MsgKind::AgentApplyPlan => true,
            _ => false,
        },
{
}

/// A gesture that overrides is ended by its own commit and by its own clear, and by
/// nothing else; what overrides opens a burst, and what ends a gesture does not.
pub proof fn law_gestures_end_by_their_commit(kind: MsgKind)
    ensures
        (ended_by(kind) == Some(Gesture::Transform)) == (kind == MsgKind::SetTransform || kind
            == MsgKind::ClearTransformOverride),
        (ended_by(kind) == Some(Gesture::Generator)) == (kind == MsgKind::SetGenerator || kind
            == MsgKind::SetShapeSize || kind == MsgKind::ClearGeneratorOverride),
        (gesture_of(kind) == Some(Gesture::Transform)) == (kind == MsgKind::TransformOverride),
        (gesture_of(kind) == Some(Gesture::Generator)) == (kind == MsgKind::GeneratorOverride
            || kind == MsgKind::PreviewShapeSize),
        opens_burst(kind) == (kind == MsgKind::Frame || gesture_of(kind) is Some),
        ended_by(kind) is Some ==> !opens_burst(kind),
{
}

proof fn lemma_no_render(d: Drain, msgs: Seq<Incoming>)
    ensures
        forall|i: int|
            0 <= i < drained_all(d, msgs).1.len() ==> !(#[trigger] drained_all(d, msgs).1[i]
                is Render),
    decreases msgs.len(),
{
    if msgs.len() > 0 {
        let front = msgs.drop_last();
        lemma_no_render(d, front);
        let (mid, before) = drained_all(d, front);
        let (end, more) = drained(mid, msgs.last());
        let acts = before + more;
        assert forall|i: int| 0 <= i < acts.len() implies !(#[trigger] acts[i] is Render) by {
            if i < before.len() {
                assert(acts[i] == before[i]);
            } else {
                assert(acts[i] == more[i - before.len()]);
            }
        }
    }
}

// --- whole queues ---------------------------------------------------------

/// One turn of the worker: the message it woke up for, and what it drained behind
/// it. Only a burst drains.
pub struct Turn {
    pub first: Incoming,
    pub rest: Seq<Incoming>,
    /// The tick that was drawn last before the turn.
    pub last_tick: i64,
}

/// Everything that a turn does.
pub open spec fn turn_actions(t: Turn) -> Seq<Action> {
    if opens_burst(t.first.kind) {
        burst(opened(t.first), t.rest)
    } else {
        done_alone(t.first, t.last_tick)
    }
}

/// Everything that the worker does in these turns.
pub open spec fn worked(turns: Seq<Turn>) -> Seq<Action>
    decreases turns.len(),
{
    if turns.len() == 0 {
        Seq::empty()
    } else {
        worked(turns.drop_last()) + turn_actions(turns.last())
    }
}

/// The messages of a turn.
pub open spec fn turn_msgs(t: Turn) -> Seq<Incoming> {
    if opens_burst(t.first.kind) {
        seq![t.first] + t.rest
    } else {
        seq![t.first]
    }
}

/// The messages of the queue, in arrival order.
pub open spec fn all_msgs(turns: Seq<Turn>) -> Seq<Incoming>
    decreases turns.len(),
{
    if turns.len() == 0 {
        Seq::empty()
    } else {
        all_msgs(turns.drop_last()) + turn_msgs(turns.last())
    }
}

/// The bounds of what a turn carries out.
proof fn lemma_turn_in_order(t: Turn)
    requires
        numbered(turn_msgs(t)),
    ensures
        in_arrival_order(turn_actions(t)),
        all_from(turn_actions(t), t.first.number),
        all_upto(turn_actions(t), turn_msgs(t).last().number),
{
    let msgs = turn_msgs(t);
    assert(msgs[0] == t.first);
    if opens_burst(t.first.kind) {
        assert forall|i: int| 0 <= i < t.rest.len() implies t.first.number < (
        #[trigger] t.rest[i]).number by {
            assert(msgs[i + 1] == t.rest[i]);
        }
        assert forall|i: int, j: int| 0 <= i < j < t.rest.len() implies (#[trigger] t.rest[i]).number
            < (#[trigger] t.rest[j]).number by {
            assert(msgs[i + 1] == t.rest[i] && msgs[j + 1] == t.rest[j]);
        }
        let d = opened(t.first);
        law_burst_keeps_order(d, t.rest);
        lemma_drained_in_order(d, t.rest, d.newest);
        let (end, acts) = drained_all(d, t.rest);
        let all = turn_actions(t);
        assert forall|i: int|
            0 <= i < all.len() && number_of(#[trigger] all[i]) is Some implies t.first.number
            <= number_of(all[i])->0 <= msgs.last().number by {
            if i < acts.len() {
                assert(all[i] == acts[i]);
            } else {
                assert(all[i] == closing(end)[i - acts.len()]);
            }
        }
    }
}

/// The worker carries out messages in arrival order, each at most once, over the whole
/// queue. So once a commit was executed, no override that came before it follows.
pub proof fn law_worker_keeps_order(turns: Seq<Turn>)
    requires
        numbered(all_msgs(turns)),
    ensures
        in_arrival_order(worked(turns)),
        all_msgs(turns).len() > 0 ==> all_upto(worked(turns), all_msgs(turns).last().number),
    decreases turns.len(),
{
    if turns.len() > 0 {
        let front = turns.drop_last();
        let before = all_msgs(front);
        let mine = turn_msgs(turns.last());
        let all = all_msgs(turns);
        assert forall|i: int, j: int| 0 <= i < j < before.len() implies (#[trigger] before[i]).number
            < (#[trigger] before[j]).number by {
            assert(before[i] == all[i] && before[j] == all[j]);
        }
        assert forall|i: int, j: int| 0 <= i < j < mine.len() implies (#[trigger] mine[i]).number < (
        #[trigger] mine[j]).number by {
            assert(mine[i] == all[before.len() + i] && mine[j] == all[before.len() + j]);
        }
        law_worker_keeps_order(front);
        lemma_turn_in_order(turns.last());
        lemma_no_messages_no_work(front);
        let done = worked(front);
        let more = turn_actions(turns.last());
        let acts = worked(turns);
        assert(all.last() == mine.last());
        assert(mine[0] == turns.last().first);
        assert(mine.len() > 0);
        assert(mine[0].number <= mine.last().number) by {
            if mine.len() > 1 {
                assert(mine[0].number < mine[mine.len() - 1].number);
            }
        }
        if before.len() > 0 {
            assert(before.last() == all[before.len() - 1]);
            assert(mine[0] == all[before.len() as int]);
            assert(before.last().number < mine[0].number);
        }
        assert forall|i: int|
            0 <= i < acts.len() && number_of(#[trigger] acts[i]) is Some implies number_of(
            acts[i],
        )->0 <= all.last().number by {
            if i < done.len() {
                assert(acts[i] == done[i]);
            } else {
                assert(acts[i] == more[i - done.len()]);
            }
        }
        assert forall|i: int, j: int|
            #![trigger acts[i], acts[j]]
            0 <= i < j < acts.len() && number_of(acts[i]) is Some && number_of(acts[j])
                is Some implies number_of(acts[i])->0 < number_of(acts[j])->0 by {
            if j < done.len() {
                assert(acts[i] == done[i] && acts[j] == done[j]);
            } else {
                assert(acts[j] == more[j - done.len()]);
                if i < done.len() {
                    assert(acts[i] == done[i]);
                } else {
                    assert(acts[i] == more[i - done.len()]);
                }
            }
        }
    }
}

proof fn lemma_no_messages_no_work(turns: Seq<Turn>)
    ensures
        all_msgs(turns).len() == 0 ==> worked(turns).len() == 0,
{
    if turns.len() > 0 {
        assert(turn_msgs(turns.last()).len() > 0);
    }
}

proof fn lemma_executed_alone(m: Incoming, last_tick: i64)
    ensures
        executed(done_alone(m, last_tick)) == seq![m.number],
{
    lemma_executed_parts(opened(m), m);
    lemma_executed_push(executing(m), Action::Render { tick: last_tick });
}

/// However the queue's messages fall into turns, the worker executes every edit,
/// each once and in arrival order, and nothing else.
pub proof fn law_worker_executes_every_edit(turns: Seq<Turn>)
    ensures
        executed(worked(turns)) == edits_in(all_msgs(turns)),
    decreases turns.len(),
{
    if turns.len() > 0 {
        let t = turns.last();
        law_worker_executes_every_edit(turns.drop_last());
        lemma_executed_join(worked(turns.drop_last()), turn_actions(t));
        lemma_edits_join(all_msgs(turns.drop_last()), turn_msgs(t));
        let one = seq![t.first];
        assert(one.drop_last() =~= Seq::<Incoming>::empty());
        assert(edits_in(Seq::<Incoming>::empty()) =~= Seq::<u64>::empty());
        if opens_burst(t.first.kind) {
            law_burst_executes_its_edits(opened(t.first), t.rest);
            lemma_edits_join(one, t.rest);
            assert(edits_in(turn_msgs(t)) =~= edits_in(t.rest));
        } else {
            lemma_executed_alone(t.first, t.last_tick);
            assert(edits_in(one) =~= seq![t.first.number]);
        }
    }
}

/// The message that the gesture's override comes from after these actions; `None` when
/// there is no override.
pub open spec fn held(acts: Seq<Action>, gesture: Gesture) -> Option<u64>
    decreases acts.len(),
{
    if acts.len() == 0 {
        None
    } else {
        let before = held(acts.drop_last(), gesture);
        match acts.last() {
            Action::Override { gesture: g, number } => if g == gesture {
                Some(number)
            } else {
                before
            },
            Action::Show { gesture: g, number, .. } => if g == gesture {
                Some(number)
            } else {
                before
            },
            Action::ClearOverride { gesture: g } => if g == gesture {
                None
            } else {
                before
            },
            _ => before,
        }
    }
}

/// Message `number` came behind every message that ends the gesture.
pub open spec fn outlives(number: u64, msgs: Seq<Incoming>, gesture: Gesture) -> bool {
    forall|k: int|
        0 <= k < msgs.len() && ended_by((#[trigger] msgs[k]).kind) == Some(gesture)
            ==> msgs[k].number < number
}

/// No override is left of a gesture that a message ended.
pub open spec fn no_stale(acts: Seq<Action>, msgs: Seq<Incoming>) -> bool {
    forall|gesture: Gesture|
        (#[trigger] held(acts, gesture)) matches Some(number) ==> outlives(number, msgs, gesture)
}

/// The override that waits in a burst is of a gesture that goes on.
pub open spec fn waits_fresh(d: Drain, msgs: Seq<Incoming>) -> bool {
    d.pending ==> (gesture_of(d.kind) matches Some(g) ==> outlives(d.newest, msgs, g))
}

proof fn lemma_held_push(acts: Seq<Action>, a: Action, gesture: Gesture)
    ensures
        held(acts.push(a), gesture) == (match a {
            Action::Override { gesture: g, number } => if g == gesture {
                Some(number)
            } else {
                held(acts, gesture)
            },
            Action::Show { gesture: g, number, .. } => if g == gesture {
                Some(number)
            } else {
                held(acts, gesture)
            },
            Action::ClearOverride { gesture: g } => if g == gesture {
                None
            } else {
                held(acts, gesture)
            },
            _ => held(acts, gesture),
        }),
{
    assert(acts.push(a).drop_last() =~= acts);
}

/// Messages behind which another arrived.
spec fn all_older(msgs: Seq<Incoming>, m: Incoming) -> bool {
    forall|k: int| 0 <= k < msgs.len() ==> (#[trigger] msgs[k]).number < m.number
}

proof fn lemma_waiting_is_fresh(acts: Seq<Action>, d: Drain, seen: Seq<Incoming>)
    requires
        no_stale(acts, seen),
        waits_fresh(d, seen),
    ensures
        no_stale(acts + waiting(d), seen),
{
    if waiting(d).len() == 0 {
        assert(acts + waiting(d) =~= acts);
    } else {
        let a = waiting(d)[0];
        assert(acts + waiting(d) =~= acts.push(a));
        assert forall|gesture: Gesture|
            (#[trigger] held(acts.push(a), gesture)) matches Some(number) implies outlives(
            held(acts.push(a), gesture)->0,
            seen,
            gesture,
        ) by {
            lemma_held_push(acts, a, gesture);
            assert(held(acts, gesture) matches Some(n) ==> outlives(n, seen, gesture));
        }
    }
}

proof fn lemma_executing_is_fresh(acts: Seq<Action>, seen: Seq<Incoming>, m: Incoming)
    requires
        no_stale(acts, seen),
    ensures
        no_stale(acts + executing(m), seen.push(m)),
{
    let run = Action::Execute { number: m.number };
    let all = acts + executing(m);
    assert forall|gesture: Gesture|
        (#[trigger] held(all, gesture)) matches Some(number) implies outlives(
        held(all, gesture)->0,
        seen.push(m),
        gesture,
    ) by {
        match ended_by(m.kind) {
            Some(g) => {
                let clear = Action::ClearOverride { gesture: g };
                assert(all =~= acts.push(clear).push(run));
                lemma_held_push(acts, clear, gesture);
                lemma_held_push(acts.push(clear), run, gesture);
            },
            None => {
                assert(all =~= acts.push(run));
                lemma_held_push(acts, run, gesture);
            },
        }
        assert(held(acts, gesture) matches Some(n) ==> outlives(n, seen, gesture));
    }
}

proof fn lemma_drained_is_fresh(acts: Seq<Action>, d: Drain, seen: Seq<Incoming>, m: Incoming)
    requires
        opens_burst(d.kind),
        no_stale(acts, seen),
        waits_fresh(d, seen),
        all_older(seen, m),
    ensures
        no_stale(acts + drained(d, m).1, seen.push(m)),
        waits_fresh(drained(d, m).0, seen.push(m)),
{
    let more = drained(d, m).1;
    let now = seen.push(m);
    lemma_waiting_is_fresh(acts, d, seen);
    let mid = acts + waiting(d);
    if m.kind == MsgKind::Frame || m.kind == d.kind {
        assert(acts + more =~= acts);
        assert forall|gesture: Gesture|
            (#[trigger] held(acts, gesture)) matches Some(number) implies outlives(
            held(acts, gesture)->0,
            now,
            gesture,
        ) by {}
    } else if gesture_of(m.kind) is Some {
        let a = more.last();
        assert(acts + more =~= mid.push(a));
        assert forall|gesture: Gesture|
            (#[trigger] held(mid.push(a), gesture)) matches Some(number) implies outlives(
            held(mid.push(a), gesture)->0,
            now,
            gesture,
        ) by {
            lemma_held_push(mid, a, gesture);
            assert(held(mid, gesture) matches Some(n) ==> outlives(n, seen, gesture));
        }
    } else {
        lemma_executing_is_fresh(mid, seen, m);
        assert(acts + more =~= mid + executing(m));
    }
}

proof fn lemma_drained_all_is_fresh(
    acts: Seq<Action>,
    d: Drain,
    seen: Seq<Incoming>,
    msgs: Seq<Incoming>,
)
    requires
        opens_burst(d.kind),
        no_stale(acts, seen),
        waits_fresh(d, seen),
        numbered(seen + msgs),
    ensures
        no_stale(acts + drained_all(d, msgs).1, seen + msgs),
        waits_fresh(drained_all(d, msgs).0, seen + msgs),
    decreases msgs.len(),
{
    if msgs.len() == 0 {
        assert(acts + drained_all(d, msgs).1 =~= acts);
        assert(seen + msgs =~= seen);
    } else {
        let front = msgs.drop_last();
        let m = msgs.last();
        let all = seen + msgs;
        assert forall|i: int, j: int| 0 <= i < j < (seen + front).len() implies (#[trigger] (seen
            + front)[i]).number < (#[trigger] (seen + front)[j]).number by {
            assert((seen + front)[i] == all[i] && (seen + front)[j] == all[j]);
        }
        lemma_drained_all_is_fresh(acts, d, seen, front);
        lemma_kind_stays(d, front);
        let (mid, before) = drained_all(d, front);
        assert forall|k: int| 0 <= k < (seen + front).len() implies (#[trigger] (seen
            + front)[k]).number < m.number by {
            assert((seen + front)[k] == all[k] && m == all[all.len() - 1]);
        }
        lemma_drained_is_fresh(acts + before, mid, seen + front, m);
        assert((acts + before) + drained(mid, m).1 =~= acts + drained_all(d, msgs).1);
        assert((seen + front).push(m) =~= all);
    }
}

proof fn lemma_quiet_push(acts: Seq<Action>, a: Action, msgs: Seq<Incoming>)
    requires
        no_stale(acts, msgs),
        a is Render || a is Prefetch,
    ensures
        no_stale(acts.push(a), msgs),
{
    assert forall|gesture: Gesture|
        (#[trigger] held(acts.push(a), gesture)) matches Some(number) implies outlives(
        held(acts.push(a), gesture)->0,
        msgs,
        gesture,
    ) by {
        lemma_held_push(acts, a, gesture);
        assert(held(acts, gesture) matches Some(n) ==> outlives(n, msgs, gesture));
    }
}

proof fn lemma_turn_is_fresh(acts: Seq<Action>, seen: Seq<Incoming>, t: Turn)
    requires
        no_stale(acts, seen),
        numbered(seen + turn_msgs(t)),
    ensures
        no_stale(acts + turn_actions(t), seen + turn_msgs(t)),
{
    let all = seen + turn_msgs(t);
    let m = t.first;
    assert(all[seen.len() as int] == m);
    assert forall|k: int| 0 <= k < seen.len() implies (#[trigger] seen[k]).number < m.number by {
        assert(all[k] == seen[k]);
    }
    if opens_burst(m.kind) {
        let d = opened(m);
        let now = seen.push(m);
        assert(no_stale(acts, now)) by {
            assert forall|gesture: Gesture|
                (#[trigger] held(acts, gesture)) matches Some(number) implies outlives(
                held(acts, gesture)->0,
                now,
                gesture,
            ) by {}
        }
        assert(now + t.rest =~= all);
        lemma_drained_all_is_fresh(acts, d, now, t.rest);
        lemma_kind_stays(d, t.rest);
        let (end, more) = drained_all(d, t.rest);
        let done = acts + more;
        let draw = Action::Render { tick: end.tick };
        if end.kind == MsgKind::Frame {
            lemma_quiet_push(done, draw, all);
            lemma_quiet_push(done.push(draw), Action::Prefetch { tick: end.tick }, all);
            assert(acts + turn_actions(t) =~= done.push(draw).push(
                Action::Prefetch { tick: end.tick },
            ));
        } else {
            lemma_waiting_is_fresh(done, end, all);
            lemma_quiet_push(done + waiting(end), draw, all);
            assert(acts + turn_actions(t) =~= (done + waiting(end)).push(draw));
        }
    } else {
        lemma_executing_is_fresh(acts, seen, m);
        assert(seen.push(m) =~= all);
        let draw = Action::Render { tick: t.last_tick };
        lemma_quiet_push(acts + executing(m), draw, all);
        if !draws_itself(m.kind) && !leaves_canvas(m.kind) {
            assert(acts + turn_actions(t) =~= (acts + executing(m)).push(draw));
        }
    }
}

proof fn lemma_worked_is_fresh(turns: Seq<Turn>)
    requires
        numbered(all_msgs(turns)),
    ensures
        no_stale(worked(turns), all_msgs(turns)),
    decreases turns.len(),
{
    if turns.len() > 0 {
        let before = all_msgs(turns.drop_last());
        let all = all_msgs(turns);
        assert forall|i: int, j: int| 0 <= i < j < before.len() implies (#[trigger] before[i]).number
            < (#[trigger] before[j]).number by {
            assert(before[i] == all[i] && before[j] == all[j]);
        }
        lemma_worked_is_fresh(turns.drop_last());
        lemma_turn_is_fresh(worked(turns.drop_last()), before, turns.last());
    }
}

/// A commit ends its gesture: whatever the queue held and however it fell into turns,
/// an override that is set at the end came behind every message that ends its gesture.
/// None is left over from before a commit.
pub proof fn law_no_override_outlives_its_commit(turns: Seq<Turn>, gesture: Gesture, k: int)
    requires
        numbered(all_msgs(turns)),
        0 <= k < all_msgs(turns).len(),
        ended_by(all_msgs(turns)[k].kind) == Some(gesture),
    ensures
        held(worked(turns), gesture) matches Some(number) ==> all_msgs(turns)[k].number < number,
{
    lemma_worked_is_fresh(turns);
    assert(no_stale(worked(turns), all_msgs(turns)));
}

// --- reading ahead --------------------------------------------------------

/// How many ticks a scrub reads ahead.
pub const READ_AHEAD_TICKS: i64 = 4;

/// The next tick to read ahead of `tick`, after `done` ticks were; `None` at the
/// sequence end or when enough is read.
pub fn next_prefetch(tick: i64, done: i64, end: i64) -> (r: Option<i64>)
    requires
        0 <= done,
        tick + READ_AHEAD_TICKS <= i64::MAX,
    ensures
        r == (if done < READ_AHEAD_TICKS && tick + done + 1 < end {
            Some((tick + done + 1) as i64)
        } else {
            None
        }),
{
    if done >= READ_AHEAD_TICKS {
        return None;
    }
    let target: i64 = tick + (done + 1);
    if target >= end {
        None
    } else {
        Some(target)
    }
}

} // verus!
