//! The assistant: what a prompt does to the transcript and to the plan that waits
//! for approval, and how a rehearsed plan is replayed.
//!
//! A plan is rehearsed on a copy of the project. Replay maps the ids that the copy
//! handed out onto those of the live project, and any failed step undoes the whole
//! plan.

use std::collections::HashMap;
use vstd::prelude::*;
use vstd::string::StringExecFns;

use crate::text::{decimal, push_decimal, str_eq};

verus! {

// --- transcript -----------------------------------------------------------

/// A line of the transcript. Kinds: "user", "assistant", "action", "status",
/// "applied", "error".
#[derive(Debug)]
pub struct AgentEntry {
    pub kind: String,
    pub text: String,
}

/// The contents of an [`AgentEntry`].
pub struct EntryView {
    pub kind: Seq<char>,
    pub text: Seq<char>,
}

impl View for AgentEntry {
    type V = EntryView;

    open spec fn view(&self) -> EntryView {
        EntryView { kind: self.kind@, text: self.text@ }
    }
}

/// The contents of a transcript.
pub open spec fn entries(transcript: Seq<AgentEntry>) -> Seq<EntryView> {
    transcript.map_values(|e: AgentEntry| e@)
}

/// Append a line.
pub fn push_entry(transcript: &mut Vec<AgentEntry>, kind: &str, text: &str)
    ensures
        entries(final(transcript)@) == entries(old(transcript)@).push(
            EntryView { kind: kind@, text: text@ },
        ),
{
    let ghost was = entries(transcript@);
    transcript.push(AgentEntry { kind: kind.to_owned(), text: text.to_owned() });
    assert(entries(transcript@) =~= was.push(EntryView { kind: kind@, text: text@ }));
}

/// Streamed text joins the trailing assistant line, or opens one.
pub open spec fn with_delta(lines: Seq<EntryView>, delta: Seq<char>) -> Seq<EntryView> {
    if lines.len() > 0 && lines.last().kind == "assistant"@ {
        lines.drop_last().push(
            EntryView { kind: "assistant"@, text: lines.last().text + delta },
        )
    } else {
        lines.push(EntryView { kind: "assistant"@, text: delta })
    }
}

/// Append streamed text to the trailing assistant line, opening one when the last
/// line is another.
pub fn append_assistant_text(transcript: &mut Vec<AgentEntry>, delta: &str)
    ensures
        entries(final(transcript)@) == with_delta(entries(old(transcript)@), delta@),
{
    let ghost lines = entries(transcript@);
    if transcript.len() > 0 {
        let joins: bool = str_eq(transcript[transcript.len() - 1].kind.as_str(), "assistant");
        assert(lines.last() == transcript@.last()@);
        if joins {
            match transcript.pop() {
                Some(last) => {
                    let mut text: String = last.text;
                    text.append(delta);
                    assert(entries(transcript@) =~= lines.drop_last());
                    let ghost before = entries(transcript@);
                    let line = AgentEntry { kind: last.kind, text };
                    let ghost shown = line@;
                    transcript.push(line);
                    assert(entries(transcript@) =~= before.push(shown));
                },
                None => {},
            }
            return;
        }
    }
    push_entry(transcript, "assistant", delta);
}

/// Streamed text is shown whole, at the end of the assistant's line, and no other line
/// changes.
pub proof fn law_streamed_text_is_shown(lines: Seq<EntryView>, delta: Seq<char>)
    ensures
        ({
            let after = with_delta(lines, delta);
            let goes_on = lines.len() > 0 && lines.last().kind == "assistant"@;
            &&& after.len() == (if goes_on {
                lines.len()
            } else {
                lines.len() + 1
            })
            &&& after.last().kind == "assistant"@
            &&& goes_on ==> after.last().text == lines.last().text + delta
            &&& !goes_on ==> after.last().text == delta
            &&& forall|k: int|
                0 <= k < after.len() - 1 ==> #[trigger] after[k] == lines[k]
        }),
{
}

/// Streaming text piece by piece shows the same as streaming it at once.
pub proof fn law_deltas_join(lines: Seq<EntryView>, a: Seq<char>, b: Seq<char>)
    ensures
        with_delta(with_delta(lines, a), b) == with_delta(lines, a + b),
{
    let mid = with_delta(lines, a);
    assert(mid.last().kind == "assistant"@);
    if lines.len() > 0 && lines.last().kind == "assistant"@ {
        assert(lines.last().text + a + b =~= lines.last().text + (a + b));
    }
    assert(mid.drop_last() =~= if lines.len() > 0 && lines.last().kind == "assistant"@ {
        lines.drop_last()
    } else {
        lines
    });
    assert(with_delta(mid, b) =~= with_delta(lines, a + b));
}

// --- prompts and plans ----------------------------------------------------

/// The stages of a prompt before the model runs.
#[derive(Clone, Copy, Debug, PartialEq, Eq, Structural)]
pub enum PromptStage {
    /// Read the provider's configuration.
    LoadConfig,
    /// Find the provider's key.
    ResolveKey,
    /// Start the engine that the prompt is rehearsed on.
    StartSandbox,
    /// Copy the live project.
    Snapshot,
    /// Run the prompt.
    Run,
    /// Nothing more to do.
    Stopped,
}

/// How a stage went.
#[derive(Debug)]
pub enum StageEvent {
    Passed,
    /// There is no provider in the configuration at this path.
    NotConfigured { config_path: String },
    Failed { reason: String },
    /// The live engine did not answer.
    NoAnswer,
}

/// The stage that follows one that passed.
pub open spec fn stage_after(stage: PromptStage) -> PromptStage {
    match stage {
        PromptStage::LoadConfig => PromptStage::ResolveKey,
        PromptStage::ResolveKey => PromptStage::StartSandbox,
        PromptStage::StartSandbox => PromptStage::Snapshot,
        PromptStage::Snapshot => PromptStage::Run,
        PromptStage::Run => PromptStage::Stopped,
        PromptStage::Stopped => PromptStage::Stopped,
    }
}

/// What a prompt without a provider is answered.
pub open spec fn unconfigured_text(config_path: Seq<char>) -> Seq<char> {
    "No AI provider configured. Add an [ai] table to "@ + config_path
        + " (base_url + model), then send again."@
}

fn unconfigured_line(config_path: &str) -> (r: String)
    ensures
        r@ == unconfigured_text(config_path@),
{
    let mut text: String = "No AI provider configured. Add an [ai] table to ".to_owned();
    text.append(config_path);
    text.append(" (base_url + model), then send again.");
    text
}

/// The error line that a stage leaves, if any.
pub open spec fn stage_error(event: StageEvent) -> Option<Seq<char>> {
    match event {
        StageEvent::Passed => None,
        StageEvent::NotConfigured { config_path } => Some(unconfigured_text(config_path@)),
        StageEvent::Failed { reason } => Some(reason@),
        StageEvent::NoAnswer => Some("The editor engine is not responding."@),
    }
}

/// Take in how a stage went: the next stage, and whether a provider is now known
/// to be configured. A stage that does not pass stops the prompt with an error
/// line.
pub fn on_stage(transcript: &mut Vec<AgentEntry>, stage: PromptStage, event: &StageEvent) -> (r: (
    PromptStage,
    Option<bool>,
))
    ensures
        r.0 == (if *event is Passed {
            stage_after(stage)
        } else {
            PromptStage::Stopped
        }),
        r.1 == (match *event {
            StageEvent::Passed => if stage == PromptStage::ResolveKey {
                Some(true)
            } else {
                None
            },
            StageEvent::NotConfigured { .. } => Some(false),
            _ => None,
        }),
        entries(final(transcript)@) == match stage_error(*event) {
            None => entries(old(transcript)@),
            Some(text) => entries(old(transcript)@).push(EntryView { kind: "error"@, text }),
        },
{
    match event {
        StageEvent::Passed => match stage {
            PromptStage::LoadConfig => (PromptStage::ResolveKey, None),
            PromptStage::ResolveKey => (PromptStage::StartSandbox, Some(true)),
            PromptStage::StartSandbox => (PromptStage::Snapshot, None),
            PromptStage::Snapshot => (PromptStage::Run, None),
            PromptStage::Run => (PromptStage::Stopped, None),
            PromptStage::Stopped => (PromptStage::Stopped, None),
        },
        StageEvent::NotConfigured { config_path } => {
            let text = unconfigured_line(config_path.as_str());
            push_entry(transcript, "error", text.as_str());
            (PromptStage::Stopped, Some(false))
        },
        StageEvent::Failed { reason } => {
            push_entry(transcript, "error", reason.as_str());
            (PromptStage::Stopped, None)
        },
        StageEvent::NoAnswer => {
            push_entry(transcript, "error", "The editor engine is not responding.");
            (PromptStage::Stopped, None)
        },
    }
}

/// How a prompt ended.
#[derive(Debug)]
pub enum PromptEnd {
    Aborted { reason: String },
    Completed,
}

/// What to do with a rehearsed plan.
#[derive(Clone, Copy, Debug, PartialEq, Eq, Structural)]
pub enum PlanNext {
    /// There is none, or it was given up.
    Nothing,
    /// Show it and wait for approval.
    Park,
    /// Replay it.
    Apply,
}

/// The plan that waits for approval: its number of steps, 0 when there is none.
#[derive(Clone, Copy, Debug, PartialEq, Eq, Structural)]
pub struct PendingPlan {
    pub steps: usize,
}

/// What an aborted prompt is answered.
pub open spec fn abort_text(reason: Seq<char>) -> Seq<char> {
    if reason == "cancelled"@ {
        "Stopped — nothing was applied."@
    } else {
        reason + " — nothing was applied."@
    }
}

fn abort_line(reason: &str) -> (r: String)
    ensures
        r@ == abort_text(reason@),
{
    if str_eq(reason, "cancelled") {
        "Stopped — nothing was applied.".to_owned()
    } else {
        let mut text: String = reason.to_owned();
        text.append(" — nothing was applied.");
        text
    }
}

impl PendingPlan {
    /// No plan.
    pub fn none() -> (r: Self)
        ensures
            r.steps == 0,
    {
        PendingPlan { steps: 0 }
    }

    /// A new prompt: a waiting plan was rehearsed against a project that the prompt
    /// is about to replace, so it is discarded.
    pub fn on_prompt(&mut self, transcript: &mut Vec<AgentEntry>, prompt: &str)
        ensures
            final(self).steps == 0,
            ({
                let said = EntryView { kind: "user"@, text: prompt@ };
                entries(final(transcript)@) == if old(self).steps > 0 {
                    entries(old(transcript)@).push(
                        EntryView { kind: "status"@, text: "Pending plan discarded."@ },
                    ).push(said)
                } else {
                    entries(old(transcript)@).push(said)
                }
            }),
    {
        if self.steps > 0 {
            self.steps = 0;
            push_entry(transcript, "status", "Pending plan discarded.");
        }
        push_entry(transcript, "user", prompt);
    }

    /// A prompt ended with a rehearsed plan of `steps` steps: an aborted one is
    /// given up, and a dry run parks it.
    pub fn on_finished(
        &mut self,
        transcript: &mut Vec<AgentEntry>,
        end: &PromptEnd,
        steps: usize,
        dry_run: bool,
    ) -> (r: PlanNext)
        ensures
            match *end {
                PromptEnd::Aborted { reason } => {
                    &&& r == PlanNext::Nothing
                    &&& *final(self) == *old(self)
                    &&& entries(final(transcript)@) == entries(old(transcript)@).push(
                        EntryView { kind: "error"@, text: abort_text(reason@) },
                    )
                },
                PromptEnd::Completed => {
                    &&& entries(final(transcript)@) == entries(old(transcript)@)
                    &&& r == (if steps == 0 {
                        PlanNext::Nothing
                    } else if dry_run {
                        PlanNext::Park
                    } else {
                        PlanNext::Apply
                    })
                    &&& final(self).steps == (if r == PlanNext::Park {
                        steps
                    } else {
                        old(self).steps
                    })
                },
            },
    {
        match end {
            PromptEnd::Aborted { reason } => {
                let text = abort_line(reason.as_str());
                push_entry(transcript, "error", text.as_str());
                PlanNext::Nothing
            },
            PromptEnd::Completed => {
                if steps == 0 {
                    PlanNext::Nothing
                } else if dry_run {
                    self.steps = steps;
                    PlanNext::Park
                } else {
                    PlanNext::Apply
                }
            },
        }
    }

    /// The user approved: the waiting plan is taken; says whether there is one.
    pub fn on_apply(&mut self) -> (r: bool)
        ensures
            r == (old(self).steps > 0),
            final(self).steps == 0,
    {
        let had: bool = self.steps > 0;
        self.steps = 0;
        had
    }

    /// The user declined: the waiting plan is dropped.
    pub fn on_discard(&mut self, transcript: &mut Vec<AgentEntry>)
        ensures
            final(self).steps == 0,
            entries(final(transcript)@) == if old(self).steps > 0 {
                entries(old(transcript)@).push(
                    EntryView {
                        kind: "status"@,
                        text: "Plan discarded — nothing was applied."@,
                    },
                )
            } else {
                entries(old(transcript)@)
            },
    {
        if self.steps > 0 {
            self.steps = 0;
            push_entry(transcript, "status", "Plan discarded — nothing was applied.");
        }
    }
}

/// How the replay of a plan went; `None` when the engine did not answer.
pub open spec fn replay_line(count: nat, outcome: Option<Result<(), Seq<char>>>) -> EntryView {
    match outcome {
        Some(Ok(_)) => EntryView {
            kind: "applied"@,
            text: "Applied "@ + decimal(count) + " edit"@ + (if count == 1 {
                ""@
            } else {
                "s"@
            }) + " as one undo step."@,
        },
        Some(Err(why)) => EntryView {
            kind: "error"@,
            text: "Could not apply the plan: "@ + why + ". Nothing was changed."@,
        },
        None => EntryView { kind: "error"@, text: "The editor engine is not responding."@ },
    }
}

/// Report a replay of `count` steps; says whether an undo is offered.
pub fn report_replay(
    transcript: &mut Vec<AgentEntry>,
    count: u64,
    outcome: &Option<Result<(), String>>,
) -> (r: bool)
    ensures
        ({
            let seen = match *outcome {
                Some(Ok(_)) => Some(Ok(())),
                Some(Err(why)) => Some(Err(why@)),
                None => None,
            };
            &&& r == (*outcome matches Some(Ok(_)))
            &&& entries(final(transcript)@) == entries(old(transcript)@).push(
                replay_line(count as nat, seen),
            )
        }),
{
    match outcome {
        Some(Ok(_)) => {
            let mut text: String = "Applied ".to_owned();
            push_decimal(&mut text, count);
            text.append(" edit");
            if count == 1 {
                text.append("");
            } else {
                text.append("s");
            }
            text.append(" as one undo step.");
            push_entry(transcript, "applied", text.as_str());
            true
        },
        Some(Err(why)) => {
            let mut text: String = "Could not apply the plan: ".to_owned();
            text.append(why.as_str());
            text.append(". Nothing was changed.");
            push_entry(transcript, "error", text.as_str());
            false
        },
        None => {
            push_entry(transcript, "error", "The editor engine is not responding.");
            false
        },
    }
}

// --- replay ---------------------------------------------------------------

/// What a rehearsed step created, by the id that the copy handed out.
#[derive(Clone, Copy, Debug, PartialEq, Eq, Structural)]
pub enum AgentCreated {
    Clip(u64),
    Track(u64),
    Marker(u64),
}

/// What a live step created.
#[derive(Clone, Copy, Debug, PartialEq, Eq, Structural)]
pub enum LiveOutcome {
    Created(u64),
    CreatedTrack(u64),
    CreatedMarker(u64),
    Other,
}

/// How a live step went.
#[derive(Debug)]
pub enum StepEvent {
    Edited(LiveOutcome),
    Failed { reason: String },
}

/// What the replay does next.
#[derive(Debug)]
pub enum ReplayNext {
    /// Apply the next step.
    Step,
    /// Every step is applied: commit the group.
    Commit,
    /// Roll the group back and report.
    RollBack { report: String },
}

/// A replay: how many steps there are and are done, and the ids so far.
pub struct Replay {
    pub total: u64,
    pub done: u64,
    pub clips: HashMap<u64, u64>,
    pub tracks: HashMap<u64, u64>,
    pub markers: HashMap<u64, u64>,
}

/// The live id that stands for a rehearsed one: the recorded one, else itself.
pub open spec fn live_id(map: Map<u64, u64>, id: u64) -> u64 {
    if map.contains_key(id) {
        map[id]
    } else {
        id
    }
}

/// What a failed step is reported as.
pub open spec fn failure_text(step: nat, total: nat, reason: Seq<char>) -> Seq<char> {
    "step "@ + decimal(step) + "/"@ + decimal(total) + ": "@ + reason
}

fn lookup(map: &HashMap<u64, u64>, id: u64) -> (r: u64)
    ensures
        r == live_id(map@, id),
{
    broadcast use vstd::std_specs::hash::group_hash_axioms;

    match map.get(&id) {
        Some(live) => *live,
        None => id,
    }
}

impl Replay {
    /// A replay of `total` steps.
    pub fn new(total: u64) -> (r: Self)
        ensures
            r.total == total,
            r.done == 0,
            r.clips@ == Map::<u64, u64>::empty(),
            r.tracks@ == Map::<u64, u64>::empty(),
            r.markers@ == Map::<u64, u64>::empty(),
    {
        Replay {
            total,
            done: 0,
            clips: HashMap::new(),
            tracks: HashMap::new(),
            markers: HashMap::new(),
        }
    }

    /// The live id of a clip that a step names.
    pub fn clip(&self, id: u64) -> (r: u64)
        ensures
            r == live_id(self.clips@, id),
    {
        lookup(&self.clips, id)
    }

    /// The live id of a lane that a step names.
    pub fn track(&self, id: u64) -> (r: u64)
        ensures
            r == live_id(self.tracks@, id),
    {
        lookup(&self.tracks, id)
    }

    /// The live id of a marker that a step names.
    pub fn marker(&self, id: u64) -> (r: u64)
        ensures
            r == live_id(self.markers@, id),
    {
        lookup(&self.markers, id)
    }

    /// Take in how a step went. A success records the id it created, when both
    /// sides created the same sort of thing; a failure ends the replay.
    pub fn on_step(&mut self, created: Option<AgentCreated>, event: &StepEvent) -> (r: ReplayNext)
        requires
            old(self).done < old(self).total,
        ensures
            final(self).total == old(self).total,
            match *event {
                StepEvent::Failed { reason } => {
                    &&& r matches ReplayNext::RollBack { report } && report@ == failure_text(
                        (old(self).done + 1) as nat,
                        old(self).total as nat,
                        reason@,
                    )
                    &&& final(self).done == old(self).done
                    &&& final(self).clips@ == old(self).clips@
                    &&& final(self).tracks@ == old(self).tracks@
                    &&& final(self).markers@ == old(self).markers@
                },
                StepEvent::Edited(live) => {
                    &&& final(self).done == old(self).done + 1
                    &&& r == (if final(self).done == final(self).total {
                        ReplayNext::Commit
                    } else {
                        ReplayNext::Step
                    })
                    &&& final(self).clips@ == match (created, live) {
                        (Some(AgentCreated::Clip(old_id)), LiveOutcome::Created(new_id)) => old(
                            self,
                        ).clips@.insert(old_id, new_id),
                        _ => old(self).clips@,
                    }
                    &&& final(self).tracks@ == match (created, live) {
                        (Some(AgentCreated::Track(old_id)), LiveOutcome::CreatedTrack(new_id)) => old(
                            self,
                        ).tracks@.insert(old_id, new_id),
                        _ => old(self).tracks@,
                    }
                    &&& final(self).markers@ == match (created, live) {
                        (Some(AgentCreated::Marker(old_id)), LiveOutcome::CreatedMarker(new_id)) => old(
                            self,
                        ).markers@.insert(old_id, new_id),
                        _ => old(self).markers@,
                    }
                },
            },
    {
        broadcast use vstd::std_specs::hash::group_hash_axioms;

        match event {
            StepEvent::Failed { reason } => {
                let mut report: String = "step ".to_owned();
                push_decimal(&mut report, self.done + 1);
                report.append("/");
                push_decimal(&mut report, self.total);
                report.append(": ");
                report.append(reason.as_str());
                ReplayNext::RollBack { report }
            },
            StepEvent::Edited(live) => {
                match (created, *live) {
                    (Some(AgentCreated::Clip(old_id)), LiveOutcome::Created(new_id)) => {
                        self.clips.insert(old_id, new_id);
                    },
                    (Some(AgentCreated::Track(old_id)), LiveOutcome::CreatedTrack(new_id)) => {
                        self.tracks.insert(old_id, new_id);
                    },
                    (Some(AgentCreated::Marker(old_id)), LiveOutcome::CreatedMarker(new_id)) => {
                        self.markers.insert(old_id, new_id);
                    },
                    _ => {},
                }
                self.done = self.done + 1;
                if self.done == self.total {
                    ReplayNext::Commit
                } else {
                    ReplayNext::Step
                }
            },
        }
    }
}

/// A step that names what an earlier one created reaches the live counterpart:
/// once recorded, an id maps to the live id, and every other id is unchanged.
pub proof fn law_replay_remaps(map: Map<u64, u64>, rehearsed: u64, live: u64, other: u64)
    requires
        other != rehearsed,
    ensures
        live_id(map.insert(rehearsed, live), rehearsed) == live,
        live_id(map.insert(rehearsed, live), other) == live_id(map, other),
{
}

} // verus!
